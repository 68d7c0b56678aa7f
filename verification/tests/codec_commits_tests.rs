use datapack::codec::to_hex;
use datapack::commits::{
    calculate_git_path, calculate_segments_path, log_backend, select_backend, CommitsBackend,
};

#[test]
fn test_hex_known_value() {
    assert_eq!(to_hex(&vec![0x00u8, 0x0f, 0xa5, 0xff]), b"000fa5ff".to_vec());
}

#[test]
fn test_select_backend_priority() {
    let none: Vec<String> = vec!["generaldelta".to_string()];
    assert_eq!(select_backend(&none), CommitsBackend::Revlog);

    let double = vec!["doublewritechangelog".to_string()];
    assert_eq!(select_backend(&double), CommitsBackend::DoubleWrite);

    let lazy = vec![
        "doublewritechangelog".to_string(),
        "lazychangelog".to_string(),
    ];
    assert_eq!(select_backend(&lazy), CommitsBackend::Hybrid);

    let git = vec![
        "lazychangelog".to_string(),
        "git-store".to_string(),
    ];
    assert_eq!(select_backend(&git), CommitsBackend::Git);
}

#[test]
fn test_log_backend_names() {
    assert_eq!(log_backend(CommitsBackend::Git), "git");
    assert_eq!(log_backend(CommitsBackend::Hybrid), "lazy");
    assert_eq!(log_backend(CommitsBackend::DoubleWrite), "doublewrite");
    assert_eq!(log_backend(CommitsBackend::Revlog), "rustrevlog");
}

#[test]
fn test_calculate_git_path() {
    let store = ".hg/store".to_string();
    assert_eq!(
        calculate_git_path(&store, &"/srv/repo/.git".to_string()),
        "/srv/repo/.git"
    );
    assert_eq!(
        calculate_git_path(&store, &"gitdir/.git".to_string()),
        ".hg/store/gitdir/.git"
    );
}

#[test]
fn test_calculate_segments_path() {
    assert_eq!(
        calculate_segments_path(&".hg/store".to_string()),
        ".hg/store/segments/v1"
    );
}
