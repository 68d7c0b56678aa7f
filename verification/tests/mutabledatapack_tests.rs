use datapack::error::PackError;
use datapack::meta::Metadata;
use datapack::mutabledatapack::MutableDataPack;
use datapack::types::{DataPackVersion, Delta, Key};

use sha1::{Digest, Sha1};

fn hgid(n: u8) -> Vec<u8> {
    let mut v = vec![0u8; 20];
    v[19] = n;
    v
}

fn key(path: &[u8], n: u8) -> Key {
    Key::new(path.to_vec(), hgid(n))
}

fn default_meta() -> Metadata {
    Metadata { flags: None, size: None }
}

fn to_hex(bytes: &[u8]) -> String {
    let mut s = String::new();
    for b in bytes {
        s.push(char::from_digit((b >> 4) as u32, 16).unwrap());
        s.push(char::from_digit((b & 0xf) as u32, 16).unwrap());
    }
    s
}

#[test]
fn test_basic_creation() {
    let mut mutdatapack = MutableDataPack::new(true, DataPackVersion::One).unwrap();
    let delta = Delta {
        data: vec![0, 1, 2],
        base: None,
        key: Key::new(Vec::new(), hgid(1)),
    };
    mutdatapack.add(&delta, &default_meta()).expect("add");
    let files = mutdatapack.flush().expect("flush").unwrap();

    // the pack's name is the hex digest of the whole data stream
    let mut hasher = Sha1::new();
    hasher.update(&files.data);
    let hash = to_hex(&hasher.finalize());
    assert_eq!(hash.as_bytes(), files.name.as_slice());
}

#[test]
fn test_get_delta_chain() {
    let mut mutdatapack = MutableDataPack::new(true, DataPackVersion::One).unwrap();
    let delta = Delta {
        data: vec![0, 1, 2],
        base: None,
        key: Key::new(Vec::new(), hgid(1)),
    };
    mutdatapack.add(&delta, &default_meta()).unwrap();
    let delta2 = Delta {
        data: vec![0, 1, 2],
        base: Some(Key::new(Vec::new(), delta.key.hgid.clone())),
        key: Key::new(Vec::new(), hgid(2)),
    };
    mutdatapack.add(&delta2, &default_meta()).unwrap();

    let chain = mutdatapack.get_delta_chain(&delta.key).unwrap();
    assert_eq!(&vec![delta.clone()], &chain.unwrap());

    let chain = mutdatapack.get_delta_chain(&delta2.key).unwrap();
    assert_eq!(&vec![delta2.clone(), delta.clone()], &chain.unwrap());
}

#[test]
fn test_get_partial_delta_chain() {
    let mut mutdatapack = MutableDataPack::new(true, DataPackVersion::One).unwrap();

    let delta = Delta {
        data: vec![0, 1, 2],
        base: Some(key(b"a", 1)),
        key: key(b"a", 2),
    };

    mutdatapack.add(&delta, &default_meta()).unwrap();
    let chain = mutdatapack.get_delta_chain(&delta.key).unwrap().unwrap();
    assert_eq!(chain.len(), 1);
    assert_eq!(chain.get(0), Some(&delta));
}

#[test]
fn mutabledatapack_test_get_meta() {
    let mut mutdatapack = MutableDataPack::new(true, DataPackVersion::One).unwrap();
    let delta = Delta {
        data: vec![0, 1, 2],
        base: None,
        key: Key::new(Vec::new(), hgid(1)),
    };
    mutdatapack.add(&delta, &default_meta()).unwrap();
    let delta2 = Delta {
        data: vec![0, 1, 2],
        base: None,
        key: Key::new(Vec::new(), hgid(2)),
    };
    let meta2 = Metadata { flags: Some(2), size: Some(1000) };
    mutdatapack.add(&delta2, &meta2).unwrap();

    // requesting a default metadata
    let found_meta = mutdatapack.get_meta(&delta.key).unwrap();
    assert_eq!(found_meta.unwrap(), default_meta());

    // requesting a specified metadata
    let found_meta = mutdatapack.get_meta(&delta2.key).unwrap();
    assert_eq!(found_meta.unwrap(), meta2);

    // requesting a non-existent metadata
    let not = key(b"not", 100);
    assert_eq!(mutdatapack.get_meta(&not).unwrap(), None);
}

#[test]
fn mutabledatapack_test_get_missing() {
    let mut mutdatapack = MutableDataPack::new(true, DataPackVersion::One).unwrap();
    let delta = Delta {
        data: vec![0, 1, 2],
        base: None,
        key: Key::new(Vec::new(), hgid(1)),
    };
    mutdatapack.add(&delta, &default_meta()).unwrap();

    let not = key(b"not", 100);
    let missing = mutdatapack
        .get_missing(&vec![delta.key, not.clone()])
        .unwrap();
    assert_eq!(missing, vec![not]);
}

#[test]
fn mutabledatapack_test_empty() {
    let mut mutdatapack = MutableDataPack::new(true, DataPackVersion::One).unwrap();
    assert!(mutdatapack.flush().unwrap().is_none());
    assert!(mutdatapack.flush().unwrap().is_none());
}

#[test]
fn test_invalid_directory() {
    assert_eq!(
        MutableDataPack::new(false, DataPackVersion::One).unwrap_err(),
        PackError::InvalidDirectory
    );
}

#[test]
fn test_unsupported_version() {
    assert_eq!(
        MutableDataPack::new(true, DataPackVersion::Zero).unwrap_err(),
        PackError::UnsupportedVersion
    );
}

#[test]
fn test_empty_pack_build() {
    let mutdatapack = MutableDataPack::new(true, DataPackVersion::One).unwrap();
    assert_eq!(mutdatapack.build_files().unwrap_err(), PackError::EmptyPack);
}

#[test]
fn test_raw_get_unsupported() {
    let mutdatapack = MutableDataPack::new(true, DataPackVersion::One).unwrap();
    let k = key(b"a", 1);
    assert_eq!(mutdatapack.get(&k).unwrap_err(), PackError::Unsupported);
}

#[test]
fn test_path_length_boundary() {
    let mut mutdatapack = MutableDataPack::new(true, DataPackVersion::One).unwrap();

    // a path of exactly the maximum representable length succeeds
    let delta = Delta {
        data: vec![9],
        base: None,
        key: Key::new(vec![b'p'; 65535], hgid(1)),
    };
    assert!(mutdatapack.add(&delta, &default_meta()).is_ok());
    assert_eq!(
        mutdatapack.get_delta(&delta.key).unwrap().unwrap().data,
        vec![9]
    );

    // one byte longer fails with the path-too-long condition
    let delta2 = Delta {
        data: vec![9],
        base: None,
        key: Key::new(vec![b'p'; 65536], hgid(2)),
    };
    assert_eq!(
        mutdatapack.add(&delta2, &default_meta()).unwrap_err(),
        PackError::PathTooLong
    );
    assert_eq!(mutdatapack.get_delta(&delta2.key).unwrap(), None);
}

#[test]
fn test_metadata_defaulting() {
    let mut mutdatapack = MutableDataPack::new(true, DataPackVersion::One).unwrap();
    let plain = Delta {
        data: vec![1],
        base: None,
        key: Key::new(Vec::new(), hgid(1)),
    };
    mutdatapack.add(&plain, &default_meta()).unwrap();
    let explicit = Delta {
        data: vec![2],
        base: None,
        key: Key::new(Vec::new(), hgid(2)),
    };
    let zeros = Metadata { flags: Some(0), size: Some(0) };
    mutdatapack.add(&explicit, &zeros).unwrap();

    let m1 = mutdatapack.get_meta(&plain.key).unwrap().unwrap();
    assert_eq!(m1.flags, None);
    assert_eq!(m1.size, None);

    // explicitly-set zero fields stay distinguishable from absent ones
    let m2 = mutdatapack.get_meta(&explicit.key).unwrap().unwrap();
    assert_eq!(m2.flags, Some(0));
    assert_eq!(m2.size, Some(0));
    assert_ne!(m1, m2);
}

#[test]
fn test_last_write_wins() {
    let mut mutdatapack = MutableDataPack::new(true, DataPackVersion::One).unwrap();
    let first = Delta {
        data: vec![1, 1, 1],
        base: None,
        key: Key::new(Vec::new(), hgid(1)),
    };
    mutdatapack.add(&first, &default_meta()).unwrap();
    let second = Delta {
        data: vec![2, 2],
        base: None,
        key: Key::new(Vec::new(), hgid(1)),
    };
    mutdatapack.add(&second, &default_meta()).unwrap();
    let read = mutdatapack.get_delta(&second.key).unwrap().unwrap();
    assert_eq!(read.data, vec![2, 2]);
}
