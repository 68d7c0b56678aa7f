//! Selection of a commit-storage backend from a store's declared requirement
//! flags, and the store-relative paths each backend opens. Opening the chosen
//! backend touches the filesystem and lives with the caller; the decisions
//! live here.

use vstd::prelude::*;

use vstd::string::{StrSliceExecFns, StringExecFns};

verus! {

/// The commit-storage backends a store can declare, in priority order: a git
/// store, a lazy-changelog hybrid, a double-write changelog, or the plain
/// revlog backend.
#[derive(Clone, Copy, Debug, PartialEq, Eq, Structural)]
pub enum CommitsBackend {
    Git,
    Hybrid,
    DoubleWrite,
    Revlog,
}

/// Whether some requirement line equals `flag`.
pub open spec fn spec_has_requirement(reqs: Seq<Seq<char>>, flag: Seq<char>) -> bool {
    exists|i: int| 0 <= i < reqs.len() && reqs[i] == flag
}

/// The views of a requirement list.
pub open spec fn req_views(reqs: Seq<String>) -> Seq<Seq<char>> {
    reqs.map_values(|s: String| s@)
}

/// Which backend a store's requirement flags select: a git store first, then
/// a lazy changelog, then a double-write changelog, else the revlog backend.
pub open spec fn spec_select_backend(reqs: Seq<Seq<char>>) -> CommitsBackend {
    if spec_has_requirement(reqs, "git-store"@) {
        CommitsBackend::Git
    } else if spec_has_requirement(reqs, "lazychangelog"@) {
        CommitsBackend::Hybrid
    } else if spec_has_requirement(reqs, "doublewritechangelog"@) {
        CommitsBackend::DoubleWrite
    } else {
        CommitsBackend::Revlog
    }
}

/// True when the requirement list holds `flag`.
fn has_requirement(reqs: &Vec<String>, flag: &String) -> (r: bool)
    ensures
        r == spec_has_requirement(req_views(reqs@), flag@),
{
    let n = reqs.len();
    let mut i: usize = 0;
    while i < n
        invariant
            i <= n,
            n == reqs@.len(),
            forall|j: int| 0 <= j < i ==> (#[trigger] req_views(reqs@)[j]) != flag@,
        decreases n - i,
    {
        let eq = reqs[i].eq(flag);
        assert(req_views(reqs@)[i as int] == reqs@[i as int]@);
        if eq {
            return true;
        }
        i = i + 1;
    }
    false
}

/// Selects the backend that the store's requirement flags call for.
pub fn select_backend(requirements: &Vec<String>) -> (r: CommitsBackend)
    ensures
        r == spec_select_backend(req_views(requirements@)),
{
    let git = String::from_str("git-store");
    let lazy = String::from_str("lazychangelog");
    let double = String::from_str("doublewritechangelog");
    if has_requirement(requirements, &git) {
        CommitsBackend::Git
    } else if has_requirement(requirements, &lazy) {
        CommitsBackend::Hybrid
    } else if has_requirement(requirements, &double) {
        CommitsBackend::DoubleWrite
    } else {
        CommitsBackend::Revlog
    }
}

/// The name under which a backend choice is logged.
pub open spec fn spec_log_name(backend: CommitsBackend) -> Seq<char> {
    match backend {
        CommitsBackend::Git => "git"@,
        CommitsBackend::Hybrid => "lazy"@,
        CommitsBackend::DoubleWrite => "doublewrite"@,
        CommitsBackend::Revlog => "rustrevlog"@,
    }
}

/// The line a caller logs for the chosen changelog backend.
pub fn log_backend(backend: CommitsBackend) -> (r: String)
    ensures
        r@ == spec_log_name(backend),
{
    match backend {
        CommitsBackend::Git => String::from_str("git"),
        CommitsBackend::Hybrid => String::from_str("lazy"),
        CommitsBackend::DoubleWrite => String::from_str("doublewrite"),
        CommitsBackend::Revlog => String::from_str("rustrevlog"),
    }
}

/// True of a path that names its location from the root.
pub open spec fn spec_is_absolute(p: Seq<char>) -> bool {
    p.len() > 0 && p[0] == '/'
}

/// Where a git-backed store keeps its git repository: the path written in
/// the store's git-location file, taken as is when absolute, otherwise
/// joined under the store path.
pub open spec fn spec_git_path(store: Seq<char>, contents: Seq<char>) -> Seq<char> {
    if spec_is_absolute(contents) {
        contents
    } else {
        store + "/"@ + contents
    }
}

/// Resolves the git repository path from the store path and the contents of
/// the store's git-location file.
pub fn calculate_git_path(store_path: &String, git_file_contents: &String) -> (r: String)
    ensures
        r@ == spec_git_path(store_path@, git_file_contents@),
{
    let n = git_file_contents.as_str().unicode_len();
    let absolute = n > 0 && git_file_contents.as_str().get_char(0) == '/';
    if absolute {
        let r = String::from_str(git_file_contents.as_str());
        r
    } else {
        let mut r = String::from_str(store_path.as_str());
        r.append("/");
        r.append(git_file_contents.as_str());
        r
    }
}

/// The store-relative location of the segmented changelog.
pub fn calculate_segments_path(store_path: &String) -> (r: String)
    ensures
        r@ == store_path@ + "/"@ + "segments/v1"@,
{
    let mut r = String::from_str(store_path.as_str());
    r.append("/");
    r.append("segments/v1");
    r
}

} // verus!
