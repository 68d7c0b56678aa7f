//! Identity of stored content: keys, content ids, deltas, pack versions.

use vstd::prelude::*;

verus! {

/// Width in bytes of a content id.
pub const ID_LEN: usize = 20;

/// The all-zero sentinel id: a delta whose base carries it is a full text.
pub open spec fn spec_null_id() -> Seq<u8> {
    Seq::new(20, |i: int| 0u8)
}

/// A well-formed content id is exactly `ID_LEN` bytes.
pub open spec fn id_wf(s: Seq<u8>) -> bool {
    s.len() == ID_LEN
}

/// Identity of one versioned content unit: a path plus the fixed-width
/// content-derived digest of one revision of that path.
#[derive(Clone, Debug)]
pub struct Key {
    pub path: Vec<u8>,
    pub hgid: Vec<u8>,
}

impl Key {
    /// Equality and ordering of keys go by `(path, content id)`; lookups in a
    /// pack go by the content id alone.
    pub open spec fn wf(&self) -> bool {
        id_wf(self.hgid@)
    }

    pub fn new(path: Vec<u8>, hgid: Vec<u8>) -> (r: Key)
        ensures
            r.path == path,
            r.hgid == hgid,
    {
        Key { path, hgid }
    }
}

impl PartialEq for Key {
    fn eq(&self, other: &Key) -> (r: bool) {
        crate::bytes::bytes_eq(&self.path, &other.path) && crate::bytes::bytes_eq(
            &self.hgid,
            &other.hgid,
        )
    }
}

impl vstd::std_specs::cmp::PartialEqSpecImpl for Key {
    open spec fn obeys_eq_spec() -> bool {
        true
    }

    open spec fn eq_spec(&self, other: &Key) -> bool {
        self.path@ == other.path@ && self.hgid@ == other.hgid@
    }
}

/// A stored payload: either a full text (`base` is `None`) or a diff against
/// the revision named by `base`.
#[derive(Clone, Debug)]
pub struct Delta {
    pub data: Vec<u8>,
    pub base: Option<Key>,
    pub key: Key,
}

impl Delta {
    pub open spec fn wf(&self) -> bool {
        &&& self.key.wf()
        &&& match self.base {
            Some(b) => b.wf(),
            None => true,
        }
    }
}

impl PartialEq for Delta {
    fn eq(&self, other: &Delta) -> (r: bool) {
        let base_eq = match (&self.base, &other.base) {
            (Some(a), Some(b)) => a == b,
            (None, None) => true,
            _ => false,
        };
        base_eq && crate::bytes::bytes_eq(&self.data, &other.data) && self.key == other.key
    }
}

impl vstd::std_specs::cmp::PartialEqSpecImpl for Delta {
    open spec fn obeys_eq_spec() -> bool {
        true
    }

    open spec fn eq_spec(&self, other: &Delta) -> bool {
        &&& self.data@ == other.data@
        &&& match (self.base, other.base) {
            (Some(a), Some(b)) => a.path@ == b.path@ && a.hgid@ == b.hgid@,
            (None, None) => true,
            _ => false,
        }
        &&& self.key.path@ == other.key.path@ && self.key.hgid@ == other.key.hgid@
    }
}

/// Format version of a pack. Version zero is a write-only legacy placeholder:
/// never valid for new packs.
#[derive(Clone, Copy, Debug, PartialEq, Eq, Structural)]
pub enum DataPackVersion {
    Zero,
    One,
}

impl DataPackVersion {
    pub open spec fn spec_to_u8(self) -> u8 {
        match self {
            DataPackVersion::Zero => 0,
            DataPackVersion::One => 1,
        }
    }

    pub fn to_u8(self) -> (r: u8)
        ensures
            r == self.spec_to_u8(),
    {
        match self {
            DataPackVersion::Zero => 0,
            DataPackVersion::One => 1,
        }
    }
}

/// A fresh all-zero sentinel id.
pub fn null_id() -> (r: Vec<u8>)
    ensures
        r@ == spec_null_id(),
{
    let mut r: Vec<u8> = Vec::new();
    let mut i: usize = 0;
    while i < ID_LEN
        invariant
            i <= 20,
            r@ == Seq::new(i as nat, |j: int| 0u8),
        decreases 20 - i,
    {
        r.push(0u8);
        i = i + 1;
        assert(r@ =~= Seq::new(i as nat, |j: int| 0u8));
    }
    assert(r@ =~= spec_null_id());
    r
}

/// True when `id` is the all-zero sentinel.
pub fn is_null_id(id: &Vec<u8>) -> (r: bool)
    requires
        id_wf(id@),
    ensures
        r == (id@ == spec_null_id()),
{
    let n = id.len();
    let mut i: usize = 0;
    while i < n
        invariant
            i <= n,
            n == id@.len(),
            forall|j: int| 0 <= j < i ==> id@[j] == 0u8,
        decreases n - i,
    {
        if id[i] != 0 {
            assert(id@ != spec_null_id());
            return false;
        }
        i = i + 1;
    }
    assert(id@ =~= spec_null_id());
    true
}

} // verus!
