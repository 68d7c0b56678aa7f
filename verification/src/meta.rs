//! The metadata block that trails each data-file record: a sequence of
//! key-tagged, length-prefixed items, one per present field, empty when no
//! field is set.

use vstd::prelude::*;

use crate::bytes::{
    be16_val, be32_val, be64_val, push_be16, push_be32, push_be64, read_be16, read_be32,
    read_be64, spec_be16, spec_be32, spec_be64,
};
use crate::error::PackError;

verus! {

/// Item tag for the flags field.
pub const META_KEY_FLAG: u8 = 0x66;

/// Item tag for the uncompressed-size field.
pub const META_KEY_SIZE: u8 = 0x73;

/// Optional auxiliary facts about a stored delta. Absent fields serialize as
/// omitted; the default is all-`None`.
#[derive(Clone, Copy, Debug)]
pub struct Metadata {
    pub flags: Option<u32>,
    pub size: Option<u64>,
}

impl Metadata {
    pub fn new() -> (r: Metadata)
        ensures
            r.flags is None,
            r.size is None,
    {
        Metadata { flags: None, size: None }
    }
}

impl PartialEq for Metadata {
    fn eq(&self, other: &Metadata) -> (r: bool) {
        let flags_eq = match (&self.flags, &other.flags) {
            (Some(a), Some(b)) => *a == *b,
            (None, None) => true,
            _ => false,
        };
        let size_eq = match (&self.size, &other.size) {
            (Some(a), Some(b)) => *a == *b,
            (None, None) => true,
            _ => false,
        };
        flags_eq && size_eq
    }
}

impl vstd::std_specs::cmp::PartialEqSpecImpl for Metadata {
    open spec fn obeys_eq_spec() -> bool {
        true
    }

    open spec fn eq_spec(&self, other: &Metadata) -> bool {
        self.flags == other.flags && self.size == other.size
    }
}

/// The serialized form of a metadata value: a flags item if present, then a
/// size item if present.
pub open spec fn spec_meta_bytes(m: Metadata) -> Seq<u8> {
    (match m.flags {
        Some(f) => seq![META_KEY_FLAG] + spec_be16(4) + spec_be32(f),
        None => Seq::<u8>::empty(),
    }) + (match m.size {
        Some(s) => seq![META_KEY_SIZE] + spec_be16(8) + spec_be64(s),
        None => Seq::<u8>::empty(),
    })
}

/// Parses the tail of a metadata block, after any flags item: either nothing
/// or exactly one size item.
pub open spec fn spec_parse_meta_size(s: Seq<u8>) -> Option<Option<u64>> {
    if s.len() == 0 {
        Some(None)
    } else if s[0] == META_KEY_SIZE && s.len() == 11 && be16_val(s.subrange(1, 3)) == 8 {
        Some(Some(be64_val(s.subrange(3, 11)) as u64))
    } else {
        None
    }
}

/// Parses a whole metadata block. `None` marks a malformed block.
pub open spec fn spec_parse_meta(s: Seq<u8>) -> Option<Metadata> {
    if s.len() == 0 {
        Some(Metadata { flags: None, size: None })
    } else if s[0] == META_KEY_FLAG {
        if s.len() >= 7 && be16_val(s.subrange(1, 3)) == 4 {
            match spec_parse_meta_size(s.subrange(7, s.len() as int)) {
                Some(sz) => Some(
                    Metadata { flags: Some(be32_val(s.subrange(3, 7)) as u32), size: sz },
                ),
                None => None,
            }
        } else {
            None
        }
    } else {
        match spec_parse_meta_size(s) {
            Some(sz) => Some(Metadata { flags: None, size: sz }),
            None => None,
        }
    }
}

/// Appends the serialized form of `m`.
pub fn write_meta(buf: &mut Vec<u8>, m: Metadata)
    ensures
        final(buf)@ == old(buf)@ + spec_meta_bytes(m),
{
    match m.flags {
        Some(f) => {
            buf.push(META_KEY_FLAG);
            push_be16(buf, 4);
            push_be32(buf, f);
        },
        None => {},
    }
    match m.size {
        Some(s) => {
            buf.push(META_KEY_SIZE);
            push_be16(buf, 8);
            push_be64(buf, s);
        },
        None => {},
    }
    assert(buf@ =~= old(buf)@ + spec_meta_bytes(m));
}

/// Parses the metadata block occupying `buf[start..end]`.
pub fn parse_meta(buf: &Vec<u8>, start: usize, end: usize) -> (r: Result<Metadata, PackError>)
    requires
        start <= end <= buf@.len(),
    ensures
        r == (match spec_parse_meta(buf@.subrange(start as int, end as int)) {
            Some(m) => Ok::<Metadata, PackError>(m),
            None => Err::<Metadata, PackError>(PackError::Corrupt),
        }),
{
    let ghost s = buf@.subrange(start as int, end as int);
    if start == end {
        return Ok(Metadata { flags: None, size: None });
    }
    if buf[start] == META_KEY_FLAG {
        if end - start >= 7 && {
            let l = read_be16(buf, start + 1);
            proof {
                assert(buf@.subrange(start + 1, start + 3) =~= s.subrange(1, 3));
            }
            l == 4
        } {
            let f = read_be32(buf, start + 3);
            proof {
                assert(buf@.subrange(start + 3, start + 7) =~= s.subrange(3, 7));
            }
            let sz = parse_meta_size(buf, start + 7, end);
            proof {
                assert(buf@.subrange(start + 7, end as int) =~= s.subrange(7, s.len() as int));
            }
            match sz {
                Ok(szv) => Ok(Metadata { flags: Some(f), size: szv }),
                Err(e) => Err(e),
            }
        } else {
            Err(PackError::Corrupt)
        }
    } else {
        let r = parse_meta_size(buf, start, end);
        match r {
            Ok(szv) => Ok(Metadata { flags: None, size: szv }),
            Err(e) => Err(e),
        }
    }
}

/// Parses the tail of a metadata block occupying `buf[start..end]`.
fn parse_meta_size(buf: &Vec<u8>, start: usize, end: usize) -> (r: Result<Option<u64>, PackError>)
    requires
        start <= end <= buf@.len(),
    ensures
        r == (match spec_parse_meta_size(buf@.subrange(start as int, end as int)) {
            Some(sz) => Ok::<Option<u64>, PackError>(sz),
            None => Err::<Option<u64>, PackError>(PackError::Corrupt),
        }),
{
    let ghost s = buf@.subrange(start as int, end as int);
    if start == end {
        return Ok(None);
    }
    if buf[start] == META_KEY_SIZE && end - start == 11 {
        let l = read_be16(buf, start + 1);
        proof {
            assert(buf@.subrange(start + 1, start + 3) =~= s.subrange(1, 3));
        }
        if l == 8 {
            let v = read_be64(buf, start + 3);
            proof {
                assert(buf@.subrange(start + 3, start + 11) =~= s.subrange(3, 11));
            }
            Ok(Some(v))
        } else {
            Err(PackError::Corrupt)
        }
    } else {
        Err(PackError::Corrupt)
    }
}

/// Round trip: a serialized metadata value parses back to itself.
pub proof fn lemma_meta_roundtrip(m: Metadata)
    ensures
        spec_parse_meta(spec_meta_bytes(m)) == Some(m),
{
    let s = spec_meta_bytes(m);
    crate::bytes::lemma_be16_roundtrip(4);
    crate::bytes::lemma_be16_roundtrip(8);
    match m.flags {
        Some(f) => {
            crate::bytes::lemma_be32_roundtrip(f);
            assert(s[0] == META_KEY_FLAG);
            assert(META_KEY_FLAG != META_KEY_SIZE);
            assert(s.subrange(1, 3) =~= spec_be16(4));
            assert(s.subrange(3, 7) =~= spec_be32(f));
            let tail = s.subrange(7, s.len() as int);
            match m.size {
                Some(sz) => {
                    crate::bytes::lemma_be64_roundtrip(sz);
                    assert(tail =~= seq![META_KEY_SIZE] + spec_be16(8) + spec_be64(sz));
                    assert(tail.subrange(1, 3) =~= spec_be16(8));
                    assert(tail.subrange(3, 11) =~= spec_be64(sz));
                    assert(spec_parse_meta_size(tail) == Some(Some(sz)));
                },
                None => {
                    assert(tail =~= Seq::<u8>::empty());
                },
            }
        },
        None => {
            match m.size {
                Some(sz) => {
                    crate::bytes::lemma_be64_roundtrip(sz);
                    assert(s =~= seq![META_KEY_SIZE] + spec_be16(8) + spec_be64(sz));
                    assert(s.subrange(1, 3) =~= spec_be16(8));
                    assert(s.subrange(3, 11) =~= spec_be64(sz));
                    assert(s[0] == META_KEY_SIZE);
                },
                None => {
                    assert(s =~= Seq::<u8>::empty());
                },
            }
        },
    }
}

} // verus!
