//! One data-file record: path length and path, content id, delta-base id (the
//! all-zero sentinel for a full text), compressed payload length and payload,
//! then the metadata block. Multi-byte fields are big-endian.

use vstd::prelude::*;

use crate::bytes::{
    append_bytes, be16_val, be64_val, copy_range, push_be16, push_be64, read_be16, read_be64,
    spec_be16, spec_be64,
};
use crate::error::PackError;
use crate::meta::{parse_meta, spec_meta_bytes, spec_parse_meta, write_meta, Metadata};
use crate::types::{Delta, spec_null_id};
use crate::codec::unlz4_of;

verus! {

/// A record parsed out of a data file. The payload stays compressed until a
/// caller decompresses it.
pub struct Record {
    pub path: Vec<u8>,
    pub hgid: Vec<u8>,
    pub base: Vec<u8>,
    pub comp: Vec<u8>,
    pub meta: Metadata,
}

/// The mathematical shadow of a record.
pub ghost struct RecordV {
    pub path: Seq<u8>,
    pub hgid: Seq<u8>,
    pub base: Seq<u8>,
    pub comp: Seq<u8>,
    pub meta: Metadata,
}

impl View for Record {
    type V = RecordV;

    open spec fn view(&self) -> RecordV {
        RecordV {
            path: self.path@,
            hgid: self.hgid@,
            base: self.base@,
            comp: self.comp@,
            meta: self.meta,
        }
    }
}

/// The serialized form of one record.
pub open spec fn spec_record(
    path: Seq<u8>,
    hgid: Seq<u8>,
    base: Seq<u8>,
    comp: Seq<u8>,
    meta: Metadata,
) -> Seq<u8>
    recommends
        path.len() <= 0xFFFF,
        hgid.len() == 20,
        base.len() == 20,
{
    spec_be16(path.len() as u16) + path + hgid + base + spec_be64(comp.len() as u64) + comp
        + spec_meta_bytes(meta)
}

/// Parses one record out of exactly the bytes `s`. `None` marks a malformed
/// or truncated record.
pub open spec fn spec_parse_record(s: Seq<u8>) -> Option<RecordV> {
    if s.len() < 2 {
        None
    } else {
        let pl = be16_val(s.subrange(0, 2));
        if s.len() < 50 + pl {
            None
        } else {
            let cl = be64_val(s.subrange(42 + pl, 50 + pl));
            if s.len() < 50 + pl + cl {
                None
            } else {
                match spec_parse_meta(s.subrange(50 + pl + cl, s.len() as int)) {
                    Some(m) => Some(
                        RecordV {
                            path: s.subrange(2, 2 + pl),
                            hgid: s.subrange(2 + pl, 22 + pl),
                            base: s.subrange(22 + pl, 42 + pl),
                            comp: s.subrange(50 + pl, 50 + pl + cl),
                            meta: m,
                        },
                    ),
                    None => None,
                }
            }
        }
    }
}

/// Serializes one record and appends it to `buf`.
pub fn write_record(
    buf: &mut Vec<u8>,
    path: &Vec<u8>,
    hgid: &Vec<u8>,
    base: &Vec<u8>,
    comp: &Vec<u8>,
    meta: Metadata,
)
    requires
        path@.len() <= 0xFFFF,
        hgid@.len() == 20,
        base@.len() == 20,
    ensures
        final(buf)@ == old(buf)@ + spec_record(path@, hgid@, base@, comp@, meta),
{
    push_be16(buf, path.len() as u16);
    append_bytes(buf, path);
    append_bytes(buf, hgid);
    append_bytes(buf, base);
    push_be64(buf, comp.len() as u64);
    append_bytes(buf, comp);
    write_meta(buf, meta);
    assert(buf@ =~= old(buf)@ + spec_record(path@, hgid@, base@, comp@, meta));
}

/// Parses the record occupying exactly `buf[start..end]`.
pub fn parse_record(buf: &Vec<u8>, start: usize, end: usize) -> (r: Result<Record, PackError>)
    requires
        start <= end <= buf@.len(),
    ensures
        r is Ok <==> spec_parse_record(buf@.subrange(start as int, end as int)) is Some,
        r matches Ok(rec) ==> spec_parse_record(buf@.subrange(start as int, end as int)) == Some(
            rec@,
        ),
        r matches Err(e) ==> e == PackError::Corrupt,
{
    let ghost s = buf@.subrange(start as int, end as int);
    let n = buf.len();
    if end - start < 2 {
        return Err(PackError::Corrupt);
    }
    let pl16 = read_be16(buf, start);
    proof {
        assert(buf@.subrange(start as int, start + 2) =~= s.subrange(0, 2));
    }
    let pl = pl16 as usize;
    if end - start < 50 || end - start - 50 < pl {
        assert(s.len() < 50 + be16_val(s.subrange(0, 2)));
        return Err(PackError::Corrupt);
    }
    let path = copy_range(buf, start + 2, start + 2 + pl);
    proof {
        assert(buf@.subrange(start + 2, start + 2 + pl) =~= s.subrange(2, 2 + pl));
    }
    let hgid = copy_range(buf, start + 2 + pl, start + 22 + pl);
    proof {
        assert(buf@.subrange(start + 2 + pl, start + 22 + pl) =~= s.subrange(2 + pl, 22 + pl));
    }
    let base = copy_range(buf, start + 22 + pl, start + 42 + pl);
    proof {
        assert(buf@.subrange(start + 22 + pl, start + 42 + pl) =~= s.subrange(22 + pl, 42 + pl));
    }
    let cl64 = read_be64(buf, start + 42 + pl);
    proof {
        assert(buf@.subrange(start + 42 + pl, start + 50 + pl) =~= s.subrange(42 + pl, 50 + pl));
    }
    let rem = end - start - 50 - pl;
    if cl64 > rem as u64 {
        return Err(PackError::Corrupt);
    }
    let cl = cl64 as usize;
    let comp = copy_range(buf, start + 50 + pl, start + 50 + pl + cl);
    proof {
        assert(buf@.subrange(start + 50 + pl, start + 50 + pl + cl) =~= s.subrange(
            50 + pl,
            50 + pl + cl,
        ));
    }
    let meta = parse_meta(buf, start + 50 + pl + cl, end);
    proof {
        assert(buf@.subrange(start + 50 + pl + cl, end as int) =~= s.subrange(
            50 + pl + cl,
            s.len() as int,
        ));
    }
    match meta {
        Ok(m) => Ok(Record { path, hgid, base, comp, meta: m }),
        Err(e) => Err(e),
    }
}

/// The content id a delta's record stores as its base: the base key's id, or
/// the all-zero sentinel for a full text.
pub open spec fn base_id_of(d: Delta) -> Seq<u8> {
    match d.base {
        None => spec_null_id(),
        Some(k) => k.hgid@,
    }
}

/// How a delta handed back by a read relates to the stored record it came
/// from: same decompressed payload, the queried path, the record's own id,
/// and a base key exactly when the stored base id is not the sentinel.
pub open spec fn delta_matches(d: Delta, path0: Seq<u8>, rv: RecordV) -> bool {
    &&& d.data@ == unlz4_of(rv.comp)
    &&& d.key.path@ == path0
    &&& d.key.hgid@ == rv.hgid
    &&& match d.base {
        None => rv.base == spec_null_id(),
        Some(b) => rv.base != spec_null_id() && b.path@ == path0 && b.hgid@ == rv.base,
    }
}

/// Round trip: a serialized record parses back to exactly what was written.
/// Together with the writer's and reader's contracts this carries every added
/// delta and its metadata across publishing unchanged.
pub proof fn lemma_record_roundtrip(
    path: Seq<u8>,
    hgid: Seq<u8>,
    base: Seq<u8>,
    comp: Seq<u8>,
    meta: Metadata,
)
    requires
        path.len() <= 0xFFFF,
        hgid.len() == 20,
        base.len() == 20,
        comp.len() <= u64::MAX,
    ensures
        spec_parse_record(spec_record(path, hgid, base, comp, meta)) == Some(
            RecordV { path, hgid, base, comp, meta },
        ),
{
    let s = spec_record(path, hgid, base, comp, meta);
    let pl = path.len() as int;
    let cl = comp.len() as int;
    crate::bytes::lemma_be16_roundtrip(path.len() as u16);
    crate::bytes::lemma_be64_roundtrip(comp.len() as u64);
    crate::meta::lemma_meta_roundtrip(meta);
    assert(s.subrange(0, 2) =~= spec_be16(path.len() as u16));
    assert(be16_val(s.subrange(0, 2)) == pl);
    assert(s.len() == 50 + pl + cl + spec_meta_bytes(meta).len());
    assert(s.subrange(42 + pl, 50 + pl) =~= spec_be64(comp.len() as u64));
    assert(be64_val(s.subrange(42 + pl, 50 + pl)) == cl);
    assert(s.subrange(2, 2 + pl) =~= path);
    assert(s.subrange(2 + pl, 22 + pl) =~= hgid);
    assert(s.subrange(22 + pl, 42 + pl) =~= base);
    assert(s.subrange(50 + pl, 50 + pl + cl) =~= comp);
    assert(s.subrange(50 + pl + cl, s.len() as int) =~= spec_meta_bytes(meta));
}

} // verus!
