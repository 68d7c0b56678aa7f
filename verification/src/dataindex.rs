//! The pack index: a sorted, fanout-accelerated lookup from content id to the
//! byte offset, size and delta-base position of a record in the data file.
//!
//! On disk: one version byte, one config byte, a fanout table of one 4-byte
//! pointer per two-byte hash-prefix bucket, then the entry array sorted
//! ascending by content id.

use vstd::prelude::*;

use crate::bytes::{
    be32_val, be64_val, push_be32, push_be64, read_be32, read_be64, spec_be32, spec_be64,
    append_bytes, copy_range,
};
use crate::error::PackError;

verus! {

/// Strict lexicographic order on byte strings.
pub open spec fn lex_lt(a: Seq<u8>, b: Seq<u8>) -> bool
    decreases a.len(),
{
    if b.len() == 0 {
        false
    } else if a.len() == 0 {
        true
    } else if a[0] < b[0] {
        true
    } else if a[0] > b[0] {
        false
    } else {
        lex_lt(a.skip(1), b.skip(1))
    }
}

/// The order is irreflexive.
pub proof fn lemma_lex_irrefl(a: Seq<u8>)
    ensures
        !lex_lt(a, a),
    decreases a.len(),
{
    if a.len() > 0 {
        lemma_lex_irrefl(a.skip(1));
    }
}

/// The order is transitive.
pub proof fn lemma_lex_trans(a: Seq<u8>, b: Seq<u8>, c: Seq<u8>)
    requires
        lex_lt(a, b),
        lex_lt(b, c),
    ensures
        lex_lt(a, c),
    decreases a.len(),
{
    if a.len() == 0 {
    } else if b.len() == 0 {
    } else if a[0] < b[0] {
        if b[0] < c[0] {
        } else {
        }
    } else {
        // a[0] == b[0]
        if b[0] < c[0] {
        } else {
            lemma_lex_trans(a.skip(1), b.skip(1), c.skip(1));
        }
    }
}

/// The order is asymmetric.
pub proof fn lemma_lex_asym(a: Seq<u8>, b: Seq<u8>)
    requires
        lex_lt(a, b),
    ensures
        !lex_lt(b, a),
    decreases a.len(),
{
    if a.len() > 0 && b.len() > 0 && a[0] == b[0] {
        lemma_lex_asym(a.skip(1), b.skip(1));
    }
}

/// Two byte strings that agree up to `i` compare by what follows: a first
/// difference there, or one string ending, decides the order.
pub proof fn lemma_lex_from_prefix(a: Seq<u8>, b: Seq<u8>, i: int)
    requires
        0 <= i <= a.len(),
        i <= b.len(),
        forall|j: int| 0 <= j < i ==> a[j] == b[j],
        (i == a.len() && i < b.len()) || (i < a.len() && i < b.len() && a[i] < b[i]),
    ensures
        lex_lt(a, b),
    decreases i,
{
    if i == 0 {
    } else {
        lemma_lex_from_prefix(a.skip(1), b.skip(1), i - 1);
    }
}

/// Three-way comparison of byte strings: 0 below, 1 equal, 2 above.
pub fn cmp_bytes(a: &Vec<u8>, b: &Vec<u8>) -> (r: u8)
    ensures
        r == 0 || r == 1 || r == 2,
        (r == 0) == lex_lt(a@, b@),
        (r == 1) == (a@ == b@),
        (r == 2) == lex_lt(b@, a@),
{
    let an = a.len();
    let bn = b.len();
    let min = if an < bn {
        an
    } else {
        bn
    };
    let mut i: usize = 0;
    while i < min
        invariant
            i <= min,
            min == if an < bn {
                an
            } else {
                bn
            },
            an == a@.len() && bn == b@.len(),
            forall|j: int| 0 <= j < i ==> a@[j] == b@[j],
        decreases min - i,
    {
        if a[i] < b[i] {
            proof {
                lemma_lex_from_prefix(a@, b@, i as int);
                lemma_lex_asym(a@, b@);
                assert(a@[i as int] != b@[i as int]);
            }
            return 0;
        }
        if a[i] > b[i] {
            proof {
                lemma_lex_from_prefix(b@, a@, i as int);
                lemma_lex_asym(b@, a@);
                assert(a@[i as int] != b@[i as int]);
            }
            return 2;
        }
        i = i + 1;
    }
    if an == bn {
        proof {
            assert(a@ =~= b@);
            lemma_lex_irrefl(a@);
        }
        1
    } else if an < bn {
        proof {
            lemma_lex_from_prefix(a@, b@, an as int);
            lemma_lex_asym(a@, b@);
            assert(a@.len() != b@.len());
        }
        0
    } else {
        proof {
            lemma_lex_from_prefix(b@, a@, bn as int);
            lemma_lex_asym(b@, a@);
            assert(a@.len() != b@.len());
        }
        2
    }
}

/// One on-disk index entry: where the record of a content id lives in the
/// data file, and the index position of its delta base (`None` encodes the
/// on-disk value -1: a full text, or a base outside this pack).
#[derive(Debug)]
pub struct IndexEntry {
    pub hgid: Vec<u8>,
    pub base_pos: Option<u32>,
    pub offset: u64,
    pub size: u64,
}

/// The mathematical shadow of an index entry.
pub ghost struct IndexEntryV {
    pub hgid: Seq<u8>,
    pub base_pos: Option<u32>,
    pub offset: u64,
    pub size: u64,
}

impl View for IndexEntry {
    type V = IndexEntryV;

    open spec fn view(&self) -> IndexEntryV {
        IndexEntryV {
            hgid: self.hgid@,
            base_pos: self.base_pos,
            offset: self.offset,
            size: self.size,
        }
    }
}

impl IndexEntryV {
    /// A well-formed entry: a full-width id, and a base position that leaves
    /// room for the on-disk -1 encoding.
    pub open spec fn wf(self) -> bool {
        &&& self.hgid.len() == 20
        &&& match self.base_pos {
            Some(p) => p < 0xFFFFFFFFu32,
            None => true,
        }
    }
}

/// The views of a vector of entries.
pub open spec fn entry_views(s: Seq<IndexEntry>) -> Seq<IndexEntryV> {
    s.map_values(|e: IndexEntry| e@)
}

/// Every entry well formed.
pub open spec fn entries_wf(es: Seq<IndexEntryV>) -> bool {
    forall|i: int| 0 <= i < es.len() ==> (#[trigger] es[i]).wf()
}

/// Each consecutive pair ascends strictly by content id.
pub open spec fn adj_sorted(es: Seq<IndexEntryV>) -> bool {
    forall|i: int, j: int|
        0 <= i && j == i + 1 && j < es.len() ==> lex_lt(
            (#[trigger] es[i]).hgid,
            (#[trigger] es[j]).hgid,
        )
}

/// Any two entries, not just consecutive ones, ascend strictly.
pub proof fn lemma_sorted_span(es: Seq<IndexEntryV>, i: int, j: int)
    requires
        adj_sorted(es),
        0 <= i < j < es.len(),
    ensures
        lex_lt(es[i].hgid, es[j].hgid),
    decreases j - i,
{
    if j == i + 1 {
    } else {
        lemma_sorted_span(es, i, j - 1);
        assert(lex_lt(es[j - 1].hgid, es[j].hgid));
        lemma_lex_trans(es[i].hgid, es[j - 1].hgid, es[j].hgid);
    }
}

/// The on-disk encoding of a delta-base position; all bits set means none.
pub open spec fn pos_code(p: Option<u32>) -> u32 {
    match p {
        None => 0xFFFFFFFFu32,
        Some(v) => v,
    }
}

/// Decodes an on-disk delta-base position.
pub open spec fn decode_pos(v: int) -> Option<u32> {
    if v == 0xFFFFFFFF {
        None
    } else {
        Some(v as u32)
    }
}

/// The 40 bytes of one index entry.
pub open spec fn spec_entry_bytes(e: IndexEntryV) -> Seq<u8> {
    e.hgid + spec_be32(pos_code(e.base_pos)) + spec_be64(e.offset) + spec_be64(e.size)
}

/// The concatenated entry array.
pub open spec fn spec_entries_bytes(es: Seq<IndexEntryV>) -> Seq<u8>
    decreases es.len(),
{
    if es.len() == 0 {
        Seq::<u8>::empty()
    } else {
        spec_entries_bytes(es.drop_last()) + spec_entry_bytes(es.last())
    }
}

pub proof fn lemma_entries_bytes_len(es: Seq<IndexEntryV>)
    requires
        entries_wf(es),
    ensures
        spec_entries_bytes(es).len() == 40 * es.len(),
    decreases es.len(),
{
    if es.len() > 0 {
        assert(entries_wf(es.drop_last()));
        lemma_entries_bytes_len(es.drop_last());
        assert(es.last().wf());
    }
}

/// The byte slice of entry `i` within the concatenated array.
pub proof fn lemma_entries_bytes_at(es: Seq<IndexEntryV>, i: int)
    requires
        entries_wf(es),
        0 <= i < es.len(),
    ensures
        spec_entries_bytes(es).subrange(40 * i, 40 * i + 40) == spec_entry_bytes(es[i]),
    decreases es.len(),
{
    lemma_entries_bytes_len(es);
    if i == es.len() - 1 {
        lemma_entries_bytes_len(es.drop_last());
        assert(es.last().wf());
        assert(spec_entries_bytes(es).subrange(40 * i, 40 * i + 40) =~= spec_entry_bytes(
            es.last(),
        ));
    } else {
        assert(entries_wf(es.drop_last()));
        lemma_entries_bytes_at(es.drop_last(), i);
        lemma_entries_bytes_len(es.drop_last());
        assert(spec_entries_bytes(es).subrange(40 * i, 40 * i + 40) =~= spec_entries_bytes(
            es.drop_last(),
        ).subrange(40 * i, 40 * i + 40));
    }
}

/// The two-byte hash-prefix bucket of a content id.
pub open spec fn bucket_of(id: Seq<u8>) -> int
    recommends
        id.len() >= 2,
{
    id[0] * 0x100 + id[1]
}

/// How many entries fall in a bucket below `b`: with a sorted array this is
/// the index of the first entry of bucket `b`.
pub open spec fn count_below(es: Seq<IndexEntryV>, b: int) -> int
    decreases es.len(),
{
    if es.len() == 0 {
        0int
    } else {
        count_below(es.drop_last(), b) + if bucket_of(es.last().hgid) < b {
            1int
        } else {
            0int
        }
    }
}

pub proof fn lemma_count_below_bound(es: Seq<IndexEntryV>, b: int)
    ensures
        0 <= count_below(es, b) <= es.len(),
    decreases es.len(),
{
    if es.len() > 0 {
        lemma_count_below_bound(es.drop_last(), b);
    }
}

/// The fanout table for buckets below `b`, one 4-byte pointer each.
pub open spec fn spec_fanout_bytes(es: Seq<IndexEntryV>, b: int) -> Seq<u8>
    decreases b,
{
    if b <= 0 {
        Seq::<u8>::empty()
    } else {
        spec_fanout_bytes(es, b - 1) + spec_be32(count_below(es, b - 1) as u32)
    }
}

pub proof fn lemma_fanout_bytes_len(es: Seq<IndexEntryV>, b: int)
    requires
        b >= 0,
    ensures
        spec_fanout_bytes(es, b).len() == 4 * b,
    decreases b,
{
    if b > 0 {
        lemma_fanout_bytes_len(es, b - 1);
    }
}

/// The whole serialized index: version byte, config byte, fanout table over
/// all two-byte buckets, then the sorted entry array.
pub open spec fn spec_index_bytes(es: Seq<IndexEntryV>) -> Seq<u8> {
    seq![1u8, 0u8] + spec_fanout_bytes(es, 0x10000) + spec_entries_bytes(es)
}

/// The entry decoded at byte offset `off`.
pub open spec fn spec_entry_at(s: Seq<u8>, off: int) -> IndexEntryV
    recommends
        0 <= off,
        off + 40 <= s.len(),
{
    IndexEntryV {
        hgid: s.subrange(off, off + 20),
        base_pos: decode_pos(be32_val(s.subrange(off + 20, off + 24))),
        offset: be64_val(s.subrange(off + 24, off + 32)) as u64,
        size: be64_val(s.subrange(off + 32, off + 40)) as u64,
    }
}

/// Parses a serialized index back to its entry array. `None` marks a
/// malformed index: too short, a wrong version, a ragged entry array, or ids
/// out of order.
pub open spec fn spec_parse_index(s: Seq<u8>) -> Option<Seq<IndexEntryV>> {
    if s.len() < 0x40002 {
        None
    } else if s[0] != 1u8 {
        None
    } else if (s.len() - 0x40002) % 40 != 0 {
        None
    } else {
        let n = (s.len() - 0x40002) / 40;
        let es = Seq::new(n as nat, |i: int| spec_entry_at(s, 0x40002 + 40 * i));
        if adj_sorted(es) {
            Some(es)
        } else {
            None
        }
    }
}

/// Counts the entries whose bucket lies below `b`.
fn count_below_exec(entries: &Vec<IndexEntry>, b: u32) -> (r: usize)
    requires
        entries_wf(entry_views(entries@)),
    ensures
        r == count_below(entry_views(entries@), b as int),
{
    let n = entries.len();
    let mut cnt: usize = 0;
    let mut i: usize = 0;
    while i < n
        invariant
            i <= n,
            n == entries@.len(),
            entries_wf(entry_views(entries@)),
            cnt == count_below(entry_views(entries@).subrange(0, i as int), b as int),
            cnt <= i,
        decreases n - i,
    {
        proof {
            lemma_count_below_bound(entry_views(entries@).subrange(0, i as int), b as int);
            assert(entry_views(entries@)[i as int].wf());
        }
        let e = &entries[i];
        let hi = e.hgid[0];
        let lo = e.hgid[1];
        let bk: u32 = (hi as u32) * 0x100 + (lo as u32);
        if bk < b {
            cnt = cnt + 1;
        }
        i = i + 1;
        proof {
            let vs = entry_views(entries@);
            assert(vs.subrange(0, i as int).drop_last() =~= vs.subrange(0, i - 1));
            assert(vs.subrange(0, i as int).last() == vs[i - 1]);
            assert(bk as int == bucket_of(vs[i - 1].hgid));
        }
    }
    proof {
        assert(entry_views(entries@).subrange(0, n as int) =~= entry_views(entries@));
    }
    cnt
}

/// Serializes the sorted entry array into index-file bytes.
pub fn build_index_bytes(entries: &Vec<IndexEntry>) -> (r: Vec<u8>)
    requires
        entries_wf(entry_views(entries@)),
        entries@.len() <= 0x7FFFFFFF,
    ensures
        r@ == spec_index_bytes(entry_views(entries@)),
{
    let ghost vs = entry_views(entries@);
    let mut buf: Vec<u8> = Vec::new();
    buf.push(1u8);
    buf.push(0u8);
    assert(buf@ =~= seq![1u8, 0u8] + spec_fanout_bytes(vs, 0));
    let mut b: u32 = 0;
    while b < 0x10000
        invariant
            b <= 0x10000,
            vs == entry_views(entries@),
            entries_wf(vs),
            entries@.len() <= 0x7FFFFFFF,
            buf@ == seq![1u8, 0u8] + spec_fanout_bytes(vs, b as int),
        decreases 0x10000 - b,
    {
        let c = count_below_exec(entries, b);
        proof {
            lemma_count_below_bound(vs, b as int);
        }
        push_be32(&mut buf, c as u32);
        b = b + 1;
        assert(buf@ =~= seq![1u8, 0u8] + spec_fanout_bytes(vs, b as int));
    }
    let n = entries.len();
    let mut i: usize = 0;
    while i < n
        invariant
            i <= n,
            n == entries@.len(),
            vs == entry_views(entries@),
            entries_wf(vs),
            buf@ == seq![1u8, 0u8] + spec_fanout_bytes(vs, 0x10000) + spec_entries_bytes(
                vs.subrange(0, i as int),
            ),
        decreases n - i,
    {
        proof {
            assert(vs[i as int].wf());
        }
        let e = &entries[i];
        append_bytes(&mut buf, &e.hgid);
        let code: u32 = match e.base_pos {
            None => 0xFFFFFFFFu32,
            Some(p) => p,
        };
        push_be32(&mut buf, code);
        push_be64(&mut buf, e.offset);
        push_be64(&mut buf, e.size);
        i = i + 1;
        proof {
            assert(vs.subrange(0, i as int).drop_last() =~= vs.subrange(0, i - 1));
            assert(vs.subrange(0, i as int).last() == vs[i - 1]);
            assert(code == pos_code(vs[i - 1].base_pos));
            assert(buf@ =~= seq![1u8, 0u8] + spec_fanout_bytes(vs, 0x10000) + spec_entries_bytes(
                vs.subrange(0, i as int),
            ));
        }
    }
    proof {
        assert(vs.subrange(0, n as int) =~= vs);
    }
    buf
}

/// Parses index-file bytes into the sorted entry array, rejecting a malformed
/// or unsorted index as corrupt.
pub fn parse_index(buf: &Vec<u8>) -> (r: Result<Vec<IndexEntry>, PackError>)
    ensures
        r is Ok <==> spec_parse_index(buf@) is Some,
        r matches Ok(es) ==> spec_parse_index(buf@) == Some(entry_views(es@)),
        r matches Err(e) ==> e == PackError::Corrupt,
{
    let total = buf.len();
    if total < 0x40002 {
        return Err(PackError::Corrupt);
    }
    if buf[0] != 1u8 {
        return Err(PackError::Corrupt);
    }
    if (total - 0x40002) % 40 != 0 {
        return Err(PackError::Corrupt);
    }
    let n = (total - 0x40002) / 40;
    let ghost spec_es = Seq::new(n as nat, |i: int| spec_entry_at(buf@, 0x40002 + 40 * i));
    let mut out: Vec<IndexEntry> = Vec::new();
    let mut i: usize = 0;
    while i < n
        invariant
            i <= n,
            total == buf@.len(),
            total >= 0x40002,
            n == (total - 0x40002) / 40,
            (total - 0x40002) % 40 == 0,
            spec_es == Seq::new(n as nat, |k: int| spec_entry_at(buf@, 0x40002 + 40 * k)),
            out@.len() == i,
            entry_views(out@) =~= spec_es.subrange(0, i as int),
            adj_sorted(spec_es.subrange(0, i as int)),
        decreases n - i,
    {
        let off = 0x40002 + 40 * i;
        assert(off + 40 <= total);
        let hgid = copy_range(buf, off, off + 20);
        let code = read_be32(buf, off + 20);
        let base_pos: Option<u32> = if code == 0xFFFFFFFFu32 {
            None
        } else {
            Some(code)
        };
        let offset = read_be64(buf, off + 24);
        let size = read_be64(buf, off + 32);
        let e = IndexEntry { hgid, base_pos, offset, size };
        assert(e@ == spec_entry_at(buf@, off as int));
        if i > 0 {
            let c = cmp_bytes(&out[i - 1].hgid, &e.hgid);
            if c != 0 {
                proof {
                    assert(entry_views(out@)[i - 1] == spec_es[i - 1]);
                    assert(!lex_lt(spec_es[i - 1].hgid, spec_es[i as int].hgid));
                    assert(!adj_sorted(spec_es));
                }
                return Err(PackError::Corrupt);
            }
            proof {
                assert(entry_views(out@)[i - 1] == spec_es[i - 1]);
            }
        }
        out.push(e);
        i = i + 1;
        proof {
            assert(entry_views(out@) =~= spec_es.subrange(0, i as int));
            let pre = spec_es.subrange(0, i as int);
            assert forall|k: int, l: int|
                0 <= k && l == k + 1 && l < pre.len() implies lex_lt(
                (#[trigger] pre[k]).hgid,
                (#[trigger] pre[l]).hgid,
            ) by {
                if l < i - 1 {
                    let old_pre = spec_es.subrange(0, i - 1);
                    assert(lex_lt(old_pre[k].hgid, old_pre[l].hgid));
                }
            }
        }
    }
    proof {
        assert(spec_es.subrange(0, n as int) =~= spec_es);
    }
    Ok(out)
}

/// Everything at or below a position that compares below `id` lies below it.
proof fn lemma_all_below(vs: Seq<IndexEntryV>, mid: int, id: Seq<u8>)
    requires
        adj_sorted(vs),
        0 <= mid < vs.len(),
        lex_lt(vs[mid].hgid, id),
    ensures
        forall|i: int| 0 <= i <= mid ==> lex_lt((#[trigger] vs[i]).hgid, id),
{
    assert forall|i: int| 0 <= i <= mid implies lex_lt((#[trigger] vs[i]).hgid, id) by {
        if i < mid {
            lemma_sorted_span(vs, i, mid);
            lemma_lex_trans(vs[i].hgid, vs[mid].hgid, id);
        }
    }
}

/// Everything at or above a position that compares above `id` lies above it.
proof fn lemma_all_above(vs: Seq<IndexEntryV>, mid: int, id: Seq<u8>)
    requires
        adj_sorted(vs),
        0 <= mid < vs.len(),
        lex_lt(id, vs[mid].hgid),
    ensures
        forall|i: int| mid <= i < vs.len() ==> lex_lt(id, (#[trigger] vs[i]).hgid),
{
    assert forall|i: int| mid <= i < vs.len() implies lex_lt(id, (#[trigger] vs[i]).hgid) by {
        if i > mid {
            lemma_sorted_span(vs, mid, i);
            lemma_lex_trans(id, vs[mid].hgid, vs[i].hgid);
        }
    }
}

/// Binary search over the sorted entry array: the position holding `id`.
#[verifier::rlimit(100)]
#[verifier::spinoff_prover]
pub fn lookup(entries: &Vec<IndexEntry>, id: &Vec<u8>) -> (r: Option<usize>)
    requires
        adj_sorted(entry_views(entries@)),
    ensures
        r matches Some(i) ==> i < entries@.len() && entry_views(entries@)[i as int].hgid == id@,
        r is None ==> forall|i: int| 0 <= i < entries@.len() ==> (#[trigger] entry_views(
            entries@,
        )[i]).hgid != id@,
{
    let ghost vs = entry_views(entries@);
    let n = entries.len();
    let mut lo: usize = 0;
    let mut hi: usize = n;
    while lo < hi
        invariant
            lo <= hi <= n,
            n == entries@.len(),
            vs == entry_views(entries@),
            adj_sorted(vs),
            forall|i: int| 0 <= i < lo ==> lex_lt((#[trigger] vs[i]).hgid, id@),
            forall|i: int| hi <= i < n ==> lex_lt(id@, (#[trigger] vs[i]).hgid),
        decreases hi - lo,
    {
        let mid = lo + (hi - lo) / 2;
        assert(vs[mid as int] == entries@[mid as int]@);
        let c = cmp_bytes(&entries[mid].hgid, id);
        if c == 1 {
            assert(vs[mid as int].hgid == id@);
            return Some(mid);
        } else if c == 0 {
            proof {
                lemma_all_below(vs, mid as int, id@);
            }
            lo = mid + 1;
        } else {
            proof {
                lemma_all_above(vs, mid as int, id@);
            }
            hi = mid;
        }
    }
    proof {
        assert forall|i: int| 0 <= i < n implies (#[trigger] vs[i]).hgid != id@ by {
            if i < lo {
                lemma_lex_irrefl(vs[i].hgid);
            } else {
                lemma_lex_irrefl(id@);
            }
        }
    }
    None
}

/// Whether some entry carries `id`.
pub open spec fn idx_has(es: Seq<IndexEntryV>, id: Seq<u8>) -> bool {
    exists|i: int| 0 <= i < es.len() && (#[trigger] es[i]).hgid == id
}

/// The position of the entry carrying `id`.
pub open spec fn idx_pos(es: Seq<IndexEntryV>, id: Seq<u8>) -> int {
    choose|i: int| 0 <= i < es.len() && (#[trigger] es[i]).hgid == id
}

/// In a sorted index the position of an id is the only one carrying it.
pub proof fn lemma_idx_pos_is(es: Seq<IndexEntryV>, i: int)
    requires
        adj_sorted(es),
        0 <= i < es.len(),
    ensures
        idx_has(es, es[i].hgid),
        idx_pos(es, es[i].hgid) == i,
{
    assert(idx_has(es, es[i].hgid));
    let j = idx_pos(es, es[i].hgid);
    if j < i {
        lemma_sorted_span(es, j, i);
        lemma_lex_irrefl(es[i].hgid);
    } else if j > i {
        lemma_sorted_span(es, i, j);
        lemma_lex_irrefl(es[i].hgid);
    }
}

/// Round trip: a serialized index parses back to exactly the entries written.
/// This, with the record round trip, is what carries a published pack's
/// contents across the file boundary unchanged.
#[verifier::rlimit(80)]
pub proof fn lemma_index_roundtrip(es: Seq<IndexEntryV>)
    requires
        entries_wf(es),
        adj_sorted(es),
        es.len() <= 0x7FFFFFFF,
    ensures
        spec_parse_index(spec_index_bytes(es)) == Some(es),
{
    let s = spec_index_bytes(es);
    lemma_fanout_bytes_len(es, 0x10000);
    lemma_entries_bytes_len(es);
    assert(s.len() == 0x40002 + 40 * es.len());
    assert(s[0] == 1u8);
    assert((s.len() - 0x40002) % 40 == 0) by {
        assert(s.len() - 0x40002 == 40 * es.len());
        assert((40 * es.len()) % 40 == 0) by (nonlinear_arith);
    }
    let n = (s.len() - 0x40002) / 40;
    assert(n == es.len()) by {
        assert(s.len() - 0x40002 == 40 * es.len());
        assert((40 * es.len()) / 40 == es.len()) by (nonlinear_arith);
    }
    let parsed = Seq::new(n as nat, |i: int| spec_entry_at(s, 0x40002 + 40 * i));
    assert forall|i: int| 0 <= i < es.len() implies parsed[i] == es[i] by {
        lemma_entries_bytes_at(es, i);
        let eb = spec_entry_bytes(es[i]);
        assert(es[i].wf());
        assert(s.subrange(0x40002 + 40 * i, 0x40002 + 40 * i + 40) =~= spec_entries_bytes(
            es,
        ).subrange(40 * i, 40 * i + 40));
        let off = 0x40002 + 40 * i;
        assert(s.subrange(off, off + 20) =~= eb.subrange(0, 20));
        assert(eb.subrange(0, 20) =~= es[i].hgid);
        assert(s.subrange(off + 20, off + 24) =~= eb.subrange(20, 24));
        assert(eb.subrange(20, 24) =~= spec_be32(pos_code(es[i].base_pos)));
        crate::bytes::lemma_be32_roundtrip(pos_code(es[i].base_pos));
        assert(s.subrange(off + 24, off + 32) =~= eb.subrange(24, 32));
        assert(eb.subrange(24, 32) =~= spec_be64(es[i].offset));
        crate::bytes::lemma_be64_roundtrip(es[i].offset);
        assert(s.subrange(off + 32, off + 40) =~= eb.subrange(32, 40));
        assert(eb.subrange(32, 40) =~= spec_be64(es[i].size));
        crate::bytes::lemma_be64_roundtrip(es[i].size);
        assert(decode_pos(pos_code(es[i].base_pos) as int) == es[i].base_pos);
    }
    assert(parsed =~= es);
}

} // verus!
