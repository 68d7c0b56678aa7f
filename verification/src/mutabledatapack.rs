//! The mutable pack writer: buffers new deltas as serialized records in a
//! staging byte stream plus a sorted in-memory index, and publishes them as an
//! immutable, content-hash-named data/index pair.

use vstd::prelude::*;

use crate::bytes::clone_bytes;
use crate::codec::{compress, decompress, lz4_of, sha1_digest, sha1_of, to_hex, hex_of, unlz4_ok, unlz4_of};
use crate::dataindex::{
    build_index_bytes, cmp_bytes, entry_views, lemma_index_roundtrip, lex_lt, spec_index_bytes,
    spec_parse_index, IndexEntry, IndexEntryV,
};
use crate::error::PackError;
use crate::meta::Metadata;
use crate::record::{
    base_id_of, delta_matches, lemma_record_roundtrip, parse_record, spec_parse_record,
    spec_record, write_record, RecordV,
};
use crate::types::{is_null_id, null_id, spec_null_id, DataPackVersion, Delta, Key};

verus! {

/// Where a delta lives in the staging stream: the id of its base if any, the
/// byte offset of the start of its serialized record, and the record's
/// serialized size.
#[derive(Debug)]
pub struct DeltaLocation {
    pub delta_base: Option<Vec<u8>>,
    pub offset: u64,
    pub size: u64,
}

/// One in-memory index entry of the writer.
#[derive(Debug)]
pub struct MemEntry {
    pub hgid: Vec<u8>,
    pub loc: DeltaLocation,
}

/// The mathematical shadow of an in-memory index entry.
pub ghost struct MemEntryV {
    pub hgid: Seq<u8>,
    pub base: Option<Seq<u8>>,
    pub offset: u64,
    pub size: u64,
}

impl View for MemEntry {
    type V = MemEntryV;

    open spec fn view(&self) -> MemEntryV {
        MemEntryV {
            hgid: self.hgid@,
            base: match self.loc.delta_base {
                Some(b) => Some(b@),
                None => None,
            },
            offset: self.loc.offset,
            size: self.loc.size,
        }
    }
}

/// The views of the in-memory index.
pub open spec fn mem_views(s: Seq<MemEntry>) -> Seq<MemEntryV> {
    s.map_values(|e: MemEntry| e@)
}

/// Each consecutive pair of in-memory entries ascends strictly by id.
pub open spec fn mem_sorted(es: Seq<MemEntryV>) -> bool {
    forall|i: int, j: int|
        0 <= i && j == i + 1 && j < es.len() ==> lex_lt(
            (#[trigger] es[i]).hgid,
            (#[trigger] es[j]).hgid,
        )
}

/// Any two in-memory entries ascend strictly.
pub proof fn lemma_mem_span(es: Seq<MemEntryV>, i: int, j: int)
    requires
        mem_sorted(es),
        0 <= i < j < es.len(),
    ensures
        lex_lt(es[i].hgid, es[j].hgid),
    decreases j - i,
{
    if j == i + 1 {
    } else {
        lemma_mem_span(es, i, j - 1);
        crate::dataindex::lemma_lex_trans(es[i].hgid, es[j - 1].hgid, es[j].hgid);
    }
}

/// Whether some in-memory entry carries `id`.
pub open spec fn mem_has(es: Seq<MemEntryV>, id: Seq<u8>) -> bool {
    exists|i: int| 0 <= i < es.len() && (#[trigger] es[i]).hgid == id
}

/// The position of the entry carrying `id`.
pub open spec fn mem_idx(es: Seq<MemEntryV>, id: Seq<u8>) -> int {
    choose|i: int| 0 <= i < es.len() && (#[trigger] es[i]).hgid == id
}

/// In a sorted index the position of an id is the only one carrying it.
pub proof fn lemma_mem_idx_is(es: Seq<MemEntryV>, i: int)
    requires
        mem_sorted(es),
        0 <= i < es.len(),
    ensures
        mem_has(es, es[i].hgid),
        mem_idx(es, es[i].hgid) == i,
{
    assert(mem_has(es, es[i].hgid));
    let j = mem_idx(es, es[i].hgid);
    if j < i {
        lemma_mem_span(es, j, i);
        crate::dataindex::lemma_lex_irrefl(es[i].hgid);
    } else if j > i {
        lemma_mem_span(es, i, j);
        crate::dataindex::lemma_lex_irrefl(es[i].hgid);
    }
}

/// What the staging stream holds for one in-memory entry: its record bytes
/// parse back to a record carrying the entry's own id, its base id (the
/// sentinel for a full text), and a payload whose decompression succeeds.
pub open spec fn entry_ok(data: Seq<u8>, e: MemEntryV) -> bool {
    &&& e.hgid.len() == 20
    &&& match e.base {
        Some(b) => b.len() == 20,
        None => true,
    }
    &&& e.offset + e.size <= data.len()
    &&& {
        let p = spec_parse_record(data.subrange(e.offset as int, e.offset + e.size));
        &&& p is Some
        &&& p->0.hgid == e.hgid
        &&& p->0.base == (match e.base {
            None => spec_null_id(),
            Some(b) => b,
        })
        &&& unlz4_ok(p->0.comp)
    }
}

/// The mutable pack writer. Until published, its whole state is this staging
/// byte stream (version byte first, then records in write order) and the
/// sorted in-memory index over it.
#[derive(Debug)]
pub struct MutableDataPack {
    pub version: DataPackVersion,
    pub data: Vec<u8>,
    pub mem_index: Vec<MemEntry>,
}

/// What a publish hands back: the full data-file bytes, the index-file bytes,
/// and the pack's name, the lower-case hex digest of the data bytes.
#[derive(Debug)]
pub struct PackFiles {
    pub data: Vec<u8>,
    pub index: Vec<u8>,
    pub name: Vec<u8>,
}

impl MutableDataPack {
    /// The staged data-file bytes.
    pub open spec fn data_bytes(&self) -> Seq<u8> {
        self.data@
    }

    /// The in-memory index.
    pub open spec fn entries(&self) -> Seq<MemEntryV> {
        mem_views(self.mem_index@)
    }

    /// Whether a delta for `id` has been added.
    pub open spec fn has(&self, id: Seq<u8>) -> bool {
        mem_has(self.entries(), id)
    }

    /// The record stored for the entry at position `i`.
    pub open spec fn rec_at(&self, i: int) -> RecordV {
        spec_parse_record(
            self.data@.subrange(
                self.entries()[i].offset as int,
                self.entries()[i].offset + self.entries()[i].size,
            ),
        )->0
    }

    /// The record stored for `id`.
    pub open spec fn rec(&self, id: Seq<u8>) -> RecordV {
        self.rec_at(mem_idx(self.entries(), id))
    }

    /// The writer's invariant: a staging stream opened with the version byte,
    /// a sorted index, and every indexed record parseable back out of the
    /// stream.
    pub open spec fn wf(&self) -> bool {
        &&& self.version == DataPackVersion::One
        &&& self.data@.len() >= 1
        &&& self.data@[0] == 1u8
        &&& mem_sorted(self.entries())
        &&& forall|i: int|
            0 <= i < self.entries().len() ==> entry_ok(self.data@, #[trigger] self.entries()[i])
    }

    /// Creates a writer for producing pack files in a destination directory.
    /// The caller states whether the destination really is a directory; a
    /// writer is never built over anything else, and never for the write-only
    /// legacy version zero.
    pub fn new(dir_is_directory: bool, version: DataPackVersion) -> (r: Result<
        MutableDataPack,
        PackError,
    >)
        ensures
            !dir_is_directory ==> r == Err::<MutableDataPack, PackError>(
                PackError::InvalidDirectory,
            ),
            dir_is_directory && version == DataPackVersion::Zero ==> r == Err::<
                MutableDataPack,
                PackError,
            >(PackError::UnsupportedVersion),
            dir_is_directory && version == DataPackVersion::One ==> (r matches Ok(w) && w.wf()
                && w.entries().len() == 0 && w.data_bytes() == seq![1u8]),
    {
        if !dir_is_directory {
            return Err(PackError::InvalidDirectory);
        }
        match version {
            DataPackVersion::Zero => Err(PackError::UnsupportedVersion),
            DataPackVersion::One => {
                let mut data: Vec<u8> = Vec::new();
                data.push(version.to_u8());
                let w = MutableDataPack { version, data, mem_index: Vec::new() };
                assert(w.data_bytes() =~= seq![1u8]);
                Ok(w)
            },
        }
    }

    /// Adds a delta and its metadata: serializes one record, appends it to
    /// the staging stream, and indexes it under the delta's content id,
    /// overwriting an earlier entry for the same id (both records stay in the
    /// stream; the last write wins for lookups). A path that does not fit the
    /// record's 16-bit length field, or a payload that does not fit the
    /// codec's four-byte length prefix, is rejected whole, with nothing
    /// written.
    #[verifier::rlimit(100)]
    #[verifier::spinoff_prover]
    pub fn add(&mut self, delta: &Delta, metadata: &Metadata) -> (r: Result<(), PackError>)
        requires
            old(self).wf(),
            delta.wf(),
        ensures
            final(self).wf(),
            delta.key.path@.len() > 0xFFFF ==> r == Err::<(), PackError>(PackError::PathTooLong)
                && final(self).data_bytes() == old(self).data_bytes() && final(self).entries()
                == old(self).entries(),
            delta.key.path@.len() <= 0xFFFF && delta.data@.len() >= 0x100000000 ==> r == Err::<
                (),
                PackError,
            >(PackError::DeltaTooLarge) && final(self).data_bytes() == old(self).data_bytes()
                && final(self).entries() == old(self).entries(),
            delta.key.path@.len() <= 0xFFFF && delta.data@.len() < 0x100000000 ==> {
                let id = delta.key.hgid@;
                let comp = lz4_of(delta.data@);
                &&& r == Ok::<(), PackError>(())
                &&& final(self).data_bytes() == old(self).data_bytes() + spec_record(
                    delta.key.path@,
                    id,
                    base_id_of(*delta),
                    comp,
                    *metadata,
                )
                &&& unlz4_ok(comp) && unlz4_of(comp) == delta.data@
                &&& final(self).entries().len() == old(self).entries().len() + (if old(self).has(
                    id,
                ) {
                    0int
                } else {
                    1int
                })
                &&& forall|k: Seq<u8>| final(self).has(k) <==> (old(self).has(k) || k == id)
                &&& forall|k: Seq<u8>|
                    old(self).has(k) && k != id ==> final(self).rec(k) == old(self).rec(k)
                &&& final(self).rec(id) == (RecordV {
                    path: delta.key.path@,
                    hgid: id,
                    base: base_id_of(*delta),
                    comp,
                    meta: *metadata,
                })
            },
    {
        if delta.key.path.len() > 0xFFFF {
            return Err(PackError::PathTooLong);
        }
        if delta.data.len() as u64 >= 0x100000000u64 {
            return Err(PackError::DeltaTooLarge);
        }
        let comp = compress(&delta.data);
        let ghost rv = RecordV {
            path: delta.key.path@,
            hgid: delta.key.hgid@,
            base: base_id_of(*delta),
            comp: comp@,
            meta: *metadata,
        };
        let (offset, size) = self.stage(delta, &comp, metadata);
        self.index_record(delta, offset, size, Ghost(rv));
        Ok(())
    }

    /// Serializes the record of `delta` (with payload already compressed) and
    /// appends it to the staging stream; the in-memory index is untouched.
    #[verifier::rlimit(100)]
    #[verifier::spinoff_prover]
    fn stage(&mut self, delta: &Delta, comp: &Vec<u8>, metadata: &Metadata) -> (r: (usize, usize))
        requires
            old(self).wf(),
            delta.wf(),
            delta.key.path@.len() <= 0xFFFF,
        ensures
            final(self).wf(),
            final(self).version == old(self).version,
            final(self).mem_index == old(self).mem_index,
            final(self).data_bytes() == old(self).data_bytes() + spec_record(
                delta.key.path@,
                delta.key.hgid@,
                base_id_of(*delta),
                comp@,
                *metadata,
            ),
            r.0 == old(self).data_bytes().len(),
            r.0 + r.1 == final(self).data_bytes().len(),
            forall|k: Seq<u8>| final(self).has(k) <==> old(self).has(k),
            forall|k: Seq<u8>|
                old(self).has(k) ==> final(self).rec(k) == old(self).rec(k),
            spec_parse_record(final(self).data_bytes().subrange(r.0 as int, r.0 + r.1)) == Some(
                RecordV {
                    path: delta.key.path@,
                    hgid: delta.key.hgid@,
                    base: base_id_of(*delta),
                    comp: comp@,
                    meta: *metadata,
                },
            ),
    {
        let ghost old_data = self.data@;
        let ghost old_es = self.entries();
        let offset = self.data.len();
        let base_vec: Vec<u8> = match &delta.base {
            None => null_id(),
            Some(k) => clone_bytes(&k.hgid),
        };
        assert(base_vec@ == base_id_of(*delta));
        write_record(
            &mut self.data,
            &delta.key.path,
            &delta.key.hgid,
            &base_vec,
            comp,
            *metadata,
        );
        let size = self.data.len() - offset;
        proof {
            lemma_record_roundtrip(delta.key.path@, delta.key.hgid@, base_vec@, comp@, *metadata);
            assert(self.data@.subrange(offset as int, offset + size) =~= spec_record(
                delta.key.path@,
                delta.key.hgid@,
                base_vec@,
                comp@,
                *metadata,
            ));
            assert forall|i: int| 0 <= i < old_es.len() implies entry_ok(
                self.data@,
                #[trigger] old_es[i],
            ) by {
                assert(entry_ok(old_data, old_es[i]));
                assert(self.data@.subrange(
                    old_es[i].offset as int,
                    old_es[i].offset + old_es[i].size,
                ) =~= old_data.subrange(
                    old_es[i].offset as int,
                    old_es[i].offset + old_es[i].size,
                ));
            }
            assert forall|k: Seq<u8>| mem_has(old_es, k) implies self.rec(k) == old(self).rec(
                k,
            ) by {
                let oi = mem_idx(old_es, k);
                assert(0 <= oi < old_es.len() && old_es[oi].hgid == k);
                assert(entry_ok(old_data, old_es[oi]));
                assert(self.data@.subrange(
                    old_es[oi].offset as int,
                    old_es[oi].offset + old_es[oi].size,
                ) =~= old_data.subrange(
                    old_es[oi].offset as int,
                    old_es[oi].offset + old_es[oi].size,
                ));
            }
        }
        (offset, size)
    }

    /// Indexes the record staged at `[offset, offset + size)` under the
    /// delta's content id, overwriting any earlier entry for that id.
    #[verifier::rlimit(100)]
    #[verifier::spinoff_prover]
    fn index_record(
        &mut self,
        delta: &Delta,
        offset: usize,
        size: usize,
        Ghost(rv): Ghost<RecordV>,
    )
        requires
            old(self).wf(),
            delta.wf(),
            offset + size <= old(self).data_bytes().len(),
            spec_parse_record(old(self).data_bytes().subrange(offset as int, offset + size))
                == Some(rv),
            rv.hgid == delta.key.hgid@,
            rv.base == base_id_of(*delta),
            unlz4_ok(rv.comp),
        ensures
            final(self).wf(),
            final(self).version == old(self).version,
            final(self).data_bytes() == old(self).data_bytes(),
            final(self).entries().len() == old(self).entries().len() + (if old(self).has(
                delta.key.hgid@,
            ) {
                0int
            } else {
                1int
            }),
            forall|k: Seq<u8>| final(self).has(k) <==> (old(self).has(k) || k == delta.key.hgid@),
            forall|k: Seq<u8>|
                old(self).has(k) && k != delta.key.hgid@ ==> final(self).rec(k) == old(
                    self,
                ).rec(k),
            final(self).rec(delta.key.hgid@) == rv,
    {
        let ghost old_es = self.entries();
        let entry = MemEntry {
            hgid: clone_bytes(&delta.key.hgid),
            loc: DeltaLocation {
                delta_base: match &delta.base {
                    None => None,
                    Some(k) => Some(clone_bytes(&k.hgid)),
                },
                offset: offset as u64,
                size: size as u64,
            },
        };
        let ghost ev = entry@;
        proof {
            assert(entry_ok(self.data@, ev));
        }
        let (pos, found) = find_pos(&self.mem_index, &delta.key.hgid);
        if found {
            proof {
                assert(mem_has(old_es, delta.key.hgid@));
            }
            self.mem_index.set(pos, entry);
            proof {
                let es = self.entries();
                assert(es =~= old_es.update(pos as int, ev));
                lemma_after_update(old_es, self.data@, pos as int, ev);
                lemma_add_post(old_es, es, self.data@, pos as int, ev);
            }
        } else {
            proof {
                if mem_has(old_es, delta.key.hgid@) {
                    let w = mem_idx(old_es, delta.key.hgid@);
                    assert(0 <= w < old_es.len() && old_es[w].hgid == delta.key.hgid@);
                    crate::dataindex::lemma_lex_irrefl(delta.key.hgid@);
                }
            }
            self.mem_index.insert(pos, entry);
            proof {
                let es = self.entries();
                assert(es =~= old_es.insert(pos as int, ev));
                lemma_after_insert(old_es, self.data@, pos as int, ev, delta.key.hgid@);
                lemma_add_post(old_es, es, self.data@, pos as int, ev);
            }
        }
        proof {
            let es_new = self.entries();
            assert(es_new[mem_idx(es_new, ev.hgid)] == ev);
            assert(self.rec(delta.key.hgid@) == rv);
            assert forall|k: Seq<u8>|
                mem_has(old_es, k) && k != delta.key.hgid@ implies self.rec(k) == old(
                self,
            ).rec(k) by {
                let oi = mem_idx(old_es, k);
                assert(0 <= oi < old_es.len() && old_es[oi].hgid == k);
                assert(es_new[mem_idx(es_new, k)] == old_es[oi]);
            }
        }
    }

    /// Reads back the delta and metadata stored for `key`, or `None` when the
    /// key was never added. The staging stream is in memory, so a read right
    /// after a write always sees it.
    pub fn read_entry(&self, key: &Key) -> (r: Result<Option<(Delta, Metadata)>, PackError>)
        requires
            self.wf(),
            key.wf(),
        ensures
            r is Ok,
            !self.has(key.hgid@) ==> r == Ok::<Option<(Delta, Metadata)>, PackError>(None),
            self.has(key.hgid@) ==> (r matches Ok(Some((d, m))) && delta_matches(
                d,
                key.path@,
                self.rec(key.hgid@),
            ) && m == self.rec(key.hgid@).meta),
    {
        let (pos, found) = find_pos(&self.mem_index, &key.hgid);
        if !found {
            proof {
                if self.has(key.hgid@) {
                    let i = mem_idx(self.entries(), key.hgid@);
                    assert(0 <= i < self.entries().len() && self.entries()[i].hgid == key.hgid@);
                    crate::dataindex::lemma_lex_irrefl(key.hgid@);
                }
            }
            return Ok(None);
        }
        proof {
            lemma_mem_idx_is(self.entries(), pos as int);
        }
        let ghost rv = self.rec(key.hgid@);
        let dlen = self.data.len();
        proof {
            assert(entry_ok(self.data@, self.entries()[pos as int]));
        }
        let off = self.mem_index[pos].loc.offset as usize;
        let sz = self.mem_index[pos].loc.size as usize;
        match parse_record(&self.data, off, off + sz) {
            Err(_) => {
                proof {
                    assert(false);
                }
                Err(PackError::Corrupt)
            },
            Ok(rec) => {
                assert(rec@ == rv);
                match decompress(&rec.comp) {
                    None => {
                        proof {
                            assert(false);
                        }
                        Err(PackError::Corrupt)
                    },
                    Some(d) => {
                        let base: Option<Key> = if is_null_id(&rec.base) {
                            None
                        } else {
                            Some(Key::new(clone_bytes(&key.path), rec.base))
                        };
                        let delta = Delta {
                            data: d,
                            base,
                            key: Key::new(clone_bytes(&key.path), rec.hgid),
                        };
                        Ok(Some((delta, rec.meta)))
                    },
                }
            },
        }
    }

    /// Raw full-content reads are not meaningful on a delta-oriented pack.
    pub fn get(&self, _key: &Key) -> (r: Result<Option<Vec<u8>>, PackError>)
        ensures
            r == Err::<Option<Vec<u8>>, PackError>(PackError::Unsupported),
    {
        Err(PackError::Unsupported)
    }

    /// The delta stored for `key`, or `None` when the key was never added.
    pub fn get_delta(&self, key: &Key) -> (r: Result<Option<Delta>, PackError>)
        requires
            self.wf(),
            key.wf(),
        ensures
            r is Ok,
            !self.has(key.hgid@) ==> r == Ok::<Option<Delta>, PackError>(None),
            self.has(key.hgid@) ==> (r matches Ok(Some(d)) && delta_matches(
                d,
                key.path@,
                self.rec(key.hgid@),
            )),
    {
        match self.read_entry(key) {
            Ok(None) => Ok(None),
            Ok(Some((d, _m))) => Ok(Some(d)),
            Err(e) => Err(e),
        }
    }

    /// The metadata stored for `key`, or `None` when the key was never added.
    pub fn get_meta(&self, key: &Key) -> (r: Result<Option<Metadata>, PackError>)
        requires
            self.wf(),
            key.wf(),
        ensures
            r is Ok,
            !self.has(key.hgid@) ==> r == Ok::<Option<Metadata>, PackError>(None),
            self.has(key.hgid@) ==> r == Ok::<Option<Metadata>, PackError>(
                Some(self.rec(key.hgid@).meta),
            ),
    {
        match self.read_entry(key) {
            Ok(None) => Ok(None),
            Ok(Some((_d, m))) => Ok(Some(m)),
            Err(e) => Err(e),
        }
    }

    /// Filters the given keys down to those this pack does not hold.
    pub fn get_missing(&self, keys: &Vec<Key>) -> (r: Result<Vec<Key>, PackError>)
        requires
            self.wf(),
        ensures
            r matches Ok(v) && key_views(v@) == key_views(keys@).filter(
                |p: (Seq<u8>, Seq<u8>)| !mem_has(self.entries(), p.1),
            ),
    {
        let ghost pred = |p: (Seq<u8>, Seq<u8>)| !mem_has(self.entries(), p.1);
        let ghost kv = key_views(keys@);
        let n = keys.len();
        let mut out: Vec<Key> = Vec::new();
        let mut i: usize = 0;
        while i < n
            invariant
                i <= n,
                n == keys@.len(),
                kv == key_views(keys@),
                pred == (|p: (Seq<u8>, Seq<u8>)| !mem_has(self.entries(), p.1)),
                self.wf(),
                key_views(out@) == kv.subrange(0, i as int).filter(pred),
            decreases n - i,
        {
            let ghost pre = kv.subrange(0, i as int);
            let (pos, found) = find_pos(&self.mem_index, &keys[i].hgid);
            proof {
                if !found && self.has(keys@[i as int].hgid@) {
                    let w = mem_idx(self.entries(), keys@[i as int].hgid@);
                    assert(0 <= w < self.entries().len());
                    crate::dataindex::lemma_lex_irrefl(keys@[i as int].hgid@);
                }
                if found {
                    assert(self.has(keys@[i as int].hgid@));
                }
            }
            if !found {
                out.push(Key::new(clone_bytes(&keys[i].path), clone_bytes(&keys[i].hgid)));
            }
            i = i + 1;
            proof {
                let cur = kv.subrange(0, i as int);
                assert(cur.drop_last() =~= pre);
                assert(cur.last() == (keys@[i - 1].path@, keys@[i - 1].hgid@));
                reveal_with_fuel(Seq::<(Seq<u8>, Seq<u8>)>::filter, 2);
                if pred(cur.last()) {
                    assert(cur.filter(pred) == pre.filter(pred).push(cur.last()));
                } else {
                    assert(cur.filter(pred) == pre.filter(pred));
                }
                assert(key_views(out@) =~= cur.filter(pred));
            }
        }
        proof {
            assert(kv.subrange(0, n as int) =~= kv);
        }
        Ok(out)
    }

    /// The chain of records reached from `id` by following base ids until a
    /// full text, a base outside this pack, or exhaustion of `fuel`.
    pub open spec fn spec_chain(&self, id: Seq<u8>, fuel: nat) -> Seq<RecordV>
        decreases fuel,
    {
        if fuel == 0 || !self.has(id) {
            Seq::<RecordV>::empty()
        } else {
            let rv = self.rec(id);
            seq![rv] + (if rv.base == spec_null_id() {
                Seq::<RecordV>::empty()
            } else {
                self.spec_chain(rv.base, (fuel - 1) as nat)
            })
        }
    }

    /// Reconstructs the delta chain of `key`: the key's own delta first, then
    /// each base in turn, ending at a full text or at the first base this
    /// pack does not hold (a partial chain is success: the base is expected
    /// in an underlying store). `None` when the key itself was never added.
    #[verifier::rlimit(100)]
    #[verifier::spinoff_prover]
    pub fn get_delta_chain(&self, key: &Key) -> (r: Result<Option<Vec<Delta>>, PackError>)
        requires
            self.wf(),
            key.wf(),
        ensures
            r is Ok,
            !self.has(key.hgid@) ==> r == Ok::<Option<Vec<Delta>>, PackError>(None),
            self.has(key.hgid@) ==> (r matches Ok(Some(c)) && {
                let ch = self.spec_chain(key.hgid@, (self.entries().len() + 1) as nat);
                &&& c@.len() == ch.len()
                &&& forall|i: int|
                    0 <= i < ch.len() ==> delta_matches(#[trigger] c@[i], key.path@, ch[i])
            }),
    {
        let ghost fuel0 = (self.entries().len() + 1) as nat;
        let ghost total = self.spec_chain(key.hgid@, fuel0);
        let (_, found0) = find_pos(&self.mem_index, &key.hgid);
        proof {
            if !found0 && self.has(key.hgid@) {
                let w = mem_idx(self.entries(), key.hgid@);
                assert(0 <= w < self.entries().len());
                crate::dataindex::lemma_lex_irrefl(key.hgid@);
            }
            if found0 {
                assert(self.has(key.hgid@));
            }
        }
        if !found0 {
            return Ok(None);
        }
        let mut chain: Vec<Delta> = Vec::new();
        let mut cur: Option<Key> = Some(Key::new(clone_bytes(&key.path), clone_bytes(&key.hgid)));
        let mut fuel: u128 = self.mem_index.len() as u128 + 1;
        while fuel > 0 && cur.is_some()
            invariant
                self.wf(),
                key.wf(),
                self.has(key.hgid@),
                fuel <= fuel0,
                fuel0 == (self.entries().len() + 1) as nat,
                total == self.spec_chain(key.hgid@, fuel0),
                chain@.len() <= total.len(),
                forall|i: int|
                    0 <= i < chain@.len() ==> delta_matches(
                        #[trigger] chain@[i],
                        key.path@,
                        total[i],
                    ),
                match cur {
                    Some(k) => k.wf() && k.path@ == key.path@ && self.spec_chain(
                        k.hgid@,
                        fuel as nat,
                    ) == total.skip(chain@.len() as int),
                    None => chain@.len() == total.len(),
                },
            decreases fuel,
        {
            let k = match &cur {
                Some(k) => k,
                None => {
                    proof {
                        assert(false);
                    }
                    return Err(PackError::Corrupt);
                },
            };
            let ghost rest = total.skip(chain@.len() as int);
            match self.read_entry(k) {
                Ok(None) => {
                    proof {
                        assert(!self.has(k.hgid@));
                        assert(rest =~= Seq::<RecordV>::empty());
                    }
                    return Ok(Some(chain));
                },
                Ok(Some((d, _m))) => {
                    let ghost rv = self.rec(k.hgid@);
                    proof {
                        assert(self.has(k.hgid@));
                        assert(rest == seq![rv] + (if rv.base == spec_null_id() {
                            Seq::<RecordV>::empty()
                        } else {
                            self.spec_chain(rv.base, (fuel - 1) as nat)
                        }));
                        assert(rest[0] == rv);
                        assert(total[chain@.len() as int] == rv);
                    }
                    let next: Option<Key> = match &d.base {
                        None => None,
                        Some(b) => Some(Key::new(clone_bytes(&b.path), clone_bytes(&b.hgid))),
                    };
                    chain.push(d);
                    proof {
                        let m = chain@.len() as int;
                        assert(total.skip(m) =~= rest.skip(1));
                        if next is Some {
                            assert(rest.skip(1) =~= self.spec_chain(rv.base, (fuel - 1) as nat));
                        } else {
                            assert(rest.skip(1) =~= Seq::<RecordV>::empty());
                        }
                    }
                    cur = next;
                    fuel = fuel - 1;
                },
                Err(_) => {
                    proof {
                        assert(false);
                    }
                    return Err(PackError::Corrupt);
                },
            }
        }
        proof {
            if cur is Some {
                assert(self.spec_chain(cur->0.hgid@, 0) =~= Seq::<RecordV>::empty());
                assert(chain@.len() == total.len());
            }
        }
        Ok(Some(chain))
    }

    /// Builds the immutable files from the accumulated state: the data bytes
    /// as staged, a serialized sorted index over them, and the pack name, the
    /// hex digest of the data bytes. An empty writer has nothing to
    /// materialize; a pack of more entries than an index position can address
    /// cannot be built.
    pub fn build_files(self) -> (r: Result<PackFiles, PackError>)
        requires
            self.wf(),
        ensures
            (r == Err::<PackFiles, PackError>(PackError::EmptyPack)) <==> self.entries().len()
                == 0,
            (r == Err::<PackFiles, PackError>(PackError::TooManyEntries)) <==> self.entries().len()
                > 0x7FFFFFFF,
            0 < self.entries().len() <= 0x7FFFFFFF ==> (r matches Ok(f) && published_ok(self, f)),
    {
        if self.mem_index.len() == 0 {
            return Err(PackError::EmptyPack);
        }
        if self.mem_index.len() > 0x7FFFFFFF {
            return Err(PackError::TooManyEntries);
        }
        let ghost mes = self.entries();
        let n = self.mem_index.len();
        let mut idx_entries: Vec<IndexEntry> = Vec::new();
        let mut i: usize = 0;
        while i < n
            invariant
                i <= n,
                n == self.mem_index@.len(),
                self.wf(),
                mes == self.entries(),
                n <= 0x7FFFFFFF,
                idx_entries@.len() == i,
                forall|j: int|
                    0 <= j < i ==> index_entry_matches(
                        mes,
                        #[trigger] entry_views(idx_entries@)[j],
                        mes[j],
                    ),
            decreases n - i,
        {
            proof {
                assert(entry_ok(self.data@, mes[i as int]));
            }
            let e = &self.mem_index[i];
            let base_pos: Option<u32> = match &e.loc.delta_base {
                None => None,
                Some(b) => {
                    let (p, found) = find_pos(&self.mem_index, b);
                    if found {
                        proof {
                            lemma_mem_idx_is(self.entries(), p as int);
                        }
                        Some(p as u32)
                    } else {
                        proof {
                            if mem_has(mes, b@) {
                                let w = mem_idx(mes, b@);
                                assert(0 <= w < mes.len());
                                crate::dataindex::lemma_lex_irrefl(b@);
                            }
                        }
                        None
                    }
                },
            };
            let ie = IndexEntry {
                hgid: clone_bytes(&e.hgid),
                base_pos,
                offset: e.loc.offset,
                size: e.loc.size,
            };
            let ghost old_ivs = entry_views(idx_entries@);
            let ghost iev = ie@;
            idx_entries.push(ie);
            i = i + 1;
            proof {
                assert(entry_views(idx_entries@) =~= old_ivs.push(iev));
                assert(index_entry_matches(mes, iev, mes[i - 1]));
                assert forall|j: int| 0 <= j < i implies index_entry_matches(
                    mes,
                    #[trigger] entry_views(idx_entries@)[j],
                    mes[j],
                ) by {
                    if j < i - 1 {
                        assert(entry_views(idx_entries@)[j] == old_ivs[j]);
                    } else {
                        assert(entry_views(idx_entries@)[j] == iev);
                    }
                }
            }
        }
        proof {
            let ivs = entry_views(idx_entries@);
            assert forall|a: int, b: int|
                0 <= a && b == a + 1 && b < ivs.len() implies lex_lt(
                (#[trigger] ivs[a]).hgid,
                (#[trigger] ivs[b]).hgid,
            ) by {
                assert(index_entry_matches(mes, ivs[a], mes[a]));
                assert(index_entry_matches(mes, ivs[b], mes[b]));
            }
            assert forall|a: int| 0 <= a < ivs.len() implies (#[trigger] ivs[a]).wf() by {
                assert(index_entry_matches(mes, ivs[a], mes[a]));
                assert(entry_ok(self.data@, mes[a]));
            }
        }
        let index_bytes = build_index_bytes(&idx_entries);
        proof {
            lemma_index_roundtrip(entry_views(idx_entries@));
        }
        let digest = sha1_digest(&self.data);
        let name = to_hex(&digest);
        let f = PackFiles { data: self.data, index: index_bytes, name };
        Ok(f)
    }

    /// Publishes the accumulated state and leaves this writer fresh and
    /// empty: later adds land in the next pack, never in the published one.
    /// A writer with nothing added publishes nothing and creates no files.
    pub fn flush(&mut self) -> (r: Result<Option<PackFiles>, PackError>)
        requires
            old(self).wf(),
        ensures
            final(self).wf(),
            final(self).entries().len() == 0,
            final(self).data_bytes() == seq![1u8],
            (r == Ok::<Option<PackFiles>, PackError>(None)) <==> old(self).entries().len() == 0,
            r is Err <==> old(self).entries().len() > 0x7FFFFFFF,
            r matches Err(e) ==> e == PackError::TooManyEntries,
            r matches Ok(Some(f)) ==> published_ok(*old(self), f),
    {
        let mut detached_data: Vec<u8> = Vec::new();
        detached_data.push(1u8);
        let mut detached_index: Vec<MemEntry> = Vec::new();
        core::mem::swap(&mut self.data, &mut detached_data);
        core::mem::swap(&mut self.mem_index, &mut detached_index);
        let detached = MutableDataPack {
            version: DataPackVersion::One,
            data: detached_data,
            mem_index: detached_index,
        };
        proof {
            assert(self.data@ =~= seq![1u8]);
            assert(self.entries() =~= Seq::<MemEntryV>::empty());
            assert(detached.data@ == old(self).data@);
            assert(detached.entries() =~= old(self).entries());
        }
        if detached.mem_index.len() == 0 {
            return Ok(None);
        }
        match detached.build_files() {
            Ok(f) => Ok(Some(f)),
            Err(e) => Err(e),
        }
    }
}

/// The path and id views of a key list.
pub open spec fn key_views(s: Seq<Key>) -> Seq<(Seq<u8>, Seq<u8>)> {
    s.map_values(|k: Key| (k.path@, k.hgid@))
}

/// How one on-disk index entry reflects one in-memory entry: same id, same
/// record location, and a base position that names the base's entry exactly
/// when the base is in this pack.
pub open spec fn index_entry_matches(
    mes: Seq<MemEntryV>,
    ie: IndexEntryV,
    me: MemEntryV,
) -> bool {
    &&& ie.hgid == me.hgid
    &&& ie.offset == me.offset
    &&& ie.size == me.size
    &&& match me.base {
        None => ie.base_pos is None,
        Some(b) => match ie.base_pos {
            Some(p) => p < mes.len() && mes[p as int].hgid == b,
            None => !mem_has(mes, b),
        },
    }
}

/// What a successful publish guarantees: the data bytes as staged, the name
/// as their hex digest, and index bytes that are exactly the serialized form
/// (fanout table included) of one entry per stored id, in the writer's sorted
/// order, locating exactly the staged records.
pub open spec fn published_ok(w: MutableDataPack, f: PackFiles) -> bool {
    &&& f.data@ == w.data_bytes()
    &&& f.name@ == hex_of(sha1_of(f.data@))
    &&& match spec_parse_index(f.index@) {
        Some(es) => {
            &&& f.index@ == spec_index_bytes(es)
            &&& es.len() == w.entries().len()
            &&& forall|i: int|
                0 <= i < es.len() ==> index_entry_matches(
                    w.entries(),
                    #[trigger] es[i],
                    w.entries()[i],
                )
        },
        None => false,
    }
}

/// Finds where `id` stands, or should stand, in the sorted index: the first
/// position not below it, and whether that position already carries it.
fn find_pos(mem: &Vec<MemEntry>, id: &Vec<u8>) -> (r: (usize, bool))
    requires
        mem_sorted(mem_views(mem@)),
    ensures
        r.0 <= mem@.len(),
        forall|i: int| 0 <= i < r.0 ==> lex_lt((#[trigger] mem_views(mem@)[i]).hgid, id@),
        r.1 ==> r.0 < mem@.len() && mem_views(mem@)[r.0 as int].hgid == id@,
        !r.1 ==> forall|i: int|
            r.0 <= i < mem@.len() ==> lex_lt(id@, (#[trigger] mem_views(mem@)[i]).hgid),
{
    let ghost vs = mem_views(mem@);
    let n = mem.len();
    let mut j: usize = 0;
    while j < n
        invariant
            j <= n,
            n == mem@.len(),
            vs == mem_views(mem@),
            mem_sorted(vs),
            forall|i: int| 0 <= i < j ==> lex_lt((#[trigger] vs[i]).hgid, id@),
        decreases n - j,
    {
        assert(vs[j as int] == mem@[j as int]@);
        let c = cmp_bytes(&mem[j].hgid, id);
        if c == 1 {
            return (j, true);
        }
        if c == 2 {
            proof {
                assert forall|i: int| j <= i < n implies lex_lt(
                    id@,
                    (#[trigger] vs[i]).hgid,
                ) by {
                    if i > j {
                        lemma_mem_span(vs, j as int, i);
                        crate::dataindex::lemma_lex_trans(id@, vs[j as int].hgid, vs[i].hgid);
                    }
                }
            }
            return (j, false);
        }
        j = j + 1;
    }
    (n, false)
}

/// Overwriting the entry of an id it already carries keeps the index sorted
/// and every record parseable.
proof fn lemma_after_update(old_es: Seq<MemEntryV>, data: Seq<u8>, pos: int, ev: MemEntryV)
    requires
        mem_sorted(old_es),
        0 <= pos < old_es.len(),
        old_es[pos].hgid == ev.hgid,
        entry_ok(data, ev),
        forall|i: int| 0 <= i < old_es.len() ==> entry_ok(data, #[trigger] old_es[i]),
    ensures
        mem_sorted(old_es.update(pos, ev)),
        forall|i: int|
            0 <= i < old_es.update(pos, ev).len() ==> entry_ok(
                data,
                #[trigger] old_es.update(pos, ev)[i],
            ),
{
    let es = old_es.update(pos, ev);
    assert forall|i: int, j: int| 0 <= i && j == i + 1 && j < es.len() implies lex_lt(
        (#[trigger] es[i]).hgid,
        (#[trigger] es[j]).hgid,
    ) by {
        assert(es[i].hgid == old_es[i].hgid);
        assert(es[j].hgid == old_es[j].hgid);
    }
}

/// Inserting a fresh id at its sorted position keeps the index sorted and
/// every record parseable.
proof fn lemma_after_insert(
    old_es: Seq<MemEntryV>,
    data: Seq<u8>,
    pos: int,
    ev: MemEntryV,
    id: Seq<u8>,
)
    requires
        mem_sorted(old_es),
        0 <= pos <= old_es.len(),
        ev.hgid == id,
        forall|i: int| 0 <= i < pos ==> lex_lt((#[trigger] old_es[i]).hgid, id),
        forall|i: int| pos <= i < old_es.len() ==> lex_lt(id, (#[trigger] old_es[i]).hgid),
        entry_ok(data, ev),
        forall|i: int| 0 <= i < old_es.len() ==> entry_ok(data, #[trigger] old_es[i]),
    ensures
        mem_sorted(old_es.insert(pos, ev)),
        forall|i: int|
            0 <= i < old_es.insert(pos, ev).len() ==> entry_ok(
                data,
                #[trigger] old_es.insert(pos, ev)[i],
            ),
{
    let es = old_es.insert(pos, ev);
    assert forall|i: int, j: int| 0 <= i && j == i + 1 && j < es.len() implies lex_lt(
        (#[trigger] es[i]).hgid,
        (#[trigger] es[j]).hgid,
    ) by {
        if j < pos {
            assert(es[i] == old_es[i] && es[j] == old_es[j]);
        } else if j == pos {
            assert(es[i] == old_es[i]);
            assert(es[j] == ev);
        } else if i == pos {
            assert(es[i] == ev);
            assert(es[j] == old_es[j - 1]);
        } else {
            assert(es[i] == old_es[i - 1] && es[j] == old_es[j - 1]);
        }
    }
    assert forall|i: int| 0 <= i < es.len() implies entry_ok(data, #[trigger] es[i]) by {
        if i < pos {
            assert(es[i] == old_es[i]);
        } else if i == pos {
        } else {
            assert(es[i] == old_es[i - 1]);
        }
    }
}

/// After an overwrite or an insert at the sorted position of `ev.hgid`, the
/// stored record of every other id is unchanged and the new id's record is
/// the new entry's.
proof fn lemma_add_post(
    old_es: Seq<MemEntryV>,
    es: Seq<MemEntryV>,
    data: Seq<u8>,
    pos: int,
    ev: MemEntryV,
)
    requires
        mem_sorted(old_es),
        mem_sorted(es),
        0 <= pos < es.len(),
        es[pos] == ev,
        es.len() == old_es.len() || es.len() == old_es.len() + 1,
        es.len() == old_es.len() ==> es =~= old_es.update(pos, ev) && old_es[pos].hgid == ev.hgid,
        es.len() == old_es.len() + 1 ==> es =~= old_es.insert(pos, ev),
    ensures
        forall|k: Seq<u8>| mem_has(es, k) <==> (mem_has(old_es, k) || k == ev.hgid),
        forall|k: Seq<u8>| #![auto]
            mem_has(old_es, k) && k != ev.hgid ==> es[mem_idx(es, k)] == old_es[mem_idx(
                old_es,
                k,
            )],
        es[mem_idx(es, ev.hgid)] == ev,
{
    lemma_mem_idx_is(es, pos);
    assert forall|k: Seq<u8>| mem_has(es, k) implies (mem_has(old_es, k) || k == ev.hgid) by {
        let i = choose|i: int| 0 <= i < es.len() && (#[trigger] es[i]).hgid == k;
        if es.len() == old_es.len() {
            if i != pos {
                assert(old_es[i].hgid == k);
            }
        } else {
            if i < pos {
                assert(old_es[i].hgid == k);
            } else if i > pos {
                assert(old_es[i - 1].hgid == k);
            }
        }
    }
    assert forall|k: Seq<u8>| mem_has(old_es, k) implies mem_has(es, k) || k == ev.hgid by {
        let i = choose|i: int| 0 <= i < old_es.len() && (#[trigger] old_es[i]).hgid == k;
        if es.len() == old_es.len() {
            if i == pos {
                assert(k == ev.hgid);
            } else {
                assert(es[i].hgid == k);
            }
        } else {
            if i < pos {
                assert(es[i].hgid == k);
            } else {
                assert(es[i + 1].hgid == k);
            }
        }
    }
    assert forall|k: Seq<u8>| #![auto]
        mem_has(old_es, k) && k != ev.hgid implies es[mem_idx(es, k)] == old_es[mem_idx(
        old_es,
        k,
    )] by {
        let i = mem_idx(old_es, k);
        assert(0 <= i < old_es.len() && old_es[i].hgid == k);
        if es.len() == old_es.len() {
            assert(i != pos);
            assert(es[i] == old_es[i]);
            lemma_mem_idx_is(es, i);
        } else {
            if i < pos {
                assert(es[i] == old_es[i]);
                lemma_mem_idx_is(es, i);
            } else {
                assert(es[i + 1] == old_es[i]);
                lemma_mem_idx_is(es, i + 1);
            }
        }
    }
}

} // verus!
