//! The immutable pack reader: read-only access to a published pack's data
//! bytes through its sorted index, with lazy decompression and delta-chain
//! reconstruction.

use vstd::prelude::*;

use crate::bytes::clone_bytes;
use crate::codec::{decompress, unlz4_ok, unlz4_of};
use crate::dataindex::{
    adj_sorted, entry_views, idx_has, idx_pos, lemma_idx_pos_is, lookup, parse_index,
    spec_parse_index, IndexEntry, IndexEntryV,
};
use crate::error::PackError;
use crate::meta::Metadata;
use crate::mutabledatapack::{
    index_entry_matches, key_views, mem_idx, published_ok, MutableDataPack, PackFiles,
};
use crate::record::{
    delta_matches, parse_record, spec_parse_record, Record, RecordV,
};
use crate::types::{is_null_id, spec_null_id, Delta, Key};

verus! {

/// The record occupying `size` bytes at `offset` of the data stream, if its
/// bytes lie inside the stream and parse.
pub open spec fn rec_at_range(data: Seq<u8>, offset: u64, size: u64) -> Option<RecordV> {
    if offset + size <= data.len() {
        spec_parse_record(data.subrange(offset as int, offset + size))
    } else {
        None
    }
}

/// The record located by an index entry.
pub open spec fn rec_at_loc(data: Seq<u8>, e: IndexEntryV) -> Option<RecordV> {
    rec_at_range(data, e.offset, e.size)
}

/// An immutable, published pack: the full data-file bytes and the parsed
/// sorted index over them.
#[derive(Debug)]
pub struct DataPack {
    pub version: u8,
    pub data: Vec<u8>,
    pub index: Vec<IndexEntry>,
}

/// One record read out of a pack, its payload still compressed; the
/// decompressed form is materialized on first access and cached.
#[derive(Debug)]
pub struct DataEntry {
    pub offset: u64,
    pub filename: Vec<u8>,
    pub hgid: Vec<u8>,
    pub delta_base: Vec<u8>,
    pub compressed_data: Vec<u8>,
    pub meta: Metadata,
    pub cache: Option<Vec<u8>>,
}

impl DataEntry {
    /// The cache holds nothing but the decompressed payload.
    pub open spec fn wf(&self) -> bool {
        match self.cache {
            Some(d) => unlz4_ok(self.compressed_data@) && d@ == unlz4_of(self.compressed_data@),
            None => true,
        }
    }

    /// Byte offset of this record in the data file.
    pub fn offset(&self) -> (r: u64)
        ensures
            r == self.offset,
    {
        self.offset
    }

    /// The path stored in the record.
    pub fn filename(&self) -> (r: &Vec<u8>)
        ensures
            r@ == self.filename@,
    {
        &self.filename
    }

    /// The record's content id.
    pub fn node(&self) -> (r: &Vec<u8>)
        ensures
            r@ == self.hgid@,
    {
        &self.hgid
    }

    /// The raw stored base id; the all-zero sentinel marks a full text.
    pub fn delta_base(&self) -> (r: &Vec<u8>)
        ensures
            r@ == self.delta_base@,
    {
        &self.delta_base
    }

    /// The stored metadata.
    pub fn metadata(&self) -> (r: &Metadata)
        ensures
            r == self.meta,
    {
        &self.meta
    }

    /// The decompressed payload, computed on first access and cached; a
    /// payload that does not decompress marks a corrupt record.
    pub fn delta(&mut self) -> (r: Result<Vec<u8>, PackError>)
        requires
            old(self).wf(),
        ensures
            final(self).wf(),
            final(self).compressed_data@ == old(self).compressed_data@,
            final(self).hgid@ == old(self).hgid@,
            final(self).delta_base@ == old(self).delta_base@,
            final(self).filename@ == old(self).filename@,
            final(self).meta == old(self).meta,
            final(self).offset == old(self).offset,
            unlz4_ok(old(self).compressed_data@) ==> (r matches Ok(d) && d@ == unlz4_of(
                old(self).compressed_data@,
            )),
            !unlz4_ok(old(self).compressed_data@) ==> r == Err::<Vec<u8>, PackError>(
                PackError::Corrupt,
            ),
    {
        match &self.cache {
            Some(d) => Ok(clone_bytes(d)),
            None => {
                match decompress(&self.compressed_data) {
                    Some(d) => {
                        self.cache = Some(clone_bytes(&d));
                        Ok(d)
                    },
                    None => Err(PackError::Corrupt),
                }
            },
        }
    }
}

impl DataPack {
    /// The parsed index.
    pub open spec fn entries_v(&self) -> Seq<IndexEntryV> {
        entry_views(self.index@)
    }

    /// Whether the index holds `id`.
    pub open spec fn has(&self, id: Seq<u8>) -> bool {
        idx_has(self.entries_v(), id)
    }

    /// The record stored for `id`, if its bytes are sound.
    pub open spec fn rec_opt(&self, id: Seq<u8>) -> Option<RecordV> {
        rec_at_loc(self.data@, self.entries_v()[idx_pos(self.entries_v(), id)])
    }

    /// The reader's invariant: a non-empty mapped data stream whose first
    /// byte is the version, and a sorted index.
    pub open spec fn wf(&self) -> bool {
        &&& self.data@.len() >= 1
        &&& self.version == self.data@[0]
        &&& adj_sorted(self.entries_v())
    }

    /// Opens a published pack from its data-file and index-file bytes. A
    /// zero-length data file is invalid: a published pack holds at least its
    /// version byte. A malformed index is corrupt.
    pub fn new(data: Vec<u8>, index: Vec<u8>) -> (r: Result<DataPack, PackError>)
        ensures
            r is Ok <==> data@.len() > 0 && spec_parse_index(index@) is Some,
            data@.len() == 0 <==> r == Err::<DataPack, PackError>(PackError::EmptyPack),
            data@.len() > 0 && spec_parse_index(index@) is None <==> r == Err::<
                DataPack,
                PackError,
            >(PackError::Corrupt),
            r matches Ok(p) ==> p.wf() && p.data@ == data@ && spec_parse_index(index@) == Some(
                p.entries_v(),
            ) && p.version == data@[0],
    {
        if data.len() == 0 {
            return Err(PackError::EmptyPack);
        }
        let version = data[0];
        match parse_index(&index) {
            Ok(entries) => Ok(DataPack { version, data, index: entries }),
            Err(e) => Err(e),
        }
    }

    /// The length in bytes of the mapped data file.
    pub fn len(&self) -> (r: usize)
        ensures
            r == self.data@.len(),
    {
        self.data.len()
    }

    /// Parses the record of `size` bytes at `offset` in place; the payload is
    /// not decompressed. Bytes that run past the end of the mapped region, or
    /// a malformed record, are corrupt.
    pub fn read_entry(&self, offset: u64, size: u64) -> (r: Result<DataEntry, PackError>)
        requires
            self.wf(),
        ensures
            r is Ok <==> rec_at_range(self.data@, offset, size) is Some,
            r matches Ok(e) ==> {
                let rv = rec_at_range(self.data@, offset, size)->0;
                &&& e.offset == offset
                &&& e.filename@ == rv.path
                &&& e.hgid@ == rv.hgid
                &&& e.delta_base@ == rv.base
                &&& e.compressed_data@ == rv.comp
                &&& e.meta == rv.meta
                &&& e.cache is None
            },
            r matches Err(e) ==> e == PackError::Corrupt,
    {
        let dlen = self.data.len();
        if offset > dlen as u64 || size > dlen as u64 - offset {
            return Err(PackError::Corrupt);
        }
        let off = offset as usize;
        let sz = size as usize;
        match parse_record(&self.data, off, off + sz) {
            Ok(rec) => Ok(DataEntry {
                offset,
                filename: rec.path,
                hgid: rec.hgid,
                delta_base: rec.base,
                compressed_data: rec.comp,
                meta: rec.meta,
                cache: None,
            }),
            Err(e) => Err(e),
        }
    }

    /// Parses the record of the index entry at `pos`.
    fn read_rec(&self, pos: usize) -> (r: Result<Record, PackError>)
        requires
            self.wf(),
            pos < self.index@.len(),
        ensures
            r is Ok <==> rec_at_loc(self.data@, self.entries_v()[pos as int]) is Some,
            r matches Ok(rec) ==> rec_at_loc(self.data@, self.entries_v()[pos as int]) == Some(
                rec@,
            ),
            r matches Err(e) ==> e == PackError::Corrupt,
    {
        let e = &self.index[pos];
        let dlen = self.data.len();
        if e.offset > dlen as u64 || e.size > dlen as u64 - e.offset {
            return Err(PackError::Corrupt);
        }
        let off = e.offset as usize;
        let sz = e.size as usize;
        parse_record(&self.data, off, off + sz)
    }

    /// Raw full-content reads are not meaningful on a delta-oriented pack:
    /// only delta and delta-chain access is.
    pub fn get(&self, _key: &Key) -> (r: Result<Option<Vec<u8>>, PackError>)
        ensures
            r == Err::<Option<Vec<u8>>, PackError>(PackError::Unsupported),
    {
        Err(PackError::Unsupported)
    }

    /// The metadata stored for `key`: `None` when the pack does not hold the
    /// key, an error only when the stored record is corrupt.
    pub fn get_meta(&self, key: &Key) -> (r: Result<Option<Metadata>, PackError>)
        requires
            self.wf(),
        ensures
            !self.has(key.hgid@) ==> r == Ok::<Option<Metadata>, PackError>(None),
            self.has(key.hgid@) ==> r == (match self.rec_opt(key.hgid@) {
                Some(rv) => Ok::<Option<Metadata>, PackError>(Some(rv.meta)),
                None => Err::<Option<Metadata>, PackError>(PackError::Corrupt),
            }),
    {
        match lookup(&self.index, &key.hgid) {
            None => Ok(None),
            Some(pos) => {
                proof {
                    lemma_idx_pos_is(self.entries_v(), pos as int);
                }
                match self.read_rec(pos) {
                    Ok(rec) => Ok(Some(rec.meta)),
                    Err(e) => Err(e),
                }
            },
        }
    }

    /// The delta stored for `key`: `None` when the pack does not hold the
    /// key, an error only when the stored record is corrupt.
    pub fn get_delta(&self, key: &Key) -> (r: Result<Option<Delta>, PackError>)
        requires
            self.wf(),
        ensures
            !self.has(key.hgid@) ==> r == Ok::<Option<Delta>, PackError>(None),
            self.has(key.hgid@) ==> (match self.rec_opt(key.hgid@) {
                Some(rv) => {
                    if unlz4_ok(rv.comp) {
                        r matches Ok(Some(d)) && delta_matches(d, key.path@, rv)
                    } else {
                        r == Err::<Option<Delta>, PackError>(PackError::Corrupt)
                    }
                },
                None => r == Err::<Option<Delta>, PackError>(PackError::Corrupt),
            }),
    {
        match lookup(&self.index, &key.hgid) {
            None => Ok(None),
            Some(pos) => {
                proof {
                    lemma_idx_pos_is(self.entries_v(), pos as int);
                }
                match self.read_rec(pos) {
                    Ok(rec) => {
                        match decompress(&rec.comp) {
                            Some(d) => {
                                let base: Option<Key> = if is_null_id_checked(&rec.base) {
                                    None
                                } else {
                                    Some(Key::new(clone_bytes(&key.path), rec.base))
                                };
                                Ok(Some(Delta {
                                    data: d,
                                    base,
                                    key: Key::new(clone_bytes(&key.path), rec.hgid),
                                }))
                            },
                            None => Err(PackError::Corrupt),
                        }
                    },
                    Err(e) => Err(e),
                }
            },
        }
    }

    /// Filters the given keys down to those this pack does not hold.
    pub fn get_missing(&self, keys: &Vec<Key>) -> (r: Result<Vec<Key>, PackError>)
        requires
            self.wf(),
        ensures
            r matches Ok(v) && key_views(v@) == key_views(keys@).filter(
                |p: (Seq<u8>, Seq<u8>)| !idx_has(self.entries_v(), p.1),
            ),
    {
        let ghost pred = |p: (Seq<u8>, Seq<u8>)| !idx_has(self.entries_v(), p.1);
        let ghost kv = key_views(keys@);
        let n = keys.len();
        let mut out: Vec<Key> = Vec::new();
        let mut i: usize = 0;
        while i < n
            invariant
                i <= n,
                n == keys@.len(),
                kv == key_views(keys@),
                pred == (|p: (Seq<u8>, Seq<u8>)| !idx_has(self.entries_v(), p.1)),
                self.wf(),
                key_views(out@) == kv.subrange(0, i as int).filter(pred),
            decreases n - i,
        {
            let ghost pre = kv.subrange(0, i as int);
            let found = match lookup(&self.index, &keys[i].hgid) {
                Some(_) => true,
                None => false,
            };
            if !found {
                out.push(Key::new(clone_bytes(&keys[i].path), clone_bytes(&keys[i].hgid)));
            }
            i = i + 1;
            proof {
                let cur = kv.subrange(0, i as int);
                assert(cur.drop_last() =~= pre);
                assert(cur.last() == (keys@[i - 1].path@, keys@[i - 1].hgid@));
                reveal_with_fuel(Seq::<(Seq<u8>, Seq<u8>)>::filter, 2);
                if pred(cur.last()) {
                    assert(cur.filter(pred) == pre.filter(pred).push(cur.last()));
                } else {
                    assert(cur.filter(pred) == pre.filter(pred));
                }
                assert(key_views(out@) =~= cur.filter(pred));
            }
        }
        proof {
            assert(kv.subrange(0, n as int) =~= kv);
        }
        Ok(out)
    }

    /// The chain of records reached from `id` by following base ids,
    /// stopping at a full text, at a base this pack does not hold, at the
    /// first record that fails to parse or decompress, or at exhaustion of
    /// `fuel`.
    pub open spec fn spec_chain(&self, id: Seq<u8>, fuel: nat) -> Seq<RecordV>
        decreases fuel,
    {
        if fuel == 0 || !self.has(id) {
            Seq::<RecordV>::empty()
        } else {
            match self.rec_opt(id) {
                None => Seq::<RecordV>::empty(),
                Some(rv) => {
                    if !unlz4_ok(rv.comp) {
                        Seq::<RecordV>::empty()
                    } else {
                        seq![rv] + (if rv.base == spec_null_id() {
                            Seq::<RecordV>::empty()
                        } else {
                            self.spec_chain(rv.base, (fuel - 1) as nat)
                        })
                    }
                },
            }
        }
    }

    /// Reconstructs the delta chain of `key`: the key's own delta first,
    /// then each base in turn, ending at a full text or at the first base
    /// this pack does not hold (a partial chain is success: the base is
    /// expected in an underlying store). `None` when the pack does not hold
    /// the key itself; an error only when no progress was made at all.
    #[verifier::rlimit(100)]
    #[verifier::spinoff_prover]
    pub fn get_delta_chain(&self, key: &Key) -> (r: Result<Option<Vec<Delta>>, PackError>)
        requires
            self.wf(),
        ensures
            !self.has(key.hgid@) ==> r == Ok::<Option<Vec<Delta>>, PackError>(None),
            self.has(key.hgid@) ==> {
                let ch = self.spec_chain(key.hgid@, (self.entries_v().len() + 1) as nat);
                if ch.len() == 0 {
                    r == Err::<Option<Vec<Delta>>, PackError>(PackError::Corrupt)
                } else {
                    r matches Ok(Some(c)) && c@.len() == ch.len() && (forall|i: int|
                        0 <= i < ch.len() ==> delta_matches(#[trigger] c@[i], key.path@, ch[i]))
                }
            },
    {
        let ghost fuel0 = (self.entries_v().len() + 1) as nat;
        let ghost total = self.spec_chain(key.hgid@, fuel0);
        if lookup(&self.index, &key.hgid).is_none() {
            return Ok(None);
        }
        let mut chain: Vec<Delta> = Vec::new();
        let mut cur: Option<Key> = Some(Key::new(clone_bytes(&key.path), clone_bytes(&key.hgid)));
        let mut fuel: u128 = self.index.len() as u128 + 1;
        while fuel > 0 && cur.is_some()
            invariant
                self.wf(),
                self.has(key.hgid@),
                fuel <= fuel0,
                fuel0 == (self.entries_v().len() + 1) as nat,
                total == self.spec_chain(key.hgid@, fuel0),
                chain@.len() <= total.len(),
                chain@.len() == fuel0 - fuel,
                cur is None ==> fuel < fuel0,
                forall|i: int|
                    0 <= i < chain@.len() ==> delta_matches(
                        #[trigger] chain@[i],
                        key.path@,
                        total[i],
                    ),
                match cur {
                    Some(k) => k.path@ == key.path@ && self.spec_chain(k.hgid@, fuel as nat)
                        == total.skip(chain@.len() as int),
                    None => chain@.len() == total.len(),
                },
            decreases fuel,
        {
            let k = match &cur {
                Some(k) => k,
                None => {
                    proof {
                        assert(false);
                    }
                    return Err(PackError::Corrupt);
                },
            };
            let ghost rest = total.skip(chain@.len() as int);
            match lookup(&self.index, &k.hgid) {
                None => {
                    proof {
                        assert(!self.has(k.hgid@));
                        assert(rest =~= Seq::<RecordV>::empty());
                    }
                    if chain.len() == 0 {
                        proof {
                            assert(total.len() == 0);
                        }
                        return Err(PackError::Corrupt);
                    }
                    return Ok(Some(chain));
                },
                Some(pos) => {
                    proof {
                        lemma_idx_pos_is(self.entries_v(), pos as int);
                    }
                    let rec = match self.read_rec(pos) {
                        Ok(rec) => rec,
                        Err(_) => {
                            proof {
                                assert(self.rec_opt(k.hgid@) is None);
                                assert(rest =~= Seq::<RecordV>::empty());
                            }
                            if chain.len() == 0 {
                                return Err(PackError::Corrupt);
                            }
                            return Ok(Some(chain));
                        },
                    };
                    let ghost rv = self.rec_opt(k.hgid@)->0;
                    let d = match decompress(&rec.comp) {
                        Some(d) => d,
                        None => {
                            proof {
                                assert(!unlz4_ok(rv.comp));
                                assert(rest =~= Seq::<RecordV>::empty());
                            }
                            if chain.len() == 0 {
                                return Err(PackError::Corrupt);
                            }
                            return Ok(Some(chain));
                        },
                    };
                    proof {
                        assert(rest == seq![rv] + (if rv.base == spec_null_id() {
                            Seq::<RecordV>::empty()
                        } else {
                            self.spec_chain(rv.base, (fuel - 1) as nat)
                        }));
                        assert(rest[0] == rv);
                        assert(total[chain@.len() as int] == rv);
                    }
                    let next: Option<Key> = if is_null_id_checked(&rec.base) {
                        None
                    } else {
                        Some(Key::new(clone_bytes(&key.path), clone_bytes(&rec.base)))
                    };
                    let delta = Delta {
                        data: d,
                        base: match &next {
                            None => None,
                            Some(b) => Some(Key::new(clone_bytes(&b.path), clone_bytes(&b.hgid))),
                        },
                        key: Key::new(clone_bytes(&key.path), clone_bytes(&rec.hgid)),
                    };
                    chain.push(delta);
                    proof {
                        let m = chain@.len() as int;
                        assert(total.skip(m) =~= rest.skip(1));
                        if next is Some {
                            assert(rest.skip(1) =~= self.spec_chain(rv.base, (fuel - 1) as nat));
                        } else {
                            assert(rest.skip(1) =~= Seq::<RecordV>::empty());
                        }
                    }
                    cur = next;
                    fuel = fuel - 1;
                },
            }
        }
        proof {
            if cur is Some {
                assert(self.spec_chain(cur->0.hgid@, 0) =~= Seq::<RecordV>::empty());
            }
            assert(chain@.len() == total.len());
            assert(total.len() > 0);
        }
        Ok(Some(chain))
    }
}

/// Round trip across publishing: for every id the writer holds, the files a
/// publish hands back locate, at that id's index entry, exactly the record
/// the writer stored, and its payload decompresses back to the bytes that
/// were added. With the reader's contracts this makes every published key
/// retrievable with the data, base and metadata that were added.
pub proof fn lemma_publish_round_trip(w: MutableDataPack, f: PackFiles, id: Seq<u8>)
    requires
        w.wf(),
        published_ok(w, f),
        w.has(id),
    ensures
        spec_parse_index(f.index@) matches Some(es) && {
            &&& idx_has(es, id)
            &&& rec_at_loc(f.data@, es[idx_pos(es, id)]) == Some(w.rec(id))
            &&& unlz4_ok(w.rec(id).comp)
        },
{
    let es = spec_parse_index(f.index@)->0;
    let mes = w.entries();
    let i = mem_idx(mes, id);
    assert(0 <= i < mes.len() && mes[i].hgid == id);
    assert(index_entry_matches(mes, es[i], mes[i]));
    assert(es[i].hgid == id);
    lemma_idx_pos_is(es, i);
    assert(crate::mutabledatapack::entry_ok(w.data_bytes(), mes[i]));
    assert(f.data@ == w.data_bytes());
    assert(rec_at_loc(f.data@, es[i]) == spec_parse_record(
        w.data_bytes().subrange(mes[i].offset as int, mes[i].offset + mes[i].size),
    ));
}

/// True when `id` is the all-zero sentinel, on an id of any length: an id of
/// another width is never the sentinel.
fn is_null_id_checked(id: &Vec<u8>) -> (r: bool)
    ensures
        r == (id@ == spec_null_id()),
{
    if id.len() != 20 {
        assert(id@.len() != spec_null_id().len());
        return false;
    }
    is_null_id(id)
}

} // verus!
