use datapack::datapack::DataPack;
use datapack::error::PackError;
use datapack::meta::Metadata;
use datapack::mutabledatapack::MutableDataPack;
use datapack::types::{DataPackVersion, Delta, Key};

fn hgid(n: u8) -> Vec<u8> {
    let mut v = vec![0u8; 20];
    v[19] = n;
    v
}

fn key(path: &[u8], n: u8) -> Key {
    Key::new(path.to_vec(), hgid(n))
}

fn make_pack(deltas: &Vec<(Delta, Option<Metadata>)>) -> DataPack {
    let mut mutdatapack = MutableDataPack::new(true, DataPackVersion::One).unwrap();
    for (delta, metadata) in deltas.iter() {
        let meta = metadata.clone().unwrap_or(Metadata { flags: None, size: None });
        mutdatapack.add(delta, &meta).unwrap();
    }
    let files = mutdatapack.flush().unwrap().unwrap();
    DataPack::new(files.data, files.index).unwrap()
}

/// Index-file bytes of a pack holding no entries: version, config, and an
/// all-zero fanout table.
fn empty_index_bytes() -> Vec<u8> {
    let mut v = vec![1u8, 0u8];
    v.resize(2 + 0x40000, 0u8);
    v
}

#[test]
fn test_empty() {
    // a published pack holds at least its version byte
    let pack = DataPack::new(vec![1u8], empty_index_bytes()).unwrap();
    assert!(pack.len() > 0);
}

#[test]
fn test_zero_length_data_rejected() {
    assert_eq!(
        DataPack::new(Vec::new(), empty_index_bytes()).unwrap_err(),
        PackError::EmptyPack
    );
}

#[test]
fn test_malformed_index_rejected() {
    assert_eq!(
        DataPack::new(vec![1u8], vec![1u8, 0u8, 9u8]).unwrap_err(),
        PackError::Corrupt
    );
}

#[test]
fn datapack_test_get_missing() {
    let revisions = vec![(
        Delta {
            data: vec![1, 2, 3, 4],
            base: Some(Key::new(vec![0], hgid(10))),
            key: Key::new(vec![0], hgid(11)),
        },
        None,
    )];
    let pack = make_pack(&revisions);
    for (delta, _metadata) in revisions.iter() {
        let missing = pack.get_missing(&vec![delta.key.clone()]).unwrap();
        assert_eq!(missing.len(), 0);
    }

    let not = Key::new(vec![1], hgid(12));
    let missing = pack.get_missing(&vec![not.clone()]).unwrap();
    assert_eq!(missing, vec![not.clone()]);
}

#[test]
fn datapack_test_get_meta() {
    let revisions = vec![
        (
            Delta {
                data: vec![1, 2, 3, 4],
                base: Some(Key::new(vec![0], hgid(10))),
                key: Key::new(vec![0], hgid(11)),
            },
            None,
        ),
        (
            Delta {
                data: vec![1, 2, 3, 4],
                base: Some(Key::new(vec![0], hgid(12))),
                key: Key::new(vec![0], hgid(13)),
            },
            Some(Metadata { size: Some(1000), flags: Some(7) }),
        ),
    ];

    let pack = make_pack(&revisions);
    for (delta, metadata) in revisions.iter() {
        let meta = pack.get_meta(&delta.key).unwrap().unwrap();
        let expected = match metadata {
            Some(m) => m.clone(),
            None => Metadata { flags: None, size: None },
        };
        assert_eq!(meta, expected);
    }
}

#[test]
fn test_round_trip() {
    // every key added and published is retrievable with identical data,
    // base and metadata
    let revisions = vec![
        (
            Delta {
                data: b"full text of revision one".to_vec(),
                base: None,
                key: key(b"file", 1),
            },
            Some(Metadata { flags: Some(3), size: Some(25) }),
        ),
        (
            Delta {
                data: b"diff against one".to_vec(),
                base: Some(key(b"file", 1)),
                key: key(b"file", 2),
            },
            None,
        ),
    ];
    let pack = make_pack(&revisions);
    for (delta, metadata) in revisions.iter() {
        let read = pack.get_delta(&delta.key).unwrap().unwrap();
        assert_eq!(&read, delta);
        let meta = pack.get_meta(&delta.key).unwrap().unwrap();
        let expected = metadata.clone().unwrap_or(Metadata { flags: None, size: None });
        assert_eq!(meta, expected);
    }
}

#[test]
fn test_reader_delta_chain() {
    // A full text, B based on A, C based on B
    let a = Delta { data: b"aaa".to_vec(), base: None, key: key(b"f", 1) };
    let b = Delta {
        data: b"bbb".to_vec(),
        base: Some(key(b"f", 1)),
        key: key(b"f", 2),
    };
    let c = Delta {
        data: b"ccc".to_vec(),
        base: Some(key(b"f", 2)),
        key: key(b"f", 3),
    };
    let revisions = vec![(a.clone(), None), (b.clone(), None), (c.clone(), None)];
    let pack = make_pack(&revisions);

    let chain = pack.get_delta_chain(&c.key).unwrap().unwrap();
    assert_eq!(chain, vec![c.clone(), b.clone(), a.clone()]);

    let chain = pack.get_delta_chain(&a.key).unwrap().unwrap();
    assert_eq!(chain, vec![a.clone()]);
}

#[test]
fn test_reader_partial_chain() {
    // B's base was never added to this pack: the chain stops at B, as
    // success, while an unknown key yields no chain at all
    let b = Delta {
        data: b"bbb".to_vec(),
        base: Some(key(b"f", 9)),
        key: key(b"f", 2),
    };
    let pack = make_pack(&vec![(b.clone(), None)]);

    let chain = pack.get_delta_chain(&b.key).unwrap().unwrap();
    assert_eq!(chain, vec![b.clone()]);

    let unknown = key(b"f", 7);
    assert_eq!(pack.get_delta_chain(&unknown).unwrap(), None);
}

#[test]
fn test_reader_raw_get_unsupported() {
    let d = Delta { data: vec![1], base: None, key: key(b"f", 1) };
    let pack = make_pack(&vec![(d.clone(), None)]);
    assert_eq!(pack.get(&d.key).unwrap_err(), PackError::Unsupported);
}

#[test]
fn test_read_entry_lazy_delta() {
    let d = Delta { data: b"payload bytes".to_vec(), base: None, key: key(b"f", 1) };
    let pack = make_pack(&vec![(d.clone(), None)]);

    // the sole record starts right after the version byte
    let size = (pack.len() - 1) as u64;
    let mut entry = pack.read_entry(1, size).unwrap();
    assert_eq!(entry.offset(), 1);
    assert_eq!(entry.filename(), &b"f".to_vec());
    assert_eq!(entry.node(), &d.key.hgid);
    assert_eq!(entry.delta_base(), &vec![0u8; 20]);
    assert_eq!(entry.metadata(), &Metadata { flags: None, size: None });
    // decompressed on first access, cached after
    assert_eq!(entry.delta().unwrap(), b"payload bytes".to_vec());
    assert_eq!(entry.delta().unwrap(), b"payload bytes".to_vec());
}

#[test]
fn test_read_entry_out_of_bounds() {
    let d = Delta { data: vec![1], base: None, key: key(b"f", 1) };
    let pack = make_pack(&vec![(d, None)]);
    let len = pack.len() as u64;
    assert_eq!(pack.read_entry(len, 1).unwrap_err(), PackError::Corrupt);
}
