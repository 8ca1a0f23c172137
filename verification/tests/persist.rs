use vexdb::codec::Cursor;
use vexdb::format::Header;
use vexdb::persist::{read_header, write_header};
use vexdb::{
    AnyIndex, DistanceMetric, FlatIndex, FloatOp, HnswConfig, HnswIndex, Index, Payload,
    SnapshotError, Vector, VectorId,
};

fn single(bits: u64) -> f32 {
    f32::from_bits(bits as u32)
}

fn fpu(op: FloatOp, a: u64, b: u64) -> u64 {
    match op {
        FloatOp::Add => (single(a) + single(b)).to_bits() as u64,
        FloatOp::Sub => (single(a) - single(b)).to_bits() as u64,
        FloatOp::Mul => (single(a) * single(b)).to_bits() as u64,
        FloatOp::Div => (single(a) / single(b)).to_bits() as u64,
        FloatOp::Sqrt => single(a).sqrt().to_bits() as u64,
        FloatOp::WideMul => (f64::from_bits(a) * f64::from_bits(b)).to_bits(),
        FloatOp::WideDiv => (f64::from_bits(a) / f64::from_bits(b)).to_bits(),
        FloatOp::WideLn => f64::from_bits(a).ln().to_bits(),
        FloatOp::WideTrunc => f64::from_bits(a) as u64,
    }
}

fn bits(xs: &[f32]) -> Vec<u32> {
    xs.iter().map(|x| x.to_bits()).collect()
}

fn v(xs: &[f32]) -> Vector {
    Vector::from_vec(bits(xs))
}

fn payload(text: &str) -> Payload {
    Payload::parse(text.as_bytes()).unwrap()
}

/// Deterministic pseudo-random vectors (splitmix64).
fn random_vectors(n: usize, dim: usize, mut state: u64) -> Vec<Vec<f32>> {
    let mut next = move || {
        state = state.wrapping_add(0x9e37_79b9_7f4a_7c15);
        let mut z = state;
        z = (z ^ (z >> 30)).wrapping_mul(0xbf58_476d_1ce4_e5b9);
        z = (z ^ (z >> 27)).wrapping_mul(0x94d0_49bb_1331_11eb);
        z ^= z >> 31;
        ((z >> 40) as f32) / ((1u64 << 24) as f32) * 2.0 - 1.0
    };
    (0..n).map(|_| (0..dim).map(|_| next()).collect()).collect()
}

fn saved(index: &AnyIndex) -> Vec<u8> {
    let mut buf = Vec::new();
    index.write_to(&mut buf).unwrap();
    buf
}

fn corrupt_message(data: &[u8]) -> String {
    match AnyIndex::read_from(data).unwrap_err() {
        SnapshotError::Corrupt(message) => message,
        e => panic!("unexpected error: {}", e.message()),
    }
}

#[test]
fn flat_roundtrip_identical_results() {
    let mut idx = FlatIndex::new(8, DistanceMetric::Cosine);
    let vectors = random_vectors(100, 8, 9);
    for (i, x) in vectors.iter().enumerate() {
        let p = if i % 3 == 0 {
            Some(payload(&format!(r#"{{"i": {i}}}"#)))
        } else {
            None
        };
        idx.add_with_payload(&fpu, VectorId(i as u64), v(x), p).unwrap();
    }
    let original = AnyIndex::Flat(idx);
    let buf = saved(&original);
    let loaded = AnyIndex::read_from(buf.as_slice()).unwrap();
    let queries = random_vectors(10, 8, 101);
    for q in &queries {
        assert_eq!(
            original.search_opts(&fpu, &bits(q), 5, None, None).unwrap(),
            loaded.search_opts(&fpu, &bits(q), 5, None, None).unwrap(),
            "search results diverged after round-trip"
        );
    }
    assert_eq!(original.len(), loaded.len());
    for id in [0, 1] {
        assert_eq!(
            original.payload(VectorId(id)).map(|p| p.value()),
            loaded.payload(VectorId(id)).map(|p| p.value())
        );
    }
    assert!(loaded.payload(VectorId(0)).is_some());
    assert!(loaded.payload(VectorId(1)).is_none());
    assert_eq!(saved(&loaded), buf);
}

#[test]
fn hnsw_roundtrip_identical_results() {
    let mut idx = HnswIndex::with_defaults(8, DistanceMetric::L2);
    let vectors = random_vectors(300, 8, 13);
    for (i, x) in vectors.iter().enumerate() {
        let p = if i % 2 == 0 {
            Some(payload(&format!(r#"{{"bucket": {}}}"#, i % 5)))
        } else {
            None
        };
        idx.add_with_payload(&fpu, VectorId(i as u64), v(x), p).unwrap();
    }
    // Tombstones must round-trip too.
    for i in 0..50u64 {
        idx.remove(VectorId(i)).unwrap();
    }
    let original = AnyIndex::Hnsw(idx);
    let buf = saved(&original);
    let loaded = AnyIndex::read_from(buf.as_slice()).unwrap();

    let queries = random_vectors(20, 8, 77);
    for q in &queries {
        assert_eq!(
            original.search_opts(&fpu, &bits(q), 10, Some(64), None).unwrap(),
            loaded.search_opts(&fpu, &bits(q), 10, Some(64), None).unwrap(),
            "search results diverged after round-trip"
        );
    }
    assert_eq!(original.len(), loaded.len());
    assert_eq!(saved(&loaded), buf);

    // The loaded index accepts further inserts, and both go on alike.
    let mut original = original;
    let mut loaded = loaded;
    loaded.add(&fpu, VectorId(10_000), v(&vectors[0])).unwrap();
    assert_eq!(loaded.len(), original.len() + 1);
    original.add(&fpu, VectorId(10_000), v(&vectors[0])).unwrap();
    assert_eq!(saved(&loaded), saved(&original));
}

#[test]
fn saved_index_keeps_its_type_and_metric() {
    let mut idx = HnswIndex::with_defaults(4, DistanceMetric::Dot);
    idx.add(&fpu, VectorId(1), v(&[1.0, 2.0, 3.0, 4.0])).unwrap();
    let loaded = AnyIndex::read_from(&saved(&AnyIndex::from(idx))).unwrap();
    assert_eq!(loaded.len(), 1);
    assert_eq!(loaded.metric(), DistanceMetric::Dot);
    assert_eq!(loaded.kind_name(), "hnsw");
    let flat = AnyIndex::from(FlatIndex::new(2, DistanceMetric::L2));
    let loaded = AnyIndex::read_from(&saved(&flat)).unwrap();
    assert_eq!(loaded.kind_name(), "flat");
    assert!(loaded.is_empty());
    assert_eq!(loaded.dim(), 2);
}

#[test]
fn rejects_bad_magic() {
    let err = AnyIndex::read_from(&b"NOTAVEXF blah blah blah"[..]).unwrap_err();
    assert!(matches!(err, SnapshotError::BadMagic));
    assert_eq!(err.message(), "not a vex snapshot (bad magic bytes)");
}

#[test]
fn rejects_wrong_version() {
    let mut idx = FlatIndex::new(2, DistanceMetric::L2);
    idx.add(&fpu, VectorId(1), v(&[1.0, 2.0])).unwrap();
    let mut buf = saved(&AnyIndex::Flat(idx));
    // Bump the version field (bytes 8..12).
    buf[8] = 0xFF;
    let err = AnyIndex::read_from(buf.as_slice()).unwrap_err();
    assert!(matches!(err, SnapshotError::UnsupportedVersion(_)));
    assert_eq!(
        err.message(),
        "unsupported snapshot format version 255 (this build reads 1)"
    );
}

#[test]
fn rejects_truncated_file() {
    let mut idx = HnswIndex::with_defaults(4, DistanceMetric::L2);
    for i in 0..20u64 {
        idx.add(&fpu, VectorId(i), v(&[i as f32; 4])).unwrap();
    }
    let buf = saved(&AnyIndex::Hnsw(idx));
    let err = AnyIndex::read_from(&buf[..buf.len() / 2]).unwrap_err();
    assert!(matches!(
        err,
        SnapshotError::Io(_) | SnapshotError::Corrupt(_)
    ));
    // Wherever it is cut, a snapshot is refused.
    for len in 0..buf.len() {
        let err = AnyIndex::read_from(&buf[..len]).unwrap_err();
        assert_eq!(err.message(), "corrupt snapshot: failed to fill whole buffer");
    }
    // What stands behind it does not matter.
    let mut longer = buf.clone();
    longer.extend_from_slice(b"more");
    assert_eq!(saved(&AnyIndex::read_from(&longer).unwrap()), buf);
}

#[test]
fn rejects_out_of_range_neighbor() {
    let mut idx = HnswIndex::with_defaults(2, DistanceMetric::L2);
    for i in 0..5u64 {
        idx.add(&fpu, VectorId(i), v(&[i as f32, 0.0])).unwrap();
    }
    let mut buf = saved(&AnyIndex::Hnsw(idx));
    for i in (buf.len() / 2)..buf.len().min(buf.len() / 2 + 64) {
        buf[i] = 0xFF;
    }
    match AnyIndex::read_from(buf.as_slice()) {
        Ok(loaded) => {
            let AnyIndex::Hnsw(_h) = loaded else {
                panic!("type changed")
            };
        }
        Err(SnapshotError::Corrupt(_)) | Err(SnapshotError::Io(_)) => {}
        Err(e) => panic!("unexpected error kind: {}", e.message()),
    }
}

#[test]
fn header_layout_is_as_documented() {
    let buf = saved(&AnyIndex::Flat(FlatIndex::new(258, DistanceMetric::Dot)));
    let mut expected = b"VEXSNAP\0".to_vec();
    expected.extend_from_slice(&[1, 0, 0, 0, 0, 2, 0, 0, 2, 1, 0, 0, 0, 0, 0, 0]);
    expected.extend_from_slice(&[0; 8]);
    assert_eq!(buf, expected);

    let mut idx = FlatIndex::new(1, DistanceMetric::L2);
    idx.add_with_payload(&fpu, VectorId(5), v(&[1.0]), Some(payload("true")))
        .unwrap();
    let buf = saved(&AnyIndex::Flat(idx));
    assert_eq!(buf[24..32], [1, 0, 0, 0, 0, 0, 0, 0]);
    assert_eq!(buf[32..40], [5, 0, 0, 0, 0, 0, 0, 0]);
    assert_eq!(buf[40..48], [4, 0, 0, 0, b't', b'r', b'u', b'e']);
    assert_eq!(buf[48..], [0, 0, 0x80, 0x3f]);
}

#[test]
fn header_faults_are_told_apart() {
    let good = saved(&AnyIndex::Flat(FlatIndex::new(2, DistanceMetric::L2)));
    let with = |at: usize, byte: u8| {
        let mut data = good.clone();
        data[at] = byte;
        data
    };
    assert_eq!(corrupt_message(&with(12, 7)), "unknown index type tag 7");
    assert_eq!(corrupt_message(&with(13, 3)), "unknown metric tag");
    assert_eq!(
        corrupt_message(&with(15, 1)),
        "reserved header bytes are not zero"
    );
    assert_eq!(corrupt_message(&with(16, 0)), "implausible dim 0");
    assert_eq!(corrupt_message(&with(19, 1)), "implausible dim 16777218");
}

#[test]
fn flat_body_faults_are_told_apart() {
    let mut idx = FlatIndex::new(1, DistanceMetric::L2);
    idx.add_with_payload(&fpu, VectorId(1), v(&[1.0]), Some(payload("12")))
        .unwrap();
    idx.add(&fpu, VectorId(2), v(&[2.0])).unwrap();
    let good = saved(&AnyIndex::Flat(idx));
    let with = |at: usize, byte: u8| {
        let mut data = good.clone();
        data[at] = byte;
        data
    };
    // Entry 1: id at 32, payload length at 40, text at 44, vector at 46;
    // entry 2: id at 50.
    assert_eq!(
        corrupt_message(&with(50, 1)),
        "duplicate id 1 in flat snapshot"
    );
    assert_eq!(
        corrupt_message(&with(43, 2)),
        "payload length 33554434 exceeds limit"
    );
    assert!(corrupt_message(&with(45, b'x')).starts_with("payload is not valid JSON: "));
    assert!(matches!(
        AnyIndex::read_from(&with(24, 3)),
        Err(SnapshotError::Corrupt(_))
    ));
}

/// The snapshot of two nodes on layer 0 that are each other's neighbors.
fn two_nodes() -> Vec<u8> {
    let mut data = b"VEXSNAP\0".to_vec();
    data.extend_from_slice(&[1, 0, 0, 0, 1, 1, 0, 0]);
    for field in [1u64, 16, 200, 64, 7, 9, 0, 0, 2, 2] {
        // dim, m, ef_construction, ef_search, seed, rng, entry, max_layer,
        // live, nodes
        data.extend_from_slice(&field.to_le_bytes());
    }
    for (id, nb) in [(10u64, 1u32), (20, 0)] {
        data.extend_from_slice(&id.to_le_bytes());
        data.push(0);
        data.extend_from_slice(&1u32.to_le_bytes());
        data.extend_from_slice(&1u32.to_le_bytes());
        data.extend_from_slice(&nb.to_le_bytes());
        data.extend_from_slice(&0u32.to_le_bytes());
        data.extend_from_slice(&1.0f32.to_bits().to_le_bytes());
    }
    data
}

#[test]
fn hnsw_body_faults_are_told_apart() {
    let good = two_nodes();
    let loaded = AnyIndex::read_from(&good).unwrap();
    assert_eq!(loaded.len(), 2);
    assert_eq!(saved(&loaded), good);
    let with = |at: usize, bytes: &[u8]| {
        let mut data = good.clone();
        data[at..at + bytes.len()].copy_from_slice(bytes);
        data
    };
    let all = [0xffu8; 8];
    assert_eq!(corrupt_message(&with(24, &[0])), "implausible m 0");
    assert_eq!(corrupt_message(&with(26, &[1])), "implausible m 65552");
    assert_eq!(
        corrupt_message(&with(72, &[64])),
        "implausible max_layer 64"
    );
    assert_eq!(
        corrupt_message(&with(64, &[2])),
        "entry point exceeds node count"
    );
    assert_eq!(corrupt_message(&with(68, &[1])), "entry point out of range");
    assert_eq!(
        corrupt_message(&with(92, &[1])),
        "node count 4294967298 exceeds u32 arena limit"
    );
    assert_eq!(
        corrupt_message(&with(80, &[1])),
        "live_count 1 does not match 2 live nodes"
    );
    // Node 0 starts at 96: id, flag at 104, layers at 105, list at 109.
    assert_eq!(corrupt_message(&with(104, &[2])), "invalid deleted flag 2");
    assert_eq!(
        corrupt_message(&with(105, &[0])),
        "implausible layer count 0"
    );
    assert_eq!(
        corrupt_message(&with(105, &[65])),
        "implausible layer count 65"
    );
    assert_eq!(
        corrupt_message(&with(109, &[5])),
        "implausible neighbor list length 5"
    );
    assert_eq!(
        corrupt_message(&with(113, &[2])),
        "neighbor index 2 exceeds node count 2"
    );
    // Node 1 starts at 125.
    assert_eq!(
        corrupt_message(&with(125, &[10])),
        "duplicate live id 10 in hnsw snapshot"
    );
    assert_eq!(
        corrupt_message(&with(72, &[1])),
        "entry point is not on the highest layer"
    );
    // An index without an entry point is searched all the same.
    let none = AnyIndex::read_from(&with(64, &all)).unwrap();
    assert_eq!(none.search(&fpu, &bits(&[1.0]), 1).unwrap().len(), 1);
}

#[test]
fn neighbors_have_to_be_on_their_layer() {
    // Node 0 is on two layers and claims node 1, which is on one, as a
    // neighbor on the upper layer.
    let mut data = two_nodes();
    data[105] = 2;
    let mut upper = 1u32.to_le_bytes().to_vec();
    upper.extend_from_slice(&1u32.to_le_bytes());
    data.splice(117..117, upper);
    assert_eq!(
        corrupt_message(&data),
        "neighbor is not on the layer that links it"
    );
}

#[test]
fn a_tombstone_may_share_the_id_of_a_live_node() {
    let mut idx = HnswIndex::new(
        1,
        DistanceMetric::L2,
        HnswConfig {
            m: 8,
            ..HnswConfig::default()
        },
    );
    idx.add(&fpu, VectorId(1), v(&[1.0])).unwrap();
    idx.remove(VectorId(1)).unwrap();
    idx.add(&fpu, VectorId(1), v(&[2.0])).unwrap();
    let loaded = AnyIndex::read_from(&saved(&AnyIndex::Hnsw(idx))).unwrap();
    assert_eq!(loaded.len(), 1);
    assert_eq!(
        loaded.vector(VectorId(1)).unwrap().as_slice(),
        bits(&[2.0]).as_slice()
    );
}

#[test]
fn payloads_over_the_limit_are_not_written() {
    let mut idx = FlatIndex::new(1, DistanceMetric::L2);
    let long = format!("\"{}\"", "x".repeat(16 * 1024 * 1024));
    idx.add_with_payload(&fpu, VectorId(1), v(&[1.0]), Some(payload(&long)))
        .unwrap();
    let mut buf = Vec::new();
    let err = AnyIndex::Flat(idx).write_to(&mut buf).unwrap_err();
    assert_eq!(
        err.message(),
        "corrupt snapshot: payload exceeds 16 MiB limit"
    );
    // What was written before the fault is there.
    assert_eq!(buf.len(), 40);
}

fn number(data: &[u8], at: &mut usize, width: usize) -> u64 {
    let mut n = 0;
    for i in (0..width).rev() {
        n = n << 8 | data[*at + i] as u64;
    }
    *at += width;
    n
}

/// The neighbor lists of every node of a snapshot without payloads.
fn neighbor_lists(data: &[u8], dim: usize) -> Vec<Vec<Vec<u64>>> {
    let mut at = 24 + 8 * 8;
    let nodes = number(data, &mut at, 8);
    (0..nodes)
        .map(|_| {
            at += 9;
            let layers = number(data, &mut at, 4);
            let lists = (0..layers)
                .map(|_| {
                    let len = number(data, &mut at, 4);
                    (0..len).map(|_| number(data, &mut at, 4)).collect()
                })
                .collect();
            assert_eq!(number(data, &mut at, 4), 0);
            at += 4 * dim;
            lists
        })
        .collect()
}

#[test]
fn neighbor_lists_stay_within_their_limits() {
    let config = HnswConfig {
        m: 4,
        ef_construction: 40,
        ..HnswConfig::default()
    };
    let mut idx = AnyIndex::Hnsw(HnswIndex::new(3, DistanceMetric::L2, config));
    for (i, vec) in random_vectors(200, 3, 11).iter().enumerate() {
        idx.add(&fpu, VectorId(i as u64), v(vec)).unwrap();
        if i % 7 == 3 {
            assert!(idx.remove(VectorId(i as u64 / 2)).unwrap());
        }
        let lists = neighbor_lists(&saved(&idx), 3);
        assert_eq!(lists.len(), i + 1);
        // A new node takes as many neighbors as it may and can.
        assert_eq!(lists[i][0].len(), i.min(4));
        for layers in &lists {
            assert!(layers[0].len() <= 8);
            assert!(layers[1..].iter().all(|list| list.len() <= 4));
        }
        for (own, layers) in lists.iter().enumerate() {
            for (layer, list) in layers.iter().enumerate() {
                let mut others = list.clone();
                others.sort();
                others.dedup();
                assert_eq!(others.len(), list.len());
                assert!(!others.contains(&(own as u64)));
                assert!(others.iter().all(|&nb| lists[nb as usize].len() > layer));
            }
        }
    }
}

#[test]
fn live_nodes_without_an_entry_point_are_found() {
    let mut data = two_nodes();
    data[64..72].copy_from_slice(&u64::MAX.to_le_bytes());
    let loaded = AnyIndex::read_from(&data).unwrap();
    assert_eq!(loaded.len(), 2);
    for k in 1usize..4 {
        let hits = loaded.search_opts(&fpu, &bits(&[1.0]), k, None, None).unwrap();
        let ids: Vec<u64> = hits.iter().map(|r| r.id.0).collect();
        assert_eq!(ids, [10u64, 20][..k.min(2)]);
    }
}

#[test]
fn a_header_reads_back() {
    for (index_type, metric, dim) in [
        (0u8, DistanceMetric::Cosine, 1usize),
        (1, DistanceMetric::L2, 384),
        (1, DistanceMetric::Dot, 1 << 20),
    ] {
        let mut buf = Vec::new();
        write_header(&mut buf, index_type, metric, dim);
        let mut cursor = Cursor::new(&buf);
        let header = read_header(&mut cursor).unwrap();
        assert_eq!(
            header,
            Header {
                index_type,
                metric,
                dim
            }
        );
        assert_eq!(cursor.pos, buf.len());
        for n in 0..buf.len() {
            let e = read_header(&mut Cursor::new(&buf[..n])).unwrap_err();
            assert!(matches!(e, SnapshotError::Corrupt(_)));
        }
    }
}

#[test]
fn a_header_is_read_where_the_reader_stands() {
    let mut buf = b"ahead".to_vec();
    write_header(&mut buf, 1, DistanceMetric::Dot, 7);
    let mut cursor = Cursor::new(&buf);
    cursor.bytes(5).unwrap();
    let header = read_header(&mut cursor).unwrap();
    assert_eq!(header.dim, 7);
    assert_eq!(header.metric, DistanceMetric::Dot);
    assert_eq!(cursor.pos, 29);
}

#[test]
fn no_part_of_a_snapshot_beyond_the_limits_is_read() {
    let config = HnswConfig {
        m: 70_000,
        ..HnswConfig::default()
    };
    let mut hnsw = HnswIndex::new(2, DistanceMetric::L2, config);
    for i in 0..4u64 {
        hnsw.add(&fpu, VectorId(i), v(&[i as f32, 1.0])).unwrap();
    }
    let mut flat = FlatIndex::new(0, DistanceMetric::Cosine);
    flat.add_with_payload(&fpu, VectorId(1), v(&[]), Some(payload("[1]")))
        .unwrap();
    for index in [AnyIndex::Hnsw(hnsw), AnyIndex::Flat(flat)] {
        let buf = saved(&index);
        for n in 0..=buf.len() {
            let e = AnyIndex::read_from(&buf[..n]).unwrap_err();
            assert!(matches!(e, SnapshotError::Corrupt(_)));
        }
    }
}

#[test]
fn payloads_with_odd_keys_read_back() {
    let text = r#"{"$a": 0, "$serde_json::private::RawValue": "1", "": [{"$": null}]}"#;
    let mut idx = FlatIndex::new(1, DistanceMetric::L2);
    idx.add_with_payload(&fpu, VectorId(1), v(&[1.0]), Some(payload(text)))
        .unwrap();
    let buf = saved(&AnyIndex::Flat(idx));
    let loaded = AnyIndex::read_from(&buf).unwrap();
    let held = loaded.payload(VectorId(1)).unwrap();
    assert_eq!(held.value(), payload(text).value());
    assert_eq!(held.value()["$serde_json::private::RawValue"], "1");
}
