use vexdb::bench::{
    add_record, count_overlap, dataset, fill, ground_truth, measured_config, new_index,
    recall_counts, sweep, Rng,
};
use vexdb::rng::{sample_level, splitmix};
use vexdb::{
    DistanceMetric, FlatIndex, FloatOp, HnswConfig, HnswIndex, Index, Payload, VexError,
};

fn single(bits: u64) -> f32 {
    f32::from_bits(bits as u32)
}

fn fpu(op: FloatOp, a: u64, b: u64) -> u64 {
    match op {
        FloatOp::Add => (single(a) + single(b)).to_bits() as u64,
        FloatOp::Sub => (single(a) - single(b)).to_bits() as u64,
        FloatOp::Mul => (single(a) * single(b)).to_bits() as u64,
        FloatOp::Div => (single(a) / single(b)).to_bits() as u64,
        FloatOp::Sqrt => single(a).sqrt().to_bits() as u64,
        FloatOp::WideMul => (f64::from_bits(a) * f64::from_bits(b)).to_bits(),
        FloatOp::WideDiv => (f64::from_bits(a) / f64::from_bits(b)).to_bits(),
        FloatOp::WideLn => f64::from_bits(a).ln().to_bits(),
        FloatOp::WideTrunc => f64::from_bits(a) as u64,
    }
}

fn bits(xs: &[f32]) -> Vec<u32> {
    xs.iter().map(|x| x.to_bits()).collect()
}

/// Deterministic pseudo-random vectors (splitmix64).
fn random_vectors(n: usize, dim: usize, mut state: u64) -> Vec<Vec<f32>> {
    let mut next = move || {
        state = state.wrapping_add(0x9e37_79b9_7f4a_7c15);
        let mut z = state;
        z = (z ^ (z >> 30)).wrapping_mul(0xbf58_476d_1ce4_e5b9);
        z = (z ^ (z >> 27)).wrapping_mul(0x94d0_49bb_1331_11eb);
        z ^= z >> 31;
        ((z >> 40) as f32) / ((1u64 << 24) as f32) * 2.0 - 1.0
    };
    (0..n).map(|_| (0..dim).map(|_| next()).collect()).collect()
}

#[test]
fn splitmix_matches_the_published_stream() {
    let mut state = 1234567u64;
    let drawn: Vec<u64> = (0..3).map(|_| splitmix(&mut state)).collect();
    assert_eq!(
        drawn,
        vec![6457827717110365317, 3203168211198807973, 9817491932198370423]
    );
}

#[test]
fn levels_follow_the_formula() {
    for z in [0u64, 1, 1 << 40, 0x5eed_cafe_f00d_d00d, u64::MAX] {
        for m in [2usize, 16, 48] {
            let u = (((z >> 11) as f64) / ((1u64 << 53) as f64)).max(f64::MIN_POSITIVE);
            let ml = 1.0 / (m as f64).ln();
            assert_eq!(sample_level(&fpu, m, z), (-u.ln() * ml) as usize);
        }
    }
    assert_eq!(sample_level(&fpu, 1, 77), usize::MAX);
}

#[test]
fn drawn_vectors_are_the_generators() {
    let mut rng = Rng(42);
    let rows = rng.vectors(&fpu, 5, 3);
    let expected: Vec<Vec<u32>> = random_vectors(5, 3, 42).iter().map(|x| bits(x)).collect();
    assert_eq!(rows, expected);
    assert_eq!(rng.vector(&fpu, 2), bits(&random_vectors(6, 3, 42)[5][..2]));
    assert_eq!(rng.next_single(&fpu), random_vectors(6, 3, 42)[5][2].to_bits());
}

#[test]
fn index_types_by_name() {
    assert_eq!(new_index("flat", 3, DistanceMetric::L2, 8, 9).unwrap().kind_name(), "flat");
    let hnsw = new_index("hnsw", 3, DistanceMetric::Dot, 8, 9).unwrap();
    assert_eq!((hnsw.kind_name(), hnsw.dim(), hnsw.metric()), ("hnsw", 3, DistanceMetric::Dot));
    assert_eq!(
        new_index("tree", 3, DistanceMetric::L2, 8, 9).unwrap_err(),
        "unknown index type: tree (expected flat|hnsw)"
    );
}

#[test]
fn records_are_stored_line_by_line() {
    let mut index = new_index("hnsw", 3, DistanceMetric::L2, 16, 200).unwrap();
    let tag = Payload::parse(br#"{"tag": "x"}"#).unwrap();
    add_record(&mut index, &fpu, 1, 1, bits(&[1.0, 0.0, 0.0]), Some(tag)).unwrap();
    add_record(&mut index, &fpu, 2, 2, bits(&[0.0, 1.0, 0.0]), None).unwrap();
    add_record(&mut index, &fpu, 4, 3, bits(&[0.0, 0.0, 1.0]), None).unwrap();
    assert_eq!(index.len(), 3);
    let hits = index.search_opts(&fpu, &bits(&[0.0, 1.0, 0.0]), 1, None, None).unwrap();
    assert_eq!(hits[0].id.0, 2);
    let e = add_record(&mut index, &fpu, 5, 9, bits(&[1.0]), None).unwrap_err();
    assert_eq!(e.step, "validating vector at line 5");
    assert_eq!(e.cause, VexError::DimensionMismatch { expected: 3, actual: 1 });
    let e = add_record(&mut index, &fpu, 6, 2, bits(&[1.0; 3]), None).unwrap_err();
    assert_eq!(e.step, "adding vector at line 6");
    assert_eq!(e.cause.message(), "duplicate id: VectorId(2)");
}

#[test]
fn recall_of_a_sweep() {
    let mut rng = Rng(7);
    let vectors = rng.vectors(&fpu, 300, 8);
    let queries = rng.vectors(&fpu, 10, 8);
    let mut flat = FlatIndex::new(8, DistanceMetric::L2);
    fill(&mut flat, &fpu, &vectors).unwrap();
    let truth = ground_truth(&flat, &fpu, &queries, 5).unwrap();
    assert_eq!(truth.len(), 10);
    assert_eq!(recall_counts(&truth, &truth), (50, 50));

    let config = HnswConfig { m: 8, ef_construction: 40, ef_search: 5, seed: 7 };
    let mut hnsw = HnswIndex::new(8, DistanceMetric::L2, config);
    assert!(hnsw.can_take(&fpu, 300));
    fill(&mut hnsw, &fpu, &vectors).unwrap();
    let narrow = recall_counts(&sweep(&hnsw, &fpu, &queries, 5, 5).unwrap(), &truth);
    let wide = recall_counts(&sweep(&hnsw, &fpu, &queries, 5, 300).unwrap(), &truth);
    assert_eq!(wide, (50, 50));
    assert!(narrow.0 <= wide.0 && narrow.1 == 50);
    assert_eq!(ground_truth(&flat, &fpu, &queries, 0).unwrap_err(), VexError::InvalidK);
    assert!(matches!(
        sweep(&hnsw, &fpu, &vec![bits(&[1.0])], 1, 1),
        Err(VexError::DimensionMismatch { expected: 8, actual: 1 })
    ));
}

#[test]
fn overlaps_are_counted() {
    assert_eq!(count_overlap(&vec![1, 2, 3, 9], &vec![3, 1, 4]), 2);
    assert_eq!(count_overlap(&vec![], &vec![3]), 0);
    assert_eq!(recall_counts(&vec![vec![1, 2], vec![5]], &vec![vec![2], vec![6, 5]]), (2, 3));
}

#[test]
fn a_dataset_is_drawn_by_one_generator() {
    let (vectors, queries) = dataset(&fpu, 42, 5, 3, 4);
    let mut rng = Rng(42);
    assert_eq!(vectors, rng.vectors(&fpu, 5, 4));
    assert_eq!(queries, rng.vectors(&fpu, 3, 4));
    let all: Vec<Vec<u32>> = random_vectors(8, 4, 42).iter().map(|x| bits(x)).collect();
    assert_eq!([vectors, queries].concat(), all);
    let config = measured_config(8, 50, 10, 42);
    assert_eq!(
        config,
        HnswConfig {
            m: 8,
            ef_construction: 50,
            ef_search: 10,
            seed: 42,
        }
    );
}
