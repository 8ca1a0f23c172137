use vexdb::embed::Inner;
use vexdb::json::Number;
use vexdb::{AnyIndex, BeamStatus, DistanceMetric, Filter, FlatIndex, FloatOp, Json};

fn single(bits: u64) -> f32 {
    f32::from_bits(bits as u32)
}

fn fpu(op: FloatOp, a: u64, b: u64) -> u64 {
    match op {
        FloatOp::Add => (single(a) + single(b)).to_bits() as u64,
        FloatOp::Sub => (single(a) - single(b)).to_bits() as u64,
        FloatOp::Mul => (single(a) * single(b)).to_bits() as u64,
        FloatOp::Div => (single(a) / single(b)).to_bits() as u64,
        FloatOp::Sqrt => single(a).sqrt().to_bits() as u64,
        FloatOp::WideMul => (f64::from_bits(a) * f64::from_bits(b)).to_bits(),
        FloatOp::WideDiv => (f64::from_bits(a) / f64::from_bits(b)).to_bits(),
        FloatOp::WideLn => f64::from_bits(a).ln().to_bits(),
        FloatOp::WideTrunc => f64::from_bits(a) as u64,
    }
}

fn bits(xs: &[f32]) -> Vec<u32> {
    xs.iter().map(|x| x.to_bits()).collect()
}

fn build_demo() -> Inner {
    let mut inner = Inner::new_hnsw(4, "cosine", 8, 50).unwrap();
    for i in 0..200u64 {
        let f = i as f32;
        let v = [f.sin(), f.cos(), (f * 0.1).sin(), 1.0];
        let payload = format!(r#"{{"n": {}, "bucket": {}}}"#, i, i % 4);
        inner.add(&fpu, i, &bits(&v), Some(&payload)).unwrap();
    }
    inner
}

fn bucket(n: u64) -> Filter {
    Filter::Eq {
        key: "bucket".into(),
        value: Json::Number(Number::PosInt(n)),
    }
}

#[test]
fn build_search_and_filter() {
    let inner = build_demo();
    assert_eq!(inner.stats().count, 200);

    let query = inner.vector_of(7).unwrap();
    let hits = inner.search(&fpu, &query, 5, Some(64), None).unwrap();
    assert_eq!(hits.len(), 5);
    assert_eq!(hits[0].id, 7, "self should be its own nearest neighbor");
    assert!(hits[0].payload.as_ref().unwrap().value()["n"] == 7);

    let filtered = inner
        .search(&fpu, &query, 5, Some(64), Some(&bucket(2)))
        .unwrap();
    assert_eq!(filtered.len(), 5);
    for h in &filtered {
        assert_eq!(h.id % 4, 2);
    }
}

#[test]
fn snapshot_roundtrip_in_memory() {
    let inner = build_demo();
    let bytes = inner.snapshot_bytes().unwrap();
    let reloaded = Inner::from_snapshot(&bytes).unwrap();
    assert_eq!(reloaded.stats().count, 200);
    let q = reloaded.vector_of(3).unwrap();
    let a = inner.search(&fpu, &q, 10, Some(80), None).unwrap();
    let b = reloaded.search(&fpu, &q, 10, Some(80), None).unwrap();
    let ids_a: Vec<u64> = a.iter().map(|h| h.id).collect();
    let ids_b: Vec<u64> = b.iter().map(|h| h.id).collect();
    assert_eq!(ids_a, ids_b, "results must be identical after round-trip");
}

#[test]
fn trace_matches_search_and_serializes() {
    let inner = build_demo();
    let query = inner.vector_of(42).unwrap();

    let plain = inner.search(&fpu, &query, 8, Some(64), None).unwrap();
    let traced = inner.search_trace(&fpu, &query, 8, Some(64), None).unwrap();
    let plain_ids: Vec<u64> = plain.iter().map(|h| h.id).collect();
    let traced_ids: Vec<u64> = traced.hits.iter().map(|h| h.id).collect();
    assert_eq!(plain_ids, traced_ids, "trace changed the results");

    assert!(traced.trace.visited > 0);
    assert!(traced.trace.distance_evals >= traced.trace.visited);
    assert!(!traced.trace.beam.is_empty());

    // Filtered traces mark routed (filter-rejected) nodes.
    let filtered = inner
        .search_trace(&fpu, &query, 8, Some(64), Some(&bucket(1)))
        .unwrap();
    for h in &filtered.hits {
        assert_eq!(h.id % 4, 1);
    }
    assert!(filtered
        .trace
        .beam
        .iter()
        .any(|e| matches!(e.status, BeamStatus::Routed)));
}

#[test]
fn exact_search_is_perfect_recall_oracle() {
    let inner = build_demo();
    let query = inner.vector_of(11).unwrap();
    let exact = inner.search_exact(&fpu, &query, 10, None).unwrap();
    assert_eq!(exact.len(), 10);
    assert_eq!(exact[0].id, 11, "self is its own exact nearest neighbor");
    for w in exact.windows(2) {
        assert!(f32::from_bits(w[0].distance) <= f32::from_bits(w[1].distance));
    }
    // A wide-open beam must agree with the exact scan on this small set.
    let hnsw = inner.search(&fpu, &query, 10, Some(400), None).unwrap();
    let exact_ids: Vec<u64> = exact.iter().map(|h| h.id).collect();
    let hnsw_ids: Vec<u64> = hnsw.iter().map(|h| h.id).collect();
    assert_eq!(exact_ids, hnsw_ids);
}

#[test]
fn export_is_flat_parallel_and_complete() {
    let inner = build_demo();
    let ids = inner.export_ids();
    let vectors = inner.export_vectors();
    assert_eq!(ids.len(), 200);
    assert_eq!(vectors.len(), 200 * 4);
    for (i, &id) in ids.iter().enumerate() {
        let row = &vectors[i * 4..(i + 1) * 4];
        assert_eq!(row, inner.vector_of(id).unwrap().as_slice());
    }
}

#[test]
fn errors_are_strings_not_panics() {
    let mut inner = Inner::new_hnsw(4, "cosine", 8, 50).unwrap();
    assert!(
        inner.add(&fpu, 1, &bits(&[1.0, 2.0]), None).is_err(),
        "dim mismatch"
    );
    assert!(Inner::from_snapshot(b"garbage").is_err());
    assert!(Inner::new_hnsw(4, "bogus-metric", 8, 50).is_err());
    inner.add(&fpu, 1, &bits(&[1.0, 0.0, 0.0, 0.0]), None).unwrap();
    assert!(inner
        .add(&fpu, 2, &bits(&[1.0, 0.0, 0.0, 0.0]), Some("not json"))
        .is_err());
}

#[test]
fn error_texts() {
    let mut inner = Inner::new_hnsw(2, "l2", 8, 50).unwrap();
    assert_eq!(
        inner.add(&fpu, 1, &bits(&[1.0]), None).unwrap_err(),
        "dimension mismatch: expected 2, got 1"
    );
    // A payload that cannot be read is found out first.
    assert!(inner
        .add(&fpu, 1, &bits(&[1.0]), Some("["))
        .unwrap_err()
        .starts_with("payload is not valid JSON: "));
    inner.add(&fpu, 1, &bits(&[1.0, 2.0]), Some("null")).unwrap();
    assert_eq!(
        inner.add(&fpu, 1, &bits(&[1.0, 2.0]), None).unwrap_err(),
        "duplicate id: VectorId(1)"
    );
    assert_eq!(
        inner.search(&fpu, &bits(&[1.0, 2.0]), 0, None, None).unwrap_err(),
        "invalid k: must be > 0"
    );
    assert_eq!(
        Inner::new_hnsw(2, "Bogus", 8, 50).unwrap_err(),
        "unknown distance metric: bogus"
    );
    let flat = Inner {
        index: AnyIndex::from(FlatIndex::new(2, DistanceMetric::L2)),
    };
    assert_eq!(
        flat.search_trace(&fpu, &bits(&[1.0, 2.0]), 1, None, None).unwrap_err(),
        "search_trace requires an hnsw index (flat has no traversal)"
    );
    assert!(flat.search_exact(&fpu, &bits(&[1.0, 2.0]), 1, None).unwrap().is_empty());
}

#[test]
fn what_is_told_of_an_index() {
    let inner = build_demo();
    let stats = inner.stats();
    assert_eq!(stats.index, "hnsw");
    assert_eq!(stats.metric, "cosine");
    assert_eq!(stats.dim, 4);
    assert_eq!(inner.payload_of(9).unwrap().value()["bucket"], 1);
    assert!(inner.payload_of(900).is_none());
    assert!(inner.vector_of(900).is_none());
}
