use vexdb::{
    search_batch, DistanceMetric, Filter, FlatIndex, FloatOp, Index, Json, Payload, Vector,
    VectorId, VexError,
};

fn single(bits: u64) -> f32 {
    f32::from_bits(bits as u32)
}

fn fpu(op: FloatOp, a: u64, b: u64) -> u64 {
    match op {
        FloatOp::Add => (single(a) + single(b)).to_bits() as u64,
        FloatOp::Sub => (single(a) - single(b)).to_bits() as u64,
        FloatOp::Mul => (single(a) * single(b)).to_bits() as u64,
        FloatOp::Div => (single(a) / single(b)).to_bits() as u64,
        FloatOp::Sqrt => single(a).sqrt().to_bits() as u64,
        FloatOp::WideMul => (f64::from_bits(a) * f64::from_bits(b)).to_bits(),
        FloatOp::WideDiv => (f64::from_bits(a) / f64::from_bits(b)).to_bits(),
        FloatOp::WideLn => f64::from_bits(a).ln().to_bits(),
        FloatOp::WideTrunc => f64::from_bits(a) as u64,
    }
}

fn bits(xs: &[f32]) -> Vec<u32> {
    xs.iter().map(|x| x.to_bits()).collect()
}

fn v(xs: &[f32]) -> Vector {
    Vector::from_vec(bits(xs))
}

fn payload(text: &str) -> Payload {
    Payload::parse(text.as_bytes()).unwrap()
}

fn value(text: &str) -> serde_json::Value {
    serde_json::from_str(text).unwrap()
}

#[test]
fn add_and_len() {
    let mut idx = FlatIndex::new(3, DistanceMetric::L2);
    assert!(idx.is_empty());
    idx.add(&fpu, VectorId(1), v(&[1.0, 0.0, 0.0])).unwrap();
    idx.add(&fpu, VectorId(2), v(&[0.0, 1.0, 0.0])).unwrap();
    assert_eq!(idx.len(), 2);
    assert!(!idx.is_empty());
    assert_eq!(idx.dim(), 3);
    assert_eq!(idx.metric(), DistanceMetric::L2);
    assert!(idx.contains(VectorId(1)));
    assert!(!idx.contains(VectorId(3)));
}

#[test]
fn add_rejects_dim_mismatch() {
    let mut idx = FlatIndex::new(3, DistanceMetric::L2);
    let err = idx.add(&fpu, VectorId(1), v(&[1.0, 2.0])).unwrap_err();
    assert_eq!(
        err,
        VexError::DimensionMismatch {
            expected: 3,
            actual: 2
        }
    );
}

#[test]
fn add_rejects_duplicate_id() {
    let mut idx = FlatIndex::new(2, DistanceMetric::L2);
    idx.add(&fpu, VectorId(7), v(&[1.0, 0.0])).unwrap();
    let err = idx.add(&fpu, VectorId(7), v(&[0.0, 1.0])).unwrap_err();
    assert_eq!(err, VexError::DuplicateId(VectorId(7)));
}

#[test]
fn remove_returns_true_then_false() {
    let mut idx = FlatIndex::new(2, DistanceMetric::L2);
    idx.add(&fpu, VectorId(1), v(&[1.0, 0.0])).unwrap();
    idx.add(&fpu, VectorId(2), v(&[0.0, 1.0])).unwrap();
    idx.add(&fpu, VectorId(3), v(&[1.0, 1.0])).unwrap();
    assert!(idx.remove(VectorId(2)).unwrap());
    assert!(!idx.remove(VectorId(2)).unwrap());
    assert_eq!(idx.len(), 2);
    // The last entry took the removed one's place and is still found.
    let res = idx.search(&fpu, &bits(&[1.0, 1.0]), 2).unwrap();
    let ids: Vec<_> = res.iter().map(|r| r.id).collect();
    assert!(ids.contains(&VectorId(3)));
    // The last entry itself, and an entry that was moved, can go too.
    assert!(idx.remove(VectorId(3)).unwrap());
    assert!(idx.remove(VectorId(1)).unwrap());
    assert!(idx.is_empty());
}

#[test]
fn search_empty_index_returns_no_results() {
    let idx = FlatIndex::new(2, DistanceMetric::L2);
    assert!(idx.search(&fpu, &bits(&[0.0, 0.0]), 1).unwrap().is_empty());
}

#[test]
fn search_invalid_k() {
    let mut idx = FlatIndex::new(2, DistanceMetric::L2);
    idx.add(&fpu, VectorId(1), v(&[1.0, 0.0])).unwrap();
    assert_eq!(
        idx.search(&fpu, &bits(&[1.0, 0.0]), 0).unwrap_err(),
        VexError::InvalidK
    );
    // A k of zero is found out before a wrong dimension.
    assert_eq!(
        idx.search(&fpu, &bits(&[1.0]), 0).unwrap_err(),
        VexError::InvalidK
    );
}

#[test]
fn search_dim_mismatch() {
    let mut idx = FlatIndex::new(2, DistanceMetric::L2);
    idx.add(&fpu, VectorId(1), v(&[1.0, 0.0])).unwrap();
    let err = idx.search(&fpu, &bits(&[1.0, 0.0, 0.0]), 1).unwrap_err();
    assert!(matches!(err, VexError::DimensionMismatch { .. }));
}

#[test]
fn search_returns_sorted_ascending() {
    let mut idx = FlatIndex::new(2, DistanceMetric::L2);
    idx.add(&fpu, VectorId(1), v(&[10.0, 0.0])).unwrap();
    idx.add(&fpu, VectorId(2), v(&[1.0, 0.0])).unwrap();
    idx.add(&fpu, VectorId(3), v(&[5.0, 0.0])).unwrap();
    let res = idx.search(&fpu, &bits(&[0.0, 0.0]), 3).unwrap();
    assert_eq!(res.len(), 3);
    assert_eq!(res[0].id, VectorId(2));
    assert_eq!(res[1].id, VectorId(3));
    assert_eq!(res[2].id, VectorId(1));
    let d: Vec<f32> = res.iter().map(|r| f32::from_bits(r.distance)).collect();
    assert!(d[0] <= d[1]);
    assert!(d[1] <= d[2]);
    assert_eq!(d, vec![1.0, 5.0, 10.0]);
}

#[test]
fn search_k_larger_than_len_returns_all() {
    let mut idx = FlatIndex::new(2, DistanceMetric::L2);
    idx.add(&fpu, VectorId(1), v(&[1.0, 0.0])).unwrap();
    idx.add(&fpu, VectorId(2), v(&[0.0, 1.0])).unwrap();
    let res = idx.search(&fpu, &bits(&[0.0, 0.0]), 10).unwrap();
    assert_eq!(res.len(), 2);
}

#[test]
fn ties_go_to_the_smaller_id() {
    let mut idx = FlatIndex::new(1, DistanceMetric::L2);
    for id in [9, 4, 7, 2] {
        idx.add(&fpu, VectorId(id), v(&[1.0])).unwrap();
    }
    idx.add(&fpu, VectorId(1), v(&[f32::NAN])).unwrap();
    let res = idx.search(&fpu, &bits(&[0.0]), 3).unwrap();
    let ids: Vec<u64> = res.iter().map(|r| r.id.0).collect();
    assert_eq!(ids, vec![2, 4, 7]);
    // A distance that is no number comes last.
    let all = idx.search(&fpu, &bits(&[0.0]), 5).unwrap();
    assert_eq!(all[4].id, VectorId(1));
}

#[test]
fn payload_stored_and_retrieved() {
    let mut idx = FlatIndex::new(2, DistanceMetric::L2);
    idx.add_with_payload(
        &fpu,
        VectorId(1),
        v(&[1.0, 0.0]),
        Some(payload(r#"{"tag": "a"}"#)),
    )
    .unwrap();
    idx.add(&fpu, VectorId(2), v(&[0.0, 1.0])).unwrap();
    assert_eq!(
        idx.payload(VectorId(1)).map(|p| p.value()),
        Some(&value(r#"{"tag": "a"}"#))
    );
    assert!(idx.payload(VectorId(2)).is_none());
    assert!(idx.payload(VectorId(99)).is_none());
}

#[test]
fn vector_accessor_returns_stored_vector() {
    let mut idx = FlatIndex::new(2, DistanceMetric::L2);
    idx.add(&fpu, VectorId(1), v(&[1.0, 2.0])).unwrap();
    assert_eq!(
        idx.vector(VectorId(1)).unwrap().as_slice(),
        bits(&[1.0, 2.0]).as_slice()
    );
    assert!(idx.vector(VectorId(9)).is_none());
    idx.remove(VectorId(1)).unwrap();
    assert!(idx.vector(VectorId(1)).is_none());
}

#[test]
fn filtered_search_only_returns_matches() {
    let mut idx = FlatIndex::new(2, DistanceMetric::L2);
    for i in 0..10u64 {
        let cat = if i % 2 == 0 { "even" } else { "odd" };
        idx.add_with_payload(
            &fpu,
            VectorId(i),
            v(&[i as f32, 0.0]),
            Some(payload(&format!(r#"{{"cat": "{cat}", "n": {i}}}"#))),
        )
        .unwrap();
    }
    let f = Filter::Eq {
        key: "cat".into(),
        value: Json::Text("even".into()),
    };
    let res = idx
        .search_filtered(&fpu, &bits(&[0.0, 0.0]), 3, Some(&f))
        .unwrap();
    assert_eq!(res.len(), 3);
    for r in &res {
        assert_eq!(r.id.0 % 2, 0, "non-matching id {} surfaced", r.id.text());
    }
    // Closest evens are 0, 2, 4.
    let ids: Vec<u64> = res.iter().map(|r| r.id.0).collect();
    assert_eq!(ids, vec![0, 2, 4]);
}

#[test]
fn nearest_to_self_is_self() {
    let mut idx = FlatIndex::new(8, DistanceMetric::L2);
    let vectors: Vec<Vec<f32>> = (0..31)
        .map(|i| (0..8).map(|d| ((i * 37 + d * 11) % 101) as f32 - 50.0).collect())
        .collect();
    for (i, x) in vectors.iter().enumerate() {
        idx.add(&fpu, VectorId(i as u64), v(x)).unwrap();
    }
    for (i, x) in vectors.iter().enumerate() {
        let res = idx.search(&fpu, &bits(x), 1).unwrap();
        assert_eq!(res.len(), 1);
        assert_eq!(f32::from_bits(res[0].distance), 0.0, "vector {i}");
    }
}

#[test]
fn batches_answer_as_single_searches_do() {
    let mut idx = FlatIndex::new(2, DistanceMetric::L2);
    for i in 0..20u64 {
        idx.add(&fpu, VectorId(i), v(&[i as f32, 1.0])).unwrap();
    }
    let queries: Vec<Vec<u32>> = (0..7).map(|i| bits(&[i as f32 * 3.0, 0.0])).collect();
    let all = search_batch(&idx, &fpu, &queries, 4).unwrap();
    assert_eq!(all.len(), 7);
    for (q, hits) in queries.iter().zip(&all) {
        assert_eq!(*hits, idx.search(&fpu, q, 4).unwrap());
    }
    assert_eq!(all[2][0].id, VectorId(6));
    assert!(search_batch(&idx, &fpu, &vec![], 0).unwrap().is_empty());
    assert_eq!(
        search_batch(&idx, &fpu, &queries, 0).unwrap_err(),
        VexError::InvalidK
    );
    let mixed = vec![bits(&[1.0, 2.0]), bits(&[1.0])];
    assert_eq!(
        search_batch(&idx, &fpu, &mixed, 1).unwrap_err(),
        VexError::DimensionMismatch {
            expected: 2,
            actual: 1
        }
    );
}
