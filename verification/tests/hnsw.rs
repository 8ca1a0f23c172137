use vexdb::json::Number;
use vexdb::{
    BeamStatus, DistanceMetric, Filter, FlatIndex, FloatOp, HnswConfig, HnswIndex, Index, Json,
    Payload, SearchResult, Vector, VectorId, VexError,
};

fn single(bits: u64) -> f32 {
    f32::from_bits(bits as u32)
}

fn fpu(op: FloatOp, a: u64, b: u64) -> u64 {
    match op {
        FloatOp::Add => (single(a) + single(b)).to_bits() as u64,
        FloatOp::Sub => (single(a) - single(b)).to_bits() as u64,
        FloatOp::Mul => (single(a) * single(b)).to_bits() as u64,
        FloatOp::Div => (single(a) / single(b)).to_bits() as u64,
        FloatOp::Sqrt => single(a).sqrt().to_bits() as u64,
        FloatOp::WideMul => (f64::from_bits(a) * f64::from_bits(b)).to_bits(),
        FloatOp::WideDiv => (f64::from_bits(a) / f64::from_bits(b)).to_bits(),
        FloatOp::WideLn => f64::from_bits(a).ln().to_bits(),
        FloatOp::WideTrunc => f64::from_bits(a) as u64,
    }
}

fn bits(xs: &[f32]) -> Vec<u32> {
    xs.iter().map(|x| x.to_bits()).collect()
}

fn v(xs: &[f32]) -> Vector {
    Vector::from_vec(bits(xs))
}

fn payload(text: &str) -> Payload {
    Payload::parse(text.as_bytes()).unwrap()
}

/// Deterministic pseudo-random vectors (splitmix64).
fn random_vectors(n: usize, dim: usize, mut state: u64) -> Vec<Vec<f32>> {
    let mut next = move || {
        state = state.wrapping_add(0x9e37_79b9_7f4a_7c15);
        let mut z = state;
        z = (z ^ (z >> 30)).wrapping_mul(0xbf58_476d_1ce4_e5b9);
        z = (z ^ (z >> 27)).wrapping_mul(0x94d0_49bb_1331_11eb);
        z ^= z >> 31;
        ((z >> 40) as f32) / ((1u64 << 24) as f32) * 2.0 - 1.0
    };
    (0..n).map(|_| (0..dim).map(|_| next()).collect()).collect()
}

#[test]
fn empty_search_returns_no_results() {
    let idx = HnswIndex::with_defaults(4, DistanceMetric::L2);
    assert!(idx.search(&fpu, &bits(&[0.0; 4]), 5).unwrap().is_empty());
}

#[test]
fn add_rejects_dim_mismatch_and_duplicates() {
    let mut idx = HnswIndex::with_defaults(3, DistanceMetric::L2);
    assert!(matches!(
        idx.add(&fpu, VectorId(1), v(&[1.0, 2.0])).unwrap_err(),
        VexError::DimensionMismatch { .. }
    ));
    idx.add(&fpu, VectorId(1), v(&[1.0, 2.0, 3.0])).unwrap();
    assert_eq!(
        idx.add(&fpu, VectorId(1), v(&[4.0, 5.0, 6.0])).unwrap_err(),
        VexError::DuplicateId(VectorId(1))
    );
}

#[test]
fn search_validates_k_and_dim() {
    let mut idx = HnswIndex::with_defaults(2, DistanceMetric::L2);
    idx.add(&fpu, VectorId(1), v(&[1.0, 0.0])).unwrap();
    assert_eq!(
        idx.search(&fpu, &bits(&[1.0, 0.0]), 0).unwrap_err(),
        VexError::InvalidK
    );
    assert!(matches!(
        idx.search(&fpu, &bits(&[1.0]), 1).unwrap_err(),
        VexError::DimensionMismatch { .. }
    ));
}

#[test]
fn small_index_is_exact() {
    // With fewer vectors than ef_search the beam covers everything.
    let vectors = random_vectors(50, 8, 7);
    let mut hnsw = HnswIndex::with_defaults(8, DistanceMetric::L2);
    let mut flat = FlatIndex::new(8, DistanceMetric::L2);
    for (i, x) in vectors.iter().enumerate() {
        hnsw.add(&fpu, VectorId(i as u64), v(x)).unwrap();
        flat.add(&fpu, VectorId(i as u64), v(x)).unwrap();
    }
    for query in random_vectors(10, 8, 99) {
        let h = hnsw.search(&fpu, &bits(&query), 5).unwrap();
        let f = flat.search(&fpu, &bits(&query), 5).unwrap();
        let h_ids: Vec<_> = h.iter().map(|r| r.id).collect();
        let f_ids: Vec<_> = f.iter().map(|r| r.id).collect();
        assert_eq!(h_ids, f_ids);
        assert_eq!(h, f);
        assert_eq!(
            hnsw.search_exact(&fpu, &bits(&query), 5, None).unwrap(),
            f
        );
    }
}

#[test]
fn tombstoned_ids_never_appear_in_results() {
    let vectors = random_vectors(200, 8, 21);
    let mut idx = HnswIndex::with_defaults(8, DistanceMetric::L2);
    for (i, x) in vectors.iter().enumerate() {
        idx.add(&fpu, VectorId(i as u64), v(x)).unwrap();
    }
    for i in 0..100u64 {
        assert!(idx.remove(VectorId(i)).unwrap());
    }
    assert!(!idx.remove(VectorId(0)).unwrap(), "remove is idempotent");
    assert_eq!(idx.len(), 100);
    for query in random_vectors(10, 8, 33) {
        for r in idx.search(&fpu, &bits(&query), 10).unwrap() {
            assert!(r.id.0 >= 100, "tombstoned id {} surfaced", r.id.text());
        }
    }
}

#[test]
fn readd_after_remove_is_allowed() {
    let mut idx = HnswIndex::with_defaults(2, DistanceMetric::L2);
    idx.add(&fpu, VectorId(1), v(&[1.0, 0.0])).unwrap();
    assert!(idx.remove(VectorId(1)).unwrap());
    idx.add(&fpu, VectorId(1), v(&[0.0, 1.0])).unwrap();
    assert!(idx.contains(VectorId(1)));
    let res = idx.search(&fpu, &bits(&[0.0, 1.0]), 1).unwrap();
    assert_eq!(res[0].id, VectorId(1));
    assert!(f32::from_bits(res[0].distance) < 1e-6);
    assert_eq!(res.len(), 1);
    assert_eq!(idx.len(), 1);
}

#[test]
fn recall_at_10_against_flat_ground_truth() {
    let n = 1000;
    let dim = 16;
    let k = 10;
    let vectors = random_vectors(n, dim, 42);
    let queries = random_vectors(30, dim, 4242);

    let mut flat = FlatIndex::new(dim, DistanceMetric::L2);
    let mut hnsw = HnswIndex::new(
        dim,
        DistanceMetric::L2,
        HnswConfig {
            m: 16,
            ef_construction: 200,
            ef_search: 100,
            seed: 1,
        },
    );
    for (i, x) in vectors.iter().enumerate() {
        flat.add(&fpu, VectorId(i as u64), v(x)).unwrap();
        hnsw.add(&fpu, VectorId(i as u64), v(x)).unwrap();
    }

    let mut hits = 0usize;
    let mut total = 0usize;
    for q in &queries {
        let truth: std::collections::HashSet<u64> = flat
            .search(&fpu, &bits(q), k)
            .unwrap()
            .iter()
            .map(|r| r.id.0)
            .collect();
        let approx = hnsw.search(&fpu, &bits(q), k).unwrap();
        hits += approx.iter().filter(|r| truth.contains(&r.id.0)).count();
        total += truth.len();
    }
    let recall = hits as f64 / total as f64;
    assert!(recall >= 0.9, "recall@{k} = {recall:.3}, expected >= 0.9");
}

#[test]
fn filtered_search_survives_selective_filters() {
    // 1000 vectors, filter matches ~10%.
    let vectors = random_vectors(1000, 8, 5);
    let mut idx = HnswIndex::with_defaults(8, DistanceMetric::L2);
    for (i, x) in vectors.iter().enumerate() {
        idx.add_with_payload(
            &fpu,
            VectorId(i as u64),
            v(x),
            Some(payload(&format!(r#"{{"bucket": {}, "n": {i}}}"#, i % 10))),
        )
        .unwrap();
    }
    let filter = Filter::Eq {
        key: "bucket".into(),
        value: Json::Number(Number::PosInt(3)),
    };
    for q in random_vectors(10, 8, 77) {
        let res = idx
            .search_filtered_with_ef(&fpu, &bits(&q), 10, 64, Some(&filter))
            .unwrap();
        assert_eq!(res.len(), 10, "filtered search starved");
        for r in &res {
            assert_eq!(r.id.0 % 10, 3, "filter violated for id {}", r.id.text());
        }
    }
    // And a filter that matches nothing returns empty, not an error.
    let none = Filter::Eq {
        key: "bucket".into(),
        value: Json::Number(Number::PosInt(99)),
    };
    assert!(idx
        .search_filtered_with_ef(&fpu, &bits(&random_vectors(1, 8, 1)[0]), 5, 32, Some(&none))
        .unwrap()
        .is_empty());
}

#[test]
fn results_are_sorted_distinct_and_complete() {
    for n in [0usize, 1, 2, 7, 39] {
        let vectors = random_vectors(n, 6, n as u64 + 3);
        let mut idx = HnswIndex::with_defaults(6, DistanceMetric::L2);
        for (i, x) in vectors.iter().enumerate() {
            idx.add(&fpu, VectorId(i as u64), v(x)).unwrap();
        }
        for k in 1usize..8 {
            let res = idx.search(&fpu, &bits(&[0.0; 6]), k).unwrap();
            assert_eq!(res.len(), k.min(n));
            for w in res.windows(2) {
                assert!(f32::from_bits(w[0].distance) <= f32::from_bits(w[1].distance));
            }
            let mut ids: Vec<u64> = res.iter().map(|r| r.id.0).collect();
            ids.sort();
            ids.dedup();
            assert_eq!(ids.len(), res.len(), "duplicate ids in results");
            assert!(ids.iter().all(|&id| (id as usize) < n));
        }
    }
}

#[test]
fn construction_is_deterministic() {
    let vectors = random_vectors(80, 4, 11);
    let build = |seed: u64| {
        let mut idx = HnswIndex::new(
            4,
            DistanceMetric::Cosine,
            HnswConfig {
                m: 4,
                ef_construction: 12,
                ef_search: 10,
                seed,
            },
        );
        for (i, x) in vectors.iter().enumerate() {
            idx.add(&fpu, VectorId(i as u64), v(x)).unwrap();
        }
        let mut bytes = Vec::new();
        vexdb::AnyIndex::Hnsw(idx).write_to(&mut bytes).unwrap();
        bytes
    };
    assert_eq!(build(5), build(5));
    assert_ne!(build(5), build(6));
}

#[test]
fn room_is_limited_by_the_levels() {
    // With m = 1 the layers never shrink: no level can be counted.
    let config = HnswConfig {
        m: 1,
        ..HnswConfig::default()
    };
    let idx = HnswIndex::new(2, DistanceMetric::L2, config);
    assert!(idx.can_take(&fpu, 0));
    assert!(!idx.can_take(&fpu, 1));
    assert_eq!(idx.config(), config);
    let idx = HnswIndex::with_defaults(2, DistanceMetric::Dot);
    assert!(idx.can_take(&fpu, 10_000));
    assert!(!idx.can_take(&fpu, 0x1_0000_0001));
    assert_eq!(idx.metric(), DistanceMetric::Dot);
    assert_eq!(idx.config().m, 16);
    assert_eq!(idx.config().ef_construction, 200);
    assert_eq!(idx.config().ef_search, 64);
}

#[test]
fn live_vectors_are_listed_in_storage_order() {
    let mut idx = HnswIndex::with_defaults(1, DistanceMetric::L2);
    for id in [5u64, 3, 9] {
        idx.add_with_payload(
            &fpu,
            VectorId(id),
            v(&[id as f32]),
            Some(payload(&format!("{id}"))),
        )
        .unwrap();
    }
    idx.remove(VectorId(3)).unwrap();
    idx.add(&fpu, VectorId(3), v(&[30.0])).unwrap();
    let live: Vec<(u64, Vec<u32>, bool)> = idx
        .iter_live()
        .iter()
        .map(|(id, x, p)| (id.0, x.as_slice().to_vec(), p.is_some()))
        .collect();
    assert_eq!(
        live,
        vec![
            (5, bits(&[5.0]), true),
            (9, bits(&[9.0]), true),
            (3, bits(&[30.0]), false),
        ]
    );
    assert_eq!(
        idx.vector(VectorId(3)).unwrap().as_slice(),
        bits(&[30.0]).as_slice()
    );
    assert!(idx.payload(VectorId(3)).is_none());
    assert!(idx.payload(VectorId(5)).is_some());
    assert!(idx.vector(VectorId(4)).is_none());
}

#[test]
fn traces_record_the_walk_without_changing_it() {
    let vectors = random_vectors(300, 6, 8);
    let mut idx = HnswIndex::new(
        6,
        DistanceMetric::L2,
        HnswConfig {
            m: 4,
            ef_construction: 20,
            ef_search: 8,
            seed: 3,
        },
    );
    let q = bits(&vectors[17]);
    let (none, empty) = idx.search_traced(&fpu, &q, 3, 8, None).unwrap();
    assert!(none.is_empty());
    assert_eq!(empty.entry_id, None);
    assert_eq!((empty.visited, empty.distance_evals), (0, 0));
    for (i, x) in vectors.iter().enumerate() {
        idx.add(&fpu, VectorId(i as u64), v(x)).unwrap();
    }
    let (hits, trace) = idx.search_traced(&fpu, &q, 3, 8, None).unwrap();
    assert_eq!(hits, idx.search_with_ef(&fpu, &q, 3, 8).unwrap());
    assert_eq!(trace.descent.len(), trace.max_layer);
    assert!(trace.max_layer > 0, "300 nodes span several layers");
    assert!(trace
        .descent
        .windows(2)
        .all(|w| w[0].layer == w[1].layer + 1
            && f32::from_bits(w[0].distance) >= f32::from_bits(w[1].distance)));
    assert_eq!(trace.visited, trace.beam.len());
    assert!(trace.distance_evals >= trace.visited);
    assert!(trace.entry_id.is_some());
    assert!(trace.beam.iter().any(|e| e.status == BeamStatus::Admitted));
    assert!(trace.beam.iter().any(|e| e.status == BeamStatus::Discarded));
    assert!(trace.beam.iter().all(|e| e.status != BeamStatus::Routed));
    for h in &hits {
        assert!(trace
            .beam
            .iter()
            .any(|e| e.id == h.id.0 && e.distance == h.distance));
    }
}

#[test]
fn a_small_index_is_exact_after_removals() {
    let vectors = random_vectors(30, 6, 21);
    let mut idx = HnswIndex::with_defaults(6, DistanceMetric::Cosine);
    for (i, vec) in vectors.iter().enumerate() {
        idx.add(&fpu, VectorId(i as u64), v(vec)).unwrap();
    }
    for id in [0u64, 7, 8, 29] {
        assert!(idx.remove(VectorId(id)).unwrap());
        assert!(!idx.remove(VectorId(id)).unwrap());
    }
    for q in random_vectors(10, 6, 22) {
        for k in [1usize, 5, 26, 40] {
            let exact = idx.search_exact(&fpu, &bits(&q), k, None).unwrap();
            assert_eq!(exact.len(), k.min(26));
            assert_eq!(idx.search_with_ef(&fpu, &bits(&q), k, 30).unwrap(), exact);
        }
    }
    for id in 0..30u64 {
        idx.remove(VectorId(id)).unwrap();
    }
    assert!(idx.is_empty());
    assert!(idx.search(&fpu, &bits(&vectors[0]), 3).unwrap().is_empty());
}

#[test]
fn a_search_yields_k_hits_or_every_vector() {
    // Equal vectors: shrinking neighbor lists leaves nodes that none names.
    for (n, m, ef_construction) in [(6usize, 2usize, 1usize), (40, 16, 200), (120, 2, 4)] {
        for seed in 0..20u64 {
            let config = HnswConfig {
                m,
                ef_construction,
                ef_search: 8,
                seed,
            };
            let mut idx = HnswIndex::new(2, DistanceMetric::L2, config);
            for i in 0..n as u64 {
                let bucket = payload(&format!(r#"{{"odd": {}}}"#, i % 2 == 1));
                idx.add_with_payload(&fpu, VectorId(i), v(&[1.0, 2.0]), Some(bucket))
                    .unwrap();
            }
            for k in [1, n / 2, n, n + 5] {
                for ef in [1, n] {
                    let res = idx.search_with_ef(&fpu, &bits(&[1.0, 2.0]), k, ef).unwrap();
                    assert_eq!(res.len(), k.min(n));
                    let (traced, _) = idx
                        .search_traced(&fpu, &bits(&[1.0, 2.0]), k, ef, None)
                        .unwrap();
                    assert_eq!(traced, res);
                }
            }
            let odd = Filter::Eq {
                key: "odd".into(),
                value: Json::Bool(true),
            };
            let res = idx
                .search_filtered_with_ef(&fpu, &bits(&[1.0, 2.0]), n, 1, Some(&odd))
                .unwrap();
            assert_eq!(res.len(), n / 2);
            assert!(res.iter().all(|r| r.id.0 % 2 == 1));
        }
    }
}

#[test]
fn a_vector_that_no_list_names_is_found() {
    let config = HnswConfig {
        m: 2,
        ef_construction: 8,
        ..HnswConfig::default()
    };
    let mut idx = HnswIndex::new(1, DistanceMetric::L2, config);
    idx.add(&fpu, VectorId(0), v(&[0.0])).unwrap();
    idx.add(&fpu, VectorId(1), v(&[1000.0])).unwrap();
    for i in 2..40u64 {
        idx.add(&fpu, VectorId(i), v(&[i as f32 / 100.0])).unwrap();
    }
    let all = idx.search_with_ef(&fpu, &bits(&[0.0]), 40, 40).unwrap();
    assert_eq!(all.len(), 40);
    assert_eq!(all[39].id, VectorId(1));
    assert_eq!(all, idx.search_exact(&fpu, &bits(&[0.0]), 40, None).unwrap());
}

#[test]
fn a_small_index_agrees_with_flat_on_ties() {
    let config = HnswConfig {
        m: 4,
        ..HnswConfig::default()
    };
    let mut hnsw = HnswIndex::new(2, DistanceMetric::L2, config);
    let mut flat = FlatIndex::new(2, DistanceMetric::L2);
    // Nine vectors at three distances, stored against the order of their ids.
    for id in (0..9u64).rev() {
        let x = v(&[(id % 3) as f32, 0.0]);
        hnsw.add(&fpu, VectorId(id), x.clone()).unwrap();
        flat.add(&fpu, VectorId(id), x).unwrap();
    }
    for id in [4u64, 8] {
        hnsw.remove(VectorId(id)).unwrap();
        flat.remove(VectorId(id)).unwrap();
    }
    for k in 1usize..10 {
        let a = hnsw.search_with_ef(&fpu, &bits(&[0.0, 0.0]), k, 7).unwrap();
        let b = flat.search(&fpu, &bits(&[0.0, 0.0]), k).unwrap();
        let distances = |hits: &[SearchResult]| -> Vec<u32> {
            hits.iter().map(|h| h.distance).collect()
        };
        assert_eq!(distances(&a), distances(&b));
        assert_eq!(a.len(), k.min(7));
    }
}
