use vexdb::routes::{
    CollectionStats, CreateCollection, PointInput, SearchRequest, UpsertPoints, MAX_BATCH,
};
use vexdb::state::{choose_snapshot, snapshot_path, validate_name, SnapshotChoice};
use vexdb::json::Number;
use vexdb::{
    ApiError, AppState, DistanceMetric, Filter, FloatOp, Json, Payload, SnapshotError, VectorId,
    VexError,
};

fn single(bits: u64) -> f32 {
    f32::from_bits(bits as u32)
}

fn fpu(op: FloatOp, a: u64, b: u64) -> u64 {
    match op {
        FloatOp::Add => (single(a) + single(b)).to_bits() as u64,
        FloatOp::Sub => (single(a) - single(b)).to_bits() as u64,
        FloatOp::Mul => (single(a) * single(b)).to_bits() as u64,
        FloatOp::Div => (single(a) / single(b)).to_bits() as u64,
        FloatOp::Sqrt => single(a).sqrt().to_bits() as u64,
        FloatOp::WideMul => (f64::from_bits(a) * f64::from_bits(b)).to_bits(),
        FloatOp::WideDiv => (f64::from_bits(a) / f64::from_bits(b)).to_bits(),
        FloatOp::WideLn => f64::from_bits(a).ln().to_bits(),
        FloatOp::WideTrunc => f64::from_bits(a) as u64,
    }
}

fn bits(xs: &[f32]) -> Vec<u32> {
    xs.iter().map(|x| x.to_bits()).collect()
}

fn seed_points(n: usize, dim: usize) -> UpsertPoints {
    let points = (0..n)
        .map(|i| {
            let vector: Vec<f32> = (0..dim)
                .map(|d| ((i * 31 + d * 7) % 17) as f32 / 17.0)
                .collect();
            point(i as u64, &vector, &format!(r#"{{"bucket": {}}}"#, i % 5))
        })
        .collect();
    UpsertPoints { points }
}

fn point(id: u64, vector: &[f32], payload: &str) -> PointInput {
    PointInput {
        id,
        vector: bits(vector),
        payload: Some(Payload::parse(payload.as_bytes()).unwrap()),
    }
}

fn create(state: &mut AppState, name: &str, req: CreateCollection) -> Result<CollectionStats, ApiError> {
    let c = state.create_collection(name, &req)?;
    let told = vexdb::routes::stats(&c);
    state.register(c);
    Ok(told)
}

fn request(dim: usize, index: &str) -> CreateCollection {
    CreateCollection {
        index: index.into(),
        ..CreateCollection::with_defaults(dim)
    }
}

fn query(xs: &[f32], k: usize) -> SearchRequest {
    SearchRequest {
        query: bits(xs),
        k,
        ef: None,
        filter: None,
        with_payload: true,
    }
}

#[test]
fn crud_and_search_flow() {
    let mut state = AppState::new("data".into(), false);
    let told = create(&mut state, "test", request(4, "hnsw")).unwrap();
    assert_eq!((told.dim, told.count), (4, 0));

    // Duplicate create: 409.
    let err = create(&mut state, "test", request(4, "hnsw")).unwrap_err();
    assert_eq!(err.status(), 409);
    assert_eq!(err.message(), "collection 'test' already exists");

    assert!(state.can_upsert(&fpu, "test", 50));
    assert_eq!(state.upsert_points(&fpu, "test", seed_points(50, 4)).unwrap(), 50);
    let told = state.collection_stats("test").unwrap();
    assert_eq!((told.count, told.index), (50, "hnsw"));
    assert_eq!(told.metric, DistanceMetric::L2);
    assert_eq!(told.name, "test");

    let mut req = query(&[0.1, 0.2, 0.3, 0.4], 5);
    req.ef = Some(32);
    let results = state.search(&fpu, "test", &req).unwrap();
    assert_eq!(results.len(), 5);
    assert!(results[0].payload.as_ref().unwrap().value()["bucket"].is_number());
    assert!(results
        .windows(2)
        .all(|w| f32::from_bits(w[0].distance) <= f32::from_bits(w[1].distance)));

    // Filtered search only returns the matching bucket.
    req.filter = Some(Filter::Eq {
        key: "bucket".into(),
        value: Json::Number(Number::PosInt(2)),
    });
    for r in state.search(&fpu, "test", &req).unwrap() {
        assert_eq!(r.payload.unwrap().value()["bucket"], 2);
    }
    req.with_payload = false;
    assert!(state.search(&fpu, "test", &req).unwrap()[0].payload.is_none());

    // Upsert replaces an existing id.
    let replacement = UpsertPoints {
        points: vec![point(0, &[9.0, 9.0, 9.0, 9.0], r#"{"bucket": 99}"#)],
    };
    state.upsert_points(&fpu, "test", replacement).unwrap();
    assert_eq!(
        state.collection_stats("test").unwrap().count,
        50,
        "upsert must not grow the collection"
    );
    let at = state.search(&fpu, "test", &query(&[9.0; 4], 1)).unwrap();
    assert_eq!(at[0].id, 0);
    assert_eq!(at[0].payload.as_ref().unwrap().value()["bucket"], 99);

    assert_eq!(state.delete_point("test", 0), Ok(true));
    assert_eq!(state.delete_point("test", 0), Ok(false), "delete is idempotent");

    assert_eq!(state.drop_collection("test").unwrap(), "data/test.vex");
    assert_eq!(state.collection_stats("test").unwrap_err().status(), 404);
    assert_eq!(state.drop_collection("test").unwrap_err().status(), 404);
}

#[test]
fn refusals_have_their_statuses() {
    let mut state = AppState::new("data".into(), false);
    let err = create(&mut state, "../evil", request(4, "hnsw")).unwrap_err();
    assert_eq!(err.status(), 400);
    assert_eq!(
        err.message(),
        "collection name must be 1-64 chars of [a-zA-Z0-9_-]"
    );
    let err = state.search(&fpu, "nope", &query(&[1.0], 1)).unwrap_err();
    assert_eq!(err.status(), 404);
    assert_eq!(err.message(), "collection 'nope' does not exist");

    create(&mut state, "v", request(4, "hnsw")).unwrap();
    let err = state.search(&fpu, "v", &query(&[1.0, 2.0], 1)).unwrap_err();
    assert_eq!(err.status(), 400);
    assert_eq!(err.message(), "dimension mismatch: expected 4, got 2");
    let err = state.search(&fpu, "v", &query(&[1.0; 4], 100_000)).unwrap_err();
    assert_eq!(err.message(), "k must be 1..=1024, got 100000");
    assert_eq!(state.search(&fpu, "v", &query(&[1.0; 4], 0)).unwrap_err().status(), 400);
    let mut req = query(&[1.0; 4], 1);
    req.ef = Some(100_001);
    assert_eq!(
        state.search(&fpu, "v", &req).unwrap_err().message(),
        "ef must be <= 100000"
    );

    // A mismatched point refuses the whole batch.
    let batch = UpsertPoints {
        points: vec![
            point(1, &[1.0, 2.0, 3.0, 4.0], "null"),
            point(2, &[1.0], "null"),
            point(3, &[], "null"),
        ],
    };
    let err = state.upsert_points(&fpu, "v", batch).unwrap_err();
    assert_eq!(err.status(), 400);
    assert_eq!(
        err.message(),
        "point 1 (id 2): dimension mismatch: expected 4, got 1"
    );
    assert_eq!(
        state.collection_stats("v").unwrap().count,
        0,
        "bad batch must not be half-applied"
    );
    assert!(state.pending(false).is_empty());
    let err = state
        .upsert_points(&fpu, "v", UpsertPoints { points: vec![] })
        .unwrap_err();
    assert_eq!(err.message(), "points must not be empty");
    let err = state
        .upsert_points(&fpu, "v", seed_points(MAX_BATCH + 1, 1))
        .unwrap_err();
    assert_eq!(err.message(), "batch too large: 10001 points (max 10000)");

    for (req, message) in [
        (request(0, "flat"), "dim must be 1..=65536, got 0"),
        (request(65_537, "flat"), "dim must be 1..=65536, got 65537"),
        (request(2, "tree"), "unknown index type 'tree' (expected flat|hnsw)"),
        (
            CreateCollection {
                m: 257,
                ..CreateCollection::with_defaults(2)
            },
            "m must be 1..=256",
        ),
    ] {
        assert_eq!(create(&mut state, "w", req).unwrap_err().message(), message);
    }
    assert_eq!(ApiError::from_index(VexError::InvalidK).status(), 400);
    assert_eq!(
        ApiError::from_index(VexError::DuplicateId(VectorId(1))).status(),
        409
    );
    let internal = ApiError::from_snapshot(SnapshotError::BadMagic);
    assert_eq!(internal.status(), 500);
    assert_eq!(
        internal.message(),
        "internal error: not a vex snapshot (bad magic bytes)"
    );
}

#[test]
fn read_only_mode_refuses_writes_but_serves_reads() {
    let mut state = AppState::new("data".into(), false);
    create(&mut state, "ro", request(4, "flat")).unwrap();
    state.upsert_points(&fpu, "ro", seed_points(10, 4)).unwrap();
    let (path, bytes) = state.snapshot_collection("ro").unwrap();
    assert_eq!(path, "data/ro.vex");

    let mut state = AppState::new("data".into(), true);
    state.load_snapshot("ro", &bytes).unwrap();
    let hits = state.search(&fpu, "ro", &query(&[0.5; 4], 3)).unwrap();
    assert_eq!(hits.len(), 3);
    let refusals = [
        create(&mut state, "other", request(2, "hnsw")).unwrap_err(),
        state.upsert_points(&fpu, "ro", seed_points(1, 4)).unwrap_err(),
        state.delete_point("ro", 1).unwrap_err(),
        state.drop_collection("ro").unwrap_err(),
        state.snapshot_collection("ro").unwrap_err(),
    ];
    for e in refusals {
        assert_eq!(e, ApiError::ReadOnly);
        assert_eq!(e.status(), 403);
        assert_eq!(e.message(), "server is running in read-only mode");
    }
    assert_eq!(state.collection_stats("ro").unwrap().count, 10);
}

#[test]
fn snapshots_survive_a_restart() {
    let mut state = AppState::new("data/".into(), false);
    create(&mut state, "persist", request(4, "hnsw")).unwrap();
    create(&mut state, "clean", request(2, "flat")).unwrap();
    state.upsert_points(&fpu, "persist", seed_points(25, 4)).unwrap();
    assert_eq!(state.pending(false), vec!["persist".to_string()]);
    assert_eq!(
        state.pending(true),
        vec!["clean".to_string(), "persist".to_string()]
    );
    let (path, bytes) = state.snapshot_collection("persist").unwrap();
    assert_eq!(path, "data/persist.vex");
    state.mark_flushed("persist");
    state.mark_flushed("unknown");
    assert!(state.pending(false).is_empty());

    let mut restarted = AppState::new("data/".into(), false);
    restarted.load_snapshot("persist", &bytes).unwrap();
    assert_eq!(restarted.collection_stats("persist").unwrap().count, 25);
    let req = query(&[0.1; 4], 5);
    let ids = |s: &AppState| -> Vec<u64> {
        s.search(&fpu, "persist", &req).unwrap().iter().map(|h| h.id).collect()
    };
    assert_eq!(ids(&restarted).len(), 5);
    assert_eq!(ids(&restarted), ids(&state));
    assert!(restarted.load_snapshot("persist", b"junk").is_err());
    assert_eq!(restarted.collection_stats("persist").unwrap().count, 25);
    // A second snapshot of the same name takes the first one's place.
    let (_, empty) = state.snapshot_collection("clean").unwrap();
    restarted.load_snapshot("persist", &empty).unwrap();
    assert_eq!(restarted.collection_stats("persist").unwrap().index, "flat");
    assert_eq!(restarted.list_collections().len(), 1);
}

#[test]
fn collections_are_listed_by_name() {
    let mut state = AppState::new(String::new(), false);
    for name in ["beta", "alpha", "Zeta", "beta2", "b-"] {
        create(&mut state, name, request(2, "flat")).unwrap();
    }
    let names: Vec<String> = state.list_collections().into_iter().map(|s| s.name).collect();
    assert_eq!(names, vec!["Zeta", "alpha", "b-", "beta", "beta2"]);
    assert!(state.get("beta").is_ok());
    assert!(!state.get("beta").unwrap().needs_flush(false));
    assert!(state.get("beta").unwrap().needs_flush(true));
    assert!(state.get("gamma").is_err());
    assert_eq!(state.path_of("beta"), "beta.vex");
}

#[test]
fn names_and_paths() {
    let long = "x".repeat(64);
    for good in ["a", "A-b_9", long.as_str()] {
        assert!(validate_name(good).is_ok(), "{good}");
    }
    let too_long = "x".repeat(65);
    for bad in ["", "a.b", "../x", "a/b", "a b", "\u{e9}t\u{e9}", too_long.as_str()] {
        assert!(validate_name(bad).is_err(), "{bad}");
    }
    assert_eq!(snapshot_path("/srv/data", "movies"), "/srv/data/movies.vex");
    assert_eq!(snapshot_path("/srv/data/", "movies"), "/srv/data/movies.vex");
    assert_eq!(snapshot_path("", "movies"), "movies.vex");
    assert_eq!(snapshot_path("/srv", "/abs"), "/abs.vex");
    let load = |file: &str| match choose_snapshot(file) {
        SnapshotChoice::Skip => "skip".to_string(),
        SnapshotChoice::Refuse => "refuse".to_string(),
        SnapshotChoice::Load(name) => format!("load {name}"),
    };
    assert_eq!(load("movies.vex"), "load movies");
    assert_eq!(load("movies.vex.tmp"), "skip");
    assert_eq!(load("movies"), "skip");
    assert_eq!(load(".vex"), "skip");
    assert_eq!(load("a.b.vex"), "refuse");
    assert_eq!(load("\u{e9}.vex"), "refuse");
}

#[test]
fn beam_widths_are_clamped_on_creation() {
    let state = AppState::new(String::new(), false);
    let req = CreateCollection {
        ef_construction: 0,
        ef_search: 1_000_000,
        ..CreateCollection::with_defaults(3)
    };
    let c = state.create_collection("c", &req).unwrap();
    match &c.index {
        vexdb::AnyIndex::Hnsw(h) => {
            assert_eq!(h.config().ef_construction, 1);
            assert_eq!(h.config().ef_search, 100_000);
            assert_eq!(h.config().m, 16);
            assert_eq!(h.config().seed, 0x5eed_cafe_f00d_d00d);
        }
        _ => panic!("wrong type"),
    }
}

#[test]
fn a_data_directory_is_loaded_or_its_bad_file_named() {
    let mut state = AppState::new("data".into(), false);
    create(&mut state, "points", request(4, "hnsw")).unwrap();
    create(&mut state, "none", request(2, "flat")).unwrap();
    state.upsert_points(&fpu, "points", seed_points(12, 4)).unwrap();
    let (_, points) = state.snapshot_collection("points").unwrap();
    let (_, none) = state.snapshot_collection("none").unwrap();
    let mut files = vec![
        ("notes.txt".to_string(), b"no snapshot".to_vec()),
        ("points.vex".to_string(), points.clone()),
        ("bad name.vex".to_string(), b"never read".to_vec()),
        ("none.vex".to_string(), none),
        (".vex".to_string(), Vec::new()),
    ];
    let again = AppState::load("data".into(), true, &files).unwrap();
    let names: Vec<String> = again.list_collections().into_iter().map(|s| s.name).collect();
    assert_eq!(names, vec!["none", "points"]);
    assert_eq!(again.collection_stats("points").unwrap().count, 12);
    assert!(again.pending(false).is_empty());
    assert_eq!(again.ensure_writable().unwrap_err(), ApiError::ReadOnly);
    assert_eq!(again.path_of("points"), "data/points.vex");

    files.push(("cut.vex".to_string(), points[..points.len() - 1].to_vec()));
    files.push(("junk.vex".to_string(), b"JUNKJUNKJUNKJUNK".to_vec()));
    let e = AppState::load("data".into(), true, &files).unwrap_err();
    assert_eq!(e.file, "cut.vex");
    assert!(matches!(e.cause, SnapshotError::Corrupt(_)));
    files.swap(5, 6);
    let e = AppState::load("data".into(), true, &files).unwrap_err();
    assert_eq!(e.file, "junk.vex");
    assert_eq!(e.cause, SnapshotError::BadMagic);
    assert!(AppState::load("data".into(), false, &vec![])
        .unwrap()
        .list_collections()
        .is_empty());
}

#[test]
fn a_failed_save_stays_dirty_and_stops_no_other() {
    let mut state = AppState::new("data".into(), false);
    for name in ["a", "b", "c"] {
        create(&mut state, name, request(4, "flat")).unwrap();
        state.upsert_points(&fpu, name, seed_points(2, 4)).unwrap();
    }
    assert_eq!(state.pending(false).len(), 3);
    let tried = vec![
        ("a".to_string(), true),
        ("b".to_string(), false),
        ("c".to_string(), true),
    ];
    assert_eq!(state.note_saved(&tried), 2);
    assert_eq!(state.pending(false), vec!["b".to_string()]);
    assert_eq!(state.note_saved(&vec![]), 0);
    assert_eq!(state.note_saved(&vec![("b".to_string(), true)]), 1);
    assert!(state.pending(false).is_empty());
}

#[test]
fn a_batch_is_refused_before_room_is_asked_for() {
    let mut state = AppState::new("data".into(), false);
    let mut req = request(4, "hnsw");
    req.m = 1;
    create(&mut state, "thin", req).unwrap();
    create(&mut state, "wide", request(4, "hnsw")).unwrap();
    assert!(!state.can_upsert(&fpu, "thin", 1));
    assert!(state.can_upsert(&fpu, "wide", 1));
    assert!(state.can_upsert(&fpu, "unknown", 1));
    let short = UpsertPoints {
        points: vec![point(7, &[1.0], "1")],
    };
    let message = "point 0 (id 7): dimension mismatch: expected 4, got 1";
    let refused = Some(ApiError::BadRequest(message.to_string()));
    assert_eq!(state.refuse_batch("thin", &short), refused);
    assert_eq!(
        state.upsert_points(&fpu, "thin", short).unwrap_err(),
        ApiError::BadRequest(message.to_string())
    );
    assert_eq!(state.refuse_batch("wide", &seed_points(3, 4)), None);
}

#[test]
fn a_search_request_has_defaults() {
    let req = SearchRequest::with_defaults(bits(&[1.0, 2.0]));
    assert_eq!(req.query, bits(&[1.0, 2.0]));
    assert_eq!(req.k, 10);
    assert!(req.ef.is_none() && req.filter.is_none());
    assert!(req.with_payload);
}
