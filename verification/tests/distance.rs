use vexdb::distance::{cosine_from_terms, cosine_terms_scalar, dot_scalar, l2_sq_scalar};
use vexdb::float::{
    integer_to_double, is_less, is_wide_at_most, is_wide_same, negate, small_integer_to_single,
    total_key_of, wide_negate,
};
use vexdb::{DistanceMetric, FloatOp, Vector, VectorId, VexError};

fn single(bits: u64) -> f32 {
    f32::from_bits(bits as u32)
}

fn fpu(op: FloatOp, a: u64, b: u64) -> u64 {
    match op {
        FloatOp::Add => (single(a) + single(b)).to_bits() as u64,
        FloatOp::Sub => (single(a) - single(b)).to_bits() as u64,
        FloatOp::Mul => (single(a) * single(b)).to_bits() as u64,
        FloatOp::Div => (single(a) / single(b)).to_bits() as u64,
        FloatOp::Sqrt => single(a).sqrt().to_bits() as u64,
        FloatOp::WideMul => (f64::from_bits(a) * f64::from_bits(b)).to_bits(),
        FloatOp::WideDiv => (f64::from_bits(a) / f64::from_bits(b)).to_bits(),
        FloatOp::WideLn => f64::from_bits(a).ln().to_bits(),
        FloatOp::WideTrunc => f64::from_bits(a) as u64,
    }
}

fn bits(xs: &[f32]) -> Vec<u32> {
    xs.iter().map(|x| x.to_bits()).collect()
}

fn distance(metric: DistanceMetric, a: &[f32], b: &[f32]) -> Result<f32, VexError> {
    metric
        .distance(&fpu, &bits(a), &bits(b))
        .map(f32::from_bits)
}

fn approx(a: f32, b: f32) -> bool {
    (a - b).abs() < 1e-5
}

#[test]
fn l2_known_values() {
    let d = distance(DistanceMetric::L2, &[0.0, 0.0], &[3.0, 4.0]).unwrap();
    assert!(approx(d, 5.0), "got {d}");
}

#[test]
fn dot_known_values() {
    // dot([1,2,3],[4,5,6]) = 32 -> distance = -32
    let d = distance(DistanceMetric::Dot, &[1.0, 2.0, 3.0], &[4.0, 5.0, 6.0]).unwrap();
    assert!(approx(d, -32.0), "got {d}");
}

#[test]
fn cosine_identical_is_zero() {
    let d = distance(DistanceMetric::Cosine, &[1.0, 2.0, 3.0], &[1.0, 2.0, 3.0]).unwrap();
    assert!(approx(d, 0.0), "got {d}");
}

#[test]
fn cosine_orthogonal_is_one() {
    let d = distance(DistanceMetric::Cosine, &[1.0, 0.0], &[0.0, 1.0]).unwrap();
    assert!(approx(d, 1.0), "got {d}");
}

#[test]
fn cosine_opposite_is_two() {
    let d = distance(DistanceMetric::Cosine, &[1.0, 0.0], &[-1.0, 0.0]).unwrap();
    assert!(approx(d, 2.0), "got {d}");
}

#[test]
fn cosine_zero_vector_is_one() {
    let d = distance(DistanceMetric::Cosine, &[0.0, 0.0], &[1.0, 0.0]).unwrap();
    assert!(approx(d, 1.0));
    assert_eq!(d, 1.0);
}

#[test]
fn dim_mismatch_errors() {
    let err = distance(DistanceMetric::L2, &[1.0], &[1.0, 2.0]).unwrap_err();
    assert!(matches!(err, VexError::DimensionMismatch { .. }));
    assert_eq!(
        err,
        VexError::DimensionMismatch {
            expected: 1,
            actual: 2
        }
    );
    assert_eq!(err.message(), "dimension mismatch: expected 1, got 2");
}

#[test]
fn from_str() {
    assert_eq!(
        DistanceMetric::from_str("cosine").unwrap(),
        DistanceMetric::Cosine
    );
    assert_eq!(DistanceMetric::from_str("L2").unwrap(), DistanceMetric::L2);
    assert_eq!(
        DistanceMetric::from_str("dot").unwrap(),
        DistanceMetric::Dot
    );
    assert!(DistanceMetric::from_str("manhattan").is_err());
}

#[test]
fn metric_names_and_aliases() {
    assert_eq!("Euclidean".parse::<DistanceMetric>(), Ok(DistanceMetric::L2));
    assert_eq!("ip".parse::<DistanceMetric>(), Ok(DistanceMetric::Dot));
    assert_eq!(
        "INNER_product".parse::<DistanceMetric>(),
        Ok(DistanceMetric::Dot)
    );
    // The message quotes the name in lower case.
    assert_eq!(
        DistanceMetric::from_str("ManHattan").unwrap_err(),
        "unknown distance metric: manhattan"
    );
    for metric in [
        DistanceMetric::Cosine,
        DistanceMetric::L2,
        DistanceMetric::Dot,
    ] {
        assert_eq!(DistanceMetric::from_tag(metric.to_tag()), Some(metric));
        assert_eq!(DistanceMetric::from_str(&metric.name_text()), Ok(metric));
    }
    assert_eq!(DistanceMetric::from_tag(3), None);
}

#[test]
fn kernels_sum_in_lanes() {
    // 19 coordinates: two whole chunks of eight and a rest of three.
    let a: Vec<f32> = (0..19).map(|i| i as f32 * 0.37 - 2.0).collect();
    let b: Vec<f32> = (0..19).map(|i| 1.5 - i as f32 * 0.11).collect();
    let mut dot_acc = [0.0f32; 8];
    let mut l2_acc = [0.0f32; 8];
    for c in 0..2 {
        for l in 0..8 {
            let (x, y) = (a[8 * c + l], b[8 * c + l]);
            dot_acc[l] += x * y;
            l2_acc[l] += (x - y) * (x - y);
        }
    }
    let mut dot: f32 = dot_acc.iter().sum();
    let mut l2: f32 = l2_acc.iter().sum();
    for i in 16..19 {
        dot += a[i] * b[i];
        l2 += (a[i] - b[i]) * (a[i] - b[i]);
    }
    assert_eq!(f32::from_bits(dot_scalar(&fpu, &bits(&a), &bits(&b))), dot);
    assert_eq!(f32::from_bits(l2_sq_scalar(&fpu, &bits(&a), &bits(&b))), l2);
    let (d, na, nb) = cosine_terms_scalar(&fpu, &bits(&a), &bits(&b));
    assert_eq!(f32::from_bits(d), dot);
    assert!(approx(
        f32::from_bits(na),
        a.iter().map(|x| x * x).sum::<f32>()
    ));
    let cosine = f32::from_bits(cosine_from_terms(&fpu, d, na, nb));
    assert_eq!(
        cosine,
        1.0 - dot / (f32::from_bits(na).sqrt() * f32::from_bits(nb).sqrt())
    );
}

#[test]
fn bit_patterns_compare_as_floats() {
    let values = [
        f32::NEG_INFINITY,
        -1.5,
        -f32::MIN_POSITIVE,
        -1e-45,
        -0.0,
        0.0,
        1e-45,
        1.0,
        f32::MAX,
        f32::INFINITY,
        f32::NAN,
        -f32::NAN,
    ];
    for &a in &values {
        assert_eq!(f32::from_bits(negate(a.to_bits())).to_bits(), (-a).to_bits());
        for &b in &values {
            assert_eq!(is_less(a.to_bits(), b.to_bits()), a < b, "{a} < {b}");
            assert_eq!(
                total_key_of(a.to_bits()) < total_key_of(b.to_bits()),
                a.total_cmp(&b) == std::cmp::Ordering::Less,
                "{a} before {b}"
            );
            let (x, y) = (a as f64, b as f64);
            assert_eq!(is_wide_at_most(x.to_bits(), y.to_bits()), x <= y);
            assert_eq!(is_wide_same(x.to_bits(), y.to_bits()), x == y);
        }
    }
    assert_eq!(f64::from_bits(wide_negate(2.5f64.to_bits())), -2.5);
}

#[test]
fn integers_become_the_nearest_floats() {
    let near = [
        0u64,
        1,
        2,
        3,
        99,
        (1 << 53) - 1,
        1 << 53,
        (1 << 53) + 1,
        (1 << 53) + 2,
        (1 << 53) + 3,
        (1 << 54) + 2,
        (1 << 54) + 6,
        u64::MAX - 1024,
        u64::MAX - 1023,
        u64::MAX,
        1 << 63,
        0x8000_0000_0000_0400,
        0x8000_0000_0000_0c00,
    ];
    for &n in &near {
        assert_eq!(f64::from_bits(integer_to_double(n)), n as f64, "{n}");
    }
    for n in [0u32, 1, 5, 255, 65_537, 0x00ff_ffff, 0x0080_0000] {
        assert_eq!(f32::from_bits(small_integer_to_single(n)), n as f32, "{n}");
    }
}

#[test]
fn new_validates_dim() {
    let v = Vector::new(bits(&[1.0, 2.0, 3.0]), 3).unwrap();
    assert_eq!(v.dim(), 3);
    assert_eq!(v.as_slice(), bits(&[1.0, 2.0, 3.0]).as_slice());
    assert_eq!(v.len(), 3);
    assert!(!v.is_empty());
    assert_eq!(v.into_inner(), bits(&[1.0, 2.0, 3.0]));
}

#[test]
fn new_rejects_mismatched_dim() {
    let err = Vector::new(bits(&[1.0, 2.0]), 3).unwrap_err();
    assert_eq!(
        err,
        VexError::DimensionMismatch {
            expected: 3,
            actual: 2
        }
    );
}

#[test]
fn vector_id_traits() {
    let a = VectorId(1);
    let b = VectorId::from(1u64);
    assert_eq!(a, b);
    assert!(VectorId(1) < VectorId(2));
}

#[test]
fn ids_and_errors_as_text() {
    assert_eq!(VectorId(0).text(), "0");
    assert_eq!(VectorId(u64::MAX).text(), "18446744073709551615");
    assert_eq!(
        VexError::DuplicateId(VectorId(1070)).message(),
        "duplicate id: VectorId(1070)"
    );
    assert_eq!(VexError::InvalidK.message(), "invalid k: must be > 0");
}
