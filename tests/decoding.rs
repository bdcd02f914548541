use shape_predictor::{
    anchor, dlib_float, dlib_int, matrix, matrix_dimensions, parse_shape_predictor,
    regression_tree, shape_predictor, split_feature, vector2, version, Error, Real, SplitFeature,
    Vector2,
};

/// Encodes an integer as the wire format does: a control byte holding the
/// byte count and the sign, then the magnitude, most significant byte first.
fn enc_int(v: i64) -> Vec<u8> {
    let mag = v.unsigned_abs();
    let bytes: Vec<u8> = mag.to_be_bytes().iter().copied().skip_while(|b| *b == 0).collect();
    let mut out = vec![bytes.len() as u8 | if v < 0 { 0x80 } else { 0 }];
    out.extend(bytes);
    out
}

fn enc_float(m: i64, e: i64) -> Vec<u8> {
    let mut out = enc_int(m);
    out.extend(enc_int(e));
    out
}

fn rv(m: i64, e: i64) -> Real {
    Real { mantissa: m, exponent: e }
}

fn value(r: Real) -> f64 {
    r.mantissa as f64 * 2f64.powi(r.exponent as i32)
}

#[test]
fn int_positive_and_negative() {
    assert_eq!(dlib_int(&[0x01, 0x05], 0), Ok((5, 2)));
    assert_eq!(dlib_int(&[0x81, 0x05], 0), Ok((-5, 2)));
}

#[test]
fn int_multi_byte_is_big_endian() {
    assert_eq!(dlib_int(&[0x02, 0x01, 0x02], 0), Ok((258, 3)));
    assert_eq!(dlib_int(&[0x00], 0), Ok((0, 1)));
    assert_eq!(dlib_int(&enc_int(i64::MIN), 0), Ok((i64::MIN, 9)));
    assert_eq!(dlib_int(&enc_int(i64::MAX), 0), Ok((i64::MAX, 9)));
}

#[test]
fn int_errors() {
    assert_eq!(dlib_int(&[], 0), Err(Error::TruncatedInput(1)));
    assert_eq!(dlib_int(&[0x03, 0x01], 0), Err(Error::TruncatedInput(2)));
    assert_eq!(dlib_int(&[0x09, 0, 0, 0, 0, 0, 0, 0, 0, 0], 0), Err(Error::MalformedEncoding));
    let too_big = [0x08, 0x80, 0, 0, 0, 0, 0, 0, 0];
    assert_eq!(dlib_int(&too_big, 0), Err(Error::MalformedEncoding));
    let mut min_minus_one = vec![0x88, 0x80, 0, 0, 0, 0, 0, 0, 1];
    assert_eq!(dlib_int(&min_minus_one, 0), Err(Error::MalformedEncoding));
    min_minus_one[8] = 0;
    assert_eq!(dlib_int(&min_minus_one, 0), Ok((i64::MIN, 9)));
}

#[test]
fn float() {
    let bytes = enc_float(11, -1);
    let f = dlib_float(&bytes, 0).unwrap().0;
    assert_eq!(f, rv(11, -1));
    assert_eq!(value(f), 5.5);
}

#[test]
fn vec2() {
    let mut bytes = enc_float(1, 0);
    bytes.extend(enc_float(3, 0));
    let f = vector2(&bytes, 0).unwrap().0;
    assert_eq!(f, Vector2 { x: rv(1, 0), y: rv(3, 0) });
    assert_eq!((value(f.x), value(f.y)), (1.0, 3.0));
}

fn mat_bytes(rows: i64, cols: i64, n: i64) -> Vec<u8> {
    let mut bytes = enc_int(rows);
    bytes.extend(enc_int(cols));
    for i in 0..n {
        bytes.extend(enc_float(i, -2));
    }
    bytes
}

#[test]
fn mat4x4() {
    let bytes = mat_bytes(4, 4, 16);
    let f = matrix(&bytes, 0).unwrap().0;
    assert_eq!(f.data.len(), 16);
    assert_eq!((f.rows, f.cols), (4, 4));
}

#[test]
fn mat4x4_negated_dimensions() {
    let plain = matrix(&mat_bytes(4, 4, 16), 0).unwrap().0;
    let negated = matrix(&mat_bytes(-4, -4, 16), 0).unwrap().0;
    assert_eq!((negated.rows, negated.cols), (4, 4));
    assert_eq!(negated.data, plain.data);
}

#[test]
fn dimensions_with_mixed_signs_are_malformed() {
    let mut bytes = enc_int(4);
    bytes.extend(enc_int(-4));
    assert_eq!(matrix_dimensions(&bytes, 0), Err(Error::MalformedEncoding));
    let mut bytes = enc_int(0);
    bytes.extend(enc_int(-3));
    assert_eq!(matrix_dimensions(&bytes, 0), Ok(((0, 3), 3)));
}

#[test]
fn matrix_truncated_reports_missing_bytes() {
    let bytes = mat_bytes(2, 2, 3);
    let full = mat_bytes(2, 2, 4);
    assert_eq!(
        matrix(&bytes, 0).unwrap_err(),
        Error::TruncatedInput(1)
    );
    assert!(matrix(&full, 0).is_ok());
}

#[test]
fn split_and_anchor() {
    let mut bytes = enc_int(3);
    bytes.extend(enc_int(7));
    bytes.extend(enc_float(-5, 1));
    let (s, end) = split_feature(&bytes, 0).unwrap();
    assert_eq!(s, SplitFeature { idx1: 3, idx2: 7, thresh: rv(-5, 1) });
    assert_eq!(end, bytes.len());
    assert_eq!(anchor(&enc_int(-1), 0), Err(Error::MalformedEncoding));
    assert_eq!(anchor(&enc_int(12), 0), Ok((12, 2)));
}

#[test]
fn version_other_than_one_is_refused() {
    assert_eq!(version(&enc_int(1), 0), Ok((1, 2)));
    assert_eq!(version(&enc_int(2), 0), Err(Error::UnsupportedVersion(2)));
}

/// A tree of three splits over four features and four 2-element leaves.
pub fn tree_bytes() -> Vec<u8> {
    let mut b = enc_int(3);
    for (i1, i2, t) in [(0, 1, 3), (2, 3, 2), (1, 0, 0)] {
        b.extend(enc_int(i1));
        b.extend(enc_int(i2));
        b.extend(enc_float(t, 0));
    }
    b.extend(enc_int(4));
    for leaf in 0..4 {
        b.extend(mat_bytes_from(&[leaf, -leaf]));
    }
    b
}

fn mat_bytes_from(values: &[i64]) -> Vec<u8> {
    let mut b = enc_int(values.len() as i64);
    b.extend(enc_int(1));
    for v in values {
        b.extend(enc_float(*v, 0));
    }
    b
}

/// A model of one landmark pair (two landmarks), one stage of one tree and
/// four sample points.
fn model_bytes(version_number: i64) -> Vec<u8> {
    let mut b = enc_int(version_number);
    b.extend(mat_bytes_from(&[1, 2]));
    b.extend(enc_int(1));
    b.extend(enc_int(1));
    b.extend(tree_bytes());
    b.extend(enc_int(1));
    b.extend(enc_int(4));
    for a in [0, 0, 0, 0] {
        b.extend(enc_int(a));
    }
    b.extend(enc_int(1));
    b.extend(enc_int(4));
    for d in 0..4 {
        b.extend(enc_float(d, -3));
        b.extend(enc_float(-d, -3));
    }
    b
}

#[test]
fn regression_tree_decodes() {
    let bytes = tree_bytes();
    let (t, end) = regression_tree(&bytes, 0).unwrap();
    assert_eq!(end, bytes.len());
    assert_eq!(t.splits.len(), 3);
    assert_eq!(t.leaf_values.len(), 4);
    assert_eq!(t.leaf_values[3].data, vec![rv(3, 0), rv(-3, 0)]);
}

#[test]
fn predictor() {
    let bytes = model_bytes(1);
    let p = parse_shape_predictor(&bytes).unwrap();
    assert_eq!(p.initial_shape.data, vec![rv(1, 0), rv(2, 0)]);
    assert_eq!(p.forests.len(), 1);
    assert_eq!(p.forests[0].len(), 1);
    assert_eq!(p.anchor_idx, vec![vec![0, 0, 0, 0]]);
    assert_eq!(p.deltas[0][2], Vector2 { x: rv(2, -3), y: rv(-2, -3) });
    let (q, end) = shape_predictor(&bytes, 0).unwrap();
    assert_eq!(end, bytes.len());
    assert_eq!(q.deltas, p.deltas);
}

#[test]
fn predictor_errors() {
    assert_eq!(parse_shape_predictor(&model_bytes(2)).unwrap_err(), Error::UnsupportedVersion(2));
    let bytes = model_bytes(1);
    assert!(matches!(
        parse_shape_predictor(&bytes[..bytes.len() - 1]),
        Err(Error::TruncatedInput(_))
    ));
    // An anchor past the last landmark makes the model inconsistent.
    let mut bad = bytes.clone();
    let anchors_at = bad.len() - 34 - 1;
    assert_eq!(bad[anchors_at], 0x00);
    bad[anchors_at] = 0x01;
    bad.insert(anchors_at + 1, 5);
    assert_eq!(parse_shape_predictor(&bad).unwrap_err(), Error::MalformedEncoding);
}

#[test]
fn negated_dimension_beyond_i64_is_malformed() {
    let bytes = [
        0x01, 0x01, 0x88, 0x80, 0x00, 0x00, 0x00, 0x00, 0x00, 0x00, 0x00, 0x00, 0x00, 0x00,
    ];
    assert_eq!(bytes.len(), 14);
    assert_eq!(parse_shape_predictor(&bytes).unwrap_err(), Error::MalformedEncoding);
    assert_eq!(matrix_dimensions(&bytes, 2), Err(Error::MalformedEncoding));
    let mut largest = enc_int(-i64::MAX);
    largest.extend(enc_int(0));
    assert_eq!(matrix_dimensions(&largest, 0), Ok(((i64::MAX as u64, 0), 10)));
}
