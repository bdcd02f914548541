use shape_predictor::{deserialize, parse_shape_predictor, serialize, Error, ShapePredictor};

fn enc_int(v: i64) -> Vec<u8> {
    let mag = v.unsigned_abs();
    let bytes: Vec<u8> = mag.to_be_bytes().iter().copied().skip_while(|b| *b == 0).collect();
    let mut out = vec![bytes.len() as u8 | if v < 0 { 0x80 } else { 0 }];
    out.extend(bytes);
    out
}

fn enc_float(m: i64, e: i64) -> Vec<u8> {
    let mut out = enc_int(m);
    out.extend(enc_int(e));
    out
}

fn column(values: &[(i64, i64)]) -> Vec<u8> {
    let mut b = enc_int(values.len() as i64);
    b.extend(enc_int(1));
    for (m, e) in values {
        b.extend(enc_float(*m, *e));
    }
    b
}

/// Two landmarks, two stages; the second stage has two trees of one split.
fn sample_model() -> ShapePredictor {
    let mut b = enc_int(1);
    b.extend(column(&[(3, -1), (-7, 2), (i64::MAX, -40), (i64::MIN, 12)]));
    b.extend(enc_int(2));
    b.extend(enc_int(0));
    b.extend(enc_int(2));
    for t in 0..2 {
        b.extend(enc_int(1));
        b.extend(enc_int(t));
        b.extend(enc_int(1 - t));
        b.extend(enc_float(-3 * t, -1));
        b.extend(enc_int(2));
        b.extend(column(&[(1, 0), (2, 0), (3, 0), (4, t)]));
        b.extend(column(&[(-1, 0), (-2, 0), (-3, 0), (-4, t)]));
    }
    b.extend(enc_int(2));
    b.extend(enc_int(0));
    b.extend(enc_int(2));
    b.extend(enc_int(1));
    b.extend(enc_int(0));
    b.extend(enc_int(2));
    b.extend(enc_int(0));
    b.extend(enc_int(2));
    b.extend(enc_float(5, -3));
    b.extend(enc_float(-5, -3));
    b.extend(enc_float(0, 0));
    b.extend(enc_float(1, 1));
    parse_shape_predictor(&b).unwrap()
}

fn same(a: &ShapePredictor, b: &ShapePredictor) -> bool {
    let mats = |x: &shape_predictor::Matrix, y: &shape_predictor::Matrix| {
        x.rows == y.rows && x.cols == y.cols && x.data == y.data
    };
    mats(&a.initial_shape, &b.initial_shape)
        && a.anchor_idx == b.anchor_idx
        && a.deltas == b.deltas
        && a.forests.len() == b.forests.len()
        && a.forests.iter().zip(b.forests.iter()).all(|(f, g)| {
            f.len() == g.len()
                && f.iter().zip(g.iter()).all(|(s, t)| {
                    s.splits == t.splits
                        && s.leaf_values.len() == t.leaf_values.len()
                        && s.leaf_values.iter().zip(t.leaf_values.iter()).all(|(x, y)| mats(x, y))
                })
        })
}

#[test]
fn cache_round_trip() {
    let m = sample_model();
    let bytes = serialize(&m);
    assert_eq!(&bytes[..4], b"SPCH");
    let back = deserialize(&bytes).unwrap();
    assert!(same(&m, &back));
    assert_eq!(back.forests.len(), 2);
    assert_eq!(back.forests[1][1].leaf_values[1].data[3].exponent, 1);
    assert_eq!(back.initial_shape.data[3].mantissa, i64::MIN);
    assert_eq!(serialize(&back), bytes);
}

#[test]
fn cache_errors() {
    let bytes = serialize(&sample_model());
    assert_eq!(deserialize(&bytes[..2]).unwrap_err(), Error::TruncatedInput(2));
    let mut bad = bytes.clone();
    bad[1] = b'Q';
    assert_eq!(deserialize(&bad).unwrap_err(), Error::MalformedEncoding);
    let mut newer = bytes.clone();
    newer[12] = 2;
    assert_eq!(deserialize(&newer).unwrap_err(), Error::UnsupportedVersion(2));
    assert!(matches!(deserialize(&bytes[..bytes.len() - 3]), Err(Error::TruncatedInput(_))));
}

#[test]
fn empty_matrix_with_largest_dimension_round_trips() {
    let mut b = enc_int(1);
    b.extend(enc_int(-i64::MAX));
    b.extend(enc_int(0));
    b.extend([0x00, 0x00, 0x00]);
    let m = parse_shape_predictor(&b).unwrap();
    assert_eq!((m.initial_shape.rows, m.initial_shape.cols), (i64::MAX as u64, 0));
    let back = deserialize(&serialize(&m)).unwrap();
    assert!(same(&m, &back));
}
