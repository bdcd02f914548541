use shape_predictor::{
    exceeds, parse_shape_predictor, power_of_two, reflection_correction, regression_tree,
    sample_feature_values, Flip, LumaImage, Real, Sign,
};

fn enc_int(v: i64) -> Vec<u8> {
    let mag = v.unsigned_abs();
    let bytes: Vec<u8> = mag.to_be_bytes().iter().copied().skip_while(|b| *b == 0).collect();
    let mut out = vec![bytes.len() as u8 | if v < 0 { 0x80 } else { 0 }];
    out.extend(bytes);
    out
}

fn enc_float(m: i64, e: i64) -> Vec<u8> {
    let mut out = enc_int(m);
    out.extend(enc_int(e));
    out
}

fn leaf_bytes(values: &[i64]) -> Vec<u8> {
    let mut b = enc_int(values.len() as i64);
    b.extend(enc_int(1));
    for v in values {
        b.extend(enc_float(*v, 0));
    }
    b
}

/// Splits (0,1,>3), (2,3,>2), (1,0,>0); leaf `k` holds `(k, -k)`.
fn three_split_tree() -> Vec<u8> {
    let mut b = enc_int(3);
    for (i1, i2, t) in [(0, 1, 3), (2, 3, 2), (1, 0, 0)] {
        b.extend(enc_int(i1));
        b.extend(enc_int(i2));
        b.extend(enc_float(t, 0));
    }
    b.extend(enc_int(4));
    for k in 0..4 {
        b.extend(leaf_bytes(&[k, -k]));
    }
    b
}

fn r(m: i64, e: i64) -> Real {
    Real { mantissa: m, exponent: e }
}

#[test]
fn find_left_left_and_right_right() {
    let (tree, _) = regression_tree(&three_split_tree(), 0).unwrap();
    let mut i = 99;
    let leaf = tree.find(&[10, 0, 5, 0], &mut i);
    assert_eq!(i, 0);
    assert_eq!(leaf.data, tree.leaf_values[0].data);
    let leaf = tree.find(&[0, 0, 0, 0], &mut i);
    assert_eq!(i, 3);
    assert_eq!(leaf.data, vec![r(3, 0), r(-3, 0)]);
}

#[test]
fn find_ties_go_right() {
    let (tree, _) = regression_tree(&three_split_tree(), 0).unwrap();
    let mut i = 0;
    // 3 - 0 == 3: right to node 2; 0 - 3 > 0 fails: right again.
    tree.find(&[3, 0, 9, 0], &mut i);
    assert_eq!(i, 3);
    // 4 - 0 > 3: left; 2 - 0 == 2: right, to leaf 1.
    tree.find(&[4, 0, 2, 0], &mut i);
    assert_eq!(i, 1);
    // 0 - 1 <= 3: right; 1 - 0 > 0: left, to leaf 2.
    tree.find(&[0, 1, 0, 0], &mut i);
    assert_eq!(i, 2);
}

#[test]
fn exceeds_compares_exact_values() {
    assert!(exceeds(6, r(11, -1)));
    assert!(!exceeds(5, r(11, -1)));
    assert!(!exceeds(4, r(1, 2)));
    assert!(exceeds(5, r(1, 2)));
    assert!(exceeds(-255, r(-1, 40)));
    assert!(!exceeds(255, r(1, 9)));
    assert!(exceeds(1, r(i64::MAX, -100)));
    assert!(!exceeds(-1, r(i64::MIN, -100)));
    assert!(exceeds(0, r(-1, -3)));
    assert!(!exceeds(0, r(0, -3)));
    assert!(exceeds(1, r(0, 5)));
}

#[test]
fn out_of_bounds_samples_are_zero() {
    let img = LumaImage::new(3, 2, vec![1, 2, 3, 4, 5, 6]).unwrap();
    let points = vec![(0, 0), (2, 1), (1, 1), (3, 0), (0, 2), (-1, 0), (0, -1), (i64::MAX, i64::MIN)];
    assert_eq!(sample_feature_values(&img, &points), vec![1, 6, 5, 0, 0, 0, 0, 0]);
    assert_eq!(img.luma_intensity(2, 0), 3);
    assert_eq!((img.width(), img.height()), (3, 2));
}

#[test]
fn image_size_must_match() {
    assert!(LumaImage::new(3, 2, vec![0; 5]).is_none());
    assert!(LumaImage::new(0, 7, vec![]).is_some());
}

#[test]
fn powers_of_two() {
    assert!(power_of_two(1));
    assert!(power_of_two(64));
    assert!(!power_of_two(0));
    assert!(!power_of_two(12));
}

#[test]
fn reflection_flip_choice() {
    assert_eq!(reflection_correction(Sign::Positive, true, true), Flip::Neither);
    assert_eq!(reflection_correction(Sign::Zero, false, true), Flip::Neither);
    assert_eq!(reflection_correction(Sign::Negative, false, true), Flip::First);
    assert_eq!(reflection_correction(Sign::Negative, false, false), Flip::Second);
    assert_eq!(reflection_correction(Sign::Zero, true, true), Flip::First);
    assert_eq!(reflection_correction(Sign::Zero, true, false), Flip::Second);
}

#[test]
fn stage_leaves_follow_each_tree() {
    let mut b = enc_int(1);
    b.extend(leaf_bytes(&[1, 2]));
    b.extend(enc_int(1));
    b.extend(enc_int(2));
    b.extend(three_split_tree());
    b.extend(three_split_tree());
    b.extend(enc_int(1));
    b.extend(enc_int(4));
    for _ in 0..4 {
        b.extend(enc_int(0));
    }
    b.extend(enc_int(1));
    b.extend(enc_int(4));
    for _ in 0..4 {
        b.extend(enc_float(0, 0));
        b.extend(enc_float(0, 0));
    }
    let model = parse_shape_predictor(&b).unwrap();
    assert_eq!(model.stage_leaf_indices(0, &[10, 0, 5, 0]), vec![0, 0]);
    assert_eq!(model.stage_leaf_indices(0, &[0, 1, 0, 0]), vec![2, 2]);
}
