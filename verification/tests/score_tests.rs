use r2deob::score::{Score, SCALE};

#[test]
fn score_test() {
    // the fixed-point unit SCALE stands for 1.0, so 0.96875 is 930000000,
    // 0.6 is 576000000, 0.875 is 840000000 and their mean is 782000000
    assert_eq!(Score::HammingDistance(930000000), Score::hamming_distance(3, 5));
    assert_eq!(Score::AbsDistance(576000000), Score::abs_distance(3, 5));
    assert_eq!(Score::RangeDistance(840000000), Score::range_distance(3, 5));
    assert_eq!(Score::Combined(782000000), Score::combined(3, 5));
    assert_eq!(
        Score::Combined(SCALE),
        Score::get(&vec![1, 2, 3, 4, 5, 6, 7, 8], &vec![1, 2, 3, 4, 5, 6, 7, 8])
    );
    assert_eq!(Score::RangeDistance(SCALE), Score::range_distance(3, 3));
    assert_eq!(Score::HammingDistance(SCALE), Score::hamming_distance(3, 3));
    assert_eq!(Score::AbsDistance(SCALE), Score::abs_distance(3, 3));
}

#[test]
fn perfect_score_only_on_equal_columns() {
    let truth = vec![4, 5, 6];
    assert_eq!(Score::get(&vec![4, 5, 6], &truth), Score::Combined(SCALE));
    match Score::get(&vec![4, 5, 7], &truth) {
        Score::Combined(x) => assert!(x < SCALE),
        other => panic!("unexpected score {:?}", other),
    }
}

#[test]
fn empty_columns_score_zero() {
    assert_eq!(Score::get(&vec![], &vec![]), Score::Combined(0));
    assert_eq!(Score::get(&vec![], &vec![1, 2]), Score::Combined(0));
}

#[test]
fn metrics_on_signed_values() {
    // equal negatives are a perfect ratio; mixed signs and lone zeros score 0
    assert_eq!(Score::abs_distance(-7, -7), Score::AbsDistance(SCALE));
    assert_eq!(Score::abs_distance(-3, 5), Score::AbsDistance(0));
    assert_eq!(Score::abs_distance(0, 5), Score::AbsDistance(0));
    assert_eq!(Score::abs_distance(0, 0), Score::AbsDistance(SCALE));
    assert_eq!(Score::hamming_distance(-1, -1), Score::HammingDistance(SCALE));
    // -1 and 0 differ in every bit and every byte
    assert_eq!(Score::hamming_distance(-1, 0), Score::HammingDistance(0));
    assert_eq!(Score::range_distance(-1, 0), Score::RangeDistance(0));
}

#[test]
fn default_score_is_unknown() {
    assert_eq!(Score::default(), Score::Unknown);
}

#[test]
fn byte_prefix_counts_agreeing_bytes() {
    // 0x0102 and 0x0103 agree on 7 of 8 little-endian bytes
    assert_eq!(Score::range_distance(0x0102, 0x0103), Score::RangeDistance(SCALE / 8 * 7));
}
