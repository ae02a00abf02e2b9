//! The predefined metric bundles: distance function and radius
//! translation of each.

use bkstring::metric::Metric;

#[test]
fn make_jac_dist() {
    let foo = Metric::jac_dist();
    assert_eq!(foo.function("".to_string(), "".to_string()), 0);
    assert_eq!(foo.diff(0, 0, 0), 0);
}

#[test]
fn make_mod_j_dist() {
    let foo = Metric::mod_j_dist();
    assert_eq!(foo.function("".to_string(), "".to_string()), 0);
    assert_eq!(foo.diff(0, 0, 0), 0);
}

#[test]
fn make_l_dist() {
    let foo = Metric::l_dist();
    assert_eq!(foo.function("".to_string(), "".to_string()), 0);
    assert_eq!(foo.diff(0, 0, 0), 0);
}

#[test]
fn make_jaro_dist() {
    let foo = Metric::jaro_dist();
    assert_eq!(foo.function("".to_string(), "".to_string()), 0);
    assert_eq!(foo.diff(0, 0, 0), 0);
}

#[test]
fn make_hex_ham_dist_dist() {
    let foo = Metric::hex_ham_dist();
    assert_eq!(foo.function("".to_string(), "".to_string()), 0);
    assert_eq!(foo.diff(0, 0, 0), 0);
}

#[test]
fn make_word_bigram_j_dist() {
    let foo = Metric::word_bigram_j_dist();
    assert_eq!(foo.function("".to_string(), "".to_string()), 0);
    assert_eq!(foo.diff(0, 0, 0), 0);
}

#[test]
fn make_word_l_dist() {
    let foo = Metric::word_l_dist();
    assert_eq!(foo.function("".to_string(), "".to_string()), 0);
    assert_eq!(foo.diff(0, 0, 0), 0);
}

#[test]
fn make_word_fuzzy_l_dist() {
    let foo = Metric::word_fuzzy_l_dist();
    assert_eq!(foo.function("".to_string(), "".to_string()), 0);
    assert_eq!(foo.diff(0, 0, 0), 0);
}

#[test]
fn metric_len_projections() {
    assert_eq!(Metric::l_dist().len("fat lazy cat".to_string()), 12);
    assert_eq!(Metric::word_l_dist().len("fat lazy cat".to_string()), 3);
    assert_eq!(Metric::word_l_dist().len("".to_string()), 1);
}

#[test]
fn metric_diff_translations() {
    // the length gap inflates the edit radius
    assert_eq!(Metric::l_dist().diff(3, 5, 1), 3);
    // the Hamming radius passes through unchanged
    assert_eq!(Metric::hex_ham_dist().diff(3, 5, 7), 7);
    // the ratio-based Jaccard translation at a sample point
    assert_eq!(Metric::jac_dist().diff(4, 4, 1), 40);
    // the Jaro translation grows the radius by a third of the ratio
    assert_eq!(Metric::jaro_dist().diff(6, 3, 30), 35);
}
