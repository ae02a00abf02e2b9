//! The sentence-level distances.

use bkstring::word_function::{word_bigram_j_dist, word_fuzzy_l_dist, word_l_dist};

const MAX_PERCENT_DIST: usize = 100;

#[test]
fn test_word_bigram_j_dist_edges() {
    assert_eq!(word_bigram_j_dist("".to_string(), "".to_string()), 0);
    assert_eq!(word_bigram_j_dist("".to_string(), "fat lazy cat".to_string()), MAX_PERCENT_DIST);
    assert_eq!(word_bigram_j_dist("fat lazy cat".to_string(), "".to_string()), MAX_PERCENT_DIST);
}

#[test]
fn test_word_bigram_j_dist_sample() {
    assert_eq!(word_bigram_j_dist("fat lazy cat".to_string(), "fuzzy lazy cat".to_string()), 67);
    assert_eq!(
        word_bigram_j_dist("fat furry lazy cat".to_string(), "fluffy furry lazy cat".to_string()),
        50
    );
}

#[test]
fn test_word_bigram_j_dist_reverse() {
    assert_eq!(
        word_bigram_j_dist("foo bar baz".to_string(), "baz bar foo".to_string()),
        MAX_PERCENT_DIST
    );
}

#[test]
fn test_word_bigram_j_dist_equal() {
    assert_eq!(word_bigram_j_dist("foo bar baz".to_string(), "foo bar baz".to_string()), 0);
}

#[test]
fn test_word_bigram_j_dist_dup() {
    assert_eq!(
        word_bigram_j_dist("foo foo foo bar baz".to_string(), "foo foo bar baz".to_string()),
        0
    );
}

#[test]
fn test_word_l_dist_edges() {
    assert_eq!(word_l_dist("".to_string(), "".to_string()), 0);
    assert_eq!(word_l_dist("".to_string(), "fat lazy cat".to_string()), 3);
    assert_eq!(word_l_dist("fat lazy cat".to_string(), "".to_string()), 3);
}

#[test]
fn test_word_fuzzy_l_dist_edges() {
    assert_eq!(word_fuzzy_l_dist("".to_string(), "".to_string()), 0);
    assert_eq!(word_fuzzy_l_dist("".to_string(), "fat lazy cat".to_string()), 3);
    assert_eq!(word_fuzzy_l_dist("fat lazy cat".to_string(), "".to_string()), 3);
}

#[test]
fn test_word_fuzzy_l_dist_zeros() {
    assert_eq!(word_fuzzy_l_dist("foo bar baz".to_string(), "foo bar baz".to_string()), 0);
    assert_eq!(word_fuzzy_l_dist("food bar baz".to_string(), "foo bar baz".to_string()), 0);
}

#[test]
fn test_word_l_dist_zeros() {
    assert_eq!(word_l_dist("foo bar baz".to_string(), "foo bar baz".to_string()), 0);
}

#[test]
fn test_word_l_dist_reversible() {
    assert_eq!(
        word_l_dist("foo bar baz".to_string(), "the other thing".to_string()),
        word_l_dist("the other thing".to_string(), "foo bar baz".to_string())
    );
}

#[test]
fn test_word_fuzzy_l_dist_reversible() {
    assert_eq!(
        word_fuzzy_l_dist("foo bar baz".to_string(), "the other thing".to_string()),
        word_fuzzy_l_dist("the other thing".to_string(), "foo bar baz".to_string())
    );
}

#[test]
fn test_word_l_dist_sample() {
    assert_eq!(word_l_dist("fat lazy cat".to_string(), "fuzzy lazy cat".to_string()), 1);
    assert_eq!(
        word_l_dist("fat furry lazy cat".to_string(), "fluffy furry lazy cat".to_string()),
        1
    );
}

#[test]
fn test_word_fuzzy_l_dist_sample() {
    assert_eq!(word_fuzzy_l_dist("fatt lazy cat".to_string(), "fuzzy lazy cat".to_string()), 1);
    assert_eq!(
        word_fuzzy_l_dist("fat furrry lazy cat".to_string(), "fluffy furry lazy cat".to_string()),
        1
    );
    assert_eq!(word_fuzzy_l_dist("fat lazy cat".to_string(), "fuzzy lazy cat".to_string()), 1);
    assert_eq!(
        word_fuzzy_l_dist("fat furry lazy cat".to_string(), "fluffy furry lazy cat".to_string()),
        1
    );
}
