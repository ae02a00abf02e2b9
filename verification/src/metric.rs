//! The pluggable metric of a sharded graph: a distance function, a
//! bucket-key projection, and a cross-bucket radius translation.

use crate::bkdist::{hex_ham_dist, hex_ham_spec, jac_dist, jaro_dist, jaro_spec, l_dist, mod_j_dist};
use crate::bknode::Dist;
use crate::diff::{
    count_char, hex_ham_diff, j_diff, j_diff_spec, jaro_diff, jaro_diff_spec, l_diff, l_diff_spec,
    sentence_len, word_len,
};
use crate::dist::{jaccard_spec, lev_spec, mod_jaccard_spec};
use crate::word_function::{
    lev_fuzzy_words, lev_words, word_bigram_j_dist, word_bigram_spec, word_fuzzy_l_dist,
    word_l_dist, words_spec,
};
use vstd::prelude::*;

verus! {

/// The longest word any of the string metrics accepts: a machine limit
/// of the Jaro arithmetic, far beyond any real input.
pub const MAX_METRIC_LEN: usize = 0x0FFF_FFFF;

/// One of the predefined string metrics: each variant bundles a
/// distance function, a bucket-key projection and a radius translation.
#[derive(Clone, Copy, PartialEq, Eq, Structural)]
pub enum _Metric {
    /// Set-based Jaccard distance over characters.
    Jaccard,
    /// Occurrence-counting Jaccard distance over characters.
    ModifiedJaccard,
    /// Character-level edit distance.
    Levenshtein,
    /// Jaro distance.
    Jaro,
    /// Bitwise Hamming distance over hexadecimal digests.
    HexHamming,
    /// Jaccard distance over adjacent word pairs.
    WordBigramJaccard,
    /// Word-level edit distance.
    WordLevenshtein,
    /// Word-level edit distance with fuzzily-compared words.
    WordFuzzyLevenshtein,
}

pub type Metric = _Metric;

impl _Metric {
    /// The set-based Jaccard metric.
    pub fn jac_dist() -> (m: _Metric)
        ensures
            m == _Metric::Jaccard,
    {
        _Metric::Jaccard
    }

    /// The occurrence-counting Jaccard metric.
    pub fn mod_j_dist() -> (m: _Metric)
        ensures
            m == _Metric::ModifiedJaccard,
    {
        _Metric::ModifiedJaccard
    }

    /// The character edit-distance metric.
    pub fn l_dist() -> (m: _Metric)
        ensures
            m == _Metric::Levenshtein,
    {
        _Metric::Levenshtein
    }

    /// The Jaro metric.
    pub fn jaro_dist() -> (m: _Metric)
        ensures
            m == _Metric::Jaro,
    {
        _Metric::Jaro
    }

    /// The hexadecimal Hamming metric.
    pub fn hex_ham_dist() -> (m: _Metric)
        ensures
            m == _Metric::HexHamming,
    {
        _Metric::HexHamming
    }

    /// The word-bigram Jaccard metric.
    pub fn word_bigram_j_dist() -> (m: _Metric)
        ensures
            m == _Metric::WordBigramJaccard,
    {
        _Metric::WordBigramJaccard
    }

    /// The word-level edit-distance metric.
    pub fn word_l_dist() -> (m: _Metric)
        ensures
            m == _Metric::WordLevenshtein,
    {
        _Metric::WordLevenshtein
    }

    /// The fuzzy word-level edit-distance metric.
    pub fn word_fuzzy_l_dist() -> (m: _Metric)
        ensures
            m == _Metric::WordFuzzyLevenshtein,
    {
        _Metric::WordFuzzyLevenshtein
    }

    /// The distance between two strings under this metric.
    pub open spec fn function_spec(self, a: Seq<char>, b: Seq<char>) -> nat {
        match self {
            _Metric::Jaccard => jaccard_spec(a, b, 100),
            _Metric::ModifiedJaccard => mod_jaccard_spec(a, b, 100),
            _Metric::Levenshtein => lev_spec::<char>(a, b),
            _Metric::Jaro => jaro_spec(a, b),
            _Metric::HexHamming => if a.len() == 0 && b.len() == 0 {
                0
            } else {
                hex_ham_spec(a, b)
            },
            _Metric::WordBigramJaccard => word_bigram_spec(a, b),
            _Metric::WordLevenshtein => lev_words(words_spec(a), words_spec(b)),
            _Metric::WordFuzzyLevenshtein => lev_fuzzy_words(words_spec(a), words_spec(b)),
        }
    }

    /// The distance function of the metric.
    pub fn function(&self, first: String, second: String) -> (r: usize)
        requires
            first@.len() <= MAX_METRIC_LEN,
            second@.len() <= MAX_METRIC_LEN,
        ensures
            r == self.function_spec(first@, second@),
    {
        match self {
            _Metric::Jaccard => jac_dist(first, second),
            _Metric::ModifiedJaccard => mod_j_dist(first, second),
            _Metric::Levenshtein => l_dist(first, second),
            _Metric::Jaro => jaro_dist(first, second),
            _Metric::HexHamming => {
                if first.as_str().is_empty() && second.as_str().is_empty() {
                    // two empty digests count as identical in the metric bundle
                    0
                } else {
                    hex_ham_dist(first, second)
                }
            },
            _Metric::WordBigramJaccard => word_bigram_j_dist(first, second),
            _Metric::WordLevenshtein => word_l_dist(first, second),
            _Metric::WordFuzzyLevenshtein => word_fuzzy_l_dist(first, second),
        }
    }

    /// The bucket key of a string under this metric: characters for the
    /// character metrics, space-separated fields for the word metrics.
    pub open spec fn len_spec(self, a: Seq<char>) -> nat {
        match self {
            _Metric::WordBigramJaccard | _Metric::WordLevenshtein
                | _Metric::WordFuzzyLevenshtein => count_char(a, ' ') + 1,
            _ => a.len(),
        }
    }

    /// The bucket-key projection of the metric.
    pub fn len(&self, word: String) -> (r: usize)
        requires
            word@.len() < usize::MAX,
        ensures
            r == self.len_spec(word@),
    {
        match self {
            _Metric::WordBigramJaccard | _Metric::WordLevenshtein
                | _Metric::WordFuzzyLevenshtein => sentence_len(word),
            _ => word_len(word),
        }
    }

    /// The translated radius for a bucket under this metric.
    pub open spec fn diff_spec(self, length: nat, key: nat, dist: nat) -> nat {
        match self {
            _Metric::Jaccard | _Metric::ModifiedJaccard | _Metric::WordBigramJaccard => j_diff_spec(
                length,
                key,
                dist,
            ),
            _Metric::Levenshtein | _Metric::WordLevenshtein
                | _Metric::WordFuzzyLevenshtein => l_diff_spec(length, key, dist),
            _Metric::Jaro => jaro_diff_spec(length, key, dist),
            _Metric::HexHamming => dist,
        }
    }

    /// The radius translation of the metric.
    pub fn diff(&self, length: usize, key: usize, dist: usize) -> (r: usize)
        ensures
            r == self.diff_spec(length as nat, key as nat, dist as nat),
    {
        match self {
            _Metric::Jaccard | _Metric::ModifiedJaccard | _Metric::WordBigramJaccard => j_diff(
                length,
                key,
                dist,
            ),
            _Metric::Levenshtein | _Metric::WordLevenshtein
                | _Metric::WordFuzzyLevenshtein => l_diff(length, key, dist),
            _Metric::Jaro => jaro_diff(length, key, dist),
            _Metric::HexHamming => hex_ham_diff(length, key, dist),
        }
    }
}

impl Default for _Metric {
    /// The default metric is the plain edit distance.
    fn default() -> (m: _Metric)
        ensures
            m == _Metric::Levenshtein,
    {
        _Metric::Levenshtein
    }
}

impl Dist<String> for _Metric {
    open spec fn dist_spec(&self, a: Seq<char>, b: Seq<char>) -> nat {
        self.function_spec(a, b)
    }

    open spec fn word_ok(&self, a: Seq<char>) -> bool {
        a.len() <= MAX_METRIC_LEN
    }

    fn dist(&self, a: &String, b: &String) -> (d: usize) {
        self.function(a.clone(), b.clone())
    }
}

} // verus!
