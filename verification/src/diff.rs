//! Radius translation across length buckets: given the query's length,
//! a bucket's key and the query radius, how far a bucket entry may sit.

use vstd::prelude::*;
use vstd::string::StrSliceExecFns;

verus! {

/// The percent scale shared with the string distances.
pub const MAX_PERCENT_DIST: usize = 100;

/// Bucket key of a string: its length in characters.
pub fn word_len(word: String) -> (r: usize)
    ensures
        r == word@.len(),
{
    word.as_str().unicode_len()
}

/// How many times `c` occurs in `s`.
pub open spec fn count_char(s: Seq<char>, c: char) -> nat
    decreases s.len(),
{
    if s.len() == 0 {
        0
    } else {
        count_char(s.drop_last(), c) + (if s.last() == c {
            1nat
        } else {
            0nat
        })
    }
}

/// Bucket key of a sentence: its space-separated fields, counted with
/// the empty ones, so one more than its spaces.
pub fn sentence_len(sentence: String) -> (r: usize)
    requires
        sentence@.len() < usize::MAX,
    ensures
        r == count_char(sentence@, ' ') + 1,
{
    let s = sentence.as_str();
    let n = s.unicode_len();
    let mut count: usize = 0;
    let mut i: usize = 0;
    while i < n
        invariant
            i <= n,
            n == s@.len(),
            s@ == sentence@,
            count <= i,
            count == count_char(sentence@.take(i as int), ' '),
        decreases n - i,
    {
        proof {
            assert(sentence@.take(i + 1).drop_last() =~= sentence@.take(i as int));
            assert(sentence@.take(i + 1).last() == sentence@[i as int]);
        }
        if s.get_char(i) == ' ' {
            count = count + 1;
        }
        i = i + 1;
    }
    proof {
        assert(sentence@.take(n as int) =~= sentence@);
    }
    count + 1
}

/// The Jaccard family's bucket radius: the ratio-based inflation
/// `100 - 100 * (less - r) / (more + r)`, with the difference floored at
/// zero, and zero when both bucket and radius are empty.
pub open spec fn j_diff_spec(length: nat, key: nat, dist: nat) -> nat {
    let more = if length >= key {
        length
    } else {
        key
    };
    let less = if length >= key {
        key
    } else {
        length
    };
    if more + dist == 0 {
        0
    } else {
        let shrunk = if less >= dist {
            less - dist
        } else {
            0
        };
        (100 - (100 * shrunk) / (more + dist as int)) as nat
    }
}

/// Bucket radius of the Jaccard metrics.
pub fn j_diff(length: usize, key: usize, dist: usize) -> (r: usize)
    ensures
        r == j_diff_spec(length as nat, key as nat, dist as nat),
        r <= MAX_PERCENT_DIST,
{
    let more = if length >= key {
        length
    } else {
        key
    };
    let less = if length >= key {
        key
    } else {
        length
    };
    if more == 0 && dist == 0 {
        return 0;
    }
    let shrunk: u128 = if less >= dist {
        (less - dist) as u128
    } else {
        0
    };
    let denom: u128 = more as u128 + dist as u128;
    proof {
        assert(shrunk <= denom);
        crate::dist::lemma_scaled_ratio_le(100, shrunk as int, denom as int);
    }
    let q: u128 = (100u128 * shrunk) / denom;
    (100u128 - q) as usize
}

/// The edit-distance bucket radius: the length gap plus the radius,
/// saturating rather than wrapping.
pub open spec fn l_diff_spec(length: nat, key: nat, dist: nat) -> nat {
    let gap = if length >= key {
        length - key
    } else {
        key - length
    };
    if gap + dist > usize::MAX {
        usize::MAX as nat
    } else {
        (gap + dist) as nat
    }
}

/// Bucket radius of the edit distances.
pub fn l_diff(length: usize, key: usize, dist: usize) -> (r: usize)
    ensures
        r == l_diff_spec(length as nat, key as nat, dist as nat),
{
    let gap = if length > key {
        length - key
    } else {
        key - length
    };
    if gap <= usize::MAX - dist {
        gap + dist
    } else {
        usize::MAX
    }
}

/// The Jaro bucket radius: the radius grown by a third, weighted by the
/// length ratio, saturating rather than wrapping.
pub open spec fn jaro_diff_spec(length: nat, key: nat, dist: nat) -> nat {
    let more = if length >= key {
        length
    } else {
        key
    };
    let less = if length >= key {
        key
    } else {
        length
    };
    if more == 0 {
        dist
    } else {
        let extra = (dist as int * less as int) / (3 * more as int);
        if dist + extra > usize::MAX {
            usize::MAX as nat
        } else {
            (dist + extra) as nat
        }
    }
}

/// Bucket radius of the Jaro metric.
pub fn jaro_diff(length: usize, key: usize, dist: usize) -> (r: usize)
    ensures
        r == jaro_diff_spec(length as nat, key as nat, dist as nat),
{
    let more = if length >= key {
        length
    } else {
        key
    };
    let less = if length >= key {
        key
    } else {
        length
    };
    if more == 0 {
        return dist;
    }
    proof {
        assert((dist as int) * (less as int) <= u128::MAX) by (nonlinear_arith)
            requires
                0 <= dist <= usize::MAX,
                0 <= less <= usize::MAX,
        ;
        assert((dist as int) * (less as int) <= (dist as int) * (3 * more as int))
            by (nonlinear_arith)
            requires
                0 < more,
                less <= more,
                0 <= dist,
        ;
        vstd::arithmetic::div_mod::lemma_div_is_ordered(
            (dist as int) * (less as int),
            (dist as int) * (3 * more as int),
            3 * more as int,
        );
        vstd::arithmetic::div_mod::lemma_div_multiples_vanish(dist as int, 3 * more as int);
        assert((3 * more as int) * (dist as int) == (dist as int) * (3 * more as int))
            by (nonlinear_arith);
        vstd::arithmetic::div_mod::lemma_div_pos_is_pos((dist as int) * (less as int), 3 * (
        more as int));
    }
    let extra: u128 = (dist as u128 * less as u128) / (3 * more as u128);
    proof {
        assert(extra <= dist as u128);
    }
    let extra_us: usize = extra as usize;
    if dist <= usize::MAX - extra_us {
        dist + extra_us
    } else {
        usize::MAX
    }
}

/// Bucket radius of the Hamming metric: unchanged, because buckets only
/// matter when the lengths already agree.
pub fn hex_ham_diff(length: usize, key: usize, dist: usize) -> (r: usize)
    ensures
        r == dist,
{
    let _ = length;
    let _ = key;
    dist
}

} // verus!
