//! Distance functions over character strings, on the percent scale.

use crate::dist::{
    bit_of, convert_hex_spec, convert_str, hex_digit, hex_val, jaccard_scaled, jaccard_spec,
    lev_spec, levenshtein_dist, mod_jaccard_spec, modified_jaccard_scaled,
};
use vstd::prelude::*;

verus! {

/// The percent scale of the string distances.
pub const MAX_PERCENT_DIST: usize = 100;

/// The sentinel distance of the hexadecimal Hamming metric.
pub const MAX_HEX_HAM_DIST: usize = 256;

/// Modified Jaccard distance between two strings, as a percentage:
/// greedy single-use matching of character occurrences.  Two empty
/// strings are identical; one empty string is as far as possible.
pub fn mod_j_dist(first: String, second: String) -> (r: usize)
    ensures
        r == mod_jaccard_spec(first@, second@, MAX_PERCENT_DIST as nat),
{
    let fc = convert_str(first.as_str());
    let sc = convert_str(second.as_str());
    modified_jaccard_scaled(fc, sc, MAX_PERCENT_DIST)
}

/// Set-based Jaccard distance between two strings, as a percentage.
pub fn jac_dist(first: String, second: String) -> (r: usize)
    ensures
        r == jaccard_spec(first@, second@, MAX_PERCENT_DIST as nat),
{
    let fc = convert_str(first.as_str());
    let sc = convert_str(second.as_str());
    jaccard_scaled(fc, sc, MAX_PERCENT_DIST)
}

/// Edit distance between two strings, counted in characters.
pub fn l_dist(first: String, second: String) -> (r: usize)
    requires
        first@.len() < usize::MAX,
        second@.len() < usize::MAX,
    ensures
        r == lev_spec(first@, second@),
{
    let fc = convert_str(first.as_str());
    let sc = convert_str(second.as_str());
    levenshtein_dist(fc, sc)
}

/// The bitwise mismatches of two strings of hexadecimal digits, eight
/// bits per digit pair, walking the strings from the end.  Positions
/// where either character is no hexadecimal digit contribute nothing.
pub open spec fn hex_ham_pairs(a: Seq<char>, b: Seq<char>) -> nat
    decreases a.len(),
{
    if a.len() == 0 || b.len() == 0 {
        0
    } else {
        hex_ham_pairs(a.drop_last(), b.drop_last()) + (match (
            hex_val(a.last()),
            hex_val(b.last()),
        ) {
            (Some(h1), Some(h2)) => xor_bits(h1, h2, 8),
            _ => 0nat,
        })
    }
}

/// How many of the low `n` bits differ between `h1` and `h2`.
pub open spec fn xor_bits(h1: u32, h2: u32, n: u32) -> nat
    decreases n,
{
    if n == 0 {
        0
    } else {
        xor_bits(h1, h2, (n - 1) as u32) + (if bit_of(h1, (n - 1) as u32) == bit_of(
            h2,
            (n - 1) as u32,
        ) {
            0nat
        } else {
            1nat
        })
    }
}

/// Hamming distance of two equal-length hexadecimal digests: the count
/// of differing bits over eight bits per digit.  Empty or unequal-length
/// inputs sit at the fixed maximum.
pub open spec fn hex_ham_spec(a: Seq<char>, b: Seq<char>) -> nat {
    if a.len() == 0 || b.len() == 0 || a.len() != b.len() {
        MAX_HEX_HAM_DIST as nat
    } else {
        hex_ham_pairs(a, b)
    }
}



/// Hamming distance over hexadecimal digests, compared bitwise with
/// eight bits per digit; case-insensitive because digits are compared by
/// value.
pub fn hex_ham_dist(first: String, second: String) -> (r: usize)
    requires
        first@.len() <= 0x0FFF_FFFF,
    ensures
        r == hex_ham_spec(first@, second@),
{
    let fc = convert_str(first.as_str());
    let sc = convert_str(second.as_str());

    if fc.len() == 0 || sc.len() == 0 {
        return MAX_HEX_HAM_DIST;
    }
    if fc.len() != sc.len() {
        return MAX_HEX_HAM_DIST;
    }

    let len = fc.len();
    let mut sum: usize = 0;
    let mut i: usize = 0;
    while i < len
        invariant
            i <= len,
            len == first@.len(),
            len == second@.len(),
            len <= 0x0FFF_FFFF,
            fc@ == first@,
            sc@ == second@,
            sum == hex_ham_pairs(first@.take(i as int), second@.take(i as int)),
            sum <= 8 * i,
        decreases len - i,
    {
        proof {
            assert(first@.take(i + 1).drop_last() =~= first@.take(i as int));
            assert(second@.take(i + 1).drop_last() =~= second@.take(i as int));
            assert(first@.take(i + 1).last() == first@[i as int]);
            assert(second@.take(i + 1).last() == second@[i as int]);
        }
        match hex_digit(fc[i]) {
            Some(h1) => {
                match hex_digit(sc[i]) {
                    Some(h2) => {
                        let mut b: u32 = 0;
                        let mut pair_sum: usize = 0;
                        while b < 8
                            invariant
                                b <= 8,
                                pair_sum <= b,
                                pair_sum == xor_bits(h1, h2, b),
                            decreases 8 - b,
                        {
                            if (h1 >> b) & 1 != (h2 >> b) & 1 {
                                pair_sum = pair_sum + 1;
                            }
                            b = b + 1;
                        }
                        sum = sum + pair_sum;
                    },
                    None => {},
                }
            },
            None => {},
        }
        i = i + 1;
    }
    proof {
        assert(first@.take(len as int) =~= first@);
        assert(second@.take(len as int) =~= second@);
    }
    sum
}

/// One try of the Jaro matching pass: position `s` of `b` is claimed
/// when it is in range, holds the character sought, and is still free.
pub open spec fn jaro_try(ms: Seq<usize>, a: Seq<char>, b: Seq<char>, i: int, s: int) -> Seq<
    usize,
> {
    if 0 <= s < b.len() && s <= usize::MAX && b[s] == a[i] && !ms.contains(s as usize) {
        ms.push(s as usize)
    } else {
        ms
    }
}

/// The inner pass for character `i` of `a`: offsets `j` up to the half
/// window, looking right at `i + j` and then left at `i - j`.
pub open spec fn jaro_inner(
    ms: Seq<usize>,
    a: Seq<char>,
    b: Seq<char>,
    i: int,
    j: int,
    half: int,
) -> Seq<usize>
    decreases half - j,
{
    if j >= half {
        ms
    } else {
        let m1 = jaro_try(ms, a, b, i, i + j);
        let m2 = if i >= j {
            jaro_try(m1, a, b, i, i - j)
        } else {
            m1
        };
        jaro_inner(m2, a, b, i, j + 1, half)
    }
}

/// The outer pass: every character of `a` in turn.
pub open spec fn jaro_outer(
    ms: Seq<usize>,
    a: Seq<char>,
    b: Seq<char>,
    i: int,
    half: int,
) -> Seq<usize>
    decreases a.len() - i,
{
    if i >= a.len() {
        ms
    } else {
        jaro_outer(jaro_inner(ms, a, b, i, 0, half), a, b, i + 1, half)
    }
}

/// The half-length search window, rounded up.
pub open spec fn jaro_half(l1: int) -> int {
    l1 / 2 + l1 % 2
}

/// The matched positions of `b`, in the order the matching pass claims
/// them; `a` is the longer string.
pub open spec fn jaro_matches(a: Seq<char>, b: Seq<char>) -> Seq<usize> {
    jaro_outer(Seq::empty(), a, b, 0, jaro_half(a.len() as int))
}

/// How often a claimed position precedes a smaller one: the
/// transposition count of the match list.
pub open spec fn trans_count(ms: Seq<usize>) -> nat
    decreases ms.len(),
{
    if ms.len() < 2 {
        0
    } else {
        trans_count(ms.drop_last()) + (if ms[ms.len() - 2] > ms[ms.len() - 1] {
            1nat
        } else {
            0nat
        })
    }
}

proof fn lemma_trans_count_le(ms: Seq<usize>)
    ensures
        trans_count(ms) <= ms.len(),
    decreases ms.len(),
{
    if ms.len() >= 2 {
        lemma_trans_count_le(ms.drop_last());
    }
}

/// The percent distance from the classic three-term Jaro average,
/// with ceiling rounding: `m` matches and `t` transpositions between
/// strings of `l1` and `l2` characters.
pub open spec fn jaro_formula(l1: int, l2: int, m: int, t: int) -> nat {
    let num = 100 * (m * m * l2 + m * m * l1 + (m - t) * l1 * l2);
    let den = 3 * l1 * l2 * m;
    (100 - num / den) as nat
}

/// Jaro distance with `a` at least as long as `b`.
pub open spec fn jaro_core(a: Seq<char>, b: Seq<char>) -> nat {
    if a.len() == 0 && b.len() == 0 {
        0
    } else if a.len() == 0 || b.len() == 0 {
        MAX_PERCENT_DIST as nat
    } else {
        let ms = jaro_matches(a, b);
        if ms.len() == 0 {
            MAX_PERCENT_DIST as nat
        } else {
            jaro_formula(a.len() as int, b.len() as int, ms.len() as int, trans_count(ms) as int)
        }
    }
}

/// Jaro distance as a percentage, made symmetric in its arguments by
/// running the matching pass with the longer string first.
pub open spec fn jaro_spec(a: Seq<char>, b: Seq<char>) -> nat {
    if a.len() >= b.len() {
        jaro_core(a, b)
    } else {
        jaro_core(b, a)
    }
}

/// A run of distinct indices below `n` cannot be longer than `n`.
proof fn lemma_distinct_bounded_len(ms: Seq<usize>, n: int)
    requires
        0 <= n,
        forall|p: int| 0 <= p < ms.len() ==> (#[trigger] ms[p]) < n,
        forall|p: int, q: int| 0 <= p < q < ms.len() ==> ms[p] != ms[q],
    ensures
        ms.len() <= n,
{
    let msi = ms.map_values(|x: usize| x as int);
    assert(msi.no_duplicates()) by {
        assert forall|p: int, q: int| 0 <= p < q < msi.len() implies #[trigger] msi[p]
            != #[trigger] msi[q] by {
            assert(ms[p] != ms[q]);
        }
    }
    msi.unique_seq_to_set();
    assert(msi.to_set().subset_of(vstd::set_lib::set_int_range(0, n))) by {
        assert forall|x: int| msi.to_set().contains(x) implies vstd::set_lib::set_int_range(
            0,
            n,
        ).contains(x) by {
            let p = choose|p: int| 0 <= p < msi.len() && msi[p] == x;
            assert(ms[p] < n);
        }
    }
    vstd::set_lib::lemma_int_range(0, n);
    vstd::set_lib::lemma_len_subset(msi.to_set(), vstd::set_lib::set_int_range(0, n));
}

/// Whether the index already appears in the match list.
fn contains_idx(v: &Vec<usize>, x: usize) -> (b: bool)
    ensures
        b == v@.contains(x),
{
    let mut i: usize = 0;
    while i < v.len()
        invariant
            i <= v@.len(),
            forall|k: int| 0 <= k < i ==> v@[k] != x,
        decreases v@.len() - i,
    {
        if v[i] == x {
            assert(v@[i as int] == x);
            return true;
        }
        i = i + 1;
    }
    false
}

/// Jaro distance between two strings, as a percentage with ceiling
/// rounding: matching characters are sought within a half-length window
/// and discounted by transpositions among the matches.
pub fn jaro_dist(first: String, second: String) -> (r: usize)
    requires
        first@.len() <= 0x7FFF_FFFF,
        second@.len() <= 0x7FFF_FFFF,
    ensures
        r == jaro_spec(first@, second@),
{
    let fc = convert_str(first.as_str());
    let sc = convert_str(second.as_str());

    if fc.len() == 0 && sc.len() == 0 {
        return 0;
    }
    if fc.len() == 0 || sc.len() == 0 {
        return MAX_PERCENT_DIST;
    }

    // run the matching pass with the longer string first
    let swap = fc.len() < sc.len();
    let (a, b) = if swap {
        (sc, fc)
    } else {
        (fc, sc)
    };
    proof {
        if swap {
            assert(jaro_spec(first@, second@) == jaro_core(a@, b@));
        } else {
            assert(jaro_spec(first@, second@) == jaro_core(a@, b@));
        }
    }

    let len1 = a.len();
    let len2 = b.len();
    let half = len1 / 2 + len1 % 2;
    let mut matches: Vec<usize> = Vec::new();

    let mut i: usize = 0;
    while i < len1
        invariant
            i <= len1,
            len1 == a@.len(),
            len2 == b@.len(),
            1 <= len2 <= len1 <= 0x7FFF_FFFF,
            half == jaro_half(len1 as int),
            half <= len1,
            jaro_outer(matches@, a@, b@, i as int, half as int) == jaro_matches(a@, b@),
            forall|p: int| 0 <= p < matches@.len() ==> (#[trigger] matches@[p]) < len2,
            forall|p: int, q: int| 0 <= p < q < matches@.len() ==> matches@[p] != matches@[q],
        decreases len1 - i,
    {
        let mut j: usize = 0;
        while j < half
            invariant
                j <= half,
                i < len1,
                len1 == a@.len(),
                len2 == b@.len(),
                1 <= len2 <= len1 <= 0x7FFF_FFFF,
                half == jaro_half(len1 as int),
                half <= len1,
                jaro_outer(
                    jaro_inner(matches@, a@, b@, i as int, j as int, half as int),
                    a@,
                    b@,
                    i as int + 1,
                    half as int,
                ) == jaro_matches(a@, b@),
                forall|p: int| 0 <= p < matches@.len() ==> (#[trigger] matches@[p]) < len2,
                forall|p: int, q: int| 0 <= p < q < matches@.len() ==> matches@[p] != matches@[q],
            decreases half - j,
        {
            let ghost ms0 = matches@;
            let sum = i + j;
            if sum < len2 && b[sum] == a[i] && !contains_idx(&matches, sum) {
                matches.push(sum);
            }
            proof {
                assert(matches@ == jaro_try(ms0, a@, b@, i as int, i as int + j as int));
            }
            let ghost ms1 = matches@;
            if i >= j {
                let diff = i - j;
                if diff < len2 && b[diff] == a[i] && !contains_idx(&matches, diff) {
                    matches.push(diff);
                }
                proof {
                    assert(matches@ == jaro_try(ms1, a@, b@, i as int, i as int - j as int));
                }
            }
            proof {
                assert(jaro_inner(ms0, a@, b@, i as int, j as int, half as int) == jaro_inner(
                    matches@,
                    a@,
                    b@,
                    i as int,
                    j as int + 1,
                    half as int,
                ));
            }
            j = j + 1;
        }
        i = i + 1;
    }
    proof {
        assert(matches@ == jaro_matches(a@, b@));
    }

    let m = matches.len();
    if m == 0 {
        return MAX_PERCENT_DIST;
    }

    let mut t: usize = 0;
    let mut k: usize = 1;
    proof {
        assert(trans_count(matches@.take(1)) == 0);
    }
    while k < m
        invariant
            1 <= k <= m,
            m == matches@.len(),
            t < k,
            t == trans_count(matches@.take(k as int)),
        decreases m - k,
    {
        proof {
            let p = matches@.take(k + 1);
            assert(p.drop_last() =~= matches@.take(k as int));
            assert(p[p.len() - 2] == matches@[k - 1]);
            assert(p[p.len() - 1] == matches@[k as int]);
            lemma_trans_count_le(matches@.take(k as int));
        }
        if matches[k - 1] > matches[k] {
            t = t + 1;
        }
        k = k + 1;
    }
    proof {
        assert(matches@.take(m as int) =~= matches@);
        lemma_distinct_bounded_len(matches@, len2 as int);
        lemma_trans_count_le(matches@);
    }

    // exact integer form of ceil(100 * (1 - (m/l1 + m/l2 + (m-t)/m)/3))
    let l1: u128 = len1 as u128;
    let l2: u128 = len2 as u128;
    let mu: u128 = m as u128;
    let tu: u128 = t as u128;
    proof {
        assert(1 <= mu && mu <= l2 && l2 <= l1 && l1 <= 0x1_0000_0000u128 && tu <= mu);
        assert(mu * mu <= 0x1_0000_0000u128 * 0x1_0000_0000u128) by (nonlinear_arith)
            requires
                mu <= 0x1_0000_0000u128,
        ;
    }
    let m2: u128 = mu * mu;
    proof {
        assert(m2 * l2 <= 0x1_0000_0000u128 * 0x1_0000_0000u128 * 0x1_0000_0000u128)
            by (nonlinear_arith)
            requires
                m2 <= 0x1_0000_0000u128 * 0x1_0000_0000u128,
                l2 <= 0x1_0000_0000u128,
        ;
        assert(m2 * l1 <= 0x1_0000_0000u128 * 0x1_0000_0000u128 * 0x1_0000_0000u128)
            by (nonlinear_arith)
            requires
                m2 <= 0x1_0000_0000u128 * 0x1_0000_0000u128,
                l1 <= 0x1_0000_0000u128,
        ;
    }
    let term1: u128 = m2 * l2;
    let term2: u128 = m2 * l1;
    let md: u128 = mu - tu;
    proof {
        assert(md * l1 * l2 <= 0x1_0000_0000u128 * 0x1_0000_0000u128 * 0x1_0000_0000u128)
            by (nonlinear_arith)
            requires
                md <= 0x1_0000_0000u128,
                l1 <= 0x1_0000_0000u128,
                l2 <= 0x1_0000_0000u128,
        ;
        assert(md * l1 <= 0x1_0000_0000u128 * 0x1_0000_0000u128) by (nonlinear_arith)
            requires
                md <= 0x1_0000_0000u128,
                l1 <= 0x1_0000_0000u128,
        ;
        assert(l1 * l2 <= 0x1_0000_0000u128 * 0x1_0000_0000u128) by (nonlinear_arith)
            requires
                l1 <= 0x1_0000_0000u128,
                l2 <= 0x1_0000_0000u128,
        ;
        assert(3 * l1 * l2 <= 3 * 0x1_0000_0000u128 * 0x1_0000_0000u128) by (nonlinear_arith)
            requires
                l1 <= 0x1_0000_0000u128,
                l2 <= 0x1_0000_0000u128,
        ;
        assert(3 * l1 * l2 * mu <= 3 * 0x1_0000_0000u128 * 0x1_0000_0000u128
            * 0x1_0000_0000u128) by (nonlinear_arith)
            requires
                3 * l1 * l2 <= 3 * 0x1_0000_0000u128 * 0x1_0000_0000u128,
                mu <= 0x1_0000_0000u128,
        ;
    }
    let term3: u128 = md * l1 * l2;
    let num: u128 = 100 * (term1 + term2 + term3);
    let den: u128 = 3 * l1 * l2 * mu;
    proof {
        assert(num <= 100 * den) by (nonlinear_arith)
            requires
                1 <= mu <= l2 <= l1,
                tu <= mu,
                term1 == mu * mu * l2,
                term2 == mu * mu * l1,
                term3 == (mu - tu) * l1 * l2,
                num == 100 * (term1 + term2 + term3),
                den == 3 * l1 * l2 * mu,
        ;
        assert(den >= 1) by (nonlinear_arith)
            requires
                1 <= mu && 1 <= l1 && 1 <= l2,
                den == 3 * l1 * l2 * mu,
        ;
        vstd::arithmetic::div_mod::lemma_div_is_ordered(num as int, 100 * den as int, den as int);
        vstd::arithmetic::div_mod::lemma_div_multiples_vanish(100, den as int);
        assert((den as int) * 100 == 100 * (den as int)) by (nonlinear_arith);
    }
    let q: u128 = num / den;
    proof {
        assert(q <= 100);
    }
    let r: usize = (100 - q) as usize;
    proof {
        assert(term1 + term2 + term3 == mu * mu * l2 + mu * mu * l1 + (mu - tu) * l1 * l2);
        assert(r == jaro_formula(len1 as int, len2 as int, m as int, t as int));
    }
    r
}

} // verus!
