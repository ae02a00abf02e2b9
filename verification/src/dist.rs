//! Distance functions over symbol vectors, generic in the symbol type.

use crate::bknode::{Dist, Word};
use crate::symbol::{contains_eqv, eqv_equivalence, eqv_symmetric, eqv_transitive, LawfulSym, SymEq};
use vstd::pervasive::VecAdditionalExecFns;
use vstd::prelude::*;

verus! {

/// The percent scale used by the set-based distances in this module.
pub const MAX_PERCENT_DIST: usize = 1_000_000;

/// The edge-case wrapper shared by the distance functions: both inputs
/// empty yields `minimum`, exactly one empty yields `maximum`, and two
/// non-empty inputs are handed to `func`.
pub fn run_func<T, F: Fn(Vec<T>, Vec<T>) -> usize>(
    func: &F,
    first: Vec<T>,
    second: Vec<T>,
    minimum: usize,
    maximum: usize,
) -> (r: usize)
    requires
        first@.len() > 0 && second@.len() > 0 ==> call_requires(*func, (first, second)),
    ensures
        first@.len() == 0 && second@.len() == 0 ==> r == minimum,
        (first@.len() == 0) != (second@.len() == 0) ==> r == maximum,
        first@.len() > 0 && second@.len() > 0 ==> call_ensures(*func, (first, second), r),
{
    let len1 = first.len();
    let len2 = second.len();

    if len1 == 0 && len2 == 0 {
        return minimum;
    }
    if len1 == 0 || len2 == 0 {
        return maximum;
    }
    func(first, second)
}

/// A distance that scores every pair as zero.
pub fn function<T>(_a: Vec<T>, _b: Vec<T>) -> (r: usize)
    ensures
        r == 0,
{
    0
}

/// The smaller of two lengths or distances.
fn min_len(a: usize, b: usize) -> (r: usize)
    ensures
        r == if a <= b { a as int } else { b as int },
{
    if a <= b {
        a
    } else {
        b
    }
}

/// The larger of two lengths or distances.
fn max_len(a: usize, b: usize) -> (r: usize)
    ensures
        r == if a >= b { a as int } else { b as int },
{
    if a >= b {
        a
    } else {
        b
    }
}

/// The smallest of three candidate costs.
pub open spec fn min3(x: nat, y: nat, z: nat) -> nat {
    if x <= y && x <= z {
        x
    } else if y <= z {
        y
    } else {
        z
    }
}

/// Classic edit distance: the least number of symbol insertions,
/// deletions and substitutions turning `a` into `b`, stated by its
/// standard recurrence over the final symbols.
pub open spec fn lev_spec<T: SymEq>(a: Seq<T>, b: Seq<T>) -> nat
    decreases a.len() + b.len(),
{
    if a.len() == 0 {
        b.len()
    } else if b.len() == 0 {
        a.len()
    } else {
        let s: nat = if T::eqv(a.last(), b.last()) {
            0
        } else {
            1
        };
        min3(
            lev_spec(a.drop_last(), b) + 1,
            lev_spec(a, b.drop_last()) + 1,
            lev_spec(a.drop_last(), b.drop_last()) + s,
        )
    }
}

/// Edit distance never exceeds the longer input.
pub proof fn lemma_lev_le_max<T: SymEq>(a: Seq<T>, b: Seq<T>)
    ensures
        lev_spec(a, b) <= if a.len() >= b.len() {
            a.len()
        } else {
            b.len()
        },
    decreases a.len() + b.len(),
{
    if a.len() == 0 || b.len() == 0 {
    } else {
        lemma_lev_le_max(a.drop_last(), b);
        lemma_lev_le_max(a, b.drop_last());
        lemma_lev_le_max(a.drop_last(), b.drop_last());
    }
}

/// Edit distance is symmetric whenever the symbol relation is.
pub proof fn lemma_lev_symmetric<T: SymEq>(a: Seq<T>, b: Seq<T>)
    requires
        eqv_symmetric::<T>(),
    ensures
        lev_spec(a, b) == lev_spec(b, a),
    decreases a.len() + b.len(),
{
    if a.len() == 0 || b.len() == 0 {
    } else {
        lemma_lev_symmetric(a.drop_last(), b);
        lemma_lev_symmetric(a, b.drop_last());
        lemma_lev_symmetric(a.drop_last(), b.drop_last());
        assert(T::eqv(a.last(), b.last()) == T::eqv(b.last(), a.last()));
    }
}

/// Edit distance is bounded by the total length of both inputs.
pub proof fn lemma_lev_le_sum<T: SymEq>(a: Seq<T>, b: Seq<T>)
    ensures
        lev_spec(a, b) <= a.len() + b.len(),
    decreases a.len() + b.len(),
{
    if a.len() == 0 || b.len() == 0 {
    } else {
        lemma_lev_le_sum(a.drop_last(), b);
        lemma_lev_le_sum(a, b.drop_last());
        lemma_lev_le_sum(a.drop_last(), b.drop_last());
    }
}

/// Edit distance is at least the length gap of its inputs.
pub proof fn lemma_lev_ge_diff<T: SymEq>(a: Seq<T>, b: Seq<T>)
    ensures
        lev_spec(a, b) + a.len() >= b.len(),
        lev_spec(a, b) + b.len() >= a.len(),
    decreases a.len() + b.len(),
{
    if a.len() == 0 || b.len() == 0 {
    } else {
        lemma_lev_ge_diff(a.drop_last(), b);
        lemma_lev_ge_diff(a, b.drop_last());
        lemma_lev_ge_diff(a.drop_last(), b.drop_last());
    }
}

/// Shortening the second input by one symbol changes the edit distance
/// by at most one.
proof fn lemma_lev_drop_second<T: SymEq>(a: Seq<T>, b: Seq<T>)
    requires
        b.len() > 0,
    ensures
        lev_spec(a, b.drop_last()) <= lev_spec(a, b) + 1,
    decreases a.len() + b.len(),
{
    if a.len() == 0 {
    } else if b.len() == 1 {
        lemma_lev_ge_diff(a, b);
        assert(b.drop_last().len() == 0);
    } else {
        // each branch that can realise lev(a, b) bounds lev(a, b')
        lemma_lev_drop_second(a.drop_last(), b);
        if lev_spec(a, b) == lev_spec(a.drop_last(), b) + 1 {
            assert(lev_spec(a, b.drop_last()) <= lev_spec(a.drop_last(), b.drop_last()) + 1);
        }
    }
}

/// The triangle inequality of the edit distance: editing through a
/// midpoint never beats editing directly.
pub proof fn lemma_lev_triangle<T: SymEq>(a: Seq<T>, b: Seq<T>, c: Seq<T>)
    requires
        eqv_symmetric::<T>(),
        eqv_transitive::<T>(),
    ensures
        lev_spec(a, c) <= lev_spec(a, b) + lev_spec(b, c),
    decreases a.len() + b.len() + c.len(),
{
    if b.len() == 0 {
        lemma_lev_le_sum(a, c);
    } else if a.len() == 0 {
        lemma_lev_ge_diff(b, c);
    } else if c.len() == 0 {
        lemma_lev_ge_diff(a, b);
    } else {
        let ab = lev_spec(a, b);
        let bc = lev_spec(b, c);
        if ab == lev_spec(a.drop_last(), b) + 1 {
            lemma_lev_triangle(a.drop_last(), b, c);
            assert(lev_spec(a, c) <= lev_spec(a.drop_last(), c) + 1);
        } else if ab == lev_spec(a, b.drop_last()) + 1 {
            lemma_lev_triangle(a, b.drop_last(), c);
            lemma_lev_symmetric(b.drop_last(), c);
            lemma_lev_symmetric(b, c);
            lemma_lev_drop_second(c, b);
            assert(lev_spec(b.drop_last(), c) <= lev_spec(b, c) + 1);
        } else {
            let s_ab: nat = if T::eqv(a.last(), b.last()) {
                0
            } else {
                1
            };
            assert(ab == lev_spec(a.drop_last(), b.drop_last()) + s_ab);
            if bc == lev_spec(b, c.drop_last()) + 1 {
                lemma_lev_triangle(a, b, c.drop_last());
                assert(lev_spec(a, c) <= lev_spec(a, c.drop_last()) + 1);
            } else if bc == lev_spec(b.drop_last(), c) + 1 {
                lemma_lev_triangle(a.drop_last(), b.drop_last(), c);
                assert(lev_spec(a, c) <= lev_spec(a.drop_last(), c) + 1);
            } else {
                let s_bc: nat = if T::eqv(b.last(), c.last()) {
                    0
                } else {
                    1
                };
                assert(bc == lev_spec(b.drop_last(), c.drop_last()) + s_bc);
                lemma_lev_triangle(a.drop_last(), b.drop_last(), c.drop_last());
                let s_ac: nat = if T::eqv(a.last(), c.last()) {
                    0
                } else {
                    1
                };
                if s_ab == 0 && s_bc == 0 {
                    assert(T::eqv(a.last(), c.last()));
                }
                assert(s_ac <= s_ab + s_bc);
                assert(lev_spec(a, c) <= lev_spec(a.drop_last(), c.drop_last()) + s_ac);
            }
        }
    }
}

/// Every symbol sequence is at edit distance zero of itself.
pub proof fn lemma_lev_reflexive<T: SymEq>(a: Seq<T>)
    requires
        crate::symbol::eqv_reflexive::<T>(),
    ensures
        lev_spec(a, a) == 0,
    decreases a.len(),
{
    if a.len() > 0 {
        lemma_lev_reflexive(a.drop_last());
        assert(T::eqv(a.last(), a.last()));
        lemma_lev_le_sum(a.drop_last(), a);
        lemma_lev_le_sum(a, a.drop_last());
    }
}

/// A row of zeroes.
fn zero_row(n: usize) -> (v: Vec<usize>)
    ensures
        v@.len() == n,
        forall|k: int| 0 <= k < n ==> v@[k] == 0,
{
    let mut v: Vec<usize> = Vec::new();
    let mut i: usize = 0;
    while i < n
        invariant
            i <= n,
            v@.len() == i,
            forall|k: int| 0 <= k < i ==> v@[k] == 0,
        decreases n - i,
    {
        v.push(0);
        i = i + 1;
    }
    v
}

/// Edit distance by dynamic programming over prefixes, one row per
/// prefix of `first`.
pub fn levenshtein_dist<T: SymEq>(first: Vec<T>, second: Vec<T>) -> (r: usize)
    requires
        first@.len() < usize::MAX,
        second@.len() < usize::MAX,
    ensures
        r == lev_spec(first@, second@),
{
    let first_len: usize = first.len();
    let second_len: usize = second.len();

    if first_len == 0 {
        return second_len;
    }
    if second_len == 0 {
        return first_len;
    }

    // row i holds the distances of first[..i] to every prefix of second
    let mut prev_row = zero_row(second_len + 1);
    let mut j: usize = 0;
    while j <= second_len
        invariant
            j <= second_len + 1,
            second_len < usize::MAX,
            prev_row@.len() == second_len + 1,
            second_len == second@.len(),
            forall|k: int| 0 <= k < j ==> prev_row@[k] == lev_spec(first@.take(0), second@.take(k)),
        decreases second_len + 1 - j,
    {
        prev_row.set(j, j);
        proof {
            assert(second@.take(j as int).len() == j);
            assert(lev_spec(first@.take(0), second@.take(j as int)) == j);
        }
        j = j + 1;
    }

    let mut i: usize = 1;
    while i <= first_len
        invariant
            1 <= i <= first_len + 1,
            first_len == first@.len(),
            second_len == second@.len(),
            first_len < usize::MAX,
            second_len < usize::MAX,
            prev_row@.len() == second_len + 1,
            forall|k: int|
                0 <= k <= second_len ==> prev_row@[k] == lev_spec(
                    first@.take(i - 1),
                    second@.take(k),
                ),
        decreases first_len + 1 - i,
    {
        let mut cur_row: Vec<usize> = Vec::new();
        cur_row.push(i);
        proof {
            assert(first@.take(i as int).len() == i);
            assert(lev_spec(first@.take(i as int), second@.take(0)) == i);
        }
        let mut j: usize = 1;
        while j <= second_len
            invariant
                1 <= j <= second_len + 1,
                1 <= i <= first_len,
                first_len == first@.len(),
                second_len == second@.len(),
                first_len < usize::MAX,
                second_len < usize::MAX,
                prev_row@.len() == second_len + 1,
                forall|k: int|
                    0 <= k <= second_len ==> prev_row@[k] == lev_spec(
                        first@.take(i - 1),
                        second@.take(k),
                    ),
                cur_row@.len() == j,
                forall|k: int|
                    0 <= k < j ==> cur_row@[k] == lev_spec(first@.take(i as int), second@.take(k)),
            decreases second_len + 1 - j,
        {
            let same = if first[i - 1].sym_eq(&second[j - 1]) {
                0
            } else {
                1
            };
            proof {
                lemma_lev_le_max(first@.take(i as int), second@.take(j - 1));
                lemma_lev_le_max(first@.take(i - 1), second@.take(j as int));
                lemma_lev_le_max(first@.take(i - 1), second@.take(j - 1));
            }
            let del = prev_row[j] + 1;
            let ins = cur_row[j - 1] + 1;
            let sub = prev_row[j - 1] + same;
            let best = min_len(min_len(del, ins), sub);
            cur_row.push(best);
            proof {
                let a = first@.take(i as int);
                let b = second@.take(j as int);
                assert(a.drop_last() =~= first@.take(i - 1));
                assert(b.drop_last() =~= second@.take(j - 1));
                assert(a.last() == first@[i - 1]);
                assert(b.last() == second@[j - 1]);
                assert(lev_spec(a, b) == min3(
                    lev_spec(first@.take(i - 1), b) + 1,
                    lev_spec(a, second@.take(j - 1)) + 1,
                    lev_spec(first@.take(i - 1), second@.take(j - 1)) + (
                    if T::eqv(first@[i - 1], second@[j - 1]) {
                        0nat
                    } else {
                        1nat
                    }),
                ));
                assert(best == lev_spec(a, b));
            }
            j = j + 1;
        }
        prev_row = cur_row;
        i = i + 1;
    }
    let r = prev_row[second_len];
    proof {
        assert(first@.take(first_len as int) =~= first@);
        assert(second@.take(second_len as int) =~= second@);
    }
    r
}

/// Whether any symbol of `v` matches `x`.
fn contains_sym<T: SymEq>(v: &Vec<T>, x: &T) -> (b: bool)
    ensures
        b == contains_eqv(v@, *x),
{
    let mut i: usize = 0;
    while i < v.len()
        invariant
            i <= v@.len(),
            forall|k: int| 0 <= k < i ==> !T::eqv(#[trigger] v@[k], *x),
        decreases v@.len() - i,
    {
        if v[i].sym_eq(x) {
            return true;
        }
        i = i + 1;
    }
    false
}

/// Membership survives appending a symbol, and an appended symbol is a
/// member exactly when it matches.
proof fn lemma_contains_push<T: SymEq>(s: Seq<T>, y: T, x: T)
    ensures
        contains_eqv(s.push(y), x) == (contains_eqv(s, x) || T::eqv(y, x)),
{
    if contains_eqv(s, x) {
        let i = choose|i: int| 0 <= i < s.len() && T::eqv(s[i], x);
        assert(s.push(y)[i] == s[i]);
    }
    if T::eqv(y, x) {
        assert(s.push(y)[s.len() as int] == y);
    }
    if contains_eqv(s.push(y), x) {
        let i = choose|i: int| 0 <= i < s.push(y).len() && T::eqv(s.push(y)[i], x);
        if i < s.len() {
            assert(s[i] == s.push(y)[i]);
        }
    }
}

/// The distinct symbols of `s`, in order of first occurrence.
pub open spec fn dedup_seq<T: SymEq>(s: Seq<T>) -> Seq<T>
    decreases s.len(),
{
    if s.len() == 0 {
        Seq::empty()
    } else {
        let d = dedup_seq(s.drop_last());
        if contains_eqv(s.drop_last(), s.last()) {
            d
        } else {
            d.push(s.last())
        }
    }
}

/// Deduplication keeps membership, when the relation is an equivalence.
proof fn lemma_dedup_contains<T: SymEq>(s: Seq<T>, x: T)
    requires
        eqv_equivalence::<T>(),
    ensures
        contains_eqv(dedup_seq(s), x) == contains_eqv(s, x),
    decreases s.len(),
{
    if s.len() == 0 {
    } else {
        let p = s.drop_last();
        lemma_dedup_contains(p, x);
        assert(s =~= p.push(s.last()));
        lemma_contains_push(p, s.last(), x);
        if contains_eqv(p, s.last()) {
            // the dropped duplicate is still represented in the prefix
            if T::eqv(s.last(), x) {
                let i = choose|i: int| 0 <= i < p.len() && T::eqv(p[i], s.last());
                assert(T::eqv(p[i], x));
                assert(contains_eqv(p, x));
            }
        } else {
            lemma_contains_push(dedup_seq(p), s.last(), x);
        }
    }
}

/// Deduplication never grows a sequence and keeps at least one symbol.
proof fn lemma_dedup_len<T: SymEq>(s: Seq<T>)
    ensures
        dedup_seq(s).len() <= s.len(),
        s.len() > 0 ==> dedup_seq(s).len() > 0,
    decreases s.len(),
{
    if s.len() == 0 {
    } else {
        lemma_dedup_len(s.drop_last());
    }
}

/// How many of the symbols of `s` occur in `t`.
pub open spec fn count_in<T: SymEq>(s: Seq<T>, t: Seq<T>) -> nat
    decreases s.len(),
{
    if s.len() == 0 {
        0
    } else {
        count_in(s.drop_last(), t) + (if contains_eqv(t, s.last()) {
            1nat
        } else {
            0nat
        })
    }
}

/// How many of the symbols of `s` are missing from `t`.
pub open spec fn count_not_in<T: SymEq>(s: Seq<T>, t: Seq<T>) -> nat
    decreases s.len(),
{
    if s.len() == 0 {
        0
    } else {
        count_not_in(s.drop_last(), t) + (if contains_eqv(t, s.last()) {
            0nat
        } else {
            1nat
        })
    }
}

proof fn lemma_count_in_le<T: SymEq>(s: Seq<T>, t: Seq<T>)
    ensures
        count_in(s, t) <= s.len(),
        count_not_in(s, t) <= s.len(),
    decreases s.len(),
{
    if s.len() == 0 {
    } else {
        lemma_count_in_le(s.drop_last(), t);
    }
}

/// Set-based Jaccard distance at the given percent scale: the scale
/// minus the scaled ratio of shared distinct symbols to distinct symbols
/// overall, rounded down.  Two empty inputs are identical; one empty
/// input is as far as possible.
pub open spec fn jaccard_spec<T: SymEq>(a: Seq<T>, b: Seq<T>, scale: nat) -> nat {
    if a.len() == 0 && b.len() == 0 {
        0
    } else if a.len() == 0 || b.len() == 0 {
        scale
    } else {
        let inter = count_in(dedup_seq(a), b);
        let union = dedup_seq(a).len() + count_not_in(dedup_seq(b), a);
        (scale - (scale * inter) / union) as nat
    }
}

/// The distinct symbols of `v`, in order of first occurrence.
fn dedup_syms<T: SymEq + Copy>(v: &Vec<T>) -> (r: Vec<T>)
    requires
        eqv_equivalence::<T>(),
    ensures
        r@ == dedup_seq(v@),
{
    let mut r: Vec<T> = Vec::new();
    let mut i: usize = 0;
    while i < v.len()
        invariant
            eqv_equivalence::<T>(),
            i <= v@.len(),
            r@ == dedup_seq(v@.take(i as int)),
        decreases v@.len() - i,
    {
        proof {
            assert(v@.take(i + 1).drop_last() =~= v@.take(i as int));
            assert(v@.take(i + 1).last() == v@[i as int]);
            lemma_dedup_contains(v@.take(i as int), v@[i as int]);
        }
        if !contains_sym(&r, &v[i]) {
            r.push(v[i]);
        }
        i = i + 1;
    }
    proof {
        assert(v@.take(v@.len() as int) =~= v@);
    }
    r
}

/// Set-based Jaccard distance over distinct symbols, scaled to a
/// millionth.
pub fn jaccard_dist<T: LawfulSym + Copy>(first: Vec<T>, second: Vec<T>) -> (r: usize)
    ensures
        r == jaccard_spec(first@, second@, MAX_PERCENT_DIST as nat),
{
    jaccard_scaled(first, second, MAX_PERCENT_DIST)
}

/// Set-based Jaccard distance at an arbitrary percent scale.
pub(crate) fn jaccard_scaled<T: LawfulSym + Copy>(first: Vec<T>, second: Vec<T>, scale: usize) -> (r:
    usize)
    ensures
        r == jaccard_spec(first@, second@, scale as nat),
{
    proof {
        T::laws();
    }
    let len1 = first.len();
    let len2 = second.len();
    if len1 == 0 && len2 == 0 {
        return 0;
    }
    if len1 == 0 || len2 == 0 {
        return scale;
    }

    let da = dedup_syms(&first);
    let db = dedup_syms(&second);

    let mut inter: usize = 0;
    let mut i: usize = 0;
    while i < da.len()
        invariant
            i <= da@.len(),
            inter <= i,
            inter == count_in(da@.take(i as int), second@),
        decreases da@.len() - i,
    {
        proof {
            assert(da@.take(i + 1).drop_last() =~= da@.take(i as int));
            assert(da@.take(i + 1).last() == da@[i as int]);
        }
        if contains_sym(&second, &da[i]) {
            inter = inter + 1;
        }
        i = i + 1;
    }

    let mut extra: usize = 0;
    let mut j: usize = 0;
    while j < db.len()
        invariant
            j <= db@.len(),
            extra <= j,
            extra == count_not_in(db@.take(j as int), first@),
        decreases db@.len() - j,
    {
        proof {
            assert(db@.take(j + 1).drop_last() =~= db@.take(j as int));
            assert(db@.take(j + 1).last() == db@[j as int]);
        }
        if !contains_sym(&first, &db[j]) {
            extra = extra + 1;
        }
        j = j + 1;
    }

    proof {
        assert(da@.take(da@.len() as int) =~= da@);
        assert(db@.take(db@.len() as int) =~= db@);
        lemma_dedup_len(first@);
        lemma_count_in_le(da@, second@);
    }
    let denom: u128 = da.len() as u128 + extra as u128;
    proof {
        assert(inter <= da@.len());
        assert(denom >= da@.len() as u128);
        lemma_scaled_ratio_le(scale as int, inter as int, denom as int);
    }
    proof {
        assert(denom >= 1);
        assert((scale as int) * (inter as int) <= u128::MAX) by (nonlinear_arith)
            requires
                0 <= scale <= usize::MAX,
                0 <= inter <= usize::MAX,
        ;
    }
    let scaled: u128 = (scale as u128 * inter as u128) / denom;
    proof {
        assert(scaled <= scale as u128);
    }
    let r: usize = (scale as u128 - scaled) as usize;
    r
}

/// A scaled ratio with the numerator bounded by the denominator stays
/// within the scale.
pub(crate) proof fn lemma_scaled_ratio_le(scale: int, num: int, den: int)
    requires
        0 <= scale,
        0 <= num <= den,
        1 <= den,
    ensures
        0 <= (scale * num) / den <= scale,
{
    assert(scale * num <= scale * den) by (nonlinear_arith)
        requires
            num <= den,
            0 <= scale,
    ;
    assert(0 <= scale * num) by (nonlinear_arith)
        requires
            0 <= scale,
            0 <= num,
    ;
    vstd::arithmetic::div_mod::lemma_div_is_ordered(scale * num, scale * den, den);
    vstd::arithmetic::div_mod::lemma_div_multiples_vanish(scale, den);
    assert(den * scale == scale * den) by (nonlinear_arith);
    vstd::arithmetic::div_mod::lemma_div_pos_is_pos(scale * num, den);
}

/// The remainder of `b` after the first symbol matching `x` is taken.
pub open spec fn remove_first_eqv<T: SymEq>(b: Seq<T>, x: T) -> Seq<T>
    decreases b.len(),
{
    if b.len() == 0 {
        b
    } else if T::eqv(b.first(), x) {
        b.drop_first()
    } else {
        seq![b.first()] + remove_first_eqv(b.drop_first(), x)
    }
}

/// Taking a match shortens the sequence by one.
proof fn lemma_remove_first_len<T: SymEq>(b: Seq<T>, x: T)
    requires
        contains_eqv(b, x),
    ensures
        remove_first_eqv(b, x).len() == b.len() - 1,
    decreases b.len(),
{
    if T::eqv(b.first(), x) {
    } else {
        let i = choose|i: int| 0 <= i < b.len() && T::eqv(b[i], x);
        assert(b.drop_first()[i - 1] == b[i]);
        lemma_remove_first_len(b.drop_first(), x);
    }
}

/// Removing the least matching index is taking the first match.
proof fn lemma_remove_first_at<T: SymEq>(b: Seq<T>, x: T, j: int)
    requires
        0 <= j < b.len(),
        T::eqv(b[j], x),
        forall|k: int| 0 <= k < j ==> !T::eqv(#[trigger] b[k], x),
    ensures
        remove_first_eqv(b, x) == b.remove(j),
    decreases j,
{
    if j == 0 {
        assert(remove_first_eqv(b, x) =~= b.remove(0));
    } else {
        lemma_remove_first_at(b.drop_first(), x, j - 1);
        assert(forall|k: int|
            0 <= k < j - 1 ==> b.drop_first()[k] == #[trigger] b[k + 1]);
        assert(remove_first_eqv(b, x) =~= b.remove(j));
    }
}

/// Greedy single-use matching: walking `a` from the front, each symbol
/// consumes the first still-unconsumed match in `b`.
pub open spec fn greedy_inter<T: SymEq>(a: Seq<T>, b: Seq<T>) -> nat
    decreases a.len(),
{
    if a.len() == 0 {
        0
    } else if contains_eqv(b, a.first()) {
        1 + greedy_inter(a.drop_first(), remove_first_eqv(b, a.first()))
    } else {
        greedy_inter(a.drop_first(), b)
    }
}

/// Greedy matching consumes at most all of either side.
pub proof fn lemma_greedy_le<T: SymEq>(a: Seq<T>, b: Seq<T>)
    ensures
        greedy_inter(a, b) <= a.len(),
        greedy_inter(a, b) <= b.len(),
    decreases a.len(),
{
    if a.len() == 0 {
    } else if contains_eqv(b, a.first()) {
        lemma_remove_first_len(b, a.first());
        lemma_greedy_le(a.drop_first(), remove_first_eqv(b, a.first()));
    } else {
        lemma_greedy_le(a.drop_first(), b);
    }
}

/// Modified Jaccard distance at the given scale: as the set-based form,
/// but each symbol occurrence counts once, through greedy consumption.
pub open spec fn mod_jaccard_spec<T: SymEq>(a: Seq<T>, b: Seq<T>, scale: nat) -> nat {
    if a.len() == 0 && b.len() == 0 {
        0
    } else if a.len() == 0 || b.len() == 0 {
        scale
    } else {
        let g = greedy_inter(a, b);
        let union = (a.len() + b.len() - g) as nat;
        (scale - (scale * g) / union) as nat
    }
}

/// First index of a symbol matching `x`, if any.
fn find_first_eqv<T: SymEq>(v: &Vec<T>, x: &T) -> (r: Option<usize>)
    ensures
        match r {
            Some(j) => j < v@.len() && T::eqv(v@[j as int], *x) && forall|k: int|
                0 <= k < j ==> !T::eqv(#[trigger] v@[k], *x),
            None => !contains_eqv(v@, *x),
        },
{
    let mut i: usize = 0;
    while i < v.len()
        invariant
            i <= v@.len(),
            forall|k: int| 0 <= k < i ==> !T::eqv(#[trigger] v@[k], *x),
        decreases v@.len() - i,
    {
        if v[i].sym_eq(x) {
            return Some(i);
        }
        i = i + 1;
    }
    None
}

/// Modified Jaccard distance over symbol occurrences, scaled to a
/// millionth: greedy single-use matching instead of set semantics.
pub fn modified_jaccard_dist<T: SymEq + Copy>(first: Vec<T>, second: Vec<T>) -> (r: usize)
    ensures
        r == mod_jaccard_spec(first@, second@, MAX_PERCENT_DIST as nat),
{
    modified_jaccard_scaled(first, second, MAX_PERCENT_DIST)
}

/// Modified Jaccard distance at an arbitrary percent scale.
pub(crate) fn modified_jaccard_scaled<T: SymEq + Copy>(
    first: Vec<T>,
    second: Vec<T>,
    scale: usize,
) -> (r: usize)
    ensures
        r == mod_jaccard_spec(first@, second@, scale as nat),
{
    let len1 = first.len();
    let len2 = second.len();
    if len1 == 0 && len2 == 0 {
        return 0;
    }
    if len1 == 0 || len2 == 0 {
        return scale;
    }

    let mut sec_copy: Vec<T> = Vec::new();
    let mut c: usize = 0;
    while c < second.len()
        invariant
            c <= second@.len(),
            sec_copy@ == second@.take(c as int),
        decreases second@.len() - c,
    {
        sec_copy.push(second[c]);
        proof {
            assert(sec_copy@ =~= second@.take(c + 1));
        }
        c = c + 1;
    }
    proof {
        assert(second@.take(second@.len() as int) =~= second@);
    }

    let mut intersect: usize = 0;
    let mut i: usize = 0;
    proof {
        assert(first@.skip(0) =~= first@);
    }
    while i < len1
        invariant
            i <= len1,
            len1 == first@.len(),
            len2 == second@.len(),
            intersect <= i,
            sec_copy@.len() + intersect == second@.len(),
            greedy_inter(first@, second@) == intersect + greedy_inter(
                first@.skip(i as int),
                sec_copy@,
            ),
        decreases len1 - i,
    {
        proof {
            assert(first@.skip(i as int).first() == first@[i as int]);
            assert(first@.skip(i as int).drop_first() =~= first@.skip(i + 1));
        }
        match find_first_eqv(&sec_copy, &first[i]) {
            Some(j) => {
                proof {
                    assert(contains_eqv(sec_copy@, first@[i as int]));
                    lemma_remove_first_at(sec_copy@, first@[i as int], j as int);
                    lemma_remove_first_len(sec_copy@, first@[i as int]);
                }
                sec_copy.remove(j);
                intersect = intersect + 1;
            },
            None => {
            },
        }
        i = i + 1;
    }
    proof {
        assert(first@.skip(len1 as int) =~= Seq::<T>::empty());
        assert(greedy_inter(first@, second@) == intersect);
    }

    let denom: u128 = len1 as u128 + (len2 - intersect) as u128;
    proof {
        assert(denom >= len1 as u128);
        assert(intersect <= len1);
        lemma_scaled_ratio_le(scale as int, intersect as int, denom as int);
    }
    proof {
        assert(denom >= 1);
        assert((scale as int) * (intersect as int) <= u128::MAX) by (nonlinear_arith)
            requires
                0 <= scale <= usize::MAX,
                0 <= intersect <= usize::MAX,
        ;
    }
    let scaled: u128 = (scale as u128 * intersect as u128) / denom;
    proof {
        assert(scaled <= scale as u128);
    }
    let r: usize = (scale as u128 - scaled) as usize;
    r
}

/// Count of positions whose symbols differ, walking the two sequences
/// from the end.
pub open spec fn mismatch_count<T: SymEq>(a: Seq<T>, b: Seq<T>) -> nat
    decreases a.len(),
{
    if a.len() == 0 || b.len() == 0 {
        0
    } else {
        mismatch_count(a.drop_last(), b.drop_last()) + (if T::eqv(a.last(), b.last()) {
            0nat
        } else {
            1nat
        })
    }
}

/// Hamming distance: position-wise mismatches for inputs of one length,
/// and the longer length as a sentinel otherwise (which also covers the
/// one-empty case; two empty inputs are at distance zero).
pub open spec fn hamming_spec<T: SymEq>(a: Seq<T>, b: Seq<T>) -> nat {
    if a.len() == b.len() {
        mismatch_count(a, b)
    } else if a.len() >= b.len() {
        a.len()
    } else {
        b.len()
    }
}

/// Mismatches never outnumber the positions.
pub proof fn lemma_mismatch_le<T: SymEq>(a: Seq<T>, b: Seq<T>)
    ensures
        mismatch_count(a, b) <= a.len(),
    decreases a.len(),
{
    if a.len() == 0 || b.len() == 0 {
    } else {
        lemma_mismatch_le(a.drop_last(), b.drop_last());
    }
}

/// The Hamming distance is symmetric whenever the symbol relation is.
pub proof fn lemma_hamming_symmetric<T: SymEq>(a: Seq<T>, b: Seq<T>)
    requires
        eqv_symmetric::<T>(),
    ensures
        hamming_spec(a, b) == hamming_spec(b, a),
{
    lemma_mismatch_symmetric(a, b);
}

proof fn lemma_mismatch_symmetric<T: SymEq>(a: Seq<T>, b: Seq<T>)
    requires
        eqv_symmetric::<T>(),
    ensures
        mismatch_count(a, b) == mismatch_count(b, a),
    decreases a.len(),
{
    if a.len() == 0 || b.len() == 0 {
    } else {
        lemma_mismatch_symmetric(a.drop_last(), b.drop_last());
        assert(T::eqv(a.last(), b.last()) == T::eqv(b.last(), a.last()));
    }
}

/// Hamming distance: the count of differing positions, or the longer
/// length when the lengths differ.
pub fn hamming_dist<T: SymEq>(first: Vec<T>, second: Vec<T>) -> (r: usize)
    ensures
        r == hamming_spec(first@, second@),
{
    let len1 = first.len();
    let len2 = second.len();

    if len1 != len2 {
        return max_len(len1, len2);
    }

    let mut count: usize = 0;
    let mut i: usize = 0;
    while i < len1
        invariant
            i <= len1,
            len1 == first@.len(),
            len1 == second@.len(),
            count <= i,
            count == mismatch_count(first@.take(i as int), second@.take(i as int)),
        decreases len1 - i,
    {
        if !first[i].sym_eq(&second[i]) {
            count = count + 1;
        }
        proof {
            let a = first@.take(i + 1);
            let b = second@.take(i + 1);
            assert(a.drop_last() =~= first@.take(i as int));
            assert(b.drop_last() =~= second@.take(i as int));
            assert(a.last() == first@[i as int]);
            assert(b.last() == second@[i as int]);
        }
        i = i + 1;
    }
    proof {
        assert(first@.take(len1 as int) =~= first@);
        assert(second@.take(len1 as int) =~= second@);
    }
    count
}

/// The value of a hexadecimal digit, upper or lower case.
pub open spec fn hex_val(c: char) -> Option<u32> {
    if '0' as u32 <= c as u32 && c as u32 <= '9' as u32 {
        Some((c as u32 - '0' as u32) as u32)
    } else if 'a' as u32 <= c as u32 && c as u32 <= 'f' as u32 {
        Some((c as u32 - 'a' as u32 + 10) as u32)
    } else if 'A' as u32 <= c as u32 && c as u32 <= 'F' as u32 {
        Some((c as u32 - 'A' as u32 + 10) as u32)
    } else {
        None
    }
}

/// The value of a hexadecimal digit, executable form.
pub fn hex_digit(c: char) -> (r: Option<u32>)
    ensures
        r == hex_val(c),
{
    let v = c as u32;
    if '0' as u32 <= v && v <= '9' as u32 {
        Some(v - '0' as u32)
    } else if 'a' as u32 <= v && v <= 'f' as u32 {
        Some(v - 'a' as u32 + 10)
    } else if 'A' as u32 <= v && v <= 'F' as u32 {
        Some(v - 'A' as u32 + 10)
    } else {
        None
    }
}

/// Bit `i` of `v`.
pub open spec fn bit_of(v: u32, i: u32) -> u32 {
    (v >> i) & 1
}

/// The low eight bits of a digit value, least significant first.
pub open spec fn bits_le(v: u32) -> Seq<u32> {
    Seq::new(8, |i: int| bit_of(v, i as u32))
}

/// The characters of a string slice, as a vector.
pub fn convert_str(word: &str) -> (r: Vec<char>)
    ensures
        r@ == word@,
{
    let n = word.unicode_len();
    let mut r: Vec<char> = Vec::new();
    let mut i: usize = 0;
    while i < n
        invariant
            i <= n,
            n == word@.len(),
            r@ == word@.take(i as int),
        decreases n - i,
    {
        r.push(word.get_char(i));
        proof {
            assert(r@ =~= word@.take(i + 1));
        }
        i = i + 1;
    }
    proof {
        assert(word@.take(n as int) =~= word@);
    }
    r
}

/// The bit expansion of a string of hexadecimal digits: eight bits per
/// digit, least significant first; other characters contribute nothing.
pub open spec fn convert_hex_spec(s: Seq<char>) -> Seq<u32>
    decreases s.len(),
{
    if s.len() == 0 {
        Seq::empty()
    } else {
        convert_hex_spec(s.drop_last()) + (match hex_val(s.last()) {
            Some(v) => bits_le(v),
            None => Seq::empty(),
        })
    }
}

/// Expand a string of hexadecimal digits into its bits, eight per digit,
/// least significant first.
pub fn convert_hex(word: String) -> (r: Vec<u32>)
    ensures
        r@ == convert_hex_spec(word@),
{
    let chars = convert_str(word.as_str());
    let mut r: Vec<u32> = Vec::new();
    let mut i: usize = 0;
    while i < chars.len()
        invariant
            i <= chars@.len(),
            chars@ == word@,
            r@ == convert_hex_spec(word@.take(i as int)),
        decreases chars@.len() - i,
    {
        proof {
            assert(word@.take(i + 1).drop_last() =~= word@.take(i as int));
            assert(word@.take(i + 1).last() == word@[i as int]);
        }
        match hex_digit(chars[i]) {
            Some(v) => {
                let ghost r_before = r@;
                let mut b: u32 = 0;
                while b < 8
                    invariant
                        b <= 8,
                        r@ == r_before + bits_le(v).take(b as int),
                    decreases 8 - b,
                {
                    r.push((v >> b) & 1);
                    proof {
                        assert(bits_le(v)[b as int] == bit_of(v, b));
                        assert(r@ =~= r_before + bits_le(v).take(b + 1));
                    }
                    b = b + 1;
                }
                proof {
                    assert(bits_le(v).take(8) =~= bits_le(v));
                }
            },
            None => {
            },
        }
        i = i + 1;
    }
    proof {
        assert(word@.take(word@.len() as int) =~= word@);
    }
    r
}

/// The set-based Jaccard distance as a pluggable tree metric.
pub struct Jaccard;

/// The greedy, occurrence-counting Jaccard distance as a pluggable tree
/// metric.
pub struct ModifiedJaccard;

/// The classic edit distance as a pluggable tree metric; the default.
pub struct Levenshtein;

/// The position-wise Hamming distance as a pluggable tree metric.
pub struct Hamming;

impl Default for Jaccard {
    fn default() -> (r: Self)
        ensures
            r == Jaccard,
    {
        Jaccard
    }
}

impl Default for ModifiedJaccard {
    fn default() -> (r: Self)
        ensures
            r == ModifiedJaccard,
    {
        ModifiedJaccard
    }
}

impl Default for Levenshtein {
    fn default() -> (r: Self)
        ensures
            r == Levenshtein,
    {
        Levenshtein
    }
}

impl Default for Hamming {
    fn default() -> (r: Self)
        ensures
            r == Hamming,
    {
        Hamming
    }
}

impl<T: LawfulSym + Copy> Dist<Vec<T>> for Jaccard {
    open spec fn dist_spec(&self, a: Seq<T>, b: Seq<T>) -> nat {
        jaccard_spec(a, b, MAX_PERCENT_DIST as nat)
    }

    open spec fn word_ok(&self, a: Seq<T>) -> bool {
        true
    }

    fn dist(&self, a: &Vec<T>, b: &Vec<T>) -> (d: usize) {
        jaccard_dist(a.dup(), b.dup())
    }
}

impl<T: SymEq + Copy> Dist<Vec<T>> for ModifiedJaccard {
    open spec fn dist_spec(&self, a: Seq<T>, b: Seq<T>) -> nat {
        mod_jaccard_spec(a, b, MAX_PERCENT_DIST as nat)
    }

    open spec fn word_ok(&self, a: Seq<T>) -> bool {
        true
    }

    fn dist(&self, a: &Vec<T>, b: &Vec<T>) -> (d: usize) {
        modified_jaccard_dist(a.dup(), b.dup())
    }
}

impl<T: SymEq + Copy> Dist<Vec<T>> for Levenshtein {
    open spec fn dist_spec(&self, a: Seq<T>, b: Seq<T>) -> nat {
        lev_spec(a, b)
    }

    open spec fn word_ok(&self, a: Seq<T>) -> bool {
        a.len() < usize::MAX
    }

    fn dist(&self, a: &Vec<T>, b: &Vec<T>) -> (d: usize) {
        levenshtein_dist(a.dup(), b.dup())
    }
}

impl<T: SymEq + Copy> Dist<Vec<T>> for Hamming {
    open spec fn dist_spec(&self, a: Seq<T>, b: Seq<T>) -> nat {
        hamming_spec(a, b)
    }

    open spec fn word_ok(&self, a: Seq<T>) -> bool {
        true
    }

    fn dist(&self, a: &Vec<T>, b: &Vec<T>) -> (d: usize) {
        hamming_dist(a.dup(), b.dup())
    }
}

} // verus!
