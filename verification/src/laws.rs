//! The general properties the index promises, stated and proved over
//! the same specifications that the executable contracts use.

use crate::bkdist::{hex_ham_pairs, hex_ham_spec, jaro_spec, xor_bits};
use crate::bkgraph::_BkGraph;
use crate::bknode::{metric_ok, Dist, Word};
use crate::bktree::_BkTree;
use crate::diff::{j_diff_spec, jaro_diff_spec, l_diff_spec};
use crate::dist::{
    count_in, count_not_in, dedup_seq, greedy_inter, hamming_spec, jaccard_spec,
    lemma_hamming_symmetric, lemma_lev_symmetric, lemma_lev_triangle, lev_spec,
    mismatch_count, mod_jaccard_spec, remove_first_eqv, Hamming, Levenshtein,
};
use crate::metric::_Metric;
use crate::word_function::{lemma_lev_words_symmetric, lemma_lev_words_triangle};
use crate::symbol::{contains_eqv, eqv_is_eq, eqv_symmetric, eqv_transitive, SymEq};
use vstd::multiset::Multiset;
use vstd::prelude::*;

verus! {

/// An entry that was just added to a tree is found by a search for it,
/// at any radius.
///
/// The first premise is exactly what `_BkTree::add` ensures: either the
/// word's entry multiset gained the word, or the tree is unchanged and
/// some stored entry sits at distance zero of the word.  Under a
/// distance function where only the word itself sits at distance zero
/// of it, the word is then among the stored entries within any radius,
/// and the `search` contract turns that membership into a returned
/// result whenever the function is symmetric and obeys the triangle
/// inequality.
pub proof fn lemma_added_entry_found<W: Word, D: Dist<W>>(
    t1: _BkTree<W, D>,
    t2: _BkTree<W, D>,
    w: Seq<W::Sym>,
    r: nat,
)
    requires
        t2.dist == t1.dist,
        (t2.entries() == t1.entries().insert(w)) || (t2.entries() == t1.entries() && exists|
            e: Seq<W::Sym>,
        |
            (#[trigger] t1.entries().count(e)) > 0 && t1.dist.dist_spec(e, w) == 0),
        t1.dist.dist_spec(w, w) == 0,
        forall|e: Seq<W::Sym>| #[trigger] t1.dist.dist_spec(e, w) == 0 ==> e == w,
    ensures
        t2.found_within(w, r).contains(w),
{
    if t2.entries() == t1.entries().insert(w) {
        assert(t2.entries().count(w) > 0);
    } else {
        let e = choose|e: Seq<W::Sym>|
            (#[trigger] t1.entries().count(e)) > 0 && t1.dist.dist_spec(e, w) == 0;
        assert(e == w);
        assert(t2.entries().count(w) > 0);
    }
}

/// A word that is not stored is never within any radius of a search for
/// it, so by the soundness half of the `search` contract it is never
/// returned — unless some other stored entry sits at distance zero, in
/// which case only that entry is.
pub proof fn lemma_absent_entry_not_found<W: Word, D: Dist<W>>(
    t: _BkTree<W, D>,
    w: Seq<W::Sym>,
    r: nat,
)
    requires
        t.entries().count(w) == 0,
    ensures
        !t.found_within(w, r).contains(w),
{
}

/// Growing the radius never removes an entry from the search results:
/// the set of stored entries within the radius only grows.
pub proof fn lemma_search_monotonic<W: Word, D: Dist<W>>(
    t: _BkTree<W, D>,
    q: Seq<W::Sym>,
    r1: nat,
    r2: nat,
)
    requires
        r1 <= r2,
    ensures
        t.found_within(q, r1).subset_of(t.found_within(q, r2)),
{
}

/// Every bucket radius translation is monotone in the query radius, so
/// the graph search inherits the same monotonicity.
pub proof fn lemma_diff_monotonic(m: _Metric, length: nat, key: nat, r1: nat, r2: nat)
    requires
        r1 <= r2,
    ensures
        m.diff_spec(length, key, r1) <= m.diff_spec(length, key, r2),
{
    match m {
        _Metric::Jaccard | _Metric::ModifiedJaccard | _Metric::WordBigramJaccard => {
            lemma_j_diff_monotonic(length, key, r1, r2);
        },
        _Metric::Levenshtein | _Metric::WordLevenshtein | _Metric::WordFuzzyLevenshtein => {
            assert(l_diff_spec(length, key, r1) <= l_diff_spec(length, key, r2));
        },
        _Metric::Jaro => {
            lemma_jaro_diff_monotonic(length, key, r1, r2);
        },
        _Metric::HexHamming => {
        },
    }
}

proof fn lemma_j_diff_monotonic(length: nat, key: nat, r1: nat, r2: nat)
    requires
        r1 <= r2,
    ensures
        j_diff_spec(length, key, r1) <= j_diff_spec(length, key, r2),
{
    let more = if length >= key {
        length as int
    } else {
        key as int
    };
    let less = if length >= key {
        key as int
    } else {
        length as int
    };
    if more + r1 == 0 {
    } else {
        let s1 = if less >= r1 {
            less - r1
        } else {
            0
        };
        let s2 = if less >= r2 {
            less - r2
        } else {
            0
        };
        if more + r2 == 0 {
        } else {
            vstd::arithmetic::div_mod::lemma_div_is_ordered_by_denominator(
                100 * s2,
                more + r1,
                more + r2,
            );
            vstd::arithmetic::div_mod::lemma_div_is_ordered(100 * s2, 100 * s1, more + r1);
            crate::dist::lemma_scaled_ratio_le(100, s1, more + r1);
            crate::dist::lemma_scaled_ratio_le(100, s2, more + r2);
            assert((100 * s2) / (more + r2) <= (100 * s1) / (more + r1));
            assert(j_diff_spec(length, key, r1) == 100 - (100 * s1) / (more + r1));
            assert(j_diff_spec(length, key, r2) == 100 - (100 * s2) / (more + r2));
        }
    }
}

proof fn lemma_jaro_diff_monotonic(length: nat, key: nat, r1: nat, r2: nat)
    requires
        r1 <= r2,
    ensures
        jaro_diff_spec(length, key, r1) <= jaro_diff_spec(length, key, r2),
{
    let more = if length >= key {
        length as int
    } else {
        key as int
    };
    let less = if length >= key {
        key as int
    } else {
        length as int
    };
    if more == 0 {
    } else {
        assert(r1 * less <= r2 * less) by (nonlinear_arith)
            requires
                r1 <= r2,
                0 <= less,
        ;
        vstd::arithmetic::div_mod::lemma_div_is_ordered(r1 * less, r2 * less, 3 * more);
        assert(0 <= r1 * less) by (nonlinear_arith)
            requires
                0 <= r1,
                0 <= less,
        ;
        vstd::arithmetic::div_mod::lemma_div_pos_is_pos(r1 * less, 3 * more);
    }
}

/// Growing the radius never removes an entry from the graph's search
/// results either: the translated radius of every bucket grows with it.
pub proof fn lemma_graph_search_monotonic(g: _BkGraph, q: Seq<char>, r1: nat, r2: nat)
    requires
        r1 <= r2,
    ensures
        g.found_within(q, r1).subset_of(g.found_within(q, r2)),
{
    assert forall|e: Seq<char>| g.found_within(q, r1).contains(e) implies g.found_within(
        q,
        r2,
    ).contains(e) by {
        lemma_diff_monotonic(g.metric, g.metric.len_spec(q), g.metric.len_spec(e), r1, r2);
    }
}

/// A graph with a single bucket searches exactly as that bucket's tree
/// does, whenever the radius translation leaves the radius unchanged
/// for that bucket — as the edit-distance translation does when the
/// query falls in the bucket.  The ratio-based translations of the
/// Jaccard family rescale the radius even then, so they are left out.
pub proof fn lemma_graph_single_bucket(g: _BkGraph, q: Seq<char>, r: nat)
    requires
        g.wf(),
        g.trees@.len() == 1,
        g.metric.diff_spec(g.metric.len_spec(q), g.trees@[0].0 as nat, r) == r,
    ensures
        g.entries() == g.trees@[0].1.entries(),
        g.found_within(q, r) =~= g.trees@[0].1.found_within(q, r),
{
    let t = g.trees@[0].1;
    assert(g.trees@.subrange(1, 1) =~= Seq::<crate::bkgraph::Bucket>::empty());
    assert(crate::bkgraph::bucket_entries(g.trees@.subrange(1, 1)) == Multiset::<
        Seq<char>,
    >::empty());
    assert(g.entries() == t.entries().add(
        crate::bkgraph::bucket_entries(g.trees@.subrange(1, 1)),
    ));
    assert(g.entries() =~= t.entries());
    assert forall|e: Seq<char>| g.found_within(q, r).contains(e) <==> t.found_within(
        q,
        r,
    ).contains(e) by {
        if g.entries().count(e) > 0 {
            assert(g.trees@[0].1.entries().count(e) > 0);
            assert(g.metric.len_spec(e) == g.trees@[0].0);
        }
    }
}

/// Under the edit-distance metric, a query whose length matches the
/// bucket's key keeps its radius unchanged, so the single-bucket graph
/// search coincides with the plain tree search.
pub proof fn lemma_edit_graph_single_bucket(g: _BkGraph, q: Seq<char>, r: nat)
    requires
        g.wf(),
        g.trees@.len() == 1,
        g.metric == _Metric::Levenshtein,
        g.metric.len_spec(q) == g.trees@[0].0,
        r <= usize::MAX,
    ensures
        g.found_within(q, r) =~= g.trees@[0].1.found_within(q, r),
{
    assert(l_diff_spec(g.metric.len_spec(q), g.trees@[0].0 as nat, r) == r);
    lemma_graph_single_bucket(g, q, r);
}

/// The edit distance is symmetric.
pub proof fn lemma_edit_symmetric(a: Seq<char>, b: Seq<char>)
    ensures
        lev_spec::<char>(a, b) == lev_spec::<char>(b, a),
{
    assert(eqv_symmetric::<char>());
    lemma_lev_symmetric::<char>(a, b);
}

/// The hexadecimal Hamming distance is symmetric: bit mismatches do not
/// depend on the order of the digests.
pub proof fn lemma_hex_ham_symmetric(a: Seq<char>, b: Seq<char>)
    ensures
        hex_ham_spec(a, b) == hex_ham_spec(b, a),
{
    lemma_hex_ham_pairs_symmetric(a, b);
}

proof fn lemma_hex_ham_pairs_symmetric(a: Seq<char>, b: Seq<char>)
    ensures
        hex_ham_pairs(a, b) == hex_ham_pairs(b, a),
    decreases a.len(),
{
    if a.len() == 0 || b.len() == 0 {
    } else {
        lemma_hex_ham_pairs_symmetric(a.drop_last(), b.drop_last());
        match (crate::dist::hex_val(a.last()), crate::dist::hex_val(b.last())) {
            (Some(h1), Some(h2)) => {
                lemma_xor_bits_symmetric(h1, h2, 8);
            },
            _ => {},
        }
    }
}

proof fn lemma_xor_bits_symmetric(h1: u32, h2: u32, n: u32)
    ensures
        xor_bits(h1, h2, n) == xor_bits(h2, h1, n),
    decreases n,
{
    if n > 0 {
        lemma_xor_bits_symmetric(h1, h2, (n - 1) as u32);
    }
}

/// The Jaro distance is symmetric between strings of distinct lengths:
/// the matching pass always runs with the longer string first, whatever
/// the argument order.  Between distinct strings of one length the two
/// passes can claim different match positions, so that case is left
/// out; a pair of equal strings is trivially symmetric.
pub proof fn lemma_jaro_symmetric(a: Seq<char>, b: Seq<char>)
    requires
        a.len() != b.len() || a == b,
    ensures
        jaro_spec(a, b) == jaro_spec(b, a),
{
}

/// A sequence with its head split off, as a multiset.
proof fn lemma_head_to_multiset<T>(s: Seq<T>)
    requires
        s.len() > 0,
    ensures
        s.to_multiset() == s.drop_first().to_multiset().insert(s.first()),
        s.to_multiset().count(s.first()) > 0,
{
    s.to_multiset_ensures();
    assert(s.remove(0) =~= s.drop_first());
    assert(s.drop_first().to_multiset() =~= s.to_multiset().remove(s[0]));
    assert(s.contains(s.first()));
    assert(s.to_multiset().count(s.first()) > 0);
    assert(s.to_multiset() =~= s.to_multiset().remove(s[0]).insert(s.first()));
}

/// A sequence with one symbol put in front, as a multiset.
proof fn lemma_cons_to_multiset<T>(s: Seq<T>, x: T)
    ensures
        (seq![x] + s).to_multiset() == s.to_multiset().insert(x),
{
    let c = seq![x] + s;
    lemma_head_to_multiset(c);
    assert(c.drop_first() =~= s);
    assert(c.first() == x);
}

/// Taking the first match out of a sequence takes one occurrence out of
/// its multiset, when the symbol relation is plain equality.
proof fn lemma_remove_first_eqv_multiset<T: SymEq>(b: Seq<T>, x: T)
    requires
        eqv_is_eq::<T>(),
        contains_eqv(b, x),
    ensures
        remove_first_eqv(b, x).to_multiset() == b.to_multiset().remove(x),
    decreases b.len(),
{
    lemma_head_to_multiset(b);
    if T::eqv(b.first(), x) {
        assert(b.first() == x);
        assert(remove_first_eqv(b, x) == b.drop_first());
        assert(b.drop_first().to_multiset() =~= b.to_multiset().remove(x));
    } else {
        assert(b.first() != x);
        let i = choose|i: int| 0 <= i < b.len() && T::eqv(b[i], x);
        assert(b.drop_first()[i - 1] == b[i]);
        assert(contains_eqv(b.drop_first(), x));
        lemma_remove_first_eqv_multiset(b.drop_first(), x);
        lemma_cons_to_multiset(remove_first_eqv(b.drop_first(), x), b.first());
        assert(remove_first_eqv(b, x).to_multiset() == b.drop_first().to_multiset().remove(
            x,
        ).insert(b.first()));
        assert(b.drop_first().to_multiset().remove(x).insert(b.first()) =~= b.drop_first(
        ).to_multiset().insert(b.first()).remove(x));
    }
}

/// Greedy single-use matching counts the multiset intersection, when
/// the symbol relation is plain equality.
proof fn lemma_greedy_is_ms_inter<T: SymEq>(a: Seq<T>, b: Seq<T>)
    requires
        eqv_is_eq::<T>(),
    ensures
        greedy_inter(a, b) == a.to_multiset().intersection_with(b.to_multiset()).len(),
    decreases a.len(),
{
    broadcast use vstd::multiset::lemma_intersection_count;
    broadcast use vstd::multiset::lemma_insert_len;

    a.to_multiset_ensures();
    b.to_multiset_ensures();
    if a.len() == 0 {
        assert(a.to_multiset().intersection_with(b.to_multiset()) =~= Multiset::<T>::empty());
        vstd::multiset::lemma_multiset_empty_len(
            a.to_multiset().intersection_with(b.to_multiset()),
        );
    } else {
        let x = a.first();
        let aa = a.to_multiset();
        let bb = b.to_multiset();
        lemma_head_to_multiset(a);
        let rest = a.drop_first().to_multiset();
        assert(rest =~= aa.remove(x));
        if contains_eqv(b, x) {
            let i = choose|i: int| 0 <= i < b.len() && T::eqv(b[i], x);
            assert(b[i] == x);
            assert(b.contains(x));
            assert(bb.count(x) > 0);
            lemma_remove_first_eqv_multiset(b, x);
            lemma_greedy_is_ms_inter(a.drop_first(), remove_first_eqv(b, x));
            assert(aa.intersection_with(bb) =~= rest.intersection_with(bb.remove(x)).insert(x));
            assert(aa.intersection_with(bb).len() == rest.intersection_with(bb.remove(x)).len()
                + 1);
        } else {
            assert(forall|i: int| 0 <= i < b.len() ==> #[trigger] b[i] != x);
            assert(!b.contains(x));
            assert(bb.count(x) == 0);
            lemma_greedy_is_ms_inter(a.drop_first(), b);
            assert(aa.intersection_with(bb) =~= rest.intersection_with(bb));
        }
    }
}

/// The modified Jaccard distance is symmetric when the symbol relation
/// is plain equality: greedy single-use matching consumes the multiset
/// intersection, whichever side it walks.
pub proof fn lemma_modified_jaccard_symmetric<T: SymEq>(a: Seq<T>, b: Seq<T>, scale: nat)
    requires
        eqv_is_eq::<T>(),
    ensures
        mod_jaccard_spec(a, b, scale) == mod_jaccard_spec(b, a, scale),
{
    broadcast use vstd::multiset::lemma_intersection_count;

    if a.len() == 0 || b.len() == 0 {
    } else {
        lemma_greedy_is_ms_inter(a, b);
        lemma_greedy_is_ms_inter(b, a);
        assert(a.to_multiset().intersection_with(b.to_multiset()) =~= b.to_multiset(
        ).intersection_with(a.to_multiset()));
    }
}

/// Deduplication under plain equality keeps the set of symbols and
/// holds each one once.
proof fn lemma_dedup_props<T: SymEq>(s: Seq<T>)
    requires
        eqv_is_eq::<T>(),
    ensures
        dedup_seq(s).no_duplicates(),
        dedup_seq(s).to_set() == s.to_set(),
    decreases s.len(),
{
    if s.len() == 0 {
        assert(dedup_seq(s).to_set() =~= s.to_set());
    } else {
        let p = s.drop_last();
        let x = s.last();
        lemma_dedup_props(p);
        let d = dedup_seq(p);
        assert(s =~= p.push(x));
        assert(p.push(x) =~= p + seq![x]);
        Seq::<T>::lemma_to_set_insert_commutes(p, x);
        if contains_eqv(p, x) {
            let i = choose|i: int| 0 <= i < p.len() && T::eqv(p[i], x);
            assert(p.contains(x));
            assert(p.to_set().contains(x));
            assert(s.to_set() =~= p.to_set());
        } else {
            assert(forall|i: int| 0 <= i < p.len() ==> #[trigger] p[i] != x);
            assert(!p.contains(x));
            assert(!p.to_set().contains(x));
            assert(!d.contains(x));
            assert(dedup_seq(s) == d.push(x));
            assert forall|i: int, j: int|
                0 <= i < j < d.push(x).len() implies d.push(x)[i] != d.push(x)[j] by {
                if j < d.len() {
                    assert(d[i] != d[j]);
                } else {
                    assert(i < d.len());
                    assert(d.push(x)[i] == d[i]);
                    assert(d.push(x)[j] == x);
                    assert(d.contains(d[i]));
                    assert(d.to_set().contains(d[i]));
                }
            }
            assert(d.push(x) =~= d + seq![x]);
            Seq::<T>::lemma_to_set_insert_commutes(d, x);
            assert(dedup_seq(s).to_set() =~= s.to_set());
        }
    }
}

/// Over a run of distinct symbols, counting members of `t` measures the
/// intersection of the two symbol sets.
proof fn lemma_count_in_set<T: SymEq>(s: Seq<T>, t: Seq<T>)
    requires
        eqv_is_eq::<T>(),
        s.no_duplicates(),
    ensures
        count_in(s, t) == s.to_set().intersect(t.to_set()).len(),
    decreases s.len(),
{
    broadcast use vstd::seq_lib::seq_to_set_is_finite;

    if s.len() == 0 {
        assert(s.to_set().intersect(t.to_set()) =~= Set::<T>::empty());
    } else {
        let p = s.drop_last();
        let x = s.last();
        assert(s =~= p.push(x));
        assert(p.no_duplicates());
        lemma_count_in_set(p, t);
        assert(!p.contains(x));
        assert(s.to_set() =~= p.to_set().insert(x));
        vstd::set_lib::lemma_len_intersect(p.to_set(), t.to_set());
        if contains_eqv(t, x) {
            let i = choose|i: int| 0 <= i < t.len() && T::eqv(t[i], x);
            assert(t.contains(x));
            assert(s.to_set().intersect(t.to_set()) =~= p.to_set().intersect(t.to_set()).insert(
                x,
            ));
            assert(!p.to_set().intersect(t.to_set()).contains(x));
        } else {
            assert(forall|i: int| 0 <= i < t.len() ==> #[trigger] t[i] != x);
            assert(!t.contains(x));
            assert(s.to_set().intersect(t.to_set()) =~= p.to_set().intersect(t.to_set()));
        }
    }
}

/// The misses are the run's length less its hits.
proof fn lemma_count_split<T: SymEq>(s: Seq<T>, t: Seq<T>)
    ensures
        count_in(s, t) + count_not_in(s, t) == s.len(),
    decreases s.len(),
{
    if s.len() > 0 {
        lemma_count_split(s.drop_last(), t);
    }
}

/// The set-based Jaccard distance is symmetric when the symbol relation
/// is plain equality: shared and total distinct symbols do not depend
/// on the order of the sides.
pub proof fn lemma_jaccard_symmetric<T: SymEq>(a: Seq<T>, b: Seq<T>, scale: nat)
    requires
        eqv_is_eq::<T>(),
    ensures
        jaccard_spec(a, b, scale) == jaccard_spec(b, a, scale),
{
    broadcast use vstd::seq_lib::seq_to_set_is_finite;

    if a.len() == 0 || b.len() == 0 {
    } else {
        let da = dedup_seq(a);
        let db = dedup_seq(b);
        lemma_dedup_props(a);
        lemma_dedup_props(b);
        lemma_count_in_set(da, b);
        lemma_count_in_set(db, a);
        lemma_count_split(da, b);
        lemma_count_split(db, a);
        da.unique_seq_to_set();
        db.unique_seq_to_set();
        let sa = a.to_set();
        let sb = b.to_set();
        assert(sa.intersect(sb) =~= sb.intersect(sa));
        // both orders yield the same shared count and the same union size
        assert(count_in(da, b) == sa.intersect(sb).len());
        assert(count_in(db, a) == sa.intersect(sb).len());
        assert(da.len() + count_not_in(db, a) == da.len() + db.len() - count_in(db, a));
        assert(db.len() + count_not_in(da, b) == db.len() + da.len() - count_in(da, b));
    }
}

/// The edit distance is a well-behaved metric: symmetric and obeying
/// the triangle inequality, so the pruning search over it misses
/// nothing.
pub proof fn lemma_levenshtein_metric_ok<T: SymEq + Copy>(d: Levenshtein)
    requires
        eqv_symmetric::<T>(),
        eqv_transitive::<T>(),
    ensures
        metric_ok::<Vec<T>, Levenshtein>(d),
{
    assert forall|x: Seq<T>, y: Seq<T>| #[trigger] d.dist_spec(x, y) == d.dist_spec(y, x) by {
        lemma_lev_symmetric::<T>(x, y);
    }
    assert forall|x: Seq<T>, y: Seq<T>, z: Seq<T>|
        d.dist_spec(x, z) <= #[trigger] d.dist_spec(x, y) + #[trigger] d.dist_spec(y, z) by {
        lemma_lev_triangle::<T>(x, y, z);
    }
}

/// The string form of the edit metric is well behaved too.
pub proof fn lemma_edit_metric_ok(m: _Metric)
    requires
        m == _Metric::Levenshtein,
    ensures
        metric_ok::<String, _Metric>(m),
{
    assert(eqv_symmetric::<char>());
    assert(eqv_transitive::<char>());
    assert forall|x: Seq<char>, y: Seq<char>| #[trigger] m.dist_spec(x, y) == m.dist_spec(
        y,
        x,
    ) by {
        lemma_lev_symmetric::<char>(x, y);
    }
    assert forall|x: Seq<char>, y: Seq<char>, z: Seq<char>|
        m.dist_spec(x, z) <= #[trigger] m.dist_spec(x, y) + #[trigger] m.dist_spec(y, z) by {
        lemma_lev_triangle::<char>(x, y, z);
    }
}

/// Only the sequence itself sits at edit distance zero, when the symbol
/// relation is plain equality.
pub proof fn lemma_lev_zero<T: SymEq>(a: Seq<T>, b: Seq<T>)
    requires
        eqv_is_eq::<T>(),
    ensures
        (lev_spec(a, b) == 0) <==> (a == b),
    decreases a.len() + b.len(),
{
    if a.len() == 0 || b.len() == 0 {
        if a.len() == 0 && b.len() == 0 {
            assert(a =~= b);
        }
    } else {
        lemma_lev_zero(a.drop_last(), b.drop_last());
        if lev_spec(a, b) == 0 {
            assert(T::eqv(a.last(), b.last()));
            assert(a =~= a.drop_last().push(a.last()));
            assert(b =~= b.drop_last().push(b.last()));
            assert(a =~= b);
        } else {
            if a == b {
                assert(a.drop_last() == b.drop_last());
                assert(T::eqv(a.last(), b.last()));
            }
        }
    }
}

/// The Hamming distance is a well-behaved metric as well: mismatches
/// add position by position, and the length sentinel is itself a
/// maximum of lengths.
pub proof fn lemma_hamming_triangle<T: SymEq>(a: Seq<T>, b: Seq<T>, c: Seq<T>)
    requires
        eqv_symmetric::<T>(),
        eqv_transitive::<T>(),
    ensures
        hamming_spec(a, c) <= hamming_spec(a, b) + hamming_spec(b, c),
{
    crate::dist::lemma_mismatch_le(a, c);
    crate::dist::lemma_mismatch_le(a, b);
    crate::dist::lemma_mismatch_le(b, c);
    if a.len() == b.len() && b.len() == c.len() {
        lemma_mismatch_triangle(a, b, c);
    } else if a.len() == c.len() {
        // b has another length: both sentinel distances reach max(len)
        assert(hamming_spec(a, b) >= a.len());
    } else {
        // the sentinel itself satisfies the inequality
        assert(hamming_spec(a, c) <= hamming_spec(a, b) + hamming_spec(b, c));
    }
}

proof fn lemma_mismatch_triangle<T: SymEq>(a: Seq<T>, b: Seq<T>, c: Seq<T>)
    requires
        eqv_transitive::<T>(),
        eqv_symmetric::<T>(),
        a.len() == b.len(),
        b.len() == c.len(),
    ensures
        mismatch_count(a, c) <= mismatch_count(a, b) + mismatch_count(b, c),
    decreases a.len(),
{
    if a.len() == 0 {
    } else {
        lemma_mismatch_triangle(a.drop_last(), b.drop_last(), c.drop_last());
        if T::eqv(a.last(), b.last()) && T::eqv(b.last(), c.last()) {
            assert(T::eqv(a.last(), c.last()));
        }
    }
}

/// The Hamming distance is a well-behaved metric in the same sense.
pub proof fn lemma_hamming_metric_ok<T: SymEq + Copy>(d: Hamming)
    requires
        eqv_symmetric::<T>(),
        eqv_transitive::<T>(),
    ensures
        metric_ok::<Vec<T>, Hamming>(d),
{
    assert forall|x: Seq<T>, y: Seq<T>| #[trigger] d.dist_spec(x, y) == d.dist_spec(y, x) by {
        lemma_hamming_symmetric::<T>(x, y);
    }
    assert forall|x: Seq<T>, y: Seq<T>, z: Seq<T>|
        d.dist_spec(x, z) <= #[trigger] d.dist_spec(x, y) + #[trigger] d.dist_spec(y, z) by {
        lemma_hamming_triangle::<T>(x, y, z);
    }
}

/// The full chain for the default metric: after an edit-distance tree
/// takes a new word, a radius-zero search's result set holds exactly
/// that word's matches, and the word is among them.
pub proof fn lemma_edit_added_entry_found(
    t1: _BkTree<Vec<char>, Levenshtein>,
    t2: _BkTree<Vec<char>, Levenshtein>,
    w: Seq<char>,
    r: nat,
)
    requires
        t2.dist == t1.dist,
        (t2.entries() == t1.entries().insert(w)) || (t2.entries() == t1.entries() && exists|
            e: Seq<char>,
        |
            (#[trigger] t1.entries().count(e)) > 0 && t1.dist.dist_spec(e, w) == 0),
    ensures
        t2.found_within(w, r).contains(w),
        metric_ok::<Vec<char>, Levenshtein>(t2.dist),
{
    assert(eqv_is_eq::<char>());
    crate::dist::lemma_lev_reflexive::<char>(w);
    assert forall|e: Seq<char>| #[trigger] t1.dist.dist_spec(e, w) == 0 implies e == w by {
        lemma_lev_zero::<char>(e, w);
    }
    lemma_added_entry_found(t1, t2, w, r);
    lemma_levenshtein_metric_ok::<char>(t2.dist);
}

/// The word-level form of the edit metric is well behaved as well.
pub proof fn lemma_word_edit_metric_ok(m: _Metric)
    requires
        m == _Metric::WordLevenshtein,
    ensures
        metric_ok::<String, _Metric>(m),
{
    assert forall|x: Seq<char>, y: Seq<char>| #[trigger] m.dist_spec(x, y) == m.dist_spec(
        y,
        x,
    ) by {
        lemma_lev_words_symmetric(
            crate::word_function::words_spec(x),
            crate::word_function::words_spec(y),
        );
    }
    assert forall|x: Seq<char>, y: Seq<char>, z: Seq<char>|
        m.dist_spec(x, z) <= #[trigger] m.dist_spec(x, y) + #[trigger] m.dist_spec(y, z) by {
        lemma_lev_words_triangle(
            crate::word_function::words_spec(x),
            crate::word_function::words_spec(y),
            crate::word_function::words_spec(z),
        );
    }
}

} // verus!
