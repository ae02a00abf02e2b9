//! The sharded index: one metric tree per distinct bucket key, with the
//! query radius translated per bucket.

use crate::bknode::{metric_ok, Dist, Word};
use crate::bktree::_BkTree;
use crate::metric::{Metric, _Metric, MAX_METRIC_LEN};
use vstd::multiset::Multiset;
use vstd::prelude::*;

verus! {

/// A bucket: the key shared by its entries, and their tree.
pub type Bucket = (usize, _BkTree<String, _Metric>);

pub struct _BkGraph {
    pub trees: Vec<Bucket>,
    pub metric: _Metric,
}

pub type BkGraph = _BkGraph;

/// The entries of a run of buckets.
pub open spec fn bucket_entries(buckets: Seq<Bucket>) -> Multiset<Seq<char>>
    decreases buckets,
{
    if buckets.len() == 0 {
        Multiset::empty()
    } else {
        buckets[0].1.entries().add(bucket_entries(buckets.subrange(1, buckets.len() as int)))
    }
}

/// A run of buckets splits around any one of them.
proof fn lemma_bucket_entries_split(buckets: Seq<Bucket>, i: int)
    requires
        0 <= i < buckets.len(),
    ensures
        bucket_entries(buckets) == bucket_entries(buckets.subrange(0, i)).add(
            buckets[i].1.entries(),
        ).add(bucket_entries(buckets.subrange(i + 1, buckets.len() as int))),
    decreases buckets.len(),
{
    if i == 0 {
        assert(bucket_entries(buckets.subrange(0, 0)) == Multiset::<Seq<char>>::empty());
        assert(buckets.subrange(1, buckets.len() as int) =~= buckets.subrange(
            i + 1,
            buckets.len() as int,
        ));
        assert(bucket_entries(buckets) =~= bucket_entries(buckets.subrange(0, 0)).add(
            buckets[0].1.entries(),
        ).add(bucket_entries(buckets.subrange(1, buckets.len() as int))));
    } else {
        let rest = buckets.subrange(1, buckets.len() as int);
        lemma_bucket_entries_split(rest, i - 1);
        assert(rest.subrange(0, i - 1) =~= buckets.subrange(1, i));
        assert(rest[i - 1] == buckets[i]);
        assert(rest.subrange(i, rest.len() as int) =~= buckets.subrange(
            i + 1,
            buckets.len() as int,
        ));
        assert(buckets.subrange(0, i)[0] == buckets[0]);
        assert(buckets.subrange(0, i).subrange(1, i) =~= buckets.subrange(1, i));
        assert(bucket_entries(buckets.subrange(0, i)) == buckets[0].1.entries().add(
            bucket_entries(buckets.subrange(1, i)),
        ));
        assert(bucket_entries(buckets) =~= bucket_entries(buckets.subrange(0, i)).add(
            buckets[i].1.entries(),
        ).add(bucket_entries(buckets.subrange(i + 1, buckets.len() as int))));
    }
}

/// Each bucket's entries are contained in the whole run's.
proof fn lemma_bucket_entries_le(buckets: Seq<Bucket>, i: int, e: Seq<char>)
    requires
        0 <= i < buckets.len(),
    ensures
        buckets[i].1.entries().count(e) <= bucket_entries(buckets).count(e),
{
    lemma_bucket_entries_split(buckets, i);
}

/// An entry of a run of buckets lies in one of them.
proof fn lemma_bucket_entries_member(buckets: Seq<Bucket>, e: Seq<char>) -> (i: int)
    requires
        bucket_entries(buckets).count(e) > 0,
    ensures
        0 <= i < buckets.len(),
        buckets[i].1.entries().count(e) > 0,
    decreases buckets.len(),
{
    if buckets[0].1.entries().count(e) > 0 {
        0
    } else {
        let j = lemma_bucket_entries_member(buckets.subrange(1, buckets.len() as int), e);
        j + 1
    }
}

impl _BkGraph {
    /// Well-formedness: distinct bucket keys; every bucket's tree well
    /// formed under the one shared metric; and every entry keyed by its
    /// own length under that metric.
    pub open spec fn wf(self) -> bool {
        &&& forall|p: int, q: int|
            0 <= p < q < self.trees@.len() ==> (#[trigger] self.trees@[p]).0 != (
            #[trigger] self.trees@[q]).0
        &&& forall|p: int| 0 <= p < self.trees@.len() ==> (#[trigger] self.trees@[p]).1.wf()
        &&& forall|p: int|
            0 <= p < self.trees@.len() ==> (#[trigger] self.trees@[p]).1.dist == self.metric
        &&& forall|p: int, e: Seq<char>|
            0 <= p < self.trees@.len() && (#[trigger] self.trees@[p].1.entries().count(e)) > 0
                ==> self.metric.len_spec(e) == self.trees@[p].0
    }

    /// All entries stored in the graph.
    pub open spec fn entries(self) -> Multiset<Seq<char>> {
        bucket_entries(self.trees@)
    }

    /// The stored entries within the translated radius of their own
    /// length bucket, with `qlen` standing for the query's length in the
    /// translation.
    pub open spec fn found_within_at(self, q: Seq<char>, qlen: nat, r: nat) -> Set<Seq<char>> {
        Set::new(
            |e: Seq<char>|
                self.entries().count(e) > 0 && self.metric.function_spec(e, q)
                    <= self.metric.diff_spec(qlen, self.metric.len_spec(e), r),
        )
    }

    /// The stored entries a search for `q` at radius `r` is meant to
    /// return: those within the radius as translated for their own
    /// length bucket.
    pub open spec fn found_within(self, q: Seq<char>, r: nat) -> Set<Seq<char>> {
        self.found_within_at(q, self.metric.len_spec(q), r)
    }

    /// A fresh, empty graph over the given metric; the plain edit
    /// distance is the default.
    pub fn new(metric: Option<Metric>) -> (g: _BkGraph)
        ensures
            g.wf(),
            g.entries() == Multiset::<Seq<char>>::empty(),
            g.metric == (match metric {
                Some(m) => m,
                None => _Metric::Levenshtein,
            }),
    {
        match metric {
            Some(metric) => _BkGraph { trees: Vec::new(), metric },
            None => _BkGraph { trees: Vec::new(), metric: Metric::l_dist() },
        }
    }

    /// Insert one entry into the bucket of its length, creating the
    /// bucket on first use.  A blank word is never stored, and a word at
    /// distance zero of a stored entry of its bucket is absorbed.
    pub fn add(&mut self, word: String)
        requires
            old(self).wf(),
            word@.len() <= MAX_METRIC_LEN,
        ensures
            final(self).wf(),
            final(self).metric == old(self).metric,
            word@.len() > 0 ==> ((final(self).entries() == old(self).entries().insert(word@)) || (
            final(self).entries() == old(self).entries() && exists|e: Seq<char>|
                (#[trigger] old(self).entries().count(e)) > 0 && old(self).metric.function_spec(
                    e,
                    word@,
                ) == 0)),
            word@.len() == 0 ==> final(self).entries() == old(self).entries(),
    {
        let len = self.metric.len(word.clone());
        let mut idx: usize = 0;
        let mut found = false;
        while !found && idx < self.trees.len()
            invariant
                idx <= self.trees@.len(),
                *self == *old(self),
                forall|p: int| 0 <= p < idx ==> (#[trigger] self.trees@[p]).0 != len,
                found ==> idx < self.trees@.len() && self.trees@[idx as int].0 == len,
            decreases self.trees@.len() - idx, (if found { 0int } else { 1int }),
        {
            if self.trees[idx].0 == len {
                found = true;
            } else {
                idx = idx + 1;
            }
        }
        if found {
            let ghost old_trees = self.trees@;
            let mut bucket = self.trees.remove(idx);
            let ghost old_bucket = bucket;
            bucket.1.add(word);
            self.trees.insert(idx, bucket);
            proof {
                assert(self.trees@ =~= old_trees.update(idx as int, bucket));
                assert(forall|p: int|
                    0 <= p < self.trees@.len() && p != idx ==> self.trees@[p] == old_trees[p]);
                lemma_bucket_entries_split(old_trees, idx as int);
                lemma_bucket_entries_split(self.trees@, idx as int);
                assert(self.trees@.subrange(0, idx as int) =~= old_trees.subrange(0, idx as int));
                assert(self.trees@.subrange(idx as int + 1, self.trees@.len() as int)
                    =~= old_trees.subrange(idx as int + 1, old_trees.len() as int));
                if word@.len() > 0 {
                    if bucket.1.entries() == old_bucket.1.entries().insert(word@) {
                        assert(self.entries() =~= old(self).entries().insert(word@));
                    } else {
                        assert(self.entries() =~= old(self).entries());
                        let e = choose|e: Seq<char>|
                            (#[trigger] old_bucket.1.entries().count(e)) > 0
                                && old_bucket.1.dist.dist_spec(e, word@) == 0;
                        lemma_bucket_entries_le(old_trees, idx as int, e);
                        assert(old(self).entries().count(e) > 0);
                    }
                } else {
                    assert(self.entries() =~= old(self).entries());
                }
            }
        } else {
            let ghost old_trees = self.trees@;
            let mut tree: _BkTree<String, _Metric> = _BkTree::new(Some(self.metric));
            tree.add(word);
            self.trees.push((len, tree));
            proof {
                assert(self.trees@ =~= old_trees.push((len, tree)));
                lemma_bucket_entries_split(self.trees@, old_trees.len() as int);
                assert(self.trees@.subrange(0, old_trees.len() as int) =~= old_trees);
                assert(self.trees@.subrange(
                    old_trees.len() as int + 1,
                    self.trees@.len() as int,
                ) =~= Seq::<Bucket>::empty());
                assert(forall|p: int|
                    0 <= p < old_trees.len() ==> self.trees@[p] == old_trees[p]);
                if word@.len() > 0 {
                    assert(tree.entries() =~= Multiset::<Seq<char>>::empty().insert(word@));
                    assert(self.entries() =~= old(self).entries().insert(word@));
                } else {
                    assert(tree.entries() =~= Multiset::<Seq<char>>::empty());
                    assert(self.entries() =~= old(self).entries());
                }
            }
        }
    }

    /// Insert the entries of a list, in order.
    pub fn add_list(&mut self, list: Vec<String>)
        requires
            old(self).wf(),
            forall|k: int| 0 <= k < list@.len() ==> (#[trigger] list@[k])@.len() <= MAX_METRIC_LEN,
        ensures
            final(self).wf(),
            final(self).metric == old(self).metric,
            forall|e: Seq<char>|
                #[trigger] old(self).entries().count(e) <= final(self).entries().count(e),
            forall|k: int|
                0 <= k < list@.len() && (#[trigger] list@[k])@.len() > 0 ==> final(self).entries().count(list@[k]@) > 0 || exists|e: Seq<char>|
                    (#[trigger] final(self).entries().count(e)) > 0 && final(self).metric.function_spec(e, list@[k]@) == 0,
    {
        let mut i: usize = 0;
        while i < list.len()
            invariant
                i <= list.len(),
                self.wf(),
                self.metric == old(self).metric,
                forall|k: int|
                    0 <= k < list@.len() ==> (#[trigger] list@[k])@.len() <= MAX_METRIC_LEN,
                forall|e: Seq<char>|
                    #[trigger] old(self).entries().count(e) <= self.entries().count(e),
                forall|k: int|
                    0 <= k < i && (#[trigger] list@[k])@.len() > 0 ==> self.entries().count(
                        list@[k]@,
                    ) > 0 || exists|e: Seq<char>|
                        (#[trigger] self.entries().count(e)) > 0 && self.metric.function_spec(
                            e,
                            list@[k]@,
                        ) == 0,
            decreases list.len() - i,
        {
            let ghost prev_self = *self;
            let word = list[i].clone();
            self.add(word);
            proof {
                assert forall|k: int|
                    0 <= k < i + 1 && (#[trigger] list@[k])@.len() > 0 implies self.entries().count(
                    list@[k]@,
                ) > 0 || exists|e: Seq<char>|
                    (#[trigger] self.entries().count(e)) > 0 && self.metric.function_spec(
                        e,
                        list@[k]@,
                    ) == 0 by {
                    if k == i {
                        if self.entries() == prev_self.entries().insert(list@[k]@) {
                            assert(self.entries().count(list@[k]@) > 0);
                        } else {
                            let e = choose|e: Seq<char>|
                                (#[trigger] prev_self.entries().count(e)) > 0
                                    && prev_self.metric.function_spec(e, list@[k]@) == 0;
                            assert(self.entries().count(e) > 0);
                        }
                    } else {
                        if prev_self.entries().count(list@[k]@) > 0 {
                            assert(self.entries().count(list@[k]@) > 0);
                        } else {
                            let e = choose|e: Seq<char>|
                                (#[trigger] prev_self.entries().count(e)) > 0
                                    && prev_self.metric.function_spec(e, list@[k]@) == 0;
                            assert(self.entries().count(e) > 0);
                        }
                    }
                }
            }
            i = i + 1;
        }
    }

    /// Radius search across every bucket, with the radius translated per
    /// bucket key; the buckets' results are merged.
    ///
    /// Every returned word is a stored entry within the translated
    /// radius of its own bucket.  When the metric is symmetric and obeys
    /// the triangle inequality, the returned words are exactly the
    /// stored entries within those translated radii.
    pub fn search(&self, word: String, dist: usize) -> (results: Vec<String>)
        requires
            self.wf(),
            word@.len() <= MAX_METRIC_LEN,
        ensures
            forall|k: int|
                0 <= k < results@.len() ==> self.found_within(word@, dist as nat).contains(
                    (#[trigger] results@[k])@,
                ),
            metric_ok::<String, _Metric>(self.metric) ==> forall|e: Seq<char>|
                self.found_within(word@, dist as nat).contains(e) ==> exists|k: int|
                    0 <= k < results@.len() && (#[trigger] results@[k])@ == e,
    {
        let len = self.metric.len(word.clone());
        let mut results: Vec<String> = Vec::new();
        let mut p: usize = 0;
        while p < self.trees.len()
            invariant
                p <= self.trees@.len(),
                self.wf(),
                len == self.metric.len_spec(word@),
                word@.len() <= MAX_METRIC_LEN,
                forall|k: int|
                    0 <= k < results@.len() ==> self.found_within(word@, dist as nat).contains(
                        (#[trigger] results@[k])@,
                    ),
                metric_ok::<String, _Metric>(self.metric) ==> forall|e: Seq<char>, q: int|
                    0 <= q < p && (#[trigger] self.trees@[q].1.entries().count(e)) > 0
                        && self.metric.function_spec(e, word@) <= self.metric.diff_spec(
                        self.metric.len_spec(word@),
                        self.metric.len_spec(e),
                        dist as nat,
                    ) ==> exists|k: int|
                        0 <= k < results@.len() && (#[trigger] results@[k])@ == e,
            decreases self.trees@.len() - p,
        {
            let key = self.trees[p].0;
            let adjusted = self.metric.diff(len, key, dist);
            let ghost before = results@;
            let mut part = self.trees[p].1.search(word.clone(), adjusted);
            proof {
                assert forall|k: int|
                    0 <= k < part@.len() implies self.found_within(word@, dist as nat).contains(
                    (#[trigger] part@[k])@,
                ) by {
                    lemma_bucket_entries_le(self.trees@, p as int, part@[k]@);
                    assert(self.metric.len_spec(part@[k]@) == key);
                }
            }
            let ghost part_view = part@;
            results.append(&mut part);
            proof {
                assert(results@ =~= before + part_view);
                if metric_ok::<String, _Metric>(self.metric) {
                    assert forall|e: Seq<char>, q: int|
                        0 <= q < p + 1 && (#[trigger] self.trees@[q].1.entries().count(e)) > 0
                            && self.metric.function_spec(e, word@) <= self.metric.diff_spec(
                            self.metric.len_spec(word@),
                            self.metric.len_spec(e),
                            dist as nat,
                        ) implies exists|k: int|
                        0 <= k < results@.len() && (#[trigger] results@[k])@ == e by {
                        if q == p {
                            assert(self.metric.len_spec(e) == key);
                            assert(self.trees@[q].1.found_within(word@, adjusted as nat).contains(
                                e,
                            ));
                            let k0 = choose|k: int|
                                0 <= k < part_view.len() && (#[trigger] part_view[k])@ == e;
                            assert(results@[before.len() + k0]@ == e);
                        } else {
                            let k0 = choose|k: int|
                                0 <= k < before.len() && (#[trigger] before[k])@ == e;
                            assert(results@[k0]@ == e);
                        }
                    }
                }
            }
            p = p + 1;
        }
        proof {
            if metric_ok::<String, _Metric>(self.metric) {
                assert forall|e: Seq<char>|
                    self.found_within(word@, dist as nat).contains(e) implies exists|k: int|
                    0 <= k < results@.len() && (#[trigger] results@[k])@ == e by {
                    let q = lemma_bucket_entries_member(self.trees@, e);
                }
            }
        }
        results
    }

    /// As `search`, but buckets whose key lies more than `variance` away
    /// from the query's character count are skipped before any radius
    /// translation: a cheap pre-filter that trades recall at extreme
    /// variance for query cost.
    pub fn variance_search(&self, word: String, dist: usize, variance: usize) -> (results: Vec<
        String,
    >)
        requires
            self.wf(),
            word@.len() <= MAX_METRIC_LEN,
        ensures
            forall|k: int|
                0 <= k < results@.len() ==> self.found_within_at(
                    word@,
                    word@.len(),
                    dist as nat,
                ).contains((#[trigger] results@[k])@),
            metric_ok::<String, _Metric>(self.metric) ==> forall|e: Seq<char>|
                self.found_within_at(word@, word@.len(), dist as nat).contains(e) && key_near(
                    self.metric.len_spec(e),
                    word@.len(),
                    variance as nat,
                ) ==> exists|k: int|
                    0 <= k < results@.len() && (#[trigger] results@[k])@ == e,
    {
        let len = crate::diff::word_len(word.clone());
        let ghost mlen = self.metric.len_spec(word@);
        let mut results: Vec<String> = Vec::new();
        let mut p: usize = 0;
        while p < self.trees.len()
            invariant
                p <= self.trees@.len(),
                self.wf(),
                len == word@.len(),
                word@.len() <= MAX_METRIC_LEN,
                forall|k: int|
                    0 <= k < results@.len() ==> self.found_within_at(
                        word@,
                        word@.len(),
                        dist as nat,
                    ).contains((#[trigger] results@[k])@),
                metric_ok::<String, _Metric>(self.metric) ==> forall|e: Seq<char>, q: int|
                    0 <= q < p && (#[trigger] self.trees@[q].1.entries().count(e)) > 0
                        && self.metric.function_spec(e, word@) <= self.metric.diff_spec(
                        word@.len(),
                        self.metric.len_spec(e),
                        dist as nat,
                    ) && key_near(self.metric.len_spec(e), word@.len(), variance as nat)
                        ==> exists|k: int|
                        0 <= k < results@.len() && (#[trigger] results@[k])@ == e,
            decreases self.trees@.len() - p,
        {
            let key = self.trees[p].0;
            let gap = if key >= len {
                key - len
            } else {
                len - key
            };
            if gap <= variance {
                let adjusted = self.metric.diff(len, key, dist);
                let ghost before = results@;
                let mut part = self.trees[p].1.search(word.clone(), adjusted);
                proof {
                    assert forall|k: int|
                        0 <= k < part@.len() implies self.found_within_at(
                        word@,
                        word@.len(),
                        dist as nat,
                    ).contains((#[trigger] part@[k])@) by {
                        lemma_bucket_entries_le(self.trees@, p as int, part@[k]@);
                        assert(self.metric.len_spec(part@[k]@) == key);
                    }
                }
                let ghost part_view = part@;
                results.append(&mut part);
                proof {
                    assert(results@ =~= before + part_view);
                    if metric_ok::<String, _Metric>(self.metric) {
                        assert forall|e: Seq<char>, q: int|
                            0 <= q < p + 1 && (#[trigger] self.trees@[q].1.entries().count(e)) > 0
                                && self.metric.function_spec(e, word@) <= self.metric.diff_spec(
                                word@.len(),
                                self.metric.len_spec(e),
                                dist as nat,
                            ) && key_near(self.metric.len_spec(e), word@.len(), variance as nat)
                                implies exists|k: int|
                            0 <= k < results@.len() && (#[trigger] results@[k])@ == e by {
                            if q == p {
                                assert(self.metric.len_spec(e) == key);
                                assert(self.trees@[q].1.found_within(
                                    word@,
                                    adjusted as nat,
                                ).contains(e));
                                let k0 = choose|k: int|
                                    0 <= k < part_view.len() && (#[trigger] part_view[k])@ == e;
                                assert(results@[before.len() + k0]@ == e);
                            } else {
                                let k0 = choose|k: int|
                                    0 <= k < before.len() && (#[trigger] before[k])@ == e;
                                assert(results@[k0]@ == e);
                            }
                        }
                    }
                }
            } else {
                proof {
                    if metric_ok::<String, _Metric>(self.metric) {
                        assert forall|e: Seq<char>|
                            (#[trigger] self.trees@[p as int].1.entries().count(e)) > 0 implies !key_near(
                            self.metric.len_spec(e),
                            word@.len(),
                            variance as nat,
                        ) by {
                            assert(self.metric.len_spec(e) == key);
                        }
                    }
                }
            }
            p = p + 1;
        }
        proof {
            if metric_ok::<String, _Metric>(self.metric) {
                assert forall|e: Seq<char>|
                    self.found_within_at(word@, word@.len(), dist as nat).contains(e) && key_near(
                        self.metric.len_spec(e),
                        word@.len(),
                        variance as nat,
                    ) implies exists|k: int|
                    0 <= k < results@.len() && (#[trigger] results@[k])@ == e by {
                    let q = lemma_bucket_entries_member(self.trees@, e);
                }
            }
        }
        results
    }
}

/// Whether a bucket key lies within `variance` of the query length.
pub open spec fn key_near(key: nat, qlen: nat, variance: nat) -> bool {
    if key >= qlen {
        key - qlen <= variance
    } else {
        qlen - key <= variance
    }
}

} // verus!
