//! The metric tree: a root node plus the distance function bound at
//! construction.
//!
//! The contracts speak of the multiset of stored entries and of
//! [`_BkTree::found_within`], the set of stored entries inside the
//! query radius.  A search returns only words of that set; that it
//! returns all of them additionally needs the distance function to be
//! symmetric and to obey the triangle inequality — the two properties
//! the pruning rests on, bundled as [`metric_ok`] and proved for the
//! edit and Hamming distances in [`crate::laws`].

use crate::bknode::{_BkNode, metric_ok, Dist, Word};
use vstd::multiset::Multiset;
use vstd::prelude::*;

verus! {

pub struct _BkTree<W: Word, D: Dist<W>> {
    pub _root: _BkNode<W>,
    pub dist: D,
}

pub type BkTree<W, D> = _BkTree<W, D>;

impl<W: Word, D: Dist<W>> _BkTree<W, D> {
    /// An empty root (a blank word without children) stands for the empty
    /// tree; otherwise the root must be well formed under the bound
    /// distance function.
    pub open spec fn wf(self) -> bool {
        if self._root.word@.len() == 0 {
            self._root.children@.len() == 0
        } else {
            self._root.wf(self.dist)
        }
    }

    /// The entries stored in the tree.
    pub open spec fn entries(self) -> Multiset<Seq<W::Sym>> {
        if self._root.word@.len() == 0 {
            Multiset::empty()
        } else {
            self._root.entry_ms()
        }
    }

    /// The stored entries within distance `r` of the query `q`: what a
    /// radius search is meant to return.
    pub open spec fn found_within(self, q: Seq<W::Sym>, r: nat) -> Set<Seq<W::Sym>> {
        Set::new(|e: Seq<W::Sym>| self.entries().count(e) > 0 && self.dist.dist_spec(e, q) <= r)
    }

    /// A fresh, empty tree over the given distance function; the plain
    /// edit distance is the default.
    pub fn new(func: Option<D>) -> (t: Self) where D: Default
        ensures
            t.wf(),
            t.entries() == Multiset::<Seq<W::Sym>>::empty(),
            func.is_some() ==> t.dist == func.unwrap(),
    {
        let root = _BkNode { word: W::blank_word(), dist: 0, children: Vec::new() };
        match func {
            Some(func) => _BkTree { _root: root, dist: func },
            None => _BkTree { _root: root, dist: Default::default() },
        }
    }

    /// Insert one entry.  A blank word stands for "no value" and is never
    /// stored; a word at distance zero of a stored entry is absorbed.
    pub fn add(&mut self, word: W)
        requires
            old(self).wf(),
            word@.len() > 0 ==> old(self).dist.word_ok(word@),
        ensures
            final(self).wf(),
            final(self).dist == old(self).dist,
            word@.len() == 0 ==> *final(self) == *old(self),
            word@.len() > 0 ==> ((final(self).entries() == old(self).entries().insert(word@)) || (
            final(self).entries() == old(self).entries() && exists|e: Seq<W::Sym>|
                (#[trigger] old(self).entries().count(e)) > 0 && old(self).dist.dist_spec(e, word@)
                    == 0)),
    {
        if word.blank() {
            return ;
        }
        self._root.add(word, &self.dist);
    }

    /// Insert the entries of a list, in order.
    ///
    /// The order can shape the tree but never its contents: afterwards
    /// every non-blank word of the list is stored, or sits at distance
    /// zero of a stored entry; no stored entry is lost, and nothing
    /// outside the list is gained.
    pub fn add_list(&mut self, list: Vec<W>)
        requires
            old(self).wf(),
            forall|k: int|
                0 <= k < list@.len() && (#[trigger] list@[k])@.len() > 0 ==> old(
                    self,
                ).dist.word_ok(list@[k]@),
        ensures
            final(self).wf(),
            final(self).dist == old(self).dist,
            forall|e: Seq<W::Sym>|
                #[trigger] old(self).entries().count(e) <= final(self).entries().count(e),
            forall|e: Seq<W::Sym>|
                (#[trigger] final(self).entries().count(e)) > old(self).entries().count(e)
                    ==> exists|k: int| 0 <= k < list@.len() && (#[trigger] list@[k])@ == e,
            forall|k: int|
                0 <= k < list@.len() && (#[trigger] list@[k])@.len() > 0 ==> final(self).entries().count(list@[k]@) > 0 || exists|e: Seq<W::Sym>|
                    (#[trigger] final(self).entries().count(e)) > 0 && final(self).dist.dist_spec(e, list@[k]@) == 0,
    {
        let mut i: usize = 0;
        while i < list.len()
            invariant
                i <= list.len(),
                self.wf(),
                self.dist == old(self).dist,
                forall|k: int|
                    0 <= k < list@.len() && (#[trigger] list@[k])@.len() > 0 ==> old(
                        self,
                    ).dist.word_ok(list@[k]@),
                forall|e: Seq<W::Sym>|
                    #[trigger] old(self).entries().count(e) <= self.entries().count(e),
                forall|e: Seq<W::Sym>|
                    (#[trigger] self.entries().count(e)) > old(self).entries().count(e)
                        ==> exists|k: int| 0 <= k < i && (#[trigger] list@[k])@ == e,
                forall|k: int|
                    0 <= k < i && (#[trigger] list@[k])@.len() > 0 ==> self.entries().count(
                        list@[k]@,
                    ) > 0 || exists|e: Seq<W::Sym>|
                        (#[trigger] self.entries().count(e)) > 0 && self.dist.dist_spec(
                            e,
                            list@[k]@,
                        ) == 0,
            decreases list.len() - i,
        {
            let ghost prev_self = *self;
            let word = list[i].dup();
            self.add(word);
            proof {
                assert forall|k: int|
                    0 <= k < i + 1 && (#[trigger] list@[k])@.len() > 0 implies self.entries().count(
                    list@[k]@,
                ) > 0 || exists|e: Seq<W::Sym>|
                    (#[trigger] self.entries().count(e)) > 0 && self.dist.dist_spec(e, list@[k]@)
                        == 0 by {
                    if k == i {
                        if self.entries() == prev_self.entries().insert(list@[k]@) {
                            assert(self.entries().count(list@[k]@) > 0);
                        } else {
                            let e = choose|e: Seq<W::Sym>|
                                (#[trigger] prev_self.entries().count(e)) > 0
                                    && prev_self.dist.dist_spec(e, list@[k]@) == 0;
                            assert(self.entries().count(e) > 0);
                        }
                    } else {
                        if prev_self.entries().count(list@[k]@) > 0 {
                            assert(self.entries().count(list@[k]@) > 0);
                        } else {
                            let e = choose|e: Seq<W::Sym>|
                                (#[trigger] prev_self.entries().count(e)) > 0
                                    && prev_self.dist.dist_spec(e, list@[k]@) == 0;
                            assert(self.entries().count(e) > 0);
                        }
                    }
                }
            }
            i = i + 1;
        }
    }

    /// Recursive pruning search below `node`, appending matches to
    /// `s_list`.
    ///
    /// Everything appended is a stored entry within `dist` of `word`.
    /// When the distance function is symmetric and obeys the triangle
    /// inequality, nothing within `dist` is missed: the pruning only
    /// skips children whose key lies outside the window that those two
    /// properties justify.
    fn r_search(&self, node: &_BkNode<W>, word: &W, dist: usize, s_list: &mut Vec<W>)
        requires
            node.wf(self.dist),
            self.dist.word_ok(word@),
        ensures
            old(s_list)@.len() <= final(s_list)@.len(),
            forall|k: int|
                0 <= k < old(s_list)@.len() ==> #[trigger] final(s_list)@[k] == old(s_list)@[k],
            forall|k: int|
                old(s_list)@.len() <= k < final(s_list)@.len() ==> node.entry_ms().count(
                    (#[trigger] final(s_list)@[k])@,
                ) > 0 && self.dist.dist_spec(final(s_list)@[k]@, word@) <= dist,
            metric_ok::<W, D>(self.dist) ==> forall|e: Seq<W::Sym>|
                (#[trigger] node.entry_ms().count(e)) > 0 && self.dist.dist_spec(e, word@) <= dist
                    ==> exists|k: int|
                    0 <= k < final(s_list)@.len() && (#[trigger] final(s_list)@[k])@ == e,
        decreases node,
    {
        let ghost base = old(s_list)@;
        let curr_word = &node.word;
        let curr_dist = self.dist.dist(curr_word, word);

        if curr_dist <= dist {
            s_list.push(curr_word.dup());
            proof {
                assert((s_list@[s_list@.len() - 1])@ == node.word@);
            }
        }
        let min_dist = if curr_dist > dist {
            curr_dist - dist
        } else {
            0
        };
        let max_dist = if curr_dist <= usize::MAX - dist {
            curr_dist + dist
        } else {
            usize::MAX
        };

        let min_idx = _BkNode::lower_bound(&node.children, min_dist);
        let max_idx = _BkNode::upper_bound(&node.children, max_dist);
        proof {
            if min_idx > max_idx {
                assert(node.children[max_idx as int].dist > max_dist);
                assert(node.children[max_idx as int].dist < min_dist);
                assert(false);
            }
        }

        let mut i = min_idx;
        while i < max_idx
            invariant
                min_idx <= i <= max_idx <= node.children@.len(),
                node.wf(self.dist),
                self.dist.word_ok(word@),
                forall|a: int| 0 <= a < min_idx ==> #[trigger] node.children[a].dist < min_dist,
                curr_dist == self.dist.dist_spec(node.word@, word@),
                curr_dist > dist ==> min_dist == curr_dist - dist,
                curr_dist <= dist ==> min_dist == 0,
                max_dist >= curr_dist,
                curr_dist <= usize::MAX - dist ==> max_dist == curr_dist + dist,
                forall|a: int|
                    max_idx <= a < node.children@.len() ==> #[trigger] node.children[a].dist
                        > max_dist,
                base.len() <= s_list@.len(),
                forall|k: int| 0 <= k < base.len() ==> #[trigger] s_list@[k] == base[k],
                forall|k: int|
                    base.len() <= k < s_list@.len() ==> node.entry_ms().count(
                        (#[trigger] s_list@[k])@,
                    ) > 0 && self.dist.dist_spec(s_list@[k]@, word@) <= dist,
                curr_dist <= dist ==> exists|k: int|
                    0 <= k < s_list@.len() && (#[trigger] s_list@[k])@ == node.word@,
                metric_ok::<W, D>(self.dist) ==> forall|e: Seq<W::Sym>, j: int|
                    min_idx <= j < i && (#[trigger] node.children[j].entry_ms().count(e)) > 0
                        && self.dist.dist_spec(e, word@) <= dist ==> exists|k: int|
                        0 <= k < s_list@.len() && (#[trigger] s_list@[k])@ == e,
            decreases max_idx - i,
        {
            let ghost prev_list = s_list@;
            self.r_search(&node.children[i], word, dist, s_list);
            proof {
                assert forall|k: int|
                    base.len() <= k < s_list@.len() implies node.entry_ms().count(
                    (#[trigger] s_list@[k])@,
                ) > 0 && self.dist.dist_spec(s_list@[k]@, word@) <= dist by {
                    if k >= prev_list.len() {
                        crate::bknode::lemma_entries_of_le(node.children@, i as int, s_list@[k]@);
                    }
                }
                if curr_dist <= dist {
                    let k0 = choose|k: int|
                        0 <= k < prev_list.len() && (#[trigger] prev_list[k])@ == node.word@;
                    assert(s_list@[k0] == prev_list[k0]);
                }
                if metric_ok::<W, D>(self.dist) {
                    assert forall|e: Seq<W::Sym>, j: int|
                        min_idx <= j < i + 1 && (#[trigger] node.children[j].entry_ms().count(e))
                            > 0 && self.dist.dist_spec(e, word@) <= dist implies exists|k: int|
                        0 <= k < s_list@.len() && (#[trigger] s_list@[k])@ == e by {
                        if j < i {
                            let k0 = choose|k: int|
                                0 <= k < prev_list.len() && (#[trigger] prev_list[k])@ == e;
                            assert(s_list@[k0] == prev_list[k0]);
                        }
                    }
                }
            }
            i = i + 1;
        }
        proof {
            self.lemma_r_search_complete(*node, word@, dist as nat, base, s_list@, min_dist as nat, max_dist as nat, min_idx as int, max_idx as int, curr_dist as nat);
        }
    }

    /// Assembles the completeness claim of `r_search` from the loop's
    /// outcome: an entry inside the radius either is this node's word,
    /// or sits under a child whose key the window proof shows cannot have
    /// been pruned.
    proof fn lemma_r_search_complete(
        self,
        node: _BkNode<W>,
        q: Seq<W::Sym>,
        r: nat,
        base: Seq<W>,
        out: Seq<W>,
        min_dist: nat,
        max_dist: nat,
        min_idx: int,
        max_idx: int,
        curr_dist: nat,
    )
        requires
            node.wf(self.dist),
            curr_dist == self.dist.dist_spec(node.word@, q),
            curr_dist > r ==> min_dist == curr_dist - r,
            curr_dist <= r ==> min_dist == 0,
            max_dist >= curr_dist,
            curr_dist + r <= usize::MAX ==> max_dist == curr_dist + r,
            curr_dist + r > usize::MAX ==> max_dist == usize::MAX,
            max_dist <= usize::MAX,
            0 <= min_idx <= node.children@.len(),
            0 <= max_idx <= node.children@.len(),
            forall|a: int| 0 <= a < min_idx ==> #[trigger] node.children[a].dist < min_dist,
            forall|a: int|
                max_idx <= a < node.children@.len() ==> #[trigger] node.children[a].dist
                    > max_dist,
            forall|a: int| 0 <= a < node.children@.len() ==> #[trigger] node.children[a].dist <= usize::MAX,
            curr_dist <= r ==> exists|k: int|
                0 <= k < out.len() && (#[trigger] out[k])@ == node.word@,
            metric_ok::<W, D>(self.dist) ==> forall|e: Seq<W::Sym>, j: int|
                min_idx <= j < max_idx && (#[trigger] node.children[j].entry_ms().count(e)) > 0
                    && self.dist.dist_spec(e, q) <= r ==> exists|k: int|
                    0 <= k < out.len() && (#[trigger] out[k])@ == e,
        ensures
            metric_ok::<W, D>(self.dist) ==> forall|e: Seq<W::Sym>|
                (#[trigger] node.entry_ms().count(e)) > 0 && self.dist.dist_spec(e, q) <= r
                    ==> exists|k: int| 0 <= k < out.len() && (#[trigger] out[k])@ == e,
    {
        if metric_ok::<W, D>(self.dist) {
            assert forall|e: Seq<W::Sym>|
                (#[trigger] node.entry_ms().count(e)) > 0 && self.dist.dist_spec(e, q) <= r
                    implies exists|k: int| 0 <= k < out.len() && (#[trigger] out[k])@ == e by {
                if e == node.word@ {
                    assert(curr_dist <= r);
                } else {
                    assert(Multiset::singleton(node.word@).count(e) == 0);
                    assert(_BkNode::<W>::entries_of(node.children@).count(e) > 0);
                    let j = crate::bknode::lemma_entries_of_member(node.children@, e);
                    let key = node.children[j].dist;
                    assert(self.dist.dist_spec(node.word@, e) == key);
                    // the triangle inequality pins the key inside the window
                    assert(self.dist.dist_spec(node.word@, q) <= self.dist.dist_spec(
                        node.word@,
                        e,
                    ) + self.dist.dist_spec(e, q));
                    assert(self.dist.dist_spec(node.word@, e) <= self.dist.dist_spec(
                        node.word@,
                        q,
                    ) + self.dist.dist_spec(q, e));
                    assert(self.dist.dist_spec(q, e) == self.dist.dist_spec(e, q));
                    assert(key >= min_dist) by {
                        if curr_dist > r {
                            assert(curr_dist <= key + self.dist.dist_spec(e, q));
                        }
                    }
                    assert(key <= max_dist) by {
                        assert(key <= curr_dist + self.dist.dist_spec(e, q));
                        if curr_dist + r <= usize::MAX {
                        } else {
                            assert(key <= usize::MAX);
                        }
                    }
                    assert(min_idx <= j < max_idx);
                }
            }
        }
    }

    /// Radius search from the root.
    ///
    /// Every returned word is a stored entry within `dist` of `word`
    /// (with respect to the bound distance function, measured from the
    /// stored entry to the query).  When that function is symmetric and
    /// obeys the triangle inequality, the returned words are exactly the
    /// stored entries within the radius.
    pub fn search(&self, word: W, dist: usize) -> (results: Vec<W>)
        requires
            self.wf(),
            self.dist.word_ok(word@),
        ensures
            forall|k: int|
                0 <= k < results@.len() ==> self.found_within(word@, dist as nat).contains(
                    (#[trigger] results@[k])@,
                ),
            metric_ok::<W, D>(self.dist) ==> forall|e: Seq<W::Sym>|
                self.found_within(word@, dist as nat).contains(e) ==> exists|k: int|
                    0 <= k < results@.len() && (#[trigger] results@[k])@ == e,
    {
        let mut results: Vec<W> = Vec::new();
        if !self._root.word.blank() {
            self.r_search(&self._root, &word, dist, &mut results);
        }
        results
    }
}

} // verus!
