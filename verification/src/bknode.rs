//! A single node of the metric tree: one stored word, its distance to the
//! parent's word, and children kept sorted by that distance.

use vstd::multiset::Multiset;
use vstd::prelude::*;

verus! {

/// An entry stored in the index: a sequence of symbols.  `Vec<T>` and
/// `String` both qualify.  The empty word stands for "no value" in a tree
/// root, so it is never stored as an entry.
pub trait Word: View<V = Seq<<Self as Word>::Sym>> + Sized {
    /// The symbol type of the sequence.
    type Sym;

    /// Whether the word is empty.
    fn blank(&self) -> (b: bool)
        ensures
            b == (self@.len() == 0),
    ;

    /// A copy with the same symbol sequence.
    fn dup(&self) -> (r: Self)
        ensures
            r@ == self@,
    ;

    /// The empty word.
    fn blank_word() -> (r: Self)
        ensures
            r@.len() == 0,
    ;
}

impl<T: Copy> Word for Vec<T> {
    type Sym = T;

    fn blank(&self) -> (b: bool) {
        self.len() == 0
    }

    fn dup(&self) -> (r: Self) {
        let mut r: Vec<T> = Vec::new();
        let mut i: usize = 0;
        while i < self.len()
            invariant
                i <= self.len(),
                r@ == self@.subrange(0, i as int),
            decreases self.len() - i,
        {
            r.push(self[i]);
            i = i + 1;
            proof {
                assert(r@ =~= self@.subrange(0, i as int));
            }
        }
        proof {
            assert(r@ =~= self@);
        }
        r
    }

    fn blank_word() -> (r: Self) {
        Vec::new()
    }
}

impl Word for String {
    type Sym = char;

    fn blank(&self) -> (b: bool) {
        self.as_str().is_empty()
    }

    fn dup(&self) -> (r: Self) {
        self.clone()
    }

    fn blank_word() -> (r: Self) {
        String::new()
    }
}

/// A distance function over words, exposed to specifications through
/// `dist_spec`.  A value of the implementing type selects the concrete
/// metric, so a tree can be built over any of them.
pub trait Dist<W: Word>: Sized {
    /// The distance that `dist` computes, over the two words' symbol
    /// sequences.
    spec fn dist_spec(&self, a: Seq<W::Sym>, b: Seq<W::Sym>) -> nat;

    /// The words the distance accepts: machine limits only, such as a
    /// length cap forced by the arithmetic.
    spec fn word_ok(&self, a: Seq<W::Sym>) -> bool;

    /// Executable distance.
    fn dist(&self, a: &W, b: &W) -> (d: usize)
        requires
            self.word_ok(a@),
            self.word_ok(b@),
        ensures
            d == self.dist_spec(a@, b@),
    ;
}

/// The properties of a well-behaved metric that the pruning search relies
/// on: symmetry and the triangle inequality.  A distance function that
/// violates them silently loses results; see the `search` contracts.
pub open spec fn metric_ok<W: Word, D: Dist<W>>(d: D) -> bool {
    &&& forall|a: Seq<W::Sym>, b: Seq<W::Sym>| #[trigger] d.dist_spec(a, b) == d.dist_spec(b, a)
    &&& forall|a: Seq<W::Sym>, b: Seq<W::Sym>, c: Seq<W::Sym>|
        d.dist_spec(a, c) <= #[trigger] d.dist_spec(a, b) + #[trigger] d.dist_spec(b, c)
}

pub struct _BkNode<W: Word> {
    pub word: W,
    pub dist: usize,
    pub children: Vec<_BkNode<W>>,
}

pub type BkNode<W> = _BkNode<W>;

impl<W: Word> _BkNode<W> {
    /// All entries stored in this subtree, as a multiset of symbol
    /// sequences.
    pub open spec fn entry_ms(self) -> Multiset<Seq<W::Sym>>
        decreases self,
    {
        Multiset::singleton(self.word@).add(Self::entries_of(self.children@))
    }

    /// All entries stored in a sequence of subtrees.
    pub open spec fn entries_of(nodes: Seq<_BkNode<W>>) -> Multiset<Seq<W::Sym>>
        decreases nodes,
    {
        if nodes.len() == 0 {
            Multiset::empty()
        } else {
            nodes[0].entry_ms().add(Self::entries_of(nodes.subrange(1, nodes.len() as int)))
        }
    }

    /// Well-formedness under the distance function `d`:
    /// the word is present, the children are strictly sorted by their
    /// distance key, and every entry under child `i` lies at exactly
    /// `children[i].dist` from this node's word.
    pub open spec fn wf<D: Dist<W>>(self, d: D) -> bool
        decreases self,
    {
        &&& self.word@.len() > 0
        &&& d.word_ok(self.word@)
        &&& forall|i: int, j: int|
            0 <= i < j < self.children.len() ==> #[trigger] self.children[i].dist
                < #[trigger] self.children[j].dist
        &&& forall|i: int| 0 <= i < self.children.len() ==> (#[trigger] self.children[i]).wf(d)
        &&& forall|i: int, e: Seq<W::Sym>|
            0 <= i < self.children.len() && (#[trigger] self.children[i].entry_ms().count(e)) > 0
                ==> d.dist_spec(self.word@, e) == self.children[i].dist
    }
}

impl<W: Word> _BkNode<W> {
    /// First index whose key is at least `d` in a run of children sorted
    /// strictly by key, or the length when every key is smaller.
    pub(crate) fn lower_bound(children: &Vec<_BkNode<W>>, d: usize) -> (idx: usize)
        requires
            forall|i: int, j: int|
                0 <= i < j < children.len() ==> #[trigger] children[i].dist
                    < #[trigger] children[j].dist,
        ensures
            idx <= children.len(),
            forall|i: int| 0 <= i < idx ==> #[trigger] children[i].dist < d,
            forall|i: int| idx <= i < children.len() ==> #[trigger] children[i].dist >= d,
    {
        let mut lo: usize = 0;
        let mut hi: usize = children.len();
        while lo < hi
            invariant
                lo <= hi <= children.len(),
                forall|i: int, j: int|
                    0 <= i < j < children.len() ==> #[trigger] children[i].dist
                        < #[trigger] children[j].dist,
                forall|i: int| 0 <= i < lo ==> #[trigger] children[i].dist < d,
                forall|i: int| hi <= i < children.len() ==> #[trigger] children[i].dist >= d,
            decreases hi - lo,
        {
            let mid = lo + (hi - lo) / 2;
            if children[mid].dist < d {
                lo = mid + 1;
            } else {
                hi = mid;
            }
        }
        lo
    }

    /// First index whose key exceeds `d`, or the length when none does.
    pub(crate) fn upper_bound(children: &Vec<_BkNode<W>>, d: usize) -> (idx: usize)
        requires
            forall|i: int, j: int|
                0 <= i < j < children.len() ==> #[trigger] children[i].dist
                    < #[trigger] children[j].dist,
        ensures
            idx <= children.len(),
            forall|i: int| 0 <= i < idx ==> #[trigger] children[i].dist <= d,
            forall|i: int| idx <= i < children.len() ==> #[trigger] children[i].dist > d,
    {
        let mut lo: usize = 0;
        let mut hi: usize = children.len();
        while lo < hi
            invariant
                lo <= hi <= children.len(),
                forall|i: int, j: int|
                    0 <= i < j < children.len() ==> #[trigger] children[i].dist
                        < #[trigger] children[j].dist,
                forall|i: int| 0 <= i < lo ==> #[trigger] children[i].dist <= d,
                forall|i: int| hi <= i < children.len() ==> #[trigger] children[i].dist > d,
            decreases hi - lo,
        {
            let mid = lo + (hi - lo) / 2;
            if children[mid].dist <= d {
                lo = mid + 1;
            } else {
                hi = mid;
            }
        }
        lo
    }

    /// Insert a word into the subtree.
    ///
    /// An empty node (the fresh root) adopts the word.  A word at
    /// distance zero of a stored entry is considered already present and
    /// leaves the tree unchanged; otherwise the word descends along the
    /// child whose key equals its distance to this node's word, or starts
    /// a new child at the position that keeps the keys sorted.
    pub fn add<D: Dist<W>>(&mut self, word: W, dist: &D)
        requires
            word@.len() > 0,
            dist.word_ok(word@),
            old(self).word@.len() == 0 ==> old(self).children@.len() == 0,
            old(self).word@.len() > 0 ==> old(self).wf(*dist),
        ensures
            final(self).wf(*dist),
            final(self).dist == old(self).dist,
            old(self).word@.len() == 0 ==> final(self).word@ == word@ && final(self).entry_ms()
                == Multiset::singleton(word@),
            old(self).word@.len() > 0 ==> final(self).word@ == old(self).word@ && ((
            final(self).entry_ms() == old(self).entry_ms().insert(word@)) || (final(self).entry_ms()
                == old(self).entry_ms() && exists|e: Seq<W::Sym>|
                (#[trigger] old(self).entry_ms().count(e)) > 0 && dist.dist_spec(e, word@) == 0)),
        decreases *old(self),
    {
        if self.word.blank() {
            self.word = word;
            proof {
                assert(self.entry_ms() =~= Multiset::singleton(self.word@));
            }
            return ;
        }
        let curr_dist = dist.dist(&self.word, &word);
        if curr_dist == 0 {
            proof {
                assert(old(self).entry_ms().count(old(self).word@) > 0);
            }
            return ;
        }
        let idx = Self::lower_bound(&self.children, curr_dist);
        if idx < self.children.len() && self.children[idx].dist == curr_dist {
            let ghost old_children = self.children@;
            let mut child = self.children.remove(idx);
            proof {
                assert(child == old_children[idx as int]);
                assert(child.wf(*dist));
                assert(decreases_to!(*old(self) => old(self).children));
                assert(decreases_to!(old(self).children => old_children));
                assert(decreases_to!(old_children => old_children[idx as int]));
            }
            child.add(word, dist);
            self.children.insert(idx, child);
            proof {
                assert(self.children@ =~= old_children.subrange(0, idx as int).push(child).add(
                    old_children.subrange(idx as int + 1, old_children.len() as int),
                ));
                self.lemma_add_into_child(*old(self), old_children, idx as int, child, word@, *dist);
            }
        } else {
            let node = _BkNode { word, dist: curr_dist, children: Vec::new() };
            proof {
                assert(node.entry_ms() =~= Multiset::singleton(node.word@));
            }
            self.children.insert(idx, node);
            proof {
                self.lemma_add_new_child(*old(self), idx as int, node, *dist);
            }
        }
    }

    /// After replacing child `idx` by `child` (same key, same word, entries
    /// grown by at most `w`), the node is still well formed and its entries
    /// change the same way.
    proof fn lemma_add_into_child<D: Dist<W>>(
        self,
        prev: Self,
        old_children: Seq<_BkNode<W>>,
        idx: int,
        child: _BkNode<W>,
        w: Seq<W::Sym>,
        d: D,
    )
        requires
            prev.wf(d),
            prev.children@ == old_children,
            0 <= idx < old_children.len(),
            self.word == prev.word,
            self.dist == prev.dist,
            self.children@ == old_children.subrange(0, idx).push(child).add(
                old_children.subrange(idx + 1, old_children.len() as int),
            ),
            child.wf(d),
            child.dist == old_children[idx].dist,
            child.word@ == old_children[idx].word@,
            d.dist_spec(prev.word@, w) == old_children[idx].dist,
            child.entry_ms() == old_children[idx].entry_ms().insert(w) || (child.entry_ms()
                == old_children[idx].entry_ms() && exists|e: Seq<W::Sym>|
                (#[trigger] old_children[idx].entry_ms().count(e)) > 0 && d.dist_spec(e, w) == 0),
        ensures
            self.wf(d),
            self.entry_ms() == prev.entry_ms().insert(w) || (self.entry_ms() == prev.entry_ms()
                && exists|e: Seq<W::Sym>|
                (#[trigger] prev.entry_ms().count(e)) > 0 && d.dist_spec(e, w) == 0),
    {
        assert(self.children@ =~= old_children.update(idx, child));
        assert(forall|i: int|
            0 <= i < self.children.len() && i != idx ==> self.children[i] == old_children[i]);
        assert(self.children[idx] == child);
        lemma_entries_of_split(old_children, idx);
        lemma_entries_of_split(self.children@, idx);
        assert(self.children@.subrange(0, idx) =~= old_children.subrange(0, idx));
        assert(self.children@.subrange(idx + 1, self.children@.len() as int) =~= old_children
            .subrange(idx + 1, old_children.len() as int));
        if child.entry_ms() == old_children[idx].entry_ms().insert(w) {
            assert(_BkNode::<W>::entries_of(self.children@) =~= _BkNode::<W>::entries_of(
                old_children,
            ).insert(w));
            assert(self.entry_ms() =~= prev.entry_ms().insert(w));
        } else {
            assert(_BkNode::<W>::entries_of(self.children@) =~= _BkNode::<W>::entries_of(
                old_children,
            ));
            assert(self.entry_ms() =~= prev.entry_ms());
            let e = choose|e: Seq<W::Sym>|
                (#[trigger] old_children[idx].entry_ms().count(e)) > 0 && d.dist_spec(e, w) == 0;
            lemma_entries_of_le(old_children, idx, e);
            assert(prev.entry_ms().count(e) > 0);
        }
    }

    /// After inserting a fresh leaf at the position returned by the key
    /// search, the node is still well formed and gains exactly that entry.
    proof fn lemma_add_new_child<D: Dist<W>>(self, prev: Self, idx: int, node: _BkNode<W>, d: D)
        requires
            prev.wf(d),
            0 <= idx <= prev.children@.len(),
            self.word == prev.word,
            self.dist == prev.dist,
            self.children@ == prev.children@.insert(idx, node),
            node.wf(d),
            node.children@.len() == 0,
            node.entry_ms() == Multiset::singleton(node.word@),
            d.dist_spec(prev.word@, node.word@) == node.dist,
            forall|i: int| 0 <= i < idx ==> #[trigger] prev.children[i].dist < node.dist,
            forall|i: int|
                idx <= i < prev.children@.len() ==> #[trigger] prev.children[i].dist > node.dist,
        ensures
            self.wf(d),
            self.entry_ms() == prev.entry_ms().insert(node.word@),
    {
        assert(forall|i: int| 0 <= i < idx ==> self.children[i] == prev.children[i]);
        assert(forall|i: int|
            idx < i < self.children@.len() ==> self.children[i] == prev.children[i - 1]);
        assert(self.children[idx] == node);
        assert(forall|i: int, j: int|
            0 <= i < j < self.children.len() ==> #[trigger] self.children[i].dist
                < #[trigger] self.children[j].dist);
        assert(forall|i: int, e: Seq<W::Sym>|
            0 <= i < self.children.len() && (#[trigger] self.children[i].entry_ms().count(e)) > 0
                ==> d.dist_spec(self.word@, e) == self.children[i].dist);
        lemma_entries_of_split(self.children@, idx);
        assert(self.children@.subrange(0, idx) =~= prev.children@.subrange(0, idx));
        assert(self.children@.subrange(idx + 1, self.children@.len() as int) =~= prev.children@
            .subrange(idx, prev.children@.len() as int));
        lemma_entries_of_concat_split(prev.children@, idx);
        assert(self.entry_ms() =~= prev.entry_ms().insert(node.word@));
    }
}

/// A row's entries split at any cut point.
pub(crate) proof fn lemma_entries_of_concat_split<W: Word>(nodes: Seq<_BkNode<W>>, i: int)
    requires
        0 <= i <= nodes.len(),
    ensures
        _BkNode::<W>::entries_of(nodes) == _BkNode::<W>::entries_of(nodes.subrange(0, i)).add(
            _BkNode::<W>::entries_of(nodes.subrange(i, nodes.len() as int)),
        ),
    decreases i,
{
    if i == 0 {
        assert(nodes.subrange(0, nodes.len() as int) =~= nodes);
        assert(_BkNode::<W>::entries_of(nodes.subrange(0, 0)) == Multiset::<Seq<W::Sym>>::empty());
        assert(_BkNode::<W>::entries_of(nodes) =~= _BkNode::<W>::entries_of(
            nodes.subrange(0, 0),
        ).add(_BkNode::<W>::entries_of(nodes.subrange(0, nodes.len() as int))));
    } else {
        lemma_entries_of_split(nodes, i - 1);
        lemma_entries_of_concat_split(nodes, i - 1);
        lemma_entries_of_split(nodes.subrange(0, i), i - 1);
        assert(nodes.subrange(0, i).subrange(0, i - 1) =~= nodes.subrange(0, i - 1));
        assert(nodes.subrange(0, i)[i - 1] == nodes[i - 1]);
        assert(nodes.subrange(0, i).subrange(i, i) =~= Seq::<_BkNode<W>>::empty());
        assert(_BkNode::<W>::entries_of(nodes.subrange(0, i).subrange(i, i))
            == Multiset::<Seq<W::Sym>>::empty());
        assert(nodes.subrange(i - 1, nodes.len() as int).subrange(
            1,
            nodes.len() - i + 1,
        ) =~= nodes.subrange(i, nodes.len() as int));
        assert(_BkNode::<W>::entries_of(nodes.subrange(i - 1, nodes.len() as int)) == nodes[i
            - 1].entry_ms().add(_BkNode::<W>::entries_of(nodes.subrange(i, nodes.len() as int))));
        assert(_BkNode::<W>::entries_of(nodes) =~= _BkNode::<W>::entries_of(
            nodes.subrange(0, i),
        ).add(_BkNode::<W>::entries_of(nodes.subrange(i, nodes.len() as int))));
    }
}

/// Splitting a sequence of subtrees at any index splits their entries.
pub(crate) proof fn lemma_entries_of_split<W: Word>(nodes: Seq<_BkNode<W>>, i: int)
    requires
        0 <= i < nodes.len(),
    ensures
        _BkNode::<W>::entries_of(nodes) == _BkNode::<W>::entries_of(nodes.subrange(0, i)).add(
            nodes[i].entry_ms(),
        ).add(_BkNode::<W>::entries_of(nodes.subrange(i + 1, nodes.len() as int))),
    decreases nodes.len(),
{
    if i == 0 {
        assert(nodes.subrange(0, 0).len() == 0);
        assert(_BkNode::<W>::entries_of(nodes.subrange(0, 0)) == Multiset::<Seq<W::Sym>>::empty());
        assert(nodes.subrange(1, nodes.len() as int) =~= nodes.subrange(
            i + 1,
            nodes.len() as int,
        ));
        assert(_BkNode::<W>::entries_of(nodes) =~= _BkNode::<W>::entries_of(
            nodes.subrange(0, 0),
        ).add(nodes[0].entry_ms()).add(
            _BkNode::<W>::entries_of(nodes.subrange(1, nodes.len() as int)),
        ));
    } else {
        let rest = nodes.subrange(1, nodes.len() as int);
        lemma_entries_of_split(rest, i - 1);
        assert(rest.subrange(0, i - 1) =~= nodes.subrange(1, i));
        assert(rest[i - 1] == nodes[i]);
        assert(rest.subrange(i, rest.len() as int) =~= nodes.subrange(i + 1, nodes.len() as int));
        lemma_entries_of_prefix_extend(nodes, i);
        assert(_BkNode::<W>::entries_of(nodes) =~= _BkNode::<W>::entries_of(
            nodes.subrange(0, i),
        ).add(nodes[i].entry_ms()).add(
            _BkNode::<W>::entries_of(nodes.subrange(i + 1, nodes.len() as int)),
        ));
    }
}

/// A nonempty prefix's entries are the head's entries plus the remaining
/// prefix of the tail.
pub(crate) proof fn lemma_entries_of_prefix_extend<W: Word>(nodes: Seq<_BkNode<W>>, i: int)
    requires
        0 < i <= nodes.len(),
    ensures
        _BkNode::<W>::entries_of(nodes.subrange(0, i)) == nodes[0].entry_ms().add(
            _BkNode::<W>::entries_of(nodes.subrange(1, i)),
        ),
{
    let p = nodes.subrange(0, i);
    assert(p[0] == nodes[0]);
    assert(p.subrange(1, p.len() as int) =~= nodes.subrange(1, i));
}

/// Every subtree's entries are contained in the whole row's entries.
pub(crate) proof fn lemma_entries_of_le<W: Word>(nodes: Seq<_BkNode<W>>, i: int, e: Seq<W::Sym>)
    requires
        0 <= i < nodes.len(),
    ensures
        nodes[i].entry_ms().count(e) <= _BkNode::<W>::entries_of(nodes).count(e),
{
    lemma_entries_of_split(nodes, i);
}

/// An entry of a row of subtrees lies in one of them.
pub(crate) proof fn lemma_entries_of_member<W: Word>(nodes: Seq<_BkNode<W>>, e: Seq<W::Sym>) -> (i: int)
    requires
        _BkNode::<W>::entries_of(nodes).count(e) > 0,
    ensures
        0 <= i < nodes.len(),
        nodes[i].entry_ms().count(e) > 0,
    decreases nodes.len(),
{
    if nodes.len() == 0 {
        0
    } else {
        if nodes[0].entry_ms().count(e) > 0 {
            0
        } else {
            let j = lemma_entries_of_member(nodes.subrange(1, nodes.len() as int), e);
            j + 1
        }
    }
}

} // verus!
