//! The syntax-tree model and the level-order tree walker.
//!
//! A tree is an arena of nodes; node 0 is the root and each node names
//! its children by arena index. Well-formedness makes the arena a tree:
//! every child index points past its parent, and every non-root node
//! sits in exactly one child slot.

use crate::span::Position;
use std::collections::VecDeque;
use vstd::prelude::*;

verus! {

/// One node of a parsed syntax tree: its kind tag, its source span, and
/// the indices of its children within the owning tree's node arena.
pub struct NodeData {
    pub kind: String,
    pub start: Position,
    pub end: Position,
    pub children: Vec<usize>,
}

/// A parsed syntax tree: an arena of nodes, the root at index 0.
pub struct SyntaxTree {
    pub nodes: Vec<NodeData>,
}

impl SyntaxTree {
    /// The number of nodes in the tree.
    pub open spec fn count(self) -> int {
        self.nodes@.len() as int
    }

    /// The child indices of node `i`.
    pub open spec fn kids(self, i: int) -> Seq<usize> {
        self.nodes@[i].children@
    }

    /// `(p, k)` names the `k`-th child slot of node `p`.
    pub open spec fn valid_slot(self, p: int, k: int) -> bool {
        0 <= p < self.count() && 0 <= k < self.kids(p).len()
    }

    /// Every child index is in bounds and strictly greater than its
    /// parent's index, so child links never form a cycle.
    pub open spec fn children_bounded(self) -> bool {
        forall|p: int, k: int|
            self.valid_slot(p, k) ==> p < (#[trigger] self.kids(p)[k]) as int
                && (self.kids(p)[k] as int) < self.count()
    }

    /// Node `j` occurs in some node's child list.
    pub open spec fn has_parent(self, j: int) -> bool {
        exists|p: int, k: int| self.valid_slot(p, k) && (#[trigger] self.kids(p)[k]) as int == j
    }

    /// Every node but the root occurs in some child list.
    pub open spec fn parents_complete(self) -> bool {
        forall|j: int| 1 <= j < self.count() ==> #[trigger] self.has_parent(j)
    }

    /// No index occurs in two child slots: each node has at most one
    /// parent and occurs at most once in that parent's list.
    pub open spec fn parents_unique(self) -> bool {
        forall|p1: int, k1: int, p2: int, k2: int|
            #![trigger self.kids(p1)[k1], self.kids(p2)[k2]]
            self.valid_slot(p1, k1) && self.valid_slot(p2, k2) && self.kids(p1)[k1] == self.kids(
                p2,
            )[k2] ==> p1 == p2 && k1 == k2
    }

    /// Every node's span is ordered start-before-end and small enough
    /// to decompose into per-line ranges.
    pub open spec fn spans_ok(self) -> bool {
        forall|i: int|
            0 <= i < self.count() ==> (#[trigger] self.nodes@[i]).start.le(self.nodes@[i].end)
                && self.nodes@[i].end.line - self.nodes@[i].start.line < usize::MAX
    }

    /// Every child's span lies within its parent's span.
    pub open spec fn child_spans_contained(self) -> bool {
        forall|p: int, k: int|
            self.valid_slot(p, k) ==> self.nodes@[p].start.le(
                self.nodes@[(#[trigger] self.kids(p)[k]) as int].start,
            ) && self.nodes@[self.kids(p)[k] as int].end.le(self.nodes@[p].end)
    }

    /// Sibling spans never overlap: each child's span ends at or before
    /// its next sibling's begins. Together with containment this makes
    /// the leaves of one pass partition the token positions: no two
    /// reported leaves overlap.
    pub open spec fn siblings_disjoint(self) -> bool {
        forall|p: int, k: int|
            self.valid_slot(p, k) && self.valid_slot(p, k + 1)
                ==> self.nodes@[(#[trigger] self.kids(p)[k]) as int].end.le(
                self.nodes@[self.kids(p)[k + 1] as int].start,
            )
    }

    /// Well-formedness: nonempty, child links topologically ordered,
    /// every non-root node in exactly one child slot, spans ordered,
    /// children within their parent, and siblings disjoint.
    pub open spec fn wf(self) -> bool {
        &&& self.count() >= 1
        &&& self.children_bounded()
        &&& self.parents_complete()
        &&& self.parents_unique()
        &&& self.spans_ok()
        &&& self.child_spans_contained()
        &&& self.siblings_disjoint()
    }

    /// The child lists of the nodes of `done`, in order, concatenated:
    /// exactly what a level-order walk has appended to its queue after
    /// yielding `done`.
    pub open spec fn appended(self, done: Seq<usize>) -> Seq<usize> {
        done.map_values(|v: usize| self.kids(v as int)).flatten()
    }

    /// A level-order walk, step by step: yield the front of the queue
    /// and append its children to the back, until the queue is empty.
    /// On a well-formed tree, `count()` steps of fuel always suffice.
    pub open spec fn level_order_rec(
        self,
        done: Seq<usize>,
        pending: Seq<usize>,
        fuel: nat,
    ) -> Seq<usize>
        decreases fuel,
    {
        if fuel == 0 || pending.len() == 0 {
            done
        } else {
            self.level_order_rec(
                done.push(pending[0]),
                pending.drop_first() + self.kids(pending[0] as int),
                (fuel - 1) as nat,
            )
        }
    }

    /// The level-order traversal of the subtree rooted at `start`.
    pub open spec fn walk_order_from(self, start: usize) -> Seq<usize> {
        self.level_order_rec(Seq::empty(), seq![start], self.nodes@.len() as nat)
    }

    /// The level-order traversal of the whole tree, root first.
    pub open spec fn walk_order(self) -> Seq<usize> {
        self.walk_order_from(0)
    }

    /// Node `i` is a leaf: an atomic token with no children.
    pub open spec fn is_leaf(self, i: int) -> bool {
        self.kids(i).len() == 0
    }

    /// The leaves of the tree, in level order.
    pub open spec fn leaf_order(self) -> Seq<usize> {
        self.walk_order().filter(|v: usize| self.is_leaf(v as int))
    }
}

impl SyntaxTree {
    /// The slot of node `j`'s unique parent link (`j` must not be the
    /// root of a well-formed tree).
    pub open spec fn parent_slot(self, j: int) -> (int, int) {
        choose|p: int, k: int| self.valid_slot(p, k) && (#[trigger] self.kids(p)[k]) as int == j
    }

    /// Node `a` is a proper ancestor of node `j`: the parent chain of
    /// `j`, which only descends in index, passes through `a`.
    pub open spec fn is_ancestor(self, a: int, j: int) -> bool
        decreases j,
    {
        if j <= 0 || !self.has_parent(j) {
            false
        } else {
            let p = self.parent_slot(j).0;
            if !(0 <= p < j) {
                false
            } else {
                p == a || self.is_ancestor(a, p)
            }
        }
    }
}

/// The parent slot of a non-root node of a well-formed tree is a valid
/// slot, links to the node, and lies strictly before it.
proof fn lemma_parent_slot(t: SyntaxTree, j: int)
    requires
        t.wf(),
        1 <= j < t.count(),
    ensures
        t.valid_slot(t.parent_slot(j).0, t.parent_slot(j).1),
        t.kids(t.parent_slot(j).0)[t.parent_slot(j).1] as int == j,
        0 <= t.parent_slot(j).0 < j,
{
    assert(t.has_parent(j));
    let (p, k): (int, int) = choose|p: int, k: int|
        t.valid_slot(p, k) && (#[trigger] t.kids(p)[k]) as int == j;
    assert(t.valid_slot(p, k) && t.kids(p)[k] as int == j);
}

/// A descendant's span lies within its ancestor's span.
proof fn lemma_descendant_contained(t: SyntaxTree, a: int, j: int)
    requires
        t.wf(),
        0 <= a < t.count(),
        0 <= j < t.count(),
        t.is_ancestor(a, j),
    ensures
        t.nodes@[a].start.le(t.nodes@[j].start),
        t.nodes@[j].end.le(t.nodes@[a].end),
    decreases j,
{
    lemma_parent_slot(t, j);
    let (p, k) = t.parent_slot(j);
    assert(t.nodes@[p].start.le(t.nodes@[j].start) && t.nodes@[j].end.le(t.nodes@[p].end)) by {
        assert(t.kids(p)[k] as int == j);
    }
    if p != a {
        lemma_descendant_contained(t, a, p);
    }
}

/// Siblings in slot order have spans in document order: an earlier
/// child's span ends at or before a later child's begins.
proof fn lemma_sibling_gap(t: SyntaxTree, p: int, k1: int, k2: int)
    requires
        t.wf(),
        t.valid_slot(p, k1),
        t.valid_slot(p, k2),
        k1 < k2,
    ensures
        t.nodes@[t.kids(p)[k1] as int].end.le(t.nodes@[t.kids(p)[k2] as int].start),
    decreases k2 - k1,
{
    assert(t.nodes@[t.kids(p)[k1] as int].end.le(t.nodes@[t.kids(p)[k1 + 1] as int].start));
    if k1 + 1 < k2 {
        lemma_sibling_gap(t, p, k1 + 1, k2);
        let c = t.kids(p)[k1 + 1] as int;
        assert(t.nodes@[c].start.le(t.nodes@[c].end)) by {
            assert(0 <= c < t.count()) by {
                assert(t.kids(p)[k1 + 1] == t.kids(p)[k1 + 1]);
            }
        }
    }
}

/// An ancestor reaches its descendant through one of its own child
/// slots: some child of `a` is `j` or an ancestor of `j`.
proof fn lemma_ancestor_step(t: SyntaxTree, a: int, j: int) -> (k: int)
    requires
        t.wf(),
        0 <= a < t.count(),
        1 <= j < t.count(),
        t.is_ancestor(a, j),
    ensures
        t.valid_slot(a, k),
        t.kids(a)[k] as int == j || t.is_ancestor(t.kids(a)[k] as int, j),
    decreases j,
{
    lemma_parent_slot(t, j);
    let (p, kp) = t.parent_slot(j);
    if p == a {
        kp
    } else {
        assert(t.is_ancestor(a, p));
        let k = lemma_ancestor_step(t, a, p);
        k
    }
}

/// Two distinct nodes of a well-formed tree are related in exactly one
/// of three ways: one is an ancestor of the other, or their spans are
/// disjoint.
proof fn lemma_separation(t: SyntaxTree, x: int, y: int)
    requires
        t.wf(),
        0 <= x < t.count(),
        0 <= y < t.count(),
        x != y,
    ensures
        t.is_ancestor(x, y) || t.is_ancestor(y, x) || t.nodes@[x].end.le(t.nodes@[y].start)
            || t.nodes@[y].end.le(t.nodes@[x].start),
    decreases x + y,
{
    let (lo, hi): (int, int) = if x < y {
        (x, y)
    } else {
        (y, x)
    };
    lemma_parent_slot(t, hi);
    let (p, kp) = t.parent_slot(hi);
    if p == lo {
        assert(t.is_ancestor(lo, hi));
    } else {
        lemma_separation(t, lo, p);
        if t.is_ancestor(lo, p) {
            assert(t.is_ancestor(lo, hi));
        } else if t.is_ancestor(p, lo) {
            let k = lemma_ancestor_step(t, p, lo);
            let c = t.kids(p)[k] as int;
            assert(0 <= c < t.count());
            if k == kp {
                assert(c == hi);
                assert(c == lo || t.is_ancestor(c, lo));
                assert(t.is_ancestor(hi, lo));
            } else {
                assert(t.nodes@[lo].start == t.nodes@[c].start && t.nodes@[lo].end
                    == t.nodes@[c].end || (t.nodes@[c].start.le(t.nodes@[lo].start)
                    && t.nodes@[lo].end.le(t.nodes@[c].end))) by {
                    if c == lo {
                    } else {
                        lemma_descendant_contained(t, c, lo);
                    }
                }
                if k < kp {
                    lemma_sibling_gap(t, p, k, kp);
                } else {
                    lemma_sibling_gap(t, p, kp, k);
                }
            }
        } else {
            assert(t.nodes@[p].start.le(t.nodes@[hi].start) && t.nodes@[hi].end.le(
                t.nodes@[p].end,
            )) by {
                assert(t.kids(p)[kp] as int == hi);
            }
        }
    }
}

/// An ancestor has at least one child, so a leaf is no node's ancestor.
proof fn lemma_ancestor_not_leaf(t: SyntaxTree, a: int, j: int)
    requires
        t.wf(),
        0 <= j < t.count(),
        t.is_ancestor(a, j),
    ensures
        !t.is_leaf(a),
    decreases j,
{
    lemma_parent_slot(t, j);
    let (p, kp) = t.parent_slot(j);
    if p != a {
        lemma_ancestor_not_leaf(t, a, p);
    }
}

/// Leaf spans partition the token positions: no two distinct leaves of
/// a well-formed tree overlap — one's span ends at or before the
/// other's begins.
pub proof fn lemma_leaf_spans_disjoint(t: SyntaxTree, x: int, y: int)
    requires
        t.wf(),
        0 <= x < t.count(),
        0 <= y < t.count(),
        x != y,
        t.is_leaf(x),
        t.is_leaf(y),
    ensures
        t.nodes@[x].end.le(t.nodes@[y].start) || t.nodes@[y].end.le(t.nodes@[x].start),
{
    lemma_separation(t, x, y);
    if t.is_ancestor(x, y) {
        lemma_ancestor_not_leaf(t, x, y);
    }
    if t.is_ancestor(y, x) {
        lemma_ancestor_not_leaf(t, y, x);
    }
}

/// An element of one of the inner sequences is in the flattening.
proof fn lemma_flatten_elem<A>(ss: Seq<Seq<A>>, j: int, x: A)
    requires
        0 <= j < ss.len(),
        ss[j].contains(x),
    ensures
        ss.flatten().contains(x),
    decreases j,
{
    if j == 0 {
        let idx = choose|idx: int| 0 <= idx < ss[0].len() && ss[0][idx] == x;
        assert(ss.flatten()[idx] == x);
    } else {
        lemma_flatten_elem(ss.drop_first(), j - 1, x);
        let rest = ss.drop_first().flatten();
        let idx = choose|idx: int| 0 <= idx < rest.len() && rest[idx] == x;
        assert(ss.flatten()[ss.first().len() + idx] == x);
    }
}

/// An element of the flattening is in one of the inner sequences.
proof fn lemma_flatten_elem_inv<A>(ss: Seq<Seq<A>>, x: A) -> (j: int)
    requires
        ss.flatten().contains(x),
    ensures
        0 <= j < ss.len(),
        ss[j].contains(x),
    decreases ss.len(),
{
    assert(ss.len() > 0);
    let idx = choose|idx: int| 0 <= idx < ss.flatten().len() && ss.flatten()[idx] == x;
    if idx < ss.first().len() {
        assert(ss[0][idx] == x);
        0
    } else {
        let rest = ss.drop_first().flatten();
        assert(rest[idx - ss.first().len()] == x);
        assert(rest.contains(x));
        let j = lemma_flatten_elem_inv(ss.drop_first(), x);
        j + 1
    }
}

/// A duplicate-free sequence of indices below `n` has at most `n`
/// elements.
proof fn lemma_distinct_bounded_len(s: Seq<usize>, n: int)
    requires
        0 <= n,
        s.no_duplicates(),
        forall|j: int| 0 <= j < s.len() ==> ((#[trigger] s[j]) as int) < n,
    ensures
        s.len() <= n,
{
    let f = |v: usize| v as int;
    let si = s.map_values(f);
    assert(vstd::relations::injective(f));
    s.lemma_no_duplicates_injective(f);
    si.unique_seq_to_set();
    assert(si.to_set().subset_of(vstd::set_lib::set_int_range(0, n))) by {
        assert forall|x: int| si.to_set().contains(x) implies vstd::set_lib::set_int_range(
            0,
            n,
        ).contains(x) by {
            let jx = choose|jx: int| 0 <= jx < si.len() && si[jx] == x;
            assert((s[jx] as int) < n);
        }
    }
    vstd::set_lib::lemma_int_range(0, n);
    vstd::set_lib::lemma_len_subset(si.to_set(), vstd::set_lib::set_int_range(0, n));
}

/// A duplicate-free sequence of indices below `n` that contains every
/// index below `n` has exactly `n` elements.
proof fn lemma_distinct_complete_len(s: Seq<usize>, n: int)
    requires
        0 <= n,
        n <= usize::MAX as int,
        s.no_duplicates(),
        forall|j: int| 0 <= j < s.len() ==> ((#[trigger] s[j]) as int) < n,
        forall|v: usize| (v as int) < n ==> s.contains(v),
    ensures
        s.len() == n,
{
    lemma_distinct_bounded_len(s, n);
    let f = |v: usize| v as int;
    let si = s.map_values(f);
    assert(vstd::relations::injective(f));
    s.lemma_no_duplicates_injective(f);
    si.unique_seq_to_set();
    vstd::set_lib::lemma_int_range(0, n);
    assert(si.to_set() =~= vstd::set_lib::set_int_range(0, n)) by {
        assert forall|x: int| si.to_set().contains(x) implies vstd::set_lib::set_int_range(
            0,
            n,
        ).contains(x) by {
            let jx = choose|jx: int| 0 <= jx < si.len() && si[jx] == x;
            assert((s[jx] as int) < n);
        }
        assert forall|x: int| vstd::set_lib::set_int_range(0, n).contains(x) implies si.to_set()
            .contains(x) by {
            let v = x as usize;
            assert(v as int == x);
            assert(s.contains(v));
            let jx = choose|jx: int| 0 <= jx < s.len() && s[jx] == v;
            assert(si[jx] == f(s[jx]));
            assert(si[jx] == x);
            assert(si.contains(x));
        }
    }
}

/// Filtering keeps only elements of the original sequence, and keeps a
/// duplicate-free sequence duplicate-free.
proof fn lemma_filter_no_dup<A>(s: Seq<A>, pred: spec_fn(A) -> bool)
    ensures
        forall|x: A| #[trigger] s.filter(pred).contains(x) ==> s.contains(x),
        s.no_duplicates() ==> s.filter(pred).no_duplicates(),
    decreases s.len(),
{
    reveal(Seq::filter);
    if s.len() == 0 {
    } else {
        let rest = s.drop_last();
        lemma_filter_no_dup(rest, pred);
        let fp = s.filter(pred);
        let rp = rest.filter(pred);
        assert forall|x: A| #[trigger] fp.contains(x) implies s.contains(x) by {
            let idx = choose|idx: int| 0 <= idx < fp.len() && fp[idx] == x;
            if pred(s.last()) && idx == fp.len() - 1 {
                assert(s[s.len() - 1] == x);
            } else {
                assert(rp[idx] == x);
                assert(rp.contains(x));
                assert(rest.contains(x));
                let idx2 = choose|idx2: int| 0 <= idx2 < rest.len() && rest[idx2] == x;
                assert(s[idx2] == x);
            }
        }
        if s.no_duplicates() {
            assert(rest.no_duplicates());
            if pred(s.last()) {
                assert(!rp.contains(s.last())) by {
                    if rp.contains(s.last()) {
                        assert(rest.contains(s.last()));
                        let idx3 = choose|idx3: int|
                            0 <= idx3 < rest.len() && rest[idx3] == s.last();
                        assert(s[idx3] == s[s.len() - 1]);
                        assert(false);
                    }
                }
                assert(fp == rp.push(s.last()));
                assert forall|a: int, b: int| 0 <= a < b < fp.len() implies fp[a] != fp[b] by {
                    if b == fp.len() - 1 {
                        assert(fp[a] == rp[a]);
                        assert(rp.contains(rp[a]));
                    }
                }
            }
        }
    }
}

/// A child about to be appended by the walk is fresh: it is not the
/// root, not a child of an earlier-yielded node, and not an
/// earlier-appended child of the node being processed.
proof fn lemma_fresh_child(t: SyntaxTree, done: Seq<usize>, start: usize, i: usize, k: int)
    requires
        t.wf(),
        !done.contains(i),
        start <= i,
        (i as int) < t.count(),
        forall|j: int| 0 <= j < done.len() ==> ((#[trigger] done[j]) as int) < t.count(),
        0 <= k < t.kids(i as int).len(),
    ensures
        !(seq![start] + t.appended(done) + t.kids(i as int).take(k)).contains(
            t.kids(i as int)[k],
        ),
{
    let c = t.kids(i as int)[k];
    let s = seq![start] + t.appended(done) + t.kids(i as int).take(k);
    assert((c as int) > (i as int) && (i as int) >= start as int);
    if s.contains(c) {
        let idx = choose|idx: int| 0 <= idx < s.len() && s[idx] == c;
        if idx == 0 {
            assert(c == start);
            assert(false);
        } else if idx < 1 + t.appended(done).len() {
            assert(t.appended(done)[idx - 1] == c);
            assert(t.appended(done).contains(c));
            let mapped = done.map_values(|v: usize| t.kids(v as int));
            let j = lemma_flatten_elem_inv(mapped, c);
            let p = done[j];
            assert(mapped[j] == t.kids(p as int));
            assert(t.kids(p as int).contains(c));
            let k2 = choose|k2: int|
                0 <= k2 < t.kids(p as int).len() && t.kids(p as int)[k2] == c;
            assert(t.kids(p as int)[k2] == t.kids(i as int)[k]);
            assert(p as int == i as int && k2 == k);
            assert(done.contains(i));
            assert(false);
        } else {
            let k2 = idx - (1 + t.appended(done).len());
            assert(t.kids(i as int).take(k)[k2] == c);
            assert(t.kids(i as int)[k2] == t.kids(i as int)[k]);
            assert(k2 == k);
            assert(false);
        }
    }
}

/// Every node of a well-formed tree is reached by a walk that has
/// drained its queue: `done` lists the root followed by the children of
/// every yielded node, so a missing node's parent chain would end at a
/// missing root.
proof fn lemma_walk_reaches(t: SyntaxTree, done: Seq<usize>, v: usize)
    requires
        t.wf(),
        done == seq![0usize] + t.appended(done),
        (v as int) < t.count(),
    ensures
        done.contains(v),
    decreases v,
{
    if v == 0 {
        assert(done[0] == 0usize);
        assert(done.contains(0usize));
    } else {
        assert(t.has_parent(v as int));
        let (p, k): (int, int) = choose|p: int, k: int|
            t.valid_slot(p, k) && (#[trigger] t.kids(p)[k]) as int == v as int;
        assert(p < (t.kids(p)[k]) as int);
        lemma_walk_reaches(t, done, p as usize);
        let jp = choose|jp: int| 0 <= jp < done.len() && done[jp] == p as usize;
        let mapped = done.map_values(|u: usize| t.kids(u as int));
        assert(mapped[jp] == t.kids(p));
        assert(t.kids(p).contains(v));
        lemma_flatten_elem(mapped, jp, v);
        let ia = choose|ia: int|
            0 <= ia < t.appended(done).len() && t.appended(done)[ia] == v;
        assert(done[1 + ia] == v);
    }
}

/// Walk the subtree rooted at `start` in level order: yield the front
/// of a pending queue, seeded with `start`, and append the yielded
/// node's children to the back. No node is yielded twice.
pub fn walk_from(t: &SyntaxTree, start: usize) -> (order: Vec<usize>)
    requires
        t.wf(),
        (start as int) < t.count(),
    ensures
        order@ == t.walk_order_from(start),
        order@ == seq![start] + t.appended(order@),
        order@.no_duplicates(),
        forall|j: int| 0 <= j < order@.len() ==> ((#[trigger] order@[j]) as int) < t.count(),
{
    let mut order: Vec<usize> = Vec::new();
    let mut queue: VecDeque<usize> = VecDeque::new();
    queue.push_back(start);
    assert(order@ + queue@ =~= seq![start] + t.appended(order@)) by {
        assert(order@.map_values(|v: usize| t.kids(v as int)) =~= Seq::<Seq<usize>>::empty());
    }
    while queue.len() > 0
        invariant
            t.wf(),
            (start as int) < t.count(),
            (order@ + queue@).no_duplicates(),
            forall|j: int|
                0 <= j < order@.len() + queue@.len() ==> (((order@ + queue@)[j]) as int) < t.count(),
            forall|j: int|
                0 <= j < order@.len() + queue@.len() ==> start <= #[trigger] (order@ + queue@)[j],
            order@ + queue@ == seq![start] + t.appended(order@),
            order@.len() + queue@.len() <= t.count(),
            t.walk_order_from(start) == t.level_order_rec(
                order@,
                queue@,
                (t.count() - order@.len()) as nat,
            ),
        decreases t.count() - order@.len(),
    {
        let ghost order0 = order@;
        let ghost queue0 = queue@;
        let i = queue.pop_front().unwrap();
        assert(queue0[0] == i);
        assert((i as int) < t.count() && start <= i) by {
            assert((order0 + queue0)[order0.len() as int] == i);
        }
        assert(!order0.contains(i)) by {
            if order0.contains(i) {
                let j = choose|j: int| 0 <= j < order0.len() && order0[j] == i;
                assert((order0 + queue0)[j] == (order0 + queue0)[order0.len() as int]);
                assert(false);
            }
        }
        order.push(i);
        let ghost mapped0 = order0.map_values(|v: usize| t.kids(v as int));
        proof {
            assert(order@.map_values(|v: usize| t.kids(v as int)) =~= mapped0.push(
                t.kids(i as int),
            ));
            mapped0.lemma_flatten_push(t.kids(i as int));
        }
        proof {
            assert(queue@ =~= queue0.drop_first() + t.kids(i as int).take(0));
            assert(order@ + queue@ =~= order0 + queue0);
            assert(order@ + queue@ =~= seq![start] + t.appended(order0) + t.kids(i as int).take(
                0,
            ));
        }
        let node = &t.nodes[i];
        let mut k: usize = 0;
        while k < node.children.len()
            invariant
                t.wf(),
                (i as int) < t.count(),
                start <= i,
                !order0.contains(i),
                queue0.len() >= 1,
                queue0[0] == i,
                (order0 + queue0).no_duplicates(),
                forall|j: int|
                    0 <= j < order0.len() + queue0.len() ==> (((order0 + queue0)[j]) as int)
                        < t.count(),
                node == t.nodes@[i as int],
                0 <= k as int <= t.kids(i as int).len(),
                order@ == order0.push(i),
                queue@ =~= queue0.drop_first() + t.kids(i as int).take(k as int),
                order@ + queue@ =~= seq![start] + t.appended(order0) + t.kids(i as int).take(
                    k as int,
                ),
                (order@ + queue@).no_duplicates(),
                forall|j: int|
                    0 <= j < order@.len() + queue@.len() ==> (((order@ + queue@)[j]) as int) < t.count(),
                forall|j: int|
                    0 <= j < order@.len() + queue@.len() ==> start <= #[trigger] (order@
                        + queue@)[j],
            decreases t.kids(i as int).len() - k,
        {
            let c = node.children[k];
            proof {
                assert(forall|j: int|
                    0 <= j < order0.len() ==> ((#[trigger] order0[j]) as int) < t.count()) by {
                    assert(forall|j: int|
                        0 <= j < order0.len() ==> order0[j] == (order0 + queue0)[j]);
                }
                lemma_fresh_child(*t, order0, start, i, k as int);
                assert(t.kids(i as int)[k as int] == c);
                assert((c as int) < t.count() && (i as int) < c as int);
            }
            let ghost all_before = order@ + queue@;
            queue.push_back(c);
            proof {
                assert(order@ + queue@ =~= all_before.push(c));
                assert(!all_before.contains(c)) by {
                    assert(all_before =~= seq![start] + t.appended(order0) + t.kids(
                        i as int,
                    ).take(k as int));
                }
                assert(t.kids(i as int).take(k as int + 1) =~= t.kids(i as int).take(
                    k as int,
                ).push(c));
            }
            k = k + 1;
        }
        proof {
            assert(t.kids(i as int).take(t.kids(i as int).len() as int) =~= t.kids(i as int));
            assert(t.appended(order@) =~= t.appended(order0) + t.kids(i as int));
            assert(order@ + queue@ =~= seq![start] + t.appended(order@));
            lemma_distinct_bounded_len(order@ + queue@, t.count());
            let fuel0 = (t.count() - order0.len()) as nat;
            assert(fuel0 > 0);
            assert(queue@ =~= queue0.drop_first() + t.kids(queue0[0] as int));
            assert(t.level_order_rec(order0, queue0, fuel0) == t.level_order_rec(
                order@,
                queue@,
                (fuel0 - 1) as nat,
            ));
        }
    }
    proof {
        assert(order@ =~= order@ + queue@);
        assert(order@ == seq![start] + t.appended(order@));
        assert(t.level_order_rec(order@, queue@, (t.count() - order@.len()) as nat) == order@);
        assert(order@.no_duplicates());
        assert forall|j: int| 0 <= j < order@.len() implies ((#[trigger] order@[j]) as int)
            < t.count() by {
            assert(order@[j] == (order@ + queue@)[j]);
        }
    }
    order
}

/// Walk the whole tree in level order, root first. The walk yields
/// every node of the tree exactly once.
pub fn walk(t: &SyntaxTree) -> (order: Vec<usize>)
    requires
        t.wf(),
    ensures
        order@ == t.walk_order(),
        order@.len() == t.count(),
        order@.no_duplicates(),
        forall|j: int| 0 <= j < order@.len() ==> ((#[trigger] order@[j]) as int) < t.count(),
        forall|v: usize| (v as int) < t.count() ==> order@.contains(v),
{
    let order = walk_from(t, 0);
    let n_nodes = t.nodes.len();
    proof {
        assert(t.count() == n_nodes as int);
        assert forall|v: usize| (v as int) < t.count() implies order@.contains(v) by {
            lemma_walk_reaches(*t, order@, v);
        }
        lemma_distinct_complete_len(order@, t.count());
    }
    order
}

/// The leaves of the tree, in level order: the walk filtered to nodes
/// with no children.
pub fn leaves(t: &SyntaxTree) -> (ls: Vec<usize>)
    requires
        t.wf(),
    ensures
        ls@ == t.leaf_order(),
        forall|j: int|
            0 <= j < ls@.len() ==> t.is_leaf((#[trigger] ls@[j]) as int) && (ls@[j] as int)
                < t.count(),
        forall|v: usize| (v as int) < t.count() && t.is_leaf(v as int) ==> #[trigger] ls@.contains(
            v,
        ),
        ls@.no_duplicates(),
{
    let order = walk(t);
    let ghost pred = |v: usize| t.is_leaf(v as int);
    let ghost w = t.walk_order();
    let mut ls: Vec<usize> = Vec::new();
    let mut m: usize = 0;
    proof {
        reveal(Seq::filter);
        assert(w.take(0).filter(pred) =~= Seq::<usize>::empty());
    }
    while m < order.len()
        invariant
            t.wf(),
            order@ == w,
            w.len() == t.count(),
            w.no_duplicates(),
            forall|j: int| 0 <= j < w.len() ==> ((#[trigger] w[j]) as int) < t.count(),
            pred == (|v: usize| t.is_leaf(v as int)),
            0 <= m as int <= w.len(),
            ls@ == w.take(m as int).filter(pred),
        decreases w.len() - m,
    {
        let v = order[m];
        let is_leaf_node = t.nodes[v].children.len() == 0;
        proof {
            reveal(Seq::filter);
            assert(w.take(m as int + 1).drop_last() =~= w.take(m as int));
            assert(w.take(m as int + 1).last() == v);
        }
        if is_leaf_node {
            ls.push(v);
        }
        m = m + 1;
    }
    proof {
        assert(w.take(w.len() as int) =~= w);
        broadcast use vstd::seq_lib::group_filter_ensures;

        assert(ls@ == w.filter(pred));
        w.lemma_filter_len(pred);
        lemma_filter_no_dup(w, pred);
        assert forall|j: int| 0 <= j < ls@.len() implies t.is_leaf(
            (#[trigger] ls@[j]) as int,
        ) && (ls@[j] as int) < t.count() by {
            assert(pred(ls@[j]));
            assert(w.filter(pred).contains(ls@[j])) by {
                assert(w.filter(pred)[j] == ls@[j]);
            }
            assert(w.contains(ls@[j]));
            let jx = choose|jx: int| 0 <= jx < w.len() && w[jx] == ls@[j];
            assert((w[jx] as int) < t.count());
        }
        assert forall|v: usize| (v as int) < t.count() && t.is_leaf(
            v as int,
        ) implies #[trigger] ls@.contains(v) by {
            assert(w.contains(v));
            let ix = choose|ix: int| 0 <= ix < w.len() && w[ix] == v;
            assert(pred(w[ix]));
            w.lemma_filter_contains(pred, ix);
        }
    }
    ls
}

} // verus!
