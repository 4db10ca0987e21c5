//! The highlight emitter: one full recompute pass turns a parsed tree
//! into the ordered sequence of paint instructions for a target buffer.

use crate::classify::classify;
use crate::classify::spec_classify;
use crate::classify::HighlightGroup;
use crate::span::ranges;
use crate::span::spec_ranges;
use crate::span::ColumnRange;
use crate::tree::leaves;
use crate::tree::SyntaxTree;
use vstd::prelude::*;

verus! {

/// One paint call against the editor: paint `range` on buffer `buffer`
/// with the style of `group`. The editor-side namespace and priority
/// are fixed sentinels of the paint interface ("all namespaces, most
/// recent wins"), supplied where the call is encoded, so they are not
/// part of the instruction.
#[derive(Clone, Copy, Debug, PartialEq, Eq, Structural)]
pub struct PaintInstruction {
    pub buffer: usize,
    pub group: HighlightGroup,
    pub range: ColumnRange,
}

/// The paint instructions of one leaf: its span's per-line ranges, in
/// line order, each painted with the group of the leaf's kind.
pub open spec fn spec_leaf_paint(t: SyntaxTree, i: int, buffer: usize) -> Seq<PaintInstruction> {
    spec_ranges(t.nodes@[i].start, t.nodes@[i].end).map_values(
        |r: ColumnRange|
            PaintInstruction { buffer, group: spec_classify(t.nodes@[i].kind@), range: r },
    )
}

/// The instructions of the first `m` leaves of the pass, in leaf order.
pub open spec fn spec_pass_upto(t: SyntaxTree, buffer: usize, m: int) -> Seq<PaintInstruction>
    decreases m,
{
    if m <= 0 {
        Seq::empty()
    } else {
        spec_pass_upto(t, buffer, m - 1) + spec_leaf_paint(
            t,
            t.leaf_order()[m - 1] as int,
            buffer,
        )
    }
}

/// All paint instructions of one recompute pass over `t`, in emission
/// order: leaves in the walker's level order, and within a leaf its
/// ranges from first line to last.
pub open spec fn spec_pass(t: SyntaxTree, buffer: usize) -> Seq<PaintInstruction> {
    spec_pass_upto(t, buffer, t.leaf_order().len() as int)
}

/// Run one recompute pass: walk the tree, keep the leaves, classify
/// each leaf's kind, decompose its span, and emit one instruction per
/// per-line range, in order.
pub fn pass_instructions(t: &SyntaxTree, buffer: usize) -> (out: Vec<PaintInstruction>)
    requires
        t.wf(),
    ensures
        out@ == spec_pass(*t, buffer),
{
    let ls = leaves(t);
    let mut out: Vec<PaintInstruction> = Vec::new();
    let mut m: usize = 0;
    while m < ls.len()
        invariant
            t.wf(),
            ls@ == t.leaf_order(),
            forall|j: int| 0 <= j < ls@.len() ==> ((#[trigger] ls@[j]) as int) < t.count(),
            0 <= m as int <= ls@.len(),
            out@ == spec_pass_upto(*t, buffer, m as int),
        decreases ls@.len() - m,
    {
        let i = ls[m];
        let node = &t.nodes[i];
        let group = classify(&node.kind);
        let rs = ranges(node.start, node.end);
        let ghost leaf_part = spec_leaf_paint(*t, i as int, buffer);
        let mut q: usize = 0;
        while q < rs.len()
            invariant
                t.wf(),
                (i as int) < t.count(),
                node == t.nodes@[i as int],
                rs@ == spec_ranges(node.start, node.end),
                group == spec_classify(node.kind@),
                leaf_part == spec_leaf_paint(*t, i as int, buffer),
                0 <= q as int <= rs@.len(),
                leaf_part.len() == rs@.len(),
                out@ == spec_pass_upto(*t, buffer, m as int) + leaf_part.take(q as int),
            decreases rs@.len() - q,
        {
            let range = rs[q];
            out.push(PaintInstruction { buffer, group, range });
            proof {
                assert(leaf_part[q as int] == PaintInstruction { buffer, group, range });
                assert(leaf_part.take(q as int + 1) =~= leaf_part.take(q as int).push(
                    leaf_part[q as int],
                ));
                assert(out@ =~= spec_pass_upto(*t, buffer, m as int) + leaf_part.take(
                    q as int + 1,
                ));
            }
            q = q + 1;
        }
        proof {
            assert(leaf_part.take(leaf_part.len() as int) =~= leaf_part);
            assert(spec_pass_upto(*t, buffer, m as int + 1) == spec_pass_upto(
                *t,
                buffer,
                m as int,
            ) + spec_leaf_paint(*t, ls@[m as int] as int, buffer));
            assert(out@ =~= spec_pass_upto(*t, buffer, m as int + 1));
        }
        m = m + 1;
    }
    out
}

/// A replay of passes: the instruction sequences produced for a run of
/// buffer snapshots, one pass per parsed snapshot, in order.
pub open spec fn spec_replay(snapshots: Seq<SyntaxTree>, buffer: usize) -> Seq<
    Seq<PaintInstruction>,
> {
    snapshots.map_values(|t: SyntaxTree| spec_pass(t, buffer))
}

/// Idempotent replay: a pass is a pure function of the parsed snapshot
/// and the target buffer, so replaying the same run of snapshots — the
/// same buffer text seen at each notification — yields the identical
/// ordered paint instructions both times.
pub proof fn lemma_replay_idempotent(
    run1: Seq<SyntaxTree>,
    run2: Seq<SyntaxTree>,
    buffer: usize,
)
    requires
        run1 == run2,
    ensures
        spec_replay(run1, buffer) == spec_replay(run2, buffer),
{
}

} // verus!
