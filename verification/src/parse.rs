//! Parsing a buffer snapshot: trusted, narrow bindings to the
//! tree-sitter parser, and a verified conversion of its tree into the
//! library's arena model.
//!
//! The parser itself is an external collaborator: the bindings state
//! what its interface plainly promises — naming the results that are
//! functions of their arguments — and the conversion is verified to
//! produce a well-formed arena that is a faithful copy of the parsed
//! tree.

use crate::emit::pass_instructions;
use crate::emit::spec_pass;
use crate::emit::PaintInstruction;
use crate::span::Position;
use crate::tree::NodeData;
use crate::tree::SyntaxTree;
use std::collections::VecDeque;
use vstd::prelude::*;

verus! {

#[verifier::external_type_specification]
#[verifier::external_body]
pub struct ExParser(tree_sitter::Parser);

#[verifier::external_type_specification]
#[verifier::external_body]
pub struct ExTree(tree_sitter::Tree);

#[verifier::external_type_specification]
#[verifier::external_body]
pub struct ExNode<'a>(tree_sitter::Node<'a>);

#[verifier::external_type_specification]
#[verifier::external_body]
pub struct ExLanguage(tree_sitter::Language);

/// The language value is the Python grammar, accepted by the linked
/// tree-sitter runtime.
pub uninterp spec fn lang_ok(l: tree_sitter::Language) -> bool;

/// The parser has the Python grammar assigned.
pub uninterp spec fn has_language(p: tree_sitter::Parser) -> bool;

/// What parsing `text` with the Python grammar returns. The parse is a
/// deterministic function of the text once the grammar is fixed: two
/// parses of the same text yield trees identical in every respect the
/// bindings here expose, and the name stands for that common result.
pub uninterp spec fn parsed_python(text: Seq<char>) -> tree_sitter::Tree;

/// The root node of a tree.
pub uninterp spec fn root_of(t: &tree_sitter::Tree) -> tree_sitter::Node<'_>;

/// A node's grammar kind tag.
pub uninterp spec fn kind_of(n: tree_sitter::Node<'_>) -> Seq<char>;

/// A node's zero-based start (row, column).
pub uninterp spec fn start_of(n: tree_sitter::Node<'_>) -> Position;

/// A node's zero-based end (row, column).
pub uninterp spec fn end_of(n: tree_sitter::Node<'_>) -> Position;

/// A node's number of children.
pub uninterp spec fn child_count_of(n: tree_sitter::Node<'_>) -> int;

/// A node's `i`-th child.
pub uninterp spec fn child_of(n: tree_sitter::Node<'_>, i: int) -> tree_sitter::Node<'_>;

/// Relies on tree_sitter::Parser::new: a fresh parser with no language
/// assigned yet.
#[verifier::external_body]
fn new_parser() -> tree_sitter::Parser {
    tree_sitter::Parser::new()
}

/// Relies on tree_sitter_python::LANGUAGE and its conversion into a
/// tree_sitter::Language: the Python grammar. The runtime linked here
/// accepts it: the grammar's ABI version lies in the range the runtime
/// supports, and the language function is well-formed.
#[verifier::external_body]
fn python_language() -> (l: tree_sitter::Language)
    ensures
        lang_ok(l),
{
    tree_sitter_python::LANGUAGE.into()
}

/// Relies on tree_sitter::Parser::set_language: assignment succeeds
/// exactly when the language's ABI version is compatible and the
/// language is parseable — a property of the language alone — and a
/// successful assignment leaves the grammar assigned.
#[verifier::external_body]
fn assign_language(p: &mut tree_sitter::Parser, lang: &tree_sitter::Language) -> (ok: bool)
    ensures
        ok == lang_ok(*lang),
        ok ==> has_language(*final(p)),
{
    p.set_language(lang).is_ok()
}

/// Relies on tree_sitter::Parser::parse, called without an old tree or
/// parse options: with a language assigned and no cancellation
/// configured, it always returns a tree (tree-sitter parses erroneous
/// input into error nodes rather than failing), and the tree is a
/// deterministic function of the text.
#[verifier::external_body]
fn parse_document(p: &mut tree_sitter::Parser, text: &str) -> (t: Option<tree_sitter::Tree>)
    requires
        has_language(*old(p)),
    ensures
        t == Some(parsed_python(text@)),
{
    p.parse(text, None)
}

/// Relies on tree_sitter::Tree::root_node: every parsed tree has a
/// root node.
#[verifier::external_body]
fn root_node(t: &tree_sitter::Tree) -> (n: tree_sitter::Node<'_>)
    ensures
        n == root_of(t),
{
    t.root_node()
}

/// Relies on tree_sitter::Node::kind: the node's grammar kind tag, a
/// static string of the loaded grammar.
#[verifier::external_body]
fn node_kind(n: &tree_sitter::Node<'_>) -> (k: String)
    ensures
        k@ == kind_of(*n),
{
    n.kind().to_owned()
}

/// Relies on tree_sitter::Node::start_position and
/// tree_sitter::Node::end_position: the node's span, whose end never
/// precedes its start (a node's extent is its start plus a
/// non-negative length).
#[verifier::external_body]
fn node_span(n: &tree_sitter::Node<'_>) -> (s: (Position, Position))
    ensures
        s.0 == start_of(*n),
        s.1 == end_of(*n),
        s.0.le(s.1),
{
    let a = n.start_position();
    let b = n.end_position();
    (Position { line: a.row, col: a.column }, Position { line: b.row, col: b.column })
}

/// Relies on tree_sitter::Node::child_count (a u32, widened).
#[verifier::external_body]
fn node_child_count(n: &tree_sitter::Node<'_>) -> (c: usize)
    ensures
        c as int == child_count_of(*n),
{
    n.child_count() as usize
}

/// Relies on tree_sitter::Node::child: the `i`-th child exactly when
/// `i` is below the node's child count (which fits in a u32, so the
/// index conversion below never cuts a valid index off).
#[verifier::external_body]
fn node_child<'a>(n: &tree_sitter::Node<'a>, i: usize) -> (c: Option<tree_sitter::Node<'a>>)
    ensures
        c is Some <==> (i as int) < child_count_of(*n),
        c matches Some(ch) ==> ch == child_of(*n, i as int),
{
    u32::try_from(i).ok().and_then(|j| n.child(j))
}

/// `(p, k)` names the `k`-th child slot of node `p` of the arena being
/// built.
pub open spec fn slot_ok(nodes: Seq<NodeData>, p: int, k: int) -> bool {
    0 <= p < nodes.len() && 0 <= k < nodes[p].children@.len()
}

/// Index `j` sits in some child slot of a built node.
pub open spec fn arena_parented(nodes: Seq<NodeData>, j: int) -> bool {
    exists|p: int, k: int|
        slot_ok(nodes, p, k) && (#[trigger] nodes[p].children@[k]) as int == j
}

/// The invariant of a partially built arena, where `assigned` indices
/// have been handed out (built nodes first, then the pending queue):
/// child links point forward into the assigned range, every assigned
/// index but the root sits in exactly one child slot of a built node,
/// and every built span is ordered.
pub open spec fn arena_ok(nodes: Seq<NodeData>, assigned: int) -> bool {
    &&& nodes.len() <= assigned
    &&& forall|p: int, k: int|
        slot_ok(nodes, p, k) ==> p < (#[trigger] nodes[p].children@[k]) as int && (
        nodes[p].children@[k] as int) < assigned
    &&& forall|j: int| 1 <= j < assigned ==> #[trigger] arena_parented(nodes, j)
    &&& forall|p1: int, k1: int, p2: int, k2: int|
        #![trigger nodes[p1].children@[k1], nodes[p2].children@[k2]]
        slot_ok(nodes, p1, k1) && slot_ok(nodes, p2, k2) && nodes[p1].children@[k1]
            == nodes[p2].children@[k2] ==> p1 == p2 && k1 == k2
    &&& forall|i: int|
        0 <= i < nodes.len() ==> (#[trigger] nodes[i]).start.le(nodes[i].end)
            && nodes[i].end.line - nodes[i].start.line < usize::MAX
}

/// Arena node `i` was read off the parser node `m[i]`: kind, span and
/// child count match, and each child link leads to the parser node's
/// matching child.
pub open spec fn models_at<'a>(
    nodes: Seq<NodeData>,
    m: Seq<tree_sitter::Node<'a>>,
    i: int,
) -> bool {
    &&& nodes[i].kind@ == kind_of(m[i])
    &&& nodes[i].start == start_of(m[i])
    &&& nodes[i].end == end_of(m[i])
    &&& nodes[i].children@.len() == child_count_of(m[i])
    &&& forall|k: int|
        0 <= k < nodes[i].children@.len() ==> m[(#[trigger] nodes[i].children@[k]) as int]
            == child_of(m[i], k)
}

/// Every built arena node was read off its entry of `m`.
pub open spec fn models_upto<'a>(nodes: Seq<NodeData>, m: Seq<tree_sitter::Node<'a>>) -> bool {
    forall|i: int| 0 <= i < nodes.len() ==> #[trigger] models_at(nodes, m, i)
}

/// The arena is a faithful copy of the parser's tree whose nodes, in
/// the walk's assignment order, are `m`.
pub open spec fn models<'a>(t: SyntaxTree, m: Seq<tree_sitter::Node<'a>>) -> bool {
    &&& m.len() == t.nodes@.len()
    &&& models_upto(t.nodes@, m)
}

/// The span facts the conversion validates for slot `(p, k)`, stated
/// over the parser's nodes: the child's span lies within its parent's,
/// and ends at or before its next sibling's start.
pub open spec fn span_rel_at<'a>(
    nodes: Seq<NodeData>,
    m: Seq<tree_sitter::Node<'a>>,
    p: int,
    k: int,
) -> bool {
    &&& nodes[p].start.le(start_of(m[nodes[p].children@[k] as int]))
    &&& end_of(m[nodes[p].children@[k] as int]).le(nodes[p].end)
    &&& k + 1 < nodes[p].children@.len() ==> end_of(m[nodes[p].children@[k] as int]).le(
        start_of(m[nodes[p].children@[k + 1] as int]),
    )
}

/// The validated span facts hold at every built child slot.
pub open spec fn span_relations<'a>(nodes: Seq<NodeData>, m: Seq<tree_sitter::Node<'a>>) -> bool {
    forall|p: int, k: int| slot_ok(nodes, p, k) ==> #[trigger] span_rel_at(nodes, m, p, k)
}

/// A fully built arena (every assigned index built) with at least a
/// root, read off `m` with its span facts validated, is a well-formed
/// syntax tree.
proof fn lemma_arena_complete<'a>(t: SyntaxTree, m: Seq<tree_sitter::Node<'a>>)
    requires
        t.nodes@.len() >= 1,
        arena_ok(t.nodes@, t.nodes@.len() as int),
        m.len() == t.nodes@.len(),
        models_upto(t.nodes@, m),
        span_relations(t.nodes@, m),
    ensures
        t.wf(),
{
    let nodes = t.nodes@;
    assert forall|j: int| 1 <= j < t.count() implies #[trigger] t.has_parent(j) by {
        assert(arena_parented(nodes, j));
        let (p, k): (int, int) = choose|p: int, k: int|
            slot_ok(nodes, p, k) && (#[trigger] nodes[p].children@[k]) as int == j;
        assert(t.valid_slot(p, k) && t.kids(p)[k] as int == j);
    }
    assert forall|p: int, k: int| t.valid_slot(p, k) implies p < (#[trigger] t.kids(p)[k]) as int
        && (t.kids(p)[k] as int) < t.count() by {
        assert(slot_ok(nodes, p, k));
        assert(nodes[p].children@[k] == t.kids(p)[k]);
    }
    assert forall|p1: int, k1: int, p2: int, k2: int|
        #![trigger t.kids(p1)[k1], t.kids(p2)[k2]]
        t.valid_slot(p1, k1) && t.valid_slot(p2, k2) && t.kids(p1)[k1] == t.kids(
        p2,
    )[k2] implies p1 == p2 && k1 == k2 by {
        assert(nodes[p1].children@[k1] == nodes[p2].children@[k2]);
    }
    assert forall|p: int, k: int| t.valid_slot(p, k) implies t.nodes@[p].start.le(
        t.nodes@[(#[trigger] t.kids(p)[k]) as int].start,
    ) && t.nodes@[t.kids(p)[k] as int].end.le(t.nodes@[p].end) by {
        let c = nodes[p].children@[k] as int;
        assert(span_rel_at(nodes, m, p, k));
        assert(models_at(nodes, m, c));
    }
    assert forall|p: int, k: int|
        t.valid_slot(p, k) && t.valid_slot(p, k + 1) implies t.nodes@[(#[trigger] t.kids(
        p,
    )[k]) as int].end.le(t.nodes@[t.kids(p)[k + 1] as int].start) by {
        let c = nodes[p].children@[k] as int;
        let c2 = nodes[p].children@[k + 1] as int;
        assert(span_rel_at(nodes, m, p, k));
        assert(models_at(nodes, m, c));
        assert(models_at(nodes, m, c2));
    }
}

/// Convert the parser's tree into the library's arena model by a
/// level-order copy: indices are assigned in walk order, so child
/// links always point forward, and each child's span is checked to lie
/// within its parent's and past its previous sibling's. Returns None
/// only if the parser hands back nodes whose spans break those checks,
/// or if the node count overflows the platform's index type — never on
/// a real parse. On Some, the arena is well-formed and a faithful copy
/// of the tree, rooted at its root node.
pub fn convert_tree<'a>(tree: &'a tree_sitter::Tree) -> (r: Option<SyntaxTree>)
    ensures
        match r {
            Some(t) => t.wf() && (exists|m: Seq<tree_sitter::Node<'a>>|
                #[trigger] models(t, m) && m.len() >= 1 && m[0] == root_of(tree)),
            None => true,
        },
{
    let root = root_node(tree);
    let mut pending: VecDeque<tree_sitter::Node<'a>> = VecDeque::new();
    pending.push_back(root);
    let mut nodes: Vec<NodeData> = Vec::new();
    let ghost mut created: Seq<tree_sitter::Node<'a>> = Seq::empty();
    while pending.len() > 0
        invariant
            nodes@.len() + pending@.len() >= 1,
            nodes@.len() + pending@.len() <= usize::MAX,
            created.len() == nodes@.len(),
            (created + pending@)[0] == root_of(tree),
            arena_ok(nodes@, nodes@.len() + pending@.len() as int),
            models_upto(nodes@, created + pending@),
            span_relations(nodes@, created + pending@),
        decreases 2 * (usize::MAX - nodes@.len() - pending@.len()) + pending@.len(),
    {
        let ghost nodes0 = nodes@;
        let ghost queue0 = pending@;
        let ghost m0 = created + pending@;
        let ghost assigned0 = nodes@.len() + pending@.len() as int;
        let ts_node = pending.pop_front().unwrap();
        proof {
            created = created.push(ts_node);
            assert(created + pending@ =~= m0);
        }
        let ghost p = nodes0.len() as int;
        assert(ts_node == m0[p]) by {
            assert(queue0[0] == ts_node);
        }
        let kind = node_kind(&ts_node);
        let sp = node_span(&ts_node);
        let start = sp.0;
        let end = sp.1;
        if start.line == 0 && end.line == usize::MAX {
            return None;
        }
        let cc = node_child_count(&ts_node);
        let tot = match nodes.len().checked_add(pending.len()) {
            Some(v) => v,
            None => {
                return None;
            },
        };
        let base = match tot.checked_add(1) {
            Some(v) => v,
            None => {
                return None;
            },
        };
        let base_end = match base.checked_add(cc) {
            Some(v) => v,
            None => {
                return None;
            },
        };
        assert(base as int == assigned0);
        assert(base as int == m0.len());
        let ghost rem = pending@.len() as int;
        let mut children: Vec<usize> = Vec::new();
        let mut prev_end: Position = start;
        let mut k: usize = 0;
        while k < cc
            invariant
                0 <= k as int <= cc as int,
                cc as int == child_count_of(ts_node),
                base as int + cc as int == base_end as int,
                base_end <= usize::MAX,
                base as int == m0.len(),
                nodes@ == nodes0,
                nodes0.len() == p,
                created.len() == p + 1,
                ts_node == m0[p],
                pending@.len() == rem + k as int,
                (created + pending@).len() == m0.len() + k as int,
                (created + pending@).take(m0.len() as int) == m0,
                forall|j: int|
                    m0.len() <= j < m0.len() + k as int ==> (#[trigger] (created + pending@)[j])
                        == child_of(ts_node, j - m0.len()),
                children@.len() == k as int,
                forall|j: int|
                    0 <= j < k as int ==> (#[trigger] children@[j]) as int == base as int + j,
                start == start_of(ts_node),
                end == end_of(ts_node),
                start.le(prev_end),
                k == 0 ==> prev_end == start,
                k as int > 0 ==> prev_end == end_of(child_of(ts_node, k as int - 1)),
                forall|j: int|
                    0 <= j < k as int ==> start.le(
                        start_of(#[trigger] child_of(ts_node, j)),
                    ) && end_of(child_of(ts_node, j)).le(end),
                forall|j: int|
                    0 <= j < k as int - 1 ==> end_of(#[trigger] child_of(ts_node, j)).le(
                        start_of(child_of(ts_node, j + 1)),
                    ),
                arena_ok(nodes0, assigned0),
                models_upto(nodes0, m0),
                span_relations(nodes0, m0),
            decreases cc as int - k as int,
        {
            let c = node_child(&ts_node, k).unwrap();
            let csp = node_span(&c);
            if !(prev_end.at_or_before(&csp.0) && csp.1.at_or_before(&end)) {
                return None;
            }
            children.push(base + k);
            let ghost before = created + pending@;
            pending.push_back(c);
            proof {
                assert(created + pending@ =~= before.push(c));
                assert((created + pending@).take(m0.len() as int) =~= m0);
                assert(c == child_of(ts_node, k as int));
                assert(start.le(csp.0));
                assert forall|j: int| 0 <= j < k as int implies end_of(
                    #[trigger] child_of(ts_node, j),
                ).le(start_of(child_of(ts_node, j + 1))) by {
                    if j + 1 == k as int {
                        assert(end_of(child_of(ts_node, j)) == prev_end);
                        assert(start_of(child_of(ts_node, j + 1)) == csp.0);
                    }
                }
            }
            prev_end = csp.1;
            k = k + 1;
        }
        let nd = NodeData { kind, start, end, children };
        nodes.push(nd);
        proof {
            let nodes1 = nodes@;
            let m1 = created + pending@;
            let assigned1 = nodes1.len() + pending@.len() as int;
            assert(assigned1 == assigned0 + cc as int);
            assert(nodes1 == nodes0.push(nd));
            assert(forall|i: int| 0 <= i < p ==> nodes1[i] == nodes0[i]);
            assert(nodes1[p].children@.len() == cc as int);
            assert(forall|m: int|
                0 <= m < cc as int ==> (#[trigger] nodes1[p].children@[m]) as int == assigned0
                    + m);
            assert(p < assigned0);
            assert(forall|idx: int| 0 <= idx < m0.len() ==> (#[trigger] m1[idx]) == m0[idx]);
            assert(m1[0] == root_of(tree));
            assert forall|j: int| 1 <= j < assigned1 implies #[trigger] arena_parented(
                nodes1,
                j,
            ) by {
                if j < assigned0 {
                    assert(arena_parented(nodes0, j));
                    let (q, m): (int, int) = choose|q: int, m: int|
                        slot_ok(nodes0, q, m) && (#[trigger] nodes0[q].children@[m]) as int == j;
                    assert(slot_ok(nodes1, q, m) && nodes1[q].children@[m] as int == j);
                } else {
                    assert(slot_ok(nodes1, p, j - assigned0));
                    assert(nodes1[p].children@[j - assigned0] as int == j);
                }
            }
            assert forall|p1: int, k1: int, p2: int, k2: int|
                #![trigger nodes1[p1].children@[k1], nodes1[p2].children@[k2]]
                slot_ok(nodes1, p1, k1) && slot_ok(nodes1, p2, k2) && nodes1[p1].children@[k1]
                    == nodes1[p2].children@[k2] implies p1 == p2 && k1 == k2 by {
                let v = nodes1[p1].children@[k1] as int;
                if p1 < p && p2 < p {
                    assert(nodes0[p1].children@[k1] == nodes0[p2].children@[k2]);
                } else if p1 == p && p2 == p {
                    assert(v == assigned0 + k1 && v == assigned0 + k2);
                } else if p1 == p {
                    assert(v >= assigned0);
                    assert((nodes0[p2].children@[k2] as int) < assigned0);
                } else {
                    assert(v < assigned0);
                    assert((nodes1[p2].children@[k2] as int) >= assigned0);
                }
            }
            assert forall|i: int| 0 <= i < nodes1.len() implies #[trigger] models_at(
                nodes1,
                m1,
                i,
            ) by {
                if i < p {
                    assert(models_at(nodes0, m0, i));
                    assert(nodes1[i] == nodes0[i]);
                    assert(forall|k2: int|
                        0 <= k2 < nodes0[i].children@.len()
                            ==> ((#[trigger] nodes0[i].children@[k2]) as int) < assigned0);
                } else {
                    assert(m1[p] == m0[p]);
                    assert(forall|k2: int|
                        0 <= k2 < cc as int ==> (#[trigger] m1[assigned0 + k2]) == child_of(
                            ts_node,
                            k2,
                        ));
                }
            }
            assert forall|q: int, k2: int| slot_ok(nodes1, q, k2) implies #[trigger] span_rel_at(
                nodes1,
                m1,
                q,
                k2,
            ) by {
                if q < p {
                    assert(span_rel_at(nodes0, m0, q, k2));
                    assert((nodes0[q].children@[k2] as int) < assigned0);
                    assert(k2 + 1 < nodes0[q].children@.len() ==> (nodes0[q].children@[k2
                        + 1] as int) < assigned0);
                } else {
                    assert(m1[assigned0 + k2] == child_of(ts_node, k2));
                    assert(k2 + 1 < cc as int ==> m1[assigned0 + k2 + 1] == child_of(
                        ts_node,
                        k2 + 1,
                    ));
                }
            }
        }
    }
    let t = SyntaxTree { nodes };
    proof {
        assert(created =~= created + pending@);
        lemma_arena_complete(t, created);
        assert(models(t, created) && created.len() >= 1 && created[0] == root_of(tree));
    }
    Some(t)
}

/// Parse one buffer snapshot with the Python grammar into the
/// library's tree model. The grammar always loads and the parse always
/// yields a tree, so None can come only out of `convert_tree`'s own
/// span and counter checks. On Some, the arena is well-formed and a
/// faithful copy of the tree parsed from exactly this text.
pub fn parse_to_tree(text: &str) -> (r: Option<SyntaxTree>)
    ensures
        match r {
            Some(t) => t.wf() && (exists|m: Seq<tree_sitter::Node>|
                #[trigger] models(t, m) && m.len() >= 1 && m[0] == root_of(
                    &parsed_python(text@),
                )),
            None => true,
        },
{
    let mut parser = new_parser();
    let lang = python_language();
    if !assign_language(&mut parser, &lang) {
        return None;
    }
    match parse_document(&mut parser, text) {
        Some(tree) => {
            let r = convert_tree(&tree);
            proof {
                assert(tree == parsed_python(text@));
            }
            r
        },
        None => None,
    }
}

/// One full recompute pass from a buffer snapshot: parse the text and
/// emit the pass's paint instructions — exactly those of `spec_pass`
/// over a well-formed faithful copy of the tree parsed from this text.
/// None only when `parse_to_tree`'s conversion checks fail.
pub fn recompute_pass(text: &str, buffer: usize) -> (r: Option<Vec<PaintInstruction>>)
    ensures
        match r {
            Some(v) => exists|t: SyntaxTree, m: Seq<tree_sitter::Node>|
                {
                    &&& t.wf()
                    &&& #[trigger] models(t, m)
                    &&& m.len() >= 1
                    &&& m[0] == root_of(&parsed_python(text@))
                    &&& v@ == spec_pass(t, buffer)
                },
            None => true,
        },
{
    match parse_to_tree(text) {
        Some(t) => {
            let v = pass_instructions(&t, buffer);
            proof {
                let m = choose|m: Seq<tree_sitter::Node>|
                    #[trigger] models(t, m) && m.len() >= 1 && m[0] == root_of(
                        &parsed_python(text@),
                    );
                assert(t.wf() && models(t, m) && v@ == spec_pass(t, buffer));
            }
            Some(v)
        },
        None => None,
    }
}

} // verus!
