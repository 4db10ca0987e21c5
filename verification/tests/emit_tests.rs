use hiliter::classify::HighlightGroup;
use hiliter::emit::pass_instructions;
use hiliter::emit::PaintInstruction;
use hiliter::span::ColEnd;
use hiliter::span::ColumnRange;
use hiliter::span::Position;
use hiliter::tree::NodeData;
use hiliter::tree::SyntaxTree;

fn node(kind: &str, start: (usize, usize), end: (usize, usize), children: Vec<usize>) -> NodeData {
    NodeData {
        kind: kind.to_owned(),
        start: Position { line: start.0, col: start.1 },
        end: Position { line: end.0, col: end.1 },
        children,
    }
}

fn two_leaf_tree() -> SyntaxTree {
    SyntaxTree {
        nodes: vec![
            node("module", (0, 0), (3, 2), vec![1, 2]),
            node("def", (0, 0), (0, 3), vec![]),
            node("string", (1, 0), (3, 2), vec![]),
        ],
    }
}

#[test]
fn pass_emits_in_order() {
    let t = two_leaf_tree();
    let out = pass_instructions(&t, 7);
    let expected = vec![
        PaintInstruction {
            buffer: 7,
            group: HighlightGroup::Keyword,
            range: ColumnRange { line: 0, start_col: 0, end_col: ColEnd::At(3) },
        },
        PaintInstruction {
            buffer: 7,
            group: HighlightGroup::Normal,
            range: ColumnRange { line: 1, start_col: 0, end_col: ColEnd::Open },
        },
        PaintInstruction {
            buffer: 7,
            group: HighlightGroup::Normal,
            range: ColumnRange { line: 2, start_col: 0, end_col: ColEnd::Open },
        },
        PaintInstruction {
            buffer: 7,
            group: HighlightGroup::Normal,
            range: ColumnRange { line: 3, start_col: 0, end_col: ColEnd::At(2) },
        },
    ];
    assert_eq!(out, expected);
}

#[test]
fn non_leaf_nodes_emit_nothing() {
    let t = SyntaxTree {
        nodes: vec![
            node("module", (0, 0), (0, 5), vec![1]),
            node("identifier", (0, 0), (0, 5), vec![]),
        ],
    };
    let out = pass_instructions(&t, 0);
    assert_eq!(out.len(), 1);
    assert_eq!(out[0].group, HighlightGroup::Identifier);
}

#[test]
fn replay_same_tree_same_instructions() {
    let t = two_leaf_tree();
    let first = pass_instructions(&t, 0);
    let second = pass_instructions(&t, 0);
    assert_eq!(first, second);
}
