use hiliter::span::Position;
use hiliter::tree::leaves;
use hiliter::tree::walk;
use hiliter::tree::walk_from;
use hiliter::tree::NodeData;
use hiliter::tree::SyntaxTree;

fn node(kind: &str, start: (usize, usize), end: (usize, usize), children: Vec<usize>) -> NodeData {
    NodeData {
        kind: kind.to_owned(),
        start: Position { line: start.0, col: start.1 },
        end: Position { line: end.0, col: end.1 },
        children,
    }
}

fn sample_tree() -> SyntaxTree {
    // 0 (module)
    // ├── 1 (function_definition)
    // │   ├── 3 (def)
    // │   └── 4 (identifier)
    // └── 2 (comment)
    SyntaxTree {
        nodes: vec![
            node("module", (0, 0), (1, 5), vec![1, 2]),
            node("function_definition", (0, 0), (0, 8), vec![3, 4]),
            node("comment", (1, 0), (1, 5), vec![]),
            node("def", (0, 0), (0, 3), vec![]),
            node("identifier", (0, 4), (0, 5), vec![]),
        ],
    }
}

#[test]
fn walk_is_level_order() {
    let t = sample_tree();
    let order = walk(&t);
    assert_eq!(order, vec![0, 1, 2, 3, 4]);
}

#[test]
fn walk_yields_each_node_once() {
    let t = sample_tree();
    let order = walk(&t);
    assert_eq!(order.len(), t.nodes.len());
    for i in 0..t.nodes.len() {
        assert_eq!(order.iter().filter(|&&v| v == i).count(), 1);
    }
}

#[test]
fn leaves_have_no_children() {
    let t = sample_tree();
    let ls = leaves(&t);
    assert_eq!(ls, vec![2, 3, 4]);
    for &i in &ls {
        assert_eq!(t.nodes[i].children.len(), 0);
    }
}

#[test]
fn walk_from_subtree_root() {
    let t = sample_tree();
    assert_eq!(walk_from(&t, 1), vec![1, 3, 4]);
    assert_eq!(walk_from(&t, 2), vec![2]);
}

#[test]
fn single_node_tree() {
    let t = SyntaxTree { nodes: vec![node("module", (0, 0), (0, 0), vec![])] };
    assert_eq!(walk(&t), vec![0]);
    assert_eq!(leaves(&t), vec![0]);
}
