use hiliter::classify::classify;
use hiliter::classify::HighlightGroup;
use hiliter::parse::parse_to_tree;
use hiliter::parse::recompute_pass;
use hiliter::span::ranges;
use hiliter::span::Position;
use hiliter::tree::leaves;

#[test]
fn parses_def_and_identifier_leaves() {
    let t = parse_to_tree("def f():\n  pass\n").expect("parse failed");
    let ls = leaves(&t);
    let mut saw_def = false;
    let mut saw_identifier = false;
    for &i in &ls {
        let nd = &t.nodes[i];
        if nd.kind == "def"
            && nd.start == (Position { line: 0, col: 0 })
            && nd.end == (Position { line: 0, col: 3 })
        {
            saw_def = true;
            assert_eq!(classify(&nd.kind), HighlightGroup::Keyword);
            let r = ranges(nd.start, nd.end);
            assert_eq!(r.len(), 1);
        }
        if nd.kind == "identifier"
            && nd.start == (Position { line: 0, col: 4 })
            && nd.end == (Position { line: 0, col: 5 })
        {
            saw_identifier = true;
            assert_eq!(classify(&nd.kind), HighlightGroup::Identifier);
            let r = ranges(nd.start, nd.end);
            assert_eq!(r.len(), 1);
        }
    }
    assert!(saw_def);
    assert!(saw_identifier);
}

#[test]
fn parsed_tree_has_root_and_leaves() {
    let t = parse_to_tree("x = 1\n").expect("parse failed");
    assert!(!t.nodes.is_empty());
    let ls = leaves(&t);
    assert!(!ls.is_empty());
    for &i in &ls {
        assert_eq!(t.nodes[i].children.len(), 0);
    }
}

#[test]
fn parsed_leaves_do_not_overlap() {
    let t = parse_to_tree("def f(x):\n  return x\n").expect("parse failed");
    let ls = leaves(&t);
    let le = |p: &Position, q: &Position| p.line < q.line || (p.line == q.line && p.col <= q.col);
    for i in 0..ls.len() {
        for j in (i + 1)..ls.len() {
            let a = &t.nodes[ls[i]];
            let b = &t.nodes[ls[j]];
            assert!(le(&a.end, &b.start) || le(&b.end, &a.start));
        }
    }
}

#[test]
fn recompute_is_pure_in_the_text() {
    let text = "def f():\n  pass\n";
    let first = recompute_pass(text, 0).expect("parse failed");
    let second = recompute_pass(text, 0).expect("parse failed");
    assert_eq!(first, second);
    assert!(!first.is_empty());
}

#[test]
fn kind_conversion_is_not_constant() {
    // Two different buffers must classify differently: the leaf kinds
    // really come from the parser.
    let t1 = parse_to_tree("def f():\n  pass\n").expect("parse failed");
    let t2 = parse_to_tree("x = 1\n").expect("parse failed");
    let has_def = |t: &hiliter::tree::SyntaxTree| {
        t.nodes.iter().any(|n| n.kind == "def" && n.children.is_empty())
    };
    assert!(has_def(&t1));
    assert!(!has_def(&t2));
}
