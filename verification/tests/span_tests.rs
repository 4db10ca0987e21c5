use hiliter::span::ranges;
use hiliter::span::ColEnd;
use hiliter::span::ColumnRange;
use hiliter::span::Position;

#[test]
fn single_line_identity() {
    let r = ranges(Position { line: 0, col: 0 }, Position { line: 0, col: 3 });
    assert_eq!(r.len(), 1);
    assert_eq!(r[0], ColumnRange { line: 0, start_col: 0, end_col: ColEnd::At(3) });
}

#[test]
fn single_line_keeps_columns() {
    let r = ranges(Position { line: 5, col: 2 }, Position { line: 5, col: 9 });
    assert_eq!(r.len(), 1);
    assert_eq!(r[0], ColumnRange { line: 5, start_col: 2, end_col: ColEnd::At(9) });
}

#[test]
fn multi_line_three_ranges() {
    let r = ranges(Position { line: 2, col: 5 }, Position { line: 4, col: 3 });
    assert_eq!(r.len(), 3);
    assert_eq!(r[0], ColumnRange { line: 2, start_col: 5, end_col: ColEnd::Open });
    assert_eq!(r[1], ColumnRange { line: 3, start_col: 0, end_col: ColEnd::Open });
    assert_eq!(r[2], ColumnRange { line: 4, start_col: 0, end_col: ColEnd::At(3) });
}

#[test]
fn two_line_span() {
    let r = ranges(Position { line: 0, col: 7 }, Position { line: 1, col: 0 });
    assert_eq!(r.len(), 2);
    assert_eq!(r[0], ColumnRange { line: 0, start_col: 7, end_col: ColEnd::Open });
    assert_eq!(r[1], ColumnRange { line: 1, start_col: 0, end_col: ColEnd::At(0) });
}

#[test]
fn span_coverage_shape() {
    let start = Position { line: 10, col: 4 };
    let end = Position { line: 17, col: 2 };
    let r = ranges(start, end);
    assert_eq!(r.len(), end.line - start.line + 1);
    for (i, cr) in r.iter().enumerate() {
        assert_eq!(cr.line, start.line + i);
        if i == 0 {
            assert_eq!(cr.start_col, start.col);
        } else {
            assert_eq!(cr.start_col, 0);
        }
        if i == r.len() - 1 {
            assert_eq!(cr.end_col, ColEnd::At(end.col));
        } else {
            assert_eq!(cr.end_col, ColEnd::Open);
        }
    }
}

#[test]
fn empty_span_one_range() {
    let r = ranges(Position { line: 3, col: 8 }, Position { line: 3, col: 8 });
    assert_eq!(r.len(), 1);
    assert_eq!(r[0], ColumnRange { line: 3, start_col: 8, end_col: ColEnd::At(8) });
}
