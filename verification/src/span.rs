//! Span decomposition: turning a (start, end) position pair into
//! per-line column ranges, one range per source line the span touches.

use vstd::prelude::*;

verus! {

/// A zero-based (line, column) position in a text document, as reported
/// by the parser for node boundaries.
#[derive(Clone, Copy, Debug, PartialEq, Eq, Structural)]
pub struct Position {
    pub line: usize,
    pub col: usize,
}

impl Position {
    /// Lexicographic order on (line, col): the order of positions in the
    /// document.
    pub open spec fn le(self, other: Position) -> bool {
        self.line < other.line || (self.line == other.line && self.col <= other.col)
    }

    /// Decide the lexicographic order between two positions.
    pub fn at_or_before(&self, other: &Position) -> (r: bool)
        ensures
            r == self.le(*other),
    {
        self.line < other.line || (self.line == other.line && self.col <= other.col)
    }
}

/// The right end of a column range: either a concrete column, or open,
/// meaning "to the end of the line".
#[derive(Clone, Copy, Debug, PartialEq, Eq, Structural)]
pub enum ColEnd {
    Open,
    At(usize),
}

/// A per-line fragment of a span: columns `start_col` up to `end_col`
/// (or to the end of the line) on line `line`.
#[derive(Clone, Copy, Debug, PartialEq, Eq, Structural)]
pub struct ColumnRange {
    pub line: usize,
    pub start_col: usize,
    pub end_col: ColEnd,
}

/// The `i`-th column range of the span from `start` to `end`: it lies on
/// line `start.line + i`, begins at `start.col` on the first line and at
/// column 0 on every later line, and runs to the end of the line except
/// on the last line, where it stops at `end.col`.
pub open spec fn range_at(start: Position, end: Position, i: int) -> ColumnRange {
    ColumnRange {
        line: (start.line + i) as usize,
        start_col: if i == 0 {
            start.col
        } else {
            0
        },
        end_col: if start.line + i == end.line {
            ColEnd::At(end.col)
        } else {
            ColEnd::Open
        },
    }
}

/// The full decomposition of the span from `start` to `end`: one range
/// per line, in increasing line order.
pub open spec fn spec_ranges(start: Position, end: Position) -> Seq<ColumnRange> {
    Seq::new((end.line - start.line + 1) as nat, |i: int| range_at(start, end, i))
}

/// Decompose a span into per-line column ranges.
///
/// For a single-line span this yields exactly one range carrying the
/// span's own columns; for a multi-line span the first line runs open to
/// its end, every strictly interior line is covered whole, and the last
/// line runs from column 0 to `end.col`.
pub fn ranges(start: Position, end: Position) -> (r: Vec<ColumnRange>)
    requires
        start.le(end),
        end.line - start.line < usize::MAX,
    ensures
        r@ == spec_ranges(start, end),
{
    let count: usize = end.line - start.line + 1;
    let mut r: Vec<ColumnRange> = Vec::new();
    let mut i: usize = 0;
    while i < count
        invariant
            start.le(end),
            count == end.line - start.line + 1,
            0 <= i <= count,
            r@ =~= spec_ranges(start, end).take(i as int),
        decreases count - i,
    {
        let line: usize = start.line + i;
        let start_col: usize = if i == 0 {
            start.col
        } else {
            0
        };
        let end_col: ColEnd = if line == end.line {
            ColEnd::At(end.col)
        } else {
            ColEnd::Open
        };
        r.push(ColumnRange { line, start_col, end_col });
        i = i + 1;
    }
    assert(r@ =~= spec_ranges(start, end));
    r
}

/// Span coverage: the decomposition has exactly
/// `end.line - start.line + 1` ranges; the `i`-th lies on line
/// `start.line + i`, so the lines covered are exactly those from
/// `start.line` to `end.line`, each once, in increasing order, with no
/// gaps and no overlaps; the first range begins at `start.col` and every
/// later one at column 0; every range but the last is open to the end of
/// its line, and the last stops at `end.col`.
pub proof fn lemma_span_coverage(start: Position, end: Position)
    requires
        start.le(end),
    ensures
        spec_ranges(start, end).len() == end.line - start.line + 1,
        forall|i: int|
            0 <= i <= end.line - start.line ==> (#[trigger] spec_ranges(start, end)[i]).line
                == start.line + i,
        spec_ranges(start, end)[0].start_col == start.col,
        forall|i: int|
            0 < i <= end.line - start.line ==> (#[trigger] spec_ranges(start, end)[i]).start_col
                == 0,
        forall|i: int|
            0 <= i < end.line - start.line ==> (#[trigger] spec_ranges(start, end)[i]).end_col
                == ColEnd::Open,
        spec_ranges(start, end).last().end_col == ColEnd::At(end.col),
{
}

/// Single-line identity: a span that starts and ends on one line
/// decomposes into exactly one range, carrying the span's own columns.
pub proof fn lemma_single_line_identity(start: Position, end: Position)
    requires
        start.le(end),
        start.line == end.line,
    ensures
        spec_ranges(start, end) =~= seq![
            ColumnRange { line: start.line, start_col: start.col, end_col: ColEnd::At(end.col) },
        ],
{
}

} // verus!
