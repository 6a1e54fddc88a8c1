//! Positions in the editor's text and their order.

use std::ops::Range;

use vstd::prelude::*;

verus! {

/// A position in the text: a line and a column on it.
#[derive(Debug, Clone, Copy, PartialEq, Eq, Structural, Default)]
pub struct Position {
    pub line: usize,
    pub column: usize,
}

/// The cursor: where it is and, when text is selected, the other end of
/// the selection.
#[derive(Debug, Clone, Copy, PartialEq, Eq, Structural)]
pub struct Cursor {
    pub position: Position,
    pub selection: Option<Position>,
}

/// `a` comes no later than `b`: on an earlier line, or on the same line at
/// or before it.
pub open spec fn position_le(a: Position, b: Position) -> bool {
    a.line < b.line || (a.line == b.line && a.column <= b.column)
}

/// Order two positions so that the earlier one comes first.
pub fn ordered_positions<'a>(a: &'a Position, b: &'a Position) -> (r: (&'a Position, &'a Position))
    ensures
        position_le(*a, *b) ==> r == (a, b),
        !position_le(*a, *b) ==> r == (b, a),
        position_le(*r.0, *r.1),
{
    if a.line < b.line || (a.line == b.line && a.column <= b.column) {
        (a, b)
    } else {
        (b, a)
    }
}

/// The length of line `l`, or 0 past the last line.
pub open spec fn len_at(lens: Seq<usize>, l: int) -> usize {
    if 0 <= l < lens.len() {
        lens[l]
    } else {
        0
    }
}

/// The columns of line `l` inside the selection from `start` to `end`:
/// from the start column on the first line, to the end column on the last,
/// the whole line in between.
pub open spec fn line_range(start: Position, end: Position, lens: Seq<usize>, l: int) -> Range<usize> {
    Range {
        start: if l == start.line { start.column } else { 0 },
        end: if l == end.line { end.column } else { len_at(lens, l) },
    }
}

/// The first position from line `l` on whose line range in the selection is
/// not empty, or the selection's start if there is none.
pub open spec fn style_position_from(start: Position, end: Position, lens: Seq<usize>, l: int) -> Position
    decreases end.line - l,
{
    let r = line_range(start, end, lens, l);
    if r.start < r.end {
        Position { line: l as usize, column: r.start }
    } else if l >= end.line {
        start
    } else {
        style_position_from(start, end, lens, l + 1)
    }
}

fn line_len_at(lens: &[usize], l: usize) -> (n: usize)
    ensures
        n == len_at(lens@, l as int),
{
    if l < lens.len() {
        lens[l]
    } else {
        0
    }
}

/// Where the style of a selection between `pos` and `sel` is read: the
/// first character of its first non-empty line, skipping blank lines so the
/// style reflects actual content, or its start if all of it is empty.
/// `line_lens` holds the length of each line.
pub fn selection_style_position(pos: &Position, sel: &Position, line_lens: &[usize]) -> (p: Position)
    ensures
        p == ({
            let (s, e) = if position_le(*pos, *sel) { (*pos, *sel) } else { (*sel, *pos) };
            style_position_from(s, e, line_lens@, s.line as int)
        }),
{
    let (start, end) = ordered_positions(pos, sel);
    let mut line = start.line;
    loop
        invariant
            start.line <= line <= end.line,
            position_le(*start, *end),
            (*start, *end) == if position_le(*pos, *sel) {
                (*pos, *sel)
            } else {
                (*sel, *pos)
            },
            style_position_from(*start, *end, line_lens@, start.line as int)
                == style_position_from(*start, *end, line_lens@, line as int),
        decreases end.line - line,
    {
        let col_start = if line == start.line { start.column } else { 0 };
        let col_end = if line == end.line { end.column } else { line_len_at(line_lens, line) };
        if col_start < col_end {
            return Position { line, column: col_start };
        }
        if line == end.line {
            return *start;
        }
        line += 1;
    }
}

/// The non-empty column range of each line of the selection from `pos` to
/// `sel`, in line order.
pub open spec fn selection_ranges_from(start: Position, end: Position, lens: Seq<usize>, l: int) -> Seq<(usize, Range<usize>)>
    decreases end.line - l,
{
    if l > end.line {
        Seq::empty()
    } else {
        let r = line_range(start, end, lens, l);
        let rest = if l == end.line {
            Seq::empty()
        } else {
            selection_ranges_from(start, end, lens, l + 1)
        };
        if r.start < r.end {
            seq![(l as usize, r)] + rest
        } else {
            rest
        }
    }
}

/// The line and column range of each non-empty line of the selection between
/// `pos` and `sel`, in line order: what a formatting change over the
/// selection applies to. `line_lens` holds the length of each line.
pub fn selection_line_ranges(pos: &Position, sel: &Position, line_lens: &[usize]) -> (ranges: Vec<(usize, Range<usize>)>)
    ensures
        ranges@ == ({
            let (s, e) = if position_le(*pos, *sel) { (*pos, *sel) } else { (*sel, *pos) };
            selection_ranges_from(s, e, line_lens@, s.line as int)
        }),
{
    let (start, end) = ordered_positions(pos, sel);
    let mut ranges: Vec<(usize, Range<usize>)> = Vec::new();
    let mut line = start.line;
    loop
        invariant
            start.line <= line <= end.line,
            position_le(*start, *end),
            (*start, *end) == if position_le(*pos, *sel) {
                (*pos, *sel)
            } else {
                (*sel, *pos)
            },
            selection_ranges_from(*start, *end, line_lens@, start.line as int)
                == ranges@ + selection_ranges_from(*start, *end, line_lens@, line as int),
        decreases end.line - line,
    {
        let ghost before = ranges@;
        let col_start = if line == start.line { start.column } else { 0 };
        let col_end = if line == end.line { end.column } else { line_len_at(line_lens, line) };
        if col_start < col_end {
            ranges.push((line, col_start..col_end));
        }
        if line == end.line {
            assert(ranges@ =~= before + selection_ranges_from(*start, *end, line_lens@, line as int));
            assert(selection_ranges_from(*start, *end, line_lens@, start.line as int) =~= ranges@);
            return ranges;
        }
        assert(before + selection_ranges_from(*start, *end, line_lens@, line as int)
            =~= ranges@ + selection_ranges_from(*start, *end, line_lens@, line + 1));
        line += 1;
    }
}

/// The first and last lines a paragraph-level change covers: the lines of
/// the selection's earlier and later ends, or the cursor's line twice when
/// nothing is selected.
pub open spec fn format_lines_spec(cursor: Cursor) -> (usize, usize) {
    match cursor.selection {
        Some(sel) => {
            if position_le(cursor.position, sel) {
                (cursor.position.line, sel.line)
            } else {
                (sel.line, cursor.position.line)
            }
        },
        None => (cursor.position.line, cursor.position.line),
    }
}

/// The first and last lines, both included, that a paragraph-level change
/// covers.
pub fn format_lines(cursor: &Cursor) -> (r: (usize, usize))
    ensures
        r == format_lines_spec(*cursor),
        r.0 <= r.1,
{
    match &cursor.selection {
        Some(sel) => {
            let (start, end) = ordered_positions(&cursor.position, sel);
            (start.line, end.line)
        },
        None => (cursor.position.line, cursor.position.line),
    }
}

/// The paragraph of `line`, or `default` past the end of the list.
pub open spec fn paragraph_at_spec<P>(paras: Seq<P>, line: int, default: P) -> P {
    if 0 <= line < paras.len() {
        paras[line]
    } else {
        default
    }
}

/// The paragraph of `line`, or `default` past the end of the list.
pub fn paragraph_at<P: Copy>(paras: &[P], line: usize, default: P) -> (p: P)
    ensures
        p == paragraph_at_spec(paras@, line as int, default),
{
    if line < paras.len() {
        paras[line]
    } else {
        default
    }
}

/// Each line a paragraph-level change covers, in order, with the paragraph
/// it has before the change (`default` past the end of the list).
pub fn covered_paragraphs<P: Copy>(cursor: &Cursor, paras: &[P], default: P) -> (r: Vec<(usize, P)>)
    ensures
        r@.len() == format_lines_spec(*cursor).1 - format_lines_spec(*cursor).0 + 1,
        forall|i: int|
            0 <= i < r@.len() ==> #[trigger] r@[i] == (
                (format_lines_spec(*cursor).0 + i) as usize,
                paragraph_at_spec(paras@, format_lines_spec(*cursor).0 + i, default),
            ),
{
    let (first, last) = format_lines(cursor);
    let mut r: Vec<(usize, P)> = Vec::new();
    let mut line: usize = first;
    loop
        invariant_except_break
            first <= line <= last,
            r@.len() == line - first,
        invariant
            (first, last) == format_lines_spec(*cursor),
            forall|i: int|
                0 <= i < r@.len() ==> #[trigger] r@[i] == (
                    (first + i) as usize,
                    paragraph_at_spec(paras@, first + i, default),
                ),
        ensures
            r@.len() == last - first + 1,
        decreases last - line,
    {
        let p = paragraph_at(paras, line, default);
        r.push((line, p));
        if line == last {
            break;
        }
        line = line + 1;
    }
    r
}

} // verus!
