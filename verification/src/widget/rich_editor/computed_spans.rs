//! Computed spans -- regions where displayed text differs from the
//! underlying source value, edited through a popup.
//!
//! A [`Span`] is an atomic chip in the editor: a region whose displayed
//! text is computed from a source value (a formula `{=2+3}` shown as `5`, a
//! mention `@alice` shown as `Alice Smith`). The user does not type into the
//! displayed text; a popup edits the source value instead.

use std::ops::Range;

use vstd::prelude::*;
use vstd::string::StringSliceAdditionalSpecFns;
use vstd::utf8::*;

verus! {

/// A region where the displayed text differs from the underlying source.
#[derive(Debug)]
pub struct Span {
    /// Stable identifier assigned by the application.
    pub id: u64,
    /// Line in the displayed content.
    pub line: usize,
    /// Column range in the displayed content.
    pub display_range: Range<usize>,
    /// Byte range in the source string.
    pub source_range: Range<usize>,
    /// The value the popup's text input edits (e.g., `"{=2+3}"`).
    pub source_value: String,
    /// What's shown in the editor (e.g., `"5"`).
    pub display_value: String,
    /// Placeholder shown when the popup input is empty.
    pub placeholder: String,
    /// Whether typing inside the chip is blocked and Backspace/Delete at
    /// its boundary delete it whole.
    pub atomic: bool,
    /// Whether entering the span with the cursor opens a popup.
    pub popup: bool,
}

/// An action produced by computed-span interaction.
#[derive(Debug, PartialEq, Eq)]
pub enum Action {
    /// The user changed the source value in the popup.
    Input { id: u64, value: String },
    /// The user confirmed the edit (Enter in popup).
    Confirm { id: u64 },
    /// The user dismissed the popup (Escape); `original` is the source
    /// value when the popup first opened, for revert.
    Dismiss { id: u64, original: String },
    /// The user deleted the entire span (Backspace/Delete at boundary).
    Delete { id: u64 },
}

impl Clone for Action {
    fn clone(&self) -> (r: Self)
        ensures
            r == *self,
    {
        match self {
            Action::Input { id, value } => Action::Input { id: *id, value: value.clone() },
            Action::Confirm { id } => Action::Confirm { id: *id },
            Action::Dismiss { id, original } => Action::Dismiss { id: *id, original: original.clone() },
            Action::Delete { id } => Action::Delete { id: *id },
        }
    }
}

} // verus!

verus! {

broadcast use {encode_utf8_valid_utf8, valid_utf8_concat, is_char_boundary_start_end_of_seq};

/// The last character boundary of `d` at or before byte `i` (`0` at the
/// latest).
pub open spec fn floor_boundary(d: Seq<u8>, i: int) -> int
    decreases i,
{
    if i <= 0 {
        0
    } else if is_char_boundary(d, i) {
        i
    } else {
        floor_boundary(d, i - 1)
    }
}

proof fn lemma_floor_boundary(d: Seq<u8>, i: int)
    requires
        valid_utf8(d),
        0 <= i <= d.len(),
    ensures
        0 <= floor_boundary(d, i) <= i,
        is_char_boundary(d, floor_boundary(d, i)),
        forall|q: int| floor_boundary(d, i) < q <= i ==> !is_char_boundary(d, q),
    decreases i,
{
    if i > 0 && !is_char_boundary(d, i) {
        lemma_floor_boundary(d, i - 1);
    }
}

/// The bytes of valid UTF-8 between two of its character boundaries are
/// valid UTF-8.
proof fn lemma_slice_valid(d: Seq<u8>, a: int, b: int)
    requires
        valid_utf8(d),
        0 <= a <= b <= d.len(),
        is_char_boundary(d, a),
        is_char_boundary(d, b),
    ensures
        valid_utf8(d.subrange(a, b)),
{
    valid_utf8_split(d, b);
    let p = d.subrange(0, b);
    if 0 < a && a < b {
        is_char_boundary_iff_not_is_continuation_byte(d, a);
        is_char_boundary_iff_not_is_continuation_byte(p, a);
        assert(p[a] == d[a]);
    }
    assert(is_char_boundary(p, a));
    valid_utf8_split(p, a);
    assert(p.subrange(a, p.len() as int) =~= d.subrange(a, b));
}

/// The last character boundary of `s` at or before byte `i`.
fn floor_char_boundary(s: &str, i: usize) -> (p: usize)
    requires
        i <= s.spec_bytes().len(),
    ensures
        p == floor_boundary(s.spec_bytes(), i as int),
{
    let ghost b = s.spec_bytes();
    let mut p = i;
    while p > 0 && !s.is_char_boundary(p)
        invariant
            b == s.spec_bytes(),
            p <= i,
            floor_boundary(b, p as int) == floor_boundary(b, i as int),
        decreases p,
    {
        p = p - 1;
    }
    p
}

/// `i` as an integer, but no more than `n`.
pub open spec fn clamped(i: usize, n: int) -> int {
    if (i as int) < n {
        i as int
    } else {
        n
    }
}

/// The UTF-8 bytes of a string.
pub open spec fn bytes_of(s: String) -> Seq<u8> {
    encode_utf8(s@)
}

/// Where a cursor at `line` and byte `column` lands in `lines`: on the last
/// line at most, at its end at most, and back on a character boundary;
/// `(0, 0)` when there are no lines.
pub open spec fn clamped_cursor(lines: Seq<String>, line: usize, column: usize) -> (usize, usize) {
    if lines.len() == 0 {
        (0, 0)
    } else {
        let l = clamped(line, lines.len() - 1);
        let d = bytes_of(lines[l]);
        (l as usize, floor_boundary(d, clamped(column, d.len() as int)) as usize)
    }
}

/// Bring a cursor back inside the text after the text was rebuilt: a line
/// that no longer exists becomes the last, a column past the end of the
/// line becomes its end, and a column inside a character moves back to the
/// character's start.
pub fn clamp_cursor(lines: &[String], line: usize, column: usize) -> (r: (usize, usize))
    ensures
        r == clamped_cursor(lines@, line, column),
        lines@.len() > 0 ==> r.0 < lines@.len() && is_char_boundary(bytes_of(lines@[r.0 as int]), r.1 as int),
{
    let n = lines.len();
    if n == 0 {
        return (0, 0);
    }
    let l = if line < n - 1 { line } else { n - 1 };
    let text = lines[l].as_str();
    proof {
        assert(text.spec_bytes() == bytes_of(lines@[l as int]));
    }
    let len = text.as_bytes().len();
    let c = if column < len { column } else { len };
    let col = floor_char_boundary(text, c);
    proof {
        lemma_floor_boundary(text.spec_bytes(), c as int);
    }
    (l, col)
}

/// `s` is a chip on `line` whose display range has `column` strictly
/// inside it.
pub open spec fn column_inside(s: Span, line: usize, column: usize) -> bool {
    s.line == line && s.display_range.start < column && column < s.display_range.end
}

/// Move a cursor that landed strictly inside a chip to the chip's end: the
/// first chip on the cursor's line that has the column strictly inside its
/// display range gives the new line and column; `None` when there is no
/// such chip and the cursor stays where it is.
pub fn snap_out_of_chip(spans: &[Span], line: usize, column: usize) -> (r: Option<(usize, usize)>)
    ensures
        r is None <==> forall|k: int| 0 <= k < spans@.len() ==> !column_inside(#[trigger] spans@[k], line, column),
        r matches Some(p) ==> exists|k: int|
            0 <= k < spans@.len() && column_inside(spans@[k], line, column)
                && (forall|j: int| 0 <= j < k ==> !column_inside(#[trigger] spans@[j], line, column))
                && p == (spans@[k].line, spans@[k].display_range.end),
{
    let mut i: usize = 0;
    while i < spans.len()
        invariant
            i <= spans@.len(),
            forall|j: int| 0 <= j < i ==> !column_inside(#[trigger] spans@[j], line, column),
        decreases spans@.len() - i,
    {
        let s = &spans[i];
        if s.line == line && s.display_range.start < column && column < s.display_range.end {
            return Some((s.line, s.display_range.end));
        }
        i += 1;
    }
    None
}

/// `k` is the first chip with identifier `id`.
pub open spec fn is_first_with_id(spans: Seq<Span>, id: u64, k: int) -> bool {
    &&& 0 <= k < spans.len()
    &&& spans[k].id == id
    &&& forall|j: int| 0 <= j < k ==> #[trigger] spans[j].id != id
}

pub open spec fn has_id(spans: Seq<Span>, id: u64) -> bool {
    exists|k: int| 0 <= k < spans.len() && #[trigger] spans[k].id == id
}

/// The index of the first chip with identifier `id`.
fn find_id(spans: &[Span], id: u64) -> (r: Option<usize>)
    ensures
        r is None <==> !has_id(spans@, id),
        r matches Some(k) ==> is_first_with_id(spans@, id, k as int),
{
    let mut i: usize = 0;
    while i < spans.len()
        invariant
            i <= spans@.len(),
            forall|j: int| 0 <= j < i ==> #[trigger] spans@[j].id != id,
        decreases spans@.len() - i,
    {
        if spans[i].id == id {
            return Some(i);
        }
        i += 1;
    }
    None
}

/// Which end of a chip the cursor is at.
#[derive(Debug, Clone, Copy, PartialEq, Eq, Structural)]
pub enum ChipAnchor {
    Start,
    End,
}

/// The end of chip `s` at `line` and `column`, if the cursor is at one.
pub open spec fn anchor_of(s: Span, line: usize, column: usize) -> Option<ChipAnchor> {
    if line != s.line {
        None
    } else if column == s.display_range.start {
        Some(ChipAnchor::Start)
    } else if column == s.display_range.end {
        Some(ChipAnchor::End)
    } else {
        None
    }
}

/// Which end of the first chip with identifier `id` a cursor at `line` and
/// `column` is pinned to, so that it can be put back at that end once the
/// chip's display has changed; `None` when there is no such chip or the
/// cursor is at neither end.
pub fn chip_anchor(spans: &[Span], id: u64, line: usize, column: usize) -> (r: Option<ChipAnchor>)
    ensures
        !has_id(spans@, id) ==> r is None,
        forall|k: int| is_first_with_id(spans@, id, k) ==> r == anchor_of(#[trigger] spans@[k], line, column),
{
    match find_id(spans, id) {
        None => None,
        Some(k) => {
            let s = &spans[k];
            if line != s.line {
                None
            } else if column == s.display_range.start {
                Some(ChipAnchor::Start)
            } else if column == s.display_range.end {
                Some(ChipAnchor::End)
            } else {
                None
            }
        },
    }
}

/// The position of chip `s` at `anchor`.
pub open spec fn anchored_at(s: Span, anchor: ChipAnchor) -> (usize, usize) {
    match anchor {
        ChipAnchor::Start => (s.line, s.display_range.start),
        ChipAnchor::End => (s.line, s.display_range.end),
    }
}

/// Where the cursor goes back to: the `anchor` end of the first chip with
/// identifier `id`, if there is one.
pub fn anchored_position(spans: &[Span], id: u64, anchor: ChipAnchor) -> (r: Option<(usize, usize)>)
    ensures
        !has_id(spans@, id) ==> r is None,
        forall|k: int| is_first_with_id(spans@, id, k) ==> r == Some(anchored_at(#[trigger] spans@[k], anchor)),
{
    match find_id(spans, id) {
        None => None,
        Some(k) => {
            let s = &spans[k];
            match anchor {
                ChipAnchor::Start => Some((s.line, s.display_range.start)),
                ChipAnchor::End => Some((s.line, s.display_range.end)),
            }
        },
    }
}


/// The source range of chip `s` lies in `b` and starts and ends on
/// character boundaries of it.
pub open spec fn source_range_fits(b: Seq<u8>, s: Span) -> bool {
    &&& s.source_range.start <= b.len()
    &&& s.source_range.end <= b.len()
    &&& is_char_boundary(b, s.source_range.start as int)
    &&& is_char_boundary(b, s.source_range.end as int)
}

/// One chip of the splice: the source text from the end of the previous
/// chip up to this chip's start, when it starts later, then the chip's
/// source value; the next chip continues from this chip's end.
pub open spec fn splice_step(b: Seq<u8>, s: Span, acc: (Seq<u8>, int)) -> (Seq<u8>, int) {
    let start = s.source_range.start as int;
    let gap = if start > acc.1 {
        b.subrange(acc.1, start)
    } else {
        Seq::<u8>::empty()
    };
    (acc.0 + gap + bytes_of(s.source_value), s.source_range.end as int)
}

pub open spec fn splice_fold(b: Seq<u8>, spans: Seq<Span>) -> (Seq<u8>, int)
    decreases spans.len(),
{
    if spans.len() == 0 {
        (Seq::<u8>::empty(), 0)
    } else {
        splice_step(b, spans.last(), splice_fold(b, spans.drop_last()))
    }
}

/// The source `b` with each chip's source range replaced by its source
/// value, chips taken in order, and the text after the last chip kept.
pub open spec fn spliced(b: Seq<u8>, spans: Seq<Span>) -> Seq<u8> {
    let acc = splice_fold(b, spans);
    if acc.1 < b.len() {
        acc.0 + b.subrange(acc.1, b.len() as int)
    } else {
        acc.0
    }
}

/// The source with every chip's current source value written over its
/// source range: what the content is rebuilt from after a chip's value
/// changed.
pub fn splice_source(source: &String, spans: &[Span]) -> (r: String)
    requires
        forall|k: int| 0 <= k < spans@.len() ==> source_range_fits(bytes_of(*source), #[trigger] spans@[k]),
    ensures
        bytes_of(r) == spliced(bytes_of(*source), spans@),
{
    let text = source.as_str();
    let ghost b = bytes_of(*source);
    proof {
        assert(text.spec_bytes() == b);
    }
    let bytes = text.as_bytes();
    let mut out: Vec<u8> = Vec::new();
    let mut last: usize = 0;
    let mut i: usize = 0;
    while i < spans.len()
        invariant
            b == bytes@,
            valid_utf8(b),
            i <= spans@.len(),
            forall|k: int| 0 <= k < spans@.len() ==> source_range_fits(b, #[trigger] spans@[k]),
            (out@, last as int) == splice_fold(b, spans@.subrange(0, i as int)),
            last <= b.len(),
            is_char_boundary(b, last as int),
            valid_utf8(out@),
        decreases spans@.len() - i,
    {
        let s = &spans[i];
        proof {
            assert(spans@.subrange(0, i + 1).drop_last() =~= spans@.subrange(0, i as int));
            assert(source_range_fits(b, spans@[i as int]));
        }
        let start = s.source_range.start;
        if start > last {
            proof {
                lemma_slice_valid(b, last as int, start as int);
            }
            crate::text::push_bytes(&mut out, bytes, last, start);
        }
        let value = s.source_value.as_str().as_bytes();
        proof {
            assert(value@ == bytes_of(s.source_value));
        }
        crate::text::push_bytes(&mut out, value, 0, value.len());
        proof {
            assert(value@.subrange(0, value@.len() as int) =~= value@);
        }
        last = s.source_range.end;
        i += 1;
        proof {
            assert(spans@.subrange(0, i as int).last() == spans@[i - 1]);
        }
    }
    proof {
        assert(spans@.subrange(0, spans@.len() as int) =~= spans@);
    }
    let len = bytes.len();
    if last < len {
        proof {
            lemma_slice_valid(b, last as int, len as int);
        }
        crate::text::push_bytes(&mut out, bytes, last, len);
    }
    crate::text::string_of_bytes(out)
}

/// The source `b` without the bytes from `start` to `end`.
pub open spec fn cut(b: Seq<u8>, start: int, end: int) -> Seq<u8> {
    b.subrange(0, start) + b.subrange(end, b.len() as int)
}

/// Delete a chip: the first chip with identifier `id` has its source range
/// removed from the source; the source is unchanged when there is no such
/// chip. The range must lie in the source, in order, on character
/// boundaries.
pub fn delete_chip_source(source: &String, spans: &[Span], id: u64) -> (r: String)
    requires
        forall|k: int| #[trigger] is_first_with_id(spans@, id, k) ==> source_range_fits(bytes_of(*source), spans@[k])
            && spans@[k].source_range.start <= spans@[k].source_range.end,
    ensures
        !has_id(spans@, id) ==> r@ == source@,
        forall|k: int| #[trigger] is_first_with_id(spans@, id, k) ==> bytes_of(r) == cut(
            bytes_of(*source),
            spans@[k].source_range.start as int,
            spans@[k].source_range.end as int,
        ),
{
    match find_id(spans, id) {
        None => source.clone(),
        Some(k) => {
            let text = source.as_str();
            let ghost b = bytes_of(*source);
            proof {
                assert(text.spec_bytes() == b);
                assert(is_first_with_id(spans@, id, k as int));
            }
            let bytes = text.as_bytes();
            let start = spans[k].source_range.start;
            let end = spans[k].source_range.end;
            let len = bytes.len();
            let mut out: Vec<u8> = Vec::new();
            proof {
                lemma_slice_valid(b, 0, start as int);
                lemma_slice_valid(b, end as int, len as int);
            }
            crate::text::push_bytes(&mut out, bytes, 0, start);
            crate::text::push_bytes(&mut out, bytes, end, len);
            proof {
                assert(out@ =~= cut(b, start as int, end as int));
                assert forall|j: int| #[trigger] is_first_with_id(spans@, id, j) implies j == k by {
                    if j < k {
                        assert(spans@[j].id != id);
                    } else if k < j {
                        assert(spans@[k as int].id != id);
                    }
                }
            }
            crate::text::string_of_bytes(out)
        },
    }
}

/// Give the first chip with identifier `id` a new source value, leaving
/// every other chip as it was; nothing changes when there is no such chip.
pub fn set_source_value(spans: &mut Vec<Span>, id: u64, value: String)
    ensures
        !has_id(old(spans)@, id) ==> final(spans)@ == old(spans)@,
        forall|k: int| #[trigger] is_first_with_id(old(spans)@, id, k) ==> final(spans)@ == old(spans)@.update(
            k,
            Span { source_value: value, ..old(spans)@[k] },
        ),
{
    match find_id(spans.as_slice(), id) {
        None => {},
        Some(k) => {
            let mut s = spans.remove(k);
            s.source_value = value;
            spans.insert(k, s);
            proof {
                assert(spans@ =~= old(spans)@.update(k as int, Span { source_value: value, ..old(spans)@[k as int] }));
                assert forall|j: int| #[trigger] is_first_with_id(old(spans)@, id, j) implies j == k by {
                    if j < k {
                        assert(old(spans)@[j].id != id);
                    } else if k < j {
                        assert(old(spans)@[k as int].id != id);
                    }
                }
            }
        },
    }
}

/// The byte that separates lines.
pub const NEWLINE: u8 = 0x0A;

/// Where chip `k` goes in `order`, chips ordered by where their display
/// starts: after every chip that starts no later.
pub open spec fn insert_pos(spans: Seq<Span>, order: Seq<usize>, k: int) -> int
    decreases order.len(),
{
    if order.len() == 0 {
        0
    } else if spans[order[0] as int].display_range.start > spans[k].display_range.start {
        0
    } else {
        1 + insert_pos(spans, order.drop_first(), k)
    }
}

/// The chips among the first `n` that are on `line`, by where their
/// display starts; chips that start together keep their order in `spans`.
pub open spec fn line_order(spans: Seq<Span>, line: usize, n: int) -> Seq<usize>
    decreases n,
{
    if n <= 0 {
        Seq::empty()
    } else {
        let prev = line_order(spans, line, n - 1);
        if spans[n - 1].line == line {
            prev.insert(insert_pos(spans, prev, n - 1), (n - 1) as usize)
        } else {
            prev
        }
    }
}

/// Where chip `s` starts on a line of bytes `d`: its display start, no
/// further than the end of the line, moved back to a character boundary.
pub open spec fn chip_start(d: Seq<u8>, s: Span) -> int {
    floor_boundary(d, clamped(s.display_range.start, d.len() as int))
}

/// Where chip `s` ends on a line of bytes `d`, in the same way.
pub open spec fn chip_end(d: Seq<u8>, s: Span) -> int {
    floor_boundary(d, clamped(s.display_range.end, d.len() as int))
}

/// One chip of a line: a chip that starts before the previous one ended,
/// or at or past the end of the line, is passed over; otherwise the line's
/// text up to the chip's start goes out, then the chip's source value in
/// place of its display, and the line continues from the chip's end.
pub open spec fn chip_step(d: Seq<u8>, s: Span, acc: (Seq<u8>, int)) -> (Seq<u8>, int) {
    let start = chip_start(d, s);
    if start < acc.1 || start >= d.len() {
        acc
    } else {
        (acc.0 + d.subrange(acc.1, start) + bytes_of(s.source_value), chip_end(d, s))
    }
}

pub open spec fn chips_fold(d: Seq<u8>, spans: Seq<Span>, order: Seq<usize>) -> (Seq<u8>, int)
    decreases order.len(),
{
    if order.len() == 0 {
        (Seq::<u8>::empty(), 0)
    } else {
        chip_step(d, spans[order.last() as int], chips_fold(d, spans, order.drop_last()))
    }
}

/// The source of one displayed line: its chips' source values in place of
/// their display, the text between them as it is displayed.
pub open spec fn source_line(d: Seq<u8>, spans: Seq<Span>, line: usize) -> Seq<u8> {
    let acc = chips_fold(d, spans, line_order(spans, line, spans.len() as int));
    if acc.1 < d.len() {
        acc.0 + d.subrange(acc.1, d.len() as int)
    } else {
        acc.0
    }
}

/// The source of the first `n` displayed lines, a newline after each line
/// but the last of `lines`.
pub open spec fn display_source_bytes(lines: Seq<String>, spans: Seq<Span>, n: int) -> Seq<u8>
    decreases n,
{
    if n <= 0 {
        Seq::empty()
    } else {
        display_source_bytes(lines, spans, n - 1) + source_line(bytes_of(lines[n - 1]), spans, (n - 1) as usize)
            + if n < lines.len() {
            seq![NEWLINE]
        } else {
            Seq::<u8>::empty()
        }
    }
}

/// Every chip's display range is in order.
pub open spec fn display_ranges_ordered(spans: Seq<Span>) -> bool {
    forall|k: int| 0 <= k < spans.len() ==> #[trigger] spans[k].display_range.start <= spans[k].display_range.end
}

proof fn lemma_insert_pos_step(spans: Seq<Span>, order: Seq<usize>, k: int, p: int)
    requires
        0 <= p < order.len(),
        spans[order[p] as int].display_range.start <= spans[k].display_range.start,
    ensures
        insert_pos(spans, order.skip(p), k) == 1 + insert_pos(spans, order.skip(p + 1), k),
{
    assert(order.skip(p)[0] == order[p]);
    assert(order.skip(p).drop_first() =~= order.skip(p + 1));
}

/// The chips on `line`, in [`line_order`].
fn line_order_of(spans: &[Span], line: usize) -> (order: Vec<usize>)
    ensures
        order@ == line_order(spans@, line, spans@.len() as int),
        forall|j: int| 0 <= j < order@.len() ==> #[trigger] order@[j] < spans@.len(),
{
    let mut order: Vec<usize> = Vec::new();
    let mut k: usize = 0;
    while k < spans.len()
        invariant
            k <= spans@.len(),
            order@ == line_order(spans@, line, k as int),
            forall|j: int| 0 <= j < order@.len() ==> #[trigger] order@[j] < k,
        decreases spans@.len() - k,
    {
        if spans[k].line == line {
            let key = spans[k].display_range.start;
            let mut p: usize = 0;
            proof {
                assert(order@.skip(0) =~= order@);
            }
            while p < order.len() && spans[order[p]].display_range.start <= key
                invariant
                    p <= order@.len(),
                    k < spans@.len(),
                    key == spans@[k as int].display_range.start,
                    forall|j: int| 0 <= j < order@.len() ==> #[trigger] order@[j] < k,
                    insert_pos(spans@, order@, k as int) == p + insert_pos(spans@, order@.skip(p as int), k as int),
                decreases order@.len() - p,
            {
                proof {
                    lemma_insert_pos_step(spans@, order@, k as int, p as int);
                }
                p += 1;
            }
            proof {
                if p < order@.len() {
                    assert(order@.skip(p as int)[0] == order@[p as int]);
                } else {
                    assert(order@.skip(p as int).len() == 0);
                }
            }
            order.insert(p, k);
        }
        k += 1;
    }
    order
}

/// Appends the source of the displayed line `text` to `out`.
fn push_source_line(out: &mut Vec<u8>, text: &str, spans: &[Span], line: usize)
    requires
        valid_utf8(old(out)@),
        display_ranges_ordered(spans@),
    ensures
        final(out)@ == old(out)@ + source_line(text.spec_bytes(), spans@, line),
        valid_utf8(final(out)@),
{
    let ghost d = text.spec_bytes();
    let bytes = text.as_bytes();
    let len = bytes.len();
    let order = line_order_of(spans, line);
    let ghost base = out@;
    let mut last: usize = 0;
    let mut j: usize = 0;
    while j < order.len()
        invariant
            d == bytes@,
            d == text.spec_bytes(),
            valid_utf8(d),
            len == d.len(),
            display_ranges_ordered(spans@),
            order@ == line_order(spans@, line, spans@.len() as int),
            forall|q: int| 0 <= q < order@.len() ==> #[trigger] order@[q] < spans@.len(),
            j <= order@.len(),
            out@ == base + chips_fold(d, spans@, order@.subrange(0, j as int)).0,
            last as int == chips_fold(d, spans@, order@.subrange(0, j as int)).1,
            last <= len,
            is_char_boundary(d, last as int),
            valid_utf8(out@),
        decreases order@.len() - j,
    {
        let s = &spans[order[j]];
        let ghost acc = chips_fold(d, spans@, order@.subrange(0, j as int));
        proof {
            assert(order@.subrange(0, j + 1).drop_last() =~= order@.subrange(0, j as int));
            assert(order@.subrange(0, j + 1).last() == order@[j as int]);
            assert(order@[j as int] < spans@.len());
        }
        let start0 = if s.display_range.start < len { s.display_range.start } else { len };
        let start = floor_char_boundary(text, start0);
        proof {
            lemma_floor_boundary(d, start0 as int);
        }
        if start < last || start >= len {
        } else {
            proof {
                lemma_slice_valid(d, last as int, start as int);
            }
            let ghost before = out@;
            crate::text::push_bytes(out, bytes, last, start);
            proof {
                valid_utf8_concat(before, d.subrange(last as int, start as int));
            }
            let ghost middle = out@;
            let value = s.source_value.as_str().as_bytes();
            proof {
                assert(value@ == bytes_of(s.source_value));
                assert(value@.subrange(0, value@.len() as int) =~= value@);
            }
            crate::text::push_bytes(out, value, 0, value.len());
            proof {
                encode_utf8_valid_utf8(s.source_value@);
                valid_utf8_concat(middle, value@);
            }
            let end0 = if s.display_range.end < len { s.display_range.end } else { len };
            last = floor_char_boundary(text, end0);
            proof {
                lemma_floor_boundary(d, end0 as int);
                assert(out@ =~= base + (acc.0 + d.subrange(acc.1, start as int) + bytes_of(s.source_value)));
            }
        }
        j += 1;
    }
    proof {
        assert(order@.subrange(0, order@.len() as int) =~= order@);
    }
    if last < len {
        proof {
            lemma_slice_valid(d, last as int, len as int);
        }
        crate::text::push_bytes(out, bytes, last, len);
    }
}

/// The source behind the displayed `lines`: each line's chips are put back
/// as their source values, in the order in which their display starts,
/// the displayed text between them kept, and the lines joined by newlines.
/// A chip whose display range no longer fits the line is cut to the line
/// and to character boundaries; one that starts inside the chip before it,
/// or at the end of its line, is left out.
pub fn display_source(lines: &[String], spans: &[Span]) -> (r: String)
    requires
        display_ranges_ordered(spans@),
    ensures
        bytes_of(r) == display_source_bytes(lines@, spans@, lines@.len() as int),
{
    let mut out: Vec<u8> = Vec::new();
    let n = lines.len();
    let mut i: usize = 0;
    while i < n
        invariant
            n == lines@.len(),
            i <= n,
            display_ranges_ordered(spans@),
            out@ == display_source_bytes(lines@, spans@, i as int),
            valid_utf8(out@),
        decreases n - i,
    {
        let text = lines[i].as_str();
        proof {
            assert(text.spec_bytes() == bytes_of(lines@[i as int]));
        }
        push_source_line(&mut out, text, spans, i);
        if i + 1 < n {
            out.push(NEWLINE);
            proof {
                crate::text::lemma_ascii_valid(seq![NEWLINE]);
                assert(out@ =~= display_source_bytes(lines@, spans@, i as int) + source_line(
                    bytes_of(lines@[i as int]),
                    spans@,
                    i,
                ) + seq![NEWLINE]);
            }
        } else {
            proof {
                assert(out@ =~= display_source_bytes(lines@, spans@, i as int) + source_line(
                    bytes_of(lines@[i as int]),
                    spans@,
                    i,
                ) + Seq::<u8>::empty());
            }
        }
        i += 1;
    }
    crate::text::string_of_bytes(out)
}

/// `x` moved by `delta`, stopping at zero.
pub open spec fn shifted_bound(x: usize, delta: isize) -> usize {
    if x + delta < 0 {
        0
    } else {
        (x + delta) as usize
    }
}

/// Chip `s` after an edit of `delta` bytes at byte `threshold` of `line`:
/// a chip on that line whose display starts at or after the threshold
/// moves by `delta`, every other chip stays.
pub open spec fn shifted_span(s: Span, line: usize, threshold: usize, delta: isize) -> Span {
    if s.line == line && s.display_range.start >= threshold {
        Span {
            display_range: Range {
                start: shifted_bound(s.display_range.start, delta),
                end: shifted_bound(s.display_range.end, delta),
            },
            ..s
        }
    } else {
        s
    }
}

/// The shift of chip `s` by `delta` stays within `isize`.
pub open spec fn shift_fits(s: Span, delta: isize) -> bool {
    &&& s.display_range.start <= isize::MAX
    &&& s.display_range.end <= isize::MAX
    &&& s.display_range.start + delta <= isize::MAX
    &&& s.display_range.end + delta <= isize::MAX
}

/// An edit that must be shifted over: chips on `line` at or after
/// `threshold` move by `delta`.
pub open spec fn shift_admissible(spans: Seq<Span>, line: usize, threshold: usize, delta: isize) -> bool {
    forall|k: int|
        0 <= k < spans.len() && #[trigger] spans[k].line == line && spans[k].display_range.start >= threshold
            ==> shift_fits(spans[k], delta)
}

fn shift_bound(x: usize, delta: isize) -> (r: usize)
    requires
        x <= isize::MAX,
        x + delta <= isize::MAX,
    ensures
        r == shifted_bound(x, delta),
{
    let v: isize = (x as isize) + delta;
    if v < 0 {
        0
    } else {
        v as usize
    }
}

/// Move the chips after an edit of `delta` bytes at byte `threshold` of
/// `line`, so that their display ranges follow the edited text.
pub fn shift_spans(spans: &mut Vec<Span>, line: usize, threshold: usize, delta: isize)
    requires
        shift_admissible(old(spans)@, line, threshold, delta),
    ensures
        final(spans)@ == old(spans)@.map_values(|s: Span| shifted_span(s, line, threshold, delta)),
{
    let ghost orig = spans@;
    let mut i: usize = 0;
    while i < spans.len()
        invariant
            spans@.len() == orig.len(),
            i <= orig.len(),
            shift_admissible(orig, line, threshold, delta),
            forall|k: int| 0 <= k < i ==> #[trigger] spans@[k] == shifted_span(orig[k], line, threshold, delta),
            forall|k: int| i <= k < orig.len() ==> #[trigger] spans@[k] == orig[k],
        decreases orig.len() - i,
    {
        if spans[i].line == line && spans[i].display_range.start >= threshold {
            proof {
                assert(spans@[i as int] == orig[i as int]);
                assert(shift_fits(orig[i as int], delta));
            }
            let mut s = spans.remove(i);
            let start = shift_bound(s.display_range.start, delta);
            let end = shift_bound(s.display_range.end, delta);
            s.display_range = Range { start, end };
            spans.insert(i, s);
        }
        i += 1;
    }
    proof {
        assert(spans@ =~= orig.map_values(|s: Span| shifted_span(s, line, threshold, delta)));
    }
}

/// The shift moves the start and end of a range alike, so an ordered range
/// stays ordered.
proof fn lemma_shift_keeps_order(spans: Seq<Span>, line: usize, threshold: usize, delta: isize)
    requires
        display_ranges_ordered(spans),
        shift_admissible(spans, line, threshold, delta),
    ensures
        display_ranges_ordered(spans.map_values(|s: Span| shifted_span(s, line, threshold, delta))),
{
    let shifted = spans.map_values(|s: Span| shifted_span(s, line, threshold, delta));
    assert forall|k: int| 0 <= k < shifted.len() implies #[trigger] shifted[k].display_range.start
        <= shifted[k].display_range.end by {
        assert(spans[k].display_range.start <= spans[k].display_range.end);
        if spans[k].line == line && spans[k].display_range.start >= threshold {
            assert(shift_fits(spans[k], delta));
        }
    }
}

/// The chips after `shift`, an edit of `delta` bytes at byte `threshold`
/// of `line`, if there was one.
pub open spec fn after_shift(spans: Seq<Span>, shift: Option<(usize, usize, isize)>) -> Seq<Span> {
    match shift {
        Some((line, threshold, delta)) => spans.map_values(|s: Span| shifted_span(s, line, threshold, delta)),
        None => spans,
    }
}

/// After a plain-text edit: move the chips over the edit, if `shift`
/// gives one, then recover the source behind the edited display, from
/// which the chips are parsed again (so that typing a pattern in plain
/// text forms a new chip).
pub fn resync_source(spans: &mut Vec<Span>, lines: &[String], shift: Option<(usize, usize, isize)>) -> (r: String)
    requires
        display_ranges_ordered(old(spans)@),
        shift matches Some((line, threshold, delta)) ==> shift_admissible(old(spans)@, line, threshold, delta),
    ensures
        final(spans)@ == after_shift(old(spans)@, shift),
        bytes_of(r) == display_source_bytes(lines@, final(spans)@, lines@.len() as int),
{
    if let Some((line, threshold, delta)) = shift {
        proof {
            lemma_shift_keeps_order(spans@, line, threshold, delta);
        }
        shift_spans(spans, line, threshold, delta);
    }
    display_source(lines, spans.as_slice())
}

/// The chips hold, in order, exactly the source text of their ranges:
/// each range fits the source, the ranges follow one another without
/// overlapping, and each value is the text its range covers.
pub open spec fn chips_match_source(b: Seq<u8>, spans: Seq<Span>) -> bool {
    &&& forall|k: int| 0 <= k < spans.len() ==> source_range_fits(b, #[trigger] spans[k])
    &&& forall|k: int| 0 <= k < spans.len() ==> #[trigger] spans[k].source_range.start <= spans[k].source_range.end
    &&& forall|k: int, j: int| 0 <= k < j < spans.len() ==> #[trigger] spans[k].source_range.end <= #[trigger] spans[j].source_range.start
    &&& forall|k: int| 0 <= k < spans.len() ==> bytes_of(#[trigger] spans[k].source_value) == b.subrange(
        spans[k].source_range.start as int,
        spans[k].source_range.end as int,
    )
}

proof fn lemma_splice_fold_unchanged(b: Seq<u8>, spans: Seq<Span>)
    requires
        chips_match_source(b, spans),
    ensures
        splice_fold(b, spans).1 == if spans.len() == 0 { 0 } else { spans.last().source_range.end as int },
        splice_fold(b, spans).0 == b.subrange(0, splice_fold(b, spans).1),
    decreases spans.len(),
{
    if spans.len() > 0 {
        let prev = spans.drop_last();
        assert(chips_match_source(b, prev)) by {
            assert forall|k: int, j: int| 0 <= k < j < prev.len() implies #[trigger] prev[k].source_range.end
                <= #[trigger] prev[j].source_range.start by {
                assert(prev[k] == spans[k] && prev[j] == spans[j]);
            }
            assert forall|k: int| 0 <= k < prev.len() implies bytes_of(#[trigger] prev[k].source_value)
                == b.subrange(prev[k].source_range.start as int, prev[k].source_range.end as int) by {
                assert(prev[k] == spans[k]);
            }
        }
        lemma_splice_fold_unchanged(b, prev);
        let n = spans.len() - 1;
        let last = spans[n];
        assert(source_range_fits(b, last));
        assert(last.source_range.start <= last.source_range.end);
        let e = splice_fold(b, prev).1;
        if n > 0 {
            assert(spans[n - 1].source_range.end <= spans[n].source_range.start);
        }
        assert(e <= last.source_range.start);
        assert(bytes_of(spans[n].source_value) == b.subrange(
            last.source_range.start as int,
            last.source_range.end as int,
        ));
        assert(b.subrange(0, e) + (if last.source_range.start > e {
            b.subrange(e, last.source_range.start as int)
        } else {
            Seq::<u8>::empty()
        }) + b.subrange(last.source_range.start as int, last.source_range.end as int) =~= b.subrange(
            0,
            last.source_range.end as int,
        ));
    }
}

/// Splicing chips that still hold the source text of their ranges gives
/// the source back unchanged.
pub proof fn lemma_splice_unchanged(source: String, spans: Seq<Span>)
    requires
        chips_match_source(bytes_of(source), spans),
    ensures
        spliced(bytes_of(source), spans) == bytes_of(source),
{
    let b = bytes_of(source);
    lemma_splice_fold_unchanged(b, spans);
    let acc = splice_fold(b, spans);
    if spans.len() > 0 {
        assert(source_range_fits(b, spans[spans.len() - 1]));
    }
    assert(acc.1 <= b.len());
    if acc.1 < b.len() {
        assert(acc.0 + b.subrange(acc.1, b.len() as int) =~= b);
    } else {
        assert(acc.0 =~= b);
    }
}

/// The first `n` lines joined by newlines, a newline after each line but
/// the last of `lines`.
pub open spec fn joined_lines(lines: Seq<String>, n: int) -> Seq<u8>
    decreases n,
{
    if n <= 0 {
        Seq::empty()
    } else {
        joined_lines(lines, n - 1) + bytes_of(lines[n - 1]) + if n < lines.len() {
            seq![NEWLINE]
        } else {
            Seq::<u8>::empty()
        }
    }
}

proof fn lemma_line_order_empty(spans: Seq<Span>, line: usize, m: int)
    requires
        0 <= m <= spans.len(),
        forall|k: int| 0 <= k < m ==> #[trigger] spans[k].line != line,
    ensures
        line_order(spans, line, m).len() == 0,
    decreases m,
{
    if m > 0 {
        lemma_line_order_empty(spans, line, m - 1);
    }
}

/// With no chip on any of the displayed lines, the source behind them is
/// the lines themselves, joined by newlines.
pub proof fn lemma_display_source_without_chips(lines: Seq<String>, spans: Seq<Span>)
    requires
        forall|k: int| 0 <= k < spans.len() ==> #[trigger] spans[k].line >= lines.len(),
    ensures
        display_source_bytes(lines, spans, lines.len() as int) == joined_lines(lines, lines.len() as int),
{
    assert forall|n: int| 0 <= n <= lines.len() implies display_source_bytes(lines, spans, n) == joined_lines(lines, n) by {
        lemma_display_source_prefix(lines, spans, n);
    }
}

proof fn lemma_display_source_prefix(lines: Seq<String>, spans: Seq<Span>, n: int)
    requires
        0 <= n <= lines.len(),
        forall|k: int| 0 <= k < spans.len() ==> #[trigger] spans[k].line >= lines.len(),
    ensures
        display_source_bytes(lines, spans, n) == joined_lines(lines, n),
    decreases n,
{
    if n > 0 {
        lemma_display_source_prefix(lines, spans, n - 1);
        let d = bytes_of(lines[n - 1]);
        lemma_line_order_empty(spans, (n - 1) as usize, spans.len() as int);
        let order = line_order(spans, (n - 1) as usize, spans.len() as int);
        assert(order =~= Seq::<usize>::empty());
        assert(chips_fold(d, spans, order) == (Seq::<u8>::empty(), 0int));
        if d.len() > 0 {
            assert(Seq::<u8>::empty() + d.subrange(0, d.len() as int) =~= d);
        } else {
            assert(d =~= Seq::<u8>::empty());
        }
        assert(source_line(d, spans, (n - 1) as usize) == d);
    }
}

} // verus!
