//! Markdown line parser: display text, styled spans and an offset map
//! between raw and display byte positions.

use std::ops::Range;

use vstd::prelude::*;
use vstd::string::StringSliceAdditionalSpecFns;
use vstd::utf8::*;

use crate::text::{
    is_ascii_byte, lemma_remove_ascii_byte, lemma_remove_ascii_run, push_bytes, string_from_utf8,
};

verus! {

pub const BACKTICK: u8 = 0x60;

pub const STAR: u8 = 0x2a;

pub const HASH: u8 = 0x23;

pub const SPACE: u8 = 0x20;

// ---------------------------------------------------------------------------
// Parsed line types
// ---------------------------------------------------------------------------

/// Visual style for a span.
#[derive(Debug, Clone, Copy, PartialEq, Eq, Default)]
pub struct Style {
    pub bold: bool,
    pub italic: bool,
    pub code: bool,
    pub heading: Option<u8>,
}

/// A styled region of the display text.
#[derive(Debug, PartialEq, Eq)]
pub struct Span {
    /// Byte range in display text.
    pub range: Range<usize>,
    /// Visual style for this span.
    pub style: Style,
}

impl Clone for Span {
    fn clone(&self) -> (s: Self)
        ensures
            s == *self,
    {
        Span { range: self.range.start..self.range.end, style: self.style }
    }
}

/// Result of parsing a single markdown line.
#[derive(Debug, Clone)]
pub struct Line {
    /// Text with markers removed, for display when line is not active.
    pub display: String,
    /// Styled spans for the display text.
    pub spans: Vec<Span>,
    /// Bidirectional offset map between raw and display coordinates.
    pub offset_map: OffsetMap,
}

pub open spec fn code_style() -> Style {
    Style { bold: false, italic: false, code: true, heading: None }
}

pub open spec fn emphasis_style(markers: int) -> Style {
    Style { bold: markers >= 2, italic: markers != 2, code: false, heading: None }
}

// ---------------------------------------------------------------------------
// Offset map
// ---------------------------------------------------------------------------

/// Entries sorted in both coordinates.
pub open spec fn entries_sorted(e: Seq<(usize, usize)>) -> bool {
    forall|i: int, j: int|
        0 <= i <= j < e.len() ==> #[trigger] e[i].0 <= #[trigger] e[j].0 && e[i].1 <= e[j].1
}

/// Window `i` is the segment between entries `i` and `i + 1`.
pub open spec fn raw_in_window(e: Seq<(usize, usize)>, i: int, raw: int) -> bool {
    e[i].0 <= raw <= e[i + 1].0
}

pub open spec fn display_in_window(e: Seq<(usize, usize)>, i: int, display: int) -> bool {
    e[i].1 <= display <= e[i + 1].1
}

/// A text window maps raw and display one to one (non-empty display range).
pub open spec fn is_text_window(e: Seq<(usize, usize)>, i: int) -> bool {
    e[i + 1].1 > e[i].1
}

/// The first window among the first `n` windows whose raw range holds `raw`.
pub open spec fn first_raw_window(e: Seq<(usize, usize)>, raw: int, n: nat) -> Option<int>
    decreases n,
{
    if n == 0 {
        None
    } else {
        match first_raw_window(e, raw, (n - 1) as nat) {
            Some(j) => Some(j),
            None => if raw_in_window(e, n - 1, raw) {
                Some(n - 1)
            } else {
                None
            },
        }
    }
}

/// The first window among the first `n` windows whose display range holds `display`.
pub open spec fn first_display_window(e: Seq<(usize, usize)>, display: int, n: nat) -> Option<int>
    decreases n,
{
    if n == 0 {
        None
    } else {
        match first_display_window(e, display, (n - 1) as nat) {
            Some(j) => Some(j),
            None => if display_in_window(e, n - 1, display) {
                Some(n - 1)
            } else {
                None
            },
        }
    }
}

/// The last text window among the first `n` windows whose display range holds `display`.
pub open spec fn last_text_window(e: Seq<(usize, usize)>, display: int, n: nat) -> Option<int>
    decreases n,
{
    if n == 0 {
        None
    } else if display_in_window(e, n - 1, display) && is_text_window(e, n - 1) {
        Some(n - 1)
    } else {
        last_text_window(e, display, (n - 1) as nat)
    }
}

pub open spec fn min_int(a: int, b: int) -> int {
    if a <= b { a } else { b }
}

pub open spec fn window_count(e: Seq<(usize, usize)>) -> nat {
    if e.len() == 0 { 0 } else { (e.len() - 1) as nat }
}

/// The display position of a raw position: linear inside the first window
/// holding it (clamped to the window's display width), one to one past the
/// last entry, and unchanged before the first one.
pub open spec fn raw_to_display_of(e: Seq<(usize, usize)>, raw: int) -> int {
    if e.len() == 0 {
        raw
    } else {
        match first_raw_window(e, raw, window_count(e)) {
            Some(i) => e[i].1 + min_int(raw - e[i].0, e[i + 1].1 - e[i].1),
            None => if raw >= e.last().0 {
                e.last().1 + (raw - e.last().0)
            } else {
                raw
            },
        }
    }
}

/// The raw position of a display position: text windows are preferred over
/// marker windows, and among text windows the last one holding the position.
pub open spec fn display_to_raw_of(e: Seq<(usize, usize)>, display: int) -> int {
    if e.len() == 0 {
        display
    } else {
        let best = match last_text_window(e, display, window_count(e)) {
            Some(i) => Some(i),
            None => first_display_window(e, display, window_count(e)),
        };
        match best {
            Some(i) => e[i].0 + min_int(display - e[i].1, e[i + 1].0 - e[i].0),
            None => if display >= e.last().1 {
                e.last().0 + (display - e.last().1)
            } else {
                display
            },
        }
    }
}

/// Bidirectional offset map between raw and display byte positions.
///
/// Stores a sorted vec of `(raw_pos, display_pos)` entries at each marker
/// boundary. Interpolates linearly between entries (text between markers
/// maps 1:1).
#[derive(Debug)]
pub struct OffsetMap {
    entries: Vec<(usize, usize)>,
}

impl View for OffsetMap {
    type V = Seq<(usize, usize)>;

    closed spec fn view(&self) -> Seq<(usize, usize)> {
        self.entries@
    }
}

impl Clone for OffsetMap {
    fn clone(&self) -> (m: Self)
        ensures
            m@ == self@,
    {
        proof {
            use_type_invariant(self);
        }
        let mut entries: Vec<(usize, usize)> = Vec::new();
        let mut i: usize = 0;
        while i < self.entries.len()
            invariant
                i <= self.entries.len(),
                entries@ == self.entries@.take(i as int),
            decreases self.entries.len() - i,
        {
            let (r, d) = self.entries[i];
            entries.push((r, d));
            i = i + 1;
            assert(entries@ == self.entries@.take(i as int));
        }
        assert(self.entries@.take(i as int) == self.entries@);
        Self { entries }
    }
}

impl OffsetMap {
    #[verifier::type_invariant]
    spec fn sorted(self) -> bool {
        entries_sorted(self.entries@)
    }

    /// Whether converting `raw` to a display position stays within `usize`.
    pub open spec fn raw_fits(&self, raw: usize) -> bool {
        self@.len() > 0 && raw >= self@.last().0 ==> self@.last().1 + (raw - self@.last().0)
            <= usize::MAX
    }

    /// Whether converting `display` to a raw position stays within `usize`.
    pub open spec fn display_fits(&self, display: usize) -> bool {
        self@.len() > 0 && display >= self@.last().1 ==> self@.last().0 + (display
            - self@.last().1) <= usize::MAX
    }

    /// Create a new offset map from sorted boundary entries.
    pub fn new(entries: Vec<(usize, usize)>) -> (m: Self)
        requires
            entries_sorted(entries@),
        ensures
            m@ == entries@,
    {
        Self { entries }
    }

    /// Create an identity offset map (raw == display) for a given length.
    pub fn identity(len: usize) -> (m: Self)
        ensures
            m@ == seq![(0usize, 0usize), (len, len)],
    {
        let mut entries: Vec<(usize, usize)> = Vec::new();
        entries.push((0, 0));
        entries.push((len, len));
        Self { entries }
    }

    /// Given a byte offset in raw text, return the corresponding display offset.
    pub fn raw_to_display(&self, raw_offset: usize) -> (d: usize)
        requires
            self.raw_fits(raw_offset),
        ensures
            d == raw_to_display_of(self@, raw_offset as int),
    {
        self.interpolate_forward(raw_offset)
    }

    /// Given a byte offset in display text, return the corresponding raw offset.
    pub fn display_to_raw(&self, display_offset: usize) -> (r: usize)
        requires
            self.display_fits(display_offset),
        ensures
            r == display_to_raw_of(self@, display_offset as int),
    {
        self.interpolate_reverse(display_offset)
    }

    fn interpolate_forward(&self, raw: usize) -> (d: usize)
        requires
            self.raw_fits(raw),
        ensures
            d == raw_to_display_of(self@, raw as int),
    {
        proof {
            use_type_invariant(self);
        }
        let len = self.entries.len();
        if len == 0 {
            return raw;
        }
        let ghost e = self.entries@;
        let mut i: usize = 0;
        while i + 1 < len
            invariant
                e == self.entries@,
                len == e.len(),
                len > 0,
                i + 1 <= len,
                first_raw_window(e, raw as int, i as nat) is None,
                entries_sorted(e),
            decreases len - i,
        {
            let (r0, d0) = self.entries[i];
            let (r1, d1) = self.entries[i + 1];
            if raw >= r0 && raw <= r1 {
                assert(first_raw_window(e, raw as int, (i + 1) as nat) == Some(i as int));
                proof {
                    lemma_first_raw_window_stable(e, raw as int, (i + 1) as nat, window_count(e));
                }
                let delta = raw - r0;
                let max_delta = d1 - d0;
                let step = if delta <= max_delta {
                    delta
                } else {
                    max_delta
                };
                return d0 + step;
            }
            assert(first_raw_window(e, raw as int, (i + 1) as nat) is None);
            i = i + 1;
        }
        assert(i as nat == window_count(e));
        let (r_last, d_last) = self.entries[len - 1];
        if raw >= r_last {
            return d_last + (raw - r_last);
        }
        raw
    }

    fn interpolate_reverse(&self, display: usize) -> (r: usize)
        requires
            self.display_fits(display),
        ensures
            r == display_to_raw_of(self@, display as int),
    {
        proof {
            use_type_invariant(self);
        }
        let len = self.entries.len();
        if len == 0 {
            return display;
        }
        let ghost e = self.entries@;
        let mut best_text: Option<usize> = None;
        let mut best_any: Option<usize> = None;
        let mut i: usize = 0;
        while i + 1 < len
            invariant
                e == self.entries@,
                len == e.len(),
                len > 0,
                i + 1 <= len,
                entries_sorted(e),
                match best_text {
                    Some(j) => last_text_window(e, display as int, i as nat) == Some(j as int),
                    None => last_text_window(e, display as int, i as nat) is None,
                },
                match best_any {
                    Some(j) => first_display_window(e, display as int, i as nat) == Some(j as int),
                    None => first_display_window(e, display as int, i as nat) is None,
                },
                forall|j: usize| best_text == Some(j) ==> j + 1 < len,
                forall|j: usize| best_any == Some(j) ==> j + 1 < len,
            decreases len - i,
        {
            let (_r0, d0) = self.entries[i];
            let (_r1, d1) = self.entries[i + 1];
            if display >= d0 && display <= d1 {
                if best_any.is_none() {
                    best_any = Some(i);
                }
                if d1 > d0 {
                    best_text = Some(i);
                }
            }
            i = i + 1;
        }
        assert(i as nat == window_count(e));
        proof {
            lemma_last_text_window_in(e, display as int, i as nat);
            lemma_first_display_window_in(e, display as int, i as nat);
        }
        let best = match best_text {
            Some(j) => Some(j),
            None => best_any,
        };
        match best {
            Some(j) => {
                let (r0, d0) = self.entries[j];
                let (r1, _d1) = self.entries[j + 1];
                let delta = display - d0;
                let max_delta = r1 - r0;
                let step = if delta <= max_delta {
                    delta
                } else {
                    max_delta
                };
                r0 + step
            },
            None => {
                let (r_last, d_last) = self.entries[len - 1];
                if display >= d_last {
                    r_last + (display - d_last)
                } else {
                    display
                }
            },
        }
    }
}

/// Each window either maps text one to one or collapses a marker to a point.
pub open spec fn windows_text_or_marker(e: Seq<(usize, usize)>) -> bool {
    forall|i: int|
        0 <= i && i + 1 < e.len() ==> (#[trigger] e[i + 1]).1 == e[i].1 || e[i + 1].0 - e[i].0
            == e[i + 1].1 - e[i].1
}

/// Round trip through the map: a display position mapped to raw and back is
/// unchanged, for maps whose windows are text or markers, at and after the
/// first entry.
pub proof fn lemma_display_raw_round_trip(e: Seq<(usize, usize)>, d: int)
    requires
        entries_sorted(e),
        windows_text_or_marker(e),
        e.len() == 0 || e[0].1 <= d,
    ensures
        raw_to_display_of(e, display_to_raw_of(e, d)) == d,
{
    if e.len() == 0 {
        return;
    }
    let n = window_count(e);
    let bt = last_text_window(e, d, n);
    let ba = first_display_window(e, d, n);
    lemma_last_text_window_in(e, d, n);
    lemma_first_display_window_in(e, d, n);
    let r = display_to_raw_of(e, d);
    match bt {
        Some(i) => {
            assert(e[i + 1].0 - e[i].0 == e[i + 1].1 - e[i].1);
            assert(r == e[i].0 + (d - e[i].1));
            lemma_raw_back(e, i, r, d);
        },
        None => {
            match ba {
                Some(i) => {
                    lemma_no_text_window(e, d, n, i);
                    assert(e[i + 1].1 == e[i].1);
                    assert(d == e[i].1);
                    assert(r == e[i].0);
                    lemma_raw_back(e, i, r, d);
                },
                None => {
                    if e.len() >= 2 && d <= e.last().1 {
                        lemma_display_covered(e, d, n);
                    }
                    assert(r == e.last().0 + (d - e.last().1));
                    if d > e.last().1 {
                        lemma_first_raw_window_none(e, r, n);
                    }
                },
            }
        },
    }
}

/// Mapping back a raw position that lies in window `i` at the display
/// offset `d` of that window.
proof fn lemma_raw_back(e: Seq<(usize, usize)>, i: int, r: int, d: int)
    requires
        entries_sorted(e),
        windows_text_or_marker(e),
        0 <= i && i + 1 < e.len(),
        raw_in_window(e, i, r),
        display_in_window(e, i, d),
        r - e[i].0 == d - e[i].1,
    ensures
        raw_to_display_of(e, r) == d,
{
    let n = window_count(e);
    lemma_first_raw_window_min(e, r, n, i);
    let j = first_raw_window(e, r, n)->Some_0;
    if j < i {
        assert(e[j + 1].0 <= e[i].0);
        assert(r == e[j + 1].0);
        assert(r == e[i].0);
        lemma_flat_raw_flat_display(e, j + 1, i);
        if e[j + 1].1 == e[j].1 {
        } else {
            assert(e[j + 1].0 - e[j].0 == e[j + 1].1 - e[j].1);
        }
    }
}

/// Entries `a..=b` at one raw position also share their display position.
proof fn lemma_flat_raw_flat_display(e: Seq<(usize, usize)>, a: int, b: int)
    requires
        entries_sorted(e),
        windows_text_or_marker(e),
        0 <= a <= b < e.len(),
        e[a].0 == e[b].0,
    ensures
        e[a].1 == e[b].1,
    decreases b - a,
{
    if a < b {
        assert(e[a].0 <= e[a + 1].0 <= e[b].0);
        assert(e[a + 1].1 == e[a].1 || e[a + 1].0 - e[a].0 == e[a + 1].1 - e[a].1);
        lemma_flat_raw_flat_display(e, a + 1, b);
    }
}

proof fn lemma_first_raw_window_min(e: Seq<(usize, usize)>, raw: int, n: nat, i: int)
    requires
        0 <= i < n,
        raw_in_window(e, i, raw),
    ensures
        first_raw_window(e, raw, n) matches Some(j) && 0 <= j <= i && raw_in_window(e, j, raw),
    decreases n,
{
    if i < n - 1 {
        lemma_first_raw_window_min(e, raw, (n - 1) as nat, i);
    } else {
        lemma_first_raw_window_in(e, raw, (n - 1) as nat);
    }
}

proof fn lemma_first_raw_window_in(e: Seq<(usize, usize)>, raw: int, n: nat)
    ensures
        first_raw_window(e, raw, n) matches Some(j) ==> 0 <= j < n && raw_in_window(e, j, raw),
    decreases n,
{
    if n > 0 {
        lemma_first_raw_window_in(e, raw, (n - 1) as nat);
    }
}

/// Past the last entry no window holds a raw position.
proof fn lemma_first_raw_window_none(e: Seq<(usize, usize)>, raw: int, n: nat)
    requires
        entries_sorted(e),
        e.len() > 0,
        n <= window_count(e),
        raw > e.last().0,
    ensures
        first_raw_window(e, raw, n) is None,
    decreases n,
{
    if n > 0 {
        assert(e[n as int].0 <= e.last().0);
        lemma_first_raw_window_none(e, raw, (n - 1) as nat);
    }
}

/// If no text window holds `d`, the window found for it is a marker.
proof fn lemma_no_text_window(e: Seq<(usize, usize)>, d: int, n: nat, i: int)
    requires
        last_text_window(e, d, n) is None,
        0 <= i < n,
        display_in_window(e, i, d),
    ensures
        !is_text_window(e, i),
    decreases n,
{
    if i < n - 1 {
        lemma_no_text_window(e, d, (n - 1) as nat, i);
    }
}

/// Between the first and the last entry, some window holds each display position.
proof fn lemma_display_covered(e: Seq<(usize, usize)>, d: int, n: nat)
    requires
        entries_sorted(e),
        1 <= n <= window_count(e),
        e[0].1 <= d <= e[n as int].1,
    ensures
        first_display_window(e, d, n) is Some,
    decreases n,
{
    if d <= e[n - 1].1 && n > 1 {
        lemma_display_covered(e, d, (n - 1) as nat);
    }
}

proof fn lemma_last_text_window_in(e: Seq<(usize, usize)>, display: int, n: nat)
    ensures
        last_text_window(e, display, n) matches Some(j) ==> 0 <= j < n && display_in_window(
            e,
            j,
            display,
        ) && is_text_window(e, j),
    decreases n,
{
    if n > 0 {
        lemma_last_text_window_in(e, display, (n - 1) as nat);
    }
}

proof fn lemma_first_display_window_in(e: Seq<(usize, usize)>, display: int, n: nat)
    ensures
        first_display_window(e, display, n) matches Some(j) ==> 0 <= j < n && display_in_window(
            e,
            j,
            display,
        ),
    decreases n,
{
    if n > 0 {
        lemma_first_display_window_in(e, display, (n - 1) as nat);
    }
}

proof fn lemma_first_raw_window_stable(e: Seq<(usize, usize)>, raw: int, n: nat, m: nat)
    requires
        n <= m,
        first_raw_window(e, raw, n) is Some,
    ensures
        first_raw_window(e, raw, m) == first_raw_window(e, raw, n),
    decreases m - n,
{
    if n < m {
        lemma_first_raw_window_stable(e, raw, n, (m - 1) as nat);
    }
}

} // verus!

verus! {

// ---------------------------------------------------------------------------
// Scanning specifications
// ---------------------------------------------------------------------------

/// The first backtick at or after `start`.
pub open spec fn backtick_from(c: Seq<u8>, start: int) -> Option<int>
    decreases c.len() - start,
{
    if start < 0 || start >= c.len() {
        None
    } else if c[start] == BACKTICK {
        Some(start)
    } else {
        backtick_from(c, start + 1)
    }
}

/// The number of consecutive `ch` bytes starting at `pos`.
pub open spec fn run_len(c: Seq<u8>, pos: int, ch: u8) -> int
    decreases c.len() - pos,
{
    if 0 <= pos < c.len() && c[pos] == ch {
        1 + run_len(c, pos + 1, ch)
    } else {
        0
    }
}

/// The closing delimiter search: from `pos` on, the first run of exactly
/// `count` bytes `ch` not touching another `ch` (search started at `start`).
pub open spec fn delimiter_from(c: Seq<u8>, start: int, pos: int, ch: u8, count: int) -> Option<
    int,
>
    decreases c.len() - pos,
{
    if pos < 0 || pos + count > c.len() || pos >= c.len() {
        None
    } else if c[pos] == ch {
        let found = run_len(c, pos, ch);
        let before_ok = pos == start || c[pos - 1] != ch;
        let after_ok = pos + count >= c.len() || c[pos + count] != ch;
        if found == count && before_ok && after_ok {
            Some(pos)
        } else {
            proof {
                lemma_run_len_bounds(c, pos, ch);
            }
            delimiter_from(c, start, pos + found, ch, count)
        }
    } else {
        delimiter_from(c, start, pos + 1, ch, count)
    }
}

/// Display text, spans and offset map entries built so far by the inline scan.
pub struct Scan {
    pub display: Seq<u8>,
    pub spans: Seq<Span>,
    pub entries: Seq<(usize, usize)>,
}

/// Emits the delimited region `c[open + markers .. close]` with `style`:
/// the inner text is displayed, a span covers it, and four entries record
/// the removal of the opening and the closing marker.
pub open spec fn emit(acc: Scan, c: Seq<u8>, open: int, markers: int, close: int, style: Style) -> Scan {
    let d = acc.display.len();
    let inner = c.subrange(open + markers, close);
    let de = d + inner.len();
    Scan {
        display: acc.display + inner,
        spans: acc.spans.push(Span { range: Range { start: d as usize, end: de as usize }, style }),
        entries: acc.entries + seq![
            (open as usize, d as usize),
            ((open + markers) as usize, d as usize),
            (close as usize, de as usize),
            ((close + markers) as usize, de as usize),
        ],
    }
}

pub open spec fn copy_bytes(acc: Scan, bytes: Seq<u8>) -> Scan {
    Scan { display: acc.display + bytes, spans: acc.spans, entries: acc.entries }
}

/// Inline scan of `c` from `pos`: backtick code spans first, then runs of
/// asterisks (`***`, `**` and, for a single star, `*`), everything else is
/// copied to the display text.
pub open spec fn inline_scan(c: Seq<u8>, pos: int, acc: Scan) -> Scan
    decreases c.len() - pos,
{
    if pos < 0 || pos >= c.len() {
        acc
    } else if c[pos] == BACKTICK && backtick_from(c, pos + 1) is Some {
        let close = backtick_from(c, pos + 1)->Some_0;
        proof {
            lemma_backtick_from_bounds(c, pos + 1);
        }
        inline_scan(c, close + 1, emit(acc, c, pos, 1, close, code_style()))
    } else if c[pos] == STAR {
        proof {
            lemma_emphasis_at_bounds(c, pos);
        }
        match emphasis_at(c, pos) {
            Some((close, markers)) => inline_scan(
                c,
                close + markers,
                emit(acc, c, pos, markers, close, emphasis_style(markers)),
            ),
            None => {
                let n = run_len(c, pos, STAR);
                inline_scan(c, pos + n, copy_bytes(acc, c.subrange(pos, pos + n)))
            },
        }
    } else {
        inline_scan(c, pos + 1, copy_bytes(acc, seq![c[pos]]))
    }
}

/// The emphasis opened by the run of stars at `pos`, as the position of the
/// closing run and the number of markers: `***` first, then `**`, and `*`
/// only for a single star.
pub open spec fn emphasis_at(c: Seq<u8>, pos: int) -> Option<(int, int)> {
    let n = run_len(c, pos, STAR);
    if n >= 3 && delimiter_from(c, pos + 3, pos + 3, STAR, 3) is Some {
        Some((delimiter_from(c, pos + 3, pos + 3, STAR, 3)->Some_0, 3))
    } else if n >= 2 && delimiter_from(c, pos + 2, pos + 2, STAR, 2) is Some {
        Some((delimiter_from(c, pos + 2, pos + 2, STAR, 2)->Some_0, 2))
    } else if n == 1 && delimiter_from(c, pos + 1, pos + 1, STAR, 1) is Some {
        Some((delimiter_from(c, pos + 1, pos + 1, STAR, 1)->Some_0, 1))
    } else {
        None
    }
}

pub proof fn lemma_emphasis_at_bounds(c: Seq<u8>, pos: int)
    requires
        0 <= pos < c.len(),
        c[pos] == STAR,
    ensures
        emphasis_at(c, pos) matches Some((close, m)) ==> 1 <= m <= 3 && pos + m <= close && close
            + m <= c.len() && (forall|k: int| pos <= k < pos + m ==> c[k] == STAR) && (forall|
            k: int,
        | close <= k < close + m ==> c[k] == STAR),
        1 <= run_len(c, pos, STAR),
        pos + run_len(c, pos, STAR) <= c.len(),
        forall|k: int| pos <= k < pos + run_len(c, pos, STAR) ==> c[k] == STAR,
{
    lemma_run_len_bounds(c, pos, STAR);
    lemma_delimiter_from_bounds(c, pos + 3, pos + 3, STAR, 3);
    lemma_delimiter_from_bounds(c, pos + 2, pos + 2, STAR, 2);
    lemma_delimiter_from_bounds(c, pos + 1, pos + 1, STAR, 1);
}

pub open spec fn initial_scan() -> Scan {
    Scan { display: Seq::empty(), spans: Seq::empty(), entries: seq![(0usize, 0usize)] }
}

/// The inline parse of `c`: the full scan with a closing entry at the end.
pub open spec fn inline_of(c: Seq<u8>) -> Scan {
    let s = inline_scan(c, 0, initial_scan());
    Scan {
        display: s.display,
        spans: s.spans,
        entries: s.entries.push((c.len() as usize, s.display.len() as usize)),
    }
}

pub proof fn lemma_backtick_from_bounds(c: Seq<u8>, start: int)
    ensures
        backtick_from(c, start) matches Some(i) ==> start <= i < c.len() && c[i] == BACKTICK,
    decreases c.len() - start,
{
    if 0 <= start < c.len() && c[start] != BACKTICK {
        lemma_backtick_from_bounds(c, start + 1);
    }
}

pub proof fn lemma_run_len_bounds(c: Seq<u8>, pos: int, ch: u8)
    ensures
        0 <= run_len(c, pos, ch),
        0 <= pos ==> pos + run_len(c, pos, ch) <= c.len() || run_len(c, pos, ch) == 0,
        forall|i: int| pos <= i < pos + run_len(c, pos, ch) ==> c[i] == ch,
        0 <= pos < c.len() && c[pos] == ch ==> run_len(c, pos, ch) >= 1,
    decreases c.len() - pos,
{
    if 0 <= pos < c.len() && c[pos] == ch {
        lemma_run_len_bounds(c, pos + 1, ch);
    }
}

pub proof fn lemma_delimiter_from_bounds(c: Seq<u8>, start: int, pos: int, ch: u8, count: int)
    ensures
        delimiter_from(c, start, pos, ch, count) matches Some(i) ==> pos <= i && i + count <= c.len()
            && 0 <= i && (forall|k: int| i <= k < i + count ==> c[k] == ch),
    decreases c.len() - pos,
{
    if pos < 0 || pos + count > c.len() || pos >= c.len() {
    } else if c[pos] == ch {
        lemma_run_len_bounds(c, pos, ch);
        let found = run_len(c, pos, ch);
        let before_ok = pos == start || c[pos - 1] != ch;
        let after_ok = pos + count >= c.len() || c[pos + count] != ch;
        if !(found == count && before_ok && after_ok) {
            lemma_delimiter_from_bounds(c, start, pos + found, ch, count);
        }
    } else {
        lemma_delimiter_from_bounds(c, start, pos + 1, ch, count);
    }
}

// ---------------------------------------------------------------------------
// Scanning helpers
// ---------------------------------------------------------------------------

/// Find the position of a closing backtick starting from `start`.
fn find_closing_backtick(bytes: &[u8], start: usize) -> (r: Option<usize>)
    ensures
        match r {
            Some(i) => backtick_from(bytes@, start as int) == Some(i as int),
            None => backtick_from(bytes@, start as int) is None,
        },
{
    let mut pos = start;
    while pos < bytes.len()
        invariant
            start <= pos,
            backtick_from(bytes@, start as int) == backtick_from(bytes@, pos as int),
        decreases bytes.len() - pos,
    {
        if bytes[pos] == BACKTICK {
            return Some(pos);
        }
        pos += 1;
    }
    None
}

/// Count consecutive occurrences of `ch` starting at `pos`.
fn count_chars(bytes: &[u8], pos: usize, ch: u8) -> (n: usize)
    requires
        pos <= bytes@.len(),
    ensures
        n == run_len(bytes@, pos as int, ch),
{
    let mut count: usize = 0;
    while count < bytes.len() - pos && bytes[pos + count] == ch
        invariant
            pos + count <= bytes@.len(),
            run_len(bytes@, pos as int, ch) == count + run_len(bytes@, (pos + count) as int, ch),
        decreases bytes.len() - pos - count,
    {
        count += 1;
    }
    count
}

/// Find closing delimiter of exactly `count` consecutive `ch` characters,
/// starting search from `start`. The closing delimiter must be exactly `count`
/// characters (not more).
fn find_closing_delimiter(bytes: &[u8], start: usize, ch: u8, count: usize) -> (r: Option<usize>)
    requires
        count >= 1,
        start <= bytes@.len(),
    ensures
        match r {
            Some(i) => delimiter_from(bytes@, start as int, start as int, ch, count as int) == Some(
                i as int,
            ),
            None => delimiter_from(bytes@, start as int, start as int, ch, count as int) is None,
        },
{
    let mut pos = start;
    while pos <= bytes.len() && count <= bytes.len() - pos
        invariant
            start <= pos <= bytes@.len(),
            count >= 1,
            delimiter_from(bytes@, start as int, start as int, ch, count as int) == delimiter_from(
                bytes@,
                start as int,
                pos as int,
                ch,
                count as int,
            ),
        decreases bytes.len() - pos,
    {
        if bytes[pos] == ch {
            let found = count_chars(bytes, pos, ch);
            proof {
                lemma_run_len_bounds(bytes@, pos as int, ch);
            }
            let before_ok = pos == start || bytes[pos - 1] != ch;
            let after_ok = pos + count >= bytes.len() || bytes[pos + count] != ch;
            if found == count && before_ok && after_ok {
                return Some(pos);
            }
            pos += found;
        } else {
            pos += 1;
        }
    }
    None
}

} // verus!

verus! {

// ---------------------------------------------------------------------------
// Offset map shape of a scan
// ---------------------------------------------------------------------------

/// The scan state at `pos` is consistent: entries sorted, every window text
/// or marker, and the text since the last entry copied one to one.
pub open spec fn scan_wf(c: Seq<u8>, pos: int, acc: Scan) -> bool {
    &&& 0 <= pos <= c.len()
    &&& c.len() <= usize::MAX
    &&& acc.entries.len() > 0
    &&& entries_sorted(acc.entries)
    &&& windows_text_or_marker(acc.entries)
    &&& acc.entries[0] == (0usize, 0usize)
    &&& acc.entries.last().0 <= pos
    &&& acc.entries.last().1 <= acc.display.len()
    &&& pos - acc.entries.last().0 == acc.display.len() - acc.entries.last().1
    &&& acc.display.len() <= pos
}

proof fn lemma_sorted_push(e: Seq<(usize, usize)>, x: (usize, usize))
    requires
        entries_sorted(e),
        e.len() > 0 ==> e.last().0 <= x.0 && e.last().1 <= x.1,
    ensures
        entries_sorted(e.push(x)),
{
    let f = e.push(x);
    assert forall|i: int, j: int| 0 <= i <= j < f.len() implies #[trigger] f[i].0 <= #[trigger] f[j].0
        && f[i].1 <= f[j].1 by {
        if j == f.len() - 1 && i < j {
            assert(f[i] == e[i]);
            assert(e[i].0 <= e[e.len() - 1].0 && e[i].1 <= e[e.len() - 1].1);
        } else if j < e.len() {
            assert(f[i] == e[i] && f[j] == e[j]);
        }
    }
}

proof fn lemma_windows_push(e: Seq<(usize, usize)>, x: (usize, usize))
    requires
        windows_text_or_marker(e),
        e.len() > 0 ==> (x.1 == e.last().1 || x.0 - e.last().0 == x.1 - e.last().1),
    ensures
        windows_text_or_marker(e.push(x)),
{
    let f = e.push(x);
    assert forall|i: int| 0 <= i && i + 1 < f.len() implies (#[trigger] f[i + 1]).1 == f[i].1
        || f[i + 1].0 - f[i].0 == f[i + 1].1 - f[i].1 by {
        if i + 1 < e.len() {
            assert(e[i + 1] == f[i + 1]);
        }
    }
}

proof fn lemma_push_entry(e: Seq<(usize, usize)>, x: (usize, usize))
    requires
        entries_sorted(e),
        windows_text_or_marker(e),
        e.len() > 0,
        e.last().0 <= x.0,
        e.last().1 <= x.1,
        x.1 == e.last().1 || x.0 - e.last().0 == x.1 - e.last().1,
    ensures
        entries_sorted(e.push(x)),
        windows_text_or_marker(e.push(x)),
        e.push(x)[0] == e[0],
        e.push(x).last() == x,
{
    lemma_sorted_push(e, x);
    lemma_windows_push(e, x);
}

proof fn lemma_emit_wf(c: Seq<u8>, pos: int, acc: Scan, markers: int, close: int, style: Style)
    requires
        scan_wf(c, pos, acc),
        markers >= 1,
        pos + markers <= close,
        close + markers <= c.len(),
    ensures
        scan_wf(c, close + markers, emit(acc, c, pos, markers, close, style)),
{
    let d = acc.display.len();
    let de = d + (close - pos - markers);
    let e0 = acc.entries;
    let a = (pos as usize, d as usize);
    let b = ((pos + markers) as usize, d as usize);
    let x = (close as usize, de as usize);
    let y = ((close + markers) as usize, de as usize);
    lemma_push_entry(e0, a);
    lemma_push_entry(e0.push(a), b);
    lemma_push_entry(e0.push(a).push(b), x);
    lemma_push_entry(e0.push(a).push(b).push(x), y);
    assert(e0 + seq![a, b, x, y] =~= e0.push(a).push(b).push(x).push(y));
}

proof fn lemma_inline_scan_wf(c: Seq<u8>, pos: int, acc: Scan)
    requires
        scan_wf(c, pos, acc),
    ensures
        scan_wf(c, c.len() as int, inline_scan(c, pos, acc)),
    decreases c.len() - pos,
{
    if pos >= c.len() {
    } else if c[pos] == BACKTICK && backtick_from(c, pos + 1) is Some {
        let close = backtick_from(c, pos + 1)->Some_0;
        lemma_backtick_from_bounds(c, pos + 1);
        lemma_emit_wf(c, pos, acc, 1, close, code_style());
        lemma_inline_scan_wf(c, close + 1, emit(acc, c, pos, 1, close, code_style()));
    } else if c[pos] == STAR {
        lemma_emphasis_at_bounds(c, pos);
        match emphasis_at(c, pos) {
            Some((close, m)) => {
                lemma_emit_wf(c, pos, acc, m, close, emphasis_style(m));
                lemma_inline_scan_wf(c, close + m, emit(acc, c, pos, m, close, emphasis_style(m)));
            },
            None => {
                let n = run_len(c, pos, STAR);
                lemma_inline_scan_wf(c, pos + n, copy_bytes(acc, c.subrange(pos, pos + n)));
            },
        }
    } else {
        lemma_inline_scan_wf(c, pos + 1, copy_bytes(acc, seq![c[pos]]));
    }
}

/// The entries of an inline parse are sorted, start at display position 0,
/// and each window is text or a marker.
pub proof fn lemma_inline_of_entries(c: Seq<u8>)
    requires
        c.len() <= usize::MAX,
    ensures
        entries_sorted(inline_of(c).entries),
        windows_text_or_marker(inline_of(c).entries),
        inline_of(c).entries[0] == (0usize, 0usize),
        inline_of(c).entries.last() == (c.len() as usize, inline_of(c).display.len() as usize),
        inline_of(c).display.len() <= c.len(),
        forall|i: int|
            0 <= i < inline_of(c).entries.len() ==> (#[trigger] inline_of(c).entries[i]).0
                <= c.len(),
{
    let s = inline_scan(c, 0, initial_scan());
    assert(scan_wf(c, 0, initial_scan()));
    lemma_inline_scan_wf(c, 0, initial_scan());
    let x = (c.len() as usize, s.display.len() as usize);
    lemma_push_entry(s.entries, x);
    let e = inline_of(c).entries;
    assert forall|i: int| 0 <= i < e.len() implies (#[trigger] e[i]).0 <= c.len() by {
        assert(e[i].0 <= e[e.len() - 1].0);
    }
}

} // verus!

verus! {

// ---------------------------------------------------------------------------
// Inline parsing
// ---------------------------------------------------------------------------


/// Appends the display text, span and entries of a delimited region.
fn emit_delimited(
    display: &mut Vec<u8>,
    spans: &mut Vec<Span>,
    entries: &mut Vec<(usize, usize)>,
    content: &[u8],
    open: usize,
    markers: usize,
    close: usize,
    style: Style,
)
    requires
        open + markers <= close,
        close + markers <= content@.len(),
        old(display)@.len() <= open,
    ensures
        final(display)@ == emit(
            Scan { display: old(display)@, spans: old(spans)@, entries: old(entries)@ },
            content@,
            open as int,
            markers as int,
            close as int,
            style,
        ).display,
        final(spans)@ == emit(
            Scan { display: old(display)@, spans: old(spans)@, entries: old(entries)@ },
            content@,
            open as int,
            markers as int,
            close as int,
            style,
        ).spans,
        final(entries)@ == emit(
            Scan { display: old(display)@, spans: old(spans)@, entries: old(entries)@ },
            content@,
            open as int,
            markers as int,
            close as int,
            style,
        ).entries,
{
    let content_len = content.len();
    let display_start = display.len();
    entries.push((open, display_start));
    entries.push((open + markers, display_start));
    push_bytes(display, content, open + markers, close);
    let display_end = display.len();
    entries.push((close, display_end));
    entries.push((close + markers, display_end));
    spans.push(Span { range: display_start..display_end, style });
    assert(entries@ =~= old(entries)@ + seq![
        (open, display_start),
        ((open + markers) as usize, display_start),
        (close, display_end),
        ((close + markers) as usize, display_end),
    ]);
}

/// Removing the opening and the closing markers of an emitted region keeps
/// the display text and the rest of the line valid UTF-8.
proof fn lemma_emit_keeps_valid(d: Seq<u8>, c: Seq<u8>, pos: int, m: int, close: int)
    requires
        0 <= pos,
        m >= 1,
        pos + m <= close,
        close + m <= c.len(),
        forall|k: int| pos <= k < pos + m ==> is_ascii_byte(#[trigger] c[k]),
        forall|k: int| close <= k < close + m ==> is_ascii_byte(#[trigger] c[k]),
        valid_utf8(d + c.subrange(pos, c.len() as int)),
    ensures
        valid_utf8(d + c.subrange(pos + m, close) + c.subrange(close + m, c.len() as int)),
{
    let len = c.len() as int;
    let open_run = c.subrange(pos, pos + m);
    let inner = c.subrange(pos + m, close);
    let close_run = c.subrange(close, close + m);
    let after = c.subrange(close + m, len);
    assert(d + c.subrange(pos, len) =~= d + open_run + (inner + close_run + after));
    assert forall|k: int| 0 <= k < open_run.len() implies is_ascii_byte(#[trigger] open_run[k]) by {
        assert(open_run[k] == c[pos + k]);
    }
    assert forall|k: int| 0 <= k < close_run.len() implies is_ascii_byte(
        #[trigger] close_run[k],
    ) by {
        assert(close_run[k] == c[close + k]);
    }
    lemma_remove_ascii_run(d, open_run, inner + close_run + after);
    assert(d + (inner + close_run + after) =~= (d + inner) + close_run + after);
    lemma_remove_ascii_run(d + inner, close_run, after);
}

/// The emphasis at a run of `star_count` stars starting at `pos`.
fn find_emphasis(content: &[u8], pos: usize, star_count: usize) -> (r: Option<(usize, usize)>)
    requires
        0 <= pos < content@.len(),
        content@[pos as int] == STAR,
        star_count == run_len(content@, pos as int, STAR),
    ensures
        match r {
            Some((close, m)) => emphasis_at(content@, pos as int) == Some((close as int, m as int)),
            None => emphasis_at(content@, pos as int) is None,
        },
{
    proof {
        lemma_emphasis_at_bounds(content@, pos as int);
    }
    let _len = content.len();
    if star_count >= 3 {
        // Try bold+italic: ***text***
        if let Some(close) = find_closing_delimiter(content, pos + 3, STAR, 3) {
            return Some((close, 3));
        }
    }
    if star_count >= 2 {
        // Try bold: **text**
        if let Some(close) = find_closing_delimiter(content, pos + 2, STAR, 2) {
            return Some((close, 2));
        }
    }
    if star_count == 1 {
        // Try italic: *text* — only when exactly 1 star
        if let Some(close) = find_closing_delimiter(content, pos + 1, STAR, 1) {
            return Some((close, 1));
        }
    }
    None
}

/// Parse inline formatting from the bytes of a string, returning:
/// - display text (markers removed)
/// - spans (ranges in display text with styles)
/// - offset map entries (raw_pos, display_pos) at marker boundaries
fn parse_inline(content: &[u8]) -> (res: (String, Vec<Span>, Vec<(usize, usize)>))
    requires
        valid_utf8(content@),
    ensures
        encode_utf8(res.0@) == inline_of(content@).display,
        res.1@ == inline_of(content@).spans,
        res.2@ == inline_of(content@).entries,
{
    let len = content.len();
    let ghost c = content@;
    let mut display: Vec<u8> = Vec::new();
    let mut spans: Vec<Span> = Vec::new();
    let mut entries: Vec<(usize, usize)> = Vec::new();

    // Start entry
    entries.push((0, 0));
    assert(entries@ =~= initial_scan().entries);
    assert(display@ =~= initial_scan().display);
    assert(spans@ =~= initial_scan().spans);
    assert(c.subrange(0, len as int) =~= c);

    let mut raw_pos: usize = 0;

    while raw_pos < len
        invariant
            c == content@,
            len == c.len(),
            raw_pos <= len,
            display@.len() <= raw_pos,
            inline_scan(c, raw_pos as int, Scan { display: display@, spans: spans@, entries: entries@ })
                == inline_scan(c, 0, initial_scan()),
            valid_utf8(display@ + c.subrange(raw_pos as int, len as int)),
        decreases len - raw_pos,
    {
        let ghost acc = Scan { display: display@, spans: spans@, entries: entries@ };
        let ghost pos = raw_pos as int;
        let ghost rest = c.subrange(pos, len as int);
        if content[raw_pos] == BACKTICK {
            // Inline code: find matching closing backtick
            if let Some(close) = find_closing_backtick(content, raw_pos + 1) {
                proof {
                    lemma_backtick_from_bounds(c, pos + 1);
                }
                emit_delimited(
                    &mut display,
                    &mut spans,
                    &mut entries,
                    content,
                    raw_pos,
                    1,
                    close,
                    Style { bold: false, italic: false, code: true, heading: None },
                );
                proof {
                    lemma_emit_keeps_valid(acc.display, c, pos, 1, close as int);
                }
                raw_pos = close + 1;
                continue;
            }
        }
        if content[raw_pos] == STAR {
            // Count consecutive asterisks
            let star_count = count_chars(content, raw_pos, STAR);
            proof {
                lemma_emphasis_at_bounds(c, pos);
            }
            if let Some((close, markers)) = find_emphasis(content, raw_pos, star_count) {
                emit_delimited(
                    &mut display,
                    &mut spans,
                    &mut entries,
                    content,
                    raw_pos,
                    markers,
                    close,
                    Style {
                        bold: markers >= 2,
                        italic: markers != 2,
                        code: false,
                        heading: None,
                    },
                );
                proof {
                    lemma_emit_keeps_valid(acc.display, c, pos, markers as int, close as int);
                    assert(emphasis_style(markers as int) == Style {
                        bold: markers >= 2,
                        italic: markers != 2,
                        code: false,
                        heading: None,
                    });
                }
                raw_pos = close + markers;
                continue;
            }
            // Unmatched — treat all consecutive stars as literal text
            push_bytes(&mut display, content, raw_pos, raw_pos + star_count);
            proof {
                assert(display@ + c.subrange(pos + star_count, len as int) =~= acc.display + rest);
            }
            raw_pos += star_count;
            continue;
        }
        // Regular byte — copied to the display text unchanged (UTF-8
        // sequences are copied byte by byte; markers are ASCII).
        display.push(content[raw_pos]);
        proof {
            assert(display@ + c.subrange(pos + 1, len as int) =~= acc.display + rest);
            assert(display@ =~= acc.display + seq![c[pos]]);
        }
        raw_pos += 1;
    }

    // End entry
    let display_len = display.len();
    entries.push((len, display_len));
    assert(c.subrange(len as int, len as int) =~= Seq::<u8>::empty());
    assert(display@ + c.subrange(len as int, len as int) =~= display@);
    proof {
        broadcast use vstd::utf8::decode_utf8_encode_utf8;

    }
    let text = match string_from_utf8(display) {
        Some(t) => t,
        None => String::new(),
    };
    (text, spans, entries)
}

// ---------------------------------------------------------------------------
// Line parsing
// ---------------------------------------------------------------------------

/// The number of leading `#` bytes, at most six, counted from `i`.
pub open spec fn hash_count(b: Seq<u8>, i: int) -> int
    decreases 6 - i,
{
    if 0 <= i < 6 && i < b.len() && b[i] == HASH {
        hash_count(b, i + 1)
    } else {
        i
    }
}

/// The heading level and the byte offset of the content after the prefix.
pub open spec fn heading_prefix_of(b: Seq<u8>) -> (Option<u8>, int) {
    let count = hash_count(b, 0);
    if count > 0 && count < b.len() && b[count] == SPACE {
        (Some(count as u8), count + 1)
    } else {
        (None, 0)
    }
}

/// A code fence: three backticks and no further backtick.
pub open spec fn is_fence(t: Seq<u8>) -> bool {
    &&& t.len() >= 3
    &&& t[0] == BACKTICK
    &&& t[1] == BACKTICK
    &&& t[2] == BACKTICK
    &&& forall|i: int| 3 <= i < t.len() ==> t[i] != BACKTICK
}

pub open spec fn with_heading(s: Span, level: u8) -> Span {
    Span {
        range: s.range,
        style: Style {
            bold: s.style.bold,
            italic: s.style.italic,
            code: s.style.code,
            heading: Some(level),
        },
    }
}

pub open spec fn shift_entry(e: (usize, usize), by: int) -> (usize, usize) {
    ((e.0 + by) as usize, e.1)
}

/// The parse of a line given by its bytes: whole-line code when `code`,
/// otherwise a heading prefix (its level applied to every inline span) and
/// the inline parse of the rest, entries shifted back to raw positions.
pub open spec fn parse_line_of(b: Seq<u8>, code: bool) -> Scan {
    if code {
        Scan {
            display: b,
            spans: seq![Span { range: Range { start: 0usize, end: b.len() as usize }, style: code_style() }],
            entries: seq![(0usize, 0usize), (b.len() as usize, b.len() as usize)],
        }
    } else {
        let (level, start) = heading_prefix_of(b);
        let s = inline_of(b.subrange(start, b.len() as int));
        Scan {
            display: s.display,
            spans: match level {
                Some(l) => s.spans.map_values(|sp: Span| with_heading(sp, l)),
                None => s.spans,
            },
            entries: s.entries.map_values(|e: (usize, usize)| shift_entry(e, start)),
        }
    }
}

/// Whitespace in the sense of the Unicode `White_Space` property.
pub open spec fn is_white_space(c: char) -> bool {
    ||| '\u{9}' <= c <= '\u{d}'
    ||| c == ' '
    ||| c == '\u{85}'
    ||| c == '\u{a0}'
    ||| c == '\u{1680}'
    ||| '\u{2000}' <= c <= '\u{200a}'
    ||| c == '\u{2028}'
    ||| c == '\u{2029}'
    ||| c == '\u{202f}'
    ||| c == '\u{205f}'
    ||| c == '\u{3000}'
}

/// The characters with the leading whitespace removed.
pub open spec fn trim_start(s: Seq<char>) -> Seq<char>
    decreases s.len(),
{
    if s.len() > 0 && is_white_space(s[0]) {
        trim_start(s.drop_first())
    } else {
        s
    }
}

/// The characters with the trailing whitespace removed.
pub open spec fn trim_end(s: Seq<char>) -> Seq<char>
    decreases s.len(),
{
    if s.len() > 0 && is_white_space(s.last()) {
        trim_end(s.drop_last())
    } else {
        s
    }
}

/// The characters with leading and trailing whitespace removed.
pub open spec fn trimmed(s: Seq<char>) -> Seq<char> {
    trim_end(trim_start(s))
}

/// `str::trim`: the string slice with leading and trailing whitespace
/// (the Unicode `White_Space` characters) removed.
#[verifier::external_body]
fn trim(s: &str) -> (t: &str)
    ensures
        t@ == trimmed(s@),
{
    s.trim()
}

/// Whether a trimmed line is a code fence (three backticks, optionally
/// followed by a language tag holding no backtick).
pub fn is_code_fence(trimmed_line: &str) -> (fence: bool)
    ensures
        fence == is_fence(trimmed_line.spec_bytes()),
{
    let t = trimmed_line.as_bytes();
    if t.len() < 3 || t[0] != BACKTICK || t[1] != BACKTICK || t[2] != BACKTICK {
        return false;
    }
    let mut i: usize = 3;
    while i < t.len()
        invariant
            3 <= i <= t@.len(),
            t@ == trimmed_line.spec_bytes(),
            forall|k: int| 3 <= k < i ==> t@[k] != BACKTICK,
        decreases t.len() - i,
    {
        if t[i] == BACKTICK {
            return false;
        }
        i += 1;
    }
    true
}

/// Check if a line starts with a heading prefix (1-6 `#` chars followed by a space).
/// Returns (heading_level, byte_offset_of_content_after_prefix).
fn parse_heading_prefix(raw: &str) -> (r: (Option<u8>, usize))
    ensures
        r.0 == heading_prefix_of(raw.spec_bytes()).0,
        r.1 as int == heading_prefix_of(raw.spec_bytes()).1,
{
    let bytes = raw.as_bytes();
    let mut count: usize = 0;
    while count < bytes.len() && count < 6 && bytes[count] == HASH
        invariant
            count <= 6,
            count <= bytes@.len(),
            hash_count(bytes@, 0) == hash_count(bytes@, count as int),
        decreases 6 - count,
    {
        count += 1;
    }
    if count > 0 && count < bytes.len() && bytes[count] == SPACE {
        (Some(count as u8), count + 1)  // skip "# "
    } else {
        (None, 0)
    }
}

/// The parsed line matches the specification: its display text encodes to
/// the specified bytes, and spans and offset map entries are as specified.
pub open spec fn line_matches(line: Line, s: Scan) -> bool {
    &&& encode_utf8(line.display@) == s.display
    &&& line.spans@ == s.spans
    &&& line.offset_map@ == s.entries
}

/// Parse a single line of markdown.
///
/// `in_code_block` tracks whether we're inside a fenced code block
/// (``` delimiters). It's mutated: toggled when a fence line is encountered.
pub fn parse_line(raw: &str, in_code_block: &mut bool) -> (line: Line)
    ensures
        ({
            let fence = is_fence(encode_utf8(trimmed(raw@)));
            &&& *final(in_code_block) == (fence != *old(in_code_block))
            &&& line_matches(line, parse_line_of(raw.spec_bytes(), fence || *old(in_code_block)))
        }),
{
    // Check for code fence toggle
    let trimmed_line = trim(raw);
    let fence = is_code_fence(trimmed_line);
    if fence {
        *in_code_block = !*in_code_block;
    }
    // Fence lines are displayed as-is with code style, and so are the lines
    // inside a code block (no inline parsing).
    if fence || !fence && *in_code_block {
        let mut spans: Vec<Span> = Vec::new();
        spans.push(
            Span {
                range: 0..raw.len(),
                style: Style { bold: false, italic: false, code: true, heading: None },
            },
        );
        let line = Line {
            display: raw.to_owned(),
            spans,
            offset_map: OffsetMap::identity(raw.len()),
        };
        assert(line.spans@ =~= parse_line_of(raw.spec_bytes(), true).spans);
        return line;
    }
    // Check for heading prefix

    let (heading_level, content_start) = parse_heading_prefix(raw);
    let bytes = raw.as_bytes();
    let bytes_len = bytes.len();
    let ghost b = bytes@;
    proof {
        broadcast use vstd::utf8::encode_utf8_valid_utf8;

        assert(valid_utf8(b));
        if content_start > 0 {
            let k = content_start - 1;
            assert(b =~= b.subrange(0, k as int) + seq![b[k as int]] + b.subrange(
                content_start as int,
                b.len() as int,
            ));
            lemma_remove_ascii_byte(
                b.subrange(0, k as int),
                b[k as int],
                b.subrange(content_start as int, b.len() as int),
            );
        } else {
            assert(b.subrange(0, b.len() as int) =~= b);
        }
    }
    let content = &bytes[content_start..bytes.len()];

    // Parse inline formatting on the content portion
    let (display, spans_content, map_entries) = parse_inline(content);
    let ghost s = inline_of(content@);
    proof {
        lemma_inline_of_entries(content@);
    }

    // Apply heading style to the entire display line, preserving inline styles
    let spans = match heading_level {
        Some(level) => {
            let mut styled: Vec<Span> = Vec::new();
            let mut k: usize = 0;
            while k < spans_content.len()
                invariant
                    k <= spans_content@.len(),
                    styled@ == spans_content@.take(k as int).map_values(
                        |sp: Span| with_heading(sp, level),
                    ),
                decreases spans_content.len() - k,
            {
                let sp = &spans_content[k];
                styled.push(
                    Span {
                        range: sp.range.start..sp.range.end,
                        style: Style {
                            bold: sp.style.bold,
                            italic: sp.style.italic,
                            code: sp.style.code,
                            heading: Some(level),
                        },
                    },
                );
                k += 1;
                assert(styled@ =~= spans_content@.take(k as int).map_values(
                    |sp: Span| with_heading(sp, level),
                ));
            }
            assert(spans_content@.take(k as int) =~= spans_content@);
            styled
        },
        None => spans_content,
    };

    // Adjust offset map entries: raw positions need the heading prefix
    // offset added back
    let mut entries: Vec<(usize, usize)> = Vec::new();
    let mut k: usize = 0;
    while k < map_entries.len()
        invariant
            k <= map_entries@.len(),
            map_entries@ == s.entries,
            content_start + content@.len() == bytes_len,
            forall|i: int| 0 <= i < s.entries.len() ==> (#[trigger] s.entries[i]).0 <= content@.len(),
            entries@ == map_entries@.take(k as int).map_values(
                |e: (usize, usize)| shift_entry(e, content_start as int),
            ),
        decreases map_entries.len() - k,
    {
        let (r, d) = map_entries[k];
        assert(map_entries@[k as int] == s.entries[k as int]);
        entries.push((r + content_start, d));
        k += 1;
        assert(entries@ =~= map_entries@.take(k as int).map_values(
            |e: (usize, usize)| shift_entry(e, content_start as int),
        ));
    }
    assert(map_entries@.take(k as int) =~= map_entries@);
    proof {
        let e = entries@;
        assert forall|i: int, j: int| 0 <= i <= j < e.len() implies #[trigger] e[i].0
            <= #[trigger] e[j].0 && e[i].1 <= e[j].1 by {
            assert(s.entries[i].0 <= s.entries[j].0);
        }
    }
    let line = Line { display, spans, offset_map: OffsetMap::new(entries) };
    proof {
        assert(content@ == b.subrange(content_start as int, b.len() as int));
    }
    line
}

} // verus!

verus! {

pub proof fn lemma_hash_count_bounds(b: Seq<u8>, i: int)
    requires
        0 <= i <= 6,
        i <= b.len(),
    ensures
        i <= hash_count(b, i) <= 6,
        hash_count(b, i) <= b.len(),
    decreases 6 - i,
{
    if 0 <= i < 6 && i < b.len() && b[i] == HASH {
        lemma_hash_count_bounds(b, i + 1);
    }
}

/// The offset map of every parsed line round-trips display positions:
/// mapping a display position to raw text and back gives it again.
pub proof fn lemma_parse_line_round_trip(b: Seq<u8>, code: bool, d: int)
    requires
        b.len() <= usize::MAX,
        0 <= d,
    ensures
        raw_to_display_of(
            parse_line_of(b, code).entries,
            display_to_raw_of(parse_line_of(b, code).entries, d),
        ) == d,
{
    let e = parse_line_of(b, code).entries;
    if code {
        assert(entries_sorted(e));
        assert(windows_text_or_marker(e));
    } else {
        let (level, start) = heading_prefix_of(b);
        lemma_hash_count_bounds(b, 0);
        let c = b.subrange(start, b.len() as int);
        let s = inline_of(c);
        lemma_inline_of_entries(c);
        assert forall|i: int, j: int| 0 <= i <= j < e.len() implies #[trigger] e[i].0
            <= #[trigger] e[j].0 && e[i].1 <= e[j].1 by {
            assert(s.entries[i].0 <= s.entries[j].0 && s.entries[i].1 <= s.entries[j].1);
            assert(s.entries[j].0 <= c.len());
        }
        assert forall|i: int| 0 <= i && i + 1 < e.len() implies (#[trigger] e[i + 1]).1 == e[i].1
            || e[i + 1].0 - e[i].0 == e[i + 1].1 - e[i].1 by {
            assert(s.entries[i + 1].1 == s.entries[i].1 || s.entries[i + 1].0 - s.entries[i].0
                == s.entries[i + 1].1 - s.entries[i].1);
            assert(s.entries[i + 1].0 <= c.len());
            assert(s.entries[i].0 <= c.len());
        }
        assert(e[0].1 == 0);
    }
    lemma_display_raw_round_trip(e, d);
}

/// Spans within the first `len` display bytes, each in order and each
/// ending before the next one starts.
pub open spec fn spans_ordered(spans: Seq<Span>, len: int) -> bool {
    &&& forall|i: int|
        0 <= i < spans.len() ==> (#[trigger] spans[i]).range.start <= spans[i].range.end <= len
    &&& forall|i: int, j: int|
        0 <= i < j < spans.len() ==> (#[trigger] spans[i]).range.end <= (#[trigger] spans[j]).range.start
}

proof fn lemma_inline_scan_spans(c: Seq<u8>, pos: int, acc: Scan)
    requires
        scan_wf(c, pos, acc),
        spans_ordered(acc.spans, acc.display.len() as int),
        forall|i: int| 0 <= i < acc.spans.len() ==> (#[trigger] acc.spans[i]).style.heading is None,
    ensures
        spans_ordered(inline_scan(c, pos, acc).spans, inline_scan(c, pos, acc).display.len() as int),
        forall|i: int|
            0 <= i < inline_scan(c, pos, acc).spans.len() ==> (#[trigger] inline_scan(c, pos, acc).spans[i]).style.heading is None,
    decreases c.len() - pos,
{
    if pos >= c.len() {
    } else if c[pos] == BACKTICK && backtick_from(c, pos + 1) is Some {
        let close = backtick_from(c, pos + 1)->Some_0;
        lemma_backtick_from_bounds(c, pos + 1);
        lemma_emit_wf(c, pos, acc, 1, close, code_style());
        lemma_emit_spans(c, pos, acc, 1, close, code_style());
        lemma_inline_scan_spans(c, close + 1, emit(acc, c, pos, 1, close, code_style()));
    } else if c[pos] == STAR {
        lemma_emphasis_at_bounds(c, pos);
        match emphasis_at(c, pos) {
            Some((close, m)) => {
                lemma_emit_wf(c, pos, acc, m, close, emphasis_style(m));
                lemma_emit_spans(c, pos, acc, m, close, emphasis_style(m));
                lemma_inline_scan_spans(c, close + m, emit(acc, c, pos, m, close, emphasis_style(m)));
            },
            None => {
                let n = run_len(c, pos, STAR);
                lemma_inline_scan_spans(c, pos + n, copy_bytes(acc, c.subrange(pos, pos + n)));
            },
        }
    } else {
        lemma_inline_scan_spans(c, pos + 1, copy_bytes(acc, seq![c[pos]]));
    }
}

proof fn lemma_emit_spans(c: Seq<u8>, pos: int, acc: Scan, markers: int, close: int, style: Style)
    requires
        scan_wf(c, pos, acc),
        spans_ordered(acc.spans, acc.display.len() as int),
        forall|i: int| 0 <= i < acc.spans.len() ==> (#[trigger] acc.spans[i]).style.heading is None,
        style.heading is None,
        markers >= 1,
        pos + markers <= close,
        close + markers <= c.len(),
    ensures
        spans_ordered(emit(acc, c, pos, markers, close, style).spans, emit(acc, c, pos, markers, close, style).display.len() as int),
        forall|i: int|
            0 <= i < emit(acc, c, pos, markers, close, style).spans.len() ==> (#[trigger] emit(acc, c, pos, markers, close, style).spans[i]).style.heading is None,
{
    lemma_emit_wf(c, pos, acc, markers, close, style);
    let r = emit(acc, c, pos, markers, close, style);
    let d = acc.display.len();
    assert(r.spans.len() == acc.spans.len() + 1);
    assert forall|i: int, j: int| 0 <= i < j < r.spans.len() implies (#[trigger] r.spans[i]).range.end
        <= (#[trigger] r.spans[j]).range.start by {
        if j < acc.spans.len() {
            assert(r.spans[i] == acc.spans[i] && r.spans[j] == acc.spans[j]);
        } else {
            assert(r.spans[i] == acc.spans[i]);
        }
    }
    assert forall|i: int| 0 <= i < r.spans.len() implies (#[trigger] r.spans[i]).range.start
        <= r.spans[i].range.end <= r.display.len() by {
        if i < acc.spans.len() {
            assert(r.spans[i] == acc.spans[i]);
        }
    }
    assert forall|i: int| 0 <= i < r.spans.len() implies (#[trigger] r.spans[i]).style.heading is None by {
        if i < acc.spans.len() {
            assert(r.spans[i] == acc.spans[i]);
        }
    }
}

/// The heading prefix of a line: `Some(k)` exactly when the line starts
/// with `k` hashes, one to six, followed by a space.
pub proof fn lemma_heading_prefix(b: Seq<u8>, k: int)
    requires
        1 <= k <= 6,
    ensures
        heading_prefix_of(b).0 == Some(k as u8) <==> (k < b.len() && b[k] == SPACE && forall|i: int|
            0 <= i < k ==> b[i] == HASH),
{
    lemma_hash_count_bounds(b, 0);
    lemma_hash_count_all(b, 0);
    let n = hash_count(b, 0);
    if k < b.len() && b[k] == SPACE && (forall|i: int| 0 <= i < k ==> b[i] == HASH) {
        lemma_hash_count_at_least(b, 0, k);
        assert(n == k);
    }
}

pub proof fn lemma_hash_count_all(b: Seq<u8>, i: int)
    requires
        0 <= i <= 6,
        i <= b.len(),
        forall|j: int| 0 <= j < i ==> b[j] == HASH,
    ensures
        forall|j: int| 0 <= j < hash_count(b, i) ==> b[j] == HASH,
        hash_count(b, i) < 6 && hash_count(b, i) < b.len() ==> b[hash_count(b, i)] != HASH,
    decreases 6 - i,
{
    if 0 <= i < 6 && i < b.len() && b[i] == HASH {
        lemma_hash_count_all(b, i + 1);
    }
}

pub(crate) proof fn lemma_hash_count_at_least(b: Seq<u8>, i: int, k: int)
    requires
        0 <= i <= k <= 6,
        k < b.len(),
        b[k] == SPACE,
        forall|j: int| 0 <= j < k ==> b[j] == HASH,
    ensures
        hash_count(b, i) == k,
    decreases 6 - i,
{
    if i < k {
        lemma_hash_count_at_least(b, i + 1, k);
    }
}

/// The display text and spans of every parsed line: the display text is no
/// longer than the line, the spans lie within it in order, one after
/// another, and each carries the line's heading level, none inside a code
/// block.
pub proof fn lemma_parse_line_spans(b: Seq<u8>, code: bool)
    requires
        b.len() <= usize::MAX,
    ensures
        parse_line_of(b, code).display.len() <= b.len(),
        spans_ordered(parse_line_of(b, code).spans, parse_line_of(b, code).display.len() as int),
        forall|i: int|
            0 <= i < parse_line_of(b, code).spans.len() ==> (#[trigger] parse_line_of(b, code).spans[i]).style.heading
                == if code {
                None
            } else {
                heading_prefix_of(b).0
            },
{
    let p = parse_line_of(b, code);
    if !code {
        let (level, start) = heading_prefix_of(b);
        lemma_hash_count_bounds(b, 0);
        let c = b.subrange(start, b.len() as int);
        assert(scan_wf(c, 0, initial_scan()));
        lemma_inline_scan_spans(c, 0, initial_scan());
        lemma_inline_of_entries(c);
        let s = inline_of(c);
        assert(p.spans.len() == s.spans.len());
        assert forall|i: int| 0 <= i < p.spans.len() implies #[trigger] p.spans[i].range == s.spans[i].range
            && p.spans[i].style.heading == level by {
            if level is None {
                assert(s.spans[i].style.heading is None);
            }
        }
        assert forall|i: int, j: int| 0 <= i < j < p.spans.len() implies (#[trigger] p.spans[i]).range.end
            <= (#[trigger] p.spans[j]).range.start by {
            assert(p.spans[i].range == s.spans[i].range);
            assert(p.spans[j].range == s.spans[j].range);
            assert(s.spans[i].range.end <= s.spans[j].range.start);
        }
        assert forall|i: int| 0 <= i < p.spans.len() implies (#[trigger] p.spans[i]).range.start
            <= p.spans[i].range.end <= p.display.len() by {
            assert(p.spans[i].range == s.spans[i].range);
            assert(s.spans[i].range.start <= s.spans[i].range.end <= s.display.len());
        }
    }
}

/// The entries of a parsed line are sorted, their windows text or
/// markers, the first at display position 0 and the last at the end of the
/// line and of its display text.
proof fn lemma_parse_line_entries(b: Seq<u8>, code: bool)
    requires
        b.len() <= usize::MAX,
    ensures
        entries_sorted(parse_line_of(b, code).entries),
        windows_text_or_marker(parse_line_of(b, code).entries),
        parse_line_of(b, code).entries.len() >= 2,
        parse_line_of(b, code).entries[0].1 == 0,
        parse_line_of(b, code).entries.last() == (b.len() as usize, parse_line_of(b, code).display.len() as usize),
        parse_line_of(b, code).display.len() <= b.len(),
{
    let p = parse_line_of(b, code);
    let e = p.entries;
    if !code {
        let (level, start) = heading_prefix_of(b);
        lemma_hash_count_bounds(b, 0);
        let c = b.subrange(start, b.len() as int);
        let s = inline_of(c);
        lemma_inline_of_entries(c);
        assert forall|i: int, j: int| 0 <= i <= j < e.len() implies #[trigger] e[i].0
            <= #[trigger] e[j].0 && e[i].1 <= e[j].1 by {
            assert(s.entries[i].0 <= s.entries[j].0 && s.entries[i].1 <= s.entries[j].1);
            assert(s.entries[j].0 <= c.len());
        }
        assert forall|i: int| 0 <= i && i + 1 < e.len() implies (#[trigger] e[i + 1]).1 == e[i].1
            || e[i + 1].0 - e[i].0 == e[i + 1].1 - e[i].1 by {
            assert(s.entries[i + 1].1 == s.entries[i].1 || s.entries[i + 1].0 - s.entries[i].0
                == s.entries[i + 1].1 - s.entries[i].1);
            assert(s.entries[i + 1].0 <= c.len());
            assert(s.entries[i].0 <= c.len());
        }
        assert(s.entries.len() >= 2);
        assert(e.last() == shift_entry(s.entries.last(), start));
    }
}

/// Display to raw and back on a parsed line: a display position within the
/// display text maps to a raw position within the line, which maps back to
/// it; and the end of the line maps to the end of the display text.
pub proof fn lemma_parse_line_offsets(b: Seq<u8>, code: bool, d: int)
    requires
        b.len() <= usize::MAX,
        0 <= d <= parse_line_of(b, code).display.len(),
    ensures
        0 <= display_to_raw_of(parse_line_of(b, code).entries, d) <= b.len(),
        raw_to_display_of(
            parse_line_of(b, code).entries,
            display_to_raw_of(parse_line_of(b, code).entries, d),
        ) == d,
        raw_to_display_of(parse_line_of(b, code).entries, b.len() as int) == parse_line_of(b, code).display.len(),
{
    let e = parse_line_of(b, code).entries;
    lemma_parse_line_entries(b, code);
    lemma_display_raw_round_trip(e, d);
    lemma_display_to_raw_bounded(e, d);
    lemma_raw_to_display_at_end(e);
}

/// A display position up to the last entry's maps to a raw position up to
/// the last entry's.
proof fn lemma_display_to_raw_bounded(e: Seq<(usize, usize)>, d: int)
    requires
        entries_sorted(e),
        windows_text_or_marker(e),
        e.len() >= 1,
        e[0].1 <= d <= e.last().1,
    ensures
        0 <= display_to_raw_of(e, d) <= e.last().0,
{
    let n = window_count(e);
    lemma_last_text_window_in(e, d, n);
    lemma_first_display_window_in(e, d, n);
    let bt = last_text_window(e, d, n);
    let ba = first_display_window(e, d, n);
    match bt {
        Some(i) => {
            assert(e[i + 1].0 <= e[e.len() - 1].0);
        },
        None => match ba {
            Some(i) => {
                assert(e[i + 1].0 <= e[e.len() - 1].0);
            },
            None => {
                if e.len() >= 2 && d < e.last().1 {
                    lemma_display_covered(e, d, n);
                }
            },
        },
    }
}

/// The last entry's raw position maps to its display position.
proof fn lemma_raw_to_display_at_end(e: Seq<(usize, usize)>)
    requires
        entries_sorted(e),
        windows_text_or_marker(e),
        e.len() >= 1,
    ensures
        raw_to_display_of(e, e.last().0 as int) == e.last().1,
{
    let n = window_count(e);
    let r = e.last().0 as int;
    lemma_first_raw_window_in(e, r, n);
    match first_raw_window(e, r, n) {
        Some(i) => {
            assert(e[i + 1].0 <= e[e.len() - 1].0);
            lemma_flat_raw_flat_display(e, i + 1, e.len() - 1);
        },
        None => {},
    }
}

/// The spans of an inline parse lie within its display text, in order, each
/// ending before the next starts, and none carries a heading level.
pub proof fn lemma_inline_of_spans(c: Seq<u8>)
    requires
        c.len() <= usize::MAX,
    ensures
        spans_ordered(inline_of(c).spans, inline_of(c).display.len() as int),
        forall|i: int| 0 <= i < inline_of(c).spans.len() ==> (#[trigger] inline_of(c).spans[i]).style.heading is None,
{
    assert(scan_wf(c, 0, initial_scan()));
    lemma_inline_scan_spans(c, 0, initial_scan());
}

/// What inline parsing gives back of any content: its offset map starts at
/// (0, 0) and ends at the content's and the display text's lengths, both
/// columns never decrease, each window between two entries is either
/// copied text (as long in both) or a removed marker (no display width),
/// the display text is no longer than the content, and every span lies
/// within the display text, in order and without overlap.
pub proof fn lemma_parse_inline(c: Seq<u8>)
    requires
        c.len() <= usize::MAX,
    ensures
        inline_of(c).entries[0] == (0usize, 0usize),
        inline_of(c).entries.last() == (c.len() as usize, inline_of(c).display.len() as usize),
        entries_sorted(inline_of(c).entries),
        forall|i: int|
            0 <= i && i + 1 < inline_of(c).entries.len() ==> (#[trigger] inline_of(c).entries[i + 1]).1
                == inline_of(c).entries[i].1 || inline_of(c).entries[i + 1].0 - inline_of(c).entries[i].0
                == inline_of(c).entries[i + 1].1 - inline_of(c).entries[i].1,
        inline_of(c).display.len() <= c.len(),
        forall|i: int|
            0 <= i < inline_of(c).spans.len() ==> (#[trigger] inline_of(c).spans[i]).range.start
                <= inline_of(c).spans[i].range.end <= inline_of(c).display.len(),
        forall|i: int, j: int|
            0 <= i < j < inline_of(c).spans.len() ==> (#[trigger] inline_of(c).spans[i]).range.end
                <= (#[trigger] inline_of(c).spans[j]).range.start,
{
    lemma_inline_of_entries(c);
    lemma_inline_of_spans(c);
}

} // verus!
