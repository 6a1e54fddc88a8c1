//! Detection of completed markdown patterns in a line, for converting
//! typed markdown into formatting.

use std::ops::Range;

use vstd::prelude::*;
use vstd::string::StringSliceAdditionalSpecFns;

use crate::parse::{
    hash_count, lemma_hash_count_all, lemma_hash_count_at_least, lemma_hash_count_bounds, lemma_run_len_bounds, run_len, BACKTICK,
    HASH, SPACE, STAR,
};

verus! {

/// A detected markdown pattern that should be converted to formatting.
#[derive(Debug, PartialEq)]
pub enum MarkdownAction {
    /// Apply bold to the content range, remove marker ranges.
    Bold {
        /// Range of the text content (between markers) in the line.
        content: Range<usize>,
        /// Byte ranges of the markers to remove (opening and closing).
        markers: Vec<Range<usize>>,
    },
    /// Apply italic.
    Italic { content: Range<usize>, markers: Vec<Range<usize>> },
    /// Apply bold+italic.
    BoldItalic { content: Range<usize>, markers: Vec<Range<usize>> },
    /// Set heading level and remove the prefix.
    Heading {
        level: u8,
        /// Range of the heading prefix to remove (e.g., "# " or "### ").
        marker: Range<usize>,
    },
    /// Apply code/mono font.
    Code { content: Range<usize>, markers: Vec<Range<usize>> },
}

fn copy_ranges(v: &Vec<Range<usize>>) -> (r: Vec<Range<usize>>)
    ensures
        r@ == v@,
{
    let mut r: Vec<Range<usize>> = Vec::new();
    let mut i: usize = 0;
    while i < v.len()
        invariant
            i <= v@.len(),
            r@ == v@.take(i as int),
        decreases v.len() - i,
    {
        r.push(v[i].start..v[i].end);
        i += 1;
        assert(r@ =~= v@.take(i as int));
    }
    assert(v@.take(i as int) =~= v@);
    r
}

impl Clone for MarkdownAction {
    fn clone(&self) -> (c: Self)
        ensures
            c@ == self@,
    {
        match self {
            MarkdownAction::Bold { content, markers } => MarkdownAction::Bold {
                content: content.start..content.end,
                markers: copy_ranges(markers),
            },
            MarkdownAction::Italic { content, markers } => MarkdownAction::Italic {
                content: content.start..content.end,
                markers: copy_ranges(markers),
            },
            MarkdownAction::BoldItalic { content, markers } => MarkdownAction::BoldItalic {
                content: content.start..content.end,
                markers: copy_ranges(markers),
            },
            MarkdownAction::Heading { level, marker } => MarkdownAction::Heading {
                level: *level,
                marker: marker.start..marker.end,
            },
            MarkdownAction::Code { content, markers } => MarkdownAction::Code {
                content: content.start..content.end,
                markers: copy_ranges(markers),
            },
        }
    }
}

/// The value of a [`MarkdownAction`], its marker ranges as a sequence.
pub enum Pattern {
    Bold { content: Range<usize>, markers: Seq<Range<usize>> },
    Italic { content: Range<usize>, markers: Seq<Range<usize>> },
    BoldItalic { content: Range<usize>, markers: Seq<Range<usize>> },
    Heading { level: u8, marker: Range<usize> },
    Code { content: Range<usize>, markers: Seq<Range<usize>> },
}

impl View for MarkdownAction {
    type V = Pattern;

    open spec fn view(&self) -> Pattern {
        match self {
            MarkdownAction::Bold { content, markers } => Pattern::Bold {
                content: *content,
                markers: markers@,
            },
            MarkdownAction::Italic { content, markers } => Pattern::Italic {
                content: *content,
                markers: markers@,
            },
            MarkdownAction::BoldItalic { content, markers } => Pattern::BoldItalic {
                content: *content,
                markers: markers@,
            },
            MarkdownAction::Heading { level, marker } => Pattern::Heading {
                level: *level,
                marker: *marker,
            },
            MarkdownAction::Code { content, markers } => Pattern::Code {
                content: *content,
                markers: markers@,
            },
        }
    }
}

pub open spec fn range_of(start: int, end: int) -> Range<usize> {
    Range { start: start as usize, end: end as usize }
}

/// The position by which detected patterns are ordered: the content start,
/// and 0 for a heading.
pub open spec fn pattern_key(p: Pattern) -> int {
    match p {
        Pattern::Bold { content, .. } => content.start as int,
        Pattern::Italic { content, .. } => content.start as int,
        Pattern::BoldItalic { content, .. } => content.start as int,
        Pattern::Code { content, .. } => content.start as int,
        Pattern::Heading { .. } => 0,
    }
}

// ---------------------------------------------------------------------------
// Specification of the detection
// ---------------------------------------------------------------------------

/// The heading prefix of a line: 1-6 `#` followed by a space.
pub open spec fn heading_of(b: Seq<u8>) -> Option<Pattern> {
    let level = hash_count(b, 0);
    if level == 0 || level >= b.len() || b[level] != SPACE {
        None
    } else {
        Some(Pattern::Heading { level: level as u8, marker: range_of(0, level + 1) })
    }
}

/// Positions `start..end` marked as claimed.
pub open spec fn claim(claimed: Seq<bool>, start: int, end: int) -> Seq<bool> {
    Seq::new(claimed.len(), |p: int| claimed[p] || (start <= p < end))
}

pub open spec fn all_unclaimed(claimed: Seq<bool>, start: int, end: int) -> bool {
    forall|p: int| start <= p < end ==> !claimed[p]
}

/// Patterns detected so far, and the byte positions they claim.
pub struct Detection {
    pub claimed: Seq<bool>,
    pub patterns: Seq<Pattern>,
}

/// The first unclaimed backtick at or after `j`.
pub open spec fn unclaimed_backtick_from(b: Seq<u8>, claimed: Seq<bool>, j: int) -> Option<int>
    decreases b.len() - j,
{
    if j < 0 || j >= b.len() {
        None
    } else if b[j] == BACKTICK && !claimed[j] {
        Some(j)
    } else {
        unclaimed_backtick_from(b, claimed, j + 1)
    }
}

/// Code spans: pairs of unclaimed backticks around non-empty content,
/// left to right.
pub open spec fn code_pass(b: Seq<u8>, i: int, st: Detection) -> Detection
    decreases b.len() - i,
{
    if i < 0 || i >= b.len() {
        st
    } else if b[i] == BACKTICK && !st.claimed[i] {
        proof {
            lemma_unclaimed_backtick_from_bounds(b, st.claimed, i + 1);
        }
        match unclaimed_backtick_from(b, st.claimed, i + 1) {
            Some(close) => if i + 1 < close {
                code_pass(
                    b,
                    close + 1,
                    Detection {
                        claimed: claim(st.claimed, i, close + 1),
                        patterns: st.patterns.push(
                            Pattern::Code {
                                content: range_of(i + 1, close),
                                markers: seq![range_of(i, i + 1), range_of(close, close + 1)],
                            },
                        ),
                    },
                )
            } else {
                code_pass(b, close + 1, st)
            },
            None => st,
        }
    } else {
        code_pass(b, i + 1, st)
    }
}

/// The first run of exactly `marker_len` unclaimed asterisks at or after `j`
/// (runs touching a claimed position and longer runs are skipped whole).
pub open spec fn closing_asterisks_from(b: Seq<u8>, claimed: Seq<bool>, j: int, marker_len: int) -> Option<
    int,
>
    decreases b.len() - j,
{
    if j < 0 || j >= b.len() {
        None
    } else if b[j] == STAR && !claimed[j] {
        let run = run_len(b, j, STAR);
        proof {
            lemma_run_len_bounds(b, j, STAR);
        }
        if all_unclaimed(claimed, j, j + run) && run == marker_len {
            Some(j)
        } else {
            closing_asterisks_from(b, claimed, j + run, marker_len)
        }
    } else {
        closing_asterisks_from(b, claimed, j + 1, marker_len)
    }
}

/// The largest marker length, from `marker_len` down to 1, that closes
/// around non-empty content; with the position of the closing run.
pub open spec fn try_markers(b: Seq<u8>, claimed: Seq<bool>, open: int, marker_len: int) -> Option<
    (int, int),
>
    decreases marker_len,
{
    if marker_len < 1 {
        None
    } else {
        let content_start = open + marker_len;
        if content_start < b.len() && closing_asterisks_from(b, claimed, content_start, marker_len)
            is Some && content_start < closing_asterisks_from(
            b,
            claimed,
            content_start,
            marker_len,
        )->Some_0 {
            Some((marker_len, closing_asterisks_from(b, claimed, content_start, marker_len)->Some_0))
        } else {
            try_markers(b, claimed, open, marker_len - 1)
        }
    }
}

pub open spec fn emphasis_pattern(marker_len: int, open: int, close: int) -> Pattern {
    let content = range_of(open + marker_len, close);
    let markers = seq![range_of(open, open + marker_len), range_of(close, close + marker_len)];
    if marker_len == 3 {
        Pattern::BoldItalic { content, markers }
    } else if marker_len == 2 {
        Pattern::Bold { content, markers }
    } else {
        Pattern::Italic { content, markers }
    }
}

pub open spec fn min3(n: int) -> int {
    if n < 3 { n } else { 3 }
}

/// Asterisk formatting (`***`, `**`, `*`), largest marker first, on
/// unclaimed positions, left to right.
pub open spec fn asterisk_pass(b: Seq<u8>, i: int, st: Detection) -> Detection
    decreases b.len() - i,
{
    if i < 0 || i >= b.len() {
        st
    } else if b[i] != STAR || st.claimed[i] {
        asterisk_pass(b, i + 1, st)
    } else {
        let n = run_len(b, i, STAR);
        proof {
            lemma_run_len_bounds(b, i, STAR);
            lemma_try_markers_bounds(b, st.claimed, i, min3(n));
        }
        match try_markers(b, st.claimed, i, min3(n)) {
            Some((m, close)) => asterisk_pass(
                b,
                close + m,
                Detection {
                    claimed: claim(st.claimed, i, close + m),
                    patterns: st.patterns.push(emphasis_pattern(m, i, close)),
                },
            ),
            None => asterisk_pass(b, i + n, st),
        }
    }
}

/// The index at which a pattern with key `k` is inserted into `s`: before
/// the first pattern whose key is at least `k`.
pub open spec fn insertion_index(s: Seq<Pattern>, k: int, i: int) -> int
    decreases s.len() - i,
{
    if i < 0 || i >= s.len() {
        s.len() as int
    } else if pattern_key(s[i]) >= k {
        i
    } else {
        insertion_index(s, k, i + 1)
    }
}

/// Stable sort of patterns by their key.
pub open spec fn sort_patterns(s: Seq<Pattern>) -> Seq<Pattern>
    decreases s.len(),
{
    if s.len() == 0 {
        s
    } else {
        let rest = sort_patterns(s.drop_first());
        rest.insert(insertion_index(rest, pattern_key(s[0]), 0), s[0])
    }
}

pub open spec fn no_claims(len: nat) -> Seq<bool> {
    Seq::new(len, |p: int| false)
}

/// The inline patterns of a line: code spans first, then asterisk
/// formatting on what they left unclaimed, ordered by content start.
pub open spec fn inline_patterns_of(b: Seq<u8>) -> Seq<Pattern> {
    let codes = code_pass(b, 0, Detection { claimed: no_claims(b.len()), patterns: Seq::empty() });
    let all = asterisk_pass(b, 0, codes);
    sort_patterns(all.patterns)
}

/// All patterns of a line: a heading prefix alone, or the inline patterns.
pub open spec fn patterns_of(b: Seq<u8>) -> Seq<Pattern> {
    match heading_of(b) {
        Some(h) => seq![h],
        None => inline_patterns_of(b),
    }
}

pub proof fn lemma_unclaimed_backtick_from_bounds(b: Seq<u8>, claimed: Seq<bool>, j: int)
    ensures
        unclaimed_backtick_from(b, claimed, j) matches Some(k) ==> j <= k < b.len() && b[k]
            == BACKTICK && !claimed[k],
    decreases b.len() - j,
{
    if 0 <= j < b.len() && !(b[j] == BACKTICK && !claimed[j]) {
        lemma_unclaimed_backtick_from_bounds(b, claimed, j + 1);
    }
}

pub proof fn lemma_closing_asterisks_bounds(b: Seq<u8>, claimed: Seq<bool>, j: int, marker_len: int)
    ensures
        closing_asterisks_from(b, claimed, j, marker_len) matches Some(k) ==> j <= k && k
            + marker_len <= b.len() && run_len(b, k, STAR) == marker_len && all_unclaimed(
            claimed,
            k,
            k + marker_len,
        ),
    decreases b.len() - j,
{
    if 0 <= j < b.len() {
        lemma_run_len_bounds(b, j, STAR);
        if b[j] == STAR && !claimed[j] {
            let run = run_len(b, j, STAR);
            if !(all_unclaimed(claimed, j, j + run) && run == marker_len) {
                lemma_closing_asterisks_bounds(b, claimed, j + run, marker_len);
            }
        } else {
            lemma_closing_asterisks_bounds(b, claimed, j + 1, marker_len);
        }
    }
}

pub proof fn lemma_try_markers_bounds(b: Seq<u8>, claimed: Seq<bool>, open: int, marker_len: int)
    ensures
        try_markers(b, claimed, open, marker_len) matches Some((m, close)) ==> 1 <= m
            <= marker_len && open + m < close && close + m <= b.len() && run_len(b, close, STAR)
            == m && all_unclaimed(claimed, close, close + m),
    decreases marker_len,
{
    if marker_len >= 1 {
        lemma_closing_asterisks_bounds(b, claimed, open + marker_len, marker_len);
        lemma_try_markers_bounds(b, claimed, open, marker_len - 1);
    }
}

} // verus!

verus! {

pub open spec fn models(s: Seq<MarkdownAction>) -> Seq<Pattern> {
    s.map_values(|a: MarkdownAction| a@)
}

/// Patterns ordered by key.
pub open spec fn sorted_by_key(s: Seq<Pattern>) -> bool {
    forall|i: int, j: int| 0 <= i <= j < s.len() ==> pattern_key(#[trigger] s[i]) <= pattern_key(
        #[trigger] s[j],
    )
}

proof fn lemma_insertion_index(s: Seq<Pattern>, k: int, i: int)
    requires
        0 <= i <= s.len(),
    ensures
        i <= insertion_index(s, k, i) <= s.len(),
        forall|j: int| i <= j < insertion_index(s, k, i) ==> pattern_key(s[j]) < k,
        insertion_index(s, k, i) < s.len() ==> pattern_key(s[insertion_index(s, k, i)]) >= k,
    decreases s.len() - i,
{
    if i < s.len() && pattern_key(s[i]) < k {
        lemma_insertion_index(s, k, i + 1);
    }
}

/// A stable sort by key yields patterns ordered by key.
pub proof fn lemma_sort_patterns_sorted(s: Seq<Pattern>)
    ensures
        sorted_by_key(sort_patterns(s)),
        sort_patterns(s).len() == s.len(),
    decreases s.len(),
{
    if s.len() > 0 {
        let rest = sort_patterns(s.drop_first());
        lemma_sort_patterns_sorted(s.drop_first());
        let k = pattern_key(s[0]);
        let idx = insertion_index(rest, k, 0);
        lemma_insertion_index(rest, k, 0);
        let r = rest.insert(idx, s[0]);
        assert forall|i: int, j: int| 0 <= i <= j < r.len() implies pattern_key(#[trigger] r[i])
            <= pattern_key(#[trigger] r[j]) by {
            if i < idx && j < idx {
                assert(r[i] == rest[i] && r[j] == rest[j]);
            } else if i < idx && j == idx {
                assert(r[i] == rest[i]);
            } else if i < idx {
                assert(r[i] == rest[i] && r[j] == rest[j - 1]);
            } else if i == idx && j > idx {
                assert(r[j] == rest[j - 1]);
                assert(pattern_key(rest[idx]) <= pattern_key(rest[j - 1]));
            } else if i > idx {
                assert(r[i] == rest[i - 1] && r[j] == rest[j - 1]);
            }
        }
    }
}

fn action_key(a: &MarkdownAction) -> (k: usize)
    ensures
        k as int == pattern_key(a@),
{
    match a {
        MarkdownAction::Bold { content, .. } => content.start,
        MarkdownAction::Italic { content, .. } => content.start,
        MarkdownAction::BoldItalic { content, .. } => content.start,
        MarkdownAction::Code { content, .. } => content.start,
        MarkdownAction::Heading { .. } => 0,
    }
}

/// Stable sort of the actions by content start position.
fn sort_by_content_start(actions: &mut Vec<MarkdownAction>)
    ensures
        models(final(actions)@) == sort_patterns(models(old(actions)@)),
{
    let ghost s = models(actions@);
    let mut out: Vec<MarkdownAction> = Vec::new();
    assert(s.subrange(s.len() as int, s.len() as int) =~= Seq::<Pattern>::empty());
    while actions.len() > 0
        invariant
            actions@.len() <= s.len(),
            models(actions@) == s.take(actions@.len() as int),
            models(out@) == sort_patterns(s.subrange(actions@.len() as int, s.len() as int)),
        decreases actions@.len(),
    {
        let ghost n = actions@.len() as int;
        let ghost rest = models(out@);
        let ghost before = actions@;
        let x = actions.pop().unwrap();
        proof {
            assert(x == before[n - 1]);
            assert(models(before)[n - 1] == s.take(n)[n - 1]);
            assert(models(actions@) =~= s.take(n - 1));
            assert(x@ == s[n - 1]);
            let t = s.subrange(n - 1, s.len() as int);
            assert(t.drop_first() =~= s.subrange(n, s.len() as int));
            assert(t[0] == s[n - 1]);
        }
        let k = action_key(&x);
        let mut idx: usize = 0;
        while idx < out.len() && action_key(&out[idx]) < k
            invariant
                idx <= out@.len(),
                models(out@) == rest,
                insertion_index(rest, k as int, 0) == insertion_index(rest, k as int, idx as int),
            decreases out@.len() - idx,
        {
            idx += 1;
        }
        out.insert(idx, x);
        proof {
            assert(models(out@) =~= rest.insert(idx as int, x@));
        }
    }
    assert(s.subrange(0, s.len() as int) =~= s);
    *actions = out;
}

/// Count consecutive asterisks starting at position `start`.
fn count_asterisks(bytes: &[u8], start: usize) -> (n: usize)
    requires
        start <= bytes@.len(),
    ensures
        n == run_len(bytes@, start as int, STAR),
{
    let mut count: usize = 0;
    while count < bytes.len() - start && bytes[start + count] == STAR
        invariant
            start + count <= bytes@.len(),
            run_len(bytes@, start as int, STAR) == count + run_len(
                bytes@,
                (start + count) as int,
                STAR,
            ),
        decreases bytes.len() - start - count,
    {
        count += 1;
    }
    count
}

/// Mark positions `start..end` as claimed.
fn claim_positions(claimed: &mut Vec<bool>, start: usize, end: usize)
    requires
        start <= end <= old(claimed)@.len(),
    ensures
        final(claimed)@ == claim(old(claimed)@, start as int, end as int),
{
    let mut p = start;
    while p < end
        invariant
            start <= p <= end <= claimed@.len(),
            claimed@.len() == old(claimed)@.len(),
            forall|q: int|
                0 <= q < claimed@.len() ==> #[trigger] claimed@[q] == (old(claimed)@[q] || (start
                    <= q < p)),
        decreases end - p,
    {
        claimed.set(p, true);
        p += 1;
    }
    assert(claimed@ =~= claim(old(claimed)@, start as int, end as int));
}

/// The first unclaimed backtick at or after `from`.
fn find_unclaimed_backtick(bytes: &[u8], claimed: &Vec<bool>, from: usize) -> (r: Option<usize>)
    requires
        claimed@.len() == bytes@.len(),
    ensures
        match r {
            Some(k) => unclaimed_backtick_from(bytes@, claimed@, from as int) == Some(k as int),
            None => unclaimed_backtick_from(bytes@, claimed@, from as int) is None,
        },
{
    let mut i = from;
    while i < bytes.len()
        invariant
            from <= i,
            claimed@.len() == bytes@.len(),
            unclaimed_backtick_from(bytes@, claimed@, from as int) == unclaimed_backtick_from(
                bytes@,
                claimed@,
                i as int,
            ),
        decreases bytes.len() - i,
    {
        if bytes[i] == BACKTICK && !claimed[i] {
            return Some(i);
        }
        i += 1;
    }
    None
}

/// Detect code spans delimited by single backticks.
fn detect_code_spans(bytes: &[u8], claimed: &mut Vec<bool>, actions: &mut Vec<MarkdownAction>)
    requires
        old(claimed)@.len() == bytes@.len(),
    ensures
        final(claimed)@.len() == bytes@.len(),
        final(claimed)@ == code_pass(
            bytes@,
            0,
            Detection { claimed: old(claimed)@, patterns: models(old(actions)@) },
        ).claimed,
        models(final(actions)@) == code_pass(
            bytes@,
            0,
            Detection { claimed: old(claimed)@, patterns: models(old(actions)@) },
        ).patterns,
{
    let len = bytes.len();
    let ghost b = bytes@;
    let ghost start = Detection { claimed: claimed@, patterns: models(actions@) };
    let mut i: usize = 0;

    while i < len
        invariant
            b == bytes@,
            len == b.len(),
            i <= len,
            claimed@.len() == len,
            code_pass(b, i as int, Detection { claimed: claimed@, patterns: models(actions@) })
                == code_pass(b, 0, start),
        decreases len - i,
    {
        if bytes[i] == BACKTICK && !claimed[i] {
            // Found opening backtick -- search for closing.
            let open = i;
            proof {
                lemma_unclaimed_backtick_from_bounds(b, claimed@, i + 1);
            }
            match find_unclaimed_backtick(bytes, claimed, open + 1) {
                Some(close) => {
                    let content_start = open + 1;
                    let content_end = close;
                    if content_start < content_end {
                        // Mark all positions as claimed.
                        claim_positions(claimed, open, close + 1);
                        let mut markers: Vec<Range<usize>> = Vec::new();
                        markers.push(open..open + 1);
                        markers.push(close..close + 1);
                        let ghost old_models = models(actions@);
                        actions.push(
                            MarkdownAction::Code { content: content_start..content_end, markers },
                        );
                        proof {
                            assert(markers@ =~= seq![
                                range_of(open as int, open + 1),
                                range_of(close as int, close + 1),
                            ]);
                            assert(models(actions@) =~= old_models.push(
                                Pattern::Code {
                                    content: range_of(open + 1, close as int),
                                    markers: seq![
                                        range_of(open as int, open + 1),
                                        range_of(close as int, close + 1),
                                    ],
                                },
                            ));
                        }
                    }
                    i = close + 1;
                },
                None => {
                    i = len;
                },
            }
        } else {
            i += 1;
        }
    }
}

/// Search for a closing sequence of exactly `marker_len` asterisks,
/// starting the search from `from`.
///
/// The closing marker must be exactly `marker_len` asterisks -- not
/// embedded within a longer run.
fn find_closing_asterisks(bytes: &[u8], from: usize, marker_len: usize, claimed: &Vec<bool>) -> (r:
    Option<usize>)
    requires
        claimed@.len() == bytes@.len(),
    ensures
        match r {
            Some(k) => closing_asterisks_from(bytes@, claimed@, from as int, marker_len as int)
                == Some(k as int),
            None => closing_asterisks_from(bytes@, claimed@, from as int, marker_len as int) is None,
        },
{
    let len = bytes.len();
    let mut j = from;

    while j < len
        invariant
            from <= j,
            len == bytes@.len(),
            claimed@.len() == len,
            closing_asterisks_from(bytes@, claimed@, from as int, marker_len as int)
                == closing_asterisks_from(bytes@, claimed@, j as int, marker_len as int),
        decreases len - j,
    {
        if bytes[j] == STAR && !claimed[j] {
            let run_start = j;
            let run_len = count_asterisks(bytes, run_start);
            proof {
                lemma_run_len_bounds(bytes@, j as int, STAR);
            }

            // Check that none of the positions in this run are claimed.
            let mut all_unclaimed_run = true;
            let mut p = run_start;
            while p < run_start + run_len
                invariant
                    run_start <= p <= run_start + run_len <= len,
                    claimed@.len() == len,
                    all_unclaimed_run == all_unclaimed(claimed@, run_start as int, p as int),
                decreases run_start + run_len - p,
            {
                if claimed[p] {
                    all_unclaimed_run = false;
                }
                p += 1;
            }
            if all_unclaimed_run && run_len == marker_len {
                return Some(run_start);
            }
            // A run touching a claimed position, or longer than the marker,
            // is skipped entirely -- we need an exact match to avoid ambiguity.
            j += run_len;
        } else {
            j += 1;
        }
    }

    None
}

/// The largest marker length, from `max_len` down to 1, that closes around
/// non-empty content.
fn match_markers(bytes: &[u8], claimed: &Vec<bool>, open_start: usize, max_len: usize) -> (r:
    Option<(usize, usize)>)
    requires
        claimed@.len() == bytes@.len(),
        open_start <= bytes@.len(),
        max_len <= 3,
    ensures
        match r {
            Some((m, close)) => try_markers(bytes@, claimed@, open_start as int, max_len as int)
                == Some((m as int, close as int)),
            None => try_markers(bytes@, claimed@, open_start as int, max_len as int) is None,
        },
{
    let len = bytes.len();
    let mut marker_len = max_len;
    while marker_len >= 1
        invariant
            marker_len <= max_len <= 3,
            len == bytes@.len(),
            open_start <= len,
            claimed@.len() == len,
            try_markers(bytes@, claimed@, open_start as int, max_len as int) == try_markers(
                bytes@,
                claimed@,
                open_start as int,
                marker_len as int,
            ),
        decreases marker_len,
    {
        if marker_len < len - open_start {
            let content_start = open_start + marker_len;
            // Search for a matching closing marker of the same length.
            if let Some(close_start) = find_closing_asterisks(bytes, content_start, marker_len, claimed) {
                // Content must be non-empty.
                if content_start < close_start {
                    return Some((marker_len, close_start));
                }
            }
        }
        marker_len -= 1;
    }
    None
}

/// Detect asterisk-based patterns: `***bold+italic***`, `**bold**`, `*italic*`.
fn detect_asterisk_patterns(bytes: &[u8], claimed: &mut Vec<bool>, actions: &mut Vec<MarkdownAction>)
    requires
        old(claimed)@.len() == bytes@.len(),
    ensures
        final(claimed)@ == asterisk_pass(
            bytes@,
            0,
            Detection { claimed: old(claimed)@, patterns: models(old(actions)@) },
        ).claimed,
        models(final(actions)@) == asterisk_pass(
            bytes@,
            0,
            Detection { claimed: old(claimed)@, patterns: models(old(actions)@) },
        ).patterns,
{
    let len = bytes.len();
    let ghost b = bytes@;
    let ghost start = Detection { claimed: claimed@, patterns: models(actions@) };
    let mut i: usize = 0;

    while i < len
        invariant
            b == bytes@,
            len == b.len(),
            i <= len,
            claimed@.len() == len,
            asterisk_pass(b, i as int, Detection { claimed: claimed@, patterns: models(actions@) })
                == asterisk_pass(b, 0, start),
        decreases len - i,
    {
        if bytes[i] != STAR || claimed[i] {
            i += 1;
            continue;
        }

        let open_start = i;
        let open_count = count_asterisks(bytes, open_start);
        proof {
            lemma_run_len_bounds(b, i as int, STAR);
            lemma_try_markers_bounds(b, claimed@, i as int, min3(open_count as int));
        }
        let max_len = if open_count < 3 {
            open_count
        } else {
            3
        };

        // Try to match the largest marker first (3, then 2, then 1).
        match match_markers(bytes, claimed, open_start, max_len) {
            Some((marker_len, close_start)) => {
                let content_start = open_start + marker_len;
                let content_end = close_start;
                // Mark the markers and the content as claimed.
                claim_positions(claimed, open_start, close_start + marker_len);
                let mut markers: Vec<Range<usize>> = Vec::new();
                markers.push(open_start..open_start + marker_len);
                markers.push(close_start..close_start + marker_len);
                let content = content_start..content_end;
                let action = if marker_len == 3 {
                    MarkdownAction::BoldItalic { content, markers }
                } else if marker_len == 2 {
                    MarkdownAction::Bold { content, markers }
                } else {
                    MarkdownAction::Italic { content, markers }
                };
                let ghost old_models = models(actions@);
                actions.push(action);
                proof {
                    assert(markers@ =~= seq![
                        range_of(open_start as int, open_start + marker_len),
                        range_of(close_start as int, close_start + marker_len),
                    ]);
                    assert(action@ == emphasis_pattern(
                        marker_len as int,
                        open_start as int,
                        close_start as int,
                    ));
                    assert(models(actions@) =~= old_models.push(
                        emphasis_pattern(marker_len as int, open_start as int, close_start as int),
                    ));
                }
                i = close_start + marker_len;
            },
            None => {
                i += open_count;
            },
        }
    }
}

/// Scan for inline markdown patterns: code spans, bold+italic, bold, italic.
///
/// Priority order: code spans are detected first (backticks cannot contain
/// other formatting), then `***` (bold+italic), then `**` (bold), then `*`
/// (italic).
fn detect_inline_patterns(bytes: &[u8], actions: &mut Vec<MarkdownAction>)
    ensures
        models(final(actions)@) == sort_patterns(
            asterisk_pass(
                bytes@,
                0,
                code_pass(
                    bytes@,
                    0,
                    Detection { claimed: no_claims(bytes@.len()), patterns: models(old(actions)@) },
                ),
            ).patterns,
        ),
{
    let len = bytes.len();

    // Track which byte positions are already claimed by a pattern,
    // so overlapping matches are prevented.
    let mut claimed: Vec<bool> = Vec::new();
    while claimed.len() < len
        invariant
            claimed@.len() <= len,
            forall|p: int| 0 <= p < claimed@.len() ==> !claimed@[p],
        decreases len - claimed@.len(),
    {
        claimed.push(false);
    }
    assert(claimed@ =~= no_claims(bytes@.len()));

    // Pass 1: Code spans (backtick pairs).
    detect_code_spans(bytes, &mut claimed, actions);

    // Pass 2: Asterisk-based formatting (bold+italic, bold, italic).
    detect_asterisk_patterns(bytes, &mut claimed, actions);

    // Sort actions by content start position.
    sort_by_content_start(actions);
}

/// Detect a heading prefix at the start of a line.
///
/// Matches `# `, `## `, ... up to `###### ` (levels 1-6).
/// The `#` characters must be followed by a space.
fn detect_heading(bytes: &[u8]) -> (r: Option<MarkdownAction>)
    ensures
        match r {
            Some(a) => heading_of(bytes@) == Some(a@),
            None => heading_of(bytes@) is None,
        },
{
    let mut level: usize = 0;
    while level < bytes.len() && level < 6 && bytes[level] == HASH
        invariant
            level <= 6,
            level <= bytes@.len(),
            hash_count(bytes@, 0) == hash_count(bytes@, level as int),
        decreases 6 - level,
    {
        level += 1;
    }
    if level == 0 {
        return None;
    }
    // Must be followed by a space.
    if level >= bytes.len() || bytes[level] != SPACE {
        return None;
    }
    Some(MarkdownAction::Heading { level: level as u8, marker: 0..level + 1 })  // includes the trailing space
}

/// Scan a line for completed markdown patterns.
/// Returns all detected actions, ordered by position in the line.
///
/// This checks for heading prefixes first (which consume the whole line
/// context), then scans for inline patterns like bold, italic, and code.
pub fn detect_patterns(line: &str) -> (actions: Vec<MarkdownAction>)
    ensures
        models(actions@) == patterns_of(line.spec_bytes()),
        sorted_by_key(models(actions@)),
{
    let bytes = line.as_bytes();
    let mut actions: Vec<MarkdownAction> = Vec::new();

    // Check for heading prefix: # , ## , ### , etc.
    if let Some(action) = detect_heading(bytes) {
        actions.push(action);
        assert(models(actions@) =~= seq![action@]);
        return actions;  // Heading consumes the whole line context
    }
    // Check for inline patterns

    assert(models(actions@) =~= Seq::<Pattern>::empty());
    detect_inline_patterns(bytes, &mut actions);
    proof {
        lemma_sort_patterns_sorted(
            asterisk_pass(
                bytes@,
                0,
                code_pass(
                    bytes@,
                    0,
                    Detection { claimed: no_claims(bytes@.len()), patterns: Seq::empty() },
                ),
            ).patterns,
        );
    }
    actions
}

/// Delimiters of `m` bytes `ch` right before and right after the non-empty
/// content, as the pattern's markers.
pub open spec fn delimited(b: Seq<u8>, content: Range<usize>, markers: Seq<Range<usize>>, m: int, ch: u8) -> bool {
    &&& m <= content.start < content.end
    &&& content.end + m <= b.len()
    &&& markers == seq![
        range_of(content.start - m, content.start as int),
        range_of(content.end as int, content.end + m),
    ]
    &&& forall|q: int| content.start - m <= q < content.start ==> b[q] == ch
    &&& forall|q: int| content.end <= q < content.end + m ==> b[q] == ch
}

/// An inline pattern of line `b`: code between single backticks, italic
/// between single stars, bold between double and bold italic between
/// triple stars, each around non-empty content.
pub open spec fn inline_pattern_ok(b: Seq<u8>, p: Pattern) -> bool {
    match p {
        Pattern::Code { content, markers } => delimited(b, content, markers, 1, BACKTICK),
        Pattern::Italic { content, markers } => delimited(b, content, markers, 1, STAR),
        Pattern::Bold { content, markers } => delimited(b, content, markers, 2, STAR),
        Pattern::BoldItalic { content, markers } => delimited(b, content, markers, 3, STAR),
        Pattern::Heading { .. } => false,
    }
}

pub open spec fn all_ok(b: Seq<u8>, s: Seq<Pattern>) -> bool {
    forall|k: int| 0 <= k < s.len() ==> inline_pattern_ok(b, #[trigger] s[k])
}

proof fn lemma_code_pass_ok(b: Seq<u8>, i: int, st: Detection)
    requires
        b.len() <= usize::MAX,
        st.claimed.len() == b.len(),
        all_ok(b, st.patterns),
    ensures
        all_ok(b, code_pass(b, i, st).patterns),
        code_pass(b, i, st).claimed.len() == b.len(),
    decreases b.len() - i,
{
    if i < 0 || i >= b.len() {
    } else if b[i] == BACKTICK && !st.claimed[i] {
        lemma_unclaimed_backtick_from_bounds(b, st.claimed, i + 1);
        match unclaimed_backtick_from(b, st.claimed, i + 1) {
            Some(close) => if i + 1 < close {
                let p = Pattern::Code {
                    content: range_of(i + 1, close),
                    markers: seq![range_of(i, i + 1), range_of(close, close + 1)],
                };
                assert(inline_pattern_ok(b, p));
                let next = Detection { claimed: claim(st.claimed, i, close + 1), patterns: st.patterns.push(p) };
                assert forall|k: int| 0 <= k < next.patterns.len() implies inline_pattern_ok(b, #[trigger] next.patterns[k]) by {
                    if k < st.patterns.len() {
                        assert(next.patterns[k] == st.patterns[k]);
                    }
                }
                lemma_code_pass_ok(b, close + 1, next);
            } else {
                lemma_code_pass_ok(b, close + 1, st);
            },
            None => {},
        }
    } else {
        lemma_code_pass_ok(b, i + 1, st);
    }
}

proof fn lemma_asterisk_pass_ok(b: Seq<u8>, i: int, st: Detection)
    requires
        b.len() <= usize::MAX,
        st.claimed.len() == b.len(),
        all_ok(b, st.patterns),
    ensures
        all_ok(b, asterisk_pass(b, i, st).patterns),
    decreases b.len() - i,
{
    if i < 0 || i >= b.len() {
    } else if b[i] != STAR || st.claimed[i] {
        lemma_asterisk_pass_ok(b, i + 1, st);
    } else {
        let n = run_len(b, i, STAR);
        lemma_run_len_bounds(b, i, STAR);
        lemma_try_markers_bounds(b, st.claimed, i, min3(n));
        match try_markers(b, st.claimed, i, min3(n)) {
            Some((m, close)) => {
                lemma_run_len_bounds(b, close, STAR);
                let p = emphasis_pattern(m, i, close);
                assert(inline_pattern_ok(b, p));
                let next = Detection { claimed: claim(st.claimed, i, close + m), patterns: st.patterns.push(p) };
                assert forall|k: int| 0 <= k < next.patterns.len() implies inline_pattern_ok(b, #[trigger] next.patterns[k]) by {
                    if k < st.patterns.len() {
                        assert(next.patterns[k] == st.patterns[k]);
                    }
                }
                lemma_asterisk_pass_ok(b, close + m, next);
            },
            None => {
                lemma_asterisk_pass_ok(b, i + n, st);
            },
        }
    }
}

/// Sorting keeps every pattern: each one of the result is one of the input.
proof fn lemma_sort_patterns_from(s: Seq<Pattern>)
    ensures
        forall|k: int| 0 <= k < sort_patterns(s).len() ==> exists|j: int| 0 <= j < s.len() && #[trigger] sort_patterns(s)[k] == s[j],
    decreases s.len(),
{
    lemma_sort_patterns_sorted(s);
    if s.len() > 0 {
        let t = s.drop_first();
        let rest = sort_patterns(t);
        lemma_sort_patterns_from(t);
        lemma_sort_patterns_sorted(t);
        let idx = insertion_index(rest, pattern_key(s[0]), 0);
        lemma_insertion_index(rest, pattern_key(s[0]), 0);
        let r = rest.insert(idx, s[0]);
        assert forall|k: int| 0 <= k < r.len() implies exists|j: int| 0 <= j < s.len() && #[trigger] r[k] == s[j] by {
            if k == idx {
                assert(r[k] == s[0]);
            } else {
                let kk = if k < idx { k } else { k - 1 };
                assert(r[k] == rest[kk]);
                let j = choose|j: int| 0 <= j < t.len() && rest[kk] == t[j];
                assert(t[j] == s[j + 1]);
            }
        }
    }
}

/// The patterns detected in a line: the heading alone when the line starts
/// with one to six hashes and a space; otherwise, ordered by where their
/// content starts, code spans between single backticks, italic between
/// single stars, bold between double and bold italic between triple stars,
/// each around non-empty content with its markers right before and after
/// it.
pub proof fn lemma_detect_patterns_shape(b: Seq<u8>)
    requires
        b.len() <= usize::MAX,
    ensures
        sorted_by_key(patterns_of(b)),
        heading_of(b) matches Some(Pattern::Heading { level, marker }) ==> 1 <= level <= 6 && patterns_of(b)
            == seq![Pattern::Heading { level, marker }] && marker == range_of(0, level + 1) && level < b.len()
            && b[level as int] == SPACE && (forall|q: int| 0 <= q < level ==> b[q] == HASH),
        heading_of(b) is None ==> all_ok(b, patterns_of(b)),
{
    lemma_hash_count_bounds(b, 0);
    lemma_hash_count_all(b, 0);
    if heading_of(b) is None {
        let st0 = Detection { claimed: no_claims(b.len()), patterns: Seq::empty() };
        lemma_code_pass_ok(b, 0, st0);
        let codes = code_pass(b, 0, st0);
        lemma_asterisk_pass_ok(b, 0, codes);
        let all = asterisk_pass(b, 0, codes).patterns;
        lemma_sort_patterns_from(all);
        lemma_sort_patterns_sorted(all);
        let r = sort_patterns(all);
        assert forall|k: int| 0 <= k < r.len() implies inline_pattern_ok(b, #[trigger] r[k]) by {
            let j = choose|j: int| 0 <= j < all.len() && r[k] == all[j];
        }
    } else {
        assert(sorted_by_key(patterns_of(b)));
    }
}

/// Line `b` starts with `k` hashes and a space.
pub open spec fn heading_prefix(b: Seq<u8>, k: int) -> bool {
    &&& k < b.len()
    &&& b[k] == SPACE
    &&& forall|i: int| 0 <= i < k ==> b[i] == HASH
}

/// A line that starts with one to six hashes and a space is detected as
/// that heading alone, its marker the hashes and the space; any other line
/// gives only inline patterns, none of them a heading.
pub proof fn lemma_detect_patterns_heading(b: Seq<u8>)
    requires
        b.len() <= usize::MAX,
    ensures
        forall|k: int|
            1 <= k <= 6 && #[trigger] heading_prefix(b, k) ==> patterns_of(b) == seq![
                Pattern::Heading { level: k as u8, marker: range_of(0, k + 1) },
            ],
        (forall|k: int| 1 <= k <= 6 ==> !#[trigger] heading_prefix(b, k)) ==> all_ok(b, patterns_of(b)),
{
    lemma_detect_patterns_shape(b);
    lemma_hash_count_bounds(b, 0);
    assert forall|k: int| 1 <= k <= 6 && #[trigger] heading_prefix(b, k) implies patterns_of(b) == seq![
        Pattern::Heading { level: k as u8, marker: range_of(0, k + 1) },
    ] by {
        lemma_hash_count_at_least(b, 0, k);
    }
    if heading_of(b) is Some {
        let level = hash_count(b, 0);
        lemma_hash_count_all(b, 0);
        assert(heading_prefix(b, level));
    }
}

/// The marker list of an inline pattern (none for a heading).
pub open spec fn markers_of(p: Pattern) -> Seq<Range<usize>> {
    match p {
        Pattern::Code { markers, .. } => markers,
        Pattern::Italic { markers, .. } => markers,
        Pattern::Bold { markers, .. } => markers,
        Pattern::BoldItalic { markers, .. } => markers,
        Pattern::Heading { .. } => Seq::empty(),
    }
}

/// Byte `q` is part of a marker of `p`.
pub open spec fn in_marker(p: Pattern, q: int) -> bool {
    exists|j: int| 0 <= j < markers_of(p).len() && markers_of(p)[j].start <= q < #[trigger] markers_of(p)[j].end
}

/// The bytes a pattern spans, its markers included.
pub open spec fn full_start(p: Pattern) -> int {
    markers_of(p)[0].start as int
}

pub open spec fn full_end(p: Pattern) -> int {
    markers_of(p)[1].end as int
}

/// What the detection passes keep: every pattern is well formed, its bytes
/// are claimed, every claimed byte lies in some pattern, a code span starts
/// at a backtick, emphasis lies before `pos`, and no byte belongs to the
/// markers of two patterns.
pub open spec fn detection_inv(b: Seq<u8>, pos: int, st: Detection) -> bool {
    &&& st.claimed.len() == b.len()
    &&& all_ok(b, st.patterns)
    &&& forall|k: int, q: int|
        0 <= k < st.patterns.len() && full_start(#[trigger] st.patterns[k]) <= q < full_end(st.patterns[k])
            ==> #[trigger] st.claimed[q]
    &&& forall|q: int|
        0 <= q < b.len() && #[trigger] st.claimed[q] ==> exists|k: int|
            0 <= k < st.patterns.len() && full_start(#[trigger] st.patterns[k]) <= q < full_end(st.patterns[k])
    &&& forall|k: int|
        0 <= k < st.patterns.len() ==> ((#[trigger] st.patterns[k]) is Code ==> b[full_start(st.patterns[k])]
            == BACKTICK) && (!(st.patterns[k] is Code) ==> full_end(st.patterns[k]) <= pos)
    &&& forall|k1: int, k2: int, q: int|
        0 <= k1 < st.patterns.len() && 0 <= k2 < st.patterns.len() && k1 != k2 ==> !(#[trigger] in_marker(
            st.patterns[k1],
            q,
        ) && #[trigger] in_marker(st.patterns[k2], q))
}

proof fn lemma_delimited_shape(b: Seq<u8>, content: Range<usize>, markers: Seq<Range<usize>>, m: int, ch: u8)
    requires
        b.len() <= usize::MAX,
        delimited(b, content, markers, m, ch),
        1 <= m,
    ensures
        markers.len() == 2,
        markers[0].start == content.start - m,
        markers[0].end == content.start,
        markers[1].start == content.end,
        markers[1].end == content.end + m,
{
}

proof fn lemma_ok_shape(b: Seq<u8>, p: Pattern)
    requires
        b.len() <= usize::MAX,
        inline_pattern_ok(b, p),
    ensures
        markers_of(p).len() == 2,
        0 <= full_start(p) < full_end(p) <= b.len(),
        markers_of(p)[0].end <= markers_of(p)[1].start,
        forall|q: int| in_marker(p, q) ==> full_start(p) <= q < full_end(p),
{
    match p {
        Pattern::Code { content, markers } => lemma_delimited_shape(b, content, markers, 1, BACKTICK),
        Pattern::Italic { content, markers } => lemma_delimited_shape(b, content, markers, 1, STAR),
        Pattern::Bold { content, markers } => lemma_delimited_shape(b, content, markers, 2, STAR),
        Pattern::BoldItalic { content, markers } => lemma_delimited_shape(b, content, markers, 3, STAR),
        Pattern::Heading { .. } => {},
    }
    assert forall|q: int| in_marker(p, q) implies full_start(p) <= q < full_end(p) by {
        let j = choose|j: int| 0 <= j < markers_of(p).len() && markers_of(p)[j].start <= q < #[trigger] markers_of(p)[j].end;
    }
}

/// Adding pattern `p` whose bytes were all unclaimed, and claiming them.
proof fn lemma_add_pattern(b: Seq<u8>, pos: int, st: Detection, p: Pattern, newpos: int)
    requires
        b.len() <= usize::MAX,
        detection_inv(b, pos, st),
        inline_pattern_ok(b, p),
        forall|q: int| full_start(p) <= q < full_end(p) && in_marker(p, q) ==> !st.claimed[q],
        p is Code ==> b[full_start(p)] == BACKTICK,
        !(p is Code) ==> full_end(p) <= newpos,
        pos <= newpos,
    ensures
        detection_inv(
            b,
            newpos,
            Detection { claimed: claim(st.claimed, full_start(p), full_end(p)), patterns: st.patterns.push(p) },
        ),
{
    let next = Detection { claimed: claim(st.claimed, full_start(p), full_end(p)), patterns: st.patterns.push(p) };
    let n = st.patterns.len() as int;
    lemma_ok_shape(b, p);
    assert forall|k: int| 0 <= k < next.patterns.len() implies inline_pattern_ok(b, #[trigger] next.patterns[k]) by {
        if k < n {
            assert(next.patterns[k] == st.patterns[k]);
        }
    }
    assert forall|k: int, q: int|
        0 <= k < next.patterns.len() && full_start(#[trigger] next.patterns[k]) <= q < full_end(next.patterns[k])
            implies #[trigger] next.claimed[q] by {
        if k < n {
            assert(next.patterns[k] == st.patterns[k]);
            assert(st.claimed[q]);
        }
    }
    assert forall|q: int| 0 <= q < b.len() && #[trigger] next.claimed[q] implies exists|k: int|
        0 <= k < next.patterns.len() && full_start(#[trigger] next.patterns[k]) <= q < full_end(next.patterns[k]) by {
        if st.claimed[q] {
            let k = choose|k: int| 0 <= k < st.patterns.len() && full_start(#[trigger] st.patterns[k]) <= q < full_end(st.patterns[k]);
            assert(next.patterns[k] == st.patterns[k]);
        } else {
            assert(next.patterns[n] == p);
        }
    }
    assert forall|k: int| 0 <= k < next.patterns.len() implies ((#[trigger] next.patterns[k]) is Code
        ==> b[full_start(next.patterns[k])] == BACKTICK) && (!(next.patterns[k] is Code) ==> full_end(
        next.patterns[k],
    ) <= newpos) by {
        if k < n {
            assert(next.patterns[k] == st.patterns[k]);
        }
    }
    assert forall|k1: int, k2: int, q: int|
        0 <= k1 < next.patterns.len() && 0 <= k2 < next.patterns.len() && k1 != k2 implies !(#[trigger] in_marker(
        next.patterns[k1],
        q,
    ) && #[trigger] in_marker(next.patterns[k2], q)) by {
        if k1 < n && k2 < n {
            assert(next.patterns[k1] == st.patterns[k1] && next.patterns[k2] == st.patterns[k2]);
        } else if k1 == n {
            assert(next.patterns[k2] == st.patterns[k2]);
            if in_marker(p, q) && in_marker(st.patterns[k2], q) {
                lemma_ok_shape(b, st.patterns[k2]);
                assert(st.claimed[q]);
            }
        } else {
            assert(next.patterns[k1] == st.patterns[k1]);
            if in_marker(p, q) && in_marker(st.patterns[k1], q) {
                lemma_ok_shape(b, st.patterns[k1]);
                assert(st.claimed[q]);
            }
        }
    }
}

proof fn lemma_code_pass_inv(b: Seq<u8>, i: int, st: Detection)
    requires
        b.len() <= usize::MAX,
        detection_inv(b, 0, st),
        forall|k: int| 0 <= k < st.patterns.len() ==> (#[trigger] st.patterns[k]) is Code,
    ensures
        detection_inv(b, 0, code_pass(b, i, st)),
        forall|k: int| 0 <= k < code_pass(b, i, st).patterns.len() ==> (#[trigger] code_pass(b, i, st).patterns[k]) is Code,
    decreases b.len() - i,
{
    if i < 0 || i >= b.len() {
    } else if b[i] == BACKTICK && !st.claimed[i] {
        lemma_unclaimed_backtick_from_bounds(b, st.claimed, i + 1);
        match unclaimed_backtick_from(b, st.claimed, i + 1) {
            Some(close) => if i + 1 < close {
                let p = Pattern::Code {
                    content: range_of(i + 1, close),
                    markers: seq![range_of(i, i + 1), range_of(close, close + 1)],
                };
                assert(inline_pattern_ok(b, p));
                assert forall|q: int| full_start(p) <= q < full_end(p) && in_marker(p, q) implies !st.claimed[q] by {
                    let j = choose|j: int| 0 <= j < markers_of(p).len() && markers_of(p)[j].start <= q < #[trigger] markers_of(p)[j].end;
                }
                lemma_add_pattern(b, 0, st, p, 0);
                let next = Detection { claimed: claim(st.claimed, full_start(p), full_end(p)), patterns: st.patterns.push(p) };
                assert(claim(st.claimed, i, close + 1) == next.claimed);
                assert forall|k: int| 0 <= k < next.patterns.len() implies (#[trigger] next.patterns[k]) is Code by {
                    if k < st.patterns.len() {
                        assert(next.patterns[k] == st.patterns[k]);
                    }
                }
                lemma_code_pass_inv(b, close + 1, next);
            } else {
                lemma_code_pass_inv(b, close + 1, st);
            },
            None => {},
        }
    } else {
        lemma_code_pass_inv(b, i + 1, st);
    }
}

proof fn lemma_asterisk_pass_inv(b: Seq<u8>, i: int, st: Detection)
    requires
        b.len() <= usize::MAX,
        0 <= i,
        detection_inv(b, i, st),
    ensures
        detection_inv(b, b.len() as int, asterisk_pass(b, i, st)),
    decreases b.len() - i,
{
    if i < 0 || i >= b.len() {
        assert forall|k: int| 0 <= k < st.patterns.len() implies ((#[trigger] st.patterns[k]) is Code
            ==> b[full_start(st.patterns[k])] == BACKTICK) && (!(st.patterns[k] is Code) ==> full_end(
            st.patterns[k],
        ) <= b.len()) by {
            lemma_ok_shape(b, st.patterns[k]);
        }
    } else if b[i] != STAR || st.claimed[i] {
        lemma_asterisk_pass_inv(b, i + 1, st);
    } else {
        let n = run_len(b, i, STAR);
        lemma_run_len_bounds(b, i, STAR);
        lemma_try_markers_bounds(b, st.claimed, i, min3(n));
        match try_markers(b, st.claimed, i, min3(n)) {
            Some((m, close)) => {
                lemma_run_len_bounds(b, close, STAR);
                let p = emphasis_pattern(m, i, close);
                assert(inline_pattern_ok(b, p));
                lemma_ok_shape(b, p);
                assert forall|q: int| full_start(p) <= q < full_end(p) && in_marker(p, q) implies !st.claimed[q] by {
                    let j = choose|j: int| 0 <= j < markers_of(p).len() && markers_of(p)[j].start <= q < #[trigger] markers_of(p)[j].end;
                    if j == 0 && q > i && st.claimed[q] {
                        let k = choose|k: int| 0 <= k < st.patterns.len() && full_start(#[trigger] st.patterns[k]) <= q < full_end(st.patterns[k]);
                        let pk = st.patterns[k];
                        lemma_ok_shape(b, pk);
                        if full_start(pk) <= i {
                            assert(st.claimed[i]);
                        } else {
                            assert(b[full_start(pk)] == STAR);
                        }
                    }
                }
                lemma_add_pattern(b, i, st, p, close + m);
                lemma_asterisk_pass_inv(
                    b,
                    close + m,
                    Detection { claimed: claim(st.claimed, i, close + m), patterns: st.patterns.push(p) },
                );
            },
            None => {
                assert forall|k: int| 0 <= k < st.patterns.len() implies ((#[trigger] st.patterns[k]) is Code
                    ==> b[full_start(st.patterns[k])] == BACKTICK) && (!(st.patterns[k] is Code) ==> full_end(
                    st.patterns[k],
                ) <= i + n) by {}
                lemma_asterisk_pass_inv(b, i + n, st);
            },
        }
    }
}

/// The first byte of an inline pattern's opening marker is part of it.
proof fn lemma_first_marker_held(b: Seq<u8>, p: Pattern)
    requires
        inline_pattern_ok(b, p),
    ensures
        in_marker(p, markers_of(p)[0].start as int),
{
    let m = markers_of(p);
    let (content, w) = match p {
        Pattern::Code { content, .. } => (content, 1int),
        Pattern::Italic { content, .. } => (content, 1int),
        Pattern::Bold { content, .. } => (content, 2int),
        Pattern::BoldItalic { content, .. } => (content, 3int),
        Pattern::Heading { .. } => (range_of(0, 0), 0int),
    };
    assert(m[0] == range_of(content.start - w, content.start as int));
    assert(m[0].start <= m[0].start < m[0].end);
}

/// Sorting keeps patterns apart: when no two of the input are equal, no
/// two of the result are.
proof fn lemma_sort_patterns_distinct(s: Seq<Pattern>)
    requires
        forall|i: int, j: int| 0 <= i < j < s.len() ==> s[i] != s[j],
    ensures
        forall|i: int, j: int|
            0 <= i < j < sort_patterns(s).len() ==> sort_patterns(s)[i] != sort_patterns(s)[j],
    decreases s.len(),
{
    if s.len() > 0 {
        let t = s.drop_first();
        assert forall|i: int, j: int| 0 <= i < j < t.len() implies t[i] != t[j] by {
            assert(t[i] == s[i + 1] && t[j] == s[j + 1]);
        }
        lemma_sort_patterns_distinct(t);
        lemma_sort_patterns_from(t);
        lemma_sort_patterns_sorted(t);
        let rest = sort_patterns(t);
        let idx = insertion_index(rest, pattern_key(s[0]), 0);
        lemma_insertion_index(rest, pattern_key(s[0]), 0);
        let r = rest.insert(idx, s[0]);
        assert(sort_patterns(s) == r);
        assert forall|k: int| 0 <= k < rest.len() implies rest[k] != s[0] by {
            let j = choose|j: int| 0 <= j < t.len() && rest[k] == t[j];
            assert(t[j] == s[j + 1]);
        }
        assert forall|i: int, j: int| 0 <= i < j < r.len() implies r[i] != r[j] by {
            if i == idx {
                assert(r[j] == rest[j - 1]);
            } else if j == idx {
                assert(r[i] == rest[i]);
            } else {
                let ii = if i < idx { i } else { i - 1 };
                let jj = if j < idx { j } else { j - 1 };
                assert(r[i] == rest[ii] && r[j] == rest[jj]);
            }
        }
    }
}

/// No byte of a line belongs to the markers of two different detected
/// patterns: two patterns whose markers share a byte are one and the same
/// entry of the list.
pub proof fn lemma_detect_patterns_disjoint(b: Seq<u8>)
    requires
        b.len() <= usize::MAX,
    ensures
        forall|k1: int, k2: int, q: int|
            0 <= k1 < patterns_of(b).len() && 0 <= k2 < patterns_of(b).len() && #[trigger] in_marker(
                patterns_of(b)[k1],
                q,
            ) && #[trigger] in_marker(patterns_of(b)[k2], q) ==> k1 == k2,
{
    if heading_of(b) is None {
        let st0 = Detection { claimed: no_claims(b.len()), patterns: Seq::empty() };
        assert(detection_inv(b, 0, st0));
        lemma_code_pass_inv(b, 0, st0);
        let codes = code_pass(b, 0, st0);
        lemma_asterisk_pass_inv(b, 0, codes);
        let all = asterisk_pass(b, 0, codes).patterns;
        assert forall|j1: int, j2: int| 0 <= j1 < j2 < all.len() implies all[j1] != all[j2] by {
            if all[j1] == all[j2] {
                let p = all[j1];
                assert(inline_pattern_ok(b, all[j1]));
                let q = markers_of(p)[0].start as int;
                lemma_first_marker_held(b, p);
                assert(!(in_marker(all[j1], q) && in_marker(all[j2], q)));
            }
        }
        lemma_sort_patterns_from(all);
        lemma_sort_patterns_distinct(all);
        let r = sort_patterns(all);
        assert forall|k1: int, k2: int, q: int|
            0 <= k1 < r.len() && 0 <= k2 < r.len() && #[trigger] in_marker(r[k1], q) && #[trigger] in_marker(r[k2], q)
                implies k1 == k2 by {
            let j1 = choose|j: int| 0 <= j < all.len() && r[k1] == all[j];
            let j2 = choose|j: int| 0 <= j < all.len() && r[k2] == all[j];
            if j1 != j2 {
                assert(!(in_marker(all[j1], q) && in_marker(all[j2], q)));
            } else if k1 < k2 {
                assert(r[k1] != r[k2]);
            } else if k2 < k1 {
                assert(r[k2] != r[k1]);
            }
        }
    }
}

} // verus!

