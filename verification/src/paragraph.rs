//! Paragraph-level list styling read by list rendering and editing.

use vstd::prelude::*;

verus! {

/// Bullet glyph of an unordered list.
#[derive(Debug, Clone, Copy, PartialEq, Eq)]
pub enum Bullet {
    Disc,
    Circle,
    Square,
    Custom(char),
}

/// Numbering scheme of an ordered list.
#[derive(Debug, Clone, Copy, PartialEq, Eq)]
pub enum Number {
    Arabic,
    LowerAlpha,
    UpperAlpha,
    LowerRoman,
    UpperRoman,
}

/// The list a paragraph belongs to.
#[derive(Debug, Clone, Copy, PartialEq, Eq)]
pub enum List {
    Bullet(Bullet),
    Ordered(Number),
}

/// List membership and nesting level of a paragraph.
#[derive(Debug, Clone, Copy, PartialEq, Eq, Default)]
pub struct Style {
    pub list: Option<List>,
    pub level: u8,
}

} // verus!

verus! {

/// The deepest nesting level Tab reaches.
pub const MAX_LEVEL: u8 = 8;

pub open spec fn same_kind(a: Option<List>, b: Option<List>) -> bool {
    ||| (a matches Some(List::Bullet(_)) && b matches Some(List::Bullet(_)))
    ||| (a matches Some(List::Ordered(_)) && b matches Some(List::Ordered(_)))
}

/// The level below `level`, stopping at zero.
pub open spec fn level_below(level: u8) -> u8 {
    if level == 0 {
        0
    } else {
        (level - 1) as u8
    }
}

/// `new` is `list` with the marker re-chosen for `level`: a bullet from
/// `bullet_for_level`, a numbering from `number_for_level`, both given the
/// level below.
pub open spec fn remarked(
    list: Option<List>,
    new: Option<List>,
    level: u8,
    bullet_for_level: impl Fn(u8) -> Bullet,
    number_for_level: impl Fn(u8) -> Number,
) -> bool {
    match list {
        Some(List::Bullet(_)) => exists|b: Bullet|
            call_ensures(bullet_for_level, (level_below(level),), b) && new == Some(List::Bullet(b)),
        Some(List::Ordered(_)) => exists|n: Number|
            call_ensures(number_for_level, (level_below(level),), n) && new == Some(List::Ordered(n)),
        None => new is None,
    }
}

/// Choose a list for a paragraph: choosing the kind it already has takes it
/// out of the list; otherwise it joins `list`, at level one if it was at
/// level zero.
pub fn set_list(style: &mut Style, list: Option<List>)
    ensures
        same_kind(old(style).list, list) ==> *final(style) == (Style { list: None, level: 0 }),
        !same_kind(old(style).list, list) ==> *final(style) == (Style {
            list,
            level: if old(style).level == 0 { 1 } else { old(style).level },
        }),
{
    let same = match (&style.list, &list) {
        (Some(List::Bullet(_)), Some(List::Bullet(_))) => true,
        (Some(List::Ordered(_)), Some(List::Ordered(_))) => true,
        _ => false,
    };
    if same {
        // Toggle off -- same list kind already set.
        style.list = None;
        style.level = 0;
    } else {
        style.list = list;
        // Entering a list puts text at level 1 (bullet occupies level-0 margin).
        if style.level == 0 {
            style.level = 1;
        }
    }
}

fn remark(
    list: &mut Option<List>,
    level: u8,
    bullet_for_level: &impl Fn(u8) -> Bullet,
    number_for_level: &impl Fn(u8) -> Number,
)
    requires
        forall|l: u8| #[trigger] call_requires(*bullet_for_level, (l,)),
        forall|l: u8| #[trigger] call_requires(*number_for_level, (l,)),
    ensures
        remarked(*old(list), *final(list), level, *bullet_for_level, *number_for_level),
{
    let below = if level == 0 { 0 } else { level - 1 };
    match list {
        Some(List::Bullet(_)) => {
            let b = bullet_for_level(below);
            *list = Some(List::Bullet(b));
        },
        Some(List::Ordered(_)) => {
            let n = number_for_level(below);
            *list = Some(List::Ordered(n));
        },
        None => {},
    }
}

/// Tab: one level deeper, up to [`MAX_LEVEL`]; a list item's marker is
/// chosen anew for its level.
pub fn indent_list(
    style: &mut Style,
    bullet_for_level: impl Fn(u8) -> Bullet,
    number_for_level: impl Fn(u8) -> Number,
)
    requires
        forall|l: u8| #[trigger] call_requires(bullet_for_level, (l,)),
        forall|l: u8| #[trigger] call_requires(number_for_level, (l,)),
    ensures
        old(style).level < MAX_LEVEL ==> final(style).level == old(style).level + 1 && remarked(
            old(style).list,
            final(style).list,
            final(style).level,
            bullet_for_level,
            number_for_level,
        ),
        old(style).level >= MAX_LEVEL ==> *final(style) == *old(style),
{
    if style.list.is_some() {
        // Inside a list: Tab demotes (increases nesting depth).
        if style.level < MAX_LEVEL {
            style.level += 1;
            remark(&mut style.list, style.level, &bullet_for_level, &number_for_level);
        }
    } else {
        // No list: Tab just indents.
        if style.level < MAX_LEVEL {
            style.level += 1;
        }
    }
}

/// Shift+Tab: one level shallower; a list item at the base level leaves the
/// list, and a deeper one has its marker chosen anew for its level.
pub fn dedent_list(
    style: &mut Style,
    bullet_for_level: impl Fn(u8) -> Bullet,
    number_for_level: impl Fn(u8) -> Number,
)
    requires
        forall|l: u8| #[trigger] call_requires(bullet_for_level, (l,)),
        forall|l: u8| #[trigger] call_requires(number_for_level, (l,)),
    ensures
        old(style).list is Some && old(style).level > 1 ==> final(style).level == old(style).level - 1
            && remarked(old(style).list, final(style).list, final(style).level, bullet_for_level, number_for_level),
        old(style).list is Some && old(style).level <= 1 ==> *final(style) == (Style { list: None, level: 0 }),
        old(style).list is None ==> final(style).list is None && final(style).level == level_below(old(style).level),
{
    if style.list.is_some() {
        // Inside a list: Shift+Tab promotes (decreases nesting).
        // Level 1 is the base list level -- going below removes the list.
        if style.level > 1 {
            style.level -= 1;
            remark(&mut style.list, style.level, &bullet_for_level, &number_for_level);
        } else {
            // At base list level -- remove the list entirely.
            style.list = None;
            style.level = 0;
        }
    } else if style.level > 0 {
        // No list: Shift+Tab just dedents.
        style.level -= 1;
    }
}

/// Backspace at the start of a line: a nested list item moves up a level,
/// a base list item leaves the list, and indented text is dedented; `None`
/// when the paragraph is neither in a list nor indented, and the backspace
/// edits the text instead.
pub fn backspace_list_style(
    style: &Style,
    bullet_for_level: impl Fn(u8) -> Bullet,
    number_for_level: impl Fn(u8) -> Number,
) -> (r: Option<Style>)
    requires
        forall|l: u8| #[trigger] call_requires(bullet_for_level, (l,)),
        forall|l: u8| #[trigger] call_requires(number_for_level, (l,)),
    ensures
        style.list is None && style.level == 0 ==> r is None,
        style.list is Some && style.level > 1 ==> (r matches Some(s) && s.level == style.level - 1
            && remarked(style.list, s.list, s.level, bullet_for_level, number_for_level)),
        style.list is Some && style.level <= 1 ==> r == Some(Style { list: None, level: 0 }),
        style.list is None && style.level > 0 ==> r == Some(Style { list: None, level: (style.level - 1) as u8 }),
{
    if style.list.is_some() || style.level > 0 {
        let mut new = *style;
        if new.list.is_some() {
            if new.level > 1 {
                // Nested list -- promote one level.
                new.level -= 1;
                remark(&mut new.list, new.level, &bullet_for_level, &number_for_level);
            } else {
                // Base list level -- remove list entirely.
                new.list = None;
                new.level = 0;
            }
        } else {
            // Plain indented text -- dedent.
            new.level -= 1;
        }
        Some(new)
    } else {
        None
    }
}

/// Tab followed by Shift+Tab gives back the nesting level and whether the
/// paragraph is a bullet item, a numbered item or neither, for a paragraph
/// that can go one level deeper, and that is not a list item at level zero.
/// `t` is what [`indent_list`] makes of `s`, and `u` what [`dedent_list`]
/// makes of `t`, as their contracts state.
pub proof fn lemma_indent_then_dedent<F: Fn(u8) -> Bullet, G: Fn(u8) -> Number>(
    s: Style,
    t: Style,
    u: Style,
    bullet_for_level: F,
    number_for_level: G,
)
    requires
        s.level < MAX_LEVEL,
        s.list is Some ==> s.level >= 1,
        t.level == s.level + 1,
        remarked(s.list, t.list, t.level, bullet_for_level, number_for_level),
        t.list is Some && t.level > 1 ==> u.level == t.level - 1
            && remarked(t.list, u.list, u.level, bullet_for_level, number_for_level),
        t.list is Some && t.level <= 1 ==> u == (Style { list: None, level: 0 }),
        t.list is None ==> u.list is None && u.level == level_below(t.level),
    ensures
        u.level == s.level,
        same_kind(s.list, u.list) || (s.list is None && u.list is None),
{
}

} // verus!

verus! {

/// `n` copies of `p`.
pub open spec fn copies<P>(p: P, n: int) -> Seq<P> {
    Seq::new(n as nat, |i: int| p)
}

/// The paragraphs after lines `start_line + 1` to `end_line` were merged
/// into line `start_line` by deleting a range: their paragraphs go, as far
/// as there are any.
pub open spec fn after_range_delete<P>(paras: Seq<P>, start_line: usize, end_line: usize) -> Seq<P> {
    let from = if start_line + 1 < paras.len() { start_line + 1 } else { paras.len() as int };
    let to = if end_line + 1 < paras.len() { end_line + 1 } else { paras.len() as int };
    if start_line < end_line && from < to {
        paras.subrange(0, from) + paras.subrange(to, paras.len() as int)
    } else {
        paras
    }
}

/// The paragraphs after `line_count` lines of text were inserted at line
/// `start_line`: each line past the first gets a paragraph `fill`, after
/// that of `start_line` (at the end when there is none).
pub open spec fn after_range_insert<P>(paras: Seq<P>, start_line: usize, line_count: usize, fill: P) -> Seq<P> {
    let at = if start_line + 1 < paras.len() { start_line + 1 } else { paras.len() as int };
    if line_count > 1 {
        paras.subrange(0, at) + copies(fill, line_count - 1) + paras.subrange(at, paras.len() as int)
    } else {
        paras
    }
}

/// The paragraphs after line `line + 1` was merged into line `line`: its
/// paragraph goes, if it has one.
pub open spec fn after_merge<P>(paras: Seq<P>, line: usize) -> Seq<P> {
    if line + 1 < paras.len() {
        paras.remove(line + 1)
    } else {
        paras
    }
}

/// The paragraphs after line `line` was split in two: the new line gets
/// `new_para` right after it, the list first filled with `fill` up to
/// `line` when it is shorter.
pub open spec fn after_split<P>(paras: Seq<P>, line: usize, new_para: P, fill: P) -> Seq<P> {
    let grown = if line + 1 > paras.len() {
        paras + copies(fill, line + 1 - paras.len())
    } else {
        paras
    };
    grown.insert(line + 1, new_para)
}

/// Delete-range bookkeeping of the per-line paragraphs: see
/// [`after_range_delete`].
pub fn remove_merged_paragraphs<P>(paras: &mut Vec<P>, start_line: usize, end_line: usize)
    requires
        end_line < usize::MAX,
    ensures
        final(paras)@ == after_range_delete(old(paras)@, start_line, end_line),
{
    if start_line < end_line {
        let len = paras.len();
        let from = if start_line + 1 < len { start_line + 1 } else { len };
        let to = if end_line + 1 < len { end_line + 1 } else { len };
        if from < to {
            let ghost orig = paras@;
            let mut k: usize = 0;
            while k < to - from
                invariant
                    from < to <= orig.len(),
                    k <= to - from,
                    paras@ == orig.subrange(0, from as int) + orig.subrange(from + k, orig.len() as int),
                decreases to - from - k,
            {
                paras.remove(from);
                k += 1;
                proof {
                    assert(paras@ =~= orig.subrange(0, from as int) + orig.subrange(from + k, orig.len() as int));
                }
            }
        }
    }
}

/// Paste bookkeeping of the per-line paragraphs: see
/// [`after_range_insert`].
pub fn insert_pasted_paragraphs<P: Copy>(paras: &mut Vec<P>, start_line: usize, line_count: usize, fill: P)
    requires
        line_count > 1 ==> start_line < usize::MAX,
    ensures
        final(paras)@ == after_range_insert(old(paras)@, start_line, line_count, fill),
{
    if line_count > 1 {
        let len = paras.len();
        let at = if start_line + 1 < len { start_line + 1 } else { len };
        let ghost orig = paras@;
        let mut k: usize = 0;
        while k < line_count - 1
            invariant
                at <= orig.len(),
                k <= line_count - 1,
                paras@ == orig.subrange(0, at as int) + copies(fill, k as int) + orig.subrange(at as int, orig.len() as int),
            decreases line_count - 1 - k,
        {
            paras.insert(at, fill);
            k += 1;
            proof {
                assert(paras@ =~= orig.subrange(0, at as int) + copies(fill, k as int) + orig.subrange(
                    at as int,
                    orig.len() as int,
                ));
            }
        }
    }
}

/// Merge bookkeeping of the per-line paragraphs: see [`after_merge`].
pub fn merge_paragraphs<P>(paras: &mut Vec<P>, line: usize)
    requires
        line < usize::MAX,
    ensures
        final(paras)@ == after_merge(old(paras)@, line),
{
    if line + 1 < paras.len() {
        paras.remove(line + 1);
    }
}

/// Split bookkeeping of the per-line paragraphs: see [`after_split`].
pub fn split_paragraph<P: Copy>(paras: &mut Vec<P>, line: usize, new_para: P, fill: P)
    requires
        line < usize::MAX,
    ensures
        final(paras)@ == after_split(old(paras)@, line, new_para, fill),
{
    let ghost orig = paras@;
    if line + 1 > paras.len() {
        while paras.len() < line + 1
            invariant
                line < usize::MAX,
                orig.len() <= paras@.len() <= line + 1,
                paras@ == orig + copies(fill, paras@.len() - orig.len()),
            decreases line + 1 - paras@.len(),
        {
            paras.push(fill);
            proof {
                assert(paras@ =~= orig + copies(fill, paras@.len() - orig.len()));
            }
        }
    }
    paras.insert(line + 1, new_para);
}

/// The paragraphs after line `line` was given paragraph `p`: the list is
/// first filled with `fill` up to `line` when it is shorter.
pub open spec fn after_set<P>(paras: Seq<P>, line: usize, p: P, fill: P) -> Seq<P> {
    let grown = if line >= paras.len() {
        paras + copies(fill, line + 1 - paras.len())
    } else {
        paras
    };
    grown.update(line as int, p)
}

/// Give line `line` the paragraph `p`: see [`after_set`].
pub fn set_paragraph<P: Copy>(paras: &mut Vec<P>, line: usize, p: P, fill: P)
    requires
        line < usize::MAX,
    ensures
        final(paras)@ == after_set(old(paras)@, line, p, fill),
{
    let ghost orig = paras@;
    while paras.len() <= line
        invariant
            line < usize::MAX,
            orig.len() <= paras@.len(),
            paras@.len() <= line + 1 || paras@.len() == orig.len(),
            paras@ == orig + copies(fill, paras@.len() - orig.len()),
        decreases line + 1 - paras@.len(),
    {
        paras.push(fill);
        proof {
            assert(paras@ =~= orig + copies(fill, paras@.len() - orig.len()));
        }
    }
    proof {
        if line >= orig.len() {
            assert(paras@.len() == line + 1);
        } else {
            assert(paras@ =~= orig);
        }
    }
    paras.set(line, p);
}

/// The per-line paragraphs stay one per line: with one paragraph for each
/// of `n` lines, merging lines `start_line + 1` to `end_line` into
/// `start_line`, pasting `line_count` lines at `start_line`, merging line
/// `line + 1` into `line`, and splitting `line`, each leaves one paragraph
/// for each line of the result.
pub proof fn lemma_paragraphs_follow_lines<P>(
    paras: Seq<P>,
    start_line: usize,
    end_line: usize,
    line_count: usize,
    line: usize,
    new_para: P,
    fill: P,
)
    requires
        start_line < end_line < paras.len(),
        line_count >= 1,
        line < paras.len(),
    ensures
        after_range_delete(paras, start_line, end_line).len() == paras.len() - (end_line - start_line),
        after_range_insert(paras, start_line, line_count, fill).len() == paras.len() + line_count - 1,
        line + 1 < paras.len() ==> after_merge(paras, line).len() == paras.len() - 1,
        after_split(paras, line, new_para, fill).len() == paras.len() + 1,
{
}

} // verus!
