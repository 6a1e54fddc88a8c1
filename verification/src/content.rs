//! The document model for the plain line editor: lines of raw markdown text
//! and a cursor given in byte offsets.
//!
//! The model of a [`Content`] is the UTF-8 bytes of each line together with
//! the cursor; every edit is stated over those bytes.

use vstd::prelude::*;
use vstd::string::StringSliceAdditionalSpecFns;
use vstd::utf8::*;

use crate::text::{
    char_string, lemma_ascii_valid, lemma_remove_ascii_byte, push_bytes, string_of_bytes,
};

verus! {

broadcast use {encode_utf8_valid_utf8, valid_utf8_concat, is_char_boundary_start_end_of_seq};

/// The byte that separates lines.
pub const NEWLINE: u8 = 0x0A;

/// The lines of `b`, split at every newline byte.
pub open spec fn split_lines(b: Seq<u8>) -> Seq<Seq<u8>>
    decreases b.len(),
{
    if b.len() == 0 {
        seq![Seq::empty()]
    } else {
        let prev = split_lines(b.drop_last());
        if b.last() == NEWLINE {
            prev.push(Seq::empty())
        } else {
            prev.update(prev.len() - 1, prev.last().push(b.last()))
        }
    }
}

/// The lines joined with a newline byte between each two.
pub open spec fn join_lines(ls: Seq<Seq<u8>>) -> Seq<u8>
    decreases ls.len(),
{
    if ls.len() == 0 {
        Seq::empty()
    } else if ls.len() == 1 {
        ls[0]
    } else {
        join_lines(ls.drop_last()) + seq![NEWLINE] + ls.last()
    }
}

pub open spec fn has_newline(b: Seq<u8>) -> bool {
    exists|i: int| 0 <= i < b.len() && b[i] == NEWLINE
}

/// `p` is the character boundary just before `o`.
pub open spec fn is_prev_boundary(b: Seq<u8>, o: int, p: int) -> bool {
    &&& 0 <= p < o
    &&& is_char_boundary(b, p)
    &&& forall|q: int| p < q < o ==> !is_char_boundary(b, q)
}

/// `p` is the character boundary just after `o`.
pub open spec fn is_next_boundary(b: Seq<u8>, o: int, p: int) -> bool {
    &&& o < p <= b.len()
    &&& is_char_boundary(b, p)
    &&& forall|q: int| o < q < p ==> !is_char_boundary(b, q)
}

/// The start of the character that ends at `o`.
pub open spec fn prev_boundary(b: Seq<u8>, o: int) -> int {
    choose|p: int| is_prev_boundary(b, o, p)
}

/// The end of the character that starts at `o`.
pub open spec fn next_boundary(b: Seq<u8>, o: int) -> int {
    choose|p: int| is_next_boundary(b, o, p)
}

proof fn lemma_prev_boundary_unique(b: Seq<u8>, o: int, p: int)
    requires
        is_prev_boundary(b, o, p),
    ensures
        prev_boundary(b, o) == p,
{
    let c = prev_boundary(b, o);
    assert(is_prev_boundary(b, o, c));
    if c < p {
        assert(!is_char_boundary(b, p));
    } else if p < c {
        assert(!is_char_boundary(b, c));
    }
}

proof fn lemma_next_boundary_unique(b: Seq<u8>, o: int, p: int)
    requires
        is_next_boundary(b, o, p),
    ensures
        next_boundary(b, o) == p,
{
    let c = next_boundary(b, o);
    assert(is_next_boundary(b, o, c));
    if c < p {
        assert(!is_char_boundary(b, c));
    } else if p < c {
        assert(!is_char_boundary(b, p));
    }
}

/// The start of the character before byte `o` of `s`, a character boundary
/// past the start.
fn prev_char_start(s: &str, o: usize) -> (p: usize)
    requires
        0 < o <= s.spec_bytes().len(),
    ensures
        is_prev_boundary(s.spec_bytes(), o as int, p as int),
        p == prev_boundary(s.spec_bytes(), o as int),
{
    let ghost b = s.spec_bytes();
    let mut p: usize = o - 1;
    while !s.is_char_boundary(p)
        invariant
            b == s.spec_bytes(),
            valid_utf8(b),
            0 <= p < o,
            forall|q: int| p < q < o ==> !is_char_boundary(b, q),
        decreases p,
    {
        p = p - 1;
    }
    proof {
        lemma_prev_boundary_unique(b, o as int, p as int);
    }
    p
}

/// The end of the character that starts at byte `o` of `s`.
fn next_char_end(s: &str, o: usize) -> (p: usize)
    requires
        o < s.spec_bytes().len(),
    ensures
        is_next_boundary(s.spec_bytes(), o as int, p as int),
        p == next_boundary(s.spec_bytes(), o as int),
{
    let ghost b = s.spec_bytes();
    let len = s.as_bytes().len();
    let mut p: usize = o + 1;
    while p < len && !s.is_char_boundary(p)
        invariant
            b == s.spec_bytes(),
            valid_utf8(b),
            len == b.len(),
            o < p <= len,
            forall|q: int| o < q < p ==> !is_char_boundary(b, q),
        decreases len - p,
    {
        p = p + 1;
    }
    proof {
        lemma_next_boundary_unique(b, o as int, p as int);
    }
    p
}

/// Cursor position in raw text coordinates (byte offsets).
#[derive(Debug, Clone, Copy, PartialEq, Eq, Structural)]
pub struct Cursor {
    pub line: usize,
    pub offset: usize,
}

/// Action that can be performed on the document.
#[derive(Debug, Clone, Copy, PartialEq, Eq, Structural)]
#[non_exhaustive]
pub enum Action {
    Insert(char),
    /// Delete forward (like the Delete key).
    Delete,
    /// Delete backward (like the Backspace key).
    Backspace,
    /// Split the current line at the cursor (Enter key).
    Enter,
    /// Move the cursor.
    Move(Motion),
    /// Set cursor to a specific position, clamped to valid range.
    Click { line: usize, offset: usize },
}

/// Cursor motion direction.
#[derive(Debug, Clone, Copy, PartialEq, Eq, Structural)]
#[non_exhaustive]
pub enum Motion {
    Left,
    Right,
    Up,
    Down,
    Home,
    End,
}

/// The document model, holding lines of raw markdown text.
#[derive(Debug)]
pub struct Content {
    lines: Vec<String>,
    cursor: Cursor,
}

/// The UTF-8 bytes of each line.
pub open spec fn line_bytes(lines: Seq<String>) -> Seq<Seq<u8>> {
    lines.map_values(|s: String| encode_utf8(s@))
}

impl View for Content {
    /// The bytes of each line, and the cursor.
    type V = (Seq<Seq<u8>>, Cursor);

    closed spec fn view(&self) -> (Seq<Seq<u8>>, Cursor) {
        (line_bytes(self.lines@), self.cursor)
    }
}

/// At least one line, no newline inside a line, and the cursor on a line
/// and within it.
pub open spec fn well_formed_model(m: (Seq<Seq<u8>>, Cursor)) -> bool {
    &&& m.0.len() >= 1
    &&& forall|i: int| 0 <= i < m.0.len() ==> !has_newline(#[trigger] m.0[i])
    &&& forall|i: int| 0 <= i < m.0.len() ==> valid_utf8(#[trigger] m.0[i])
    &&& lines_fit(m)
    &&& m.1.line < m.0.len()
    &&& m.1.offset <= m.0[m.1.line as int].len()
}

/// The cursor sits on a character boundary of its line.
pub open spec fn at_boundary(m: (Seq<Seq<u8>>, Cursor)) -> bool {
    is_char_boundary(m.0[m.1.line as int], m.1.offset as int)
}

impl Content {
    pub open spec fn well_formed(&self) -> bool {
        well_formed_model(self@)
    }

    /// Create a new empty document with one empty line.
    pub fn new() -> (c: Self)
        ensures
            c.well_formed(),
            c@ == (seq![Seq::<u8>::empty()], Cursor { line: 0, offset: 0 }),
    {
        let mut lines: Vec<String> = Vec::new();
        lines.push(String::new());
        let c = Self { lines, cursor: Cursor { line: 0, offset: 0 } };
        assert(c@.0 =~= seq![Seq::<u8>::empty()]);
        c
    }

    /// Parse text into lines, splitting on newlines.
    pub fn with_text(text: &str) -> (c: Self)
        ensures
            c.well_formed(),
            c@ == (split_lines(text.spec_bytes()), Cursor { line: 0, offset: 0 }),
            c@.0.len() == newline_count(text.spec_bytes()) + 1,
            join_lines(c@.0) == text.spec_bytes(),
    {
        let bytes = text.as_bytes();
        let ghost b = bytes@;
        let mut lines: Vec<String> = Vec::new();
        let mut current: Vec<u8> = Vec::new();
        let mut i: usize = 0;
        assert(current@ + b.skip(0) =~= b);
        while i < bytes.len()
            invariant
                b == bytes@,
                i <= b.len(),
                valid_utf8(current@ + b.skip(i as int)),
                line_bytes(lines@).push(current@) == split_lines(b.take(i as int)),
                !has_newline(current@),
                forall|j: int| 0 <= j < lines@.len() ==> !has_newline(#[trigger] line_bytes(lines@)[j]),
                forall|j: int| 0 <= j < lines@.len() ==> #[trigger] line_bytes(lines@)[j].len() <= usize::MAX,
                current@.len() <= i,
            decreases b.len() - i,
        {
            let ghost before = line_bytes(lines@);
            assert(b.take(i + 1).drop_last() =~= b.take(i as int));
            if bytes[i] == NEWLINE {
                let ghost cur = current@;
                assert(current@ + b.skip(i as int) =~= current@ + seq![NEWLINE] + b.skip(i + 1));
                proof {
                    lemma_remove_ascii_byte(current@, NEWLINE, b.skip(i + 1));
                }
                let line = string_of_bytes(current);
                lines.push(line);
                current = Vec::new();
                assert(line_bytes(lines@) =~= before.push(cur));
                assert(current@ + b.skip(i + 1) =~= b.skip(i + 1));
            } else {
                let ghost cur = current@;
                current.push(bytes[i]);
                assert(current@ + b.skip(i + 1) =~= cur + b.skip(i as int));
                assert(line_bytes(lines@).push(current@) =~= before.push(cur).update(
                    before.len() as int,
                    cur.push(b[i as int]),
                ));
                assert(!has_newline(current@)) by {
                    assert forall|k: int| 0 <= k < current@.len() implies current@[k] != NEWLINE by {
                        if k < cur.len() {
                            assert(current@[k] == cur[k]);
                        }
                    }
                }
            }
            i += 1;
        }
        assert(b.take(i as int) =~= b);
        assert(current@ + b.skip(i as int) =~= current@);
        let ghost before = line_bytes(lines@);
        let ghost cur = current@;
        let last = string_of_bytes(current);
        lines.push(last);
        assert(line_bytes(lines@) =~= before.push(cur));
        let c = Self { lines, cursor: Cursor { line: 0, offset: 0 } };
        proof {
            lemma_split_lines_len(b);
            lemma_split_lines_count(b);
            lemma_join_split(b);
        }
        c
    }

    /// Return the current cursor position.
    pub fn cursor(&self) -> (c: Cursor)
        ensures
            c == self@.1,
    {
        self.cursor
    }

    /// Return the content of a line by index.
    pub fn line(&self, index: usize) -> (s: Option<&str>)
        ensures
            index < self@.0.len() ==> (s matches Some(t) && t.spec_bytes() == self@.0[index as int]),
            index >= self@.0.len() ==> s is None,
    {
        if index < self.lines.len() {
            Some(self.lines[index].as_str())
        } else {
            None
        }
    }

    /// Return the total number of lines.
    pub fn line_count(&self) -> (n: usize)
        ensures
            n == self@.0.len(),
    {
        self.lines.len()
    }

    /// Join all lines with `\n` to produce the full document text.
    pub fn text(&self) -> (s: String)
        requires
            self.well_formed(),
        ensures
            encode_utf8(s@) == join_lines(self@.0),
    {
        let ghost ls = self@.0;
        let mut out: Vec<u8> = Vec::new();
        let mut k: usize = 0;
        while k < self.lines.len()
            invariant
                ls == self@.0,
                well_formed_model(self@),
                k <= ls.len(),
                out@ == join_lines(ls.take(k as int)),
                valid_utf8(out@),
            decreases ls.len() - k,
        {
            let bytes = self.lines[k].as_str().as_bytes();
            assert(bytes@ == ls[k as int]);
            let ghost before = out@;
            if k > 0 {
                out.push(NEWLINE);
                proof {
                    lemma_ascii_valid(seq![NEWLINE]);
                    assert(before.push(NEWLINE) =~= before + seq![NEWLINE]);
                }
            }
            let ghost mid = out@;
            push_bytes(&mut out, bytes, 0, bytes.len());
            proof {
                assert(bytes@.subrange(0, bytes@.len() as int) =~= bytes@);
                assert(ls.take(k + 1).drop_last() =~= ls.take(k as int));
                if k == 0 {
                    assert(ls.take(1) =~= seq![ls[0]]);
                }
                assert(out@ =~= join_lines(ls.take(k + 1)));
            }
            k += 1;
        }
        assert(ls.take(k as int) =~= ls);
        string_of_bytes(out)
    }
}

/// Inserting a character at the cursor: its bytes go in at the cursor, which
/// moves past them.
pub open spec fn insert_model(m: (Seq<Seq<u8>>, Cursor), ch: char) -> (Seq<Seq<u8>>, Cursor) {
    let l = m.1.line as int;
    let o = m.1.offset as int;
    let b = m.0[l];
    let e = encode_utf8(seq![ch]);
    (m.0.update(l, b.take(o) + e + b.skip(o)), Cursor { line: m.1.line, offset: (o + e.len()) as usize })
}

/// Deleting forward: the character at the cursor goes; at the end of a
/// line the next line is joined on; at the end of the text nothing changes.
pub open spec fn delete_model(m: (Seq<Seq<u8>>, Cursor)) -> (Seq<Seq<u8>>, Cursor) {
    let l = m.1.line as int;
    let o = m.1.offset as int;
    let b = m.0[l];
    if o < b.len() {
        (m.0.update(l, b.take(o) + b.skip(next_boundary(b, o))), m.1)
    } else if l + 1 < m.0.len() {
        (m.0.update(l, b + m.0[l + 1]).remove(l + 1), m.1)
    } else {
        m
    }
}

/// Deleting backward: the character before the cursor goes and the cursor
/// moves to its start; at the start of a line the line is joined onto the
/// previous one, the cursor landing at the join.
pub open spec fn backspace_model(m: (Seq<Seq<u8>>, Cursor)) -> (Seq<Seq<u8>>, Cursor) {
    let l = m.1.line as int;
    let o = m.1.offset as int;
    let b = m.0[l];
    if o > 0 {
        let p = prev_boundary(b, o);
        (m.0.update(l, b.take(p) + b.skip(o)), Cursor { line: m.1.line, offset: p as usize })
    } else if l > 0 {
        let a = m.0[l - 1];
        (m.0.update(l - 1, a + b).remove(l), Cursor { line: (l - 1) as usize, offset: a.len() as usize })
    } else {
        m
    }
}

/// Splitting the line at the cursor, which moves to the start of the new
/// line.
pub open spec fn enter_model(m: (Seq<Seq<u8>>, Cursor)) -> (Seq<Seq<u8>>, Cursor) {
    let l = m.1.line as int;
    let o = m.1.offset as int;
    let b = m.0[l];
    (m.0.update(l, b.take(o)).insert(l + 1, b.skip(o)), Cursor { line: (l + 1) as usize, offset: 0 })
}

pub open spec fn min_usize(a: usize, b: int) -> usize {
    if a <= b {
        a
    } else {
        b as usize
    }
}

/// Where a motion takes the cursor.
pub open spec fn move_model(m: (Seq<Seq<u8>>, Cursor), motion: Motion) -> Cursor {
    let l = m.1.line as int;
    let o = m.1.offset as int;
    let b = m.0[l];
    match motion {
        Motion::Left => if o > 0 {
            Cursor { line: m.1.line, offset: prev_boundary(b, o) as usize }
        } else if l > 0 {
            Cursor { line: (l - 1) as usize, offset: m.0[l - 1].len() as usize }
        } else {
            m.1
        },
        Motion::Right => if o < b.len() {
            Cursor { line: m.1.line, offset: next_boundary(b, o) as usize }
        } else if l + 1 < m.0.len() {
            Cursor { line: (l + 1) as usize, offset: 0 }
        } else {
            m.1
        },
        Motion::Up => if l > 0 {
            Cursor { line: (l - 1) as usize, offset: min_usize(m.1.offset, m.0[l - 1].len() as int) }
        } else {
            m.1
        },
        Motion::Down => if l + 1 < m.0.len() {
            Cursor { line: (l + 1) as usize, offset: min_usize(m.1.offset, m.0[l + 1].len() as int) }
        } else {
            m.1
        },
        Motion::Home => Cursor { line: m.1.line, offset: 0 },
        Motion::End => Cursor { line: m.1.line, offset: b.len() as usize },
    }
}

/// The cursor placed at `line` and `offset`, each clamped to the text.
pub open spec fn click_model(m: (Seq<Seq<u8>>, Cursor), line: usize, offset: usize) -> Cursor {
    let cl = min_usize(line, m.0.len() - 1);
    Cursor { line: cl, offset: min_usize(offset, m.0[cl as int].len() as int) }
}

/// The document after an action.
pub open spec fn perform_model(m: (Seq<Seq<u8>>, Cursor), action: Action) -> (Seq<Seq<u8>>, Cursor) {
    match action {
        Action::Insert(ch) => if ch == '\n' {
            enter_model(m)
        } else {
            insert_model(m, ch)
        },
        Action::Delete => delete_model(m),
        Action::Backspace => backspace_model(m),
        Action::Enter => enter_model(m),
        Action::Move(motion) => (m.0, move_model(m, motion)),
        Action::Click { line, offset } => (m.0, click_model(m, line, offset)),
    }
}

/// The actions that read or cut the line at the cursor, which must then be
/// on a character boundary.
pub open spec fn needs_boundary(action: Action) -> bool {
    match action {
        Action::Move(Motion::Up) | Action::Move(Motion::Down) | Action::Move(Motion::Home)
        | Action::Move(Motion::End) | Action::Click { .. } => false,
        _ => true,
    }
}

proof fn lemma_continuation_bytes_not_newline(s: u32)
    by (bit_vector)
    ensures
        leading_byte_width_2(s) != NEWLINE,
        leading_byte_width_3(s) != NEWLINE,
        leading_byte_width_4(s) != NEWLINE,
        last_continuation_byte(s) != NEWLINE,
        second_last_continuation_byte(s) != NEWLINE,
        third_last_continuation_byte(s) != NEWLINE,
{
}

proof fn lemma_single_byte_newline(s: u32)
    by (bit_vector)
    requires
        s <= 0x7F,
        leading_byte_width_1(s) == NEWLINE,
    ensures
        s == 10,
{
}

/// Only the newline character has a newline byte in its encoding.
proof fn lemma_encode_newline(ch: char)
    requires
        ch != '\n',
    ensures
        !has_newline(encode_utf8(seq![ch])),
{
    let s = ch as u32;
    let e = encode_utf8(seq![ch]);
    assert(seq![ch].drop_first() =~= Seq::<char>::empty());
    assert(seq![ch][0] == ch);
    assert(encode_utf8(Seq::<char>::empty()) =~= Seq::<u8>::empty());
    assert(e =~= encode_scalar(s) + encode_utf8(Seq::<char>::empty()));
    assert(e =~= encode_scalar(s));
    lemma_continuation_bytes_not_newline(s);
    if has_width_1_encoding(s) && leading_byte_width_1(s) == NEWLINE {
        lemma_single_byte_newline(s);
    }
}

proof fn lemma_concat_no_newline(a: Seq<u8>, b: Seq<u8>)
    requires
        !has_newline(a),
        !has_newline(b),
    ensures
        !has_newline(a + b),
{
    assert forall|k: int| 0 <= k < (a + b).len() implies (a + b)[k] != NEWLINE by {
        if k < a.len() {
            assert((a + b)[k] == a[k]);
        } else {
            assert((a + b)[k] == b[k - a.len()]);
        }
    }
}

proof fn lemma_sub_no_newline(a: Seq<u8>, i: int, j: int)
    requires
        !has_newline(a),
        0 <= i <= j <= a.len(),
    ensures
        !has_newline(a.subrange(i, j)),
{
    assert forall|k: int| 0 <= k < j - i implies a.subrange(i, j)[k] != NEWLINE by {
        assert(a.subrange(i, j)[k] == a[i + k]);
    }
}

impl Content {
    /// Replace line `l`, keeping the others.
    fn set_line(&mut self, l: usize, line: String)
        requires
            l < old(self)@.0.len(),
        ensures
            final(self)@ == (old(self)@.0.update(l as int, encode_utf8(line@)), old(self)@.1),
    {
        self.lines.set(l, line);
        assert(self@.0 =~= old(self)@.0.update(l as int, encode_utf8(line@)));
    }

    fn action_insert(&mut self, ch: char)
        requires
            old(self).well_formed(),
            at_boundary(old(self)@),
            ch != '\n',
        ensures
            final(self).well_formed(),
            final(self)@ == insert_model(old(self)@, ch),
            old(self)@.1.offset + encode_utf8(seq![ch]).len() <= usize::MAX,
    {
        let l = self.cursor.line;
        let o = self.cursor.offset;
        let encoded = char_string(ch);
        let e = encoded.as_str().as_bytes();
        let line = self.lines[l].as_str();
        let b = line.as_bytes();
        assert(b@ == self@.0[l as int]);
        let mut out: Vec<u8> = Vec::new();
        push_bytes(&mut out, b, 0, o);
        push_bytes(&mut out, e, 0, e.len());
        push_bytes(&mut out, b, o, b.len());
        let n = out.len();
        proof {
            valid_utf8_split(b@, o as int);
            assert(e@.subrange(0, e@.len() as int) =~= e@);
            valid_utf8_concat(b@.take(o as int), e@);
            valid_utf8_concat(b@.take(o as int) + e@, b@.skip(o as int));
            assert(out@ =~= b@.take(o as int) + e@ + b@.skip(o as int));
            lemma_encode_newline(ch);
            lemma_sub_no_newline(b@, 0, o as int);
            lemma_sub_no_newline(b@, o as int, b@.len() as int);
            lemma_concat_no_newline(b@.take(o as int), e@);
            lemma_concat_no_newline(b@.take(o as int) + e@, b@.skip(o as int));
        }
        let w = e.len();
        let new_line = string_of_bytes(out);
        self.set_line(l, new_line);
        self.cursor.offset = o + w;
        proof {
            assert forall|i: int| 0 <= i < self@.0.len() implies !has_newline(#[trigger] self@.0[i]) && valid_utf8(self@.0[i])
                && self@.0[i].len() <= usize::MAX by {
                if i != l {
                    assert(self@.0[i] == old(self)@.0[i]);
                }
            }
        }
    }

    /// The bytes of `b[..i]` followed by `c[j..]`, as a string.
    fn joined(b: &[u8], i: usize, c: &[u8], j: usize) -> (s: String)
        requires
            i <= b@.len(),
            j <= c@.len(),
            valid_utf8(b@.take(i as int)),
            valid_utf8(c@.skip(j as int)),
        ensures
            encode_utf8(s@) == b@.take(i as int) + c@.skip(j as int),
            encode_utf8(s@).len() <= usize::MAX,
    {
        let mut out: Vec<u8> = Vec::new();
        push_bytes(&mut out, b, 0, i);
        push_bytes(&mut out, c, j, c.len());
        proof {
            valid_utf8_concat(b@.take(i as int), c@.skip(j as int));
            assert(out@ =~= b@.take(i as int) + c@.skip(j as int));
        }
        string_of_bytes(out)
    }

    fn action_delete(&mut self)
        requires
            old(self).well_formed(),
            at_boundary(old(self)@),
        ensures
            final(self).well_formed(),
            final(self)@ == delete_model(old(self)@),
    {
        let line_idx = self.cursor.line;
        let offset = self.cursor.offset;
        let ghost m = self@;
        let line = self.lines[line_idx].as_str();
        let b = line.as_bytes();
        assert(b@ == m.0[line_idx as int]);
        let line_len = b.len();
        let count = self.lines.len();
        assert(line_idx < count);

        if offset < line_len {
            // Delete the character at cursor position.
            let end = next_char_end(line, offset);
            proof {
                valid_utf8_split(b@, offset as int);
                valid_utf8_split(b@, end as int);
                lemma_sub_no_newline(b@, 0, offset as int);
                lemma_sub_no_newline(b@, end as int, b@.len() as int);
                lemma_concat_no_newline(b@.take(offset as int), b@.skip(end as int));
            }
            let new_line = Self::joined(b, offset, b, end);
            self.set_line(line_idx, new_line);
        } else if line_idx + 1 < count {
            // At end of line -- join with next line
            let next_line = self.lines.remove(line_idx + 1);
            let ghost removed = line_bytes(self.lines@);
            assert(removed =~= m.0.remove(line_idx + 1));
            let next_bytes = next_line.as_str().as_bytes();
            let current = self.lines[line_idx].as_str().as_bytes();
            assert(current@ == m.0[line_idx as int]);
            assert(next_bytes@ == m.0[line_idx + 1]);
            proof {
                assert(current@.take(current@.len() as int) =~= current@);
                assert(next_bytes@.skip(0) =~= next_bytes@);
                lemma_concat_no_newline(current@, next_bytes@);
            }
            let new_line = Self::joined(current, current.len(), next_bytes, 0);
            self.set_line(line_idx, new_line);
            assert(self@.0 =~= m.0.update(line_idx as int, current@ + next_bytes@).remove(line_idx + 1));
        }
        proof {
            assert forall|i: int| 0 <= i < self@.0.len() implies !has_newline(#[trigger] self@.0[i]) && valid_utf8(self@.0[i])
                && self@.0[i].len() <= usize::MAX by {
                if i < line_idx {
                    assert(self@.0[i] == m.0[i]);
                } else if i > line_idx {
                    if self@.0.len() < m.0.len() {
                        assert(self@.0[i] == m.0[i + 1]);
                    } else {
                        assert(self@.0[i] == m.0[i]);
                    }
                }
            }
        }
    }

    fn action_backspace(&mut self)
        requires
            old(self).well_formed(),
            at_boundary(old(self)@),
        ensures
            final(self).well_formed(),
            final(self)@ == backspace_model(old(self)@),
    {
        let line_idx = self.cursor.line;
        let offset = self.cursor.offset;
        let ghost m = self@;

        if offset > 0 {
            // Find the previous character boundary
            let line = self.lines[line_idx].as_str();
            let b = line.as_bytes();
            assert(b@ == m.0[line_idx as int]);
            let prev_char_start = prev_char_start(line, offset);
            proof {
                valid_utf8_split(b@, offset as int);
                valid_utf8_split(b@, prev_char_start as int);
                lemma_sub_no_newline(b@, 0, prev_char_start as int);
                lemma_sub_no_newline(b@, offset as int, b@.len() as int);
                lemma_concat_no_newline(b@.take(prev_char_start as int), b@.skip(offset as int));
            }
            let new_line = Self::joined(b, prev_char_start, b, offset);
            self.set_line(line_idx, new_line);
            self.cursor.offset = prev_char_start;
        } else if line_idx > 0 {
            // At start of line -- join with previous line
            let current_line = self.lines.remove(line_idx);
            let ghost removed = line_bytes(self.lines@);
            assert(removed =~= m.0.remove(line_idx as int));
            self.cursor.line = line_idx - 1;
            let prev = self.lines[line_idx - 1].as_str().as_bytes();
            let current = current_line.as_str().as_bytes();
            assert(prev@ == m.0[line_idx - 1]);
            assert(current@ == m.0[line_idx as int]);
            let prev_len = prev.len();
            proof {
                assert(prev@.take(prev@.len() as int) =~= prev@);
                assert(current@.skip(0) =~= current@);
                lemma_concat_no_newline(prev@, current@);
            }
            let new_line = Self::joined(prev, prev_len, current, 0);
            self.cursor.offset = prev_len;
            self.set_line(line_idx - 1, new_line);
            assert(self@.0 =~= m.0.update(line_idx - 1, prev@ + current@).remove(line_idx as int));
        }
        proof {
            assert forall|i: int| 0 <= i < self@.0.len() implies !has_newline(#[trigger] self@.0[i]) && valid_utf8(self@.0[i])
                && self@.0[i].len() <= usize::MAX by {
                if self@.0.len() < m.0.len() {
                    if i < line_idx - 1 {
                        assert(self@.0[i] == m.0[i]);
                    } else if i >= line_idx {
                        assert(self@.0[i] == m.0[i + 1]);
                    }
                } else if i != line_idx {
                    assert(self@.0[i] == m.0[i]);
                }
            }
        }
    }

    fn action_enter(&mut self)
        requires
            old(self).well_formed(),
            at_boundary(old(self)@),
        ensures
            final(self).well_formed(),
            final(self)@ == enter_model(old(self)@),
    {
        let line_idx = self.cursor.line;
        let offset = self.cursor.offset;
        let ghost m = self@;
        let count = self.lines.len();
        let line = self.lines[line_idx].as_str();
        let b = line.as_bytes();
        assert(b@ == m.0[line_idx as int]);
        proof {
            valid_utf8_split(b@, offset as int);
            lemma_sub_no_newline(b@, 0, offset as int);
            lemma_sub_no_newline(b@, offset as int, b@.len() as int);
            assert(b@.skip(0) =~= b@);
            assert(b@.take(b@.len() as int) =~= b@);
            assert(b@.take(0) + b@.skip(offset as int) =~= b@.skip(offset as int));
            assert(b@.take(offset as int) + b@.skip(b@.len() as int) =~= b@.take(offset as int));
        }
        let remainder = Self::joined(b, 0, b, offset);
        let head = Self::joined(b, offset, b, b.len());
        self.set_line(line_idx, head);
        assert(self.lines@.len() == self@.0.len());
        self.lines.insert(line_idx + 1, remainder);
        assert(line_bytes(self.lines@) =~= m.0.update(line_idx as int, b@.take(offset as int)).insert(
            line_idx + 1,
            b@.skip(offset as int),
        ));

        self.cursor.line = line_idx + 1;
        self.cursor.offset = 0;
        proof {
            assert forall|i: int| 0 <= i < self@.0.len() implies !has_newline(#[trigger] self@.0[i]) && valid_utf8(self@.0[i])
                && self@.0[i].len() <= usize::MAX by {
                if i < line_idx {
                    assert(self@.0[i] == m.0[i]);
                } else if i > line_idx + 1 {
                    assert(self@.0[i] == m.0[i - 1]);
                }
            }
        }
    }

    fn action_move(&mut self, motion: Motion)
        requires
            old(self).well_formed(),
            needs_boundary(Action::Move(motion)) ==> at_boundary(old(self)@),
        ensures
            final(self).well_formed(),
            final(self)@ == (old(self)@.0, move_model(old(self)@, motion)),
    {
        let ghost m = self@;
        let l = self.cursor.line;
        let o = self.cursor.offset;
        let count = self.lines.len();
        assert(l < count);
        let line = self.lines[l].as_str();
        let line_len = line.as_bytes().len();
        assert(line.spec_bytes() == m.0[l as int]);
        match motion {
            Motion::Left => {
                if o > 0 {
                    // Move back one character
                    self.cursor.offset = prev_char_start(line, o);
                } else if l > 0 {
                    // Move to end of previous line
                    self.cursor.line = l - 1;
                    self.cursor.offset = self.lines[l - 1].as_str().as_bytes().len();
                }
            },
            Motion::Right => {
                if o < line_len {
                    // Move forward one character
                    self.cursor.offset = next_char_end(line, o);
                } else if l + 1 < count {
                    // Move to start of next line
                    self.cursor.line = l + 1;
                    self.cursor.offset = 0;
                }
            },
            Motion::Up => {
                if l > 0 {
                    self.cursor.line = l - 1;
                    let len = self.lines[l - 1].as_str().as_bytes().len();
                    if len < o {
                        self.cursor.offset = len;
                    }
                }
            },
            Motion::Down => {
                if l + 1 < count {
                    self.cursor.line = l + 1;
                    let len = self.lines[l + 1].as_str().as_bytes().len();
                    if len < o {
                        self.cursor.offset = len;
                    }
                }
            },
            Motion::Home => {
                self.cursor.offset = 0;
            },
            Motion::End => {
                self.cursor.offset = line_len;
            },
        }
    }

    fn action_click(&mut self, line: usize, offset: usize)
        requires
            old(self).well_formed(),
        ensures
            final(self).well_formed(),
            final(self)@ == (old(self)@.0, click_model(old(self)@, line, offset)),
    {
        let last = self.lines.len() - 1;
        let clamped_line = if line < last { line } else { last };
        let len = self.lines[clamped_line].as_str().as_bytes().len();
        let clamped_offset = if offset < len { offset } else { len };
        self.cursor.line = clamped_line;
        self.cursor.offset = clamped_offset;
    }

    /// Perform an action on the document.
    pub fn perform(&mut self, action: Action)
        requires
            old(self).well_formed(),
            needs_boundary(action) ==> at_boundary(old(self)@),
        ensures
            final(self).well_formed(),
            final(self)@ == perform_model(old(self)@, action),
            keeps_boundary(action) && (needs_boundary(action) ==> at_boundary(old(self)@)) ==> at_boundary(
                final(self)@,
            ),
    {
        let ghost m0 = self@;
        match action {
            Action::Insert(ch) => {
                if ch == '\n' {
                    self.action_enter();
                } else {
                    self.action_insert(ch);
                }
            },
            Action::Delete => self.action_delete(),
            Action::Backspace => self.action_backspace(),
            Action::Enter => self.action_enter(),
            Action::Move(motion) => self.action_move(motion),
            Action::Click { line, offset } => self.action_click(line, offset),
        }
        proof {
            if keeps_boundary(action) && (needs_boundary(action) ==> at_boundary(m0)) {
                lemma_perform_keeps_boundary(m0, action);
            }
        }
    }
}

impl Default for Content {
    fn default() -> (c: Self)
        ensures
            c.well_formed(),
            c@ == (seq![Seq::<u8>::empty()], Cursor { line: 0, offset: 0 }),
    {
        Self::new()
    }
}

proof fn lemma_split_lines_len(b: Seq<u8>)
    ensures
        split_lines(b).len() >= 1,
        forall|i: int| 0 <= i < split_lines(b).len() ==> !has_newline(#[trigger] split_lines(b)[i]),
    decreases b.len(),
{
    if b.len() > 0 {
        lemma_split_lines_len(b.drop_last());
        let prev = split_lines(b.drop_last());
        if b.last() != NEWLINE {
            let l = prev.last().push(b.last());
            assert(!has_newline(l)) by {
                assert forall|k: int| 0 <= k < l.len() implies l[k] != NEWLINE by {
                    if k < prev.last().len() {
                        assert(!has_newline(prev[prev.len() - 1]));
                    }
                }
            }
        }
        assert forall|i: int| 0 <= i < split_lines(b).len() implies !has_newline(#[trigger] split_lines(b)[i]) by {
            if b.last() == NEWLINE {
                if i < prev.len() {
                    assert(split_lines(b)[i] == prev[i]);
                } else {
                    assert(split_lines(b)[i] =~= Seq::<u8>::empty());
                }
            } else if i < prev.len() - 1 {
                assert(split_lines(b)[i] == prev[i]);
            }
        }
    }
}

} // verus!

verus! {

proof fn lemma_join_push_last(ls: Seq<Seq<u8>>, x: u8)
    requires
        ls.len() >= 1,
    ensures
        join_lines(ls.update(ls.len() - 1, ls.last().push(x))) == join_lines(ls).push(x),
{
    let u = ls.update(ls.len() - 1, ls.last().push(x));
    if ls.len() == 1 {
        assert(join_lines(u) == u[0]);
    } else {
        assert(u.drop_last() =~= ls.drop_last());
        assert(join_lines(u) =~= join_lines(ls).push(x));
    }
}

/// Splitting text into lines and joining them again gives back the text:
/// the lines a [`Content`] is made of by `with_text` join, in `text`, into
/// the text it was made from.
pub proof fn lemma_join_split(b: Seq<u8>)
    ensures
        join_lines(split_lines(b)) == b,
    decreases b.len(),
{
    if b.len() > 0 {
        let prev = split_lines(b.drop_last());
        lemma_join_split(b.drop_last());
        lemma_split_lines_len(b.drop_last());
        if b.last() == NEWLINE {
            let s = prev.push(Seq::empty());
            assert(s.drop_last() =~= prev);
            assert(join_lines(s) =~= b);
        } else {
            lemma_join_push_last(prev, b.last());
            assert(b.drop_last().push(b.last()) =~= b);
        }
    }
}

proof fn lemma_split_append(a: Seq<u8>, c: Seq<u8>)
    requires
        !has_newline(c),
    ensures
        split_lines(a + c) == split_lines(a).update(
            split_lines(a).len() - 1,
            split_lines(a).last() + c,
        ),
    decreases c.len(),
{
    lemma_split_lines_len(a);
    let s = split_lines(a);
    if c.len() == 0 {
        assert(a + c =~= a);
        assert(s.last() + c =~= s.last());
        assert(s.update(s.len() - 1, s.last() + c) =~= s);
    } else {
        let c0 = c.drop_last();
        lemma_sub_no_newline(c, 0, c.len() - 1);
        assert(c0 =~= c.subrange(0, c.len() - 1));
        lemma_split_append(a, c0);
        assert((a + c).drop_last() =~= a + c0);
        assert((a + c).last() == c.last());
        assert(c.last() != NEWLINE);
        let t = split_lines(a + c0);
        assert(t.len() == s.len());
        assert(t.last() == s.last() + c0);
        assert((s.last() + c0).push(c.last()) =~= s.last() + c);
        assert(split_lines(a + c) == t.update(t.len() - 1, t.last().push(c.last())));
        assert(split_lines(a + c) =~= s.update(s.len() - 1, s.last() + c));
    }
}

/// Joining lines that hold no newline and splitting the result gives back
/// the lines: a [`Content`] made `with_text` from its own `text` has the
/// same lines.
pub proof fn lemma_split_join(ls: Seq<Seq<u8>>)
    requires
        ls.len() >= 1,
        forall|i: int| 0 <= i < ls.len() ==> !has_newline(#[trigger] ls[i]),
    ensures
        split_lines(join_lines(ls)) == ls,
    decreases ls.len(),
{
    if ls.len() == 1 {
        lemma_split_append(Seq::empty(), ls[0]);
        assert(Seq::<u8>::empty() + ls[0] =~= ls[0]);
        assert(split_lines(Seq::<u8>::empty()) =~= seq![Seq::<u8>::empty()]);
        assert(Seq::<u8>::empty() + ls[0] =~= ls[0]);
        assert(split_lines(ls[0]) =~= ls);
    } else {
        let init = ls.drop_last();
        assert forall|i: int| 0 <= i < init.len() implies !has_newline(#[trigger] init[i]) by {
            assert(init[i] == ls[i]);
        }
        lemma_split_join(init);
        let j = join_lines(init);
        let jn = j + seq![NEWLINE];
        assert(jn.drop_last() =~= j);
        assert(split_lines(jn) == init.push(Seq::empty()));
        assert(!has_newline(ls.last()));
        lemma_split_append(jn, ls.last());
        assert(Seq::<u8>::empty() + ls.last() =~= ls.last());
        assert(split_lines(jn + ls.last()) =~= ls);
    }
}

/// Enter followed by Backspace gives back the document and the cursor.
pub proof fn lemma_enter_then_backspace(m: (Seq<Seq<u8>>, Cursor))
    requires
        well_formed_model(m),
        m.0.len() <= usize::MAX,
    ensures
        backspace_model(enter_model(m)) == m,
{
    let l = m.1.line as int;
    let o = m.1.offset as int;
    let b = m.0[l];
    let e = enter_model(m);
    assert(e.0[l] == b.take(o));
    assert(e.0[l + 1] == b.skip(o));
    assert(b.take(o) + b.skip(o) =~= b);
    assert(e.0.update(l, b).remove(l + 1) =~= m.0);
}

/// Backspace at the start of a line after the first, followed by Enter,
/// gives back the document and the cursor.
pub proof fn lemma_backspace_then_enter(m: (Seq<Seq<u8>>, Cursor))
    requires
        well_formed_model(m),
        m.0.len() <= usize::MAX,
        m.1.offset == 0,
        m.1.line > 0,
    ensures
        enter_model(backspace_model(m)) == m,
{
    let l = m.1.line as int;
    let a = m.0[l - 1];
    let b = m.0[l];
    let k = backspace_model(m);
    assert(k.0[l - 1] == a + b);
    assert((a + b).take(a.len() as int) =~= a);
    assert((a + b).skip(a.len() as int) =~= b);
    assert(k.0.update(l - 1, a).insert(l, b) =~= m.0);
}

/// Moving left and then right gives back the cursor, unless it was at the
/// very start of the text.
pub proof fn lemma_left_then_right(m: (Seq<Seq<u8>>, Cursor))
    requires
        well_formed_model(m),
        m.0.len() <= usize::MAX,
        at_boundary(m),
        m.1.line > 0 || m.1.offset > 0,
    ensures
        move_model((m.0, move_model(m, Motion::Left)), Motion::Right) == m.1,
{
    let l = m.1.line as int;
    let o = m.1.offset as int;
    let b = m.0[l];
    if o > 0 {
        lemma_prev_boundary_exists(b, o);
        let p = prev_boundary(b, o);
        assert(is_next_boundary(b, p, o));
        lemma_next_boundary_unique(b, p, o);
    }
}

/// Moving right and then left gives back the cursor, unless it was at the
/// very end of the text.
pub proof fn lemma_right_then_left(m: (Seq<Seq<u8>>, Cursor))
    requires
        well_formed_model(m),
        m.0.len() <= usize::MAX,
        at_boundary(m),
        m.1.line + 1 < m.0.len() || m.1.offset < m.0[m.1.line as int].len(),
    ensures
        move_model((m.0, move_model(m, Motion::Right)), Motion::Left) == m.1,
{
    let l = m.1.line as int;
    let o = m.1.offset as int;
    let b = m.0[l];
    if o < b.len() {
        lemma_next_boundary_exists(b, o);
        let q = next_boundary(b, o);
        assert(is_prev_boundary(b, q, o));
        lemma_prev_boundary_unique(b, q, o);
    }
}

/// A character boundary lies before every position past the start.
proof fn lemma_prev_boundary_exists(b: Seq<u8>, o: int)
    requires
        valid_utf8(b),
        0 < o <= b.len(),
    ensures
        is_prev_boundary(b, o, prev_boundary(b, o)),
    decreases o,
{
    if is_char_boundary(b, o - 1) {
        assert(is_prev_boundary(b, o, o - 1));
    } else {
        lemma_prev_boundary_exists(b, o - 1);
        let p = prev_boundary(b, o - 1);
        assert(is_prev_boundary(b, o, p));
    }
}

/// A character boundary lies after every position before the end.
proof fn lemma_next_boundary_exists(b: Seq<u8>, o: int)
    requires
        valid_utf8(b),
        0 <= o < b.len(),
    ensures
        is_next_boundary(b, o, next_boundary(b, o)),
    decreases b.len() - o,
{
    if is_char_boundary(b, o + 1) {
        assert(is_next_boundary(b, o, o + 1));
    } else {
        assert(o + 1 < b.len());
        lemma_next_boundary_exists(b, o + 1);
        let p = next_boundary(b, o + 1);
        assert(is_next_boundary(b, o, p));
    }
}

/// Past a valid prefix, the character boundaries are those of the rest.
proof fn lemma_boundary_after_prefix(x: Seq<u8>, z: Seq<u8>, k: int)
    requires
        valid_utf8(x),
        valid_utf8(z),
        0 <= k <= z.len(),
    ensures
        is_char_boundary(x + z, x.len() + k) == is_char_boundary(z, k),
    decreases x.len(),
{
    if x.len() == 0 {
        assert(x + z =~= z);
    } else {
        let w = x + z;
        assert(valid_utf8(w));
        assert(w[0] == x[0]);
        let n = length_of_first_scalar(x);
        assert(length_of_first_scalar(w) == n);
        assert(valid_first_scalar(x));
        let px = pop_first_scalar(x);
        assert(pop_first_scalar(w) =~= px + z);
        assert(px.len() == x.len() - n);
        lemma_boundary_after_prefix(px, z, k);
        assert(x.len() + k - n == px.len() + k);
    }
}

/// Inside the encoding of one character that starts a valid sequence there
/// is no character boundary.
proof fn lemma_no_boundary_inside_char(ch: char, y: Seq<u8>, k: int)
    requires
        valid_utf8(y),
        0 < k < encode_utf8(seq![ch]).len(),
    ensures
        !is_char_boundary(encode_utf8(seq![ch]) + y, k),
{
    let e = encode_utf8(seq![ch]);
    encode_utf8_first_scalar(seq![ch]);
    assert(seq![ch][0] == ch);
    assert(seq![ch].drop_first() =~= Seq::<char>::empty());
    assert(encode_utf8(Seq::<char>::empty()) =~= Seq::<u8>::empty());
    assert(e =~= encode_scalar(ch as u32));
    let w = e + y;
    assert(w[0] == e[0]);
    assert(length_of_first_scalar(w) == e.len());
    assert(pop_first_scalar(w) =~= y);
    assert(valid_utf8(w));
    assert(k <= w.len());
    reveal_with_fuel(is_char_boundary, 2);
    assert(!is_char_boundary(y, k - e.len()));
}

/// Typing a character and then pressing Backspace gives back the text and
/// the cursor, for a cursor on a character boundary.
pub proof fn lemma_insert_then_backspace(m: (Seq<Seq<u8>>, Cursor), ch: char)
    requires
        well_formed_model(m),
        at_boundary(m),
        m.1.offset + encode_utf8(seq![ch]).len() <= usize::MAX,
    ensures
        backspace_model(insert_model(m, ch)) == m,
{
    let l = m.1.line as int;
    let o = m.1.offset as int;
    let b = m.0[l];
    let e = encode_utf8(seq![ch]);
    let x = b.take(o);
    let y = b.skip(o);
    valid_utf8_split(b, o);
    assert(b.subrange(0, o) =~= x);
    assert(b.subrange(o, b.len() as int) =~= y);
    encode_utf8_first_scalar(seq![ch]);
    let i = insert_model(m, ch);
    let nb = i.0[l];
    assert(nb == x + e + y);
    assert(x + e + y =~= x + (e + y));
    assert(valid_utf8(e + y));
    let q = o + e.len();
    assert(is_prev_boundary(nb, q, o)) by {
        lemma_boundary_after_prefix(x, e + y, 0);
        assert forall|r: int| o < r < q implies !is_char_boundary(nb, r) by {
            lemma_boundary_after_prefix(x, e + y, r - o);
            lemma_no_boundary_inside_char(ch, y, r - o);
        }
    }
    lemma_prev_boundary_unique(nb, q, o);
    assert(nb.take(o) + nb.skip(q) =~= b);
    assert(i.0.update(l, b) =~= m.0);
}

/// Every line is short enough for its length to be a `usize`.
pub open spec fn lines_fit(m: (Seq<Seq<u8>>, Cursor)) -> bool {
    forall|i: int| 0 <= i < m.0.len() ==> #[trigger] m.0[i].len() <= usize::MAX
}

/// The actions after which the cursor is on a character boundary, when it
/// was on one before: all but moving up or down and clicking, which may
/// land inside a character.
pub open spec fn keeps_boundary(action: Action) -> bool {
    !(action matches Action::Move(Motion::Up)) && !(action matches Action::Move(Motion::Down))
        && !(action is Click)
}

/// Two valid sequences joined have a character boundary where they meet.
proof fn lemma_boundary_at_join(x: Seq<u8>, z: Seq<u8>)
    requires
        valid_utf8(x),
        valid_utf8(z),
    ensures
        is_char_boundary(x + z, x.len() as int),
        valid_utf8(x + z),
{
    lemma_boundary_after_prefix(x, z, 0);
}

/// Each edit and each move but up, down and a click leaves the cursor on a
/// character boundary of its line, when it was on one before; Home and End
/// always do.
pub proof fn lemma_perform_keeps_boundary(m: (Seq<Seq<u8>>, Cursor), action: Action)
    requires
        well_formed_model(m),
        keeps_boundary(action),
        needs_boundary(action) ==> at_boundary(m),
        action matches Action::Insert(ch) ==> (ch != '\n' ==> m.1.offset + encode_utf8(seq![ch]).len()
            <= usize::MAX),
    ensures
        at_boundary(perform_model(m, action)),
{
    let l = m.1.line as int;
    let o = m.1.offset as int;
    let b = m.0[l];
    assert(valid_utf8(b));
    match action {
        Action::Insert(ch) => {
            if ch == '\n' {
                valid_utf8_split(b, o);
                assert(b.subrange(o, b.len() as int) =~= b.skip(o));
                is_char_boundary_start_end_of_seq(b.skip(o));
                assert(enter_model(m).0[l + 1] == b.skip(o));
                assert(at_boundary(enter_model(m)));
                assert(perform_model(m, action) == enter_model(m));
            } else {
                let e = encode_utf8(seq![ch]);
                let x = b.take(o);
                let y = b.skip(o);
                valid_utf8_split(b, o);
                assert(b.subrange(0, o) =~= x);
                assert(b.subrange(o, b.len() as int) =~= y);
                lemma_boundary_at_join(e, y);
                lemma_boundary_after_prefix(x, e + y, e.len() as int);
                assert(x + e + y =~= x + (e + y));
                let r = insert_model(m, ch);
                assert(r.0[l] == x + e + y);
                assert(r.1.offset == x.len() + e.len());
                assert(is_char_boundary(x + (e + y), (x.len() + e.len()) as int));
                assert(at_boundary(r));
                assert(perform_model(m, action) == r);
            }
            assert(at_boundary(perform_model(m, action)));
        },
        Action::Enter => {
            assert(perform_model(m, action) == enter_model(m));
            valid_utf8_split(b, o);
            assert(b.subrange(o, b.len() as int) =~= b.skip(o));
            is_char_boundary_start_end_of_seq(b.skip(o));
            assert(enter_model(m).0[l + 1] == b.skip(o));
            assert(at_boundary(perform_model(m, action)));
        },
        Action::Delete => {
            assert(perform_model(m, action) == delete_model(m));
            if o < b.len() {
                lemma_next_boundary_exists(b, o);
                let q = next_boundary(b, o);
                valid_utf8_split(b, o);
                valid_utf8_split(b, q);
                assert(b.subrange(0, o) =~= b.take(o));
                assert(b.subrange(q, b.len() as int) =~= b.skip(q));
                lemma_boundary_at_join(b.take(o), b.skip(q));
            } else if l + 1 < m.0.len() {
                assert(valid_utf8(m.0[l + 1]));
                lemma_boundary_at_join(b, m.0[l + 1]);
            }
            assert(at_boundary(perform_model(m, action)));
        },
        Action::Backspace => {
            assert(perform_model(m, action) == backspace_model(m));
            if o > 0 {
                lemma_prev_boundary_exists(b, o);
                let p = prev_boundary(b, o);
                valid_utf8_split(b, o);
                valid_utf8_split(b, p);
                assert(b.subrange(0, p) =~= b.take(p));
                assert(b.subrange(o, b.len() as int) =~= b.skip(o));
                lemma_boundary_at_join(b.take(p), b.skip(o));
                let r = backspace_model(m);
                assert(r.0[l] == b.take(p) + b.skip(o));
                assert(r.1.offset == p);
                assert(b.take(p).len() == p);
            } else if l > 0 {
                assert(valid_utf8(m.0[l - 1]));
                lemma_boundary_at_join(m.0[l - 1], b);
                let r = backspace_model(m);
                assert(r.0[l - 1] == m.0[l - 1] + b);
            }
            assert(at_boundary(perform_model(m, action)));
        },
        Action::Move(motion) => {
            match motion {
                Motion::Left => {
                    if o > 0 {
                        lemma_prev_boundary_exists(b, o);
                        assert(move_model(m, motion).offset == prev_boundary(b, o));
                    } else if l > 0 {
                        assert(valid_utf8(m.0[l - 1]));
                        is_char_boundary_start_end_of_seq(m.0[l - 1]);
                    }
                },
                Motion::Right => {
                    if o < b.len() {
                        lemma_next_boundary_exists(b, o);
                        assert(move_model(m, motion).offset == next_boundary(b, o));
                    } else if l + 1 < m.0.len() {
                        assert(valid_utf8(m.0[l + 1]));
                        is_char_boundary_start_end_of_seq(m.0[l + 1]);
                    }
                },
                Motion::Home | Motion::End => {
                    is_char_boundary_start_end_of_seq(b);
                },
                _ => {},
            }
            assert(at_boundary(perform_model(m, action)));
        },
        _ => {},
    }
}

/// Typing a character or a line break and then pressing Backspace, through
/// [`Content::perform`], gives back the text and the cursor, for a cursor on
/// a character boundary.
pub proof fn lemma_perform_then_backspace(m: (Seq<Seq<u8>>, Cursor), action: Action)
    requires
        well_formed_model(m),
        at_boundary(m),
        action is Insert || action is Enter,
        well_formed_model(perform_model(m, action)),
        m.0.len() <= usize::MAX,
    ensures
        perform_model(perform_model(m, action), Action::Backspace) == m,
{
    match action {
        Action::Insert(ch) => if ch == '\n' {
            lemma_enter_then_backspace(m);
        } else {
            let l = m.1.line as int;
            let o = m.1.offset as int;
            let b = m.0[l];
            let e = encode_utf8(seq![ch]);
            assert(perform_model(m, action).0[l] == b.take(o) + e + b.skip(o));
            assert((b.take(o) + e + b.skip(o)).len() == o + e.len() + (b.len() - o));
            lemma_insert_then_backspace(m, ch);
        },
        _ => lemma_enter_then_backspace(m),
    }
}

/// The lines of a text are its newline-separated pieces: one more than its
/// newlines.
pub proof fn lemma_split_lines_count(b: Seq<u8>)
    ensures
        split_lines(b).len() == newline_count(b) + 1,
    decreases b.len(),
{
    if b.len() > 0 {
        lemma_split_lines_count(b.drop_last());
    }
}

/// The number of newline bytes in `b`.
pub open spec fn newline_count(b: Seq<u8>) -> nat
    decreases b.len(),
{
    if b.len() == 0 {
        0
    } else {
        newline_count(b.drop_last()) + if b.last() == NEWLINE {
            1nat
        } else {
            0nat
        }
    }
}

} // verus!
