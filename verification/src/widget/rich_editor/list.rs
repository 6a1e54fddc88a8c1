//! List markers: bullet glyphs, ordinal counting and numbering schemes.

use vstd::prelude::*;

use crate::paragraph::{Bullet, List, Number, Style};
use crate::text::{
    all_ascii, ascii_chars, ascii_string, char_string, decimal_bytes, lemma_decimal_bytes_ascii,
    push_decimal,
};

verus! {

pub open spec fn lower_a() -> u8 {
    0x61
}

pub open spec fn upper_a() -> u8 {
    0x41
}

/// Bijective base-26 letters of `n` ("a".."z", "aa", ...), empty for 0.
pub open spec fn alpha_bytes(n: nat, base: u8) -> Seq<u8>
    decreases n,
{
    if n == 0 {
        Seq::empty()
    } else {
        alpha_bytes(((n - 1) / 26) as nat, base).push((base + (n - 1) % 26) as u8)
    }
}

pub open spec fn alpha_base(upper: bool) -> u8 {
    if upper {
        upper_a()
    } else {
        lower_a()
    }
}

/// The value of the `k`-th numeral of the roman table.
pub open spec fn roman_value(k: int) -> int {
    if k == 0 {
        1000
    } else if k == 1 {
        900
    } else if k == 2 {
        500
    } else if k == 3 {
        400
    } else if k == 4 {
        100
    } else if k == 5 {
        90
    } else if k == 6 {
        50
    } else if k == 7 {
        40
    } else if k == 8 {
        10
    } else if k == 9 {
        9
    } else if k == 10 {
        5
    } else if k == 11 {
        4
    } else {
        1
    }
}

/// A roman letter given by its lower-case byte, upper-cased on demand.
pub open spec fn letter(lower: u8, upper: bool) -> u8 {
    if upper {
        (lower - 32) as u8
    } else {
        lower
    }
}

/// The `k`-th numeral of the roman table (m, cm, d, cd, c, xc, l, xl, x,
/// ix, v, iv, i).
pub open spec fn roman_piece(k: int, upper: bool) -> Seq<u8> {
    let m = letter(0x6d, upper);
    let d = letter(0x64, upper);
    let c = letter(0x63, upper);
    let l = letter(0x6c, upper);
    let x = letter(0x78, upper);
    let v = letter(0x76, upper);
    let i = letter(0x69, upper);
    if k == 0 {
        seq![m]
    } else if k == 1 {
        seq![c, m]
    } else if k == 2 {
        seq![d]
    } else if k == 3 {
        seq![c, d]
    } else if k == 4 {
        seq![c]
    } else if k == 5 {
        seq![x, c]
    } else if k == 6 {
        seq![l]
    } else if k == 7 {
        seq![x, l]
    } else if k == 8 {
        seq![x]
    } else if k == 9 {
        seq![i, x]
    } else if k == 10 {
        seq![v]
    } else if k == 11 {
        seq![i, v]
    } else {
        seq![i]
    }
}

/// Greedy roman numeral of `n` from table entry `k` on.
pub open spec fn roman_from(n: nat, k: nat, upper: bool) -> Seq<u8>
    decreases 13 - k, n,
{
    if k >= 13 {
        Seq::empty()
    } else if n >= roman_value(k as int) {
        roman_piece(k as int, upper) + roman_from((n - roman_value(k as int)) as nat, k, upper)
    } else {
        roman_from(n, k + 1, upper)
    }
}

pub open spec fn roman_bytes(n: nat, upper: bool) -> Seq<u8> {
    roman_from(n, 0, upper)
}

/// The number `n` in a numbering scheme, followed by a period.
pub open spec fn number_bytes(n: nat, style: Number) -> Seq<u8> {
    let digits = match style {
        Number::Arabic => decimal_bytes(n),
        Number::LowerAlpha => alpha_bytes(n, lower_a()),
        Number::UpperAlpha => alpha_bytes(n, upper_a()),
        Number::LowerRoman => roman_bytes(n, false),
        Number::UpperRoman => roman_bytes(n, true),
    };
    digits.push(0x2e)
}

/// The marker shown before a list item.
pub open spec fn marker_of(list: List, ordinal: nat) -> Seq<char> {
    match list {
        List::Bullet(Bullet::Disc) => "\u{2022}"@,
        List::Bullet(Bullet::Circle) => "\u{25E6}"@,
        List::Bullet(Bullet::Square) => "\u{25AA}"@,
        List::Bullet(Bullet::Custom(c)) => seq![c],
        List::Ordered(number) => ascii_chars(number_bytes(ordinal, number)),
    }
}

/// Ordinal of an item at `level`, looking back over the `i` paragraphs
/// before it: each earlier item at the same level counts, deeper items are
/// passed over, and the run stops at a shallower paragraph or a non-list one.
pub open spec fn ordinal_back(styles: Seq<Style>, level: u8, i: int) -> int
    decreases i,
{
    if i <= 0 {
        1
    } else {
        let prev = styles[i - 1];
        if prev.level < level || prev.list is None {
            1
        } else if prev.level == level {
            1 + ordinal_back(styles, level, i - 1)
        } else {
            ordinal_back(styles, level, i - 1)
        }
    }
}

proof fn lemma_alpha_ascii(n: nat, base: u8)
    requires
        base == lower_a() || base == upper_a(),
    ensures
        all_ascii(alpha_bytes(n, base)),
    decreases n,
{
    if n > 0 {
        lemma_alpha_ascii(((n - 1) / 26) as nat, base);
    }
}

proof fn lemma_roman_ascii(n: nat, k: nat, upper: bool)
    ensures
        all_ascii(roman_from(n, k, upper)),
    decreases 13 - k, n,
{
    if k < 13 {
        if n >= roman_value(k as int) {
            lemma_roman_ascii((n - roman_value(k as int)) as nat, k, upper);
        } else {
            lemma_roman_ascii(n, k + 1, upper);
        }
    }
}

fn push_alpha(out: &mut Vec<u8>, n: usize, base: u8)
    requires
        base == 0x61 || base == 0x41,
    ensures
        final(out)@ == old(out)@ + alpha_bytes(n as nat, base),
    decreases n,
{
    if n > 0 {
        let remaining = n - 1;
        push_alpha(out, remaining / 26, base);
        out.push(base + (remaining % 26) as u8);
        assert(final(out)@ =~= old(out)@ + alpha_bytes(n as nat, base));
    } else {
        assert(final(out)@ =~= old(out)@ + alpha_bytes(n as nat, base));
    }
}

/// The `n`-th letter numeral: 1 is "a", 26 is "z", 27 is "aa".
pub fn nth_alpha(n: usize, upper: bool) -> (s: String)
    ensures
        s@ == ascii_chars(alpha_bytes(n as nat, alpha_base(upper))),
{
    if n == 0 {
        return ascii_string(Vec::new());
    }
    let base: u8 = if upper {
        0x41
    } else {
        0x61
    };
    let mut result: Vec<u8> = Vec::new();
    push_alpha(&mut result, n, base);
    proof {
        lemma_alpha_ascii(n as nat, base);
        assert(result@ =~= alpha_bytes(n as nat, base));
    }
    ascii_string(result)
}

fn roman_letter(lower: u8, upper: bool) -> (b: u8)
    requires
        0x61 <= lower <= 0x7a,
    ensures
        b == letter(lower, upper),
{
    if upper {
        lower - 32
    } else {
        lower
    }
}

/// The value and numeral of the `k`-th entry of the roman table.
fn roman_entry(k: usize, upper: bool) -> (e: (usize, Vec<u8>))
    requires
        k < 13,
    ensures
        e.0 as int == roman_value(k as int),
        e.1@ == roman_piece(k as int, upper),
{
    let m = roman_letter(0x6d, upper);
    let d = roman_letter(0x64, upper);
    let c = roman_letter(0x63, upper);
    let l = roman_letter(0x6c, upper);
    let x = roman_letter(0x78, upper);
    let v = roman_letter(0x76, upper);
    let i = roman_letter(0x69, upper);
    let mut piece: Vec<u8> = Vec::new();
    let value: usize = if k == 0 {
        piece.push(m);
        1000
    } else if k == 1 {
        piece.push(c);
        piece.push(m);
        900
    } else if k == 2 {
        piece.push(d);
        500
    } else if k == 3 {
        piece.push(c);
        piece.push(d);
        400
    } else if k == 4 {
        piece.push(c);
        100
    } else if k == 5 {
        piece.push(x);
        piece.push(c);
        90
    } else if k == 6 {
        piece.push(l);
        50
    } else if k == 7 {
        piece.push(x);
        piece.push(l);
        40
    } else if k == 8 {
        piece.push(x);
        10
    } else if k == 9 {
        piece.push(i);
        piece.push(x);
        9
    } else if k == 10 {
        piece.push(v);
        5
    } else if k == 11 {
        piece.push(i);
        piece.push(v);
        4
    } else {
        piece.push(i);
        1
    };
    assert(piece@ =~= roman_piece(k as int, upper));
    (value, piece)
}

/// Appends the greedy roman numeral of `n`.
fn push_roman(result: &mut Vec<u8>, n: usize, upper: bool)
    ensures
        final(result)@ == old(result)@ + roman_bytes(n as nat, upper),
{
    let ghost start = result@;
    let mut remaining = n;
    let mut k: usize = 0;
    assert(start + roman_from(n as nat, 0, upper) =~= start + roman_bytes(n as nat, upper));
    while k < 13
        invariant
            k <= 13,
            result@ + roman_from(remaining as nat, k as nat, upper) == start + roman_bytes(
                n as nat,
                upper,
            ),
        decreases 13 - k,
    {
        let (val, piece) = roman_entry(k, upper);
        while remaining >= val
            invariant
                k < 13,
                val as int == roman_value(k as int),
                piece@ == roman_piece(k as int, upper),
                result@ + roman_from(remaining as nat, k as nat, upper) == start + roman_bytes(
                    n as nat,
                    upper,
                ),
            decreases remaining,
        {
            let ghost before = result@;
            let mut j: usize = 0;
            while j < piece.len()
                invariant
                    j <= piece@.len(),
                    result@ == before + piece@.take(j as int),
                decreases piece@.len() - j,
            {
                result.push(piece[j]);
                j += 1;
                assert(result@ =~= before + piece@.take(j as int));
            }
            assert(piece@.take(j as int) =~= piece@);
            assert(before + roman_from(remaining as nat, k as nat, upper) =~= result@ + roman_from(
                (remaining - val) as nat,
                k as nat,
                upper,
            ));
            remaining -= val;
        }
        assert(roman_from(remaining as nat, k as nat, upper) == roman_from(
            remaining as nat,
            (k + 1) as nat,
            upper,
        ));
        k += 1;
    }
    assert(result@ =~= start + roman_bytes(n as nat, upper));
}

/// The roman numeral of `n` (greedy over m, cm, d, cd, c, xc, l, xl, x, ix,
/// v, iv, i).
pub fn to_roman(n: usize, upper: bool) -> (s: String)
    ensures
        s@ == ascii_chars(roman_bytes(n as nat, upper)),
{
    let mut result: Vec<u8> = Vec::new();
    push_roman(&mut result, n, upper);
    proof {
        lemma_roman_ascii(n as nat, 0, upper);
        assert(result@ =~= roman_bytes(n as nat, upper));
    }
    ascii_string(result)
}

fn format_number(n: usize, style: &Number) -> (s: String)
    ensures
        s@ == ascii_chars(number_bytes(n as nat, *style)),
{
    let mut out: Vec<u8> = Vec::new();
    match style {
        Number::Arabic => push_decimal(&mut out, n),
        Number::LowerAlpha => push_alpha(&mut out, n, 0x61),
        Number::UpperAlpha => push_alpha(&mut out, n, 0x41),
        Number::LowerRoman => push_roman(&mut out, n, false),
        Number::UpperRoman => push_roman(&mut out, n, true),
    }
    out.push(0x2e);
    proof {
        lemma_decimal_bytes_ascii(n as nat);
        lemma_alpha_ascii(n as nat, 0x61);
        lemma_alpha_ascii(n as nat, 0x41);
        lemma_roman_ascii(n as nat, 0, false);
        lemma_roman_ascii(n as nat, 0, true);
        assert(out@ =~= number_bytes(n as nat, *style));
        assert(all_ascii(out@));
    }
    ascii_string(out)
}

/// Returns the marker string for a list item.
pub fn marker_text(list: &List, ordinal: usize) -> (s: String)
    ensures
        s@ == marker_of(*list, ordinal as nat),
{
    match list {
        List::Bullet(bullet) => match bullet {
            Bullet::Disc => "\u{2022}".to_owned(),
            Bullet::Circle => "\u{25E6}".to_owned(),
            Bullet::Square => "\u{25AA}".to_owned(),
            Bullet::Custom(c) => char_string(*c),
        },
        List::Ordered(number) => format_number(ordinal, number),
    }
}

/// Count the ordinal position of `line` among consecutive list items at the
/// same level.
pub fn count_ordinal(paragraph_styles: &[Style], line: usize) -> (ordinal: usize)
    requires
        line < paragraph_styles@.len(),
    ensures
        ordinal == ordinal_back(paragraph_styles@, paragraph_styles@[line as int].level, line as int),
{
    let style = &paragraph_styles[line];
    let level = style.level;
    let ghost s = paragraph_styles@;
    let mut ordinal: usize = 1;
    let mut i = line;
    while i > 0
        invariant
            i <= line < s.len(),
            s == paragraph_styles@,
            level == s[line as int].level,
            1 <= ordinal <= line - i + 1,
            ordinal - 1 + ordinal_back(s, level, i as int) == ordinal_back(s, level, line as int),
        decreases i,
    {
        i -= 1;
        let prev = &paragraph_styles[i];
        if prev.level < level || prev.list.is_none() {
            return ordinal;
        }
        if prev.level == level {
            ordinal += 1;
        }
    }
    ordinal
}

} // verus!

verus! {

/// How many list indents a paragraph's left margin holds: one more than its
/// level for a list item, its level otherwise.
pub open spec fn indent_levels_spec(style: Style) -> int {
    if style.list is Some {
        style.level + 1
    } else {
        style.level as int
    }
}

/// How many list indents a paragraph's left margin holds.
pub fn indent_levels(style: &Style) -> (n: u32)
    ensures
        n == indent_levels_spec(*style),
{
    match style.list {
        Some(_) => style.level as u32 + 1,
        None => style.level as u32,
    }
}

} // verus!

verus! {

/// The value of a roman letter, in either case (0 for any other byte).
pub open spec fn roman_letter_value(b: u8) -> int {
    if b == 0x69 || b == 0x49 {
        1
    } else if b == 0x76 || b == 0x56 {
        5
    } else if b == 0x78 || b == 0x58 {
        10
    } else if b == 0x6c || b == 0x4c {
        50
    } else if b == 0x63 || b == 0x43 {
        100
    } else if b == 0x64 || b == 0x44 {
        500
    } else if b == 0x6d || b == 0x4d {
        1000
    } else {
        0
    }
}

/// The number a roman numeral denotes, read from the left: a letter
/// followed by a greater one counts as their difference, any other letter
/// counts as its value.
pub open spec fn roman_decode(s: Seq<u8>) -> int
    decreases s.len(),
{
    if s.len() == 0 {
        0
    } else if s.len() >= 2 && roman_letter_value(s[0]) < roman_letter_value(s[1]) {
        roman_letter_value(s[1]) - roman_letter_value(s[0]) + roman_decode(s.skip(2))
    } else {
        roman_letter_value(s[0]) + roman_decode(s.skip(1))
    }
}

/// The greatest value a numeral built from table entries `k` on can start
/// with.
spec fn first_bound(k: int) -> int {
    if k == 0 {
        1000
    } else if k <= 2 {
        500
    } else if k <= 4 {
        100
    } else if k <= 6 {
        50
    } else if k <= 8 {
        10
    } else if k <= 10 {
        5
    } else {
        1
    }
}

/// The value of the last letter of table entry `k`.
spec fn last_value(k: int) -> int {
    if k <= 1 {
        1000
    } else if k <= 3 {
        500
    } else if k <= 5 {
        100
    } else if k <= 7 {
        50
    } else if k <= 9 {
        10
    } else if k <= 11 {
        5
    } else {
        1
    }
}

/// A table entry read in front of a numeral that starts no higher than its
/// last letter adds its value.
proof fn lemma_piece_decode(k: int, upper: bool, rest: Seq<u8>)
    requires
        0 <= k < 13,
        rest.len() == 0 || roman_letter_value(rest[0]) <= last_value(k),
    ensures
        roman_decode(roman_piece(k, upper) + rest) == roman_value(k) + roman_decode(rest),
        roman_piece(k, upper).len() > 0,
        roman_letter_value(roman_piece(k, upper)[0]) <= first_bound(k),
        first_bound(k) <= last_value(k),
        k + 1 < 13 ==> first_bound(k + 1) <= first_bound(k),
{
    let p = roman_piece(k, upper);
    let s = p + rest;
    if p.len() == 1 {
        assert(s.skip(1) =~= rest);
        if s.len() >= 2 {
            assert(s[1] == rest[0]);
        }
    } else {
        assert(p.len() == 2);
        assert(s.skip(2) =~= rest);
    }
}

/// A greedy numeral from table entry `k` on starts no higher than the
/// bound of that entry.
proof fn lemma_roman_from_first(n: nat, k: nat, upper: bool)
    requires
        k < 13,
    ensures
        roman_from(n, k, upper).len() > 0 ==> roman_letter_value(roman_from(n, k, upper)[0]) <= first_bound(
            k as int,
        ),
    decreases 13 - k, n,
{
    lemma_piece_decode(k as int, upper, Seq::empty());
    if n >= roman_value(k as int) {
        let p = roman_piece(k as int, upper);
        assert(roman_from(n, k, upper) == p + roman_from((n - roman_value(k as int)) as nat, k, upper));
        assert((p + roman_from((n - roman_value(k as int)) as nat, k, upper))[0] == p[0]);
    } else if k + 1 < 13 {
        assert(roman_from(n, k, upper) == roman_from(n, k + 1, upper));
        lemma_roman_from_first(n, k + 1, upper);
    } else {
        assert(roman_from(n, k, upper) == roman_from(n, k + 1, upper));
        assert(roman_from(n, k + 1, upper).len() == 0);
    }
}

proof fn lemma_roman_from_decode(n: nat, k: nat, upper: bool)
    requires
        k < 13,
    ensures
        roman_decode(roman_from(n, k, upper)) == n,
    decreases 13 - k, n,
{
    let v = roman_value(k as int);
    if n >= v {
        let rest = roman_from((n - v) as nat, k, upper);
        lemma_roman_from_decode((n - v) as nat, k, upper);
        lemma_roman_from_first((n - v) as nat, k, upper);
        lemma_piece_decode(k as int, upper, rest);
    } else if k + 1 < 13 {
        lemma_roman_from_decode(n, k + 1, upper);
    } else {
        assert(roman_from(n, k + 1, upper) == Seq::<u8>::empty());
    }
}

/// Every entry of the roman table is the numeral of its value.
pub proof fn lemma_roman_table(k: int, upper: bool)
    requires
        0 <= k < 13,
    ensures
        roman_decode(roman_piece(k, upper)) == roman_value(k),
{
    lemma_piece_decode(k, upper, Seq::empty());
    assert(roman_piece(k, upper) + Seq::<u8>::empty() =~= roman_piece(k, upper));
}

/// The roman numeral of a number, in either case, denotes that number.
pub proof fn lemma_roman_denotes(n: nat, upper: bool)
    ensures
        roman_decode(roman_bytes(n, upper)) == n,
{
    lemma_roman_from_decode(n, 0, upper);
}

} // verus!
