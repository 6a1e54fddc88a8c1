//! Byte-level text helpers shared by the parsers.

use vstd::prelude::*;
use vstd::utf8::*;

verus! {

/// `String::from_utf8`: the bytes become a string exactly when they are
/// valid UTF-8, and the string then holds the characters they encode.
#[verifier::external_body]
pub(crate) fn string_from_utf8(bytes: Vec<u8>) -> (s: Option<String>)
    ensures
        s is Some <==> valid_utf8(bytes@),
        s matches Some(t) ==> t@ == decode_utf8(bytes@),
{
    match String::from_utf8(bytes) {
        Ok(t) => Some(t),
        Err(_) => None,
    }
}

/// An ASCII byte.
pub open spec fn is_ascii_byte(b: u8) -> bool {
    b <= 0x7f
}

/// Removing an ASCII byte from valid UTF-8 leaves valid UTF-8 on both sides
/// and in their concatenation.
pub proof fn lemma_remove_ascii_byte(x: Seq<u8>, a: u8, y: Seq<u8>)
    requires
        valid_utf8(x + seq![a] + y),
        is_ascii_byte(a),
    ensures
        valid_utf8(x),
        valid_utf8(y),
        valid_utf8(x + y),
{
    let z = x + seq![a] + y;
    assert(z[x.len() as int] == a);
    is_char_boundary_iff_not_is_continuation_byte(z, x.len() as int);
    valid_utf8_split(z, x.len() as int);
    assert(z.subrange(0, x.len() as int) =~= x);
    let tail = z.subrange(x.len() as int, z.len() as int);
    assert(tail =~= seq![a] + y);
    assert(valid_utf8(tail));
    assert(is_leading_byte_width_1(tail[0]));
    assert(pop_first_scalar(tail) =~= y);
    valid_utf8_concat(x, y);
}

/// Removing a run of ASCII bytes from valid UTF-8 leaves valid UTF-8.
pub proof fn lemma_remove_ascii_run(x: Seq<u8>, m: Seq<u8>, y: Seq<u8>)
    requires
        valid_utf8(x + m + y),
        forall|i: int| 0 <= i < m.len() ==> is_ascii_byte(#[trigger] m[i]),
    ensures
        valid_utf8(x + y),
    decreases m.len(),
{
    if m.len() > 0 {
        let rest = m.drop_first();
        assert(x + m + y =~= x + seq![m[0]] + (rest + y));
        lemma_remove_ascii_byte(x, m[0], rest + y);
        assert(x + (rest + y) =~= x + rest + y);
        lemma_remove_ascii_run(x, rest, y);
    } else {
        assert(x + m + y =~= x + y);
    }
}

/// A sequence of ASCII bytes is valid UTF-8.
pub proof fn lemma_ascii_valid(b: Seq<u8>)
    requires
        forall|i: int| 0 <= i < b.len() ==> is_ascii_byte(#[trigger] b[i]),
    ensures
        valid_utf8(b),
{
    assert(b.subrange(0, 0) =~= Seq::<u8>::empty());
    assert(partial_valid_utf8(b, 0));
    partial_valid_utf8_extend_ascii_block(b, 0, b.len() as int);
    assert(b.subrange(0, b.len() as int) =~= b);
}

} // verus!

verus! {

/// The characters of ASCII bytes.
pub open spec fn ascii_chars(b: Seq<u8>) -> Seq<char> {
    b.map_values(|x: u8| x as char)
}

pub open spec fn all_ascii(b: Seq<u8>) -> bool {
    forall|i: int| 0 <= i < b.len() ==> is_ascii_byte(#[trigger] b[i])
}

proof fn lemma_ascii_byte_value(x: u8)
    by (bit_vector)
    requires
        x <= 0x7f,
    ensures
        (x & 0x7F) as u32 == x as u32,
{
}

/// ASCII bytes decode to the characters with the same code.
pub proof fn lemma_decode_ascii(b: Seq<u8>)
    requires
        all_ascii(b),
    ensures
        valid_utf8(b),
        decode_utf8(b) == ascii_chars(b),
    decreases b.len(),
{
    lemma_ascii_valid(b);
    if b.len() > 0 {
        let rest = b.drop_first();
        assert(all_ascii(rest)) by {
            assert forall|i: int| 0 <= i < rest.len() implies is_ascii_byte(#[trigger] rest[i]) by {
                assert(rest[i] == b[i + 1]);
            }
        }
        lemma_decode_ascii(rest);
        assert(is_ascii_byte(b[0]));
        lemma_ascii_byte_value(b[0]);
        assert(pop_first_scalar(b) =~= rest);
        assert(decode_utf8(b) =~= ascii_chars(b));
    } else {
        assert(decode_utf8(b) =~= ascii_chars(b));
    }
}

/// A string of ASCII bytes.
pub(crate) fn ascii_string(bytes: Vec<u8>) -> (s: String)
    requires
        all_ascii(bytes@),
    ensures
        s@ == ascii_chars(bytes@),
{
    proof {
        lemma_decode_ascii(bytes@);
    }
    string_from_utf8(bytes).unwrap()
}

pub open spec fn digit_byte(d: int) -> u8 {
    (0x30 + d) as u8
}

/// Decimal digits of `n`, most significant first.
pub open spec fn decimal_bytes(n: nat) -> Seq<u8>
    decreases n,
{
    if n < 10 {
        seq![digit_byte(n as int)]
    } else {
        decimal_bytes(n / 10).push(digit_byte((n % 10) as int))
    }
}

proof fn lemma_decimal_ascii(n: nat)
    ensures
        all_ascii(decimal_bytes(n)),
    decreases n,
{
    if n >= 10 {
        lemma_decimal_ascii(n / 10);
    }
}

/// Appends the decimal digits of `n` to `out`.
pub(crate) fn push_decimal(out: &mut Vec<u8>, n: usize)
    ensures
        final(out)@ == old(out)@ + decimal_bytes(n as nat),
    decreases n,
{
    if n >= 10 {
        push_decimal(out, n / 10);
    }
    out.push(0x30 + (n % 10) as u8);
    assert(decimal_bytes(n as nat) =~= if n < 10 {
        seq![digit_byte(n as int)]
    } else {
        decimal_bytes((n / 10) as nat).push(digit_byte((n % 10) as int))
    });
}

pub proof fn lemma_decimal_bytes_ascii(n: nat)
    ensures
        all_ascii(decimal_bytes(n)),
{
    lemma_decimal_ascii(n);
}

} // verus!

verus! {

/// `char::to_string`: the one-character string.
#[verifier::external_body]
pub(crate) fn char_string(c: char) -> (s: String)
    ensures
        s@ == seq![c],
{
    c.to_string()
}

/// Appends `src[from..to]` to `dst`.
pub(crate) fn push_bytes(dst: &mut Vec<u8>, src: &[u8], from: usize, to: usize)
    requires
        from <= to <= src@.len(),
    ensures
        final(dst)@ == old(dst)@ + src@.subrange(from as int, to as int),
{
    let mut k: usize = from;
    while k < to
        invariant
            from <= k <= to <= src@.len(),
            dst@ == old(dst)@ + src@.subrange(from as int, k as int),
        decreases to - k,
    {
        dst.push(src[k]);
        k += 1;
        assert(dst@ =~= old(dst)@ + src@.subrange(from as int, k as int));
    }
}

/// The string whose UTF-8 encoding is `bytes`.
pub(crate) fn string_of_bytes(bytes: Vec<u8>) -> (s: String)
    requires
        valid_utf8(bytes@),
    ensures
        encode_utf8(s@) == bytes@,
        bytes@.len() <= usize::MAX,
{
    let ghost b = bytes@;
    let n = bytes.len();
    let s = string_from_utf8(bytes).unwrap();
    proof {
        decode_utf8_encode_utf8(b);
    }
    s
}

} // verus!
