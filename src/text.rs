//! Strings and UTF-8 bytes: reversing text into values, and writing encoded symbols.

use vstd::prelude::*;
use vstd::string::*;
use vstd::utf8::{encode_scalar, encode_utf8};
use crate::odometer::reversed;

verus! {

broadcast use vstd::utf8::char_is_scalar;

/// Relies on String::push: the character is appended at the end.
#[verifier::external_body]
pub(crate) fn push_char(s: &mut String, c: char)
    ensures
        final(s)@ == old(s)@.push(c),
{
    s.push(c);
}

/// The characters of `s`, last one first.
pub(crate) fn reversed_chars(s: &str) -> (r: Vec<char>)
    ensures
        r@ == reversed(s@),
{
    let n = s.unicode_len();
    let mut r: Vec<char> = Vec::new();
    let mut i: usize = 0;
    while i < n
        invariant
            n == s@.len(),
            i <= n,
            r@ == reversed(s@).subrange(0, i as int),
        decreases n - i,
    {
        let c = s.get_char(n - 1 - i);
        r.push(c);
        i = i + 1;
        assert(r@ =~= reversed(s@).subrange(0, i as int));
    }
    assert(r@ =~= reversed(s@));
    r
}

/// Encoding a concatenation encodes each part.
pub proof fn lemma_encode_concat(a: Seq<char>, b: Seq<char>)
    ensures
        encode_utf8(a + b) == encode_utf8(a) + encode_utf8(b),
    decreases a.len(),
{
    if a.len() == 0 {
        assert(a + b =~= b);
        assert(encode_utf8(a) =~= Seq::<u8>::empty());
        assert(encode_utf8(a) + encode_utf8(b) =~= encode_utf8(b));
    } else {
        assert((a + b).drop_first() =~= a.drop_first() + b);
        assert((a + b)[0] == a[0]);
        lemma_encode_concat(a.drop_first(), b);
        assert(encode_utf8(a + b) =~= encode_utf8(a) + encode_utf8(b));
    }
}

/// Encoding one more character appends that character's encoding.
pub proof fn lemma_encode_push(a: Seq<char>, c: char)
    ensures
        encode_utf8(a.push(c)) == encode_utf8(a) + encode_scalar(c as u32),
{
    lemma_encode_concat(a, seq![c]);
    assert(a.push(c) =~= a + seq![c]);
    assert(seq![c].drop_first() =~= Seq::<char>::empty());
    assert(seq![c][0] == c);
    assert(encode_utf8(Seq::<char>::empty()) =~= Seq::<u8>::empty());
    assert(encode_utf8(seq![c]) =~= encode_scalar(c as u32));
}

/// The number of bytes in the UTF-8 encoding of `c`.
pub(crate) fn utf8_width(c: char) -> (n: usize)
    ensures
        n == encode_scalar(c as u32).len(),
        1 <= n <= 4,
{
    let v = c as u32;
    if v <= 0x7F {
        1
    } else if v <= 0x7FF {
        2
    } else if v <= 0xFFFF {
        3
    } else {
        4
    }
}

/// Writes the UTF-8 encoding of `c` into `buf` at `at`, leaving every other byte alone.
pub(crate) fn put_char(buf: &mut [u8], at: usize, c: char) -> (n: usize)
    requires
        at + encode_scalar(c as u32).len() <= old(buf)@.len(),
    ensures
        n == encode_scalar(c as u32).len(),
        final(buf)@ == old(buf)@.subrange(0, at as int) + encode_scalar(c as u32) + old(buf)@.subrange(
            at + n,
            old(buf)@.len() as int,
        ),
{
    let ghost b0 = buf@;
    let v = c as u32;
    let n: usize;
    if v <= 0x7F {
        buf[at] = (v & 0x7F) as u8;
        n = 1;
    } else if v <= 0x7FF {
        buf[at] = 0xC0u8 | ((v >> 6) & 0x1F) as u8;
        buf[at + 1] = 0x80u8 | (v & 0x3F) as u8;
        n = 2;
    } else if v <= 0xFFFF {
        buf[at] = 0xE0u8 | ((v >> 12) & 0x0F) as u8;
        buf[at + 1] = 0x80u8 | ((v >> 6) & 0x3F) as u8;
        buf[at + 2] = 0x80u8 | (v & 0x3F) as u8;
        n = 3;
    } else {
        buf[at] = 0xF0u8 | ((v >> 18) & 0x7) as u8;
        buf[at + 1] = 0x80u8 | ((v >> 12) & 0x3F) as u8;
        buf[at + 2] = 0x80u8 | ((v >> 6) & 0x3F) as u8;
        buf[at + 3] = 0x80u8 | (v & 0x3F) as u8;
        n = 4;
    }
    assert(buf@ =~= b0.subrange(0, at as int) + encode_scalar(c as u32) + b0.subrange(
        at + n,
        b0.len() as int,
    ));
    n
}

/// Copies `bytes` into `buf` at `at`, leaving every other byte alone.
pub(crate) fn put_bytes(buf: &mut [u8], at: usize, bytes: &[u8])
    requires
        at + bytes@.len() <= old(buf)@.len(),
    ensures
        final(buf)@ == old(buf)@.subrange(0, at as int) + bytes@ + old(buf)@.subrange(
            at + bytes@.len(),
            old(buf)@.len() as int,
        ),
{
    let ghost b0 = buf@;
    let len = buf.len();
    let mut i: usize = 0;
    while i < bytes.len()
        invariant
            len == b0.len(),
            at + bytes@.len() <= b0.len(),
            i <= bytes@.len(),
            buf@.len() == b0.len(),
            buf@ =~= b0.subrange(0, at as int) + bytes@.subrange(0, i as int) + b0.subrange(
                at + i,
                b0.len() as int,
            ),
        decreases bytes@.len() - i,
    {
        buf[at + i] = bytes[i];
        i = i + 1;
        assert(buf@ =~= b0.subrange(0, at as int) + bytes@.subrange(0, i as int) + b0.subrange(
            at + i,
            b0.len() as int,
        ));
    }
    assert(bytes@.subrange(0, i as int) =~= bytes@);
}

} // verus!
