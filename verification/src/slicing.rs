//! Cutting a `&str` at character positions in constant time.
//!
//! A scan over the characters of a string knows, for each position it has
//! reached, how many bytes lie before it. With that byte offset a piece of the
//! string can be borrowed without walking the string again.

use vstd::prelude::*;
use vstd::string::*;
use vstd::utf8::*;

verus! {

/// How many bytes the first `n` characters of `chars` take up in UTF-8.
pub(crate) open spec fn byte_offset(chars: Seq<char>, n: int) -> int {
    encode_utf8(chars.take(n)).len() as int
}

/// Encoding distributes over concatenation.
pub(crate) proof fn lemma_encode_concat(a: Seq<char>, b: Seq<char>)
    ensures
        encode_utf8(a + b) == encode_utf8(a) + encode_utf8(b),
    decreases a.len(),
{
    if a.len() == 0 {
        assert(a + b =~= b);
    } else {
        lemma_encode_concat(a.drop_first(), b);
        assert((a + b).drop_first() =~= a.drop_first() + b);
        assert(encode_utf8(a + b) =~= encode_utf8(a) + encode_utf8(b));
    }
}

/// The end of an encoded prefix is a character boundary of the whole encoding.
pub(crate) proof fn lemma_prefix_is_boundary(a: Seq<char>, b: Seq<char>)
    ensures
        is_char_boundary(encode_utf8(a + b), encode_utf8(a).len() as int),
    decreases a.len(),
{
    let whole = a + b;
    let bytes = encode_utf8(whole);
    encode_utf8_valid_utf8(whole);
    if a.len() != 0 {
        lemma_encode_concat(a, b);
        encode_utf8_first_scalar(whole);
        assert(whole.drop_first() =~= a.drop_first() + b);
        assert(pop_first_scalar(bytes) =~= encode_utf8(whole.drop_first()));
        lemma_prefix_is_boundary(a.drop_first(), b);
        assert(encode_utf8(a).len() == encode_scalar(a[0] as u32).len() + encode_utf8(
            a.drop_first(),
        ).len());
    }
}

/// Byte offsets grow by the width of each character and never pass the end of
/// the encoding.
pub(crate) proof fn lemma_byte_offset_step(chars: Seq<char>, n: int)
    requires
        0 <= n < chars.len(),
    ensures
        byte_offset(chars, n + 1) == byte_offset(chars, n) + encode_scalar(chars[n] as u32).len(),
        byte_offset(chars, n + 1) <= encode_utf8(chars).len(),
{
    let head = chars.take(n);
    let one = seq![chars[n]];
    assert(chars.take(n + 1) =~= head + one);
    lemma_encode_concat(head, one);
    assert(encode_utf8(one) =~= encode_scalar(chars[n] as u32)) by {
        reveal_with_fuel(encode_utf8, 2);
    }
    assert(chars =~= chars.take(n + 1) + chars.skip(n + 1));
    lemma_encode_concat(chars.take(n + 1), chars.skip(n + 1));
}

/// The number of bytes in the UTF-8 encoding of `c`.
pub(crate) fn encoded_len(c: char) -> (n: usize)
    ensures
        n == encode_scalar(c as u32).len(),
        1 <= n <= 4,
{
    let u: u32 = c as u32;
    if u < 0x80 {
        1
    } else if u < 0x800 {
        2
    } else if u < 0x10000 {
        3
    } else {
        4
    }
}

/// Borrows the characters `from..to` of `s`, given the byte offsets of both ends.
pub(crate) fn slice_between<'a>(
    s: &'a str,
    from_byte: usize,
    to_byte: usize,
    Ghost(from): Ghost<int>,
    Ghost(to): Ghost<int>,
) -> (piece: &'a str)
    requires
        0 <= from <= to <= s@.len(),
        from_byte == byte_offset(s@, from),
        to_byte == byte_offset(s@, to),
    ensures
        piece@ == s@.subrange(from, to),
{
    proof {
        assert(s@ =~= s@.take(to) + s@.skip(to));
        lemma_prefix_is_boundary(s@.take(to), s@.skip(to));
        lemma_encode_concat(s@.take(to), s@.skip(to));
    }
    let (head, _) = s.split_at(to_byte);
    proof {
        assert(head.spec_bytes() =~= encode_utf8(s@.take(to)));
        encode_utf8_decode_utf8(head@);
        encode_utf8_decode_utf8(s@.take(to));
        assert(head@ == s@.take(to));
        assert(head@.take(from) =~= s@.take(from));
        assert(head@ =~= head@.take(from) + head@.skip(from));
        lemma_prefix_is_boundary(head@.take(from), head@.skip(from));
        lemma_encode_concat(head@.take(from), head@.skip(from));
    }
    let (_, piece) = head.split_at(from_byte);
    proof {
        assert(piece.spec_bytes() =~= encode_utf8(head@.skip(from)));
        encode_utf8_decode_utf8(piece@);
        encode_utf8_decode_utf8(head@.skip(from));
        assert(head@.skip(from) =~= s@.subrange(from, to));
    }
    piece
}

} // verus!
