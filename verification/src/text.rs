//! Text measured and cut in bytes of UTF-8.

use vstd::prelude::*;
use vstd::utf8::*;

verus! {

/// How many bytes the text takes in UTF-8.
pub open spec fn utf8_len(s: Seq<char>) -> nat {
    encode_utf8(s).len()
}

/// The text cut after its first `n` bytes of UTF-8: what stands before the
/// cut and what stands after it. There is no such cut where the text has
/// fewer than `n` bytes, or where the `n`-th byte falls inside a character.
pub open spec fn split_at_byte(s: Seq<char>, n: nat) -> Option<(Seq<char>, Seq<char>)> {
    let bytes = encode_utf8(s);
    if n <= bytes.len() && is_char_boundary(bytes, n as int) {
        Some(
            (
                decode_utf8(bytes.subrange(0, n as int)),
                decode_utf8(bytes.subrange(n as int, bytes.len() as int)),
            ),
        )
    } else {
        None
    }
}

/// The bytes of two texts in a row are the bytes of the first, then those
/// of the second.
pub proof fn lemma_utf8_concat(a: Seq<char>, b: Seq<char>)
    ensures
        encode_utf8(a + b) == encode_utf8(a) + encode_utf8(b),
    decreases a.len(),
{
    if a.len() == 0 {
        assert(a + b =~= b);
        assert(encode_utf8(a) + encode_utf8(b) =~= encode_utf8(b));
    } else {
        lemma_utf8_concat(a.drop_first(), b);
        assert((a + b).drop_first() =~= a.drop_first() + b);
        assert(encode_utf8(a + b) =~= encode_utf8(a) + encode_utf8(b));
    }
}

/// The end of a first text is a place between two characters of the two
/// texts in a row.
proof fn lemma_boundary_after_prefix(a: Seq<char>, b: Seq<char>)
    ensures
        is_char_boundary(encode_utf8(a + b), encode_utf8(a).len() as int),
    decreases a.len(),
{
    let s = a + b;
    let bytes = encode_utf8(s);
    encode_utf8_valid_utf8(s);
    if a.len() > 0 {
        lemma_boundary_after_prefix(a.drop_first(), b);
        assert(s.drop_first() =~= a.drop_first() + b);
        encode_utf8_first_scalar(s);
        assert(pop_first_scalar(bytes) =~= encode_utf8(s.drop_first()));
        assert(s[0] == a[0]);
        assert(encode_utf8(a).len() == encode_scalar(a[0] as u32).len() + encode_utf8(
            a.drop_first(),
        ).len());
    }
}

/// A cut after the bytes of a first text gives back the first text and the
/// second.
pub proof fn lemma_split_at_byte_concat(a: Seq<char>, b: Seq<char>)
    ensures
        split_at_byte(a + b, utf8_len(a)) == Some((a, b)),
{
    let bytes = encode_utf8(a + b);
    let n = utf8_len(a) as int;
    lemma_utf8_concat(a, b);
    lemma_boundary_after_prefix(a, b);
    assert(bytes.subrange(0, n) =~= encode_utf8(a));
    assert(bytes.subrange(n, bytes.len() as int) =~= encode_utf8(b));
    encode_utf8_decode_utf8(a);
    encode_utf8_decode_utf8(b);
}

/// The two parts of a cut make up the text, and the first has `n` bytes.
pub proof fn lemma_split_at_byte_parts(s: Seq<char>, n: nat)
    requires
        split_at_byte(s, n) is Some,
    ensures
        ({
            let (a, b) = split_at_byte(s, n)->0;
            &&& a + b == s
            &&& utf8_len(a) == n
        }),
{
    let bytes = encode_utf8(s);
    let (a, b) = split_at_byte(s, n)->0;
    encode_utf8_valid_utf8(s);
    valid_utf8_split(bytes, n as int);
    decode_utf8_split(bytes, n as int);
    encode_utf8_decode_utf8(s);
    decode_utf8_encode_utf8(bytes.subrange(0, n as int));
}

} // verus!
