//! Facts that connect a text, seen as a sequence of characters, with its
//! UTF-8 bytes. The scanners search bytes and cut string slices at byte
//! offsets; their contracts speak of characters. These lemmas carry a fact
//! from one side to the other.
use vstd::prelude::*;
use vstd::utf8::*;
use crate::text::occurs_at;

verus! {

/// Number of bytes that the UTF-8 encoding of `c` takes.
pub open spec fn char_width(c: char) -> int {
    encode_scalar(c as u32).len() as int
}

/// Number of bytes that the UTF-8 encoding of `s` takes.
pub open spec fn byte_len(s: Seq<char>) -> int {
    encode_utf8(s).len() as int
}

/// Every character takes between one and four bytes, by its code point.
pub proof fn lemma_char_width(c: char)
    ensures
        1 <= char_width(c) <= 4,
        c <= '\u{7f}' <==> char_width(c) == 1,
        '\u{80}' <= c <= '\u{7ff}' <==> char_width(c) == 2,
        '\u{800}' <= c <= '\u{ffff}' <==> char_width(c) == 3,
        '\u{10000}' <= c <==> char_width(c) == 4,
{
    char_is_scalar(c);
}

/// The encoding of a one-byte character is the character's own code.
pub proof fn lemma_encode_ascii(c: char)
    requires
        c <= '\u{7f}',
    ensures
        encode_utf8(seq![c]) == seq![c as u8],
{
    let v = c as u32;
    assert(v as u8 == leading_byte_width_1(v)) by (bit_vector)
        requires
            has_width_1_encoding(v),
    ;
    lemma_encode_single(c);
}

/// The encoding of a one-character text is that character's encoding.
pub proof fn lemma_encode_single(c: char)
    ensures
        encode_utf8(seq![c]) == encode_scalar(c as u32),
{
    let s = seq![c];
    assert(s.drop_first() =~= Seq::<char>::empty());
    reveal_with_fuel(encode_utf8, 2);
    assert(encode_utf8(s) =~= encode_scalar(c as u32));
}

/// Encoding distributes over concatenation.
pub proof fn lemma_encode_concat(a: Seq<char>, b: Seq<char>)
    ensures
        encode_utf8(a + b) == encode_utf8(a) + encode_utf8(b),
    decreases a.len(),
{
    if a.len() == 0 {
        assert(a + b =~= b);
        assert(encode_utf8(a) + encode_utf8(b) =~= encode_utf8(b));
    } else {
        lemma_encode_concat(a.drop_first(), b);
        assert((a + b).drop_first() =~= a.drop_first() + b);
        assert(encode_utf8(a + b) =~= encode_utf8(a) + encode_utf8(b));
    }
}

/// A text takes at least one byte for each of its characters.
pub proof fn lemma_byte_len_bounds(s: Seq<char>)
    ensures
        s.len() <= byte_len(s),
    decreases s.len(),
{
    if s.len() > 0 {
        lemma_char_width(s[0]);
        lemma_byte_len_bounds(s.drop_first());
    }
}

/// Two texts with the same bytes are the same text.
pub proof fn lemma_encode_injective(a: Seq<char>, b: Seq<char>)
    requires
        encode_utf8(a) == encode_utf8(b),
    ensures
        a == b,
{
    encode_utf8_decode_utf8(a);
    encode_utf8_decode_utf8(b);
}

/// The byte offset at which a prefix of a text ends falls between two
/// characters.
pub proof fn lemma_prefix_boundary(a: Seq<char>, b: Seq<char>)
    ensures
        is_char_boundary(encode_utf8(a + b), byte_len(a)),
    decreases a.len(),
{
    let bytes = encode_utf8(a + b);
    encode_utf8_valid_utf8(a + b);
    if a.len() > 0 {
        let rest = a.drop_first();
        lemma_char_width(a[0]);
        lemma_encode_concat(a, b);
        encode_utf8_first_scalar(a + b);
        assert((a + b).drop_first() =~= rest + b);
        assert(pop_first_scalar(bytes) =~= encode_utf8(rest + b));
        lemma_prefix_boundary(rest, b);
        assert(byte_len(a) == char_width(a[0]) + byte_len(rest));
    }
}

/// Cutting the bytes of a text where a prefix ends leaves the bytes of the
/// prefix and the bytes of what follows it.
pub proof fn lemma_cut_at_prefix(s: Seq<char>, k: int)
    requires
        0 <= k <= s.len(),
    ensures
        is_char_boundary(encode_utf8(s), byte_len(s.take(k))),
        byte_len(s.take(k)) <= byte_len(s),
        encode_utf8(s).subrange(0, byte_len(s.take(k))) == encode_utf8(s.take(k)),
        encode_utf8(s).subrange(byte_len(s.take(k)), byte_len(s)) == encode_utf8(s.skip(k)),
{
    let a = s.take(k);
    let b = s.skip(k);
    assert(a + b =~= s);
    lemma_prefix_boundary(a, b);
    lemma_encode_concat(a, b);
    assert(encode_utf8(s).subrange(0, byte_len(a)) =~= encode_utf8(a));
    assert(encode_utf8(s).subrange(byte_len(a), byte_len(s)) =~= encode_utf8(b));
}

/// A text whose bytes begin with the bytes of another text begins with
/// that text.
pub proof fn lemma_prefix_of_bytes(n: Seq<char>, r: Seq<char>)
    requires
        encode_utf8(n).is_prefix_of(encode_utf8(r)),
    ensures
        n.is_prefix_of(r),
    decreases n.len(),
{
    if n.len() > 0 {
        let nb = encode_utf8(n);
        let rb = encode_utf8(r);
        lemma_char_width(n[0]);
        assert(nb.len() > 0);
        assert(r.len() > 0);
        lemma_char_width(r[0]);
        encode_utf8_first_scalar(n);
        encode_utf8_first_scalar(r);
        let w = length_of_first_scalar(nb);
        assert(nb[0] == rb[0]);
        assert(length_of_first_scalar(rb) == w);
        assert(w <= nb.len());
        assert(forall|i: int| 0 <= i < w ==> nb[i] == rb[i]);
        assert(decode_first_scalar(nb) == decode_first_scalar(rb));
        assert(n[0] == r[0]) by {
            char_u32_cast(n[0], decode_first_scalar(nb));
            char_u32_cast(r[0], decode_first_scalar(rb));
        }
        assert(nb.subrange(w, nb.len() as int) =~= encode_utf8(n.drop_first()));
        assert(rb.subrange(w, rb.len() as int) =~= encode_utf8(r.drop_first()));
        assert(encode_utf8(n.drop_first()).is_prefix_of(encode_utf8(r.drop_first())));
        lemma_prefix_of_bytes(n.drop_first(), r.drop_first());
        assert(n.is_prefix_of(r)) by {
            assert(n =~= seq![n[0]] + n.drop_first());
            assert(r =~= seq![r[0]] + r.drop_first());
        }
    }
}

/// The first byte of a text's encoding never continues a character.
pub proof fn lemma_first_byte_leads(s: Seq<char>)
    requires
        s.len() > 0,
    ensures
        byte_len(s) > 0,
        !is_continuation_byte(encode_utf8(s)[0]),
{
    lemma_char_width(s[0]);
    encode_utf8_first_scalar(s);
}

/// A longer prefix takes more bytes.
pub proof fn lemma_byte_len_increases(s: Seq<char>, i: int, j: int)
    requires
        0 <= i < j <= s.len(),
    ensures
        byte_len(s.take(i)) < byte_len(s.take(j)),
{
    let mid = s.subrange(i, j);
    assert(s.take(j) =~= s.take(i) + mid);
    lemma_encode_concat(s.take(i), mid);
    lemma_byte_len_bounds(mid);
}

/// Where a needle stands in a text, its bytes stand in the text's bytes,
/// at the offset where the text before it ends.
pub proof fn lemma_occurrence_in_bytes(s: Seq<char>, needle: Seq<char>, k: int)
    requires
        occurs_at(s, needle, k),
    ensures
        occurs_at(encode_utf8(s), encode_utf8(needle), byte_len(s.take(k))),
{
    let head = s.take(k);
    let tail = s.skip(k + needle.len());
    assert(s =~= head + needle + tail);
    lemma_encode_concat(head + needle, tail);
    lemma_encode_concat(head, needle);
    let b = byte_len(head);
    assert(encode_utf8(s).subrange(b, b + byte_len(needle)) =~= encode_utf8(needle));
}

/// A one-byte character and its code stand for each other.
pub proof fn lemma_ascii_code(c: char)
    requires
        c <= '\u{7f}',
    ensures
        c as u8 <= 0x7f,
        (c as u8) as char == c,
{
}

/// The encoding of a character of more than one byte ends with a byte that
/// is no one-byte character's code.
pub proof fn lemma_wide_char_ends_high(c: char)
    requires
        c > '\u{7f}',
    ensures
        encode_scalar(c as u32).last() >= 0x80,
{
    let v = c as u32;
    assert(0x80 | (v & 0x3F) as u8 >= 0x80) by (bit_vector);
}

/// The last byte of a text's encoding is its last character, where that
/// is a one-byte character, and no one-byte character's code otherwise.
pub proof fn lemma_last_byte(s: Seq<char>)
    requires
        s.len() > 0,
    ensures
        byte_len(s) == byte_len(s.drop_last()) + char_width(s.last()),
        s.last() <= '\u{7f}' ==> encode_utf8(s).last() as char == s.last(),
        s.last() > '\u{7f}' ==> encode_utf8(s).last() >= 0x80,
{
    let c = s.last();
    assert(s =~= s.drop_last() + seq![c]);
    lemma_encode_concat(s.drop_last(), seq![c]);
    lemma_encode_single(c);
    lemma_char_width(c);
    if c <= '\u{7f}' {
        lemma_encode_ascii(c);
        lemma_ascii_code(c);
    } else {
        lemma_wide_char_ends_high(c);
    }
}

} // verus!
