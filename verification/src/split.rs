//! Cutting string slices: at a byte offset, at the first occurrence of a
//! character or of a literal, and after a given beginning.
use vstd::prelude::*;
use vstd::std_specs::iter::IteratorSpec;
use vstd::string::StringSliceAdditionalSpecFns;
use vstd::utf8::*;
use crate::encoding::{
    byte_len, char_width, lemma_byte_len_bounds, lemma_byte_len_increases, lemma_char_width,
    lemma_cut_at_prefix, lemma_encode_concat, lemma_encode_injective, lemma_encode_single,
    lemma_first_byte_leads, lemma_last_byte, lemma_occurrence_in_bytes, lemma_prefix_of_bytes,
};
use crate::text::{
    first_occurrence, lemma_first_occurrence_some, lemma_occurs_at_char,
    lemma_split_on_char_absent, lemma_split_on_is, occurs_at, split_on,
};

verus! {

/// The views of the two slices of a split.
pub open spec fn pair_view(r: Option<(&str, &str)>) -> Option<(Seq<char>, Seq<char>)> {
    match r {
        Some((head, tail)) => Some((head@, tail@)),
        None => None,
    }
}

/// The view of a slice that may be absent.
pub open spec fn option_view(r: Option<&str>) -> Option<Seq<char>> {
    match r {
        Some(s) => Some(s@),
        None => None,
    }
}

/// Number of bytes that `c` takes in UTF-8.
pub(crate) fn utf8_width(c: char) -> (w: usize)
    ensures
        w == char_width(c),
{
    proof {
        lemma_char_width(c);
    }
    if c <= '\u{7f}' {
        1
    } else if c <= '\u{7ff}' {
        2
    } else if c <= '\u{ffff}' {
        3
    } else {
        4
    }
}

/// Cuts `s` at the byte offset `at`, which is where its first `k`
/// characters end.
pub(crate) fn cut<'a>(s: &'a str, at: usize, Ghost(k): Ghost<int>) -> (r: (&'a str, &'a str))
    requires
        0 <= k <= s@.len(),
        at == byte_len(s@.take(k)),
    ensures
        r.0@ == s@.take(k),
        r.1@ == s@.skip(k),
{
    proof {
        lemma_cut_at_prefix(s@, k);
    }
    let r = s.split_at(at);
    proof {
        lemma_encode_injective(r.0@, s@.take(k));
        lemma_encode_injective(r.1@, s@.skip(k));
    }
    r
}

/// Cuts `s` at a byte offset that falls between two characters.
pub(crate) fn cut_bytes<'a>(s: &'a str, at: usize) -> (r: (&'a str, &'a str))
    requires
        at <= s.spec_bytes().len(),
        is_char_boundary(s.spec_bytes(), at as int),
    ensures
        r.0@ + r.1@ == s@,
        r.0.spec_bytes() == s.spec_bytes().subrange(0, at as int),
        r.1.spec_bytes() == s.spec_bytes().subrange(at as int, s.spec_bytes().len() as int),
{
    let r = s.split_at(at);
    proof {
        lemma_encode_concat(r.0@, r.1@);
        assert(encode_utf8(r.0@) + encode_utf8(r.1@) =~= encode_utf8(s@));
        lemma_encode_injective(r.0@ + r.1@, s@);
    }
    r
}

/// The first character of `s` and what follows it; `None` for the empty
/// text.
pub(crate) fn split_first<'a>(s: &'a str) -> (r: Option<(char, &'a str)>)
    ensures
        match r {
            Some((c, rest)) => s@.len() > 0 && c == s@[0] && rest@ == s@.skip(1),
            None => s@.len() == 0,
        },
{
    let mut it = s.chars();
    match it.next() {
        Some(c) => {
            let w = utf8_width(c);
            proof {
                assert(s@.take(1) =~= seq![c]);
                lemma_encode_single(c);
            }
            let (_, rest) = cut(s, w, Ghost(1));
            Some((c, rest))
        },
        None => None,
    }
}

/// Break the input around the first `c` found.
///
/// Returns `(before, after)`. The `c` itself is in neither of them.
pub fn break_on_first_char<'a>(input: &'a str, c: char) -> (r: Option<(&'a str, &'a str)>)
    ensures
        pair_view(r) == split_on(input@, seq![c]),
{
    let total = input.as_bytes().len();
    let mut it = input.chars();
    let mut at: usize = 0;
    let ghost mut k: int = 0;
    proof {
        assert(input@.take(0) =~= Seq::<char>::empty());
        assert(input@.skip(0) =~= input@);
    }
    loop
        invariant
            0 <= k <= input@.len(),
            it.remaining() == input@.skip(k),
            at == byte_len(input@.take(k)),
            total == byte_len(input@),
            forall|j: int| 0 <= j < k ==> input@[j] != c,
        decreases input@.len() - k,
    {
        match it.next() {
            Some(d) => {
                proof {
                    assert(d == input@[k]);
                    assert(input@.skip(k).drop_first() =~= input@.skip(k + 1));
                    assert(input@.take(k + 1) =~= input@.take(k) + seq![d]);
                    lemma_encode_concat(input@.take(k), seq![d]);
                    lemma_encode_single(d);
                    lemma_cut_at_prefix(input@, k + 1);
                }
                let w = utf8_width(d);
                if d == c {
                    let (head, rest) = cut(input, at, Ghost(k));
                    proof {
                        assert(rest@.take(1) =~= seq![c]);
                    }
                    let (_, tail) = cut(rest, w, Ghost(1));
                    proof {
                        assert(input@ =~= head@ + seq![c] + tail@);
                        assert forall|j: int| 0 <= j < head@.len() implies !occurs_at(
                            input@,
                            seq![c],
                            j,
                        ) by {
                            lemma_occurs_at_char(input@, c, j);
                        }
                        lemma_split_on_is(input@, seq![c], head@, tail@);
                    }
                    return Some((head, tail));
                }
                at = at + w;
                proof {
                    k = k + 1;
                }
            },
            None => {
                proof {
                    assert(k == input@.len());
                    assert(!input@.contains(c));
                    lemma_split_on_char_absent(input@, c);
                }
                return None;
            },
        }
    }
}

/// Whether the bytes of `needle` stand in `hay` at offset `at`.
pub(crate) fn bytes_at(hay: &[u8], needle: &[u8], at: usize) -> (r: bool)
    requires
        at + needle@.len() <= hay@.len(),
    ensures
        r == occurs_at(hay@, needle@, at as int),
{
    let n = hay.len();
    let m = needle.len();
    let mut j: usize = 0;
    while j < m
        invariant
            0 <= j <= m,
            m == needle@.len(),
            n == hay@.len(),
            at + m <= hay@.len(),
            forall|i: int| 0 <= i < j ==> hay@[at + i] == needle@[i],
        decreases m - j,
    {
        if hay[at + j] != needle[j] {
            proof {
                assert(hay@.subrange(at as int, at + m)[j as int] == hay@[at + j]);
            }
            return false;
        }
        j = j + 1;
    }
    proof {
        assert(hay@.subrange(at as int, at + m) =~= needle@);
    }
    true
}

/// Whether `text` begins with `prefix`.
pub(crate) fn begins_with(text: &str, prefix: &str) -> (r: bool)
    ensures
        r == prefix@.is_prefix_of(text@),
{
    let hay = text.as_bytes();
    let nb = prefix.as_bytes();
    proof {
        if prefix@.is_prefix_of(text@) {
            assert(text@.subrange(0, prefix@.len() as int) =~= prefix@);
            assert(text@.take(0) =~= Seq::<char>::empty());
            lemma_occurrence_in_bytes(text@, prefix@, 0);
        }
    }
    if nb.len() > hay.len() {
        return false;
    }
    let r = bytes_at(hay, nb, 0);
    proof {
        if r {
            assert(nb@.is_prefix_of(hay@));
            lemma_prefix_of_bytes(prefix@, text@);
        }
    }
    r
}

/// What follows `prefix` in `text`, where `text` begins with it.
pub(crate) fn after_prefix<'a>(text: &'a str, prefix: &str) -> (r: Option<&'a str>)
    ensures
        match r {
            Some(rest) => prefix@.is_prefix_of(text@) && rest@ == text@.skip(prefix@.len() as int),
            None => !prefix@.is_prefix_of(text@),
        },
{
    if begins_with(text, prefix) {
        proof {
            assert(text@.take(prefix@.len() as int) =~= prefix@);
        }
        let (_, rest) = cut(text, prefix.as_bytes().len(), Ghost(prefix@.len() as int));
        Some(rest)
    } else {
        None
    }
}

/// What stands before the last character of `s`, where that is the
/// one-byte character `c`.
pub(crate) fn before_last<'a>(s: &'a str, c: char) -> (r: Option<&'a str>)
    requires
        c <= '\u{7f}',
    ensures
        match r {
            Some(init) => s@.len() > 0 && s@.last() == c && init@ == s@.drop_last(),
            None => s@.len() == 0 || s@.last() != c,
        },
{
    let bytes = s.as_bytes();
    let n = bytes.len();
    proof {
        lemma_byte_len_bounds(s@);
    }
    if n == 0 {
        return None;
    }
    proof {
        if s@.len() == 0 {
            assert(encode_utf8(s@).len() == 0);
        }
        lemma_last_byte(s@);
        lemma_char_width(s@.last());
    }
    if bytes[n - 1] < 0x80 && bytes[n - 1] as char == c {
        let (init, _) = cut(s, n - 1, Ghost(s@.len() - 1));
        Some(init)
    } else {
        None
    }
}

/// Whether two slices hold the same text.
pub(crate) fn same_text(a: &str, b: &str) -> (r: bool)
    ensures
        r == (a@ == b@),
{
    let x = a.as_bytes();
    let y = b.as_bytes();
    if x.len() != y.len() {
        return false;
    }
    let r = bytes_at(x, y, 0);
    proof {
        assert(x@.subrange(0, x@.len() as int) =~= x@);
        if r {
            lemma_encode_injective(a@, b@);
        }
    }
    r
}

/// Break the input around the first `needle` found.
///
/// Returns `(before, after)`. The `needle` itself is in neither of them.
pub fn break_on_first_str<'a>(input: &'a str, needle: &str) -> (r: Option<(&'a str, &'a str)>)
    ensures
        pair_view(r) == split_on(input@, needle@),
{
    let hay = input.as_bytes();
    let nb = needle.as_bytes();
    let n = hay.len();
    let m = nb.len();
    proof {
        assert forall|k: int| occurs_at(input@, needle@, k) implies occurs_at(
            hay@,
            nb@,
            byte_len(input@.take(k)),
        ) by {
            lemma_occurrence_in_bytes(input@, needle@, k);
        }
    }
    if m > n {
        proof {
            assert forall|k: int| !occurs_at(input@, needle@, k) by {}
            if first_occurrence(input@, needle@) is Some {
                lemma_first_occurrence_some(input@, needle@);
            }
        }
        return None;
    }
    let last = n - m;
    let mut i: usize = 0;
    loop
        invariant
            0 <= i <= last,
            last == n - m,
            n == hay@.len(),
            m == nb@.len(),
            hay@ == encode_utf8(input@),
            nb@ == encode_utf8(needle@),
            forall|j: int| 0 <= j < i ==> !occurs_at(hay@, nb@, j),
            forall|k: int|
                occurs_at(input@, needle@, k) ==> occurs_at(hay@, nb@, byte_len(input@.take(k))),
        decreases last - i,
    {
        if bytes_at(hay, nb, i) {
            proof {
                encode_utf8_valid_utf8(input@);
                if m > 0 {
                    lemma_byte_len_bounds(needle@);
                    if needle@.len() == 0 {
                        assert(encode_utf8(needle@).len() == 0);
                    }
                    lemma_first_byte_leads(needle@);
                    assert(hay@.subrange(i as int, i + m)[0] == hay@[i as int]);
                    assert(!is_continuation_byte(hay@[i as int]));
                    is_char_boundary_iff_not_is_continuation_byte(hay@, i as int);
                    assert(is_char_boundary(hay@, i as int));
                } else {
                    if i > 0 {
                        assert(hay@.subrange(0, 0) =~= nb@);
                        assert(occurs_at(hay@, nb@, 0));
                    }
                    assert(i == 0);
                    assert(is_char_boundary(hay@, 0));
                }
                assert(input.spec_bytes() == hay@);
            }
            let (head, rest) = cut_bytes(input, i);
            proof {
                assert(rest.spec_bytes().subrange(0, m as int) =~= hay@.subrange(i as int, i + m));
                assert(nb@.is_prefix_of(rest.spec_bytes()));
                lemma_prefix_of_bytes(needle@, rest@);
                assert(rest@.take(needle@.len() as int) =~= needle@);
            }
            let (_, tail) = cut(rest, m, Ghost(needle@.len() as int));
            proof {
                assert(rest@ =~= needle@ + tail@);
                assert(input@ =~= head@ + needle@ + tail@);
                let hl = head@.len() as int;
                assert(input@.take(hl) =~= head@);
                assert forall|j: int| 0 <= j < hl implies !occurs_at(input@, needle@, j) by {
                    if occurs_at(input@, needle@, j) {
                        lemma_byte_len_increases(input@, j, hl);
                    }
                }
                lemma_split_on_is(input@, needle@, head@, tail@);
            }
            return Some((head, tail));
        }
        if i == last {
            proof {
                assert forall|k: int| !occurs_at(input@, needle@, k) by {}
                if first_occurrence(input@, needle@) is Some {
                    lemma_first_occurrence_some(input@, needle@);
                }
            }
            return None;
        }
        i = i + 1;
    }
}

} // verus!
