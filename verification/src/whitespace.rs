//! White space, and trimming it from the ends of a text.
use vstd::prelude::*;
use vstd::std_specs::iter::IteratorSpec;
use vstd::string::StringSliceAdditionalSpecFns;
use crate::encoding::{byte_len, lemma_cut_at_prefix, lemma_encode_concat, lemma_encode_single};
use crate::split::{cut, utf8_width};

verus! {

/// The characters with Unicode's `White_Space` property.
pub open spec fn is_whitespace(c: char) -> bool {
    ||| '\u{9}' <= c <= '\u{d}'
    ||| c == ' '
    ||| c == '\u{85}'
    ||| c == '\u{a0}'
    ||| c == '\u{1680}'
    ||| '\u{2000}' <= c <= '\u{200a}'
    ||| c == '\u{2028}'
    ||| c == '\u{2029}'
    ||| c == '\u{202f}'
    ||| c == '\u{205f}'
    ||| c == '\u{3000}'
}

/// Every character of `s` is white space.
pub open spec fn all_whitespace(s: Seq<char>) -> bool {
    forall|i: int| 0 <= i < s.len() ==> is_whitespace(#[trigger] s[i])
}

/// `s` without the white space it begins with.
pub open spec fn trimmed_start(s: Seq<char>) -> Seq<char>
    decreases s.len(),
{
    if s.len() > 0 && is_whitespace(s[0]) {
        trimmed_start(s.drop_first())
    } else {
        s
    }
}

/// `s` without the white space it ends with.
pub open spec fn trimmed_end(s: Seq<char>) -> Seq<char>
    decreases s.len(),
{
    if s.len() > 0 && is_whitespace(s.last()) {
        trimmed_end(s.drop_last())
    } else {
        s
    }
}

/// `s` without the white space at either end.
pub open spec fn trimmed(s: Seq<char>) -> Seq<char> {
    trimmed_end(trimmed_start(s))
}

/// `s` neither begins nor ends with white space.
pub open spec fn is_trimmed(s: Seq<char>) -> bool {
    s.len() > 0 ==> !is_whitespace(s[0]) && !is_whitespace(s.last())
}

/// Trimming the start drops the first `k` characters, where those are white
/// space and the next one is not.
pub proof fn lemma_trimmed_start_is(s: Seq<char>, k: int)
    requires
        0 <= k <= s.len(),
        forall|i: int| 0 <= i < k ==> is_whitespace(#[trigger] s[i]),
        k < s.len() ==> !is_whitespace(s[k]),
    ensures
        trimmed_start(s) == s.skip(k),
    decreases k,
{
    if k == 0 {
        assert(s.skip(0) =~= s);
    } else {
        let rest = s.drop_first();
        assert forall|i: int| 0 <= i < k - 1 implies is_whitespace(#[trigger] rest[i]) by {
            assert(rest[i] == s[i + 1]);
        }
        lemma_trimmed_start_is(rest, k - 1);
        assert(rest.skip(k - 1) =~= s.skip(k));
    }
}

/// Trimming the end keeps the first `k` characters, where all after them
/// are white space and the last of them is not.
pub proof fn lemma_trimmed_end_is(s: Seq<char>, k: int)
    requires
        0 <= k <= s.len(),
        forall|i: int| k <= i < s.len() ==> is_whitespace(#[trigger] s[i]),
        k > 0 ==> !is_whitespace(s[k - 1]),
    ensures
        trimmed_end(s) == s.take(k),
    decreases s.len() - k,
{
    if k == s.len() {
        assert(s.take(k) =~= s);
    } else {
        let rest = s.drop_last();
        assert forall|i: int| k <= i < rest.len() implies is_whitespace(#[trigger] rest[i]) by {
            assert(rest[i] == s[i]);
        }
        lemma_trimmed_end_is(rest, k);
        assert(rest.take(k) =~= s.take(k));
    }
}

/// What trimming the start leaves: the end of the text, after white space
/// only, and not beginning with white space.
pub proof fn lemma_trimmed_start(s: Seq<char>)
    ensures
        trimmed_start(s).len() <= s.len(),
        trimmed_start(s) == s.skip(s.len() - trimmed_start(s).len()),
        all_whitespace(s.take(s.len() - trimmed_start(s).len())),
        trimmed_start(s).len() > 0 ==> !is_whitespace(trimmed_start(s)[0]),
    decreases s.len(),
{
    if s.len() > 0 && is_whitespace(s[0]) {
        let rest = s.drop_first();
        lemma_trimmed_start(rest);
        let t = trimmed_start(s);
        let k = s.len() - t.len();
        assert(rest.skip(rest.len() - t.len()) =~= s.skip(k));
        assert forall|i: int| 0 <= i < k implies is_whitespace(#[trigger] s.take(k)[i]) by {
            if i > 0 {
                assert(s.take(k)[i] == rest.take(k - 1)[i - 1]);
            }
        }
    } else {
        assert(s.skip(0) =~= s);
    }
}

/// What trimming the end leaves: the beginning of the text, before white
/// space only, and not ending with white space.
pub proof fn lemma_trimmed_end(s: Seq<char>)
    ensures
        trimmed_end(s).len() <= s.len(),
        trimmed_end(s) == s.take(trimmed_end(s).len() as int),
        all_whitespace(s.skip(trimmed_end(s).len() as int)),
        trimmed_end(s).len() > 0 ==> !is_whitespace(trimmed_end(s).last()),
    decreases s.len(),
{
    if s.len() > 0 && is_whitespace(s.last()) {
        let rest = s.drop_last();
        lemma_trimmed_end(rest);
        let t = trimmed_end(s);
        let k = t.len() as int;
        assert(rest.take(k) =~= s.take(k));
        assert forall|i: int| 0 <= i < s.len() - k implies is_whitespace(
            #[trigger] s.skip(k)[i],
        ) by {
            if i < rest.len() - k {
                assert(s.skip(k)[i] == rest.skip(k)[i]);
            }
        }
    } else {
        assert(s.take(s.len() as int) =~= s);
    }
}

/// A text of white space only is trimmed to nothing, and no other is.
pub proof fn lemma_trimmed_empty(s: Seq<char>)
    ensures
        trimmed(s).len() == 0 <==> all_whitespace(s),
        trimmed_start(s).len() == 0 <==> all_whitespace(s),
{
    lemma_trimmed_start(s);
    let t = trimmed_start(s);
    lemma_trimmed_end(t);
    let k = s.len() - t.len();
    if all_whitespace(s) {
        if t.len() > 0 {
            assert(t[0] == s[k]);
        }
    }
    if t.len() == 0 {
        assert(s.take(k) =~= s);
    }
    if trimmed(s).len() == 0 && t.len() > 0 {
        assert(all_whitespace(t.skip(0)));
        assert(t.skip(0)[0] == t[0]);
    }
}

/// A trimmed text is not empty where the text it came from held anything
/// but white space, and it neither begins nor ends with white space.
pub proof fn lemma_trimmed_is_trimmed(s: Seq<char>)
    ensures
        is_trimmed(trimmed(s)),
        trimmed(trimmed(s)) == trimmed(s),
{
    lemma_trimmed_start(s);
    let t = trimmed_start(s);
    lemma_trimmed_end(t);
    let r = trimmed(s);
    if r.len() > 0 {
        assert(r[0] == t[0]);
    }
    lemma_trim_of_trimmed(r);
}

/// Trimming changes nothing in a text that neither begins nor ends with
/// white space.
pub proof fn lemma_trim_of_trimmed(s: Seq<char>)
    requires
        is_trimmed(s),
    ensures
        trimmed_start(s) == s,
        trimmed_end(s) == s,
        trimmed(s) == s,
{
}

/// White space before a text that does not begin with white space is what
/// trimming the start takes away.
pub proof fn lemma_trimmed_start_concat(space: Seq<char>, s: Seq<char>)
    requires
        all_whitespace(space),
        s.len() > 0 ==> !is_whitespace(s[0]),
    ensures
        trimmed_start(space + s) == s,
{
    let whole = space + s;
    let k = space.len() as int;
    assert forall|i: int| 0 <= i < k implies is_whitespace(#[trigger] whole[i]) by {
        assert(whole[i] == space[i]);
    }
    if s.len() > 0 {
        assert(whole[k] == s[0]);
    }
    lemma_trimmed_start_is(whole, k);
    assert(whole.skip(k) =~= s);
}

/// White space after a text that does not end with white space is what
/// trimming the end takes away.
pub proof fn lemma_trimmed_end_concat(s: Seq<char>, space: Seq<char>)
    requires
        all_whitespace(space),
        s.len() > 0 ==> !is_whitespace(s.last()),
    ensures
        trimmed_end(s + space) == s,
{
    let whole = s + space;
    let k = s.len() as int;
    assert forall|i: int| k <= i < whole.len() implies is_whitespace(#[trigger] whole[i]) by {
        assert(whole[i] == space[i - k]);
    }
    if s.len() > 0 {
        assert(whole[k - 1] == s.last());
    }
    lemma_trimmed_end_is(whole, k);
    assert(whole.take(k) =~= s);
}

/// Trimming the end of a text leaves alone a beginning that does not end
/// with white space.
pub proof fn lemma_trimmed_end_after(head: Seq<char>, s: Seq<char>)
    requires
        head.len() > 0,
        !is_whitespace(head.last()),
    ensures
        trimmed_end(head + s) == head + trimmed_end(s),
{
    lemma_trimmed_end(s);
    let kept = trimmed_end(s);
    let space = s.skip(kept.len() as int);
    assert(s =~= kept + space);
    assert(head + s =~= (head + kept) + space);
    if kept.len() > 0 {
        assert((head + kept).last() == kept.last());
    } else {
        assert(head + kept =~= head);
    }
    lemma_trimmed_end_concat(head + kept, space);
}

/// The two ends of a text can be trimmed in either order.
pub proof fn lemma_trim_commutes(s: Seq<char>)
    ensures
        trimmed_start(trimmed_end(s)) == trimmed(s),
{
    lemma_trimmed_start(s);
    let t = trimmed_start(s);
    let lead = s.take(s.len() - t.len());
    assert(s =~= lead + t);
    lemma_trimmed_end(t);
    let core = trimmed(s);
    let trail = t.skip(core.len() as int);
    assert(t =~= core + trail);
    if core.len() == 0 {
        assert(t.len() == 0) by {
            if t.len() > 0 {
                assert(t.skip(0)[0] == t[0]);
            }
        }
        assert(all_whitespace(s)) by {
            assert(s =~= lead);
        }
        lemma_trimmed_end_concat(Seq::empty(), s);
        assert(Seq::<char>::empty() + s =~= s);
    } else {
        assert(core[0] == t[0]);
        assert(s =~= (lead + core) + trail);
        assert((lead + core).last() == core.last());
        lemma_trimmed_end_concat(lead + core, trail);
        lemma_trimmed_start_concat(lead, core);
    }
}

/// Whether `c` is white space.
pub(crate) fn is_whitespace_char(c: char) -> (r: bool)
    ensures
        r == is_whitespace(c),
{
    ('\u{9}' <= c && c <= '\u{d}') || c == ' ' || c == '\u{85}' || c == '\u{a0}' || c == '\u{1680}'
        || ('\u{2000}' <= c && c <= '\u{200a}') || c == '\u{2028}' || c == '\u{2029}' || c
        == '\u{202f}' || c == '\u{205f}' || c == '\u{3000}'
}

/// The slice without the white space it begins with.
pub(crate) fn trim_start<'a>(s: &'a str) -> (r: &'a str)
    ensures
        r@ == trimmed_start(s@),
{
    let total = s.as_bytes().len();
    let mut it = s.chars();
    let mut at: usize = 0;
    let ghost mut k: int = 0;
    proof {
        assert(s@.take(0) =~= Seq::<char>::empty());
        assert(s@.skip(0) =~= s@);
    }
    loop
        invariant
            0 <= k <= s@.len(),
            it.remaining() == s@.skip(k),
            at == byte_len(s@.take(k)),
            total == byte_len(s@),
            forall|j: int| 0 <= j < k ==> is_whitespace(#[trigger] s@[j]),
        decreases s@.len() - k,
    {
        match it.next() {
            Some(d) => {
                proof {
                    assert(d == s@[k]);
                    assert(s@.skip(k).drop_first() =~= s@.skip(k + 1));
                    assert(s@.take(k + 1) =~= s@.take(k) + seq![d]);
                    lemma_encode_concat(s@.take(k), seq![d]);
                    lemma_encode_single(d);
                    lemma_cut_at_prefix(s@, k + 1);
                }
                if !is_whitespace_char(d) {
                    proof {
                        lemma_trimmed_start_is(s@, k);
                    }
                    let (_, rest) = cut(s, at, Ghost(k));
                    return rest;
                }
                at = at + utf8_width(d);
                proof {
                    k = k + 1;
                }
            },
            None => {
                proof {
                    lemma_trimmed_start_is(s@, k);
                }
                let (_, rest) = cut(s, at, Ghost(k));
                return rest;
            },
        }
    }
}

/// The slice without the white space it ends with.
pub(crate) fn trim_end<'a>(s: &'a str) -> (r: &'a str)
    ensures
        r@ == trimmed_end(s@),
{
    let total = s.as_bytes().len();
    let mut it = s.chars();
    let mut at: usize = 0;
    let mut end: usize = 0;
    let ghost mut k: int = 0;
    let ghost mut e: int = 0;
    proof {
        assert(s@.take(0) =~= Seq::<char>::empty());
        assert(s@.skip(0) =~= s@);
    }
    loop
        invariant
            0 <= e <= k <= s@.len(),
            it.remaining() == s@.skip(k),
            at == byte_len(s@.take(k)),
            total == byte_len(s@),
            end == byte_len(s@.take(e)),
            forall|j: int| e <= j < k ==> is_whitespace(#[trigger] s@[j]),
            e > 0 ==> !is_whitespace(s@[e - 1]),
        decreases s@.len() - k,
    {
        match it.next() {
            Some(d) => {
                proof {
                    assert(d == s@[k]);
                    assert(s@.skip(k).drop_first() =~= s@.skip(k + 1));
                    assert(s@.take(k + 1) =~= s@.take(k) + seq![d]);
                    lemma_encode_concat(s@.take(k), seq![d]);
                    lemma_encode_single(d);
                    lemma_cut_at_prefix(s@, k + 1);
                }
                at = at + utf8_width(d);
                proof {
                    k = k + 1;
                }
                if !is_whitespace_char(d) {
                    end = at;
                    proof {
                        e = k;
                    }
                }
            },
            None => {
                proof {
                    lemma_trimmed_end_is(s@, e);
                }
                let (head, _) = cut(s, end, Ghost(e));
                return head;
            },
        }
    }
}

/// The slice without the white space at either end.
pub(crate) fn trim<'a>(s: &'a str) -> (r: &'a str)
    ensures
        r@ == trimmed(s@),
{
    trim_end(trim_start(s))
}

} // verus!
