//! The model of searching and splitting a text, over sequences.
use vstd::prelude::*;

verus! {

/// `needle` stands in `s` at index `k`.
pub open spec fn occurs_at<T>(s: Seq<T>, needle: Seq<T>, k: int) -> bool {
    &&& 0 <= k
    &&& k + needle.len() <= s.len()
    &&& s.subrange(k, k + needle.len()) == needle
}

/// `needle` stands in `s` at index `k` and nowhere before.
pub open spec fn is_first_occurrence<T>(s: Seq<T>, needle: Seq<T>, k: int) -> bool {
    &&& occurs_at(s, needle, k)
    &&& forall|j: int| 0 <= j < k ==> !occurs_at(s, needle, j)
}

/// `needle` stands somewhere in `s`.
pub open spec fn occurs<T>(s: Seq<T>, needle: Seq<T>) -> bool {
    exists|k: int| occurs_at(s, needle, k)
}

/// The index of the first occurrence of `needle` in `s`, where there is one.
pub open spec fn first_occurrence<T>(s: Seq<T>, needle: Seq<T>) -> Option<int> {
    if exists|k: int| is_first_occurrence(s, needle, k) {
        Some(choose|k: int| is_first_occurrence(s, needle, k))
    } else {
        None
    }
}

/// What stands before and after the first occurrence of `needle` in `s`,
/// the needle itself left out; `None` where `s` does not hold it.
pub open spec fn split_on(s: Seq<char>, needle: Seq<char>) -> Option<(Seq<char>, Seq<char>)> {
    match first_occurrence(s, needle) {
        Some(k) => Some((s.take(k), s.skip(k + needle.len()))),
        None => None,
    }
}

/// A one-character needle stands where that character stands.
pub proof fn lemma_occurs_at_char<T>(s: Seq<T>, c: T, k: int)
    ensures
        occurs_at(s, seq![c], k) <==> (0 <= k < s.len() && s[k] == c),
{
    if 0 <= k < s.len() {
        if s[k] == c {
            assert(s.subrange(k, k + 1) =~= seq![c]);
        } else {
            assert(s.subrange(k, k + 1)[0] == s[k]);
        }
    }
}

/// Where the needle occurs at all, it has a first occurrence, not later.
pub proof fn lemma_first_occurrence_exists<T>(s: Seq<T>, needle: Seq<T>, k: int)
    requires
        occurs_at(s, needle, k),
    ensures
        first_occurrence(s, needle) is Some,
        first_occurrence(s, needle).unwrap() <= k,
    decreases k,
{
    if exists|j: int| 0 <= j < k && occurs_at(s, needle, j) {
        let j = choose|j: int| 0 <= j < k && occurs_at(s, needle, j);
        lemma_first_occurrence_exists(s, needle, j);
    } else {
        assert(is_first_occurrence(s, needle, k));
        lemma_first_occurrence_is(s, needle, k);
    }
}

/// There is one first occurrence at most.
pub proof fn lemma_first_occurrence_is<T>(s: Seq<T>, needle: Seq<T>, k: int)
    requires
        is_first_occurrence(s, needle, k),
    ensures
        first_occurrence(s, needle) == Some(k),
{
    let c = choose|j: int| is_first_occurrence(s, needle, j);
    assert(is_first_occurrence(s, needle, c));
    if c < k {
        assert(!occurs_at(s, needle, c));
    } else if k < c {
        assert(!occurs_at(s, needle, k));
    }
}

/// What `first_occurrence` says when it finds the needle.
pub proof fn lemma_first_occurrence_some<T>(s: Seq<T>, needle: Seq<T>)
    requires
        first_occurrence(s, needle) is Some,
    ensures
        is_first_occurrence(s, needle, first_occurrence(s, needle).unwrap()),
{
}

/// What `first_occurrence` says when it finds nothing.
pub proof fn lemma_first_occurrence_none<T>(s: Seq<T>, needle: Seq<T>)
    requires
        first_occurrence(s, needle) is None,
    ensures
        forall|k: int| !occurs_at(s, needle, k),
{
    assert forall|k: int| !occurs_at(s, needle, k) by {
        if occurs_at(s, needle, k) {
            lemma_first_occurrence_exists(s, needle, k);
        }
    }
}

/// A text made of a head that holds no occurrence reaching into the needle,
/// the needle and a tail splits into that head and that tail.
pub proof fn lemma_split_on_is(s: Seq<char>, needle: Seq<char>, head: Seq<char>, tail: Seq<char>)
    requires
        s == head + needle + tail,
        forall|j: int| 0 <= j < head.len() ==> !occurs_at(s, needle, j),
    ensures
        split_on(s, needle) == Some((head, tail)),
{
    let k = head.len() as int;
    assert(s.subrange(k, k + needle.len()) =~= needle);
    lemma_first_occurrence_is(s, needle, k);
    assert(s.take(k) =~= head);
    assert(s.skip(k + needle.len()) =~= tail);
}

/// The two parts that `split_on` gives, with the needle between them, make
/// up the text again, and the needle does not begin inside the first part.
pub proof fn lemma_split_on_some(s: Seq<char>, needle: Seq<char>)
    requires
        split_on(s, needle) is Some,
    ensures
        ({
            let (head, tail) = split_on(s, needle).unwrap();
            &&& s == head + needle + tail
            &&& is_first_occurrence(s, needle, head.len() as int)
        }),
{
    let k = first_occurrence(s, needle).unwrap();
    lemma_first_occurrence_some(s, needle);
    let (head, tail) = split_on(s, needle).unwrap();
    assert(s =~= head + needle + tail);
}

/// The two parts that `split_on` gives for a character, with the character
/// between them, make up the text again, and the first part does not hold
/// the character.
pub proof fn lemma_split_on_char_some(s: Seq<char>, c: char)
    requires
        split_on(s, seq![c]) is Some,
    ensures
        ({
            let (head, tail) = split_on(s, seq![c]).unwrap();
            &&& s == head + seq![c] + tail
            &&& !head.contains(c)
        }),
{
    lemma_split_on_some(s, seq![c]);
    let (head, tail) = split_on(s, seq![c]).unwrap();
    if head.contains(c) {
        let i = choose|i: int| 0 <= i < head.len() && head[i] == c;
        lemma_occurs_at_char(s, c, i);
        assert(s[i] == head[i]);
    }
}

/// A text that is not split on a character does not hold it.
pub proof fn lemma_split_on_char_none(s: Seq<char>, c: char)
    requires
        split_on(s, seq![c]) is None,
    ensures
        !s.contains(c),
{
    lemma_first_occurrence_none(s, seq![c]);
    if s.contains(c) {
        let i = choose|i: int| 0 <= i < s.len() && s[i] == c;
        lemma_occurs_at_char(s, c, i);
    }
}

/// A text that does not hold the character is not split on it.
pub proof fn lemma_split_on_char_absent(s: Seq<char>, c: char)
    requires
        !s.contains(c),
    ensures
        split_on(s, seq![c]) is None,
{
    if first_occurrence(s, seq![c]) is Some {
        lemma_first_occurrence_some(s, seq![c]);
        let k = first_occurrence(s, seq![c]).unwrap();
        lemma_occurs_at_char(s, c, k);
        assert(s[k] == c);
    }
}

/// A text splits on a character at the first place where it stands.
pub proof fn lemma_split_on_char_is(s: Seq<char>, c: char, head: Seq<char>, tail: Seq<char>)
    requires
        s == head + seq![c] + tail,
        !head.contains(c),
    ensures
        split_on(s, seq![c]) == Some((head, tail)),
{
    assert forall|j: int| 0 <= j < head.len() implies !occurs_at(s, seq![c], j) by {
        lemma_occurs_at_char(s, c, j);
        assert(s[j] == head[j]);
    }
    lemma_split_on_is(s, seq![c], head, tail);
}

} // verus!
