//! What holds of the attribute scanner on every text.
use vstd::prelude::*;
use crate::attributes::{
    attributes_of, is_quote, lemma_attributes_of, next_attribute, AttributeView,
};
use crate::text::{lemma_split_on_char_is, lemma_split_on_char_some, occurs, occurs_at, split_on};
use crate::whitespace::{
    all_whitespace, is_trimmed, is_whitespace, lemma_trimmed_empty, lemma_trimmed_end_concat,
    lemma_trimmed_start, lemma_trimmed_start_concat, trimmed, trimmed_start,
};

verus! {

/// One pair as it is written in a tag: some white space, the key, `=`, and
/// the value between two quotes of one kind.
pub struct WrittenPair {
    pub space: Seq<char>,
    pub key: Seq<char>,
    pub quote: char,
    pub value: Seq<char>,
}

impl WrittenPair {
    /// The pair is well formed: the key holds no `=` and does not begin
    /// with white space, the quote is `'` or `"`, and the value does not
    /// hold it.
    pub open spec fn well_formed(self) -> bool {
        &&& all_whitespace(self.space)
        &&& !self.key.contains('=')
        &&& self.key.len() > 0 ==> !is_whitespace(self.key[0])
        &&& is_quote(self.quote)
        &&& !self.value.contains(self.quote)
    }

    /// The pair without the white space before it.
    pub open spec fn body(self) -> Seq<char> {
        self.key + seq!['='] + seq![self.quote] + self.value + seq![self.quote]
    }

    /// The pair as text.
    pub open spec fn text(self) -> Seq<char> {
        self.space + self.body()
    }

    /// The key and the value.
    pub open spec fn pair(self) -> AttributeView {
        AttributeView { key: self.key, value: self.value }
    }
}

/// The pairs as text, one after the other.
pub open spec fn written(pairs: Seq<WrittenPair>) -> Seq<char>
    decreases pairs.len(),
{
    if pairs.len() == 0 {
        Seq::empty()
    } else {
        pairs[0].text() + written(pairs.drop_first())
    }
}

/// The keys and values of the pairs.
pub open spec fn pairs_of(pairs: Seq<WrittenPair>) -> Seq<AttributeView> {
    pairs.map_values(|p: WrittenPair| p.pair())
}

/// Written pairs, read from the first key on, give the first pair and
/// leave the other pairs as they are written.
proof fn lemma_first_written_pair(first: WrittenPair, others: Seq<char>)
    requires
        first.well_formed(),
    ensures
        trimmed_start(first.text() + others) == first.body() + others,
        next_attribute(first.body() + others) == Some((first.pair(), trimmed_start(others))),
{
    let body = first.body();
    let q = first.quote;
    assert(!is_whitespace('=') && !is_whitespace('\'') && !is_whitespace('"'));
    assert(body[0] == if first.key.len() > 0 {
        first.key[0]
    } else {
        '='
    });
    assert(first.text() + others =~= first.space + (body + others));
    lemma_trimmed_start_concat(first.space, body + others);
    let quoted = seq![q] + first.value + seq![q] + others;
    assert(body + others =~= first.key + seq!['='] + quoted);
    lemma_split_on_char_is(body + others, '=', first.key, quoted);
    assert(quoted.skip(1) =~= first.value + seq![q] + others);
    lemma_split_on_char_is(quoted.skip(1), q, first.value, others);
}

/// The text of one or more pairs is the text of the first and then the
/// text of the others.
proof fn lemma_written_unfolds(pairs: Seq<WrittenPair>)
    requires
        pairs.len() > 0,
    ensures
        written(pairs) == pairs[0].text() + written(pairs.drop_first()),
        pairs_of(pairs) == seq![pairs[0].pair()] + pairs_of(pairs.drop_first()),
{
    assert(pairs_of(pairs) =~= seq![pairs[0].pair()] + pairs_of(pairs.drop_first()));
}

/// All but the first of some well-formed pairs are well formed.
proof fn lemma_others_well_formed(pairs: Seq<WrittenPair>)
    requires
        pairs.len() > 0,
        forall|i: int| 0 <= i < pairs.len() ==> (#[trigger] pairs[i]).well_formed(),
    ensures
        forall|i: int|
            0 <= i < pairs.drop_first().len() ==> (#[trigger] pairs.drop_first()[i]).well_formed(),
{
    let others = pairs.drop_first();
    assert forall|i: int| 0 <= i < others.len() implies (#[trigger] others[i]).well_formed() by {
        assert(others[i] == pairs[i + 1]);
    }
}

/// Well-formed pairs are read as they are written, in their order.
proof fn lemma_written_pairs(pairs: Seq<WrittenPair>)
    requires
        forall|i: int| 0 <= i < pairs.len() ==> (#[trigger] pairs[i]).well_formed(),
    ensures
        attributes_of(trimmed_start(written(pairs))) == pairs_of(pairs),
    decreases pairs.len(),
{
    if pairs.len() == 0 {
        lemma_attributes_of(Seq::empty());
        assert(pairs_of(pairs) =~= Seq::<AttributeView>::empty());
    } else {
        let first = pairs[0];
        let others = pairs.drop_first();
        lemma_written_unfolds(pairs);
        lemma_others_well_formed(pairs);
        lemma_first_written_pair(first, written(others));
        lemma_written_pairs(others);
        lemma_attributes_of(first.body() + written(others));
    }
}

/// Written pairs end with a quote.
proof fn lemma_written_ends_with_quote(pairs: Seq<WrittenPair>)
    requires
        pairs.len() > 0,
        forall|i: int| 0 <= i < pairs.len() ==> (#[trigger] pairs[i]).well_formed(),
    ensures
        written(pairs).len() > 0,
        is_quote(written(pairs).last()),
    decreases pairs.len(),
{
    let others = pairs.drop_first();
    let text = pairs[0].text();
    lemma_written_unfolds(pairs);
    assert(text.len() > 0 && text.last() == pairs[0].quote);
    if others.len() > 0 {
        lemma_others_well_formed(pairs);
        lemma_written_ends_with_quote(others);
        assert((text + written(others)).last() == written(others).last());
    } else {
        assert(text + written(others) =~= text);
    }
}

/// A scanner made over zero or more well-formed pairs, with any white
/// space before each of them and after the last, hands out exactly those
/// pairs, in the order in which they are written, values as they stand.
pub proof fn lemma_well_formed_pairs_are_read(pairs: Seq<WrittenPair>, trail: Seq<char>)
    requires
        forall|i: int| 0 <= i < pairs.len() ==> (#[trigger] pairs[i]).well_formed(),
        all_whitespace(trail),
    ensures
        attributes_of(trimmed(written(pairs) + trail)) == pairs_of(pairs),
{
    lemma_written_pairs(pairs);
    if pairs.len() == 0 {
        assert(written(pairs) + trail =~= trail);
        lemma_trimmed_empty(trail);
        assert(trimmed(trail) =~= Seq::<char>::empty());
        assert(trimmed_start(written(pairs)) =~= Seq::<char>::empty());
    } else {
        let first = pairs[0];
        let others = written(pairs.drop_first());
        let read = first.body() + others;
        lemma_written_unfolds(pairs);
        lemma_written_ends_with_quote(pairs);
        lemma_first_written_pair(first, others);
        assert(trimmed_start(written(pairs)) == read);
        lemma_first_written_pair(first, others + trail);
        assert(written(pairs) + trail == first.text() + (others + trail)) by {
            assert(written(pairs) + trail =~= first.text() + (others + trail));
        }
        assert(first.body() + (others + trail) == read + trail) by {
            assert(first.body() + (others + trail) =~= read + trail);
        }
        assert(trimmed_start(written(pairs) + trail) == read + trail);
        assert(read.len() > 0 && read.last() == written(pairs).last()) by {
            assert(written(pairs) =~= first.space + read);
            assert(first.body().len() > 0);
        }
        assert(!is_whitespace('\'') && !is_whitespace('"'));
        lemma_trimmed_end_concat(read, trail);
        assert(trimmed(written(pairs) + trail) == read);
    }
}

/// How a text that begins with a pair is made up: the key, `=`, the value
/// between two quotes of one kind, white space, and what is left.
pub proof fn lemma_pair_as_written(attrs: Seq<char>) -> (w: WrittenPair)
    requires
        next_attribute(attrs) is Some,
    ensures
        w.pair() == next_attribute(attrs).unwrap().0,
        is_quote(w.quote),
        !w.key.contains('='),
        !w.value.contains(w.quote),
        all_whitespace(w.space),
        attrs == w.body() + w.space + next_attribute(attrs).unwrap().1,
        next_attribute(attrs).unwrap().1.len() > 0 ==> !is_whitespace(
            next_attribute(attrs).unwrap().1[0],
        ),
{
    let rest = next_attribute(attrs).unwrap().1;
    let first = split_on(attrs, seq!['=']).unwrap();
    let key = first.0;
    let quoted = first.1;
    let q = quoted[0];
    let second = split_on(quoted.skip(1), seq![q]).unwrap();
    let value = second.0;
    let after = second.1;
    assert(rest == trimmed_start(after));
    assert(attrs == key + seq!['='] + quoted && !key.contains('=')) by {
        lemma_split_on_char_some(attrs, '=');
    }
    assert(quoted.skip(1) == value + seq![q] + after && !value.contains(q)) by {
        lemma_split_on_char_some(quoted.skip(1), q);
    }
    let space = after.take(after.len() - rest.len());
    assert(after == space + rest && all_whitespace(space) && (rest.len() > 0 ==> !is_whitespace(
        rest[0],
    ))) by {
        lemma_trimmed_start(after);
        assert(after =~= space + rest);
    }
    let w = WrittenPair { space, key, quote: q, value };
    assert(quoted == seq![q] + quoted.skip(1)) by {
        assert(quoted =~= seq![q] + quoted.skip(1));
    }
    lemma_join(key, q, value, space, rest);
    w
}

/// The pieces of a pair and what follows it, put together in two ways.
proof fn lemma_join(key: Seq<char>, q: char, value: Seq<char>, space: Seq<char>, rest: Seq<char>)
    ensures
        key + seq!['='] + (seq![q] + (value + seq![q] + (space + rest))) == key + seq!['='] + seq![
            q,
        ] + value + seq![q] + space + rest,
{
    assert(key + seq!['='] + (seq![q] + (value + seq![q] + (space + rest))) =~= key + seq!['=']
        + seq![q] + value + seq![q] + space + rest);
}

/// The scanner only moves forward, and hands out nothing but pieces of the
/// text before it: what is left after a pair is an end of that text,
/// shorter than it, and the key and the value stand in the text before
/// what is left.
pub proof fn lemma_pair_is_cut_from_text(attrs: Seq<char>)
    requires
        next_attribute(attrs) is Some,
    ensures
        ({
            let (pair, rest) = next_attribute(attrs).unwrap();
            let taken = attrs.len() - rest.len();
            &&& rest.len() < attrs.len()
            &&& rest == attrs.skip(taken)
            &&& occurs(attrs.take(taken), pair.key)
            &&& occurs(attrs.take(taken), pair.value)
        }),
{
    let (pair, rest) = next_attribute(attrs).unwrap();
    let w = lemma_pair_as_written(attrs);
    let taken = attrs.len() - rest.len();
    let seen = attrs.take(taken);
    assert(rest =~= attrs.skip(taken));
    assert(seen =~= w.body() + w.space);
    assert(seen.subrange(0, w.key.len() as int) =~= w.key);
    assert(occurs_at(seen, w.key, 0));
    let at = w.key.len() as int + 2;
    assert(seen.subrange(at, at + w.value.len()) =~= w.value);
    assert(occurs_at(seen, w.value, at));
}

/// What is left after a pair does not begin with white space, and does
/// not end with it where the text before the pair did not: a scanner made
/// over trimmed text holds trimmed text for good.
pub proof fn lemma_rest_stays_trimmed(attrs: Seq<char>)
    requires
        next_attribute(attrs) is Some,
        is_trimmed(attrs),
    ensures
        is_trimmed(next_attribute(attrs).unwrap().1),
{
    let rest = next_attribute(attrs).unwrap().1;
    let w = lemma_pair_as_written(attrs);
    if rest.len() > 0 {
        assert((w.body() + w.space + rest).last() == rest.last());
    }
}

/// A scanner made over nothing, or over white space only, hands out no
/// pair.
pub proof fn lemma_blank_text_holds_no_pair(attrs: Seq<char>)
    requires
        all_whitespace(attrs),
    ensures
        attributes_of(trimmed(attrs)) == Seq::<AttributeView>::empty(),
{
    lemma_trimmed_empty(attrs);
    assert(trimmed(attrs) =~= Seq::<char>::empty());
    lemma_attributes_of(Seq::empty());
}

} // verus!
