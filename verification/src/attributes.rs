//! The attribute scanner: the key/value pairs inside one tag.
use vstd::prelude::*;
use crate::attribute_laws::lemma_rest_stays_trimmed;
use crate::split::{break_on_first_char, option_view, same_text, split_first};
use crate::text::{lemma_split_on_some, split_on};
use crate::whitespace::{
    is_trimmed, lemma_trimmed_is_trimmed, lemma_trimmed_start, trim, trim_start, trimmed,
    trimmed_start,
};

verus! {

/// The output of a [`TagAttributeIterator`].
///
/// Attributes within an XML tag are key-value pairs. Only `Start` and
/// `Empty` tags have attributes.
///
/// Each key is expected to only appear once in a given tag. The order of the
/// keys is not usually significant.
#[derive(Debug, Clone, Default, PartialEq, Eq, PartialOrd, Ord, Hash)]
pub struct TagAttribute<'s> {
    pub key: &'s str,
    pub value: &'s str,
}

/// What a [`TagAttribute`] holds, as sequences of characters.
pub struct AttributeView {
    pub key: Seq<char>,
    pub value: Seq<char>,
}

impl<'s> View for TagAttribute<'s> {
    type V = AttributeView;

    open spec fn view(&self) -> AttributeView {
        AttributeView { key: self.key@, value: self.value@ }
    }
}

/// The view of an attribute that may be absent.
pub open spec fn attribute_view(r: Option<TagAttribute<'_>>) -> Option<AttributeView> {
    match r {
        Some(a) => Some(a@),
        None => None,
    }
}

/// The two characters that may stand around a value.
pub open spec fn is_quote(c: char) -> bool {
    c == '\'' || c == '"'
}

/// The first pair of `attrs` and the text that follows it; `None` where
/// `attrs` is empty or does not begin with a pair.
///
/// A pair is a key, `=`, and a value between two quotes of one kind. The
/// text that follows begins after the white space behind the closing quote.
pub open spec fn next_attribute(attrs: Seq<char>) -> Option<(AttributeView, Seq<char>)> {
    match split_on(attrs, seq!['=']) {
        Some((key, quoted)) => {
            if quoted.len() > 0 && is_quote(quoted[0]) {
                match split_on(quoted.skip(1), seq![quoted[0]]) {
                    Some((value, rest)) => Some(
                        (AttributeView { key, value }, trimmed_start(rest)),
                    ),
                    None => None,
                }
            } else {
                None
            }
        },
        None => None,
    }
}

/// Every pair takes at least one character of the text.
pub proof fn lemma_next_attribute_shrinks(attrs: Seq<char>)
    requires
        next_attribute(attrs) is Some,
    ensures
        next_attribute(attrs).unwrap().1.len() < attrs.len(),
{
    lemma_split_on_some(attrs, seq!['=']);
    let (key, quoted) = split_on(attrs, seq!['=']).unwrap();
    lemma_split_on_some(quoted.skip(1), seq![quoted[0]]);
    let (value, rest) = split_on(quoted.skip(1), seq![quoted[0]]).unwrap();
    lemma_trimmed_start(rest);
}

/// All the pairs that a scanner hands out from `attrs`, in order.
pub open spec fn attributes_of(attrs: Seq<char>) -> Seq<AttributeView>
    decreases attrs.len(),
{
    match next_attribute(attrs) {
        Some((pair, rest)) => {
            if rest.len() < attrs.len() {
                seq![pair] + attributes_of(rest)
            } else {
                seq![pair]
            }
        },
        None => Seq::empty(),
    }
}

/// The pairs of a text are its first pair and then the pairs of what
/// follows it.
pub proof fn lemma_attributes_of(attrs: Seq<char>)
    ensures
        attributes_of(attrs) == match next_attribute(attrs) {
            Some((pair, rest)) => seq![pair] + attributes_of(rest),
            None => Seq::empty(),
        },
{
    if next_attribute(attrs) is Some {
        lemma_next_attribute_shrinks(attrs);
    }
}

/// The value of the first of `pairs` whose key is `key`.
pub open spec fn value_of(pairs: Seq<AttributeView>, key: Seq<char>) -> Option<Seq<char>>
    decreases pairs.len(),
{
    if pairs.len() == 0 {
        None
    } else if pairs[0].key == key {
        Some(pairs[0].value)
    } else {
        value_of(pairs.drop_first(), key)
    }
}

/// Iterator to walk through a `Start` or `Empty` tag's attribute string.
///
/// Supports both `'` and `"` quoting around the attribute values.
///
/// The parsing is a little simplistic, and where the scanner cannot make
/// sense of the input it ends the iteration.
#[derive(Debug, Clone, Default)]
pub struct TagAttributeIterator<'s> {
    attrs: &'s str,
}

impl<'s> View for TagAttributeIterator<'s> {
    type V = Seq<char>;

    /// The attribute text that is still to be scanned.
    closed spec fn view(&self) -> Seq<char> {
        self.attrs@
    }
}

impl<'s> TagAttributeIterator<'s> {
    /// Makes a new iterator over the attribute string.
    #[must_use]
    pub fn new(attrs: &'s str) -> (r: Self)
        ensures
            r@ == trimmed(attrs@),
            is_trimmed(r@),
    {
        proof {
            lemma_trimmed_is_trimmed(attrs@);
        }
        TagAttributeIterator { attrs: trim(attrs) }
    }

    /// All the pairs that are still to come.
    pub open spec fn attributes(&self) -> Seq<AttributeView> {
        attributes_of(self@)
    }

    /// Hands out the next pair and moves past it.
    ///
    /// Gives `None` at the end of the text, and also where the text does
    /// not begin with a pair: then the rest of the text is dropped, and
    /// every later call gives `None` too.
    pub fn next(&mut self) -> (r: Option<TagAttribute<'s>>)
        ensures
            match next_attribute(old(self)@) {
                Some((pair, rest)) => attribute_view(r) == Some(pair) && final(self)@ == rest,
                None => r is None && final(self)@.len() == 0,
            },
            old(self).attributes() == match r {
                Some(pair) => seq![pair@] + final(self).attributes(),
                None => Seq::empty(),
            },
            is_trimmed(old(self)@) ==> is_trimmed(final(self)@),
    {
        let attrs = self.attrs;
        proof {
            reveal_strlit("");
            lemma_attributes_of(attrs@);
            if next_attribute(attrs@) is Some && is_trimmed(attrs@) {
                lemma_rest_stays_trimmed(attrs@);
            }
        }
        self.attrs = "";
        let (key, quoted) = match break_on_first_char(attrs, '=') {
            Some(parts) => parts,
            None => { return None; },
        };
        let (quote, body) = match split_first(quoted) {
            Some(parts) => parts,
            None => { return None; },
        };
        if quote != '\'' && quote != '"' {
            return None;
        }
        let (value, rest) = match break_on_first_char(body, quote) {
            Some(parts) => parts,
            None => { return None; },
        };
        self.attrs = trim_start(rest);
        Some(TagAttribute { key, value })
    }

    /// Gets the `value` of the `key` given, if the key is present.
    ///
    /// The scanner itself stays where it is.
    #[must_use]
    pub fn find_by_key(&self, key: &str) -> (r: Option<&'s str>)
        ensures
            option_view(r) == value_of(self.attributes(), key@),
    {
        let mut walk = TagAttributeIterator { attrs: self.attrs };
        loop
            invariant
                value_of(self.attributes(), key@) == value_of(walk.attributes(), key@),
            decreases walk@.len(),
        {
            let ghost before = walk.attributes();
            proof {
                if next_attribute(walk@) is Some {
                    lemma_next_attribute_shrinks(walk@);
                }
            }
            match walk.next() {
                Some(pair) => {
                    proof {
                        assert(before.drop_first() =~= walk.attributes());
                    }
                    if same_text(pair.key, key) {
                        return Some(pair.value);
                    }
                },
                None => {
                    return None;
                },
            }
        }
    }
}

} // verus!
