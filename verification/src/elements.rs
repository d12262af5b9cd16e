//! The element scanner: tags, text runs and comments of a document.
use vstd::prelude::*;
use crate::split::{
    after_prefix, before_last, break_on_first_char, break_on_first_str, cut, option_view,
    split_first,
};
use crate::text::{lemma_split_on_some, split_on};
use crate::whitespace::{
    all_whitespace, lemma_trimmed_empty, trim, trim_start, trimmed, trimmed_start,
};

verus! {

/// An element within an XML structure.
#[derive(Debug, Clone, Copy, PartialEq, Eq, Hash)]
pub enum XmlElement<'s> {
    /// An opening tag with a name and some attributes.
    ///
    /// Eg: `<books attr1="attr val1">`
    ///
    /// If the XML is well formed, then there will be an `EndTag` with a
    /// matching name later on. In between there can be any number of
    /// sub-entries.
    StartTag {
        /// Name of this tag.
        name: &'s str,
        /// Attribute string, to be walked with a `TagAttributeIterator`.
        attrs: &'s str,
    },
    /// Closes the `StartTag` of the same name.
    ///
    /// Eg: `</books>`
    EndTag {
        /// Name of the tag being closed.
        name: &'s str,
    },
    /// An "empty" tag has no inner content, just attributes.
    ///
    /// Eg: `<enum name="GRAPHICS_POLYGON" value="0x0001"/>`
    EmptyTag {
        /// The tag's name.
        name: &'s str,
        /// The tag's attribute string, to be walked with a
        /// `TagAttributeIterator`.
        attrs: &'s str,
    },
    /// Text between tags.
    ///
    /// A "CDATA" entry is given as a `Text` element too.
    Text(&'s str),
    /// Text between `<!--` and `-->`.
    Comment(&'s str),
}

/// What an [`XmlElement`] holds, as sequences of characters.
pub enum ElementView {
    StartTag { name: Seq<char>, attrs: Seq<char> },
    EndTag { name: Seq<char> },
    EmptyTag { name: Seq<char>, attrs: Seq<char> },
    Text(Seq<char>),
    Comment(Seq<char>),
}

impl<'s> View for XmlElement<'s> {
    type V = ElementView;

    open spec fn view(&self) -> ElementView {
        match *self {
            XmlElement::StartTag { name, attrs } => ElementView::StartTag {
                name: name@,
                attrs: attrs@,
            },
            XmlElement::EndTag { name } => ElementView::EndTag { name: name@ },
            XmlElement::EmptyTag { name, attrs } => ElementView::EmptyTag {
                name: name@,
                attrs: attrs@,
            },
            XmlElement::Text(t) => ElementView::Text(t@),
            XmlElement::Comment(t) => ElementView::Comment(t@),
        }
    }
}

/// The view of an element that may be absent.
pub open spec fn element_view(r: Option<XmlElement<'_>>) -> Option<ElementView> {
    match r {
        Some(e) => Some(e@),
        None => None,
    }
}

/// The name and the attribute text of a tag: what stands before and after
/// its first space, or the whole and nothing where it holds no space.
pub open spec fn name_and_attrs(tag: Seq<char>) -> (Seq<char>, Seq<char>) {
    match split_on(tag, seq![' ']) {
        Some(parts) => parts,
        None => (tag, Seq::empty()),
    }
}

/// The element that the text between `<` and `>` stands for.
pub open spec fn tag_element(tag: Seq<char>) -> ElementView {
    if tag.len() > 0 && tag.last() == '/' {
        let (name, attrs) = name_and_attrs(tag.drop_last());
        ElementView::EmptyTag { name, attrs }
    } else if tag.len() > 0 && tag[0] == '/' {
        ElementView::EndTag { name: tag.skip(1) }
    } else {
        let (name, attrs) = name_and_attrs(tag);
        ElementView::StartTag { name, attrs }
    }
}

/// The first element of `text` and the text that follows it; `None` where
/// `text` is empty or begins with something that never ends.
pub open spec fn next_element(text: Seq<char>) -> Option<(ElementView, Seq<char>)> {
    if text.len() == 0 {
        None
    } else if "<!CDATA["@.is_prefix_of(text) {
        match split_on(text.skip("<!CDATA["@.len() as int), "]]>"@) {
            Some((payload, rest)) => Some((ElementView::Text(payload), rest)),
            None => None,
        }
    } else if "<!--"@.is_prefix_of(text) {
        match split_on(text.skip("<!--"@.len() as int), "-->"@) {
            Some((payload, rest)) => Some((ElementView::Comment(payload), rest)),
            None => None,
        }
    } else if text[0] == '<' {
        match split_on(text.skip(1), seq!['>']) {
            Some((tag, rest)) => Some((tag_element(tag), rest)),
            None => None,
        }
    } else {
        match split_on(text, seq!['<']) {
            Some((run, _)) => Some((ElementView::Text(run), text.skip(run.len() as int))),
            None => Some((ElementView::Text(text), Seq::empty())),
        }
    }
}

/// Every element takes at least one character of the text.
pub proof fn lemma_next_element_shrinks(text: Seq<char>)
    requires
        next_element(text) is Some,
    ensures
        next_element(text).unwrap().1.len() < text.len(),
{
    reveal_strlit("<!CDATA[");
    reveal_strlit("<!--");
    reveal_strlit("]]>");
    reveal_strlit("-->");
    if "<!CDATA["@.is_prefix_of(text) {
        lemma_split_on_some(text.skip(8), "]]>"@);
    } else if "<!--"@.is_prefix_of(text) {
        lemma_split_on_some(text.skip(4), "-->"@);
    } else if text[0] == '<' {
        lemma_split_on_some(text.skip(1), seq!['>']);
    } else {
        if split_on(text, seq!['<']) is Some {
            lemma_split_on_some(text, seq!['<']);
            let (run, tail) = split_on(text, seq!['<']).unwrap();
            if run.len() == 0 {
                assert(text[0] == (run + seq!['<'] + tail)[0]);
            }
        }
    }
}

/// All the elements that a scanner hands out from `text`, in order.
pub open spec fn elements_of(text: Seq<char>) -> Seq<ElementView>
    decreases text.len(),
{
    match next_element(text) {
        Some((element, rest)) => {
            if rest.len() < text.len() {
                seq![element] + elements_of(rest)
            } else {
                seq![element]
            }
        },
        None => Seq::empty(),
    }
}

/// The elements of a text are its first element and then the elements of
/// what follows it.
pub proof fn lemma_elements_of(text: Seq<char>)
    ensures
        elements_of(text) == match next_element(text) {
            Some((element, rest)) => seq![element] + elements_of(rest),
            None => Seq::empty(),
        },
{
    if next_element(text) is Some {
        lemma_next_element_shrinks(text);
    }
}

/// The text that scanning starts from: `text` without the white space
/// around it and without a declaration `<?xml ... ?>` at its start. `None`
/// where a declaration opens and never closes.
pub open spec fn without_declaration(text: Seq<char>) -> Option<Seq<char>> {
    let inner = trimmed(text);
    if "<?xml"@.is_prefix_of(inner) {
        match split_on(inner, "?>"@) {
            Some((_, rest)) => Some(trimmed_start(rest)),
            None => None,
        }
    } else {
        Some(inner)
    }
}

/// All the elements that a scanner made over `text` hands out, in order.
pub open spec fn document_elements(text: Seq<char>) -> Seq<ElementView> {
    match without_declaration(text) {
        Some(start) => elements_of(start),
        None => Seq::empty(),
    }
}

/// Remove the XML declaration and the white space around the text.
///
/// Fails where the declaration opens and does not close.
pub fn trim_xml_declaration<'a>(text: &'a str) -> (r: Option<&'a str>)
    ensures
        option_view(r) == without_declaration(text@),
{
    let inner = trim(text);
    match after_prefix(inner, "<?xml") {
        Some(_) => match break_on_first_str(inner, "?>") {
            Some((_, rest)) => Some(trim_start(rest)),
            None => None,
        },
        None => Some(inner),
    }
}

/// An iterator to walk the elements of some XML data.
///
/// This gives _all_ the elements, also the `XmlElement::Text` elements of
/// white space between tags and the `XmlElement::Comment` elements.
/// [`skip_empty_text_elements`] and [`skip_comments`] are filters that keep
/// these away.
///
/// The parsing is a little simplistic, and where the scanner cannot make
/// sense of the input it ends the iteration.
#[derive(Debug, Clone, Default)]
pub struct ElementIterator<'s> {
    text: &'s str,
}

impl<'s> View for ElementIterator<'s> {
    type V = Seq<char>;

    /// The text that is still to be scanned.
    closed spec fn view(&self) -> Seq<char> {
        self.text@
    }
}

impl<'s> ElementIterator<'s> {
    /// Makes a new iterator.
    ///
    /// This works both with and without the initial XML declaration in the
    /// string. The declaration won't be in the iteration either way. Where
    /// the declaration does not close, the iterator gives nothing.
    #[must_use]
    pub fn new(text: &'s str) -> (r: Self)
        ensures
            r@ == match without_declaration(text@) {
                Some(start) => start,
                None => Seq::empty(),
            },
            r.elements() == document_elements(text@),
    {
        proof {
            lemma_elements_of(Seq::empty());
        }
        match trim_xml_declaration(text) {
            Some(start) => ElementIterator { text: start },
            None => {
                proof {
                    reveal_strlit("");
                }
                ElementIterator { text: "" }
            },
        }
    }

    /// Makes a new iterator, or none where the text opens an XML
    /// declaration and does not close it.
    #[must_use]
    pub fn try_new(text: &'s str) -> (r: Option<Self>)
        ensures
            match without_declaration(text@) {
                Some(start) => r is Some && r.unwrap()@ == start,
                None => r is None,
            },
            r is Some ==> r.unwrap().elements() == document_elements(text@),
    {
        match trim_xml_declaration(text) {
            Some(start) => Some(ElementIterator { text: start }),
            None => None,
        }
    }

    /// All the elements that are still to come.
    pub open spec fn elements(&self) -> Seq<ElementView> {
        elements_of(self@)
    }

    /// Hands out the next element and moves past it.
    ///
    /// Gives `None` at the end of the text, and also where the text begins
    /// with a tag, a comment or a CDATA block that does not end: then the
    /// rest of the text is dropped, and every later call gives `None` too.
    pub fn next(&mut self) -> (r: Option<XmlElement<'s>>)
        ensures
            match next_element(old(self)@) {
                Some((element, rest)) => element_view(r) == Some(element) && final(self)@ == rest,
                None => r is None && final(self)@.len() == 0,
            },
            old(self).elements() == match r {
                Some(element) => seq![element@] + final(self).elements(),
                None => Seq::empty(),
            },
    {
        let text = self.text;
        proof {
            reveal_strlit("");
            lemma_elements_of(text@);
        }
        if text.is_empty() {
            return None;
        }
        if let Some(body) = after_prefix(text, "<!CDATA[") {
            match break_on_first_str(body, "]]>") {
                Some((payload, rest)) => {
                    self.text = rest;
                    return Some(XmlElement::Text(payload));
                },
                None => {
                    self.text = "";
                    return None;
                },
            }
        }
        if let Some(body) = after_prefix(text, "<!--") {
            match break_on_first_str(body, "-->") {
                Some((payload, rest)) => {
                    self.text = rest;
                    return Some(XmlElement::Comment(payload));
                },
                None => {
                    self.text = "";
                    return None;
                },
            }
        }
        match split_first(text) {
            Some((first, body)) => {
                if first == '<' {
                    match break_on_first_char(body, '>') {
                        Some((tag, rest)) => {
                            self.text = rest;
                            Some(read_tag(tag))
                        },
                        None => {
                            self.text = "";
                            None
                        },
                    }
                } else {
                    match break_on_first_char(text, '<') {
                        Some((run, _)) => {
                            proof {
                                lemma_split_on_some(text@, seq!['<']);
                            }
                            let (_, rest) = cut(
                                text,
                                run.as_bytes().len(),
                                Ghost(run@.len() as int),
                            );
                            self.text = rest;
                            Some(XmlElement::Text(run))
                        },
                        None => {
                            self.text = "";
                            Some(XmlElement::Text(text))
                        },
                    }
                }
            },
            None => None,
        }
    }
}

/// Splits a tag's text into its name and its attribute text.
fn read_name_and_attrs<'a>(tag: &'a str) -> (r: (&'a str, &'a str))
    ensures
        (r.0@, r.1@) == name_and_attrs(tag@),
{
    match break_on_first_char(tag, ' ') {
        Some(parts) => parts,
        None => {
            proof {
                reveal_strlit("");
            }
            (tag, "")
        },
    }
}

/// Reads the text between `<` and `>` as a tag.
fn read_tag<'a>(tag: &'a str) -> (r: XmlElement<'a>)
    ensures
        r@ == tag_element(tag@),
{
    if let Some(inner) = before_last(tag, '/') {
        let (name, attrs) = read_name_and_attrs(inner);
        return XmlElement::EmptyTag { name, attrs };
    }
    match split_first(tag) {
        Some((first, name)) => {
            if first == '/' {
                return XmlElement::EndTag { name };
            }
        },
        None => {},
    }
    let (name, attrs) = read_name_and_attrs(tag);
    XmlElement::StartTag { name, attrs }
}

/// The text of a `Text` element that holds white space only.
pub open spec fn is_blank_text(element: ElementView) -> bool {
    match element {
        ElementView::Text(t) => all_whitespace(t),
        _ => false,
    }
}

/// What the blank-text filter makes of an element.
pub open spec fn full_text_only(element: ElementView) -> Option<ElementView> {
    if is_blank_text(element) {
        None
    } else {
        Some(element)
    }
}

/// What the comment filter makes of an element.
pub open spec fn no_comment(element: ElementView) -> Option<ElementView> {
    if element is Comment {
        None
    } else {
        Some(element)
    }
}

/// Filters out `XmlElement::Text(t)` when `t` is only white space.
///
/// Any other element passes unchanged.
#[must_use]
pub fn skip_empty_text_elements<'s>(el: XmlElement<'s>) -> (r: Option<XmlElement<'s>>)
    ensures
        element_view(r) == full_text_only(el@),
        r is Some ==> r == Some(el),
{
    match el {
        XmlElement::Text(t) => {
            proof {
                lemma_trimmed_empty(t@);
            }
            if trim_start(t).is_empty() {
                None
            } else {
                Some(XmlElement::Text(t))
            }
        },
        other => Some(other),
    }
}

/// Filters out `XmlElement::Comment(_)`.
///
/// Any other element passes unchanged.
#[must_use]
pub fn skip_comments<'s>(el: XmlElement<'s>) -> (r: Option<XmlElement<'s>>)
    ensures
        element_view(r) == no_comment(el@),
        r is Some ==> r == Some(el),
{
    match el {
        XmlElement::Comment(_) => None,
        other => Some(other),
    }
}

} // verus!
