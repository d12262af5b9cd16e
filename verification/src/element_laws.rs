//! What holds of the element scanner and of its filters on every text.
use vstd::prelude::*;
use crate::elements::{
    document_elements, elements_of, full_text_only, lemma_elements_of, name_and_attrs, next_element, no_comment,
    tag_element, without_declaration, ElementView,
};
use crate::text::{lemma_first_occurrence_is, lemma_split_on_some, occurs, occurs_at, split_on};
use crate::whitespace::{
    all_whitespace, is_whitespace, lemma_trim_commutes, lemma_trimmed_end_after,
    lemma_trimmed_start_concat, trimmed, trimmed_end,
};

verus! {

/// A declaration as it is written: `<?xml`, then `inner`, then `?>`.
pub open spec fn declaration(inner: Seq<char>) -> Seq<char> {
    "<?xml"@ + inner + "?>"@
}

/// A document that begins with a declaration, after any white space, gives
/// the elements of what follows the declaration.
///
/// Here `inner` holds no `?>`, so that the declaration ends where it is
/// written to end, and what follows it does not open a declaration again.
pub proof fn lemma_declaration_is_skipped(space: Seq<char>, inner: Seq<char>, body: Seq<char>)
    requires
        all_whitespace(space),
        !occurs(inner, "?>"@),
        !"<?xml"@.is_prefix_of(trimmed(body)),
    ensures
        without_declaration(space + declaration(inner) + body) == Some(trimmed(body)),
        document_elements(space + declaration(inner) + body) == document_elements(body),
{
    reveal_strlit("<?xml");
    reveal_strlit("?>");
    let open = "<?xml"@;
    let close = "?>"@;
    let decl = declaration(inner);
    let text = space + decl + body;
    assert(!is_whitespace('<') && !is_whitespace('>'));
    assert(decl[0] == '<');
    assert(decl.last() == '>');
    assert(text =~= space + (decl + body));
    lemma_trimmed_start_concat(space, decl + body);
    lemma_trimmed_end_after(decl, body);
    let rest = trimmed_end(body);
    let start = decl + rest;
    assert(trimmed(text) == start);
    assert(open.is_prefix_of(start)) by {
        assert(start.subrange(0, 5) =~= open);
    }
    let head = open + inner;
    assert(start =~= head + close + rest);
    assert forall|j: int| 0 <= j < head.len() implies !occurs_at(start, close, j) by {
        if occurs_at(start, close, j) {
            assert(start.subrange(j, j + 2)[0] == '?');
            assert(start.subrange(j, j + 2)[1] == '>');
            assert(j >= 5) by {
                assert(start[1] == '?' && start[2] == 'x');
            }
            assert(start[j + 1] == '>');
            assert(j + 1 < head.len());
            assert(inner.subrange(j - 5, j - 3) =~= close) by {
                assert(inner[j - 5] == start[j]);
                assert(inner[j - 4] == start[j + 1]);
            }
            assert(occurs_at(inner, close, j - 5));
        }
    }
    let at = head.len() as int;
    assert(start.subrange(at, at + 2) =~= close);
    lemma_first_occurrence_is(start, close, at);
    assert(start.skip(at + 2) =~= rest);
    lemma_trim_commutes(body);
}

/// A document that opens a declaration and never closes it gives no
/// element.
pub proof fn lemma_unclosed_declaration_gives_nothing(text: Seq<char>)
    requires
        without_declaration(text) is None,
    ensures
        document_elements(text) == Seq::<ElementView>::empty(),
{
}

/// Two scans of one text give the same elements: what a scanner hands out
/// depends on nothing but the text before it.
pub proof fn lemma_scanning_again_gives_the_same(first: Seq<char>, second: Seq<char>)
    requires
        first == second,
    ensures
        without_declaration(first) == without_declaration(second),
        document_elements(first) == document_elements(second),
        next_element(first) == next_element(second),
{
}

/// A scanner that has come to its end, or has given up, stays there.
pub proof fn lemma_end_is_final()
    ensures
        next_element(Seq::empty()) is None,
        elements_of(Seq::empty()) == Seq::<ElementView>::empty(),
{
    lemma_elements_of(Seq::empty());
}

/// The texts that an element holds.
pub open spec fn parts(element: ElementView) -> Seq<Seq<char>> {
    match element {
        ElementView::StartTag { name, attrs } => seq![name, attrs],
        ElementView::EndTag { name } => seq![name],
        ElementView::EmptyTag { name, attrs } => seq![name, attrs],
        ElementView::Text(t) => seq![t],
        ElementView::Comment(t) => seq![t],
    }
}

/// What stands in a part of a text stands in the text.
proof fn lemma_occurs_inside(text: Seq<char>, from: int, to: int, part: Seq<char>)
    requires
        0 <= from <= to <= text.len(),
        occurs(text.subrange(from, to), part),
    ensures
        occurs(text, part),
{
    let k = choose|k: int| occurs_at(text.subrange(from, to), part, k);
    assert(text.subrange(from + k, from + k + part.len()) =~= text.subrange(from, to).subrange(
        k,
        k + part.len(),
    ));
    assert(occurs_at(text, part, from + k));
}

/// The name and the attribute text of a tag stand in the tag.
proof fn lemma_name_and_attrs_inside(tag: Seq<char>)
    ensures
        occurs(tag, name_and_attrs(tag).0),
        occurs(tag, name_and_attrs(tag).1),
{
    let (name, attrs) = name_and_attrs(tag);
    if split_on(tag, seq![' ']) is Some {
        lemma_split_on_some(tag, seq![' ']);
        assert(tag.subrange(0, name.len() as int) =~= name);
        assert(occurs_at(tag, name, 0));
        let at = name.len() as int + 1;
        assert(tag.subrange(at, tag.len() as int) =~= attrs);
        assert(occurs_at(tag, attrs, at));
    } else {
        assert(tag.subrange(0, tag.len() as int) =~= tag);
        assert(occurs_at(tag, name, 0));
        assert(tag.subrange(0, 0) =~= attrs);
        assert(occurs_at(tag, attrs, 0));
    }
}

/// The texts that a tag's element holds stand in the tag.
proof fn lemma_tag_element_inside(tag: Seq<char>)
    ensures
        forall|i: int|
            0 <= i < parts(tag_element(tag)).len() ==> occurs(
                tag,
                #[trigger] parts(tag_element(tag))[i],
            ),
{
    if tag.len() > 0 && tag.last() == '/' {
        let inner = tag.drop_last();
        lemma_name_and_attrs_inside(inner);
        assert(inner =~= tag.subrange(0, tag.len() - 1));
        lemma_occurs_inside(tag, 0, tag.len() - 1, name_and_attrs(inner).0);
        lemma_occurs_inside(tag, 0, tag.len() - 1, name_and_attrs(inner).1);
    } else if tag.len() > 0 && tag[0] == '/' {
        assert(tag.subrange(1, tag.len() as int) =~= tag.skip(1));
        assert(occurs_at(tag, tag.skip(1), 1));
    } else {
        lemma_name_and_attrs_inside(tag);
    }
}

/// The scanner only moves forward, and hands out nothing but pieces of the
/// text before it: what is left after an element is an end of that text,
/// shorter than it, and every text that the element holds stands in the
/// text before what is left.
pub proof fn lemma_element_is_cut_from_text(text: Seq<char>)
    requires
        next_element(text) is Some,
    ensures
        ({
            let (element, rest) = next_element(text).unwrap();
            let taken = text.len() - rest.len();
            &&& rest.len() < text.len()
            &&& rest == text.skip(taken)
            &&& forall|i: int|
                0 <= i < parts(element).len() ==> occurs(
                    text.take(taken),
                    #[trigger] parts(element)[i],
                )
        }),
{
    reveal_strlit("<!CDATA[");
    reveal_strlit("<!--");
    reveal_strlit("]]>");
    reveal_strlit("-->");
    let (element, rest) = next_element(text).unwrap();
    let taken = text.len() - rest.len();
    let seen = text.take(taken);
    if "<!CDATA["@.is_prefix_of(text) {
        lemma_split_on_some(text.skip(8), "]]>"@);
        let payload = split_on(text.skip(8), "]]>"@).unwrap().0;
        assert(text.skip(8) =~= payload + "]]>"@ + rest);
        assert(rest =~= text.skip(taken));
        assert(seen.subrange(8, 8 + payload.len() as int) =~= payload);
        assert(occurs_at(seen, payload, 8));
    } else if "<!--"@.is_prefix_of(text) {
        lemma_split_on_some(text.skip(4), "-->"@);
        let payload = split_on(text.skip(4), "-->"@).unwrap().0;
        assert(text.skip(4) =~= payload + "-->"@ + rest);
        assert(rest =~= text.skip(taken));
        assert(seen.subrange(4, 4 + payload.len() as int) =~= payload);
        assert(occurs_at(seen, payload, 4));
    } else if text[0] == '<' {
        lemma_split_on_some(text.skip(1), seq!['>']);
        let tag = split_on(text.skip(1), seq!['>']).unwrap().0;
        assert(text.skip(1) =~= tag + seq!['>'] + rest);
        assert(rest =~= text.skip(taken));
        assert(seen.subrange(1, 1 + tag.len() as int) =~= tag);
        lemma_tag_element_inside(tag);
        assert forall|i: int| 0 <= i < parts(element).len() implies occurs(
            seen,
            #[trigger] parts(element)[i],
        ) by {
            lemma_occurs_inside(seen, 1, 1 + tag.len() as int, parts(element)[i]);
        }
    } else {
        if split_on(text, seq!['<']) is Some {
            lemma_split_on_some(text, seq!['<']);
            let (run, tail) = split_on(text, seq!['<']).unwrap();
            if run.len() == 0 {
                assert(text[0] == (run + seq!['<'] + tail)[0]);
            }
            assert(seen =~= run);
        } else {
            assert(seen =~= text);
            assert(rest =~= text.skip(taken));
        }
        assert(seen.subrange(0, seen.len() as int) =~= seen);
        assert(occurs_at(seen, seen, 0));
    }
}

/// A tag, or a text that holds more than white space.
pub open spec fn is_content(element: ElementView) -> bool {
    match element {
        ElementView::StartTag { .. } => true,
        ElementView::EndTag { .. } => true,
        ElementView::EmptyTag { .. } => true,
        ElementView::Text(t) => !all_whitespace(t),
        ElementView::Comment(_) => false,
    }
}

/// The blank-text filter and then the comment filter, over a whole sequence
/// of elements.
pub open spec fn filtered(elements: Seq<ElementView>) -> Seq<ElementView> {
    elements.filter_map(|e: ElementView| full_text_only(e)).filter_map(
        |e: ElementView| no_comment(e),
    )
}

/// The two filters, one after the other, keep the tags and the texts that
/// hold more than white space, each as it was and in the order in which
/// they came, and nothing else.
pub proof fn lemma_filters_keep_content(elements: Seq<ElementView>)
    ensures
        filtered(elements) == elements.filter(|e: ElementView| is_content(e)),
    decreases elements.len(),
{
    reveal(Seq::filter);
    let first = |e: ElementView| full_text_only(e);
    let second = |e: ElementView| no_comment(e);
    let content = |e: ElementView| is_content(e);
    if elements.len() > 0 {
        let init = elements.drop_last();
        let last = elements.last();
        lemma_filters_keep_content(init);
        if full_text_only(last) is Some {
            let kept = init.filter_map(first);
            assert((kept + seq![last]).drop_last() =~= kept);
            assert((kept + seq![last]).last() == last);
            if no_comment(last) is Some {
                assert(kept.filter_map(second) + seq![last] =~= kept.filter_map(second).push(last));
            }
        }
    }
}

} // verus!
