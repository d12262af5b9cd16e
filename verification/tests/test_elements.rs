use magnesium::{
    skip_comments, skip_empty_text_elements, trim_xml_declaration, ElementIterator, XmlElement,
};

const REGISTRY: &str = r#"
    <?xml version="1.0" encoding="UTF-8"?>
    <registry>
      <!-- We're gonna pretend that there's a whole file here -->
      <types>
        <type>typedef unsigned int <name>GraphicsEnum</name>;</type>
      </types>
      <enums group="GraphicPolygons">
        <enum name="GRAPHIC_POINTS" value="0x0000" />
        <enum name="GRAPHIC_LINES" value="0x0001" />
      </enums>
    </registry>
  "#;

fn all_elements(text: &str) -> Vec<XmlElement<'_>> {
    let mut iter = ElementIterator::new(text);
    std::iter::from_fn(move || iter.next()).collect()
}

#[test]
fn test_trim_xml_declaration() {
    assert_eq!(trim_xml_declaration(""), Some(""));

    assert_eq!(trim_xml_declaration(" "), Some(""));

    assert_eq!(trim_xml_declaration("<?xml"), None);

    let a = r#"<?xml ?>"#;
    assert_eq!(trim_xml_declaration(a), Some(""));

    let b = r#"<?xml
    version="version_number" ?>"#;
    assert_eq!(trim_xml_declaration(b), Some(""));

    let c = r#"<?xml
    version="version_number"
    encoding="encoding_declaration" ?>"#;
    assert_eq!(trim_xml_declaration(c), Some(""));

    let d = r#"<?xml
    version="version_number"
    encoding="encoding_declaration"
    standalone="standalone_status" ?>"#;
    assert_eq!(trim_xml_declaration(d), Some(""));

    let graphics = r#"<?xml version="1.0" encoding="UTF-8"?>
    <registry>"#;
    assert_eq!(trim_xml_declaration(graphics), Some("<registry>"));
}

#[test]
fn test_elements_test_parsing() {
    let xml = REGISTRY;

    let mut iter = ElementIterator::new(xml);

    assert_eq!(iter.next(), Some(XmlElement::StartTag { name: "registry", attrs: "" }));
    assert_eq!(iter.next(), Some(XmlElement::Text("\n      ")));
    assert_eq!(
        iter.next(),
        Some(XmlElement::Comment(" We're gonna pretend that there's a whole file here "))
    );
    assert_eq!(iter.next(), Some(XmlElement::Text("\n      ")));
    assert_eq!(iter.next(), Some(XmlElement::StartTag { name: "types", attrs: "" }));
    assert_eq!(iter.next(), Some(XmlElement::Text("\n        ")));
    assert_eq!(iter.next(), Some(XmlElement::StartTag { name: "type", attrs: "" }));
    assert_eq!(iter.next(), Some(XmlElement::Text("typedef unsigned int ")));
    assert_eq!(iter.next(), Some(XmlElement::StartTag { name: "name", attrs: "" }));
    assert_eq!(iter.next(), Some(XmlElement::Text("GraphicsEnum")));
    assert_eq!(iter.next(), Some(XmlElement::EndTag { name: "name" }));
    assert_eq!(iter.next(), Some(XmlElement::Text(";")));
    assert_eq!(iter.next(), Some(XmlElement::EndTag { name: "type" }));
    assert_eq!(iter.next(), Some(XmlElement::Text("\n      ")));
    assert_eq!(iter.next(), Some(XmlElement::EndTag { name: "types" }));
    assert_eq!(iter.next(), Some(XmlElement::Text("\n      ")));
    //
    assert_eq!(
        iter.next(),
        Some(XmlElement::StartTag { name: "enums", attrs: r#"group="GraphicPolygons""# })
    );
    assert_eq!(iter.next(), Some(XmlElement::Text("\n        ")));
    assert_eq!(
        iter.next(),
        Some(XmlElement::EmptyTag {
            name: "enum",
            attrs: r#"name="GRAPHIC_POINTS" value="0x0000" "#
        })
    );
    assert_eq!(iter.next(), Some(XmlElement::Text("\n        ")));
    assert_eq!(
        iter.next(),
        Some(XmlElement::EmptyTag {
            name: "enum",
            attrs: r#"name="GRAPHIC_LINES" value="0x0001" "#
        })
    );
    assert_eq!(iter.next(), Some(XmlElement::Text("\n      ")));
    assert_eq!(iter.next(), Some(XmlElement::EndTag { name: "enums" }));
    assert_eq!(iter.next(), Some(XmlElement::Text("\n    ")));
    assert_eq!(iter.next(), Some(XmlElement::EndTag { name: "registry" }));
    assert_eq!(iter.next(), None);
}

#[test]
fn test_whitespace_skipping_parsing() {
    let xml = REGISTRY;

    let mut scanner = ElementIterator::new(xml);
    let mut iter = std::iter::from_fn(move || scanner.next()).filter_map(skip_empty_text_elements);

    assert_eq!(iter.next(), Some(XmlElement::StartTag { name: "registry", attrs: "" }));
    assert_eq!(
        iter.next(),
        Some(XmlElement::Comment(" We're gonna pretend that there's a whole file here "))
    );
    assert_eq!(iter.next(), Some(XmlElement::StartTag { name: "types", attrs: "" }));
    assert_eq!(iter.next(), Some(XmlElement::StartTag { name: "type", attrs: "" }));
    assert_eq!(iter.next(), Some(XmlElement::Text("typedef unsigned int ")));
    assert_eq!(iter.next(), Some(XmlElement::StartTag { name: "name", attrs: "" }));
    assert_eq!(iter.next(), Some(XmlElement::Text("GraphicsEnum")));
    assert_eq!(iter.next(), Some(XmlElement::EndTag { name: "name" }));
    assert_eq!(iter.next(), Some(XmlElement::Text(";")));
    assert_eq!(iter.next(), Some(XmlElement::EndTag { name: "type" }));
    assert_eq!(iter.next(), Some(XmlElement::EndTag { name: "types" }));
    assert_eq!(
        iter.next(),
        Some(XmlElement::StartTag { name: "enums", attrs: r#"group="GraphicPolygons""# })
    );
    assert_eq!(
        iter.next(),
        Some(XmlElement::EmptyTag {
            name: "enum",
            attrs: r#"name="GRAPHIC_POINTS" value="0x0000" "#
        })
    );
    assert_eq!(
        iter.next(),
        Some(XmlElement::EmptyTag {
            name: "enum",
            attrs: r#"name="GRAPHIC_LINES" value="0x0001" "#
        })
    );
    assert_eq!(iter.next(), Some(XmlElement::EndTag { name: "enums" }));
    assert_eq!(iter.next(), Some(XmlElement::EndTag { name: "registry" }));
    assert_eq!(iter.next(), None);
}

#[test]
fn test_skipping_comments_parsing() {
    let xml = REGISTRY;

    let mut scanner = ElementIterator::new(xml);
    let mut iter = std::iter::from_fn(move || scanner.next())
        .filter_map(skip_empty_text_elements)
        .filter_map(skip_comments);

    assert_eq!(iter.next(), Some(XmlElement::StartTag { name: "registry", attrs: "" }));
    assert_eq!(iter.next(), Some(XmlElement::StartTag { name: "types", attrs: "" }));
    assert_eq!(iter.next(), Some(XmlElement::StartTag { name: "type", attrs: "" }));
    assert_eq!(iter.next(), Some(XmlElement::Text("typedef unsigned int ")));
    assert_eq!(iter.next(), Some(XmlElement::StartTag { name: "name", attrs: "" }));
    assert_eq!(iter.next(), Some(XmlElement::Text("GraphicsEnum")));
    assert_eq!(iter.next(), Some(XmlElement::EndTag { name: "name" }));
    assert_eq!(iter.next(), Some(XmlElement::Text(";")));
    assert_eq!(iter.next(), Some(XmlElement::EndTag { name: "type" }));
    assert_eq!(iter.next(), Some(XmlElement::EndTag { name: "types" }));
    assert_eq!(
        iter.next(),
        Some(XmlElement::StartTag { name: "enums", attrs: r#"group="GraphicPolygons""# })
    );
    assert_eq!(
        iter.next(),
        Some(XmlElement::EmptyTag {
            name: "enum",
            attrs: r#"name="GRAPHIC_POINTS" value="0x0000" "#
        })
    );
    assert_eq!(
        iter.next(),
        Some(XmlElement::EmptyTag {
            name: "enum",
            attrs: r#"name="GRAPHIC_LINES" value="0x0001" "#
        })
    );
    assert_eq!(iter.next(), Some(XmlElement::EndTag { name: "enums" }));
    assert_eq!(iter.next(), Some(XmlElement::EndTag { name: "registry" }));
    assert_eq!(iter.next(), None);
}

#[test]
fn test_empty_tag_no_attrs() {
    let xml = "<apientry/>";

    let mut iter = ElementIterator::new(xml);

    assert_eq!(iter.next(), Some(XmlElement::EmptyTag { name: "apientry", attrs: "" }));
}

#[test]
fn empty_tag_with_no_attributes_is_the_only_element() {
    let mut iter = ElementIterator::new("<apientry/>");
    assert_eq!(iter.next(), Some(XmlElement::EmptyTag { name: "apientry", attrs: "" }));
    assert_eq!(iter.next(), None);
    assert_eq!(iter.next(), None);
}

#[test]
fn nested_tags_with_text() {
    assert_eq!(
        all_elements(r#"<a x="1"><b>hi</b></a>"#),
        vec![
            XmlElement::StartTag { name: "a", attrs: r#"x="1""# },
            XmlElement::StartTag { name: "b", attrs: "" },
            XmlElement::Text("hi"),
            XmlElement::EndTag { name: "b" },
            XmlElement::EndTag { name: "a" },
        ]
    );
}

#[test]
fn comment_keeps_the_spaces_inside_it() {
    assert_eq!(all_elements("<!-- hi -->"), vec![XmlElement::Comment(" hi ")]);
    assert_eq!(all_elements("<!---->"), vec![XmlElement::Comment("")]);
    assert_eq!(all_elements("<!--a--b-->c"), vec![
        XmlElement::Comment("a--b"),
        XmlElement::Text("c"),
    ]);
}

#[test]
fn comment_end_is_looked_for_behind_the_opening() {
    assert_eq!(all_elements("<!-->"), vec![]);
    assert_eq!(all_elements("<!--->"), vec![]);
    assert_eq!(all_elements("<!--> x -->y"), vec![
        XmlElement::Comment("> x "),
        XmlElement::Text("y"),
    ]);
}

#[test]
fn cdata_is_given_as_text() {
    assert_eq!(all_elements("<a><!CDATA[ 1 < 2 ]]></a>"), vec![
        XmlElement::StartTag { name: "a", attrs: "" },
        XmlElement::Text(" 1 < 2 "),
        XmlElement::EndTag { name: "a" },
    ]);
    assert_eq!(all_elements("<!CDATA[]]>"), vec![XmlElement::Text("")]);
}

#[test]
fn empty_tag_with_attributes_loses_only_the_slash() {
    assert_eq!(all_elements(r#"<e a="1"/>"#), vec![XmlElement::EmptyTag {
        name: "e",
        attrs: r#"a="1""#,
    }]);
    assert_eq!(all_elements("<e />"), vec![XmlElement::EmptyTag { name: "e", attrs: "" }]);
    assert_eq!(all_elements("<e a b/>"), vec![XmlElement::EmptyTag { name: "e", attrs: "a b" }]);
}

#[test]
fn odd_tags() {
    assert_eq!(all_elements("<>"), vec![XmlElement::StartTag { name: "", attrs: "" }]);
    assert_eq!(all_elements("</>"), vec![XmlElement::EmptyTag { name: "", attrs: "" }]);
    assert_eq!(all_elements("<//>"), vec![XmlElement::EmptyTag { name: "/", attrs: "" }]);
    assert_eq!(all_elements("</a b>"), vec![XmlElement::EndTag { name: "a b" }]);
    assert_eq!(all_elements("<a  b>"), vec![XmlElement::StartTag { name: "a", attrs: " b" }]);
    assert_eq!(all_elements("< a>"), vec![XmlElement::StartTag { name: "", attrs: "a" }]);
}

#[test]
fn text_runs_to_the_next_tag_or_to_the_end() {
    assert_eq!(all_elements("a<b>c > d"), vec![
        XmlElement::Text("a"),
        XmlElement::StartTag { name: "b", attrs: "" },
        XmlElement::Text("c > d"),
    ]);
    assert_eq!(all_elements("1 &lt; 2"), vec![XmlElement::Text("1 &lt; 2")]);
}

#[test]
fn wide_characters_pass_through() {
    assert_eq!(all_elements("<é ü='→'>日本語</é><𝄞/>"), vec![
        XmlElement::StartTag { name: "é", attrs: "ü='→'" },
        XmlElement::Text("日本語"),
        XmlElement::EndTag { name: "é" },
        XmlElement::EmptyTag { name: "𝄞", attrs: "" },
    ]);
}

#[test]
fn unfinished_input_ends_the_iteration_for_good() {
    let mut iter = ElementIterator::new("<a>text<b");
    assert_eq!(iter.next(), Some(XmlElement::StartTag { name: "a", attrs: "" }));
    assert_eq!(iter.next(), Some(XmlElement::Text("text")));
    assert_eq!(iter.next(), None);
    assert_eq!(iter.next(), None);

    assert_eq!(all_elements("<a><!-- never closed <b></b>"), vec![XmlElement::StartTag {
        name: "a",
        attrs: "",
    }]);
    assert_eq!(all_elements("<!CDATA[ never closed ]] ><b>"), vec![]);
}

#[test]
fn declaration_is_not_among_the_elements() {
    let with = "  <?xml version=\"1.0\"?>\n<a>x</a>\n";
    let without = "\n<a>x</a>\n";
    assert_eq!(all_elements(with), all_elements(without));
    assert_eq!(all_elements(with), vec![
        XmlElement::StartTag { name: "a", attrs: "" },
        XmlElement::Text("x"),
        XmlElement::EndTag { name: "a" },
    ]);
}

#[test]
fn unfinished_declaration() {
    assert!(ElementIterator::try_new("<?xml version=\"1.0\" <a></a>").is_none());
    assert!(ElementIterator::try_new(" <?xml").is_none());
    assert_eq!(all_elements("<?xml version=\"1.0\" <a></a>"), vec![]);

    let mut iter = ElementIterator::try_new("<?xml ?><a/>").unwrap();
    assert_eq!(iter.next(), Some(XmlElement::EmptyTag { name: "a", attrs: "" }));
    assert_eq!(iter.next(), None);
    let mut iter = ElementIterator::try_new("plain").unwrap();
    assert_eq!(iter.next(), Some(XmlElement::Text("plain")));
}

#[test]
fn a_second_declaration_is_an_ordinary_tag() {
    assert_eq!(all_elements("<?xml ?><?xml ?>"), vec![XmlElement::StartTag {
        name: "?xml",
        attrs: "?",
    }]);
}

#[test]
fn white_space_around_the_document_is_dropped() {
    assert_eq!(all_elements(" \t\r\n "), vec![]);
    assert_eq!(all_elements(""), vec![]);
    assert_eq!(all_elements("\u{2003}<a/>\u{a0}\n"), vec![XmlElement::EmptyTag {
        name: "a",
        attrs: "",
    }]);
    assert_eq!(trim_xml_declaration("\u{3000}x y\u{85}"), Some("x y"));
}

#[test]
fn scanning_twice_gives_the_same_elements() {
    let first = all_elements(REGISTRY);
    let second = all_elements(REGISTRY);
    assert_eq!(first, second);
    assert_eq!(first.len(), 25);
}

#[test]
fn filters_pass_everything_else_unchanged() {
    let tag = XmlElement::StartTag { name: "a", attrs: " " };
    let end = XmlElement::EndTag { name: " " };
    let empty = XmlElement::EmptyTag { name: "", attrs: "" };
    let comment = XmlElement::Comment("   ");
    let text = XmlElement::Text(" x ");
    for el in [tag, end, empty, text] {
        assert_eq!(skip_empty_text_elements(el), Some(el));
        assert_eq!(skip_comments(el), Some(el));
    }
    assert_eq!(skip_empty_text_elements(comment), Some(comment));
    assert_eq!(skip_comments(comment), None);
    assert_eq!(skip_comments(XmlElement::Comment("")), None);
    assert_eq!(skip_empty_text_elements(XmlElement::Text("")), None);
    assert_eq!(skip_empty_text_elements(XmlElement::Text(" \t\r\n\u{a0}")), None);
    assert_eq!(skip_comments(XmlElement::Text(" ")), Some(XmlElement::Text(" ")));
}

#[test]
fn filters_in_a_row_keep_tags_and_full_text_in_order() {
    let text = "<a> <!--c-->x<!-- --> \n<b/>y </a><!--d-->";
    let kept: Vec<XmlElement<'_>> = all_elements(text)
        .into_iter()
        .filter_map(skip_empty_text_elements)
        .filter_map(skip_comments)
        .collect();
    assert_eq!(kept, vec![
        XmlElement::StartTag { name: "a", attrs: "" },
        XmlElement::Text("x"),
        XmlElement::EmptyTag { name: "b", attrs: "" },
        XmlElement::Text("y "),
        XmlElement::EndTag { name: "a" },
    ]);
}
