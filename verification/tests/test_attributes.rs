use magnesium::{TagAttribute, TagAttributeIterator};

type Tais = TagAttributeIterator<'static>;

#[test]
fn empty_string_or_whitespace_gives_none() {
    assert!(Tais::new("").next().is_none());

    assert!(Tais::new("   ").next().is_none());

    assert!(Tais::new("\r\n").next().is_none());

    assert!(Tais::new("\t").next().is_none());
}

#[test]
fn test_attributes_test_parsing() {
    let mut iter = Tais::new(r#"namespace="Graphics" group="Polygon""#);
    assert_eq!(iter.next(), Some(TagAttribute { key: "namespace", value: "Graphics" }));
    assert_eq!(iter.next(), Some(TagAttribute { key: "group", value: "Polygon" }));
    assert_eq!(iter.next(), None);

    // extra space around doesn't affect it
    let mut iter = Tais::new(r#" namespace="Graphics" group="Polygon" "#);
    assert_eq!(iter.next(), Some(TagAttribute { key: "namespace", value: "Graphics" }));
    assert_eq!(iter.next(), Some(TagAttribute { key: "group", value: "Polygon" }));
    assert_eq!(iter.next(), None);
}

#[test]
fn find_by_key_leaves_the_scanner_alone() {
    let attrs = r#"namespace="Graphics" group="Polygon""#;
    let mut iter = TagAttributeIterator::new(attrs);
    assert_eq!(iter.find_by_key("namespace"), Some("Graphics"));
    assert_eq!(iter.find_by_key("ferris"), None);
    assert_eq!(iter.find_by_key("group"), Some("Polygon"));
    assert_eq!(iter.find_by_key("namespace"), Some("Graphics"));
    assert_eq!(iter.next(), Some(TagAttribute { key: "namespace", value: "Graphics" }));
    assert_eq!(iter.find_by_key("namespace"), None);
    assert_eq!(iter.find_by_key("group"), Some("Polygon"));
}

#[test]
fn find_by_key_gives_the_first_of_two_equal_keys() {
    let iter = TagAttributeIterator::new(r#"a="1" a="2""#);
    assert_eq!(iter.find_by_key("a"), Some("1"));
}

#[test]
fn both_kinds_of_quote_are_read() {
    let mut iter = TagAttributeIterator::new(r#"a='it is "x"' b="it's""#);
    assert_eq!(iter.next(), Some(TagAttribute { key: "a", value: r#"it is "x""# }));
    assert_eq!(iter.next(), Some(TagAttribute { key: "b", value: "it's" }));
    assert_eq!(iter.next(), None);
}

#[test]
fn values_are_not_decoded() {
    let mut iter = TagAttributeIterator::new(r#"a="1&lt;2" b="""#);
    assert_eq!(iter.next(), Some(TagAttribute { key: "a", value: "1&lt;2" }));
    assert_eq!(iter.next(), Some(TagAttribute { key: "b", value: "" }));
    assert_eq!(iter.next(), None);
}

#[test]
fn pairs_need_no_space_between_them() {
    let mut iter = TagAttributeIterator::new("a='1'b='2'\t\n c='3'");
    assert_eq!(iter.next(), Some(TagAttribute { key: "a", value: "1" }));
    assert_eq!(iter.next(), Some(TagAttribute { key: "b", value: "2" }));
    assert_eq!(iter.next(), Some(TagAttribute { key: "c", value: "3" }));
    assert_eq!(iter.next(), None);
}

#[test]
fn a_missing_equals_sign_ends_the_iteration() {
    let mut iter = TagAttributeIterator::new(r#"a="1" oops b="2""#);
    assert_eq!(iter.next(), Some(TagAttribute { key: "a", value: "1" }));
    // the key runs up to the next `=`
    assert_eq!(iter.next(), Some(TagAttribute { key: "oops b", value: "2" }));
    assert_eq!(iter.next(), None);

    let mut iter = TagAttributeIterator::new("lonely");
    assert_eq!(iter.next(), None);
    assert_eq!(iter.next(), None);
}

#[test]
fn a_missing_opening_quote_ends_the_iteration() {
    let mut iter = TagAttributeIterator::new(r#"a=1 b="2""#);
    assert_eq!(iter.next(), None);
    assert_eq!(iter.next(), None);
    assert_eq!(iter.find_by_key("b"), None);

    let mut iter = TagAttributeIterator::new(r#"a = "1""#);
    assert_eq!(iter.next(), None);

    let mut iter = TagAttributeIterator::new("a=");
    assert_eq!(iter.next(), None);
}

#[test]
fn a_missing_closing_quote_ends_the_iteration() {
    let mut iter = TagAttributeIterator::new(r#"a="1" b="2"#);
    assert_eq!(iter.next(), Some(TagAttribute { key: "a", value: "1" }));
    assert_eq!(iter.next(), None);
    assert_eq!(iter.next(), None);

    let mut iter = TagAttributeIterator::new(r#"a="1'"#);
    assert_eq!(iter.next(), None);
}

#[test]
fn wide_white_space_is_trimmed() {
    let mut iter = TagAttributeIterator::new("\u{a0}\u{3000}a=\"é\"\u{2003}b='→'\u{2028}");
    assert_eq!(iter.next(), Some(TagAttribute { key: "a", value: "é" }));
    assert_eq!(iter.next(), Some(TagAttribute { key: "b", value: "→" }));
    assert_eq!(iter.next(), None);
}
