use magnesium::{revert_xml_encoding, try_revert_xml_encoding};

#[test]
fn the_three_escapes_are_turned_back() {
    assert_eq!("abc<", &revert_xml_encoding("abc&lt;"));
    assert_eq!("1>2", &revert_xml_encoding("1&gt;2"));
    assert_eq!("a&b", &revert_xml_encoding("a&amp;b"));
}

#[test]
fn text_without_escapes_is_unchanged() {
    assert_eq!("", &revert_xml_encoding(""));
    assert_eq!("plain text; lt gt amp", &revert_xml_encoding("plain text; lt gt amp"));
    assert_eq!("日本語 → é", &revert_xml_encoding("日本語 → é"));
}

#[test]
fn escapes_in_a_row_and_among_wide_characters() {
    assert_eq!("<<>>&&", &revert_xml_encoding("&lt;&lt;&gt;&gt;&amp;&amp;"));
    assert_eq!("é<日>→&", &revert_xml_encoding("é&lt;日&gt;→&amp;"));
    // the text that an escape gives is not read again
    assert_eq!("&lt;", &revert_xml_encoding("&amp;lt;"));
}

#[test]
fn try_gives_the_same_text() {
    assert_eq!(try_revert_xml_encoding("abc&lt;"), Some(String::from("abc<")));
    assert_eq!(try_revert_xml_encoding("1&gt;2"), Some(String::from("1>2")));
    assert_eq!(try_revert_xml_encoding("a&amp;b"), Some(String::from("a&b")));
    assert_eq!(try_revert_xml_encoding(""), Some(String::new()));
}

#[test]
fn try_refuses_unknown_and_cut_off_escapes() {
    assert_eq!(try_revert_xml_encoding("a&quot;b"), None);
    assert_eq!(try_revert_xml_encoding("a&apos;b"), None);
    assert_eq!(try_revert_xml_encoding("a & b"), None);
    assert_eq!(try_revert_xml_encoding("&"), None);
    assert_eq!(try_revert_xml_encoding("&l"), None);
    assert_eq!(try_revert_xml_encoding("&lt"), None);
    assert_eq!(try_revert_xml_encoding("&ltx"), None);
    assert_eq!(try_revert_xml_encoding("&gt"), None);
    assert_eq!(try_revert_xml_encoding("&am;"), None);
    assert_eq!(try_revert_xml_encoding("&amp"), None);
    assert_eq!(try_revert_xml_encoding("ok&lt;then&"), None);
    assert_eq!(try_revert_xml_encoding("&LT;"), None);
}
