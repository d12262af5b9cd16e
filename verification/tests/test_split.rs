use magnesium::{break_on_first_char, break_on_first_str};

#[test]
fn test_break_on_first_char() {
    assert_eq!(break_on_first_char("", '='), None);
    assert_eq!(break_on_first_char("a", '='), None);
    assert_eq!(break_on_first_char("a=", '='), Some(("a", "")));
    assert_eq!(break_on_first_char("a=b", '='), Some(("a", "b")));
}

#[test]
fn test_break_on_first_str() {
    assert_eq!(break_on_first_str("", "=="), None);
    assert_eq!(break_on_first_str("a", "=="), None);
    assert_eq!(break_on_first_str("a=", "=="), None);
    assert_eq!(break_on_first_str("a==", "=="), Some(("a", "")));
    assert_eq!(break_on_first_str("a==b", "=="), Some(("a", "b")));
}

#[test]
fn break_on_first_char_takes_the_first_of_several() {
    assert_eq!(break_on_first_char("a=b=c", '='), Some(("a", "b=c")));
    assert_eq!(break_on_first_char("=", '='), Some(("", "")));
    assert_eq!(break_on_first_char("==", '='), Some(("", "=")));
}

#[test]
fn break_on_first_char_handles_wide_characters() {
    assert_eq!(break_on_first_char("naïve→text", '→'), Some(("naïve", "text")));
    assert_eq!(break_on_first_char("ab→", '→'), Some(("ab", "")));
    assert_eq!(break_on_first_char("→→", '→'), Some(("", "→")));
    assert_eq!(break_on_first_char("日本語=値", '='), Some(("日本語", "値")));
    assert_eq!(break_on_first_char("日本語", '本'), Some(("日", "語")));
    assert_eq!(break_on_first_char("𝄞é", 'é'), Some(("𝄞", "")));
    assert_eq!(break_on_first_char("é", 'è'), None);
}

#[test]
fn break_on_first_str_takes_the_first_of_several() {
    assert_eq!(break_on_first_str("a-->b-->c", "-->"), Some(("a", "b-->c")));
    assert_eq!(break_on_first_str("--->", "-->"), Some(("-", "")));
    assert_eq!(break_on_first_str("aaa", "aa"), Some(("", "a")));
    assert_eq!(break_on_first_str("abc", "abc"), Some(("", "")));
    assert_eq!(break_on_first_str("ab", "abc"), None);
}

#[test]
fn break_on_first_str_with_an_empty_needle_splits_at_the_start() {
    assert_eq!(break_on_first_str("abc", ""), Some(("", "abc")));
    assert_eq!(break_on_first_str("", ""), Some(("", "")));
}

#[test]
fn break_on_first_str_handles_wide_characters() {
    assert_eq!(break_on_first_str("日本語→値", "語→"), Some(("日本", "値")));
    assert_eq!(break_on_first_str("é]]>è", "]]>"), Some(("é", "è")));
    assert_eq!(break_on_first_str("éè", "èé"), None);
}
