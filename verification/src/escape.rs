//! Turning the escapes `&lt;`, `&gt;` and `&amp;` back into the characters
//! they stand for.
use vstd::prelude::*;
use vstd::string::StringExecFns;
use crate::split::{after_prefix, break_on_first_char};
use crate::text::{lemma_split_on_char_none, lemma_split_on_char_some};

verus! {

/// `c` put before the text `rest`, where there is one.
pub open spec fn prepend(c: char, rest: Option<Seq<char>>) -> Option<Seq<char>> {
    match rest {
        Some(r) => Some(seq![c] + r),
        None => None,
    }
}

/// The text that `s` stands for: each `&lt;` is `<`, each `&gt;` is `>`,
/// each `&amp;` is `&`, and every other character is itself. `None` where
/// an `&` in `s` begins none of the three.
pub open spec fn unescaped(s: Seq<char>) -> Option<Seq<char>>
    decreases s.len(),
{
    if s.len() == 0 {
        Some(Seq::empty())
    } else if s[0] != '&' {
        prepend(s[0], unescaped(s.skip(1)))
    } else if s.len() >= 4 && s[1] == 'l' && s[2] == 't' && s[3] == ';' {
        prepend('<', unescaped(s.skip(4)))
    } else if s.len() >= 4 && s[1] == 'g' && s[2] == 't' && s[3] == ';' {
        prepend('>', unescaped(s.skip(4)))
    } else if s.len() >= 5 && s[1] == 'a' && s[2] == 'm' && s[3] == 'p' && s[4] == ';' {
        prepend('&', unescaped(s.skip(5)))
    } else {
        None
    }
}

/// `head` put before the text `rest`, where there is one.
pub open spec fn prepend_all(head: Seq<char>, rest: Option<Seq<char>>) -> Option<Seq<char>> {
    match rest {
        Some(r) => Some(head + r),
        None => None,
    }
}

/// A beginning without `&` stands for itself.
pub proof fn lemma_unescaped_plain(plain: Seq<char>, s: Seq<char>)
    requires
        !plain.contains('&'),
    ensures
        unescaped(plain + s) == prepend_all(plain, unescaped(s)),
    decreases plain.len(),
{
    if plain.len() == 0 {
        assert(plain + s =~= s);
        if unescaped(s) is Some {
            assert(plain + unescaped(s).unwrap() =~= unescaped(s).unwrap());
        }
    } else {
        let whole = plain + s;
        let rest = plain.drop_first();
        assert(plain[0] != '&') by {
            assert(plain.contains(plain[0]));
        }
        assert(!rest.contains('&')) by {
            if rest.contains('&') {
                let i = choose|i: int| 0 <= i < rest.len() && rest[i] == '&';
                assert(plain[i + 1] == '&');
            }
        }
        assert(whole.skip(1) =~= rest + s);
        lemma_unescaped_plain(rest, s);
        if unescaped(s) is Some {
            assert(seq![plain[0]] + (rest + unescaped(s).unwrap()) =~= plain + unescaped(
                s,
            ).unwrap());
        }
    }
}

/// What it means for a text to begin with the name of an escape.
proof fn lemma_escape_names(tail: Seq<char>)
    ensures
        "lt;"@.is_prefix_of(tail) <==> tail.len() >= 3 && tail[0] == 'l' && tail[1] == 't'
            && tail[2] == ';',
        "gt;"@.is_prefix_of(tail) <==> tail.len() >= 3 && tail[0] == 'g' && tail[1] == 't'
            && tail[2] == ';',
        "amp;"@.is_prefix_of(tail) <==> tail.len() >= 4 && tail[0] == 'a' && tail[1] == 'm'
            && tail[2] == 'p' && tail[3] == ';',
        "lt;"@.len() == 3,
        "gt;"@.len() == 3,
        "amp;"@.len() == 4,
        "<"@ == seq!['<'],
        ">"@ == seq!['>'],
        "&"@ == seq!['&'],
{
    reveal_strlit("lt;");
    reveal_strlit("gt;");
    reveal_strlit("amp;");
    reveal_strlit("<");
    reveal_strlit(">");
    reveal_strlit("&");
    assert("<"@ =~= seq!['<']);
    assert(">"@ =~= seq!['>']);
    assert("&"@ =~= seq!['&']);
    if tail.len() >= 3 {
        let t = tail.subrange(0, 3);
        if tail[0] == 'l' && tail[1] == 't' && tail[2] == ';' {
            assert("lt;"@ =~= t);
        }
        if tail[0] == 'g' && tail[1] == 't' && tail[2] == ';' {
            assert("gt;"@ =~= t);
        }
        if "lt;"@.is_prefix_of(tail) {
            assert(t[0] == 'l' && t[1] == 't' && t[2] == ';');
        }
        if "gt;"@.is_prefix_of(tail) {
            assert(t[0] == 'g' && t[1] == 't' && t[2] == ';');
        }
    }
    if tail.len() >= 4 {
        let t = tail.subrange(0, 4);
        if tail[0] == 'a' && tail[1] == 'm' && tail[2] == 'p' && tail[3] == ';' {
            assert("amp;"@ =~= t);
        }
        if "amp;"@.is_prefix_of(tail) {
            assert(t[0] == 'a' && t[1] == 'm' && t[2] == 'p' && t[3] == ';');
        }
    }
}

/// The character that the escape at the start of `tail` stands for, an
/// escape's `&` left out, and the number of characters of its name.
pub open spec fn escape_at(tail: Seq<char>) -> Option<(char, int)> {
    if "lt;"@.is_prefix_of(tail) {
        Some(('<', 3))
    } else if "gt;"@.is_prefix_of(tail) {
        Some(('>', 3))
    } else if "amp;"@.is_prefix_of(tail) {
        Some(('&', 4))
    } else {
        None
    }
}

/// What a text stands for that holds its first `&` after `plain`.
proof fn lemma_unescaped_step(plain: Seq<char>, tail: Seq<char>)
    requires
        !plain.contains('&'),
    ensures
        unescaped(plain + seq!['&'] + tail) == match escape_at(tail) {
            Some((c, n)) => prepend_all(plain + seq![c], unescaped(tail.skip(n))),
            None => None,
        },
{
    let escape = seq!['&'] + tail;
    assert(plain + seq!['&'] + tail =~= plain + escape);
    lemma_unescaped_plain(plain, escape);
    lemma_escape_names(tail);
    assert(forall|i: int| 1 <= i < escape.len() ==> escape[i] == tail[i - 1]);
    match escape_at(tail) {
        Some((c, n)) => {
            assert(escape.skip(n + 1) =~= tail.skip(n));
            assert(unescaped(escape) == prepend(c, unescaped(tail.skip(n))));
            if unescaped(tail.skip(n)) is Some {
                let u = unescaped(tail.skip(n)).unwrap();
                assert(plain + (seq![c] + u) =~= (plain + seq![c]) + u);
            }
        },
        None => {},
    }
}

/// Appends to `out` the text that `text` stands for. Says whether every
/// `&` in `text` began an escape; where one did not, `out` holds what came
/// before it.
fn unescape_into(text: &str, out: &mut String) -> (ok: bool)
    ensures
        ok == (unescaped(text@) is Some),
        ok ==> final(out)@ == old(out)@ + unescaped(text@).unwrap(),
{
    let mut rest = text;
    let ghost start = out@;
    let ghost mut done = Seq::<char>::empty();
    proof {
        assert(out@ =~= start + done);
        if unescaped(text@) is Some {
            assert(done + unescaped(text@).unwrap() =~= unescaped(text@).unwrap());
        }
    }
    loop
        invariant
            start == old(out)@,
            out@ == start + done,
            unescaped(text@) == prepend_all(done, unescaped(rest@)),
        decreases rest@.len(),
    {
        match break_on_first_char(rest, '&') {
            None => {
                out.append(rest);
                proof {
                    lemma_split_on_char_none(rest@, '&');
                    lemma_unescaped_plain(rest@, Seq::empty());
                    assert(rest@ + Seq::<char>::empty() =~= rest@);
                    assert(out@ =~= start + (done + rest@));
                }
                return true;
            },
            Some((plain, tail)) => {
                proof {
                    lemma_split_on_char_some(rest@, '&');
                    lemma_unescaped_step(plain@, tail@);
                    lemma_escape_names(tail@);
                }
                let (after, c) = if let Some(after) = after_prefix(tail, "lt;") {
                    (after, "<")
                } else if let Some(after) = after_prefix(tail, "gt;") {
                    (after, ">")
                } else if let Some(after) = after_prefix(tail, "amp;") {
                    (after, "&")
                } else {
                    return false;
                };
                out.append(plain);
                out.append(c);
                proof {
                    let step = plain@ + c@;
                    assert(out@ =~= start + (done + step));
                    if unescaped(after@) is Some {
                        let u = unescaped(after@).unwrap();
                        assert(done + (step + u) =~= (done + step) + u);
                    }
                    done = done + step;
                }
                rest = after;
            },
        }
    }
}

/// Converts an escaped string to the intended text, where every `&` in it
/// begins one of `&lt;`, `&gt;` and `&amp;`; gives `None` where one does
/// not.
pub fn try_revert_xml_encoding(text: &str) -> (r: Option<String>)
    ensures
        match r {
            Some(out) => unescaped(text@) == Some(out@),
            None => unescaped(text@) is None,
        },
{
    let mut out = String::new();
    if unescape_into(text, &mut out) {
        proof {
            assert(Seq::<char>::empty() + unescaped(text@).unwrap() =~= unescaped(text@).unwrap());
        }
        Some(out)
    } else {
        None
    }
}

/// Converts an escaped string to the intended text: `&lt;` to `<`, `&gt;`
/// to `>` and `&amp;` to `&`.
///
/// Every `&` in the text must begin one of these three.
pub fn revert_xml_encoding(text: &str) -> (out: String)
    requires
        unescaped(text@) is Some,
    ensures
        unescaped(text@) == Some(out@),
{
    let mut out = String::new();
    let _ = unescape_into(text, &mut out);
    proof {
        assert(Seq::<char>::empty() + unescaped(text@).unwrap() =~= unescaped(text@).unwrap());
    }
    out
}

} // verus!
