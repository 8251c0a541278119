use orgize::emphasis::{parse, validate_marker};

#[test]
fn emphasis_parse() {
    assert_eq!(parse("*bold*", b'*'), Some(("", "bold")));
    assert_eq!(parse("*bo*ld*", b'*'), Some(("", "bo*ld")));
    assert_eq!(parse("*bo\nld*", b'*'), Some(("", "bo\nld")));
    assert_eq!(parse("*bold*a", b'*'), None);
    assert_eq!(parse("*bold*", b'/'), None);
    assert_eq!(parse("*bold *", b'*'), None);
    assert_eq!(parse("* bold*", b'*'), None);
    assert_eq!(parse("*b\nol\nd*", b'*'), None);
}

#[test]
fn emphasis_remainder_after_closer() {
    assert_eq!(parse("/it/, and more", b'/'), Some((", and more", "it")));
    assert_eq!(parse("=a=b= c", b'='), Some((" c", "a=b")));
}

#[test]
fn emphasis_one_line_break_allowed() {
    assert_eq!(parse("*a\nb* x", b'*'), Some((" x", "a\nb")));
    assert_eq!(parse("*a\nb\nc* x", b'*'), None);
}

#[test]
fn emphasis_every_closing_context() {
    for post in [" ", "-", ".", ",", ":", "!", "?", "'", "\n", ")", "}"] {
        let text = format!("*ab*{}", post);
        assert_eq!(parse(&text, b'*'), Some((post, "ab")));
    }
    assert_eq!(parse("*ab*;", b'*'), None);
}

#[test]
fn emphasis_validate_marker() {
    assert!(validate_marker(5, "*bold*"));
    assert!(!validate_marker(5, "*bold *"));
    assert!(validate_marker(5, "*bold* x"));
    assert!(!validate_marker(5, "*bold*a"));
    assert!(!validate_marker(3, "*bo*ld*"));
}

#[test]
fn emphasis_only_space_or_tab_after_opener_fails() {
    assert_eq!(parse("*\nab*", b'*'), Some(("", "\nab")));
    assert_eq!(parse("*\tab*", b'*'), None);
    assert_eq!(parse("* ab*", b'*'), None);
}

#[test]
fn emphasis_validate_marker_at_end_of_text() {
    assert!(validate_marker(6, "*bold*"));
    assert!(!validate_marker(6, "*bold "));
}
