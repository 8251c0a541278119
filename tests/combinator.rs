use orgize::combinator::{
    blank_lines, colon2_token, colon_token, double_arrow_token, l_bracket2_token, l_bracket_token,
    l_curly3_token, line_ends_iter, line_starts_iter, r_angle3_token, tag_token, trim_line_end,
    NodeBuilder,
};
use orgize::input::{Input, ParseConfig};
use orgize::kind::SyntaxKind;
use orgize::tree::{node, token, GreenElement};

#[test]
fn test_blank_lines() {
    let config = &ParseConfig::default();
    let (input, output) = blank_lines(Input::new("", config));
    assert_eq!(input.as_str(), "");
    assert_eq!(output, vec![]);

    let (input, output) = blank_lines(Input::new("    t", config));
    assert_eq!(input.as_str(), "    t");
    assert_eq!(output, vec![]);

    let (input, output) = blank_lines(Input::new("  \r\n\n\t\t\r\n  \n  ", config));
    assert_eq!(input.as_str(), "");
    assert_eq!(output.len(), 5);
    assert_eq!(output[0].to_string(), "  \r\n");
    assert_eq!(output[1].to_string(), "\n");
    assert_eq!(output[2].to_string(), "\t\t\r\n");
    assert_eq!(output[3].to_string(), "  \n");
    assert_eq!(output[4].to_string(), "  ");

    let (input, output) =
        blank_lines(Input::new("  \r\n\n\t\t\r\n  \n   t\n  \r\n\n\t\t\r\n  \n", config));
    assert_eq!(input.as_str(), "   t\n  \r\n\n\t\t\r\n  \n");
    assert_eq!(output.len(), 4);
    assert_eq!(output[0].to_string(), "  \r\n");
    assert_eq!(output[1].to_string(), "\n");
    assert_eq!(output[2].to_string(), "\t\t\r\n");
    assert_eq!(output[3].to_string(), "  \n");
}

#[test]
fn blank_lines_node_shape() {
    let config = &ParseConfig::default();
    let (_, output) = blank_lines(Input::new("  \r\n\n   ", config));
    assert_eq!(output.len(), 3);
    assert_eq!(
        output[0],
        node(
            SyntaxKind::BLANK_LINE,
            vec![token(SyntaxKind::WHITESPACE, "  "), token(SyntaxKind::NEW_LINE, "\r\n")]
        )
    );
    assert_eq!(output[1], node(SyntaxKind::BLANK_LINE, vec![token(SyntaxKind::NEW_LINE, "\n")]));
    assert_eq!(output[2], node(SyntaxKind::BLANK_LINE, vec![token(SyntaxKind::WHITESPACE, "   ")]));
}

#[test]
fn blank_lines_leaves_non_blank_input_unchanged() {
    let config = &ParseConfig::default();
    for text in ["a", " a\n\n", "\x0c\n", "  \r", "\ta"] {
        let (input, output) = blank_lines(Input::new(text, config));
        assert_eq!(input.as_str(), text);
        assert!(output.is_empty());
    }
}

#[test]
fn test_trim_line_end() {
    let config = &ParseConfig::default();
    let (input, output) = trim_line_end(Input::new("", config));
    assert_eq!(input.as_str(), "");
    assert_eq!(output.0.as_str(), "");
    assert_eq!(output.1.as_str(), "");
    assert_eq!(output.2.as_str(), "");

    let (input, output) = trim_line_end(Input::new("* hello, world :abc:", config));
    assert_eq!(input.as_str(), "");
    assert_eq!(output.0.as_str(), "* hello, world :abc:");
    assert_eq!(output.1.as_str(), "");
    assert_eq!(output.2.as_str(), "");

    let (input, output) = trim_line_end(Input::new("* hello, world :abc:  \r\nrest\n", config));
    assert_eq!(input.as_str(), "rest\n");
    assert_eq!(output.0.as_str(), "* hello, world :abc:");
    assert_eq!(output.1.as_str(), "  ");
    assert_eq!(output.2.as_str(), "\r\n");
}

#[test]
fn trim_line_end_pieces_rebuild_first_line() {
    let config = &ParseConfig::default();
    for (text, first) in [
        ("abc \t\nxyz", "abc \t\n"),
        ("   \n", "   \n"),
        ("héllo wörld  ", "héllo wörld  "),
        ("x\t \r\n", "x\t \r\n"),
        ("\n\n", "\n"),
    ] {
        let (rest, (a, b, c)) = trim_line_end(Input::new(text, config));
        assert_eq!(format!("{}{}{}", a.as_str(), b.as_str(), c.as_str()), first);
        assert_eq!(format!("{}{}", first, rest.as_str()), text);
    }
    let (_, (a, b, c)) = trim_line_end(Input::new("x\t \r\n", config));
    assert_eq!((a.as_str(), b.as_str(), c.as_str()), ("x", "\t ", "\r\n"));
}

#[test]
fn line_starts_and_ends() {
    assert_eq!(line_starts_iter(""), vec![0]);
    assert_eq!(line_ends_iter(""), vec![0]);
    assert_eq!(line_starts_iter("ab\ncd\n"), vec![0, 3, 6]);
    assert_eq!(line_ends_iter("ab\ncd\n"), vec![3, 6, 6]);
    assert_eq!(line_starts_iter("ab\ncd"), vec![0, 3]);
    assert_eq!(line_ends_iter("ab\ncd"), vec![3, 5]);
}

#[test]
fn node_builder_skips_empty_pieces() {
    let config = &ParseConfig::default();
    let mut b = NodeBuilder::new();
    b.ws(Input::new("", config));
    b.nl(Input::new("", config));
    assert_eq!(b.len(), 0);
    b.ws(Input::new(" \t", config));
    b.text(Input::new("x", config));
    b.token(SyntaxKind::STAR, Input::new("*", config));
    b.push(token(SyntaxKind::TEXT, "y"));
    b.push_opt(None);
    b.push_opt(Some(token(SyntaxKind::TEXT, "z")));
    b.nl(Input::new("\n", config));
    assert_eq!(b.len(), 6);
    let e = b.finish(SyntaxKind::PARAGRAPH);
    assert_eq!(e.kind(), SyntaxKind::PARAGRAPH);
    assert_eq!(e.to_string(), " \tx*yz\n");
    assert_eq!(e.text_len(), 7);
    match e {
        GreenElement::Node(n) => {
            assert_eq!(n.children[0], token(SyntaxKind::WHITESPACE, " \t"));
            assert_eq!(n.children[5], token(SyntaxKind::NEW_LINE, "\n"));
        }
        GreenElement::Token(_) => panic!("expected a node"),
    }
}

#[test]
fn input_take_split() {
    let config = &ParseConfig::default();
    let i = Input::new("ab\ncd", config);
    let (rest, head) = i.take_split(3);
    assert_eq!(head.as_str(), "ab\n");
    assert_eq!(rest.as_str(), "cd");
    assert_eq!(i.len(), 5);
    assert!(!i.is_empty());
    assert_eq!(config.todo_keywords, vec!["TODO".to_string()]);
    assert_eq!(config.done_keywords, vec!["DONE".to_string()]);
}

#[test]
fn fixed_text_tokens() {
    let config = &ParseConfig::default();

    let (rest, t) = l_bracket2_token(Input::new("[[x]]", config)).unwrap();
    assert_eq!(rest.as_str(), "x]]");
    assert_eq!(t, token(SyntaxKind::L_BRACKET2, "[["));

    let (rest, t) = l_bracket_token(Input::new("[[x]]", config)).unwrap();
    assert_eq!(rest.as_str(), "[x]]");
    assert_eq!(t, token(SyntaxKind::L_BRACKET, "["));

    assert!(colon2_token(Input::new(":x", config)).is_none());
    let (rest, t) = colon_token(Input::new(":x", config)).unwrap();
    assert_eq!((rest.as_str(), t.kind()), ("x", SyntaxKind::COLON));

    let (rest, t) = double_arrow_token(Input::new("=> é", config)).unwrap();
    assert_eq!((rest.as_str(), t.to_string()), (" é", "=>".to_string()));

    assert!(l_curly3_token(Input::new("{{", config)).is_none());
    assert!(r_angle3_token(Input::new(">>", config)).is_none());
    assert!(l_bracket_token(Input::new("", config)).is_none());

    let (rest, t) = tag_token(Input::new("#+TITLE", config), "#+", SyntaxKind::HASH_PLUS).unwrap();
    assert_eq!(rest.as_str(), "TITLE");
    assert_eq!(t, token(SyntaxKind::HASH_PLUS, "#+"));
}
