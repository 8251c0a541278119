use orgize::combinator::debug_assert_lossless;
use orgize::input::{Input, ParseConfig};
use orgize::kind::SyntaxKind;
use orgize::paragraph::{paragraph_node, paragraph_nodes};
use orgize::tree::{node, token, GreenElement};

fn children<'a>(e: &'a GreenElement<'a>) -> &'a Vec<GreenElement<'a>> {
    match e {
        GreenElement::Node(n) => &n.children,
        GreenElement::Token(_) => panic!("expected a node"),
    }
}

#[test]
fn paragraph_parse() {
    let config = &ParseConfig::default();

    let (rest, p) = paragraph_node(Input::new("a", config));
    assert_eq!(rest.as_str(), "");
    assert_eq!(p, node(SyntaxKind::PARAGRAPH, vec![token(SyntaxKind::TEXT, "a")]));

    let (rest, p) = paragraph_node(Input::new("a\n    ", config));
    assert_eq!(rest.as_str(), "");
    assert_eq!(p.kind(), SyntaxKind::PARAGRAPH);
    assert_eq!(p.text_len(), 6);
    let cs = children(&p);
    assert_eq!(cs.len(), 2);
    assert_eq!(cs[0], token(SyntaxKind::TEXT, "a\n"));
    assert_eq!(cs[1].kind(), SyntaxKind::BLANK_LINE);
    assert_eq!(cs[1].to_string(), "    ");

    let (rest, p) = paragraph_node(Input::new("a\nb\nc\n", config));
    assert_eq!(rest.as_str(), "");
    assert_eq!(p, node(SyntaxKind::PARAGRAPH, vec![token(SyntaxKind::TEXT, "a\nb\nc\n")]));

    let (rest, p) = paragraph_node(Input::new("a\n\nc\n", config));
    assert_eq!(rest.as_str(), "c\n");
    assert_eq!(p.text_len(), 3);
    let cs = children(&p);
    assert_eq!(cs.len(), 2);
    assert_eq!(cs[0], token(SyntaxKind::TEXT, "a\n"));
    assert_eq!(cs[1].kind(), SyntaxKind::BLANK_LINE);
    assert_eq!(cs[1].to_string(), "\n");
}

#[test]
fn paragraph_trailing_blank_line() {
    let config = &ParseConfig::default();
    let (rest, p) = paragraph_node(Input::new("a\n\n", config));
    assert_eq!(rest.as_str(), "");
    assert_eq!(
        p,
        node(
            SyntaxKind::PARAGRAPH,
            vec![
                token(SyntaxKind::TEXT, "a\n"),
                node(SyntaxKind::BLANK_LINE, vec![token(SyntaxKind::NEW_LINE, "\n")]),
            ]
        )
    );
}

#[test]
fn paragraph_blank_line_without_line_ending() {
    let config = &ParseConfig::default();
    let (rest, p) = paragraph_node(Input::new("a\n   ", config));
    assert_eq!(rest.as_str(), "");
    assert_eq!(
        p,
        node(
            SyntaxKind::PARAGRAPH,
            vec![
                token(SyntaxKind::TEXT, "a\n"),
                node(SyntaxKind::BLANK_LINE, vec![token(SyntaxKind::WHITESPACE, "   ")]),
            ]
        )
    );
}

#[test]
fn paragraph_starting_with_blank_lines() {
    let config = &ParseConfig::default();
    let (rest, p) = paragraph_node(Input::new(" \n\nx", config));
    assert_eq!(rest.as_str(), "x");
    assert_eq!(children(&p).len(), 2);
    assert_eq!(p.to_string(), " \n\n");
}

#[test]
fn paragraph_line_of_other_whitespace_is_text() {
    let config = &ParseConfig::default();
    let (rest, p) = paragraph_node(Input::new("a\n\x0c\nb\n\n", config));
    assert_eq!(rest.as_str(), "");
    assert_eq!(children(&p)[0], token(SyntaxKind::TEXT, "a\n\x0c\nb\n"));
}

#[test]
fn paragraphs_are_lossless() {
    let config = &ParseConfig::default();
    for text in [
        "",
        "a",
        "a\n\nb\n",
        "one\ntwo\n\n\n  \r\nthree *x*\r\n\t\n",
        "\n\n  \nz",
        "ü\n\nöß\r\n",
    ] {
        let nodes = paragraph_nodes(Input::new(text, config));
        let joined: String = nodes.iter().map(|n| n.to_string()).collect();
        assert_eq!(joined, text);
        for n in &nodes {
            assert_eq!(n.kind(), SyntaxKind::PARAGRAPH);
        }
    }
    let nodes = paragraph_nodes(Input::new("a\n\nb\nc\n \n", config));
    assert_eq!(nodes.len(), 2);
    assert_eq!(nodes[0].to_string(), "a\n\n");
    assert_eq!(nodes[1].to_string(), "b\nc\n \n");
}

#[test]
fn lossless_check_passes_result_through() {
    let config = &ParseConfig::default();
    let input = Input::new("a\n\nb", config);
    let (rest, p) = paragraph_node(input);
    let (rest2, p2) = debug_assert_lossless(input, (rest, p));
    assert_eq!(rest2.as_str(), "b");
    assert_eq!(p2.to_string(), "a\n\n");
}
