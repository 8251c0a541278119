use orgize::export::{events, Event};
use orgize::input::ParseConfig;
use orgize::kind::SyntaxKind;
use orgize::paragraph::document_node;
use orgize::tree::{token, GreenToken};

fn nested(evs: &[Event]) -> bool {
    let mut stack = Vec::new();
    for e in evs {
        match e {
            Event::Enter(k) => stack.push(*k),
            Event::Leave(k) => {
                if stack.pop() != Some(*k) {
                    return false;
                }
            }
            Event::Leaf(_) => {}
        }
    }
    stack.is_empty()
}

#[test]
fn export_events_of_document() {
    let config = ParseConfig::default();
    let doc = document_node("a\n\nb\n", &config);
    assert_eq!(doc.to_string(), "a\n\nb\n");
    let evs = events(&doc);
    let nl = GreenToken { kind: SyntaxKind::NEW_LINE, text: "\n" };
    assert_eq!(
        evs,
        vec![
            Event::Enter(SyntaxKind::DOCUMENT),
            Event::Enter(SyntaxKind::PARAGRAPH),
            Event::Leaf(GreenToken { kind: SyntaxKind::TEXT, text: "a\n" }),
            Event::Enter(SyntaxKind::BLANK_LINE),
            Event::Leaf(nl),
            Event::Leave(SyntaxKind::BLANK_LINE),
            Event::Leave(SyntaxKind::PARAGRAPH),
            Event::Enter(SyntaxKind::PARAGRAPH),
            Event::Leaf(GreenToken { kind: SyntaxKind::TEXT, text: "b\n" }),
            Event::Leave(SyntaxKind::PARAGRAPH),
            Event::Leave(SyntaxKind::DOCUMENT),
        ]
    );
    assert!(nested(&evs));
}

#[test]
fn export_events_are_well_nested() {
    let config = ParseConfig::default();
    for text in ["", "x", "a\n \n\t\r\nb\nc\n\n", "\n\n\n"] {
        let doc = document_node(text, &config);
        assert!(nested(&events(&doc)));
    }
    assert_eq!(
        events(&token(SyntaxKind::TEXT, "t")),
        vec![Event::Leaf(GreenToken { kind: SyntaxKind::TEXT, text: "t" })]
    );
}
