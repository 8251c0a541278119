use vstd::prelude::*;

verus! {

/// Every node and token variant the syntax tree can hold.
#[allow(non_camel_case_types)]
#[derive(Clone, Copy, Debug, PartialEq, Eq, Hash, Structural)]
pub enum SyntaxKind {
    L_BRACKET,
    R_BRACKET,
    L_BRACKET2,
    R_BRACKET2,
    L_PARENS,
    R_PARENS,
    L_ANGLE,
    R_ANGLE,
    L_CURLY,
    R_CURLY,
    L_CURLY3,
    R_CURLY3,
    L_ANGLE2,
    R_ANGLE2,
    L_ANGLE3,
    R_ANGLE3,
    AT,
    AT2,
    MINUS2,
    PERCENT2,
    PLUS,
    MINUS,
    COLON,
    COLON2,
    PIPE,
    HASH_PLUS,
    HASH,
    DOUBLE_ARROW,
    STAR,
    SLASH,
    UNDERSCORE,
    EQUAL,
    TILDE,
    WHITESPACE,
    NEW_LINE,
    TEXT,
    BLANK_LINE,
    PARAGRAPH,
    BOLD,
    ITALIC,
    STRIKE,
    UNDERLINE,
    VERBATIM,
    CODE,
    HEADLINE,
    SECTION,
    DOCUMENT,
}

} // verus!
