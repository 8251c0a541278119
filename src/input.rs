use vstd::prelude::*;
use vstd::string::StringSliceAdditionalSpecFns;
use vstd::utf8::*;

use crate::kind::SyntaxKind;
use crate::tree::{elem_text, token, GreenElement, GreenToken};

verus! {

broadcast use vstd::utf8::encode_utf8_valid_utf8;

/// Options fixed for the duration of one parse.
#[derive(Debug)]
pub struct ParseConfig {
    /// Keywords that mark an open task.
    pub todo_keywords: Vec<String>,
    /// Keywords that mark a finished task.
    pub done_keywords: Vec<String>,
}

impl Default for ParseConfig {
    fn default() -> (r: ParseConfig)
        ensures
            r.todo_keywords@.len() == 1,
            r.todo_keywords@[0]@ == "TODO"@,
            r.done_keywords@.len() == 1,
            r.done_keywords@[0]@ == "DONE"@,
    {
        let todo = "TODO".to_owned();
        let done = "DONE".to_owned();
        ParseConfig { todo_keywords: vec![todo], done_keywords: vec![done] }
    }
}

/// The remaining source text of a parse, with the configuration it runs under.
#[derive(Clone, Copy, Debug)]
pub struct Input<'a> {
    pub s: &'a str,
    pub c: &'a ParseConfig,
}

/// A byte that encodes a character on its own in UTF-8.
pub open spec fn is_ascii_byte(b: u8) -> bool {
    b < 0x80
}

/// In valid UTF-8 the positions on both sides of an ASCII byte are character boundaries.
pub proof fn lemma_ascii_boundaries(bytes: Seq<u8>, i: int)
    requires
        valid_utf8(bytes),
        0 <= i < bytes.len(),
        is_ascii_byte(bytes[i]),
    ensures
        is_char_boundary(bytes, i),
        is_char_boundary(bytes, i + 1),
    decreases bytes.len(),
{
    is_char_boundary_iff_not_is_continuation_byte(bytes, i);
    let n = length_of_first_scalar(bytes);
    let rest = pop_first_scalar(bytes);
    if i == 0 {
        assert(n == 1);
        assert(is_char_boundary(rest, 0));
    } else {
        assert(i >= n) by {
            if i < n {
                assert(is_continuation_byte(bytes[i]));
            }
        }
        assert(rest[i - n] == bytes[i]);
        lemma_ascii_boundaries(rest, i - n);
    }
}

impl<'a> Input<'a> {
    /// The bytes of the remaining text.
    pub open spec fn bytes(&self) -> Seq<u8> {
        self.s.spec_bytes()
    }

    pub fn new(s: &'a str, c: &'a ParseConfig) -> (r: Input<'a>)
        ensures
            r.s == s,
            r.c == c,
    {
        Input { s, c }
    }

    pub fn as_str(&self) -> (r: &'a str)
        ensures
            r == self.s,
    {
        self.s
    }

    pub fn as_bytes(&self) -> (r: &'a [u8])
        ensures
            r@ == self.bytes(),
    {
        self.s.as_bytes()
    }

    pub fn len(&self) -> (r: usize)
        ensures
            r == self.bytes().len(),
    {
        self.s.as_bytes().len()
    }

    pub fn is_empty(&self) -> (r: bool)
        ensures
            r == (self.bytes().len() == 0),
    {
        self.s.as_bytes().len() == 0
    }

    /// Splits at a byte offset into (remainder, prefix).
    pub fn take_split(&self, mid: usize) -> (r: (Input<'a>, Input<'a>))
        requires
            mid <= self.bytes().len(),
            is_char_boundary(self.bytes(), mid as int),
        ensures
            r.1.bytes() == self.bytes().subrange(0, mid as int),
            r.0.bytes() == self.bytes().subrange(mid as int, self.bytes().len() as int),
            r.0.c == self.c,
            r.1.c == self.c,
    {
        let (prefix, rest) = self.s.split_at(mid);
        (Input { s: rest, c: self.c }, Input { s: prefix, c: self.c })
    }

    /// Splits at a byte offset that lies next to an ASCII byte (or at either end).
    pub fn take_split_ascii(&self, mid: usize) -> (r: (Input<'a>, Input<'a>))
        requires
            mid <= self.bytes().len(),
            mid == 0 || mid == self.bytes().len() || is_ascii_byte(self.bytes()[mid - 1])
                || is_ascii_byte(self.bytes()[mid as int]),
        ensures
            r.1.bytes() == self.bytes().subrange(0, mid as int),
            r.0.bytes() == self.bytes().subrange(mid as int, self.bytes().len() as int),
            r.0.c == self.c,
            r.1.c == self.c,
    {
        proof {
            let b = self.bytes();
            assert(valid_utf8(b));
            is_char_boundary_start_end_of_seq(b);
            if mid != 0 && mid != b.len() {
                if is_ascii_byte(b[mid - 1]) {
                    lemma_ascii_boundaries(b, mid - 1);
                } else {
                    lemma_ascii_boundaries(b, mid as int);
                }
            }
        }
        self.take_split(mid)
    }

    pub fn token(&self, kind: SyntaxKind) -> (r: GreenElement<'a>)
        ensures
            r == GreenElement::Token(GreenToken { kind, text: self.s }),
            elem_text(r) == self.bytes(),
    {
        token(kind, self.s)
    }

    pub fn text_token(&self) -> (r: GreenElement<'a>)
        ensures
            r == GreenElement::Token(GreenToken { kind: SyntaxKind::TEXT, text: self.s }),
            elem_text(r) == self.bytes(),
    {
        token(SyntaxKind::TEXT, self.s)
    }

    pub fn ws_token(&self) -> (r: GreenElement<'a>)
        ensures
            r == GreenElement::Token(GreenToken { kind: SyntaxKind::WHITESPACE, text: self.s }),
            elem_text(r) == self.bytes(),
    {
        token(SyntaxKind::WHITESPACE, self.s)
    }

    pub fn nl_token(&self) -> (r: GreenElement<'a>)
        ensures
            r == GreenElement::Token(GreenToken { kind: SyntaxKind::NEW_LINE, text: self.s }),
            elem_text(r) == self.bytes(),
    {
        token(SyntaxKind::NEW_LINE, self.s)
    }
}

} // verus!
