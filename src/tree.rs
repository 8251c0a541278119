use vstd::prelude::*;

use vstd::string::StringSliceAdditionalSpecFns;
use vstd::string::StringExecFns;
use vstd::utf8::{decode_utf8, encode_utf8};

use crate::kind::SyntaxKind;

verus! {

/// A leaf: a kind tag and the exact source text it covers.
#[derive(Clone, Copy, Debug, PartialEq, Eq)]
pub struct GreenToken<'a> {
    pub kind: SyntaxKind,
    pub text: &'a str,
}

/// An interior node: a kind tag and its ordered children.
#[derive(Debug, PartialEq, Eq)]
pub struct GreenNode<'a> {
    pub kind: SyntaxKind,
    pub children: Vec<GreenElement<'a>>,
}

/// The uniform child type of the tree.
#[derive(Debug, PartialEq, Eq)]
pub enum GreenElement<'a> {
    Node(GreenNode<'a>),
    Token(GreenToken<'a>),
}

/// The text an element covers: its leaves' bytes, in document order.
pub open spec fn elem_text<'a>(e: GreenElement<'a>) -> Seq<u8>
    decreases e,
{
    match e {
        GreenElement::Token(t) => t.text.spec_bytes(),
        GreenElement::Node(n) => seq_text(n.children@),
    }
}

/// The text a sequence of elements covers, one after the other.
pub open spec fn seq_text<'a>(cs: Seq<GreenElement<'a>>) -> Seq<u8>
    decreases cs,
{
    if cs.len() == 0 {
        seq![]
    } else {
        seq_text(cs.drop_last()) + elem_text(cs.last())
    }
}

pub proof fn lemma_seq_text_push<'a>(cs: Seq<GreenElement<'a>>, e: GreenElement<'a>)
    ensures
        seq_text(cs.push(e)) == seq_text(cs) + elem_text(e),
{
    assert(cs.push(e).drop_last() =~= cs);
}

pub proof fn lemma_seq_text_concat<'a>(a: Seq<GreenElement<'a>>, b: Seq<GreenElement<'a>>)
    ensures
        seq_text(a + b) == seq_text(a) + seq_text(b),
    decreases b.len(),
{
    if b.len() == 0 {
        assert(a + b =~= a);
        assert(seq_text(a) + seq_text(b) =~= seq_text(a));
    } else {
        assert((a + b).drop_last() =~= a + b.drop_last());
        lemma_seq_text_concat(a, b.drop_last());
        assert((a + b).last() == b.last());
        assert(seq_text(a + b) =~= seq_text(a) + seq_text(b));
    }
}

/// Wraps a verbatim run of source text as a token of the given kind.
pub fn token<'a>(kind: SyntaxKind, input: &'a str) -> (r: GreenElement<'a>)
    ensures
        r == GreenElement::Token(GreenToken { kind, text: input }),
        elem_text(r) == input.spec_bytes(),
{
    GreenElement::Token(GreenToken { kind, text: input })
}

/// Wraps an already-built, ordered child sequence as a node of the given kind.
pub fn node<'a>(kind: SyntaxKind, children: Vec<GreenElement<'a>>) -> (r: GreenElement<'a>)
    ensures
        r == GreenElement::Node(GreenNode { kind, children }),
        elem_text(r) == seq_text(children@),
{
    GreenElement::Node(GreenNode { kind, children })
}

/// The characters an element covers: its leaves' text, in document order.
pub open spec fn elem_chars<'a>(e: GreenElement<'a>) -> Seq<char>
    decreases e,
{
    match e {
        GreenElement::Token(t) => t.text@,
        GreenElement::Node(n) => seq_chars(n.children@),
    }
}

/// The characters a sequence of elements covers, one after the other.
pub open spec fn seq_chars<'a>(cs: Seq<GreenElement<'a>>) -> Seq<char>
    decreases cs,
{
    if cs.len() == 0 {
        seq![]
    } else {
        seq_chars(cs.drop_last()) + elem_chars(cs.last())
    }
}

proof fn lemma_encode_utf8_concat(x: Seq<char>, y: Seq<char>)
    ensures
        encode_utf8(x + y) == encode_utf8(x) + encode_utf8(y),
    decreases x.len(),
{
    if x.len() == 0 {
        assert(x + y =~= y);
        assert(encode_utf8(x) + encode_utf8(y) =~= encode_utf8(y));
    } else {
        assert((x + y).drop_first() =~= x.drop_first() + y);
        assert((x + y)[0] == x[0]);
        lemma_encode_utf8_concat(x.drop_first(), y);
        assert(encode_utf8(x + y) =~= encode_utf8(x) + encode_utf8(y));
    }
}

/// An element's text is the UTF-8 encoding of its characters.
pub proof fn lemma_elem_text_encodes<'a>(e: GreenElement<'a>)
    ensures
        elem_text(e) == encode_utf8(elem_chars(e)),
    decreases e,
{
    match e {
        GreenElement::Token(t) => {},
        GreenElement::Node(n) => {
            lemma_seq_text_encodes(n.children@);
        },
    }
}

/// The text of a sequence of elements is the UTF-8 encoding of its characters.
pub proof fn lemma_seq_text_encodes<'a>(cs: Seq<GreenElement<'a>>)
    ensures
        seq_text(cs) == encode_utf8(seq_chars(cs)),
    decreases cs,
{
    if cs.len() > 0 {
        lemma_seq_text_encodes(cs.drop_last());
        lemma_elem_text_encodes(cs.last());
        lemma_encode_utf8_concat(seq_chars(cs.drop_last()), elem_chars(cs.last()));
    }
}

impl<'a> GreenElement<'a> {
    pub fn kind(&self) -> (r: SyntaxKind)
        ensures
            r == match *self {
                GreenElement::Node(n) => n.kind,
                GreenElement::Token(t) => t.kind,
            },
    {
        match self {
            GreenElement::Node(n) => n.kind,
            GreenElement::Token(t) => t.kind,
        }
    }

    /// Appends the covered text to `out`.
    pub fn write_text(&self, out: &mut Vec<u8>)
        ensures
            final(out)@ == old(out)@ + elem_text(*self),
        decreases self,
    {
        match self {
            GreenElement::Token(t) => {
                let b = t.text.as_bytes();
                let ghost start = out@;
                let mut k: usize = 0;
                while k < b.len()
                    invariant
                        k <= b@.len(),
                        b@ == t.text.spec_bytes(),
                        out@ == start + b@.take(k as int),
                    decreases b@.len() - k,
                {
                    out.push(b[k]);
                    k = k + 1;
                    assert(out@ =~= start + b@.take(k as int));
                }
                assert(b@.take(k as int) =~= b@);
            },
            GreenElement::Node(n) => {
                let ghost start = out@;
                let mut k: usize = 0;
                assert(*self == GreenElement::Node(*n));
                assert(n.children@.take(0) =~= Seq::<GreenElement<'a>>::empty());
                assert(start + seq_text(n.children@.take(0)) =~= start);
                while k < n.children.len()
                    invariant
                        k <= n.children@.len(),
                        *self == GreenElement::Node(*n),
                        out@ == start + seq_text(n.children@.take(k as int)),
                    decreases n.children@.len() - k,
                {
                    let c = &n.children[k];
                    proof {
                        assert(n.children@.take(k + 1).drop_last() =~= n.children@.take(k as int));
                        assert(decreases_to!(n.children => n.children[k as int]));
                        assert(decreases_to!(*self => (*self)->Node_0));
                        assert((*self)->Node_0 == *n);
                        assert(decreases_to!(*n => n.children));
                        assert(decreases_to!(*self => n.children[k as int]));
                    }
                    c.write_text(out);
                    k = k + 1;
                    assert(out@ =~= start + seq_text(n.children@.take(k as int)));
                }
                assert(n.children@.take(k as int) =~= n.children@);
            },
        }
    }

    /// The covered text as bytes.
    pub fn text_bytes(&self) -> (r: Vec<u8>)
        ensures
            r@ == elem_text(*self),
    {
        let mut out: Vec<u8> = Vec::new();
        self.write_text(&mut out);
        assert(out@ =~= elem_text(*self));
        out
    }

    /// Appends the covered characters to `out`.
    pub fn write_string(&self, out: &mut String)
        ensures
            final(out)@ == old(out)@ + elem_chars(*self),
        decreases self,
    {
        match self {
            GreenElement::Token(t) => {
                out.append(t.text);
            },
            GreenElement::Node(n) => {
                let ghost start = out@;
                let mut k: usize = 0;
                assert(*self == GreenElement::Node(*n));
                assert(n.children@.take(0) =~= Seq::<GreenElement<'a>>::empty());
                assert(start + seq_chars(n.children@.take(0)) =~= start);
                while k < n.children.len()
                    invariant
                        k <= n.children@.len(),
                        *self == GreenElement::Node(*n),
                        out@ == start + seq_chars(n.children@.take(k as int)),
                    decreases n.children@.len() - k,
                {
                    let c = &n.children[k];
                    proof {
                        assert(n.children@.take(k + 1).drop_last() =~= n.children@.take(k as int));
                        assert(decreases_to!(n.children => n.children[k as int]));
                        assert(decreases_to!(*self => (*self)->Node_0));
                        assert((*self)->Node_0 == *n);
                    }
                    c.write_string(out);
                    k = k + 1;
                    assert(out@ =~= start + seq_chars(n.children@.take(k as int)));
                }
                assert(n.children@.take(k as int) =~= n.children@);
            },
        }
    }

    /// The covered text.
    pub fn to_string(&self) -> (r: String)
        ensures
            r@ == elem_chars(*self),
            encode_utf8(r@) == elem_text(*self),
            r@ == decode_utf8(elem_text(*self)),
    {
        let mut out = String::new();
        self.write_string(&mut out);
        proof {
            assert(out@ =~= elem_chars(*self));
            lemma_elem_text_encodes(*self);
            vstd::utf8::encode_utf8_decode_utf8(out@);
        }
        out
    }

    /// The covered length in bytes.
    pub fn text_len(&self) -> (r: usize)
        requires
            elem_text(*self).len() <= usize::MAX,
        ensures
            r == elem_text(*self).len(),
    {
        self.text_bytes().len()
    }
}

} // verus!
