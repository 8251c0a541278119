use vstd::prelude::*;
use vstd::string::StringSliceAdditionalSpecFns;

use crate::bytes::{byte_positions, lemma_byte_positions};
use crate::combinator::{
    blank_line_len, blank_lines, debug_assert_lossless, blank_lines_spec, blank_run_len, is_blank_line_node,
    is_token_of, line_ends_iter, match_blank_line,
};
use crate::input::{Input, ParseConfig};
use crate::kind::SyntaxKind;
use crate::tree::{elem_text, lemma_seq_text_concat, node, seq_text, GreenElement, GreenNode};

verus! {

/// `st` is an index at which a line of `b` begins.
pub open spec fn is_line_start(b: Seq<u8>, st: int) -> bool {
    ||| st == 0
    ||| st == b.len()
    ||| (0 < st <= b.len() && b[st - 1] == 0x0a)
}

/// A blank line begins at `st`.
pub open spec fn blank_at(b: Seq<u8>, st: int) -> bool {
    blank_line_len(b.skip(st)) is Some
}

/// `c` is where the paragraph text of `b` ends: the first line start at which a
/// blank line (or the end of the text) begins.
pub open spec fn is_paragraph_end(b: Seq<u8>, c: int) -> bool {
    &&& 0 <= c <= b.len()
    &&& is_line_start(b, c)
    &&& blank_at(b, c)
    &&& forall|st: int| 0 <= st < c && is_line_start(b, st) ==> !blank_at(b, st)
}

/// The length of the paragraph text that `b` starts with.
pub open spec fn paragraph_content_len(b: Seq<u8>) -> nat {
    (choose|c: int| is_paragraph_end(b, c)) as nat
}

/// How many bytes one paragraph takes: its text and the blank lines after it.
pub open spec fn paragraph_len(b: Seq<u8>) -> nat {
    let c = paragraph_content_len(b);
    c + blank_run_len(b.skip(c as int))
}

proof fn lemma_paragraph_end_unique(b: Seq<u8>, c: int)
    requires
        is_paragraph_end(b, c),
    ensures
        paragraph_content_len(b) == c,
{
    let d = choose|d: int| is_paragraph_end(b, d);
    assert(is_paragraph_end(b, d));
    if d < c {
        assert(!blank_at(b, d));
    } else if c < d {
        assert(!blank_at(b, c));
    }
}

proof fn lemma_blank_run_le(b: Seq<u8>)
    ensures
        blank_run_len(b) <= b.len(),
        blank_lines_spec(b).len() > 0 <==> blank_run_len(b) > 0,
    decreases b.len(),
{
    if b.len() > 0 {
        if let Some(n) = blank_line_len(b) {
            if 0 < n <= b.len() {
                lemma_blank_run_le(b.skip(n as int));
            }
        }
    }
}

/// The inline content of a paragraph: its text as one plain-text token.
pub fn object_nodes<'a>(contents: Input<'a>) -> (r: Vec<GreenElement<'a>>)
    ensures
        contents.bytes().len() == 0 ==> r@.len() == 0,
        contents.bytes().len() > 0 ==> r@.len() == 1 && is_token_of(
            r@[0],
            SyntaxKind::TEXT,
            contents.bytes(),
        ),
        seq_text(r@) == contents.bytes(),
{
    let mut r: Vec<GreenElement<'a>> = Vec::new();
    if !contents.is_empty() {
        r.push(contents.text_token());
        proof {
            crate::tree::lemma_seq_text_push(Seq::<GreenElement<'a>>::empty(), r@[0]);
            assert(Seq::<GreenElement<'a>>::empty().push(r@[0]) =~= r@);
            assert(Seq::<u8>::empty() + contents.bytes() =~= contents.bytes());
        }
    } else {
        assert(seq_text(r@) =~= contents.bytes());
    }
    r
}

/// Takes one paragraph: the lines up to the first blank one as its text, then
/// the blank lines that follow it as trailing children of the same node.
#[verifier::rlimit(40)]
pub fn paragraph_node<'a>(input: Input<'a>) -> (r: (Input<'a>, GreenElement<'a>))
    requires
        input.bytes().len() > 0,
    ensures
        ({
            let b = input.bytes();
            let c = paragraph_content_len(b);
            let t = if c > 0 {
                1int
            } else {
                0int
            };
            let lines = blank_lines_spec(b.skip(c as int));
            &&& is_paragraph_end(b, c as int)
            &&& r.1 matches GreenElement::Node(n) && {
                &&& n.kind == SyntaxKind::PARAGRAPH
                &&& n.children@.len() == t + lines.len()
                &&& c > 0 ==> is_token_of(n.children@[0], SyntaxKind::TEXT, b.take(c as int))
                &&& forall|j: int|
                    t <= j < n.children@.len() ==> is_blank_line_node(
                        #[trigger] n.children@[j],
                        lines[j - t],
                    )
            }
            &&& r.0.bytes() == b.skip(paragraph_len(b) as int)
        }),
        elem_text(r.1) + r.0.bytes() == input.bytes(),
        0 < paragraph_len(input.bytes()) <= input.bytes().len(),
        r.0.bytes().len() < input.bytes().len(),
        r.0.c == input.c,
{
    let s = input.as_str();
    let bytes = input.as_bytes();
    let ghost b = bytes@;
    let ghost p = byte_positions(b, 0x0a);
    let ends = line_ends_iter(s);
    let mut start: usize = 0;
    let mut k: usize = 0;
    proof {
        lemma_byte_positions(b, 0x0a);
    }
    while k < ends.len()
        invariant
            b == bytes@,
            b == input.bytes(),
            p == byte_positions(b, 0x0a),
            ends@.len() == p.len() + 1,
            ends@.last() == b.len(),
            forall|j: int| 0 <= j < p.len() ==> #[trigger] ends@[j] as int == p[j] + 1,
            k <= ends@.len(),
            k == 0 ==> start == 0,
            k > 0 ==> start == ends@[k - 1],
            start <= b.len(),
            is_line_start(b, start as int),
            forall|st: int| 0 <= st < start && is_line_start(b, st) ==> !blank_at(b, st),
        ensures
            is_line_start(b, start as int),
            start <= b.len(),
            blank_at(b, start as int),
            forall|st: int| 0 <= st < start && is_line_start(b, st) ==> !blank_at(b, st),
        decreases ends@.len() - k,
    {
        proof {
            lemma_byte_positions(b, 0x0a);
        }
        let found = match_blank_line(&bytes[start..bytes.len()]);
        proof {
            assert(bytes@.subrange(start as int, bytes@.len() as int) =~= b.skip(start as int));
        }
        if found.is_some() {
            break ;
        }
        let idx = ends[k];
        proof {
            if k < p.len() {
                assert(b[p[k as int]] == 0x0a);
                if k > 0 {
                    assert(p[k - 1] < p[k as int]);
                }
            }
            assert forall|st: int| 0 <= st < idx && is_line_start(b, st) implies !blank_at(
                b,
                st,
            ) by {
                if st > start && st < b.len() && st != 0 {
                    let q = st - 1;
                    assert(b[q] == 0x0a);
                    let kk = choose|kk: int| 0 <= kk < p.len() && p[kk] == q;
                    if kk < k {
                        if k > 0 && kk < k - 1 {
                            assert(p[kk] < p[k - 1]);
                        }
                    } else if kk > k {
                        assert(p[k as int] < p[kk]);
                    }
                }
            }
        }
        start = idx;
        k = k + 1;
    }
    proof {
        lemma_paragraph_end_unique(b, start as int);
    }
    let (rest, contents) = input.take_split_ascii(start);
    let (after, post_blank) = blank_lines(rest);
    let mut children = object_nodes(contents);
    let ghost obj = children@;
    let mut post_blank = post_blank;
    let ghost lines = post_blank@;
    children.append(&mut post_blank);
    proof {
        let c = start as int;
        assert(rest.bytes() =~= b.skip(c));
        lemma_seq_text_concat(obj, lines);
        assert(children@ =~= obj + lines);
        lemma_blank_run_le(b.skip(c));
        assert(after.bytes() =~= b.skip(c + blank_run_len(b.skip(c))));
        let t = if c > 0 { 1int } else { 0int };
        assert forall|j: int| t <= j < children@.len() implies is_blank_line_node(
            #[trigger] children@[j],
            blank_lines_spec(b.skip(c))[j - t],
        ) by {
            assert(children@[j] == lines[j - t]);
        }
        if c == 0 {
            assert(b.skip(0) =~= b);
            crate::combinator::lemma_hspace_len_le(b);
            assert(blank_lines_spec(b).len() > 0);
        }
        assert(seq_text(obj) == contents.bytes());
        assert(seq_text(lines) + after.bytes() == rest.bytes());
        assert(contents.bytes() + rest.bytes() =~= b);
        assert(seq_text(children@) + after.bytes() =~= contents.bytes() + (seq_text(lines)
            + after.bytes()));
    }
    let r = node(SyntaxKind::PARAGRAPH, children);
    debug_assert_lossless(input, (after, r))
}

/// Each element of `cs` is a paragraph node covering exactly one paragraph of
/// `b`, taken where the elements before it leave off.
pub open spec fn is_paragraph_seq<'a>(b: Seq<u8>, cs: Seq<GreenElement<'a>>) -> bool {
    forall|j: int|
        0 <= j < cs.len() ==> {
            let rest = b.skip(seq_text(cs.take(j)).len() as int);
            &&& #[trigger] cs[j] matches GreenElement::Node(n) && n.kind == SyntaxKind::PARAGRAPH
            &&& rest.len() > 0
            &&& elem_text(cs[j]) == rest.take(paragraph_len(rest) as int)
        }
}

proof fn lemma_paragraph_seq_push<'a>(
    b: Seq<u8>,
    cs: Seq<GreenElement<'a>>,
    e: GreenElement<'a>,
    rest: Seq<u8>,
)
    requires
        is_paragraph_seq(b, cs),
        seq_text(cs) + rest == b,
        rest.len() > 0,
        e matches GreenElement::Node(n) && n.kind == SyntaxKind::PARAGRAPH,
        elem_text(e) == rest.take(paragraph_len(rest) as int),
    ensures
        is_paragraph_seq(b, cs.push(e)),
{
    let ds = cs.push(e);
    assert(ds.take(cs.len() as int) =~= cs);
    assert forall|j: int| 0 <= j < ds.len() implies {
        let r = b.skip(seq_text(ds.take(j)).len() as int);
        &&& #[trigger] ds[j] matches GreenElement::Node(n) && n.kind == SyntaxKind::PARAGRAPH
        &&& r.len() > 0
        &&& elem_text(ds[j]) == r.take(paragraph_len(r) as int)
    } by {
        if j < cs.len() {
            assert(ds.take(j) =~= cs.take(j));
        } else {
            assert(b.skip(seq_text(cs).len() as int) =~= rest);
        }
    }
}

/// Splits the whole input into paragraphs, each with its trailing blank lines.
/// The leaves of the result, in order, spell the input exactly.
pub fn paragraph_nodes<'a>(input: Input<'a>) -> (r: Vec<GreenElement<'a>>)
    ensures
        seq_text(r@) == input.bytes(),
        is_paragraph_seq(input.bytes(), r@),
{
    let mut i = input;
    let mut children: Vec<GreenElement<'a>> = Vec::new();
    proof {
        assert(seq_text(children@) + i.bytes() =~= input.bytes());
    }
    while !i.is_empty()
        invariant
            seq_text(children@) + i.bytes() == input.bytes(),
            is_paragraph_seq(input.bytes(), children@),
        decreases i.bytes().len(),
    {
        let (rest, node) = paragraph_node(i);
        proof {
            let pl = paragraph_len(i.bytes()) as int;
            assert(rest.bytes() == i.bytes().skip(pl));
            assert(elem_text(node) =~= i.bytes().take(pl));
            lemma_paragraph_seq_push(input.bytes(), children@, node, i.bytes());
            crate::tree::lemma_seq_text_push(children@, node);
            assert(seq_text(children@.push(node)) + rest.bytes() =~= seq_text(children@) + (
            elem_text(node) + rest.bytes()));
        }
        children.push(node);
        i = rest;
    }
    proof {
        assert(seq_text(children@) + i.bytes() =~= seq_text(children@));
    }
    children
}

/// Parses a whole document: a root node whose children are its paragraphs.
pub fn document_node<'a>(s: &'a str, config: &'a ParseConfig) -> (r: GreenElement<'a>)
    ensures
        elem_text(r) == s.spec_bytes(),
        r matches GreenElement::Node(n) && n.kind == SyntaxKind::DOCUMENT && is_paragraph_seq(
            s.spec_bytes(),
            n.children@,
        ),
{
    let children = paragraph_nodes(Input::new(s, config));
    node(SyntaxKind::DOCUMENT, children)
}

} // verus!
