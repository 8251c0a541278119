use vstd::prelude::*;
use vstd::string::StringSliceAdditionalSpecFns;

use crate::bytes::{
    byte_positions, is_ascii_whitespace, is_ascii_ws, is_hspace, lemma_byte_positions,
};
use crate::input::{is_ascii_byte, Input};
use crate::kind::SyntaxKind;
use crate::tree::{
    elem_text, lemma_seq_text_push, node, seq_text, GreenElement, GreenNode, GreenToken,
};

verus! {

/// Relies on memchr::memchr: the index of the first occurrence of the byte, if any.
#[verifier::external_body]
pub(crate) fn find_byte(needle: u8, haystack: &[u8]) -> (r: Option<usize>)
    ensures
        r matches Some(i) ==> byte_positions(haystack@, needle).len() > 0
            && i == byte_positions(haystack@, needle)[0],
        r is None ==> byte_positions(haystack@, needle).len() == 0,
{
    memchr::memchr(needle, haystack)
}

/// Relies on memchr::memchr_iter: every occurrence of the byte, in increasing order.
#[verifier::external_body]
pub(crate) fn find_all_bytes(needle: u8, haystack: &[u8]) -> (r: Vec<usize>)
    ensures
        r@.len() == byte_positions(haystack@, needle).len(),
        forall|k: int|
            0 <= k < r@.len() ==> #[trigger] r@[k] as int == byte_positions(haystack@, needle)[k],
{
    memchr::memchr_iter(needle, haystack).collect()
}

/// The number of spaces and tabs that `b` starts with.
pub open spec fn hspace_len(b: Seq<u8>) -> nat
    decreases b.len(),
{
    if b.len() > 0 && is_hspace(b[0]) {
        1 + hspace_len(b.skip(1))
    } else {
        0
    }
}

pub proof fn lemma_hspace_len(b: Seq<u8>, k: int)
    requires
        0 <= k <= b.len(),
        forall|i: int| 0 <= i < k ==> is_hspace(#[trigger] b[i]),
        k == b.len() || !is_hspace(b[k]),
    ensures
        hspace_len(b) == k,
    decreases k,
{
    if k > 0 {
        assert(is_hspace(b[0]));
        lemma_hspace_len(b.skip(1), k - 1);
    }
}

pub proof fn lemma_hspace_len_le(b: Seq<u8>)
    ensures
        hspace_len(b) <= b.len(),
    decreases b.len(),
{
    if b.len() > 0 && is_hspace(b[0]) {
        lemma_hspace_len_le(b.skip(1));
    }
}

/// The length of the blank line that `b` starts with: spaces and tabs, then
/// `"\n"`, `"\r\n"` or the end of the text. `None` where the first line is not blank.
pub open spec fn blank_line_len(b: Seq<u8>) -> Option<nat> {
    let k = hspace_len(b);
    if k >= b.len() {
        Some(k)
    } else if b[k as int] == 0x0a {
        Some(k + 1)
    } else if k + 1 < b.len() && b[k as int] == 0x0d && b[k + 1int] == 0x0a {
        Some(k + 2)
    } else {
        None
    }
}

/// The blank lines `b` starts with, one after the other, each through its line ending.
pub open spec fn blank_lines_spec(b: Seq<u8>) -> Seq<Seq<u8>>
    decreases b.len(),
{
    if b.len() == 0 {
        seq![]
    } else {
        match blank_line_len(b) {
            Some(n) => if 0 < n <= b.len() {
                seq![b.take(n as int)] + blank_lines_spec(b.skip(n as int))
            } else {
                seq![]
            },
            None => seq![],
        }
    }
}

/// How many bytes the blank lines at the start of `b` take together.
pub open spec fn blank_run_len(b: Seq<u8>) -> nat
    decreases b.len(),
{
    if b.len() == 0 {
        0
    } else {
        match blank_line_len(b) {
            Some(n) => if 0 < n <= b.len() {
                n + blank_run_len(b.skip(n as int))
            } else {
                0
            },
            None => 0,
        }
    }
}

/// `e` is a token of the given kind covering exactly `text`.
pub open spec fn is_token_of<'a>(e: GreenElement<'a>, kind: SyntaxKind, text: Seq<u8>) -> bool {
    match e {
        GreenElement::Token(t) => t.kind == kind && t.text.spec_bytes() == text,
        GreenElement::Node(_) => false,
    }
}

/// `e` is the blank-line node for `line`: a whitespace token where the line has
/// leading spaces or tabs, then a line-ending token where it has a line ending.
pub open spec fn is_blank_line_node<'a>(e: GreenElement<'a>, line: Seq<u8>) -> bool {
    let k = hspace_len(line) as int;
    match e {
        GreenElement::Node(n) => {
            &&& n.kind == SyntaxKind::BLANK_LINE
            &&& elem_text(e) == line
            &&& n.children@.len() == (if k > 0 { 1int } else { 0int }) + (if k < line.len() { 1int } else { 0int })
            &&& k > 0 ==> is_token_of(n.children@[0], SyntaxKind::WHITESPACE, line.take(k))
            &&& k < line.len() ==> is_token_of(n.children@.last(), SyntaxKind::NEW_LINE, line.skip(k))
        },
        GreenElement::Token(_) => false,
    }
}

/// Finds the blank line at the start of `b`: the end of its spaces and tabs,
/// and the end of the line.
pub(crate) fn match_blank_line(b: &[u8]) -> (r: Option<(usize, usize)>)
    ensures
        match r {
            Some((k, n)) => {
                &&& blank_line_len(b@) == Some(n as nat)
                &&& k == hspace_len(b@)
                &&& k <= n <= b@.len()
                &&& forall|i: int| 0 <= i < k ==> is_hspace(#[trigger] b@[i])
                &&& {
                    ||| n == k && k == b@.len()
                    ||| n == k + 1 && b@[k as int] == 0x0a
                    ||| n == k + 2 && b@[k as int] == 0x0d && b@[k + 1] == 0x0a
                }
            },
            None => blank_line_len(b@) is None,
        },
{
    let len = b.len();
    let mut k: usize = 0;
    while k < len && (b[k] == 0x20 || b[k] == 0x09)
        invariant
            k <= len == b@.len(),
            forall|i: int| 0 <= i < k ==> is_hspace(#[trigger] b@[i]),
        decreases len - k,
    {
        k = k + 1;
    }
    proof {
        lemma_hspace_len(b@, k as int);
    }
    if k == len {
        Some((k, k))
    } else if b[k] == 0x0a {
        Some((k, k + 1))
    } else if k + 1 < len && b[k] == 0x0d && b[k + 1] == 0x0a {
        Some((k, k + 2))
    } else {
        None
    }
}

/// A transient accumulator of children, turned into a node exactly once.
pub struct NodeBuilder<'a> {
    pub children: Vec<GreenElement<'a>>,
}

impl<'a> NodeBuilder<'a> {
    pub fn new() -> (r: NodeBuilder<'a>)
        ensures
            r.children@ == Seq::<GreenElement<'a>>::empty(),
    {
        NodeBuilder { children: Vec::new() }
    }

    /// Appends a whitespace token, unless the text is empty.
    pub fn ws(&mut self, i: Input<'a>)
        requires
            forall|j: int| 0 <= j < i.bytes().len() ==> is_hspace(#[trigger] i.bytes()[j]),
        ensures
            final(self).children@ == if i.bytes().len() == 0 {
                old(self).children@
            } else {
                old(self).children@.push(
                    GreenElement::Token(GreenToken { kind: SyntaxKind::WHITESPACE, text: i.s }),
                )
            },
    {
        if !i.is_empty() {
            self.children.push(i.ws_token());
        }
    }

    /// Appends a line-ending token, unless the text is empty.
    pub fn nl(&mut self, i: Input<'a>)
        requires
            i.bytes() == Seq::<u8>::empty() || i.bytes() == seq![0x0au8] || i.bytes() == seq![
                0x0du8,
                0x0au8,
            ],
        ensures
            final(self).children@ == if i.bytes().len() == 0 {
                old(self).children@
            } else {
                old(self).children@.push(
                    GreenElement::Token(GreenToken { kind: SyntaxKind::NEW_LINE, text: i.s }),
                )
            },
    {
        if !i.is_empty() {
            self.children.push(i.nl_token());
        }
    }

    /// Appends a text token.
    pub fn text(&mut self, i: Input<'a>)
        ensures
            final(self).children@ == old(self).children@.push(
                GreenElement::Token(GreenToken { kind: SyntaxKind::TEXT, text: i.s }),
            ),
    {
        self.children.push(i.text_token());
    }

    /// Appends a token of any kind.
    pub fn token(&mut self, kind: SyntaxKind, i: Input<'a>)
        ensures
            final(self).children@ == old(self).children@.push(
                GreenElement::Token(GreenToken { kind, text: i.s }),
            ),
    {
        self.children.push(i.token(kind));
    }

    /// Appends an already-built element.
    pub fn push(&mut self, elem: GreenElement<'a>)
        ensures
            final(self).children@ == old(self).children@.push(elem),
    {
        self.children.push(elem);
    }

    /// Appends the element, if there is one.
    pub fn push_opt(&mut self, elem: Option<GreenElement<'a>>)
        ensures
            final(self).children@ == match elem {
                Some(e) => old(self).children@.push(e),
                None => old(self).children@,
            },
    {
        if let Some(elem) = elem {
            self.children.push(elem);
        }
    }

    pub fn len(&self) -> (r: usize)
        ensures
            r == self.children@.len(),
    {
        self.children.len()
    }

    /// Turns the accumulated children into a node of the given kind.
    pub fn finish(self, kind: SyntaxKind) -> (r: GreenElement<'a>)
        ensures
            r == GreenElement::Node(GreenNode { kind, children: self.children }),
            elem_text(r) == seq_text(self.children@),
    {
        node(kind, self.children)
    }
}

/// Takes all blank lines at the start of the input, each as one blank-line node.
#[verifier::rlimit(30)]
pub fn blank_lines<'a>(input: Input<'a>) -> (r: (Input<'a>, Vec<GreenElement<'a>>))
    ensures
        r.0.c == input.c,
        seq_text(r.1@) + r.0.bytes() == input.bytes(),
        r.0.bytes() == input.bytes().skip(blank_run_len(input.bytes()) as int),
        r.1@.len() == blank_lines_spec(input.bytes()).len(),
        forall|j: int|
            0 <= j < r.1@.len() ==> is_blank_line_node(
                #[trigger] r.1@[j],
                blank_lines_spec(input.bytes())[j],
            ),
        blank_line_len(input.bytes()) is None ==> r.1@.len() == 0 && r.0 == input,
{
    let ghost orig = input.bytes();
    let ghost mut done: Seq<Seq<u8>> = seq![];
    let mut lines: Vec<GreenElement<'a>> = Vec::new();
    let mut i = input;
    while !i.is_empty()
        invariant
            i.c == input.c,
            orig == input.bytes(),
            seq_text(lines@) + i.bytes() == orig,
            blank_run_len(orig) == (orig.len() - i.bytes().len()) + blank_run_len(i.bytes()),
            blank_lines_spec(orig) == done + blank_lines_spec(i.bytes()),
            lines@.len() == done.len(),
            forall|j: int| 0 <= j < lines@.len() ==> is_blank_line_node(#[trigger] lines@[j], done[j]),
            lines@.len() == 0 ==> i == input,
        ensures
            i.c == input.c,
            seq_text(lines@) + i.bytes() == orig,
            blank_run_len(orig) == (orig.len() - i.bytes().len()) + blank_run_len(i.bytes()),
            blank_lines_spec(orig) == done + blank_lines_spec(i.bytes()),
            lines@.len() == done.len(),
            forall|j: int| 0 <= j < lines@.len() ==> is_blank_line_node(#[trigger] lines@[j], done[j]),
            lines@.len() == 0 ==> i == input,
            i.bytes().len() == 0 || blank_line_len(i.bytes()) is None,
        decreases i.bytes().len(),
    {
        let b = i.as_bytes();
        match match_blank_line(b) {
            Some((k, n)) => {
                let ghost bs = b@;
                let (after, line) = i.take_split_ascii(n);
                let (nl, ws) = line.take_split_ascii(k);
                let ghost lb = line.bytes();
                proof {
                    assert(bs.skip(n as int) =~= after.bytes());
                    assert(bs.take(n as int) =~= lb);
                    assert forall|j: int| 0 <= j < ws.bytes().len() implies is_hspace(
                        #[trigger] ws.bytes()[j],
                    ) by {
                        assert(ws.bytes()[j] == bs[j]);
                    }
                    assert forall|j: int| 0 <= j < k implies is_hspace(#[trigger] lb[j]) by {
                        assert(lb[j] == ws.bytes()[j]);
                    }
                    lemma_hspace_len(lb, k as int);
                    if n == k + 1 {
                        assert(nl.bytes() =~= seq![0x0au8]);
                    } else if n == k + 2 {
                        assert(nl.bytes() =~= seq![0x0du8, 0x0au8]);
                    } else {
                        assert(nl.bytes() =~= Seq::<u8>::empty());
                    }
                }
                let mut nb = NodeBuilder::new();
                let ghost c0 = nb.children@;
                nb.ws(ws);
                let ghost c1 = nb.children@;
                nb.nl(nl);
                let ghost c2 = nb.children@;
                proof {
                    if ws.bytes().len() > 0 {
                        lemma_seq_text_push(c0, c1.last());
                    }
                    if nl.bytes().len() > 0 {
                        lemma_seq_text_push(c1, c2.last());
                    }
                    assert(seq_text(c2) =~= ws.bytes() + nl.bytes());
                    assert(ws.bytes() + nl.bytes() =~= lb);
                    if k > 0 {
                        assert(lb.take(k as int) =~= ws.bytes());
                    }
                    if k < lb.len() {
                        assert(lb.skip(k as int) =~= nl.bytes());
                    }
                }
                let e = nb.finish(SyntaxKind::BLANK_LINE);
                proof {
                    lemma_seq_text_push(lines@, e);
                    assert(blank_lines_spec(bs) == seq![lb] + blank_lines_spec(after.bytes()));
                    assert(done.push(lb) + blank_lines_spec(after.bytes()) =~= done + (seq![lb]
                        + blank_lines_spec(after.bytes())));
                    done = done.push(lb);
                    assert(seq_text(lines@) + lb + after.bytes() =~= seq_text(lines@) + i.bytes());
                }
                lines.push(e);
                i = after;
            },
            None => {
                break ;
            },
        }
    }
    proof {
        let m = orig.len() - i.bytes().len();
        assert(seq_text(lines@).len() == m);
        assert(orig.skip(m) =~= i.bytes());
        if i.bytes().len() == 0 {
            assert(blank_lines_spec(i.bytes()) =~= Seq::<Seq<u8>>::empty());
        }
        assert(done + blank_lines_spec(i.bytes()) =~= done);
    }
    (i, lines)
}

/// Hands a parser's result back unchanged. Its precondition is the lossless
/// check: the output's text followed by the remaining input is the input.
pub fn debug_assert_lossless<'a>(input: Input<'a>, result: (Input<'a>, GreenElement<'a>)) -> (r: (
    Input<'a>,
    GreenElement<'a>,
))
    requires
        elem_text(result.1) + result.0.bytes() == input.bytes(),
    ensures
        r == result,
{
    result
}

/// The length of the first line of `b`, through its line feed where it has one.
pub open spec fn first_line_len(b: Seq<u8>) -> nat {
    let p = byte_positions(b, 0x0a);
    if p.len() > 0 {
        (p[0] + 1) as nat
    } else {
        b.len()
    }
}

/// The length of `line` once its trailing ASCII whitespace is left off.
pub open spec fn content_len(line: Seq<u8>) -> nat
    decreases line.len(),
{
    if line.len() == 0 {
        0
    } else if is_ascii_ws(line.last()) {
        content_len(line.drop_last())
    } else {
        line.len()
    }
}

/// Where the first line of `b` ends, where its content ends, and where the
/// spaces and tabs after the content end.
pub open spec fn line_end_split(b: Seq<u8>) -> (nat, nat, nat) {
    let l = first_line_len(b);
    let line = b.take(l as int);
    let c = content_len(line);
    (l, c, c + hspace_len(line.skip(c as int)))
}

/// Splits the first line into its content, the spaces and tabs after it, and
/// what follows them (the line ending); returns the rest of the input with them.
#[verifier::rlimit(30)]
pub fn trim_line_end<'a>(input: Input<'a>) -> (r: (Input<'a>, (Input<'a>, Input<'a>, Input<'a>)))
    ensures
        ({
            let b = input.bytes();
            let (l, c, w) = line_end_split(b);
            &&& c <= w <= l <= b.len()
            &&& r.0.bytes() == b.skip(l as int)
            &&& (r.1).0.bytes() == b.take(c as int)
            &&& (r.1).1.bytes() == b.subrange(c as int, w as int)
            &&& (r.1).2.bytes() == b.subrange(w as int, l as int)
        }),
        (r.1).0.bytes() + (r.1).1.bytes() + (r.1).2.bytes() == input.bytes().take(
            first_line_len(input.bytes()) as int,
        ),
        r.0.c == input.c,
        (r.1).0.c == input.c,
        (r.1).1.c == input.c,
        (r.1).2.c == input.c,
{
    let bytes = input.as_bytes();
    let n = bytes.len();
    let ghost b = bytes@;
    proof {
        lemma_byte_positions(b, 0x0a);
    }
    let l = match find_byte(0x0a, bytes) {
        Some(p) => p + 1,
        None => n,
    };
    let (rest, line) = input.take_split_ascii(l);
    let lb = line.as_bytes();
    let mut c: usize = lb.len();
    assert(lb@.take(c as int) =~= lb@);
    while c > 0 && is_ascii_whitespace(lb[c - 1])
        invariant
            c <= lb@.len(),
            content_len(lb@) == content_len(lb@.take(c as int)),
            forall|j: int| c <= j < lb@.len() ==> is_ascii_ws(#[trigger] lb@[j]),
        decreases c,
    {
        assert(lb@.take(c as int).drop_last() =~= lb@.take(c - 1));
        c = c - 1;
    }
    proof {
        if c > 0 {
            assert(lb@.take(c as int).drop_last() =~= lb@.take(c - 1));
        }
        assert(content_len(lb@.take(c as int)) == c);
    }
    let (ws_and_nl, contents) = line.take_split_ascii(c);
    let wb = ws_and_nl.as_bytes();
    let mut k: usize = 0;
    while k < wb.len() && (wb[k] == 0x20 || wb[k] == 0x09)
        invariant
            k <= wb@.len(),
            forall|i: int| 0 <= i < k ==> is_hspace(#[trigger] wb@[i]),
        decreases wb@.len() - k,
    {
        k = k + 1;
    }
    proof {
        lemma_hspace_len(wb@, k as int);
        assert(lb@.skip(c as int) =~= wb@);
        assert(b.take(l as int) =~= lb@);
    }
    let (nl, ws) = ws_and_nl.take_split_ascii(k);
    proof {
        assert(rest.bytes() =~= b.skip(l as int));
        assert(contents.bytes() =~= b.take(c as int));
        assert(ws.bytes() =~= b.subrange(c as int, c + k));
        assert(nl.bytes() =~= b.subrange(c + k, l as int));
        assert(contents.bytes() + ws.bytes() + nl.bytes() =~= lb@);
    }
    (rest, (contents, ws, nl))
}

/// Every index at which a line begins: zero, then the index after each line feed.
pub fn line_starts_iter(s: &str) -> (r: Vec<usize>)
    ensures
        r@.len() == byte_positions(s.spec_bytes(), 0x0a).len() + 1,
        r@[0] == 0,
        forall|k: int|
            0 <= k < byte_positions(s.spec_bytes(), 0x0a).len() ==> #[trigger] r@[k + 1] as int
                == byte_positions(s.spec_bytes(), 0x0a)[k] + 1,
{
    let bytes = s.as_bytes();
    let ghost p = byte_positions(bytes@, 0x0a);
    let pos = find_all_bytes(0x0a, bytes);
    let n = bytes.len();
    proof {
        lemma_byte_positions(bytes@, 0x0a);
    }
    let mut r: Vec<usize> = Vec::new();
    r.push(0);
    let mut k: usize = 0;
    while k < pos.len()
        invariant
            k <= pos@.len() == p.len(),
            p == byte_positions(s.spec_bytes(), 0x0a),
            forall|j: int| 0 <= j < pos@.len() ==> #[trigger] pos@[j] as int == p[j],
            forall|j: int| 0 <= j < p.len() ==> 0 <= #[trigger] p[j] < bytes@.len(),
            bytes@.len() == n,
            r@.len() == k + 1,
            r@[0] == 0,
            forall|j: int| 0 <= j < k ==> #[trigger] r@[j + 1] as int == p[j] + 1,
        decreases pos@.len() - k,
    {
        assert(pos@[k as int] as int == p[k as int]);
        r.push(pos[k] + 1);
        k = k + 1;
    }
    r
}

/// Every index just past a line ending: the index after each line feed, then
/// the length of the text.
pub fn line_ends_iter(s: &str) -> (r: Vec<usize>)
    ensures
        r@.len() == byte_positions(s.spec_bytes(), 0x0a).len() + 1,
        r@.last() == s.spec_bytes().len(),
        forall|k: int|
            0 <= k < byte_positions(s.spec_bytes(), 0x0a).len() ==> #[trigger] r@[k] as int
                == byte_positions(s.spec_bytes(), 0x0a)[k] + 1,
{
    let bytes = s.as_bytes();
    let ghost p = byte_positions(bytes@, 0x0a);
    let pos = find_all_bytes(0x0a, bytes);
    let n = bytes.len();
    proof {
        lemma_byte_positions(bytes@, 0x0a);
    }
    let mut r: Vec<usize> = Vec::new();
    let mut k: usize = 0;
    while k < pos.len()
        invariant
            k <= pos@.len() == p.len(),
            p == byte_positions(s.spec_bytes(), 0x0a),
            forall|j: int| 0 <= j < pos@.len() ==> #[trigger] pos@[j] as int == p[j],
            forall|j: int| 0 <= j < p.len() ==> 0 <= #[trigger] p[j] < bytes@.len(),
            bytes@.len() == n,
            r@.len() == k,
            forall|j: int| 0 <= j < k ==> #[trigger] r@[j] as int == p[j] + 1,
        decreases pos@.len() - k,
    {
        assert(pos@[k as int] as int == p[k as int]);
        r.push(pos[k] + 1);
        k = k + 1;
    }
    r.push(n);
    r
}

/// `r` is what recognizing the fixed text `tag` as a token of `kind` gives:
/// a token for it and the input after it where the input starts with it, else nothing.
pub open spec fn tag_result<'a>(
    input: Input<'a>,
    tag: Seq<u8>,
    kind: SyntaxKind,
    r: Option<(Input<'a>, GreenElement<'a>)>,
) -> bool {
    let b = input.bytes();
    &&& r is Some <==> (tag.len() <= b.len() && b.take(tag.len() as int) == tag)
    &&& r matches Some((rest, e)) ==> {
        &&& is_token_of(e, kind, tag)
        &&& rest.bytes() == b.skip(tag.len() as int)
        &&& rest.c == input.c
    }
}

/// Recognizes the fixed ASCII text `tag` at the start of the input.
pub fn tag_token<'a>(input: Input<'a>, tag: &str, kind: SyntaxKind) -> (r: Option<
    (Input<'a>, GreenElement<'a>),
>)
    requires
        vstd::string::is_ascii(tag),
    ensures
        tag_result(input, tag.spec_bytes(), kind, r),
{
    let b = input.as_bytes();
    let t = tag.as_bytes();
    if t.len() > b.len() {
        return None;
    }
    let mut k: usize = 0;
    while k < t.len()
        invariant
            k <= t@.len() <= b@.len(),
            b@ == input.bytes(),
            t@ == tag.spec_bytes(),
            forall|j: int| 0 <= j < k ==> #[trigger] b@[j] == t@[j],
        decreases t@.len() - k,
    {
        if b[k] != t[k] {
            assert(b@.take(t@.len() as int)[k as int] == b@[k as int]);
            assert(b@.take(t@.len() as int) != t@);
            return None;
        }
        k = k + 1;
    }
    proof {
        assert(b@.take(t@.len() as int) =~= t@);
        vstd::string::is_ascii_spec_bytes(tag);
        if t@.len() > 0 {
            assert(is_ascii_byte(b@[t@.len() - 1]));
        }
    }
    let (rest, head) = input.take_split_ascii(t.len());
    proof {
        assert(head.bytes() =~= t@);
        assert(rest.bytes() =~= b@.skip(t@.len() as int));
    }
    Some((rest, head.token(kind)))
}

/// Recognizes `[`.
pub fn l_bracket_token<'a>(input: Input<'a>) -> (r: Option<(Input<'a>, GreenElement<'a>)>)
    ensures
        tag_result(input, seq![0x5bu8], SyntaxKind::L_BRACKET, r),
{
    proof {
        reveal_strlit("[");
        vstd::string::is_ascii_spec_bytes("[");
        assert("[".spec_bytes() =~= seq![0x5bu8]);
    }
    tag_token(input, "[", SyntaxKind::L_BRACKET)
}

/// Recognizes `]`.
pub fn r_bracket_token<'a>(input: Input<'a>) -> (r: Option<(Input<'a>, GreenElement<'a>)>)
    ensures
        tag_result(input, seq![0x5du8], SyntaxKind::R_BRACKET, r),
{
    proof {
        reveal_strlit("]");
        vstd::string::is_ascii_spec_bytes("]");
        assert("]".spec_bytes() =~= seq![0x5du8]);
    }
    tag_token(input, "]", SyntaxKind::R_BRACKET)
}

/// Recognizes `[[`.
pub fn l_bracket2_token<'a>(input: Input<'a>) -> (r: Option<(Input<'a>, GreenElement<'a>)>)
    ensures
        tag_result(input, seq![0x5bu8, 0x5bu8], SyntaxKind::L_BRACKET2, r),
{
    proof {
        reveal_strlit("[[");
        vstd::string::is_ascii_spec_bytes("[[");
        assert("[[".spec_bytes() =~= seq![0x5bu8, 0x5bu8]);
    }
    tag_token(input, "[[", SyntaxKind::L_BRACKET2)
}

/// Recognizes `]]`.
pub fn r_bracket2_token<'a>(input: Input<'a>) -> (r: Option<(Input<'a>, GreenElement<'a>)>)
    ensures
        tag_result(input, seq![0x5du8, 0x5du8], SyntaxKind::R_BRACKET2, r),
{
    proof {
        reveal_strlit("]]");
        vstd::string::is_ascii_spec_bytes("]]");
        assert("]]".spec_bytes() =~= seq![0x5du8, 0x5du8]);
    }
    tag_token(input, "]]", SyntaxKind::R_BRACKET2)
}

/// Recognizes `(`.
pub fn l_parens_token<'a>(input: Input<'a>) -> (r: Option<(Input<'a>, GreenElement<'a>)>)
    ensures
        tag_result(input, seq![0x28u8], SyntaxKind::L_PARENS, r),
{
    proof {
        reveal_strlit("(");
        vstd::string::is_ascii_spec_bytes("(");
        assert("(".spec_bytes() =~= seq![0x28u8]);
    }
    tag_token(input, "(", SyntaxKind::L_PARENS)
}

/// Recognizes `)`.
pub fn r_parens_token<'a>(input: Input<'a>) -> (r: Option<(Input<'a>, GreenElement<'a>)>)
    ensures
        tag_result(input, seq![0x29u8], SyntaxKind::R_PARENS, r),
{
    proof {
        reveal_strlit(")");
        vstd::string::is_ascii_spec_bytes(")");
        assert(")".spec_bytes() =~= seq![0x29u8]);
    }
    tag_token(input, ")", SyntaxKind::R_PARENS)
}

/// Recognizes `<`.
pub fn l_angle_token<'a>(input: Input<'a>) -> (r: Option<(Input<'a>, GreenElement<'a>)>)
    ensures
        tag_result(input, seq![0x3cu8], SyntaxKind::L_ANGLE, r),
{
    proof {
        reveal_strlit("<");
        vstd::string::is_ascii_spec_bytes("<");
        assert("<".spec_bytes() =~= seq![0x3cu8]);
    }
    tag_token(input, "<", SyntaxKind::L_ANGLE)
}

/// Recognizes `>`.
pub fn r_angle_token<'a>(input: Input<'a>) -> (r: Option<(Input<'a>, GreenElement<'a>)>)
    ensures
        tag_result(input, seq![0x3eu8], SyntaxKind::R_ANGLE, r),
{
    proof {
        reveal_strlit(">");
        vstd::string::is_ascii_spec_bytes(">");
        assert(">".spec_bytes() =~= seq![0x3eu8]);
    }
    tag_token(input, ">", SyntaxKind::R_ANGLE)
}

/// Recognizes `{`.
pub fn l_curly_token<'a>(input: Input<'a>) -> (r: Option<(Input<'a>, GreenElement<'a>)>)
    ensures
        tag_result(input, seq![0x7bu8], SyntaxKind::L_CURLY, r),
{
    proof {
        reveal_strlit("{");
        vstd::string::is_ascii_spec_bytes("{");
        assert("{".spec_bytes() =~= seq![0x7bu8]);
    }
    tag_token(input, "{", SyntaxKind::L_CURLY)
}

/// Recognizes `}`.
pub fn r_curly_token<'a>(input: Input<'a>) -> (r: Option<(Input<'a>, GreenElement<'a>)>)
    ensures
        tag_result(input, seq![0x7du8], SyntaxKind::R_CURLY, r),
{
    proof {
        reveal_strlit("}");
        vstd::string::is_ascii_spec_bytes("}");
        assert("}".spec_bytes() =~= seq![0x7du8]);
    }
    tag_token(input, "}", SyntaxKind::R_CURLY)
}

/// Recognizes `{{{`.
pub fn l_curly3_token<'a>(input: Input<'a>) -> (r: Option<(Input<'a>, GreenElement<'a>)>)
    ensures
        tag_result(input, seq![0x7bu8, 0x7bu8, 0x7bu8], SyntaxKind::L_CURLY3, r),
{
    proof {
        reveal_strlit("{{{");
        vstd::string::is_ascii_spec_bytes("{{{");
        assert("{{{".spec_bytes() =~= seq![0x7bu8, 0x7bu8, 0x7bu8]);
    }
    tag_token(input, "{{{", SyntaxKind::L_CURLY3)
}

/// Recognizes `}}}`.
pub fn r_curly3_token<'a>(input: Input<'a>) -> (r: Option<(Input<'a>, GreenElement<'a>)>)
    ensures
        tag_result(input, seq![0x7du8, 0x7du8, 0x7du8], SyntaxKind::R_CURLY3, r),
{
    proof {
        reveal_strlit("}}}");
        vstd::string::is_ascii_spec_bytes("}}}");
        assert("}}}".spec_bytes() =~= seq![0x7du8, 0x7du8, 0x7du8]);
    }
    tag_token(input, "}}}", SyntaxKind::R_CURLY3)
}

/// Recognizes `<<`.
pub fn l_angle2_token<'a>(input: Input<'a>) -> (r: Option<(Input<'a>, GreenElement<'a>)>)
    ensures
        tag_result(input, seq![0x3cu8, 0x3cu8], SyntaxKind::L_ANGLE2, r),
{
    proof {
        reveal_strlit("<<");
        vstd::string::is_ascii_spec_bytes("<<");
        assert("<<".spec_bytes() =~= seq![0x3cu8, 0x3cu8]);
    }
    tag_token(input, "<<", SyntaxKind::L_ANGLE2)
}

/// Recognizes `>>`.
pub fn r_angle2_token<'a>(input: Input<'a>) -> (r: Option<(Input<'a>, GreenElement<'a>)>)
    ensures
        tag_result(input, seq![0x3eu8, 0x3eu8], SyntaxKind::R_ANGLE2, r),
{
    proof {
        reveal_strlit(">>");
        vstd::string::is_ascii_spec_bytes(">>");
        assert(">>".spec_bytes() =~= seq![0x3eu8, 0x3eu8]);
    }
    tag_token(input, ">>", SyntaxKind::R_ANGLE2)
}

/// Recognizes `<<<`.
pub fn l_angle3_token<'a>(input: Input<'a>) -> (r: Option<(Input<'a>, GreenElement<'a>)>)
    ensures
        tag_result(input, seq![0x3cu8, 0x3cu8, 0x3cu8], SyntaxKind::L_ANGLE3, r),
{
    proof {
        reveal_strlit("<<<");
        vstd::string::is_ascii_spec_bytes("<<<");
        assert("<<<".spec_bytes() =~= seq![0x3cu8, 0x3cu8, 0x3cu8]);
    }
    tag_token(input, "<<<", SyntaxKind::L_ANGLE3)
}

/// Recognizes `>>>`.
pub fn r_angle3_token<'a>(input: Input<'a>) -> (r: Option<(Input<'a>, GreenElement<'a>)>)
    ensures
        tag_result(input, seq![0x3eu8, 0x3eu8, 0x3eu8], SyntaxKind::R_ANGLE3, r),
{
    proof {
        reveal_strlit(">>>");
        vstd::string::is_ascii_spec_bytes(">>>");
        assert(">>>".spec_bytes() =~= seq![0x3eu8, 0x3eu8, 0x3eu8]);
    }
    tag_token(input, ">>>", SyntaxKind::R_ANGLE3)
}

/// Recognizes `@`.
pub fn at_token<'a>(input: Input<'a>) -> (r: Option<(Input<'a>, GreenElement<'a>)>)
    ensures
        tag_result(input, seq![0x40u8], SyntaxKind::AT, r),
{
    proof {
        reveal_strlit("@");
        vstd::string::is_ascii_spec_bytes("@");
        assert("@".spec_bytes() =~= seq![0x40u8]);
    }
    tag_token(input, "@", SyntaxKind::AT)
}

/// Recognizes `@@`.
pub fn at2_token<'a>(input: Input<'a>) -> (r: Option<(Input<'a>, GreenElement<'a>)>)
    ensures
        tag_result(input, seq![0x40u8, 0x40u8], SyntaxKind::AT2, r),
{
    proof {
        reveal_strlit("@@");
        vstd::string::is_ascii_spec_bytes("@@");
        assert("@@".spec_bytes() =~= seq![0x40u8, 0x40u8]);
    }
    tag_token(input, "@@", SyntaxKind::AT2)
}

/// Recognizes `--`.
pub fn minus2_token<'a>(input: Input<'a>) -> (r: Option<(Input<'a>, GreenElement<'a>)>)
    ensures
        tag_result(input, seq![0x2du8, 0x2du8], SyntaxKind::MINUS2, r),
{
    proof {
        reveal_strlit("--");
        vstd::string::is_ascii_spec_bytes("--");
        assert("--".spec_bytes() =~= seq![0x2du8, 0x2du8]);
    }
    tag_token(input, "--", SyntaxKind::MINUS2)
}

/// Recognizes `%%`.
pub fn percent2_token<'a>(input: Input<'a>) -> (r: Option<(Input<'a>, GreenElement<'a>)>)
    ensures
        tag_result(input, seq![0x25u8, 0x25u8], SyntaxKind::PERCENT2, r),
{
    proof {
        reveal_strlit("%%");
        vstd::string::is_ascii_spec_bytes("%%");
        assert("%%".spec_bytes() =~= seq![0x25u8, 0x25u8]);
    }
    tag_token(input, "%%", SyntaxKind::PERCENT2)
}

/// Recognizes `+`.
pub fn plus_token<'a>(input: Input<'a>) -> (r: Option<(Input<'a>, GreenElement<'a>)>)
    ensures
        tag_result(input, seq![0x2bu8], SyntaxKind::PLUS, r),
{
    proof {
        reveal_strlit("+");
        vstd::string::is_ascii_spec_bytes("+");
        assert("+".spec_bytes() =~= seq![0x2bu8]);
    }
    tag_token(input, "+", SyntaxKind::PLUS)
}

/// Recognizes `-`.
pub fn minus_token<'a>(input: Input<'a>) -> (r: Option<(Input<'a>, GreenElement<'a>)>)
    ensures
        tag_result(input, seq![0x2du8], SyntaxKind::MINUS, r),
{
    proof {
        reveal_strlit("-");
        vstd::string::is_ascii_spec_bytes("-");
        assert("-".spec_bytes() =~= seq![0x2du8]);
    }
    tag_token(input, "-", SyntaxKind::MINUS)
}

/// Recognizes `:`.
pub fn colon_token<'a>(input: Input<'a>) -> (r: Option<(Input<'a>, GreenElement<'a>)>)
    ensures
        tag_result(input, seq![0x3au8], SyntaxKind::COLON, r),
{
    proof {
        reveal_strlit(":");
        vstd::string::is_ascii_spec_bytes(":");
        assert(":".spec_bytes() =~= seq![0x3au8]);
    }
    tag_token(input, ":", SyntaxKind::COLON)
}

/// Recognizes `::`.
pub fn colon2_token<'a>(input: Input<'a>) -> (r: Option<(Input<'a>, GreenElement<'a>)>)
    ensures
        tag_result(input, seq![0x3au8, 0x3au8], SyntaxKind::COLON2, r),
{
    proof {
        reveal_strlit("::");
        vstd::string::is_ascii_spec_bytes("::");
        assert("::".spec_bytes() =~= seq![0x3au8, 0x3au8]);
    }
    tag_token(input, "::", SyntaxKind::COLON2)
}

/// Recognizes `|`.
pub fn pipe_token<'a>(input: Input<'a>) -> (r: Option<(Input<'a>, GreenElement<'a>)>)
    ensures
        tag_result(input, seq![0x7cu8], SyntaxKind::PIPE, r),
{
    proof {
        reveal_strlit("|");
        vstd::string::is_ascii_spec_bytes("|");
        assert("|".spec_bytes() =~= seq![0x7cu8]);
    }
    tag_token(input, "|", SyntaxKind::PIPE)
}

/// Recognizes `#+`.
pub fn hash_plus_token<'a>(input: Input<'a>) -> (r: Option<(Input<'a>, GreenElement<'a>)>)
    ensures
        tag_result(input, seq![0x23u8, 0x2bu8], SyntaxKind::HASH_PLUS, r),
{
    proof {
        reveal_strlit("#+");
        vstd::string::is_ascii_spec_bytes("#+");
        assert("#+".spec_bytes() =~= seq![0x23u8, 0x2bu8]);
    }
    tag_token(input, "#+", SyntaxKind::HASH_PLUS)
}

/// Recognizes `#`.
pub fn hash_token<'a>(input: Input<'a>) -> (r: Option<(Input<'a>, GreenElement<'a>)>)
    ensures
        tag_result(input, seq![0x23u8], SyntaxKind::HASH, r),
{
    proof {
        reveal_strlit("#");
        vstd::string::is_ascii_spec_bytes("#");
        assert("#".spec_bytes() =~= seq![0x23u8]);
    }
    tag_token(input, "#", SyntaxKind::HASH)
}

/// Recognizes `=>`.
pub fn double_arrow_token<'a>(input: Input<'a>) -> (r: Option<(Input<'a>, GreenElement<'a>)>)
    ensures
        tag_result(input, seq![0x3du8, 0x3eu8], SyntaxKind::DOUBLE_ARROW, r),
{
    proof {
        reveal_strlit("=>");
        vstd::string::is_ascii_spec_bytes("=>");
        assert("=>".spec_bytes() =~= seq![0x3du8, 0x3eu8]);
    }
    tag_token(input, "=>", SyntaxKind::DOUBLE_ARROW)
}

} // verus!
