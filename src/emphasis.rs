use vstd::prelude::*;
use vstd::string::StringSliceAdditionalSpecFns;
use vstd::utf8::*;

use crate::bytes::{
    byte_positions, count_byte, is_ascii_whitespace, is_ascii_ws, is_hspace, lemma_byte_positions,
    lemma_count_byte_grows,
};
use crate::combinator::find_all_bytes;
use crate::input::{is_ascii_byte, lemma_ascii_boundaries};

verus! {

broadcast use vstd::utf8::encode_utf8_valid_utf8;

/// Relies on bytecount::count: the number of occurrences of the byte.
#[verifier::external_body]
fn count_bytes(haystack: &[u8], needle: u8) -> (r: usize)
    ensures
        r == count_byte(haystack@, needle),
{
    bytecount::count(haystack, needle)
}

/// A byte that may follow a closing delimiter.
pub open spec fn is_close_context(c: u8) -> bool {
    ||| c == 0x20  // ' '
    ||| c == 0x2d  // '-'
    ||| c == 0x2e  // '.'
    ||| c == 0x2c  // ','
    ||| c == 0x3a  // ':'
    ||| c == 0x21  // '!'
    ||| c == 0x3f  // '?'
    ||| c == 0x27  // '\''
    ||| c == 0x0a  // '\n'
    ||| c == 0x29  // ')'
    ||| c == 0x7d  // '}'
}

/// The delimiter at `pos` is preceded by a non-whitespace byte and followed by
/// a closing-context byte or the end of the text.
pub open spec fn marker_valid(b: Seq<u8>, pos: int) -> bool {
    &&& !is_ascii_ws(b[pos - 1])
    &&& (pos + 1 < b.len() ==> is_close_context(b[pos + 1]))
}

/// `i` is an accepted closer: a later occurrence of the delimiter than its
/// first, with fewer than two line feeds between the opener and it, in a valid
/// closing position.
pub open spec fn is_closer(b: Seq<u8>, marker: u8, i: int) -> bool {
    &&& 1 <= i < b.len()
    &&& b[i] == marker
    &&& byte_positions(b, marker)[0] < i
    &&& count_byte(b.subrange(1, i), 0x0a) < 2
    &&& marker_valid(b, i)
}

/// Whether the delimiter at `pos` may close a span.
pub fn validate_marker(pos: usize, text: &str) -> (r: bool)
    requires
        1 <= pos <= text.spec_bytes().len(),
    ensures
        r == marker_valid(text.spec_bytes(), pos as int),
{
    let bytes = text.as_bytes();
    if is_ascii_whitespace(bytes[pos - 1]) {
        false
    } else if pos < bytes.len() - 1 {
        let post = bytes[pos + 1];
        post == 0x20 || post == 0x2d || post == 0x2e || post == 0x2c || post == 0x3a || post
            == 0x21 || post == 0x3f || post == 0x27 || post == 0x0a || post == 0x29 || post == 0x7d
    } else {
        true
    }
}

/// Looks for the closer of the span that `text` opens, and returns (remainder,
/// body): the text after the closer and the text strictly between the opener
/// and the closer. The first accepted closer wins. A space or tab right after
/// the opener means there is no span.
pub fn parse(text: &str, marker: u8) -> (r: Option<(&str, &str)>)
    requires
        text.spec_bytes().len() >= 3,
        is_ascii_byte(text.spec_bytes()[0]),
        is_ascii_byte(marker),
    ensures
        r is None <==> (is_hspace(text.spec_bytes()[1]) || forall|i: int|
            0 <= i < text.spec_bytes().len() ==> !is_closer(text.spec_bytes(), marker, i)),
        r matches Some((rem, body)) ==> {
            let b = text.spec_bytes();
            let i = body.spec_bytes().len() + 1int;
            &&& !is_hspace(b[1])
            &&& is_closer(b, marker, i)
            &&& forall|j: int| 0 <= j < i ==> !is_closer(b, marker, j)
            &&& body.spec_bytes() == b.subrange(1, i)
            &&& rem.spec_bytes() == b.skip(i + 1)
        },
{
    let bytes = text.as_bytes();
    let n = bytes.len();
    let ghost b = bytes@;
    if bytes[1] == 0x20 || bytes[1] == 0x09 {
        return None;
    }
    let pos = find_all_bytes(marker, bytes);
    let ghost p = byte_positions(b, marker);
    proof {
        lemma_byte_positions(b, marker);
    }
    let mut k: usize = 1;
    while k < pos.len()
        invariant
            b == text.spec_bytes(),
            b == bytes@,
            b.len() >= 3,
            b.len() == n,
            !is_hspace(b[1]),
            is_ascii_byte(marker),
            is_ascii_byte(b[0]),
            p == byte_positions(b, marker),
            1 <= k <= pos@.len() || pos@.len() == 0,
            pos@.len() == p.len(),
            forall|j: int| 0 <= j < pos@.len() ==> #[trigger] pos@[j] as int == p[j],
            forall|j: int| 0 <= j < k && j < p.len() ==> !is_closer(b, marker, #[trigger] p[j]),
        decreases pos@.len() - k,
    {
        let i = pos[k];
        proof {
            lemma_byte_positions(b, marker);
            assert(p[0] < p[k as int]);
        }
        let nl = count_bytes(&bytes[1..i], 0x0a);
        if nl >= 2 {
            proof {
                assert forall|j: int| 0 <= j < b.len() implies !is_closer(b, marker, j) by {
                    if is_closer(b, marker, j) {
                        let kk = choose|kk: int| 0 <= kk < p.len() && p[kk] == j;
                        if kk < k {
                        } else {
                            if kk > k {
                                assert(p[k as int] < p[kk]);
                            }
                            assert(bytes@.subrange(1, i as int) =~= b.subrange(1, i as int));
                            lemma_count_byte_grows(b, 0x0a, 1, i as int, j);
                        }
                    }
                }
            }
            return None;
        }
        if validate_marker(i, text) {
            proof {
                assert(bytes@.subrange(1, i as int) =~= b.subrange(1, i as int));
                assert(is_closer(b, marker, i as int));
                assert forall|j: int| 0 <= j < i implies !is_closer(b, marker, j) by {
                    if is_closer(b, marker, j) {
                        let kk = choose|kk: int| 0 <= kk < p.len() && p[kk] == j;
                        if kk >= k {
                            if kk > k {
                                assert(p[k as int] < p[kk]);
                            }
                        }
                    }
                }
                assert(valid_utf8(b));
                lemma_ascii_boundaries(b, i as int);
            }
            let (_, rem) = text.split_at(i + 1);
            let (head, _) = text.split_at(i);
            proof {
                assert(head.spec_bytes() =~= b.take(i as int));
                lemma_ascii_boundaries(head.spec_bytes(), 0);
            }
            let (_, body) = head.split_at(1);
            proof {
                assert(body.spec_bytes() =~= b.subrange(1, i as int));
                assert(rem.spec_bytes() =~= b.skip(i + 1));
                assert(body.spec_bytes().len() + 1 == i);
            }
            return Some((rem, body));
        }
        k = k + 1;
    }
    proof {
        lemma_byte_positions(b, marker);
        assert forall|j: int| 0 <= j < b.len() implies !is_closer(b, marker, j) by {
            if is_closer(b, marker, j) {
                let kk = choose|kk: int| 0 <= kk < p.len() && p[kk] == j;
            }
        }
    }
    None
}

} // verus!
