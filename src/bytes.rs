use vstd::prelude::*;

verus! {

/// A space or a tab.
pub open spec fn is_hspace(b: u8) -> bool {
    b == 0x20 || b == 0x09
}

/// What `u8::is_ascii_whitespace` accepts: space, tab, line feed, form feed, carriage return.
pub open spec fn is_ascii_ws(b: u8) -> bool {
    b == 0x20 || b == 0x09 || b == 0x0a || b == 0x0c || b == 0x0d
}

pub fn is_ascii_whitespace(b: u8) -> (r: bool)
    ensures
        r == is_ascii_ws(b),
{
    b == 0x20 || b == 0x09 || b == 0x0a || b == 0x0c || b == 0x0d
}

/// The indices at which `n` occurs in `h`, in increasing order.
pub open spec fn byte_positions(h: Seq<u8>, n: u8) -> Seq<int>
    decreases h.len(),
{
    if h.len() == 0 {
        seq![]
    } else if h.last() == n {
        byte_positions(h.drop_last(), n).push(h.len() - 1)
    } else {
        byte_positions(h.drop_last(), n)
    }
}

/// How many times `n` occurs in `h`.
pub open spec fn count_byte(h: Seq<u8>, n: u8) -> nat
    decreases h.len(),
{
    if h.len() == 0 {
        0
    } else {
        count_byte(h.drop_last(), n) + if h.last() == n {
            1nat
        } else {
            0nat
        }
    }
}

/// The positions listed are exactly the occurrences, each once, in increasing order.
pub proof fn lemma_byte_positions(h: Seq<u8>, n: u8)
    ensures
        forall|k: int|
            0 <= k < byte_positions(h, n).len() ==> 0 <= #[trigger] byte_positions(h, n)[k]
                < h.len() && h[byte_positions(h, n)[k]] == n,
        forall|k1: int, k2: int|
            0 <= k1 < k2 < byte_positions(h, n).len() ==> #[trigger] byte_positions(h, n)[k1]
                < #[trigger] byte_positions(h, n)[k2],
        forall|i: int|
            0 <= i < h.len() && #[trigger] h[i] == n ==> exists|k: int|
                0 <= k < byte_positions(h, n).len() && byte_positions(h, n)[k] == i,
    decreases h.len(),
{
    if h.len() > 0 {
        let t = h.drop_last();
        lemma_byte_positions(t, n);
        let pt = byte_positions(t, n);
        assert forall|i: int| 0 <= i < h.len() && #[trigger] h[i] == n implies exists|k: int|
            0 <= k < byte_positions(h, n).len() && byte_positions(h, n)[k] == i by {
            if i < t.len() {
                assert(t[i] == n);
                let k = choose|k: int| 0 <= k < pt.len() && pt[k] == i;
                assert(byte_positions(h, n)[k] == i);
            } else {
                assert(byte_positions(h, n)[pt.len() as int] == i);
            }
        }
    }
}

/// Counting over a longer run from the same start never gives less.
pub proof fn lemma_count_byte_grows(h: Seq<u8>, n: u8, s: int, i: int, j: int)
    requires
        0 <= s <= i <= j <= h.len(),
    ensures
        count_byte(h.subrange(s, i), n) <= count_byte(h.subrange(s, j), n),
    decreases j - i,
{
    if i < j {
        lemma_count_byte_grows(h, n, s, i, j - 1);
        assert(h.subrange(s, j).drop_last() =~= h.subrange(s, j - 1));
    }
}

} // verus!
