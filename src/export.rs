use vstd::prelude::*;

use crate::kind::SyntaxKind;
use crate::tree::{GreenElement, GreenToken};

verus! {

/// One step of a walk over a finished tree: a container begins, a container
/// ends, or a leaf is visited.
#[derive(Clone, Copy, Debug, PartialEq, Eq)]
pub enum Event<'a> {
    Enter(SyntaxKind),
    Leave(SyntaxKind),
    Leaf(GreenToken<'a>),
}

/// The events of a walk over `e`, in order.
pub open spec fn elem_events<'a>(e: GreenElement<'a>) -> Seq<Event<'a>>
    decreases e,
{
    match e {
        GreenElement::Token(t) => seq![Event::Leaf(t)],
        GreenElement::Node(n) => seq![Event::Enter(n.kind)] + seq_events(n.children@) + seq![
            Event::Leave(n.kind),
        ],
    }
}

/// The events of walks over each element of `cs`, one after the other.
pub open spec fn seq_events<'a>(cs: Seq<GreenElement<'a>>) -> Seq<Event<'a>>
    decreases cs,
{
    if cs.len() == 0 {
        seq![]
    } else {
        seq_events(cs.drop_last()) + elem_events(cs.last())
    }
}

/// Replays `evs` on a stack of open containers: a begin pushes its kind, an
/// end pops it and must match the innermost open kind, else the replay fails.
pub open spec fn replay<'a>(stack: Seq<SyntaxKind>, evs: Seq<Event<'a>>) -> Option<Seq<SyntaxKind>>
    decreases evs.len(),
{
    if evs.len() == 0 {
        Some(stack)
    } else {
        match evs[0] {
            Event::Enter(k) => replay(stack.push(k), evs.drop_first()),
            Event::Leave(k) => if stack.len() > 0 && stack.last() == k {
                replay(stack.drop_last(), evs.drop_first())
            } else {
                None
            },
            Event::Leaf(_) => replay(stack, evs.drop_first()),
        }
    }
}

/// Every begin has exactly one matching end later on, at the right depth.
pub open spec fn is_well_nested<'a>(evs: Seq<Event<'a>>) -> bool {
    replay(seq![], evs) == Some(Seq::<SyntaxKind>::empty())
}

proof fn lemma_replay_concat<'a>(st: Seq<SyntaxKind>, a: Seq<Event<'a>>, b: Seq<Event<'a>>)
    ensures
        replay(st, a + b) == match replay(st, a) {
            Some(st2) => replay(st2, b),
            None => None,
        },
    decreases a.len(),
{
    if a.len() == 0 {
        assert(a + b =~= b);
    } else {
        assert((a + b).drop_first() =~= a.drop_first() + b);
        assert((a + b)[0] == a[0]);
        match a[0] {
            Event::Enter(k) => lemma_replay_concat(st.push(k), a.drop_first(), b),
            Event::Leave(k) => if st.len() > 0 && st.last() == k {
                lemma_replay_concat(st.drop_last(), a.drop_first(), b);
            },
            Event::Leaf(_) => lemma_replay_concat(st, a.drop_first(), b),
        }
    }
}

proof fn lemma_elem_events_balanced<'a>(st: Seq<SyntaxKind>, e: GreenElement<'a>)
    ensures
        replay(st, elem_events(e)) == Some(st),
    decreases e,
{
    match e {
        GreenElement::Token(t) => {
            let evs = elem_events(e);
            assert(evs.drop_first() =~= Seq::<Event<'a>>::empty());
            assert(evs[0] == Event::Leaf(t));
            assert(replay(st, evs) == replay(st, evs.drop_first()));
        },
        GreenElement::Node(n) => {
            let k = n.kind;
            let inner = seq_events(n.children@);
            let tail = seq![Event::Leave(k)];
            let evs = elem_events(e);
            assert(evs.drop_first() =~= inner + tail);
            lemma_seq_events_balanced(st.push(k), n.children@);
            lemma_replay_concat(st.push(k), inner, tail);
            assert(tail.drop_first() =~= Seq::<Event<'a>>::empty());
            assert(st.push(k).drop_last() =~= st);
            assert(tail[0] == Event::<'a>::Leave(k));
            assert(replay(st.push(k), tail) == replay(st, tail.drop_first()));
            assert(replay(st.push(k), inner + tail) == Some(st));
            assert(evs[0] == Event::<'a>::Enter(k));
            assert(replay(st, evs) == replay(st.push(k), evs.drop_first()));
        },
    }
}

proof fn lemma_seq_events_balanced<'a>(st: Seq<SyntaxKind>, cs: Seq<GreenElement<'a>>)
    ensures
        replay(st, seq_events(cs)) == Some(st),
    decreases cs,
{
    if cs.len() > 0 {
        lemma_seq_events_balanced(st, cs.drop_last());
        lemma_elem_events_balanced(st, cs.last());
        lemma_replay_concat(st, seq_events(cs.drop_last()), elem_events(cs.last()));
    }
}

/// A walk over any tree is well nested: each container's begin is matched by
/// exactly one later end of the same kind, with everything between them closed.
pub proof fn lemma_walk_well_nested<'a>(e: GreenElement<'a>)
    ensures
        is_well_nested(elem_events(e)),
{
    lemma_elem_events_balanced(seq![], e);
}

/// Appends the events of a walk over `e` to `out`.
pub fn walk<'a>(e: &GreenElement<'a>, out: &mut Vec<Event<'a>>)
    ensures
        final(out)@ == old(out)@ + elem_events(*e),
    decreases e,
{
    match e {
        GreenElement::Token(t) => {
            out.push(Event::Leaf(*t));
        },
        GreenElement::Node(n) => {
            let ghost start = out@;
            out.push(Event::Enter(n.kind));
            let mut k: usize = 0;
            assert(n.children@.take(0) =~= Seq::<GreenElement<'a>>::empty());
            assert(out@ =~= start + seq![Event::Enter(n.kind)] + seq_events(n.children@.take(0)));
            while k < n.children.len()
                invariant
                    k <= n.children@.len(),
                    *e == GreenElement::Node(*n),
                    out@ == start + seq![Event::Enter(n.kind)] + seq_events(n.children@.take(k as int)),
                decreases n.children@.len() - k,
            {
                proof {
                    assert(n.children@.take(k + 1).drop_last() =~= n.children@.take(k as int));
                    assert(decreases_to!(n.children => n.children[k as int]));
                    assert(decreases_to!(*e => (*e)->Node_0));
                    assert((*e)->Node_0 == *n);
                }
                walk(&n.children[k], out);
                k = k + 1;
                assert(out@ =~= start + seq![Event::Enter(n.kind)] + seq_events(n.children@.take(k as int)));
            }
            out.push(Event::Leave(n.kind));
            assert(n.children@.take(k as int) =~= n.children@);
            assert(out@ =~= start + elem_events(*e));
        },
    }
}

/// The events of a walk over `e`; they are always well nested.
pub fn events<'a>(e: &GreenElement<'a>) -> (r: Vec<Event<'a>>)
    ensures
        r@ == elem_events(*e),
        is_well_nested(r@),
{
    let mut out: Vec<Event<'a>> = Vec::new();
    walk(e, &mut out);
    proof {
        assert(out@ =~= elem_events(*e));
        lemma_walk_well_nested(*e);
    }
    out
}

} // verus!
