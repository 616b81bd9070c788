//! How the two readbacks relate, and what the non-linear one does with superpositions.

use vstd::prelude::*;

use crate::book::BookView;
use crate::laws::termination::law_ports_stay_seen;
use crate::laws::variables::is_symmetric;
use crate::linear;
use crate::linear::{mark, mark_node};
use crate::net::{entered, has_port, is_net, root_port, Node, NodeId, NodeKind, Port, SlotId};
use crate::non_linear;
use crate::reading::{after, done, superposition, State};
use crate::state::{entered_dup, left_dup, no_dups};

verus! {

/// A duplication that meets a superposition with its label picks one side of it: entered by a
/// slot, it reads as what the superposition holds in that slot.
pub proof fn law_superposition_decays(
    net: Seq<Node>,
    book: BookView,
    dup: NodeId,
    sup: NodeId,
    lab: u8,
    slot: SlotId,
    scope: Map<u8, Seq<SlotId>>,
    state: State,
    depth: nat,
)
    requires
        net[dup as int].kind == (NodeKind::Dup { lab }),
        net[sup as int].kind == (NodeKind::Dup { lab }),
        entered(net, Port(dup, 0)) == Port(sup, 0),
        slot != 0,
        scope.contains_key(lab),
    ensures
        non_linear::read(net, book, Port(dup, slot), scope, state, depth + 2) == non_linear::read(
            net,
            book,
            entered(net, Port(sup, slot)),
            scope,
            state,
            depth,
        ),
{
    let inner = entered_dup(scope, lab, slot);
    assert(inner[lab].drop_last() =~= scope[lab]);
    assert(left_dup(inner, lab) =~= scope);
    assert(non_linear::read(net, book, Port(dup, slot), scope, state, depth + 2)
        == non_linear::read(net, book, Port(sup, 0), inner, state, depth + 1));
}

/// A superposition that is not below a duplication with its label stays: it reads as the
/// superposition of what its two sides read as.
pub proof fn law_superposition_stays(
    net: Seq<Node>,
    book: BookView,
    sup: NodeId,
    lab: u8,
    scope: Map<u8, Seq<SlotId>>,
    state: State,
    depth: nat,
)
    requires
        net[sup as int].kind == (NodeKind::Dup { lab }),
        scope[lab].len() == 0,
    ensures
        ({
            let fst_port = entered(net, Port(sup, 1));
            let snd_port = entered(net, Port(sup, 2));
            let fst = non_linear::read(net, book, fst_port, scope, state, depth);
            let snd = non_linear::read(net, book, snd_port, scope, after(fst, state), depth);
            non_linear::read(net, book, Port(sup, 0), scope, state, depth + 1) == superposition(
                fst,
                snd,
            )
        }),
{
}

/// Whether a net has no duplications.
pub open spec fn has_no_dups(net: Seq<Node>) -> bool {
    forall|i: int| 0 <= i < net.len() ==> (#[trigger] net[i]).kind !is Dup
}

/// Whether a net has no pairs.
pub open spec fn has_no_pairs(net: Seq<Node>) -> bool {
    forall|i: int| 0 <= i < net.len() ==> (#[trigger] net[i]).kind !is Tup
}

/// Whether a pair that is entered from `port` with another slot than the main one is not read as
/// valid: there are no pairs, or the reader knows where it came from.
spec fn comes_from(net: Seq<Node>, state: State, port: Port) -> bool {
    has_no_pairs(net) || (is_symmetric(net) && (state.seen.contains(port) || port == root_port()))
}

/// What was seen, and the root, are not read as valid.
pub proof fn lemma_going_back_is_invalid(
    net: Seq<Node>,
    book: BookView,
    port: Port,
    state: State,
    depth: nat,
)
    requires
        is_net(net),
        state.seen.contains(port) || port == root_port(),
    ensures
        linear::read(net, book, port, state, depth) matches Ok(reading) ==> !reading.valid,
{
}

/// A pair that is entered by another slot than the main one is not read as valid.
proof fn lemma_parts_are_invalid(
    net: Seq<Node>,
    book: BookView,
    next: Port,
    state: State,
    depth: nat,
)
    requires
        is_net(net),
        has_port(net, next),
        net[next.0 as int].kind is Tup,
        next.1 != 0,
        comes_from(net, state, entered(net, next)),
    ensures
        linear::read(net, book, next, state, depth) matches Ok(reading) ==> !reading.valid,
{
    if depth > 0 && !state.seen.contains(next) {
        let p1 = Port(next.0, 1);
        let p2 = Port(next.0, 2);
        let aux1 = entered(net, p1);
        let aux2 = entered(net, p2);
        let d = (depth - 1) as nat;
        let st1 = mark(mark(mark(state, next), p1), p2);
        lemma_going_back_is_invalid(net, book, entered(net, next), st1, d);
        law_ports_stay_seen(net, book, aux1, st1, d);
        if let Ok(fst) = linear::read(net, book, aux1, st1, d) {
            lemma_going_back_is_invalid(net, book, entered(net, next), fst.state, d);
        }
    }
}

/// What is read linearly and is valid, from a net without duplications, is also read
/// non-linearly.
proof fn lemma_readings_agree(
    net: Seq<Node>,
    book: BookView,
    next: Port,
    scope: Map<u8, Seq<SlotId>>,
    state: State,
    other: State,
    depth: nat,
)
    requires
        is_net(net),
        has_no_dups(net),
        has_port(net, next),
        comes_from(net, state, entered(net, next)),
        other.names == state.names,
    ensures
        linear::read(net, book, next, state, depth) matches Ok(reading) ==> {
            &&& reading.state.pending == state.pending
            &&& reading.valid ==> non_linear::read(net, book, next, scope, other, depth) == done(
                reading.term,
                true,
                (State { names: reading.state.names, ..other }),
            )
        },
    decreases depth, 0nat,
{
    if depth > 0 && !state.seen.contains(next) {
        let node = next.0;
        let slot = next.1;
        let p0 = Port(node, 0);
        let p1 = Port(node, 1);
        let p2 = Port(node, 2);
        let main = entered(net, p0);
        let aux1 = entered(net, p1);
        let d = (depth - 1) as nat;
        let st = mark(state, next);
        assert(has_port(net, p0) && has_port(net, p1) && has_port(net, p2));
        match net[node as int].kind {
            NodeKind::Con => {
                if slot == 0 {
                    if let Some((_, names)) = st.names.declared(net, p1) {
                        let st1 = State { names, ..mark(st, p2) };
                        let other1 = State { names, ..other };
                        let aux2 = entered(net, p2);
                        lemma_readings_agree(net, book, aux2, scope, st1, other1, d);
                    }
                } else if slot == 2 {
                    let st1 = mark(mark(st, p0), p1);
                    lemma_two_readings_agree(net, book, p0, p1, scope, st1, other, d);
                }
            },
            NodeKind::Mat => {
                let st1 = mark(mark(st, p0), p1);
                let cond = linear::read(net, book, main, st1, d);
                lemma_readings_agree(net, book, main, scope, st1, other, d);
                if let Ok(cond) = cond {
                    let q1 = Port(aux1.0, 1);
                    let q2 = Port(aux1.0, 2);
                    let st2 = mark_node(cond.state, aux1.0);
                    let other2 = State { names: cond.state.names, ..other };
                    lemma_two_readings_agree(net, book, q1, q2, scope, st2, other2, d);
                }
            },
            NodeKind::Op2 => {
                let st1 = mark(mark(st, p0), p1);
                lemma_two_readings_agree(net, book, p0, p1, scope, st1, other, d);
            },
            NodeKind::Tup => {
                let st1 = mark(mark(st, p1), p2);
                lemma_two_readings_agree(net, book, p1, p2, scope, st1, other, d);
                if slot != 0 {
                    lemma_parts_are_invalid(net, book, next, state, depth);
                }
            },
            _ => {
                assert(net[node as int].kind !is Dup);
            },
        }
    }
}

/// Two readings in turn, on from two ports that were seen, agree.
proof fn lemma_two_readings_agree(
    net: Seq<Node>,
    book: BookView,
    p: Port,
    q: Port,
    scope: Map<u8, Seq<SlotId>>,
    state: State,
    other: State,
    depth: nat,
)
    requires
        is_net(net),
        has_no_dups(net),
        has_port(net, p),
        has_port(net, q),
        comes_from(net, state, p),
        comes_from(net, state, q),
        other.names == state.names,
    ensures
        linear::read(net, book, entered(net, p), state, depth) matches Ok(one) ==> {
            &&& one.valid ==> non_linear::read(
                net,
                book,
                entered(net, p),
                scope,
                other,
                depth,
            ) == done(one.term, true, (State { names: one.state.names, ..other }))
            &&& linear::read(net, book, entered(net, q), one.state, depth) matches Ok(two) ==> {
                &&& two.state.pending == state.pending
                &&& two.valid ==> non_linear::read(
                    net,
                    book,
                    entered(net, q),
                    scope,
                    (State { names: one.state.names, ..other }),
                    depth,
                ) == done(two.term, true, (State { names: two.state.names, ..other }))
            }
        },
    decreases depth, 1nat,
{
    let fst = entered(net, p);
    let snd = entered(net, q);
    lemma_readings_agree(net, book, fst, scope, state, other, depth);
    law_ports_stay_seen(net, book, fst, state, depth);
    if let Ok(one) = linear::read(net, book, fst, state, depth) {
        let other1 = State { names: one.state.names, ..other };
        lemma_readings_agree(net, book, snd, scope, one.state, other1, depth);
    }
}

/// On nets without duplications the readbacks agree: what has a valid linear readback has the
/// same non-linear one, and it is valid too. Where there are pairs, links have to lead back to
/// where they came from.
pub proof fn law_readbacks_agree(net: Seq<Node>, book: BookView)
    requires
        is_net(net),
        has_no_dups(net),
        has_no_pairs(net) || is_symmetric(net),
    ensures
        linear::read_net(net, book) matches Ok(reading) ==> reading.valid ==> {
            &&& non_linear::readable(net, book)
            &&& forall|depth: nat|
                (#[trigger] non_linear::read_net(net, book, depth)) matches Ok(other)
                    ==> other.term == reading.term && other.valid
        },
{
    let depth = linear::ample_depth(net);
    let port = entered(net, root_port());
    let start = State::initial();
    assert(has_port(net, root_port()));
    lemma_readings_agree(net, book, port, no_dups(), start, start, depth);
    if let Ok(reading) = linear::read_net(net, book) {
        if reading.valid {
            let here = non_linear::read_net(net, book, depth);
            assert(here is Ok);
            assert forall|other: nat|
                non_linear::read_net(net, book, other) is Ok implies #[trigger]
            non_linear::read_net(net, book, other) == here by {
                non_linear::law_one_reading(net, book, other, depth);
            }
        }
    }
}

} // verus!
