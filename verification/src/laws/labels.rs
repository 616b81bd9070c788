//! The labels of duplications do not matter to the linear readback.

use vstd::prelude::*;

use crate::book::BookView;
use crate::laws::termination::{lemma_noting_keeps_waiting, lemma_popping_stays_within};
use crate::linear::{
    ample_depth, binders_read, is_node_read, is_read, mark, mark_node, read, read_dups, read_net,
};
use crate::net::{entered, has_port, is_net, root_port, Node, NodeId, NodeKind, Port, SlotId};
use crate::reading::{Reading, State};
use crate::state::VarNamesView;
use crate::term::TermView;

verus! {

/// Whether two kinds of nodes are the same, but for the label of a duplication.
pub open spec fn same_kind(kind: NodeKind, other: NodeKind) -> bool {
    kind == other || (kind is Dup && other is Dup)
}

/// Whether two nets are the same, but for the labels of duplications.
pub open spec fn is_relabeled(net: Seq<Node>, other: Seq<Node>) -> bool {
    &&& net.len() == other.len()
    &&& forall|i: int|
        0 <= i < net.len() ==> {
            &&& (#[trigger] net[i]).main == other[i].main
            &&& net[i].aux1 == other[i].aux1
            &&& net[i].aux2 == other[i].aux2
            &&& same_kind(net[i].kind, other[i].kind)
        }
}

/// A variable is declared the same in both nets.
proof fn lemma_declared_alike(
    net: Seq<Node>,
    other: Seq<Node>,
    names: VarNamesView,
    port: Port,
)
    requires
        is_net(net),
        is_relabeled(net, other),
        has_port(net, port),
    ensures
        names.declared(net, port) == names.declared(other, port),
        names.within(net) ==> (names.declared(net, port) matches Some((_, names1))
            ==> names1.within(net)),
{
    assert(entered(net, port) == entered(other, port));
    let user = entered(net, port).0 as int;
    assert(has_port(net, entered(net, port)));
    assert(same_kind(net[user].kind, other[user].kind));
}

/// Only ports of the net bind variables, and only nodes of it wait, after any reading.
pub proof fn lemma_reading_stays_within(
    net: Seq<Node>,
    book: BookView,
    next: Port,
    state: State,
    depth: nat,
)
    requires
        is_net(net),
        has_port(net, next),
        state.names.within(net),
        state.pending.within(net),
    ensures
        read(net, book, next, state, depth) matches Ok(reading) ==> reading.state.names.within(net)
            && reading.state.pending.within(net),
{
    lemma_read_alike(net, net, book, next, state, depth);
}

/// A port reads the same in both nets.
proof fn lemma_read_alike(
    net: Seq<Node>,
    other: Seq<Node>,
    book: BookView,
    next: Port,
    state: State,
    depth: nat,
)
    requires
        is_net(net),
        is_relabeled(net, other),
        has_port(net, next),
        state.names.within(net),
        state.pending.within(net),
    ensures
        read(net, book, next, state, depth) == read(other, book, next, state, depth),
        read(net, book, next, state, depth) matches Ok(reading) ==> reading.state.names.within(net)
            && reading.state.pending.within(net),
    decreases depth, 0nat,
{
    if depth > 0 && !state.seen.contains(next) {
        let node = next.0;
        let slot = next.1;
        let p0 = Port(node, 0);
        let p1 = Port(node, 1);
        let p2 = Port(node, 2);
        let main = entered(net, p0);
        let aux1 = entered(net, p1);
        let aux2 = entered(net, p2);
        let d = (depth - 1) as nat;
        let st = mark(state, next);
        assert(has_port(net, p0) && has_port(net, p1) && has_port(net, p2));
        assert(same_kind(net[node as int].kind, other[node as int].kind));
        assert(entered(other, p0) == main && entered(other, p1) == aux1 && entered(other, p2)
            == aux2);
        match net[node as int].kind {
            NodeKind::Con => {
                if slot == 0 {
                    lemma_declared_alike(net, other, st.names, p1);
                    if let Some((_, names)) = st.names.declared(net, p1) {
                        let st1 = State { names, ..mark(st, p2) };
                        lemma_read_alike(net, other, book, aux2, st1, d);
                    }
                } else if slot == 2 {
                    let st1 = mark(mark(st, p0), p1);
                    lemma_two_read_alike(net, other, book, main, aux1, st1, d);
                }
            },
            NodeKind::Mat => {
                let st1 = mark(mark(st, p0), p1);
                let sel = aux1.0;
                lemma_read_alike(net, other, book, main, st1, d);
                assert(has_port(net, aux1));
                assert(same_kind(net[sel as int].kind, other[sel as int].kind));
                if let Ok(cond) = read(net, book, main, st1, d) {
                    let q1 = Port(sel, 1);
                    let q2 = Port(sel, 2);
                    assert(has_port(net, q1) && has_port(net, q2));
                    let zero_port = entered(net, q1);
                    let succ_port = entered(net, q2);
                    assert(entered(other, q1) == zero_port && entered(other, q2) == succ_port);
                    let st2 = mark_node(cond.state, sel);
                    lemma_two_read_alike(net, other, book, zero_port, succ_port, st2, d);
                }
            },
            NodeKind::Dup { .. } => {
                if slot == 0 {
                    let st1 = mark(mark(st, p1), p2);
                    lemma_two_read_alike(net, other, book, aux1, aux2, st1, d);
                } else {
                    lemma_noting_keeps_waiting(net, state.pending, node);
                }
            },
            NodeKind::Op2 => {
                let st1 = mark(mark(st, p0), p1);
                lemma_two_read_alike(net, other, book, main, aux1, st1, d);
            },
            NodeKind::Tup => {
                let st1 = mark(mark(st, p1), p2);
                lemma_two_read_alike(net, other, book, aux1, aux2, st1, d);
            },
            _ => {},
        }
    }
}

/// Two ports in turn read the same in both nets.
proof fn lemma_two_read_alike(
    net: Seq<Node>,
    other: Seq<Node>,
    book: BookView,
    fst: Port,
    snd: Port,
    state: State,
    depth: nat,
)
    requires
        is_net(net),
        is_relabeled(net, other),
        has_port(net, fst),
        has_port(net, snd),
        state.names.within(net),
        state.pending.within(net),
    ensures
        read(net, book, fst, state, depth) == read(other, book, fst, state, depth),
        read(net, book, fst, state, depth) matches Ok(one) ==> {
            &&& read(net, book, snd, one.state, depth) == read(
                other,
                book,
                snd,
                one.state,
                depth,
            )
            &&& read(net, book, snd, one.state, depth) matches Ok(two)
                ==> two.state.names.within(net) && two.state.pending.within(net)
        },
    decreases depth, 1nat,
{
    lemma_read_alike(net, other, book, fst, state, depth);
    if let Ok(one) = read(net, book, fst, state, depth) {
        lemma_read_alike(net, other, book, snd, one.state, depth);
    }
}

/// The duplications that wait read the same in both nets.
proof fn lemma_dups_read_alike(
    net: Seq<Node>,
    other: Seq<Node>,
    book: BookView,
    main: Reading,
    depth: nat,
)
    requires
        is_net(net),
        is_relabeled(net, other),
        main.state.names.within(net),
        main.state.pending.within(net),
    ensures
        read_dups(net, book, main, depth) == read_dups(other, book, main, depth),
        read_dups(net, book, main, depth) matches Ok(all) ==> all.state.names.within(net),
    decreases depth,
{
    let dups = main.state.pending;
    if dups.stack.len() > 0 && depth > 0 {
        let d = (depth - 1) as nat;
        let dup = dups.stack.last();
        assert(dups.listed.contains(dup));
        let p0 = Port(dup, 0);
        let p1 = Port(dup, 1);
        let p2 = Port(dup, 2);
        assert(has_port(net, p0));
        let port = entered(net, p0);
        assert(entered(other, p0) == port);
        let state = mark(State { pending: dups.popped(), ..main.state }, p0);
        lemma_popping_stays_within(net, dups);
        lemma_read_alike(net, other, book, port, state, d);
        if let Ok(val) = read(net, book, port, state, d) {
            lemma_declared_alike(net, other, val.state.names, p1);
            if let Some((fst, names1)) = val.state.names.declared(net, p1) {
                lemma_declared_alike(net, other, names1, p2);
                if let Some((snd, names2)) = names1.declared(net, p2) {
                    let inner = Reading {
                        term: TermView::Dup {
                            fst,
                            snd,
                            val: Box::new(val.term),
                            nxt: Box::new(main.term),
                        },
                        valid: main.valid && val.valid,
                        state: State { names: names2, ..val.state },
                    };
                    lemma_dups_read_alike(net, other, book, inner, d);
                }
            }
        }
    }
}

/// The labels of duplications do not matter to the linear readback: nets that differ in nothing
/// else have the same.
pub proof fn law_labels_do_not_matter(net: Seq<Node>, other: Seq<Node>, book: BookView)
    requires
        is_net(net),
        is_relabeled(net, other),
    ensures
        read_net(net, book) == read_net(other, book),
{
    let depth = ample_depth(net);
    let start = State::initial();
    assert(has_port(net, root_port()));
    let root = entered(net, root_port());
    assert(entered(other, root_port()) == root);
    lemma_read_alike(net, other, book, root, start, depth);
    if let Ok(main) = read(net, book, root, start, depth) {
        lemma_dups_read_alike(net, other, book, main, depth);
        if let Ok(all) = read_dups(net, book, main, depth) {
            let names = all.state.names;
            let seen = all.state.seen;
            assert forall|port: Port| #[trigger] names.ids.contains_key(port) implies is_node_read(
                net,
                seen,
                port.0,
            ) == is_node_read(other, seen, port.0) by {
                assert(has_port(net, port));
                lemma_node_read_alike(net, other, seen, port.0);
            }
            assert(binders_read(net, names, seen) == binders_read(other, names, seen));
        }
    }
}

/// A node is read in the one net if it is in the other.
proof fn lemma_node_read_alike(
    net: Seq<Node>,
    other: Seq<Node>,
    seen: Set<Port>,
    node: NodeId,
)
    requires
        is_net(net),
        is_relabeled(net, other),
        node < net.len(),
    ensures
        is_node_read(net, seen, node) == is_node_read(other, seen, node),
{
    assert forall|slot: SlotId| slot < 3 implies #[trigger] is_read(net, seen, Port(node, slot))
        == is_read(other, seen, Port(node, slot)) by {
        let port = Port(node, slot);
        assert(has_port(net, port));
        assert(has_port(net, entered(net, port)));
        assert(entered(other, port) == entered(net, port));
        let user = entered(net, port).0 as int;
        assert(same_kind(net[user].kind, other[user].kind));
    }
    if is_node_read(net, seen, node) {
        assert forall|slot: SlotId| slot < 3 implies #[trigger] is_read(
            other,
            seen,
            Port(node, slot),
        ) by {
            assert(is_read(net, seen, Port(node, slot)));
        }
    }
}

} // verus!
