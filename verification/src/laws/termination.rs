//! The linear readback ends on every net.

use vstd::prelude::*;
use vstd::set_lib::*;

use crate::book::BookView;
use crate::linear::{ample_depth, mark, mark_node, read, read_dups, read_net};
use crate::net::{entered, has_port, is_net, root_port, Node, NodeId, NodeKind, Port};
use crate::reading::{after, Reading, State, Stop};
use crate::state::PendingView;
use crate::term::TermView;

verus! {

/// How many ports of the net are not in `seen`.
pub open spec fn unseen(net: Seq<Node>, seen: Set<Port>) -> nat {
    set_int_range(0, 3 * net.len() as int).filter(
        |i: int| !seen.contains(Port((i / 3) as usize, (i % 3) as usize)),
    ).len()
}

/// How many nodes of the net are not in `listed`.
pub open spec fn unlisted(net: Seq<Node>, listed: Set<NodeId>) -> nat {
    set_int_range(0, net.len() as int).filter(|i: int| !listed.contains(i as NodeId)).len()
}

/// How many nodes wait or may wait one day.
pub open spec fn waiting(net: Seq<Node>, pending: PendingView) -> nat {
    unlisted(net, pending.listed) + pending.stack.len()
}

/// How a reading changes the state it starts from: no port is forgotten, no node waits twice,
/// and no more nodes wait or may wait.
pub open spec fn grown(net: Seq<Node>, before: State, after: State) -> bool {
    &&& before.seen.subset_of(after.seen)
    &&& after.pending.within(net)
    &&& waiting(net, after.pending) <= waiting(net, before.pending)
}

/// Seeing more ports leaves at most as many unseen.
proof fn lemma_unseen_is_antitone(net: Seq<Node>, few: Set<Port>, many: Set<Port>)
    requires
        few.subset_of(many),
    ensures
        unseen(net, many) <= unseen(net, few),
{
    let all = set_int_range(0, 3 * net.len() as int);
    let a = all.filter(|i: int| !few.contains(Port((i / 3) as usize, (i % 3) as usize)));
    let b = all.filter(|i: int| !many.contains(Port((i / 3) as usize, (i % 3) as usize)));
    lemma_int_range(0, 3 * net.len() as int);
    all.lemma_len_filter(|i: int| !few.contains(Port((i / 3) as usize, (i % 3) as usize)));
    assert(b.subset_of(a));
    lemma_len_subset(b, a);
}

/// Seeing a port for the first time leaves fewer unseen.
pub proof fn lemma_seeing_decreases(net: Seq<Node>, seen: Set<Port>, port: Port)
    requires
        has_port(net, port),
        !seen.contains(port),
    ensures
        unseen(net, seen.insert(port)) < unseen(net, seen),
{
    let all = set_int_range(0, 3 * net.len() as int);
    let f = |i: int| !seen.contains(Port((i / 3) as usize, (i % 3) as usize));
    let g = |i: int| !seen.insert(port).contains(Port((i / 3) as usize, (i % 3) as usize));
    let a = all.filter(f);
    let b = all.filter(g);
    let index = 3 * port.0 + port.1;
    lemma_int_range(0, 3 * net.len() as int);
    all.lemma_len_filter(f);
    assert(index / 3 == port.0 && index % 3 == port.1);
    assert(a.contains(index));
    assert(!b.contains(index));
    assert(b.subset_of(a.remove(index)));
    lemma_len_subset(b, a.remove(index));
}

/// Listing a node lets no more nodes wait or be able to.
pub proof fn lemma_noting_keeps_waiting(net: Seq<Node>, pending: PendingView, node: NodeId)
    requires
        node < net.len(),
        pending.within(net),
    ensures
        pending.noted(node).within(net),
        waiting(net, pending.noted(node)) <= waiting(net, pending),
{
    let all = set_int_range(0, net.len() as int);
    let listed = pending.listed;
    if !listed.contains(node) {
        let a = all.filter(|i: int| !listed.contains(i as NodeId));
        let b = all.filter(|i: int| !listed.insert(node).contains(i as NodeId));
        lemma_int_range(0, net.len() as int);
        all.lemma_len_filter(|i: int| !listed.contains(i as NodeId));
        assert(a.contains(node as int));
        assert(b.subset_of(a.remove(node as int)));
        lemma_len_subset(b, a.remove(node as int));
    }
}

/// What still waits when the next node no longer does stays within the net.
pub proof fn lemma_popping_stays_within(net: Seq<Node>, pending: PendingView)
    requires
        pending.within(net),
        pending.stack.len() > 0,
    ensures
        pending.popped().within(net),
{
    let rest = pending.popped();
    assert forall|i: int| 0 <= i < rest.stack.len() implies rest.listed.contains(
        #[trigger] rest.stack[i],
    ) by {
        assert(pending.listed.contains(pending.stack[i]));
    }
}

/// At most all ports of the net are unseen.
pub proof fn lemma_all_unseen(net: Seq<Node>, seen: Set<Port>)
    ensures
        unseen(net, seen) <= 3 * net.len(),
{
    let all = set_int_range(0, 3 * net.len() as int);
    lemma_int_range(0, 3 * net.len() as int);
    all.lemma_len_filter(|i: int| !seen.contains(Port((i / 3) as usize, (i % 3) as usize)));
}

/// The linear readback forgets no port that was seen.
pub proof fn law_ports_stay_seen(
    net: Seq<Node>,
    book: BookView,
    next: Port,
    state: State,
    depth: nat,
)
    ensures
        read(net, book, next, state, depth) matches Ok(reading) ==> state.seen.subset_of(
            reading.state.seen,
        ),
    decreases depth, 0nat,
{
    if depth > 0 && !state.seen.contains(next) {
        let node = next.0;
        let slot = next.1;
        let p0 = Port(node, 0);
        let p1 = Port(node, 1);
        let p2 = Port(node, 2);
        let main = entered(net, p0);
        let aux1 = entered(net, p1);
        let aux2 = entered(net, p2);
        let d = (depth - 1) as nat;
        let st = mark(state, next);
        match net[node as int].kind {
            NodeKind::Con => {
                if slot == 0 {
                    if let Some((_, names)) = st.names.declared(net, p1) {
                        let st1 = State { names, ..mark(st, p2) };
                        law_ports_stay_seen(net, book, aux2, st1, d);
                    }
                } else if slot != 1 {
                    lemma_two_stay_seen(net, book, main, aux1, mark(mark(st, p0), p1), d);
                }
            },
            NodeKind::Mat => {
                let st1 = mark(mark(st, p0), p1);
                law_ports_stay_seen(net, book, main, st1, d);
                if let Ok(cond) = read(net, book, main, st1, d) {
                    let zero_port = entered(net, Port(aux1.0, 1));
                    let succ_port = entered(net, Port(aux1.0, 2));
                    let st2 = mark_node(cond.state, aux1.0);
                    lemma_two_stay_seen(net, book, zero_port, succ_port, st2, d);
                }
            },
            NodeKind::Dup { .. } => {
                lemma_two_stay_seen(net, book, aux1, aux2, mark(mark(st, p1), p2), d);
            },
            NodeKind::Op2 => {
                lemma_two_stay_seen(net, book, main, aux1, mark(mark(st, p0), p1), d);
            },
            NodeKind::Tup => {
                lemma_two_stay_seen(net, book, aux1, aux2, mark(mark(st, p1), p2), d);
            },
            _ => {},
        }
    }
}

/// No port is forgotten by two readings in turn.
proof fn lemma_two_stay_seen(
    net: Seq<Node>,
    book: BookView,
    fst: Port,
    snd: Port,
    state: State,
    depth: nat,
)
    ensures
        read(net, book, fst, state, depth) matches Ok(one) ==> (read(
            net,
            book,
            snd,
            one.state,
            depth,
        ) matches Ok(two) ==> state.seen.subset_of(two.state.seen)),
    decreases depth, 1nat,
{
    law_ports_stay_seen(net, book, fst, state, depth);
    if let Ok(one) = read(net, book, fst, state, depth) {
        law_ports_stay_seen(net, book, snd, one.state, depth);
    }
}

/// A reading at a depth of at least the number of unseen ports ends.
proof fn lemma_read_ends(net: Seq<Node>, book: BookView, next: Port, state: State, depth: nat)
    requires
        is_net(net),
        has_port(net, next),
        state.pending.within(net),
        unseen(net, state.seen) <= depth,
    ensures
        read(net, book, next, state, depth) != Err::<Reading, Stop>(Stop::Depth),
        read(net, book, next, state, depth) matches Ok(reading) ==> grown(
            net,
            state,
            reading.state,
        ),
    decreases depth, 0nat,
{
    if !state.seen.contains(next) {
        lemma_seeing_decreases(net, state.seen, next);
        let node = next.0;
        let slot = next.1;
        let p0 = Port(node, 0);
        let p1 = Port(node, 1);
        let p2 = Port(node, 2);
        let main = entered(net, p0);
        let aux1 = entered(net, p1);
        let aux2 = entered(net, p2);
        let d = (depth - 1) as nat;
        let st = mark(state, next);
        match net[node as int].kind {
            NodeKind::Con => {
                if slot == 0 {
                    if let Some((_, names)) = st.names.declared(net, p1) {
                        let st1 = State { names, ..mark(st, p2) };
                        lemma_unseen_is_antitone(net, st.seen, st1.seen);
                        lemma_read_ends(net, book, aux2, st1, d);
                    }
                } else if slot == 2 {
                    lemma_two_end(net, book, main, aux1, st, mark(mark(st, p0), p1), d);
                }
            },
            NodeKind::Mat => {
                if slot == 2 {
                    let st1 = mark(mark(st, p0), p1);
                    lemma_unseen_is_antitone(net, st.seen, st1.seen);
                    lemma_read_ends(net, book, main, st1, d);
                    let cond = read(net, book, main, st1, d);
                    if cond is Ok && net[aux1.0 as int].kind == NodeKind::Con {
                        let st2 = after(cond, st1);
                        let zero_port = entered(net, Port(aux1.0, 1));
                        let succ_port = entered(net, Port(aux1.0, 2));
                        lemma_unseen_is_antitone(net, st1.seen, st2.seen);
                        lemma_two_end(
                            net,
                            book,
                            zero_port,
                            succ_port,
                            st2,
                            mark_node(st2, aux1.0),
                            d,
                        );
                    }
                }
            },
            NodeKind::Dup { .. } => {
                if slot == 0 {
                    lemma_two_end(net, book, aux1, aux2, st, mark(mark(st, p1), p2), d);
                } else {
                    lemma_noting_keeps_waiting(net, st.pending, node);
                }
            },
            NodeKind::Op2 => {
                if slot == 2 {
                    lemma_two_end(net, book, main, aux1, st, mark(mark(st, p0), p1), d);
                }
            },
            NodeKind::Tup => {
                lemma_two_end(net, book, aux1, aux2, st, mark(mark(st, p1), p2), d);
            },
            _ => {},
        }
    }
}

/// Two readings in turn, from a state with a few more ports seen, end.
proof fn lemma_two_end(
    net: Seq<Node>,
    book: BookView,
    fst: Port,
    snd: Port,
    state: State,
    marked: State,
    depth: nat,
)
    requires
        is_net(net),
        has_port(net, fst),
        has_port(net, snd),
        state.pending.within(net),
        unseen(net, state.seen) <= depth,
        state.seen.subset_of(marked.seen),
        marked.pending == state.pending,
    ensures
        read(net, book, fst, marked, depth) != Err::<Reading, Stop>(Stop::Depth),
        read(net, book, fst, marked, depth) matches Ok(one) ==> {
            &&& read(net, book, snd, one.state, depth) != Err::<Reading, Stop>(Stop::Depth)
            &&& read(net, book, snd, one.state, depth) matches Ok(two) ==> grown(
                net,
                state,
                two.state,
            )
        },
    decreases depth, 1nat,
{
    lemma_unseen_is_antitone(net, state.seen, marked.seen);
    lemma_read_ends(net, book, fst, marked, depth);
    if let Ok(one) = read(net, book, fst, marked, depth) {
        lemma_unseen_is_antitone(net, marked.seen, one.state.seen);
        lemma_read_ends(net, book, snd, one.state, depth);
    }
}

/// The duplications that wait can all be read, at a depth of at least the number of unseen
/// ports and of nodes that wait or may wait.
proof fn lemma_dups_end(net: Seq<Node>, book: BookView, main: Reading, depth: nat)
    requires
        is_net(net),
        main.state.pending.within(net),
        unseen(net, main.state.seen) + waiting(net, main.state.pending) <= depth,
    ensures
        read_dups(net, book, main, depth) != Err::<Reading, Stop>(Stop::Depth),
    decreases depth,
{
    let dups = main.state.pending;
    if dups.stack.len() > 0 {
        let d = (depth - 1) as nat;
        let dup = dups.stack.last();
        assert(dups.listed.contains(dup));
        let port = entered(net, Port(dup, 0));
        let st0 = State { pending: dups.popped(), ..main.state };
        let st = mark(st0, Port(dup, 0));
        lemma_popping_stays_within(net, dups);
        lemma_unseen_is_antitone(net, st0.seen, st.seen);
        lemma_read_ends(net, book, port, st, d);
        if let Ok(val) = read(net, book, port, st, d) {
            lemma_unseen_is_antitone(net, st.seen, val.state.seen);
            if let Some((fst, names1)) = val.state.names.declared(net, Port(dup, 1)) {
                if let Some((snd, names2)) = names1.declared(net, Port(dup, 2)) {
                    let inner = Reading {
                        term: TermView::Dup {
                            fst,
                            snd,
                            val: Box::new(val.term),
                            nxt: Box::new(main.term),
                        },
                        valid: main.valid && val.valid,
                        state: State { names: names2, ..val.state },
                    };
                    lemma_dups_end(net, book, inner, d);
                }
            }
        }
    }
}

/// The linear readback ends on every net: if a net cannot be read, then because it holds what
/// has no reading.
pub proof fn law_linear_readback_ends(net: Seq<Node>, book: BookView)
    requires
        is_net(net),
    ensures
        read_net(net, book) != Err::<Reading, Stop>(Stop::Depth),
{
    let depth = ample_depth(net);
    let start = State::initial();
    let all_nodes = set_int_range(0, net.len() as int);
    lemma_all_unseen(net, start.seen);
    lemma_int_range(0, net.len() as int);
    all_nodes.lemma_len_filter(|i: int| !start.pending.listed.contains(i as NodeId));
    let port = entered(net, root_port());
    assert(has_port(net, root_port()));
    lemma_read_ends(net, book, port, start, depth);
    if let Ok(main) = read(net, book, port, start, depth) {
        lemma_unseen_is_antitone(net, start.seen, main.state.seen);
        lemma_dups_end(net, book, main, depth);
    }
}

} // verus!
