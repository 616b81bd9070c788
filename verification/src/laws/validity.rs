//! When the non-linear readback is valid.

use vstd::prelude::*;

use crate::book::BookView;
use crate::laws::bindings::{
    is_account, lemma_declared_is_accounted, lemma_non_linear_is_accounted,
    lemma_popped_is_accounted, tup_nodes,
};
use crate::net::{entered, root_port, Node, NodeId, NodeKind, Port, SlotId};
use crate::non_linear::{read, read_lets, read_net};
use crate::reading::{Reading, State};
use crate::state::{entered_dup, left_dup, no_dups};
use crate::term::{LetPatView, TermView};

verus! {

/// Whether the reader, once it has entered the net by `next`, enters a node by `port` in at most
/// `depth` nested steps. `scope` holds the duplications passed on the way to `next`.
pub open spec fn meets(
    net: Seq<Node>,
    next: Port,
    scope: Map<u8, Seq<SlotId>>,
    depth: nat,
    port: Port,
) -> bool
    decreases depth,
{
    let node = next.0;
    let slot = next.1;
    let main = entered(net, Port(node, 0));
    let aux1 = entered(net, Port(node, 1));
    let aux2 = entered(net, Port(node, 2));
    let d = (depth - 1) as nat;
    depth > 0 && (port == next || match net[node as int].kind {
        NodeKind::Con => if slot == 0 {
            meets(net, aux2, scope, d, port)
        } else if slot == 1 {
            false
        } else {
            meets(net, main, scope, d, port) || meets(net, aux1, scope, d, port)
        },
        NodeKind::Mat => {
            ||| meets(net, main, scope, d, port)
            ||| net[aux1.0 as int].kind == NodeKind::Con && (meets(
                net,
                entered(net, Port(aux1.0, 1)),
                scope,
                d,
                port,
            ) || meets(net, entered(net, Port(aux1.0, 2)), scope, d, port))
        },
        NodeKind::Dup { lab } => if slot != 0 {
            meets(net, main, entered_dup(scope, lab, slot), d, port)
        } else if scope[lab].len() > 0 {
            let chosen = entered(net, Port(node, scope[lab].last()));
            meets(net, chosen, left_dup(scope, lab), d, port)
        } else {
            meets(net, aux1, scope, d, port) || meets(net, aux2, scope, d, port)
        },
        NodeKind::Op2 => meets(net, main, scope, d, port) || meets(net, aux1, scope, d, port),
        NodeKind::Tup => slot == 0 && (meets(net, aux1, scope, d, port) || meets(
            net,
            aux2,
            scope,
            d,
            port,
        )),
        _ => false,
    })
}

/// Whether what is entered by `port` is no part of a proper net: an eraser that is entered by
/// another port than the main one, the root, or a case distinction whose cases are not held by a
/// constructor.
pub open spec fn is_flaw(net: Seq<Node>, port: Port) -> bool {
    match net[port.0 as int].kind {
        NodeKind::Era => port.1 != 0,
        NodeKind::Rot => true,
        NodeKind::Mat => net[entered(net, Port(port.0, 1)).0 as int].kind != NodeKind::Con,
        _ => false,
    }
}

/// Whether the reader meets no flaw.
pub open spec fn is_flawless(
    net: Seq<Node>,
    next: Port,
    scope: Map<u8, Seq<SlotId>>,
    depth: nat,
) -> bool {
    forall|port: Port| #[trigger] meets(net, next, scope, depth, port) ==> !is_flaw(net, port)
}

/// If what is met from a port on is the port itself and what is met from up to three others on,
/// then there is no flaw from the port on exactly if the port is none and there is none from
/// the others on.
proof fn lemma_parts_are_flawless(
    net: Seq<Node>,
    next: Port,
    scope: Map<u8, Seq<SlotId>>,
    depth: nat,
    a: Port,
    b: Port,
    c: Port,
    inner: Map<u8, Seq<SlotId>>,
)
    requires
        depth > 0,
        forall|port: Port| #[trigger]
            meets(net, next, scope, depth, port) <==> {
                ||| port == next
                ||| meets(net, a, inner, (depth - 1) as nat, port)
                ||| meets(net, b, inner, (depth - 1) as nat, port)
                ||| meets(net, c, inner, (depth - 1) as nat, port)
            },
    ensures
        is_flawless(net, next, scope, depth) <==> {
            let d = (depth - 1) as nat;
            &&& !is_flaw(net, next)
            &&& is_flawless(net, a, inner, d)
            &&& is_flawless(net, b, inner, d)
            &&& is_flawless(net, c, inner, d)
        },
{
    let d = (depth - 1) as nat;
    assert(meets(net, next, scope, depth, next));
    if is_flawless(net, next, scope, depth) {
        assert forall|port: Port| #[trigger] meets(net, a, inner, d, port) implies !is_flaw(
            net,
            port,
        ) by {
            assert(meets(net, next, scope, depth, port));
        }
        assert forall|port: Port| #[trigger] meets(net, b, inner, d, port) implies !is_flaw(
            net,
            port,
        ) by {
            assert(meets(net, next, scope, depth, port));
        }
        assert forall|port: Port| #[trigger] meets(net, c, inner, d, port) implies !is_flaw(
            net,
            port,
        ) by {
            assert(meets(net, next, scope, depth, port));
        }
    }
}

/// A non-linear reading is valid exactly if no flaw is met.
pub proof fn law_reading_is_valid_without_flaws(
    net: Seq<Node>,
    book: BookView,
    next: Port,
    scope: Map<u8, Seq<SlotId>>,
    state: State,
    depth: nat,
)
    ensures
        read(net, book, next, scope, state, depth) matches Ok(reading) ==> (reading.valid
            <==> is_flawless(net, next, scope, depth)),
    decreases depth, 0nat,
{
    if read(net, book, next, scope, state, depth) is Ok {
        let node = next.0;
        let slot = next.1;
        let main = entered(net, Port(node, 0));
        let aux1 = entered(net, Port(node, 1));
        let aux2 = entered(net, Port(node, 2));
        let d = (depth - 1) as nat;
        match net[node as int].kind {
            NodeKind::Con => {
                if slot == 0 {
                    let (_, names) = state.names.declared(net, Port(node, 1))->0;
                    let st = State { names, ..state };
                    law_reading_is_valid_without_flaws(net, book, aux2, scope, st, d);
                    lemma_parts_are_flawless(net, next, scope, depth, aux2, aux2, aux2, scope);
                } else if slot == 1 {
                    lemma_leaf_is_flawless(net, next, scope, depth);
                } else {
                    lemma_two_are_valid(net, book, main, aux1, scope, state, d);
                    lemma_parts_are_flawless(net, next, scope, depth, main, aux1, aux1, scope);
                }
            },
            NodeKind::Mat => {
                law_reading_is_valid_without_flaws(net, book, main, scope, state, d);
                let cond = read(net, book, main, scope, state, d)->Ok_0;
                if net[aux1.0 as int].kind == NodeKind::Con {
                    let zero = entered(net, Port(aux1.0, 1));
                    let succ = entered(net, Port(aux1.0, 2));
                    lemma_two_are_valid(net, book, zero, succ, scope, cond.state, d);
                    lemma_parts_are_flawless(net, next, scope, depth, main, zero, succ, scope);
                } else {
                    lemma_parts_are_flawless(net, next, scope, depth, main, main, main, scope);
                }
            },
            NodeKind::Dup { lab } => {
                if slot != 0 {
                    let inner = entered_dup(scope, lab, slot);
                    law_reading_is_valid_without_flaws(net, book, main, inner, state, d);
                    lemma_parts_are_flawless(net, next, scope, depth, main, main, main, inner);
                } else if scope[lab].len() > 0 {
                    let outer = left_dup(scope, lab);
                    let side = entered(net, Port(node, scope[lab].last()));
                    law_reading_is_valid_without_flaws(net, book, side, outer, state, d);
                    lemma_parts_are_flawless(net, next, scope, depth, side, side, side, outer);
                } else {
                    lemma_two_are_valid(net, book, aux1, aux2, scope, state, d);
                    lemma_parts_are_flawless(net, next, scope, depth, aux1, aux2, aux2, scope);
                }
            },
            NodeKind::Op2 => {
                lemma_two_are_valid(net, book, main, aux1, scope, state, d);
                lemma_parts_are_flawless(net, next, scope, depth, main, aux1, aux1, scope);
            },
            NodeKind::Tup => {
                if slot == 0 {
                    lemma_two_are_valid(net, book, aux1, aux2, scope, state, d);
                    lemma_parts_are_flawless(net, next, scope, depth, aux1, aux2, aux2, scope);
                } else {
                    lemma_leaf_is_flawless(net, next, scope, depth);
                }
            },
            _ => {
                lemma_leaf_is_flawless(net, next, scope, depth);
            },
        }
    }
}

/// If nothing is met from a port on but the port itself, then there is no flaw exactly if the
/// port is none.
proof fn lemma_leaf_is_flawless(
    net: Seq<Node>,
    next: Port,
    scope: Map<u8, Seq<SlotId>>,
    depth: nat,
)
    requires
        forall|port: Port| #[trigger] meets(net, next, scope, depth, port) <==> port == next,
    ensures
        is_flawless(net, next, scope, depth) <==> !is_flaw(net, next),
{
    assert(meets(net, next, scope, depth, next));
}

/// Two readings in turn are valid exactly if no flaw is met in them.
proof fn lemma_two_are_valid(
    net: Seq<Node>,
    book: BookView,
    fst: Port,
    snd: Port,
    scope: Map<u8, Seq<SlotId>>,
    state: State,
    depth: nat,
)
    ensures
        read(net, book, fst, scope, state, depth) matches Ok(one) ==> (read(
            net,
            book,
            snd,
            scope,
            one.state,
            depth,
        ) matches Ok(two) ==> {
            &&& one.valid <==> is_flawless(net, fst, scope, depth)
            &&& two.valid <==> is_flawless(net, snd, scope, depth)
        }),
    decreases depth, 1nat,
{
    law_reading_is_valid_without_flaws(net, book, fst, scope, state, depth);
    if let Ok(one) = read(net, book, fst, scope, state, depth) {
        law_reading_is_valid_without_flaws(net, book, snd, scope, one.state, depth);
    }
}

/// What is met in a reading that ends is all that is met at any greater depth.
proof fn lemma_meets_at_any_depth(
    net: Seq<Node>,
    book: BookView,
    next: Port,
    scope: Map<u8, Seq<SlotId>>,
    state: State,
    depth: nat,
    more: nat,
    port: Port,
)
    requires
        depth <= more,
        read(net, book, next, scope, state, depth) is Ok,
    ensures
        meets(net, next, scope, more, port) == meets(net, next, scope, depth, port),
    decreases depth, 0nat,
{
    let node = next.0;
    let slot = next.1;
    let main = entered(net, Port(node, 0));
    let aux1 = entered(net, Port(node, 1));
    let aux2 = entered(net, Port(node, 2));
    let d = (depth - 1) as nat;
    let m = (more - 1) as nat;
    match net[node as int].kind {
        NodeKind::Con => {
            if slot == 0 {
                let (_, names) = state.names.declared(net, Port(node, 1))->0;
                let st = State { names, ..state };
                lemma_meets_at_any_depth(net, book, aux2, scope, st, d, m, port);
            } else if slot != 1 {
                lemma_two_meet_at_any_depth(net, book, main, aux1, scope, state, d, m, port);
            }
        },
        NodeKind::Mat => {
            lemma_meets_at_any_depth(net, book, main, scope, state, d, m, port);
            let cond = read(net, book, main, scope, state, d)->Ok_0;
            if net[aux1.0 as int].kind == NodeKind::Con {
                let zero_port = entered(net, Port(aux1.0, 1));
                let succ_port = entered(net, Port(aux1.0, 2));
                let st = cond.state;
                lemma_two_meet_at_any_depth(
                    net,
                    book,
                    zero_port,
                    succ_port,
                    scope,
                    st,
                    d,
                    m,
                    port,
                );
            }
        },
        NodeKind::Dup { lab } => {
            if slot != 0 {
                let inner = entered_dup(scope, lab, slot);
                lemma_meets_at_any_depth(net, book, main, inner, state, d, m, port);
            } else if scope[lab].len() > 0 {
                let outer = left_dup(scope, lab);
                let chosen = entered(net, Port(node, scope[lab].last()));
                lemma_meets_at_any_depth(net, book, chosen, outer, state, d, m, port);
            } else {
                lemma_two_meet_at_any_depth(net, book, aux1, aux2, scope, state, d, m, port);
            }
        },
        NodeKind::Op2 => {
            lemma_two_meet_at_any_depth(net, book, main, aux1, scope, state, d, m, port);
        },
        NodeKind::Tup => {
            if slot == 0 {
                lemma_two_meet_at_any_depth(net, book, aux1, aux2, scope, state, d, m, port);
            }
        },
        _ => {},
    }
}

/// What is met in two readings in turn that end is all that is met at any greater depth.
proof fn lemma_two_meet_at_any_depth(
    net: Seq<Node>,
    book: BookView,
    fst: Port,
    snd: Port,
    scope: Map<u8, Seq<SlotId>>,
    state: State,
    depth: nat,
    more: nat,
    port: Port,
)
    requires
        depth <= more,
        read(net, book, fst, scope, state, depth) matches Ok(one) && read(
            net,
            book,
            snd,
            scope,
            one.state,
            depth,
        ) is Ok,
    ensures
        meets(net, fst, scope, more, port) == meets(net, fst, scope, depth, port),
        meets(net, snd, scope, more, port) == meets(net, snd, scope, depth, port),
    decreases depth, 1nat,
{
    let one = read(net, book, fst, scope, state, depth)->Ok_0;
    lemma_meets_at_any_depth(net, book, fst, scope, state, depth, more, port);
    lemma_meets_at_any_depth(net, book, snd, scope, one.state, depth, more, port);
}

/// A reading that ends is valid exactly if no flaw is met at a greater depth.
proof fn lemma_valid_at_any_depth(
    net: Seq<Node>,
    book: BookView,
    next: Port,
    scope: Map<u8, Seq<SlotId>>,
    state: State,
    depth: nat,
    more: nat,
)
    requires
        depth <= more,
    ensures
        read(net, book, next, scope, state, depth) matches Ok(reading) ==> (reading.valid
            <==> is_flawless(net, next, scope, more)),
{
    law_reading_is_valid_without_flaws(net, book, next, scope, state, depth);
    if let Ok(reading) = read(net, book, next, scope, state, depth) {
        assert forall|port: Port|
            meets(net, next, scope, more, port) == #[trigger] meets(
                net,
                next,
                scope,
                depth,
                port,
            ) by {
            lemma_meets_at_any_depth(net, book, next, scope, state, depth, more, port);
        }
        if is_flawless(net, next, scope, more) {
            assert forall|port: Port| #[trigger]
                meets(net, next, scope, depth, port) implies !is_flaw(net, port) by {
                assert(meets(net, next, scope, more, port));
            }
        }
        if is_flawless(net, next, scope, depth) {
            assert forall|port: Port| #[trigger]
                meets(net, next, scope, more, port) implies !is_flaw(net, port) by {
                assert(meets(net, next, scope, depth, port));
            }
        }
    }
}

/// Whether no flaw is met in the value that a pair takes apart.
pub open spec fn value_is_flawless(net: Seq<Node>, tup: NodeId, depth: nat) -> bool {
    is_flawless(net, entered(net, Port(tup, 0)), no_dups(), depth)
}

/// Whether no flaw is met from the root on, nor in the values that `tups` take apart.
pub open spec fn net_is_flawless(net: Seq<Node>, tups: Set<NodeId>, depth: nat) -> bool {
    &&& is_flawless(net, entered(net, root_port()), no_dups(), depth)
    &&& forall|tup: NodeId| #[trigger] tups.contains(tup) ==> value_is_flawless(net, tup, depth)
}

/// One pair more.
proof fn lemma_one_more_is_flawless(
    net: Seq<Node>,
    tups: Seq<NodeId>,
    tup: NodeId,
    depth: nat,
)
    ensures
        net_is_flawless(net, tups.push(tup).to_set(), depth) <==> net_is_flawless(
            net,
            tups.to_set(),
            depth,
        ) && value_is_flawless(net, tup, depth),
{
    let more = tups.push(tup);
    assert(more[tups.len() as int] == tup);
    assert(more.to_set().contains(tup));
    assert forall|other: NodeId| #[trigger]
        more.to_set().contains(other) <==> tups.to_set().contains(other) || other == tup by {
        if tups.contains(other) {
            assert(more[tups.index_of(other)] == other);
        }
        if more.contains(other) && other != tup {
            assert(tups[more.index_of(other)] == other);
        }
    }
    if net_is_flawless(net, more.to_set(), depth) {
        assert forall|other: NodeId| #[trigger]
            tups.to_set().contains(other) implies value_is_flawless(net, other, depth) by {
            assert(more.to_set().contains(other));
        }
    }
}

/// Reading the pairs that wait leaves the readback valid exactly if no flaw is met in them.
proof fn lemma_lets_are_valid(
    net: Seq<Node>,
    book: BookView,
    main: Reading,
    depth: nat,
    done: Seq<NodeId>,
    most: nat,
)
    requires
        is_account(net, tup_nodes(), main.state, done),
        depth <= most,
        main.valid <==> net_is_flawless(net, done.to_set(), most),
    ensures
        read_lets(net, book, main, depth) matches Ok(all) ==> (all.valid <==> net_is_flawless(
            net,
            all.state.pending.listed,
            most,
        )),
    decreases depth,
{
    if read_lets(net, book, main, depth) is Ok {
        let pending = main.state.pending;
        if pending.stack.len() == 0 {
            assert(done + pending.stack =~= done);
            assert(done.to_set() =~= pending.listed);
        } else {
            let d = (depth - 1) as nat;
            let tup = pending.stack.last();
            let p1 = Port(tup, 1);
            let p2 = Port(tup, 2);
            let body = entered(net, Port(tup, 0));
            let scope = no_dups();
            let state = State { pending: pending.popped(), ..main.state };
            let done1 = done.push(tup);
            lemma_popped_is_accounted(net, tup_nodes(), main.state, done);
            lemma_non_linear_is_accounted(net, book, body, scope, state, d, done1);
            lemma_valid_at_any_depth(net, book, body, scope, state, d, most);
            let val = read(net, book, body, scope, state, d)->Ok_0;
            let (fst, names1) = val.state.names.declared(net, p1)->0;
            let (snd, names2) = names1.declared(net, p2)->0;
            let state1 = State { names: names1, ..val.state };
            let more = Reading {
                term: TermView::Let {
                    pat: LetPatView::Tup(fst, snd),
                    val: Box::new(val.term),
                    nxt: Box::new(main.term),
                },
                valid: main.valid && val.valid,
                state: State { names: names2, ..val.state },
            };
            lemma_declared_is_accounted(net, tup_nodes(), val.state, done1, p1);
            lemma_declared_is_accounted(net, tup_nodes(), state1, done1, p2);
            lemma_one_more_is_flawless(net, done, tup, most);
            lemma_lets_are_valid(net, book, more, d, done1, most);
        }
    }
}

/// The non-linear readback of a net is valid exactly if no flaw is met: neither from the root on
/// nor in the value of any pair that is taken apart.
pub proof fn law_non_linear_readback_is_valid_without_flaws(
    net: Seq<Node>,
    book: BookView,
    depth: nat,
)
    ensures
        read_net(net, book, depth) matches Ok(reading) ==> (reading.valid <==> net_is_flawless(
            net,
            reading.state.pending.listed,
            depth,
        )),
{
    if read_net(net, book, depth) is Ok {
        let root = entered(net, root_port());
        let scope = no_dups();
        let start = State::initial();
        let none = Seq::<NodeId>::empty();
        assert(none + start.pending.stack =~= none);
        lemma_non_linear_is_accounted(net, book, root, scope, start, depth, none);
        law_reading_is_valid_without_flaws(net, book, root, scope, start, depth);
        let main = read(net, book, root, scope, start, depth)->Ok_0;
        lemma_lets_are_valid(net, book, main, depth, none, depth);
    }
}

} // verus!
