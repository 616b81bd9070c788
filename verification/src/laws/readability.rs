//! Nets that can be read.

use vstd::prelude::*;

use crate::book::BookView;
use crate::laws::agreement::{has_no_dups, law_readbacks_agree};
use crate::laws::termination::{
    law_linear_readback_ends, law_ports_stay_seen, lemma_all_unseen, lemma_noting_keeps_waiting,
    lemma_popping_stays_within, lemma_seeing_decreases, unseen,
};
use crate::laws::variables::is_symmetric;
use crate::linear;
use crate::linear::{ample_depth, mark, mark_node, read, read_dups, readable};
use crate::name::Val;
use crate::net::{entered, has_port, is_net, root_port, Node, NodeId, NodeKind, Port, SlotId};
use crate::non_linear;
use crate::op::{labeled_op, law_labels_are_from_one_to_fifteen, NUM_BOUND};
use crate::reading::{applied, Reading, State, Stop};
use crate::state::VarNamesView;
use crate::term::TermView;

verus! {

/// Whether a port reads as an operator: it belongs to a number that holds one, alone or with an
/// operand, or to the result of an operation.
pub open spec fn is_operator(net: Seq<Node>, port: Port) -> bool {
    match net[port.0 as int].kind {
        NodeKind::Num { val } => labeled_op(val as int / NUM_BOUND as int) is Some || labeled_op(
            val as int % NUM_BOUND as int,
        ) is Some,
        NodeKind::Op2 => port.1 == 2,
        _ => false,
    }
}

/// Whether what is entered by a port of `ways` has a reading as far as the node itself goes, and
/// the reader goes on from there by ports of `ways`: case distinctions and operations are
/// entered by their third port, the operators of operations read as operators, and references
/// are not to generated definitions. Where there are operations, cases are held neither by a
/// number nor by an operation.
pub open spec fn goes_well(net: Seq<Node>, book: BookView, ways: Set<Port>, port: Port) -> bool {
    let node = port.0;
    let slot = port.1;
    let main = entered(net, Port(node, 0));
    let aux1 = entered(net, Port(node, 1));
    let aux2 = entered(net, Port(node, 2));
    match net[node as int].kind {
        NodeKind::Con => if slot == 0 {
            ways.contains(aux2)
        } else if slot == 1 {
            true
        } else {
            ways.contains(main) && ways.contains(aux1)
        },
        NodeKind::Mat => {
            &&& slot == 2
            &&& ways.contains(main)
            &&& has_no_operations(net) || (net[aux1.0 as int].kind !is Num
                && net[aux1.0 as int].kind != NodeKind::Op2)
            &&& net[aux1.0 as int].kind == NodeKind::Con ==> ways.contains(
                entered(net, Port(aux1.0, 1)),
            ) && ways.contains(entered(net, Port(aux1.0, 2)))
        },
        NodeKind::Ref { def_id } => !book.is_generated(def_id),
        NodeKind::Dup { .. } => if slot == 0 {
            ways.contains(aux1) && ways.contains(aux2)
        } else {
            ways.contains(main)
        },
        NodeKind::Op2 => {
            &&& slot == 2
            &&& is_operator(net, main)
            &&& ways.contains(main)
            &&& ways.contains(aux1)
        },
        NodeKind::Tup => ways.contains(aux1) && ways.contains(aux2),
        _ => true,
    }
}

/// Whether `ways` are ports by which the linear reader can walk the net: it starts with one of
/// them, and goes on by them.
pub open spec fn is_walkable(net: Seq<Node>, book: BookView, ways: Set<Port>) -> bool {
    &&& ways.contains(entered(net, root_port()))
    &&& forall|port: Port| #[trigger]
        ways.contains(port) && has_port(net, port) ==> goes_well(net, book, ways, port)
}

/// Whether a net has no operations.
pub open spec fn has_no_operations(net: Seq<Node>) -> bool {
    forall|i: int| 0 <= i < net.len() ==> (#[trigger] net[i]).kind != NodeKind::Op2
}

/// Whether a net holds neither operations nor case distinctions, and refers to no generated
/// definition.
pub open spec fn is_simple(net: Seq<Node>, book: BookView) -> bool {
    forall|i: int|
        0 <= i < net.len() ==> match (#[trigger] net[i]).kind {
            NodeKind::Mat => false,
            NodeKind::Op2 => false,
            NodeKind::Ref { def_id } => !book.is_generated(def_id),
            _ => true,
        }
}

/// Whether there are ids left for all ports of the net that bind no variable yet.
pub open spec fn has_ids_left(net: Seq<Node>, names: VarNamesView) -> bool {
    names.next + unseen(net, names.ids.dom()) <= Val::MAX
}

/// Naming a variable of the net succeeds while there are ids left, and leaves enough.
proof fn lemma_naming_succeeds(net: Seq<Node>, names: VarNamesView, port: Port)
    requires
        has_port(net, port),
        has_ids_left(net, names),
    ensures
        names.named(port) matches Some((_, names1)) && has_ids_left(net, names1),
{
    if !names.ids.contains_key(port) {
        lemma_seeing_decreases(net, names.ids.dom(), port);
        assert(names.ids.insert(port, names.next).dom() =~= names.ids.dom().insert(port));
    }
}

/// Whether the operators of all operations that were not read yet are unseen.
#[verifier::opaque]
spec fn operators_wait(net: Seq<Node>, state: State) -> bool {
    forall|node: NodeId|
        #![trigger entered(net, Port(node, 0))]
        node < net.len() && net[node as int].kind == NodeKind::Op2 && is_operator(
            net,
            entered(net, Port(node, 0)),
        ) && !state.seen.contains(Port(node, 2)) ==> !state.seen.contains(
            entered(net, Port(node, 0)),
        )
}

/// Whether an operation whose operator is entered is being read.
spec fn comes_from(net: Seq<Node>, state: State, port: Port) -> bool {
    has_no_operations(net) || (is_symmetric(net) && (net[port.0 as int].kind == NodeKind::Op2
        && port.1 == 0 ==> state.seen.contains(Port(port.0, 2))))
}

/// What holds while the net is walked.
spec fn is_on_course(net: Seq<Node>, ways: Set<Port>, state: State) -> bool {
    &&& has_ids_left(net, state.names)
    &&& state.pending.within(net)
    &&& operators_wait(net, state)
    &&& forall|node: NodeId| #[trigger]
        state.pending.listed.contains(node) ==> net[node as int].kind is Dup && ways.contains(
            entered(net, Port(node, 0)),
        )
}

/// Seeing a port that is not the operator of an operation keeps the operators unseen.
proof fn lemma_operators_wait(net: Seq<Node>, state: State, port: Port)
    requires
        operators_wait(net, state),
        has_no_operations(net) || !is_operator(net, port),
    ensures
        operators_wait(net, mark(state, port)),
{
    reveal(operators_wait);
}

/// Entering a port keeps the other operators unseen.
proof fn lemma_other_operators_wait(net: Seq<Node>, state: State, next: Port)
    requires
        operators_wait(net, state),
        has_port(net, next),
        comes_from(net, state, entered(net, next)),
    ensures
        operators_wait(net, mark(state, next)),
{
    reveal(operators_wait);
    let marked = mark(state, next);
    assert forall|node: NodeId|
        #![trigger entered(net, Port(node, 0))]
        node < net.len() && net[node as int].kind == NodeKind::Op2 && is_operator(
            net,
            entered(net, Port(node, 0)),
        ) && !marked.seen.contains(Port(node, 2)) implies !marked.seen.contains(
        entered(net, Port(node, 0)),
    ) by {
        assert(net[node as int].kind == NodeKind::Op2);
        assert(has_port(net, Port(node, 0)));
        if entered(net, Port(node, 0)) == next {
            assert(entered(net, next) == Port(node, 0));
        }
    }
}

/// Reading on a walkable net does not get stuck while there are ids left.
proof fn lemma_read_succeeds(
    net: Seq<Node>,
    book: BookView,
    ways: Set<Port>,
    next: Port,
    state: State,
    depth: nat,
)
    requires
        is_net(net),
        is_walkable(net, book, ways),
        has_port(net, next),
        ways.contains(next),
        comes_from(net, state, entered(net, next)),
        is_on_course(net, ways, state),
    ensures
        read(net, book, next, state, depth) != Err::<Reading, Stop>(Stop::Stuck),
        read(net, book, next, state, depth) matches Ok(reading) ==> is_on_course(
            net,
            ways,
            reading.state,
        ),
    decreases depth, 1nat,
{
    if depth > 0 && !state.seen.contains(next) {
        let node = next.0;
        let slot = next.1;
        let p0 = Port(node, 0);
        let p1 = Port(node, 1);
        let p2 = Port(node, 2);
        let main = entered(net, p0);
        let aux1 = entered(net, p1);
        let d = (depth - 1) as nat;
        let st = mark(state, next);
        assert(has_port(net, p0) && has_port(net, p1) && has_port(net, p2));
        assert(goes_well(net, book, ways, next));
        lemma_other_operators_wait(net, state, next);
        match net[node as int].kind {
            NodeKind::Con => {
                if slot == 0 {
                    lemma_naming_succeeds(net, state.names, p1);
                    if let Some((_, names)) = st.names.declared(net, p1) {
                        let st1 = mark(st, p2);
                        let st2 = State { names, ..st1 };
                        lemma_operators_wait(net, st, p2);
                        assert(operators_wait(net, st2)) by {
                            reveal(operators_wait);
                        }
                        lemma_read_succeeds(net, book, ways, entered(net, p2), st2, d);
                    }
                } else if slot == 1 {
                    lemma_naming_succeeds(net, state.names, next);
                    lemma_names_do_not_matter(net, st);
                } else {
                    lemma_operators_wait(net, st, p0);
                    lemma_operators_wait(net, mark(st, p0), p1);
                    lemma_two_succeed(net, book, ways, p0, p1, mark(mark(st, p0), p1), d);
                }
            },
            NodeKind::Mat => {
                let st1 = mark(mark(st, p0), p1);
                let sel = aux1.0;
                lemma_operators_wait(net, st, p0);
                lemma_operators_wait(net, mark(st, p0), p1);
                lemma_read_succeeds(net, book, ways, main, st1, d);
                if let Ok(cond) = read(net, book, main, st1, d) {
                    let q0 = Port(sel, 0);
                    let q1 = Port(sel, 1);
                    let q2 = Port(sel, 2);
                    lemma_operators_wait(net, cond.state, q0);
                    lemma_operators_wait(net, mark(cond.state, q0), q1);
                    lemma_operators_wait(net, mark(mark(cond.state, q0), q1), q2);
                    if net[sel as int].kind == NodeKind::Con {
                        let st2 = mark_node(cond.state, sel);
                        lemma_two_succeed(net, book, ways, q1, q2, st2, d);
                    }
                }
            },
            NodeKind::Dup { .. } => {
                if slot == 0 {
                    lemma_operators_wait(net, st, p1);
                    lemma_operators_wait(net, mark(st, p1), p2);
                    lemma_two_succeed(net, book, ways, p1, p2, mark(mark(st, p1), p2), d);
                } else {
                    lemma_naming_succeeds(net, state.names, next);
                    lemma_noting_keeps_waiting(net, state.pending, node);
                    lemma_names_do_not_matter(net, st);
                }
            },
            NodeKind::Op2 => {
                lemma_operation_succeeds(net, book, ways, node, state, depth);
            },
            NodeKind::Tup => {
                lemma_operators_wait(net, st, p1);
                lemma_operators_wait(net, mark(st, p1), p2);
                lemma_two_succeed(net, book, ways, p1, p2, mark(mark(st, p1), p2), d);
            },
            _ => {
                lemma_names_do_not_matter(net, st);
            },
        }
    }
}

/// Which operators are unseen depends on what was seen alone.
proof fn lemma_names_do_not_matter(net: Seq<Node>, state: State)
    ensures
        forall|other: State|
            #![trigger operators_wait(net, other)]
            other.seen == state.seen ==> operators_wait(net, other) == operators_wait(net, state),
{
    reveal(operators_wait);
}

/// Reading an operation on a walkable net does not get stuck.
proof fn lemma_operation_succeeds(
    net: Seq<Node>,
    book: BookView,
    ways: Set<Port>,
    node: NodeId,
    state: State,
    depth: nat,
)
    requires
        is_net(net),
        is_walkable(net, book, ways),
        node < net.len(),
        net[node as int].kind == NodeKind::Op2,
        ways.contains(Port(node, 2)),
        comes_from(net, state, entered(net, Port(node, 2))),
        !state.seen.contains(Port(node, 2)),
        is_on_course(net, ways, state),
    ensures
        read(net, book, Port(node, 2), state, depth) != Err::<Reading, Stop>(Stop::Stuck),
        read(net, book, Port(node, 2), state, depth) matches Ok(reading) ==> is_on_course(
            net,
            ways,
            reading.state,
        ),
    decreases depth, 0nat,
{
    if depth > 0 {
        let next = Port(node, 2);
        let p0 = Port(node, 0);
        let p1 = Port(node, 1);
        let main = entered(net, p0);
        let d = (depth - 1) as nat;
        let st = mark(state, next);
        let st1 = mark(mark(st, p0), p1);
        assert(has_port(net, p0) && has_port(net, p1));
        assert(goes_well(net, book, ways, next));
        lemma_other_operators_wait(net, state, next);
        lemma_operators_wait(net, st, p0);
        lemma_operators_wait(net, mark(st, p0), p1);
        lemma_two_succeed(net, book, ways, p0, p1, st1, d);
        assert(!state.seen.contains(main)) by {
            reveal(operators_wait);
        }
        if main == next {
            assert(entered(net, main) == p0);
        }
        assert(!st1.seen.contains(main));
        if let Ok(op) = read(net, book, main, st1, d) {
            assert(op.term is Opx || op.term == (TermView::Num {
                val: net[main.0 as int].kind->val,
            }));
            assert(forall|arg: TermView| #[trigger] applied(op.term, arg) is Some);
        }
    }
}

/// Two readings in turn, on from two ports, do not get stuck.
proof fn lemma_two_succeed(
    net: Seq<Node>,
    book: BookView,
    ways: Set<Port>,
    p: Port,
    q: Port,
    state: State,
    depth: nat,
)
    requires
        is_net(net),
        is_walkable(net, book, ways),
        has_port(net, p),
        has_port(net, q),
        comes_from(net, state, p),
        comes_from(net, state, q),
        ways.contains(entered(net, p)),
        ways.contains(entered(net, q)),
        is_on_course(net, ways, state),
    ensures
        read(net, book, entered(net, p), state, depth) != Err::<Reading, Stop>(Stop::Stuck),
        read(net, book, entered(net, p), state, depth) matches Ok(one) ==> {
            &&& read(net, book, entered(net, q), one.state, depth) != Err::<Reading, Stop>(
                Stop::Stuck,
            )
            &&& read(net, book, entered(net, q), one.state, depth) matches Ok(two)
                ==> is_on_course(net, ways, two.state)
        },
    decreases depth, 2nat,
{
    let fst = entered(net, p);
    let snd = entered(net, q);
    lemma_read_succeeds(net, book, ways, fst, state, depth);
    law_ports_stay_seen(net, book, fst, state, depth);
    if let Ok(one) = read(net, book, fst, state, depth) {
        lemma_read_succeeds(net, book, ways, snd, one.state, depth);
    }
}

/// Reading the duplications of a walkable net does not get stuck while there are ids left.
proof fn lemma_dups_succeed(
    net: Seq<Node>,
    book: BookView,
    ways: Set<Port>,
    main: Reading,
    depth: nat,
)
    requires
        is_net(net),
        is_walkable(net, book, ways),
        has_no_operations(net) || is_symmetric(net),
        is_on_course(net, ways, main.state),
    ensures
        read_dups(net, book, main, depth) != Err::<Reading, Stop>(Stop::Stuck),
    decreases depth,
{
    let dups = main.state.pending;
    if dups.stack.len() > 0 && depth > 0 {
        let d = (depth - 1) as nat;
        let dup = dups.stack.last();
        assert(dups.listed.contains(dup));
        let p0 = Port(dup, 0);
        assert(has_port(net, p0));
        let port = entered(net, p0);
        let st0 = State { pending: dups.popped(), ..main.state };
        let st = mark(st0, p0);
        lemma_popping_stays_within(net, dups);
        lemma_names_do_not_matter(net, main.state);
        assert(operators_wait(net, st0));
        lemma_operators_wait(net, st0, p0);
        lemma_read_succeeds(net, book, ways, port, st, d);
        if let Ok(val) = read(net, book, port, st, d) {
            lemma_naming_succeeds(net, val.state.names, Port(dup, 1));
            if let Some((fst, names1)) = val.state.names.declared(net, Port(dup, 1)) {
                lemma_naming_succeeds(net, names1, Port(dup, 2));
                if let Some((snd, names2)) = names1.declared(net, Port(dup, 2)) {
                    let inner = Reading {
                        term: TermView::Dup {
                            fst,
                            snd,
                            val: Box::new(val.term),
                            nxt: Box::new(main.term),
                        },
                        valid: main.valid && val.valid,
                        state: State { names: names2, ..val.state },
                    };
                    lemma_names_do_not_matter(net, val.state);
                    assert(operators_wait(net, inner.state));
                    lemma_dups_succeed(net, book, ways, inner, d);
                }
            }
        }
    }
}

/// A net whose case distinctions and operations are entered by their third port, whose operators
/// read as operators and which refers to no generated definition has a linear readback, unless
/// it has more ports than there are variable ids. `ways` are the ports that are entered. Where
/// there are operations, links have to lead back to where they came from.
pub proof fn law_walkable_nets_are_readable(net: Seq<Node>, book: BookView, ways: Set<Port>)
    requires
        is_net(net),
        is_walkable(net, book, ways),
        has_no_operations(net) || is_symmetric(net),
        3 * net.len() <= Val::MAX,
    ensures
        readable(net, book),
{
    let depth = ample_depth(net);
    let port = entered(net, root_port());
    let start = State::initial();
    assert(has_port(net, root_port()));
    lemma_all_unseen(net, start.names.ids.dom());
    assert(operators_wait(net, start)) by {
        reveal(operators_wait);
    }
    lemma_read_succeeds(net, book, ways, port, start, depth);
    if let Ok(main) = read(net, book, port, start, depth) {
        lemma_dups_succeed(net, book, ways, main, depth);
    }
    law_linear_readback_ends(net, book);
}

/// A net without operations, case distinctions and references to generated definitions has a
/// linear readback, unless it has more ports than there are variable ids.
pub proof fn law_simple_nets_are_readable(net: Seq<Node>, book: BookView)
    requires
        is_net(net),
        is_simple(net, book),
        3 * net.len() <= Val::MAX,
    ensures
        readable(net, book),
{
    let ways = Set::new(|port: Port| has_port(net, port));
    assert(has_port(net, root_port()));
    assert forall|port: Port| #[trigger]
        ways.contains(port) && has_port(net, port) implies goes_well(net, book, ways, port) by {
        assert(has_port(net, Port(port.0, 0)));
        assert(has_port(net, Port(port.0, 1)));
        assert(has_port(net, Port(port.0, 2)));
    }
    law_walkable_nets_are_readable(net, book, ways);
}

/// A net without duplications that has a valid linear readback has a non-linear one, too. Its
/// links have to lead back to where they came from.
pub proof fn law_nets_are_readable_non_linearly(net: Seq<Node>, book: BookView)
    requires
        is_net(net),
        is_symmetric(net),
        has_no_dups(net),
        linear::read_net(net, book) matches Ok(reading) && reading.valid,
    ensures
        non_linear::readable(net, book),
{
    law_readbacks_agree(net, book);
}

/// A case distinction or an operation that is entered by another port than its third has no
/// reading.
pub proof fn law_wrong_ports_have_no_reading(
    net: Seq<Node>,
    book: BookView,
    port: Port,
    scope: Map<u8, Seq<SlotId>>,
    state: State,
    depth: nat,
)
    requires
        net[port.0 as int].kind == NodeKind::Mat || net[port.0 as int].kind == NodeKind::Op2,
        port.1 != 2,
        depth > 0,
    ensures
        non_linear::read(net, book, port, scope, state, depth) == Err::<Reading, Stop>(Stop::Stuck),
        !state.seen.contains(port) ==> read(net, book, port, state, depth) == Err::<Reading, Stop>(
            Stop::Stuck,
        ),
{
}

/// An operation can be built exactly if what was read for its operator is a number that holds an
/// operator, alone or with an operand, or an operation.
pub proof fn law_only_operators_are_applied(op_term: TermView, arg: TermView)
    ensures
        applied(op_term, arg) is Some <==> match op_term {
            TermView::Num { val } => {
                ||| NUM_BOUND <= val < 16 * NUM_BOUND
                ||| 1 <= val % NUM_BOUND <= 15
            },
            TermView::Opx { .. } => true,
            _ => false,
        },
{
    if let TermView::Num { val } = op_term {
        law_labels_are_from_one_to_fifteen(val as int / NUM_BOUND as int);
        law_labels_are_from_one_to_fifteen(val as int % NUM_BOUND as int);
    }
}

/// What is read for an operation whose operator does not read as one is no term: the readbacks
/// get stuck.
pub proof fn law_operations_need_operators(
    net: Seq<Node>,
    book: BookView,
    node: NodeId,
    scope: Map<u8, Seq<SlotId>>,
    state: State,
    depth: nat,
)
    requires
        net[node as int].kind == NodeKind::Op2,
    ensures
        ({
            let main = entered(net, Port(node, 0));
            let aux1 = entered(net, Port(node, 1));
            non_linear::read(net, book, main, scope, state, depth) matches Ok(op) ==> (
            non_linear::read(net, book, aux1, scope, op.state, depth) matches Ok(arg) ==> (applied(
                op.term,
                arg.term,
            ) is None <==> non_linear::read(
                net,
                book,
                Port(node, 2),
                scope,
                state,
                depth + 1,
            ) == Err::<Reading, Stop>(Stop::Stuck)))
        }),
        !state.seen.contains(Port(node, 2)) ==> {
            let main = entered(net, Port(node, 0));
            let aux1 = entered(net, Port(node, 1));
            let st = mark(mark(mark(state, Port(node, 2)), Port(node, 0)), Port(node, 1));
            read(net, book, main, st, depth) matches Ok(op) ==> (read(
                net,
                book,
                aux1,
                op.state,
                depth,
            ) matches Ok(arg) ==> (applied(op.term, arg.term) is None <==> read(
                net,
                book,
                Port(node, 2),
                state,
                depth + 1,
            ) == Err::<Reading, Stop>(Stop::Stuck)))
        },
{
}

} // verus!
