//! Valid linear readbacks leave no variable unbound.

use vstd::prelude::*;

use crate::book::BookView;
use crate::laws::bindings::{
    binds_all, depicts_with_dups, dup_nodes, law_linear_readback_depicts,
};
use crate::laws::naming::{
    binder, binders, is_sound, law_linear_keeps_names, lemma_named_is_sound,
};
use crate::laws::termination::{
    law_ports_stay_seen, lemma_noting_keeps_waiting, lemma_popping_stays_within,
};
use crate::linear::{
    ample_depth, is_node_read, is_read, mark, mark_node, read, read_dups, read_net,
};
use crate::name::id_name;
use crate::op::{labeled_op, NUM_BOUND};
use crate::net::{entered, has_port, is_net, root_port, Node, NodeId, NodeKind, Port};
use crate::reading::{applied, Reading, State};
use crate::state::VarNamesView;
use crate::term::TermView;

verus! {

/// Whether every link leads back to where it came from.
pub open spec fn is_symmetric(net: Seq<Node>) -> bool {
    forall|port: Port|
        has_port(net, port) ==> entered(net, #[trigger] entered(net, port)) == port
}

/// Whether no operation is applied to an operation that has both operands, of which one would be
/// dropped: where the operator of an operation is an operation, the operator of the latter is a
/// number that holds no operand.
pub open spec fn keeps_operands(net: Seq<Node>) -> bool {
    forall|node: NodeId|
        #![trigger entered(net, Port(node, 0))]
        node < net.len() && net[node as int].kind == NodeKind::Op2 && net[entered(
            net,
            Port(node, 0),
        ).0 as int].kind == NodeKind::Op2 ==> {
            let inner = entered(net, Port(node, 0)).0;
            let operator = entered(net, Port(inner, 0)).0;
            net[operator as int].kind matches NodeKind::Num { val } && labeled_op(
                val as int / NUM_BOUND as int,
            ) is None
        }
}

/// Whether the net is one whose links are symmetric and whose operations keep their operands.
pub open spec fn is_proper(net: Seq<Node>) -> bool {
    is_net(net) && is_symmetric(net) && keeps_operands(net)
}

/// Whether the reader may have gone on through `port`.
pub open spec fn is_left(net: Seq<Node>, state: State, port: Port) -> bool {
    &&& state.seen.contains(port) || port == root_port()
    &&& net[port.0 as int].kind != NodeKind::Era
}

/// Whether the variable that `port` binds has a name, and `bound` holds it.
spec fn is_bound(names: VarNamesView, bound: Set<Seq<char>>, port: Port) -> bool {
    names.ids.contains_key(port) && bound.contains(id_name(names.ids[port] as nat))
}

/// What holds of a constructor while the net is read, where `bound` are the names bound so far.
/// If its variable has a name that is not bound, then the constructor itself was not read and
/// the variable was met. If its main port was seen, then its variable is bound, unused or seen.
spec fn is_settled(
    net: Seq<Node>,
    state: State,
    bound: Set<Seq<char>>,
    node: NodeId,
) -> bool {
    let port = Port(node, 1);
    let user = entered(net, port);
    let reached = state.seen.contains(Port(node, 0));
    &&& state.names.ids.contains_key(port) ==> is_bound(state.names, bound, port) || (!reached
        && is_left(net, state, user))
    &&& reached ==> state.seen.contains(port) || is_bound(state.names, bound, port)
        || net[user.0 as int].kind == NodeKind::Era
}

/// Whether `port` may bind a variable: it is the variable's port of a constructor, or one of
/// those of a duplication and not linked to an eraser.
spec fn is_variable_port(net: Seq<Node>, port: Port) -> bool {
    port.0 < net.len() && match net[port.0 as int].kind {
        NodeKind::Con => port.1 == 1,
        NodeKind::Dup { .. } => 1 <= port.1 <= 2 && net[entered(net, port).0 as int].kind
            != NodeKind::Era,
        _ => false,
    }
}

/// What holds while the net is read.
#[verifier::opaque]
spec fn is_tidy(net: Seq<Node>, state: State, bound: Set<Seq<char>>) -> bool {
    &&& is_sound(state.names)
    &&& state.pending.within(net)
    &&& forall|node: NodeId| #[trigger]
        state.pending.listed.contains(node) ==> net[node as int].kind is Dup
    &&& forall|port: Port| #[trigger]
        state.names.ids.contains_key(port) ==> is_variable_port(net, port)
    &&& forall|node: NodeId|
        node < net.len() && net[node as int].kind == NodeKind::Con ==> #[trigger] is_settled(
            net,
            state,
            bound,
            node,
        )
}

/// `bound` and the names that a term binds.
spec fn with_binders(bound: Set<Seq<char>>, term: TermView) -> Set<Seq<char>> {
    bound.union(binders(term).to_set())
}

/// A state stays tidy when more names are bound.
proof fn lemma_tidy_lasts(
    net: Seq<Node>,
    state: State,
    bound: Set<Seq<char>>,
    more: Set<Seq<char>>,
)
    requires
        is_tidy(net, state, bound),
        bound.subset_of(more),
    ensures
        is_tidy(net, state, more),
{
    reveal(is_tidy);
    assert forall|node: NodeId|
        node < net.len() && net[node as int].kind == NodeKind::Con implies #[trigger] is_settled(
        net,
        state,
        more,
        node,
    ) by {
        assert(is_settled(net, state, bound, node));
    }
}

/// A state stays tidy when ports of nodes that are no constructors are seen.
proof fn lemma_marked_is_tidy(net: Seq<Node>, state: State, bound: Set<Seq<char>>, port: Port)
    requires
        is_tidy(net, state, bound),
        net[port.0 as int].kind != NodeKind::Con || port.1 == 2,
    ensures
        is_tidy(net, mark(state, port), bound),
{
    reveal(is_tidy);
    assert forall|node: NodeId|
        node < net.len() && net[node as int].kind == NodeKind::Con implies #[trigger] is_settled(
        net,
        mark(state, port),
        bound,
        node,
    ) by {
        assert(is_settled(net, state, bound, node));
    }
}

/// A state stays tidy when all of a constructor is seen, unless the variable of the constructor
/// has a name that is not bound.
proof fn lemma_marked_node_is_tidy(
    net: Seq<Node>,
    state: State,
    bound: Set<Seq<char>>,
    node: NodeId,
    marked: State,
)
    requires
        is_tidy(net, state, bound),
        state.names.ids.contains_key(Port(node, 1)) ==> is_bound(
            state.names,
            bound,
            Port(node, 1),
        ),
        marked == mark(mark(state, Port(node, 0)), Port(node, 1)),
    ensures
        is_tidy(net, marked, bound),
{
    reveal(is_tidy);
    assert forall|other: NodeId|
        other < net.len() && net[other as int].kind == NodeKind::Con implies #[trigger] is_settled(
        net,
        marked,
        bound,
        other,
    ) by {
        assert(is_settled(net, state, bound, other));
    }
}

/// Constructors are settled in a tidy state.
proof fn lemma_constructor_is_settled(
    net: Seq<Node>,
    state: State,
    bound: Set<Seq<char>>,
    node: NodeId,
)
    requires
        is_tidy(net, state, bound),
        node < net.len(),
        net[node as int].kind == NodeKind::Con,
    ensures
        is_settled(net, state, bound, node),
{
    reveal(is_tidy);
}

/// Reading a reference keeps a tidy state tidy.
proof fn lemma_reference_is_tidy(
    net: Seq<Node>,
    book: BookView,
    port: Port,
    state: State,
    depth: nat,
    bound: Set<Seq<char>>,
)
    requires
        is_tidy(net, state, bound),
        net[port.0 as int].kind is Ref,
    ensures
        read(net, book, port, state, depth) matches Ok(reading) ==> is_tidy(
            net,
            reading.state,
            bound,
        ),
{
    lemma_marked_is_tidy(net, state, bound, port);
    assert(is_sound(state.names)) by {
        reveal(is_tidy);
    }
    law_linear_keeps_names(net, book, port, state, depth);
    if let Ok(reading) = read(net, book, port, state, depth) {
        let st = if state.seen.contains(port) {
            state
        } else {
            mark(state, port)
        };
        reveal(is_tidy);
        assert forall|node: NodeId|
            node < net.len() && net[node as int].kind == NodeKind::Con implies #[trigger]
        is_settled(net, reading.state, bound, node) by {
            assert(is_settled(net, st, bound, node));
        }
    }
}

/// An operation binds what its operands bind, but for a second operand that it had already.
proof fn lemma_operand_binds(op_term: TermView, arg: TermView)
    ensures
        applied(op_term, arg) matches Some(term) ==> {
            &&& binders(arg).to_set().subset_of(binders(term).to_set())
            &&& op_term is Num || (op_term matches TermView::Opx { snd, .. } && *snd
                == TermView::Era) ==> binders(op_term).to_set().subset_of(binders(term).to_set())
        },
{
    reveal_with_fuel(binders, 3);
    if let Some(term) = applied(op_term, arg) {
        if let TermView::Opx { fst, snd, .. } = term {
            lemma_joined(binders(*fst), binders(*snd));
        }
        if let TermView::Opx { fst, snd, .. } = op_term {
            lemma_joined(binders(*fst), binders(*snd));
        }
    }
}

/// A state stays tidy when a duplication is listed.
proof fn lemma_noted_is_tidy(net: Seq<Node>, state: State, bound: Set<Seq<char>>, node: NodeId)
    requires
        is_tidy(net, state, bound),
        node < net.len(),
        net[node as int].kind is Dup,
    ensures
        is_tidy(net, State { pending: state.pending.noted(node), ..state }, bound),
{
    reveal(is_tidy);
    let noted = State { pending: state.pending.noted(node), ..state };
    lemma_noting_keeps_waiting(net, state.pending, node);
    assert forall|other: NodeId|
        other < net.len() && net[other as int].kind == NodeKind::Con implies #[trigger] is_settled(
        net,
        noted,
        bound,
        other,
    ) by {
        assert(is_settled(net, state, bound, other));
    }
}

/// Two sequences hold together what each of them holds.
pub proof fn lemma_joined(fst: Seq<Seq<char>>, snd: Seq<Seq<char>>)
    ensures
        (fst + snd).to_set() == fst.to_set().union(snd.to_set()),
{
    let all = fst + snd;
    assert forall|nam: Seq<char>| #[trigger] all.contains(nam) <==> fst.contains(nam)
        || snd.contains(nam) by {
        if fst.contains(nam) {
            assert(all[fst.index_of(nam)] == nam);
        }
        if snd.contains(nam) {
            assert(all[fst.len() + snd.index_of(nam)] == nam);
        }
    }
    assert(all.to_set() =~= fst.to_set().union(snd.to_set()));
}

/// What is bound after two terms is what both bind together.
proof fn lemma_both_bind(bound: Set<Seq<char>>, fst: TermView, snd: TermView)
    ensures
        with_binders(with_binders(bound, fst), snd) == bound.union(
            (binders(fst) + binders(snd)).to_set(),
        ),
{
    lemma_joined(binders(fst), binders(snd));
    assert(with_binders(with_binders(bound, fst), snd) =~= bound.union(
        (binders(fst) + binders(snd)).to_set(),
    ));
}

/// If a reading leaves the state tidy, it does so with the names that its term binds, too.
proof fn lemma_result_is_tidy(
    net: Seq<Node>,
    book: BookView,
    next: Port,
    state: State,
    depth: nat,
    bound: Set<Seq<char>>,
)
    ensures
        read(net, book, next, state, depth) matches Ok(reading) ==> is_tidy(
            net,
            reading.state,
            bound,
        ) ==> is_tidy(net, reading.state, with_binders(bound, reading.term)),
{
    if let Ok(reading) = read(net, book, next, state, depth) {
        if is_tidy(net, reading.state, bound) {
            lemma_tidy_lasts(net, reading.state, bound, with_binders(bound, reading.term));
        }
    }
}

/// A valid reading keeps a tidy state tidy, with the names that its term binds.
proof fn lemma_reading_is_tidy(
    net: Seq<Node>,
    book: BookView,
    next: Port,
    state: State,
    depth: nat,
    bound: Set<Seq<char>>,
)
    requires
        is_proper(net),
        has_port(net, next),
        is_left(net, state, entered(net, next)),
        is_tidy(net, state, bound),
    ensures
        read(net, book, next, state, depth) matches Ok(reading) ==> reading.valid ==> is_tidy(
            net,
            reading.state,
            with_binders(bound, reading.term),
        ),
    decreases depth, 3nat,
{
    if depth > 0 && !state.seen.contains(next) {
        let node = next.0;
        let slot = next.1;
        let p1 = Port(node, 1);
        let p2 = Port(node, 2);
        let d = (depth - 1) as nat;
        let st = mark(state, next);
        match net[node as int].kind {
            NodeKind::Con => {
                if slot == 0 {
                    lemma_lambda_is_tidy(net, book, node, state, depth, bound);
                } else if slot == 1 {
                    lemma_variable_is_tidy(net, next, state, bound);
                    lemma_result_is_tidy(net, book, next, state, depth, bound);
                } else {
                    lemma_application_is_tidy(net, book, node, state, depth, bound);
                }
            },
            NodeKind::Mat => {
                if slot == 2 {
                    lemma_distinction_is_tidy(net, book, node, state, depth, bound);
                }
            },
            NodeKind::Dup { .. } => {
                if slot == 0 {
                    lemma_marked_is_tidy(net, state, bound, next);
                    lemma_marked_is_tidy(net, st, bound, p1);
                    lemma_marked_is_tidy(net, mark(st, p1), bound, p2);
                    lemma_two_are_tidy(net, book, p1, p2, mark(mark(st, p1), p2), d, bound);
                } else {
                    let noted = State { pending: state.pending.noted(node), ..state };
                    lemma_noted_is_tidy(net, state, bound, node);
                    lemma_variable_is_tidy(net, next, noted, bound);
                    lemma_result_is_tidy(net, book, next, state, depth, bound);
                }
            },
            NodeKind::Op2 => {
                if slot == 2 {
                    lemma_operation_is_tidy(net, book, node, state, depth, bound);
                }
            },
            NodeKind::Tup => {
                lemma_marked_is_tidy(net, state, bound, next);
                lemma_marked_is_tidy(net, st, bound, p1);
                lemma_marked_is_tidy(net, mark(st, p1), bound, p2);
                lemma_two_are_tidy(net, book, p1, p2, mark(mark(st, p1), p2), d, bound);
            },
            NodeKind::Ref { .. } => {
                lemma_reference_is_tidy(net, book, next, state, depth, bound);
                lemma_result_is_tidy(net, book, next, state, depth, bound);
            },
            _ => {
                lemma_marked_is_tidy(net, state, bound, next);
                lemma_result_is_tidy(net, book, next, state, depth, bound);
            },
        }
    }
}

/// Two valid readings in turn, on from two ports that were seen, keep a tidy state tidy.
proof fn lemma_two_are_tidy(
    net: Seq<Node>,
    book: BookView,
    p: Port,
    q: Port,
    state: State,
    depth: nat,
    bound: Set<Seq<char>>,
)
    requires
        is_proper(net),
        has_port(net, p),
        has_port(net, q),
        is_left(net, state, p),
        is_left(net, state, q),
        is_tidy(net, state, bound),
    ensures
        read(net, book, entered(net, p), state, depth) matches Ok(one) ==> (read(
            net,
            book,
            entered(net, q),
            one.state,
            depth,
        ) matches Ok(two) ==> one.valid && two.valid ==> is_tidy(
            net,
            two.state,
            bound.union((binders(one.term) + binders(two.term)).to_set()),
        )),
    decreases depth, 4nat,
{
    let fst = entered(net, p);
    let snd = entered(net, q);
    lemma_reading_is_tidy(net, book, fst, state, depth, bound);
    law_ports_stay_seen(net, book, fst, state, depth);
    if let Ok(one) = read(net, book, fst, state, depth) {
        if one.valid {
            let bound1 = with_binders(bound, one.term);
            lemma_reading_is_tidy(net, book, snd, one.state, depth, bound1);
            if let Ok(two) = read(net, book, snd, one.state, depth) {
                lemma_both_bind(bound, one.term, two.term);
            }
        }
    }
}

/// If the variable of a constructor has a name that is not bound, then a reading on from the
/// variable's port is not valid.
proof fn lemma_unbound_is_invalid(
    net: Seq<Node>,
    book: BookView,
    node: NodeId,
    state: State,
    bound: Set<Seq<char>>,
    later: State,
    depth: nat,
)
    requires
        is_net(net),
        is_settled(net, state, bound, node),
        state.names.ids.contains_key(Port(node, 1)),
        !is_bound(state.names, bound, Port(node, 1)),
        state.seen.subset_of(later.seen),
    ensures
        read(net, book, entered(net, Port(node, 1)), later, depth) matches Ok(reading)
            ==> !reading.valid,
{
}

/// A valid reading of a lambda keeps a tidy state tidy.
proof fn lemma_lambda_is_tidy(
    net: Seq<Node>,
    book: BookView,
    node: NodeId,
    state: State,
    depth: nat,
    bound: Set<Seq<char>>,
)
    requires
        is_proper(net),
        node < net.len(),
        net[node as int].kind == NodeKind::Con,
        !state.seen.contains(Port(node, 0)),
        is_tidy(net, state, bound),
    ensures
        read(net, book, Port(node, 0), state, depth) matches Ok(reading) ==> reading.valid
            ==> is_tidy(net, reading.state, with_binders(bound, reading.term)),
    decreases depth, 2nat,
{
    reveal(is_tidy);
    if depth > 0 {
        let d = (depth - 1) as nat;
        let p1 = Port(node, 1);
        let p2 = Port(node, 2);
        let st = mark(state, Port(node, 0));
        lemma_named_is_sound(st.names, p1);
        if let Some((nam, names)) = st.names.declared(net, p1) {
            let st1 = State { names, ..mark(st, p2) };
            let bound1 = bound.union(binder(nam).to_set());
            if let Some(nam) = nam {
                assert(binder(Some(nam))[0] == nam);
                assert(bound1.contains(nam));
            }
            assert forall|other: NodeId|
                other < net.len() && net[other as int].kind
                    == NodeKind::Con implies #[trigger] is_settled(net, st1, bound1, other) by {
                assert(is_settled(net, state, bound, other));
            }
            assert(has_port(net, p2));
            lemma_reading_is_tidy(net, book, entered(net, p2), st1, d, bound1);
            if let Ok(bod) = read(net, book, entered(net, p2), st1, d) {
                lemma_joined(binder(nam), binders(bod.term));
                assert(with_binders(bound1, bod.term) =~= bound.union(
                    (binder(nam) + binders(bod.term)).to_set(),
                ));
            }
        }
    }
}

/// Meeting a variable keeps a tidy state tidy.
proof fn lemma_variable_is_tidy(net: Seq<Node>, port: Port, state: State, bound: Set<Seq<char>>)
    requires
        has_port(net, port),
        is_variable_port(net, port),
        net[port.0 as int].kind is Dup ==> state.pending.listed.contains(port.0),
        !state.seen.contains(port),
        is_left(net, state, entered(net, port)),
        is_tidy(net, state, bound),
    ensures
        state.names.named(port) matches Some((_, names)) ==> is_tidy(
            net,
            State { names, ..mark(state, port) },
            bound,
        ),
{
    reveal(is_tidy);
    lemma_named_is_sound(state.names, port);
    if let Some((_, names)) = state.names.named(port) {
        let st = State { names, ..mark(state, port) };
        assert forall|other: NodeId|
            other < net.len() && net[other as int].kind == NodeKind::Con implies #[trigger]
        is_settled(net, st, bound, other) by {
            assert(is_settled(net, state, bound, other));
        }
    }
}

/// A valid reading of an application keeps a tidy state tidy.
proof fn lemma_application_is_tidy(
    net: Seq<Node>,
    book: BookView,
    node: NodeId,
    state: State,
    depth: nat,
    bound: Set<Seq<char>>,
)
    requires
        is_proper(net),
        node < net.len(),
        net[node as int].kind == NodeKind::Con,
        !state.seen.contains(Port(node, 2)),
        is_tidy(net, state, bound),
    ensures
        read(net, book, Port(node, 2), state, depth) matches Ok(reading) ==> reading.valid
            ==> is_tidy(net, reading.state, with_binders(bound, reading.term)),
    decreases depth, 2nat,
{
    if depth > 0 {
        let d = (depth - 1) as nat;
        let p0 = Port(node, 0);
        let p1 = Port(node, 1);
        let st = mark(state, Port(node, 2));
        let st1 = mark(mark(st, p0), p1);
        lemma_marked_is_tidy(net, state, bound, Port(node, 2));
        lemma_constructor_is_settled(net, st, bound, node);
        if st.names.ids.contains_key(p1) && !is_bound(st.names, bound, p1) {
            law_ports_stay_seen(net, book, entered(net, p0), st1, d);
            if let Ok(fun) = read(net, book, entered(net, p0), st1, d) {
                lemma_unbound_is_invalid(net, book, node, st, bound, fun.state, d);
            }
        } else {
            lemma_marked_node_is_tidy(net, st, bound, node, st1);
            lemma_two_are_tidy(net, book, p0, p1, st1, d, bound);
        }
    }
}

/// A valid reading of a case distinction keeps a tidy state tidy.
proof fn lemma_distinction_is_tidy(
    net: Seq<Node>,
    book: BookView,
    node: NodeId,
    state: State,
    depth: nat,
    bound: Set<Seq<char>>,
)
    requires
        is_proper(net),
        node < net.len(),
        net[node as int].kind == NodeKind::Mat,
        !state.seen.contains(Port(node, 2)),
        is_tidy(net, state, bound),
    ensures
        read(net, book, Port(node, 2), state, depth) matches Ok(reading) ==> reading.valid
            ==> is_tidy(net, reading.state, with_binders(bound, reading.term)),
    decreases depth, 2nat,
{
    if depth > 0 {
        let d = (depth - 1) as nat;
        let p0 = Port(node, 0);
        let p1 = Port(node, 1);
        let st = mark(state, Port(node, 2));
        let st1 = mark(mark(st, p0), p1);
        lemma_marked_is_tidy(net, state, bound, Port(node, 2));
        lemma_marked_is_tidy(net, st, bound, p0);
        lemma_marked_is_tidy(net, mark(st, p0), bound, p1);
        assert(has_port(net, p0) && has_port(net, p1));
        lemma_reading_is_tidy(net, book, entered(net, p0), st1, d, bound);
        let sel = entered(net, p1).0;
        let cond = read(net, book, entered(net, p0), st1, d);
        if cond is Ok && cond->Ok_0.valid && net[sel as int].kind == NodeKind::Con {
            let cond = cond->Ok_0;
            let bound1 = with_binders(bound, cond.term);
            let q0 = Port(sel, 0);
            let q1 = Port(sel, 1);
            let q2 = Port(sel, 2);
            let st2 = mark_node(cond.state, sel);
            lemma_constructor_is_settled(net, cond.state, bound1, sel);
            if cond.state.names.ids.contains_key(q1) && !is_bound(cond.state.names, bound1, q1) {
                lemma_unbound_is_invalid(net, book, sel, cond.state, bound1, st2, d);
            } else {
                let st3 = mark(mark(cond.state, q0), q1);
                lemma_marked_node_is_tidy(net, cond.state, bound1, sel, st3);
                lemma_marked_is_tidy(net, st3, bound1, q2);
                lemma_two_are_tidy(net, book, q1, q2, st2, d, bound1);
                if let Ok(zero) = read(net, book, entered(net, q1), st2, d) {
                    if let Ok(succ) = read(net, book, entered(net, q2), zero.state, d) {
                        let cases = binders(zero.term) + binders(succ.term);
                        lemma_joined(binders(cond.term), cases);
                        assert(binders(cond.term) + cases =~= binders(cond.term) + binders(
                            zero.term,
                        ) + binders(succ.term));
                        assert(bound1.union(cases.to_set()) =~= bound.union(
                            (binders(cond.term) + cases).to_set(),
                        ));
                    }
                }
            }
        }
    }
}

/// The reading of an operation on a number that holds no operand has nothing in place of its
/// second operand.
pub proof fn lemma_operator_lacks_operand(
    net: Seq<Node>,
    book: BookView,
    port: Port,
    state: State,
    depth: nat,
)
    requires
        net[port.0 as int].kind == NodeKind::Op2,
        net[entered(net, Port(port.0, 0)).0 as int].kind matches NodeKind::Num { val }
            && labeled_op(val as int / NUM_BOUND as int) is None,
    ensures
        read(net, book, port, state, depth) matches Ok(reading) ==> (reading.term matches
            TermView::Opx { snd, .. } ==> *snd == TermView::Era),
{
    if depth > 0 && !state.seen.contains(port) && port.1 == 2 {
        let d = (depth - 1) as nat;
        let p0 = Port(port.0, 0);
        let p1 = Port(port.0, 1);
        let st1 = mark(mark(mark(state, port), p0), p1);
        let op = read(net, book, entered(net, p0), st1, d);
        assert(op matches Ok(op) ==> op.term is Num || op.term is Var);
    }
}

/// A valid reading of an operation keeps a tidy state tidy.
proof fn lemma_operation_is_tidy(
    net: Seq<Node>,
    book: BookView,
    node: NodeId,
    state: State,
    depth: nat,
    bound: Set<Seq<char>>,
)
    requires
        is_proper(net),
        node < net.len(),
        net[node as int].kind == NodeKind::Op2,
        !state.seen.contains(Port(node, 2)),
        is_tidy(net, state, bound),
    ensures
        read(net, book, Port(node, 2), state, depth) matches Ok(reading) ==> reading.valid
            ==> is_tidy(net, reading.state, with_binders(bound, reading.term)),
    decreases depth, 2nat,
{
    if depth > 0 {
        let d = (depth - 1) as nat;
        let p0 = Port(node, 0);
        let p1 = Port(node, 1);
        let st = mark(state, Port(node, 2));
        let st1 = mark(mark(st, p0), p1);
        let main = entered(net, p0);
        let aux1 = entered(net, p1);
        lemma_marked_is_tidy(net, state, bound, Port(node, 2));
        lemma_marked_is_tidy(net, st, bound, p0);
        lemma_marked_is_tidy(net, mark(st, p0), bound, p1);
        assert(has_port(net, p0) && has_port(net, p1));
        if let Ok(reading) = read(net, book, Port(node, 2), state, depth) {
            let op = read(net, book, main, st1, d)->Ok_0;
            let arg = read(net, book, aux1, op.state, d)->Ok_0;
            if net[main.0 as int].kind is Ref {
                // The definition may lose an operand, but its names are not on record.
                lemma_reference_is_tidy(net, book, main, st1, d, bound);
                lemma_reading_is_tidy(net, book, aux1, op.state, d, bound);
                if arg.valid {
                    let bound1 = with_binders(bound, arg.term);
                    lemma_operand_binds(op.term, arg.term);
                    lemma_tidy_lasts(net, arg.state, bound1, with_binders(bound, reading.term));
                }
            } else {
                if net[main.0 as int].kind == NodeKind::Op2 {
                    lemma_operator_lacks_operand(net, book, main, st1, d);
                }
                lemma_two_are_tidy(net, book, p0, p1, st1, d, bound);
                if op.valid && arg.valid {
                    let both = bound.union((binders(op.term) + binders(arg.term)).to_set());
                    lemma_both_bind(bound, op.term, arg.term);
                    lemma_operand_binds(op.term, arg.term);
                    lemma_tidy_lasts(net, arg.state, both, with_binders(bound, reading.term));
                }
            }
        }
    }
}

/// Declaring a variable of a duplication keeps a tidy state tidy.
proof fn lemma_declared_is_tidy(net: Seq<Node>, state: State, bound: Set<Seq<char>>, port: Port)
    requires
        is_tidy(net, state, bound),
        has_port(net, port),
        net[port.0 as int].kind is Dup,
        1 <= port.1 <= 2,
    ensures
        state.names.declared(net, port) matches Some((_, names)) ==> is_tidy(
            net,
            State { names, ..state },
            bound,
        ),
{
    reveal(is_tidy);
    lemma_named_is_sound(state.names, port);
    if let Some((_, names)) = state.names.declared(net, port) {
        let st = State { names, ..state };
        assert forall|node: NodeId|
            node < net.len() && net[node as int].kind == NodeKind::Con implies #[trigger]
        is_settled(net, st, bound, node) by {
            assert(is_settled(net, state, bound, node));
        }
    }
}

/// Taking the duplication that waits next keeps a tidy state tidy.
proof fn lemma_popped_is_tidy(net: Seq<Node>, state: State, bound: Set<Seq<char>>)
    requires
        is_tidy(net, state, bound),
        state.pending.stack.len() > 0,
    ensures
        is_tidy(net, State { pending: state.pending.popped(), ..state }, bound),
        state.pending.stack.last() < net.len(),
        net[state.pending.stack.last() as int].kind is Dup,
{
    reveal(is_tidy);
    let st = State { pending: state.pending.popped(), ..state };
    assert(state.pending.listed.contains(state.pending.stack.last()));
    lemma_popping_stays_within(net, state.pending);
    assert forall|node: NodeId|
        node < net.len() && net[node as int].kind == NodeKind::Con implies #[trigger] is_settled(
        net,
        st,
        bound,
        node,
    ) by {
        assert(is_settled(net, state, bound, node));
    }
}

/// Valid readings of the duplications that wait keep a tidy state tidy.
proof fn lemma_dups_are_tidy(net: Seq<Node>, book: BookView, main: Reading, depth: nat)
    requires
        is_proper(net),
        main.valid ==> is_tidy(net, main.state, binders(main.term).to_set()),
    ensures
        read_dups(net, book, main, depth) matches Ok(all) ==> all.valid ==> is_tidy(
            net,
            all.state,
            binders(all.term).to_set(),
        ),
    decreases depth,
{
    if main.state.pending.stack.len() > 0 && read_dups(net, book, main, depth) is Ok {
        let d = (depth - 1) as nat;
        let dup = main.state.pending.stack.last();
        let p0 = Port(dup, 0);
        let p1 = Port(dup, 1);
        let p2 = Port(dup, 2);
        let state0 = State { pending: main.state.pending.popped(), ..main.state };
        let state = mark(state0, p0);
        let val = read(net, book, entered(net, p0), state, d)->Ok_0;
        let (fst, names1) = val.state.names.declared(net, p1)->0;
        let (snd, names2) = names1.declared(net, p2)->0;
        let term = TermView::Dup {
            fst,
            snd,
            val: Box::new(val.term),
            nxt: Box::new(main.term),
        };
        let more = Reading {
            term,
            valid: main.valid && val.valid,
            state: State { names: names2, ..val.state },
        };
        if more.valid {
            let bound = binders(main.term).to_set();
            let bound1 = with_binders(bound, val.term);
            lemma_popped_is_tidy(net, main.state, bound);
            lemma_marked_is_tidy(net, state0, bound, p0);
            assert(has_port(net, p0));
            lemma_reading_is_tidy(net, book, entered(net, p0), state, d, bound);
            lemma_declared_is_tidy(net, val.state, bound1, p1);
            lemma_declared_is_tidy(net, State { names: names1, ..val.state }, bound1, p2);
            let inner = binders(val.term) + binder(fst) + binder(snd);
            lemma_joined(inner, binders(main.term));
            lemma_joined(binders(val.term) + binder(fst), binder(snd));
            lemma_joined(binders(val.term), binder(fst));
            lemma_tidy_lasts(net, more.state, bound1, binders(term).to_set());
        }
        lemma_dups_are_tidy(net, book, more, d);
    }
}

/// A duplication in whose scope the term is binds its variables, unless they are not used.
proof fn lemma_dup_binds(
    net: Seq<Node>,
    book: BookView,
    names: VarNamesView,
    dups: Seq<NodeId>,
    term: TermView,
    depth: nat,
    port: Port,
)
    requires
        depicts_with_dups(net, book, names, dups, term, depth),
        dups.contains(port.0),
        1 <= port.1 <= 2,
        net[entered(net, port).0 as int].kind != NodeKind::Era,
    ensures
        binders(term).contains(id_name(names.ids[port] as nat)),
    decreases dups.len(),
{
    let nam = id_name(names.ids[port] as nat);
    if let TermView::Dup { fst, snd, val, nxt } = term {
        let own = binders(*val) + binder(fst) + binder(snd);
        lemma_joined(own, binders(*nxt));
        lemma_joined(binders(*val) + binder(fst), binder(snd));
        lemma_joined(binders(*val), binder(fst));
        if dups.last() == port.0 {
            assert(binder(Some(nam))[0] == nam);
            assert(binder(fst).to_set().contains(nam) || binder(snd).to_set().contains(nam));
        } else {
            let rest = dups.drop_last();
            let i = dups.index_of(port.0);
            assert(rest[i] == port.0);
            lemma_dup_binds(net, book, names, rest, *nxt, depth, port);
            assert(binders(*nxt).to_set().contains(nam));
        }
        assert(binders(term).to_set().contains(nam));
    }
}

/// In a valid linear readback every variable with a name is bound in the term, except where its
/// constructor is erased: no variable of a lambda is read without the lambda itself.
pub proof fn law_valid_linear_readback_binds_variables(
    net: Seq<Node>,
    book: BookView,
    port: Port,
)
    requires
        is_proper(net),
    ensures
        read_net(net, book) matches Ok(reading) ==> reading.valid
            && reading.state.names.ids.contains_key(port) ==> {
            let main = entered(net, Port(port.0, 0));
            ||| binders(reading.term).contains(id_name(reading.state.names.ids[port] as nat))
            ||| net[port.0 as int].kind == NodeKind::Con && net[main.0 as int].kind
                == NodeKind::Era
        },
{
    let depth = ample_depth(net);
    let start = State::initial();
    let root = entered(net, root_port());
    let none = Set::<Seq<char>>::empty();
    if let Ok(reading) = read_net(net, book) {
        let names = reading.state.names;
        if reading.valid && names.ids.contains_key(port) {
            assert(has_port(net, root_port()));
            assert(is_tidy(net, start, none)) by {
                reveal(is_tidy);
                assert forall|node: NodeId|
                    node < net.len() && net[node as int].kind
                        == NodeKind::Con implies #[trigger] is_settled(net, start, none, node) by {}
            }
            lemma_reading_is_tidy(net, book, root, start, depth, none);
            let main = read(net, book, root, start, depth)->Ok_0;
            assert(with_binders(none, main.term) =~= binders(main.term).to_set());
            lemma_dups_are_tidy(net, book, main, depth);
            let bound = binders(reading.term).to_set();
            assert(is_tidy(net, reading.state, bound));
            assert(is_variable_port(net, port) && port.0 < net.len()) by {
                reveal(is_tidy);
            }
            if net[port.0 as int].kind == NodeKind::Con {
                lemma_constructor_is_settled(net, reading.state, bound, port.0);
                assert(is_node_read(net, reading.state.seen, port.0));
                assert(is_read(net, reading.state.seen, Port(port.0, 0)));
            } else {
                law_linear_readback_depicts(net, book);
                let dups = choose|dups: Seq<NodeId>|
                    {
                        &&& binds_all(net, dup_nodes(), names, dups)
                        &&& #[trigger] depicts_with_dups(
                            net,
                            book,
                            names,
                            dups,
                            reading.term,
                            depth,
                        )
                    };
                lemma_dup_binds(net, book, names, dups, reading.term, depth, port);
            }
        }
    }
}

} // verus!
