//! Valid linear readbacks use every variable exactly once.

use vstd::prelude::*;

use crate::book::BookView;
use crate::laws::agreement::lemma_going_back_is_invalid;
use crate::laws::bindings::{
    binds_all, depicts_with_dups, dup_nodes, law_linear_readback_depicts,
};
use crate::laws::faithfulness::{depicts, is_reference_to};
use crate::laws::naming::{
    binder, binders, is_binder_of, is_sound, keeps_names, law_linear_keeps_names,
    lemma_named_is_sound, lemma_sound_names_differ,
};
use crate::laws::termination::{
    law_ports_stay_seen, lemma_noting_keeps_waiting, lemma_popping_stays_within,
};
use crate::laws::variables::{is_left, is_proper, lemma_joined, lemma_operator_lacks_operand};
use crate::linear::{
    ample_depth, binders_read, is_node_read, is_read, mark, mark_node, read, read_dups, read_net,
};
use crate::name::id_name;
use crate::net::{entered, has_port, is_net, root_port, Node, NodeId, NodeKind, Port};
use crate::reading::{applied, Reading, State};
use crate::state::VarNamesView;
use crate::term::TermView;

verus! {

/// How many variables of a term are called `nam`.
pub open spec fn occurrences(term: TermView, nam: Seq<char>) -> nat
    decreases term,
{
    match term {
        TermView::Lam { bod, .. } => occurrences(*bod, nam),
        TermView::Var { nam: own } => if own == nam {
            1
        } else {
            0
        },
        TermView::Chn { bod, .. } => occurrences(*bod, nam),
        TermView::Let { val, nxt, .. } => occurrences(*val, nam) + occurrences(*nxt, nam),
        TermView::App { fun, arg } => occurrences(*fun, nam) + occurrences(*arg, nam),
        TermView::Tup { fst, snd } => occurrences(*fst, nam) + occurrences(*snd, nam),
        TermView::Dup { val, nxt, .. } => occurrences(*val, nam) + occurrences(*nxt, nam),
        TermView::Sup { fst, snd } => occurrences(*fst, nam) + occurrences(*snd, nam),
        TermView::Opx { fst, snd, .. } => occurrences(*fst, nam) + occurrences(*snd, nam),
        TermView::Match { cond, zero, succ } => occurrences(*cond, nam) + occurrences(*zero, nam)
            + occurrences(*succ, nam),
        _ => 0,
    }
}

/// Whether a net refers to no generated definition.
pub open spec fn refers_plainly(net: Seq<Node>, book: BookView) -> bool {
    forall|i: int|
        0 <= i < net.len() ==> ((#[trigger] net[i]).kind matches NodeKind::Ref { def_id }
            ==> !book.is_generated(def_id))
}

/// Whether `nam` is the name of a variable on record.
pub open spec fn is_recorded(names: VarNamesView, nam: Seq<char>) -> bool {
    exists|port: Port| #[trigger]
        names.ids.contains_key(port) && id_name(names.ids[port] as nat) == nam
}

/// Whether all of `nams` are names of variables on record.
spec fn are_recorded(names: VarNamesView, nams: Seq<Seq<char>>) -> bool {
    forall|nam: Seq<char>| #[trigger] nams.contains(nam) ==> is_recorded(names, nam)
}

/// Whether `nam` is the name of a variable that one of `ports` binds.
spec fn is_name_of(names: VarNamesView, ports: Set<Port>, nam: Seq<char>) -> bool {
    exists|port: Port| #[trigger] ports.contains(port) && id_name(names.ids[port] as nat) == nam
}

/// Whether the variables of a term are those that `ports` bind, each once.
spec fn uses_once(term: TermView, names: VarNamesView, ports: Set<Port>) -> bool {
    &&& forall|port: Port| #[trigger] ports.contains(port) ==> names.ids.contains_key(port)
    &&& forall|nam: Seq<char>| #[trigger]
        occurrences(term, nam) == (if is_name_of(names, ports, nam) {
            1nat
        } else {
            0nat
        })
}

/// A term with as many variables of each name as another uses the same.
proof fn lemma_same_uses(
    term: TermView,
    other: TermView,
    names: VarNamesView,
    ports: Set<Port>,
)
    requires
        uses_once(other, names, ports),
        forall|nam: Seq<char>| #[trigger] occurrences(term, nam) == occurrences(other, nam),
    ensures
        uses_once(term, names, ports),
{
    assert forall|nam: Seq<char>| #[trigger]
        occurrences(term, nam) == (if is_name_of(names, ports, nam) {
            1nat
        } else {
            0nat
        }) by {
        assert(occurrences(term, nam) == occurrences(other, nam));
    }
}

/// Terms that use different variables together use both.
proof fn lemma_uses_join(
    fst: TermView,
    snd: TermView,
    names: VarNamesView,
    later: VarNamesView,
    ports: Set<Port>,
    more: Set<Port>,
)
    requires
        uses_once(fst, names, ports),
        uses_once(snd, later, more),
        keeps_names(names, later),
        is_sound(later),
        ports.disjoint(more),
    ensures
        uses_once(
            TermView::Tup { fst: Box::new(fst), snd: Box::new(snd) },
            later,
            ports.union(more),
        ),
{
    let term = TermView::Tup { fst: Box::new(fst), snd: Box::new(snd) };
    let all = ports.union(more);
    assert forall|port: Port| #[trigger] all.contains(port) implies later.ids.contains_key(
        port,
    ) by {
        if ports.contains(port) {
            assert(names.ids.contains_key(port));
        } else {
            assert(more.contains(port));
        }
    }
    assert forall|nam: Seq<char>| #[trigger]
        occurrences(term, nam) == (if is_name_of(later, all, nam) {
            1nat
        } else {
            0nat
        }) by {
        assert(occurrences(term, nam) == occurrences(fst, nam) + occurrences(snd, nam));
        if is_name_of(names, ports, nam) {
            let port = choose|port: Port| #[trigger]
                ports.contains(port) && id_name(names.ids[port] as nat) == nam;
            assert(names.ids.contains_key(port));
            assert(all.contains(port));
            if is_name_of(later, more, nam) {
                let other = choose|other: Port| #[trigger]
                    more.contains(other) && id_name(later.ids[other] as nat) == nam;
                assert(later.ids.contains_key(other));
                lemma_sound_names_differ(later, port, other);
            }
        } else if is_name_of(later, more, nam) {
            let port = choose|port: Port| #[trigger]
                more.contains(port) && id_name(later.ids[port] as nat) == nam;
            assert(all.contains(port));
        } else if is_name_of(later, all, nam) {
            let port = choose|port: Port| #[trigger]
                all.contains(port) && id_name(later.ids[port] as nat) == nam;
            if ports.contains(port) {
                assert(names.ids.contains_key(port));
            } else {
                assert(more.contains(port));
            }
        }
    }
}

/// Whether `port` may bind a variable that is used.
spec fn may_bind(net: Seq<Node>, port: Port) -> bool {
    &&& port.0 < net.len()
    &&& net[entered(net, port).0 as int].kind != NodeKind::Era
    &&& match net[port.0 as int].kind {
        NodeKind::Con => port.1 == 1,
        NodeKind::Dup { .. } => 1 <= port.1 <= 2,
        _ => false,
    }
}

/// What holds of a constructor while the net is read, where `met` are the variables that were
/// read and `next` is the port that is about to be entered. If the port of its variable was
/// seen but not as a variable, then its main port was seen and the variable has no name. If the
/// variable has a name but was not read, then the lambda was read, and its body was or is next.
spec fn con_is_orderly(
    net: Seq<Node>,
    state: State,
    met: Set<Port>,
    next: Option<Port>,
    node: NodeId,
) -> bool {
    let port = Port(node, 1);
    let body = entered(net, Port(node, 2));
    &&& state.seen.contains(port) && !met.contains(port) ==> state.seen.contains(Port(node, 0))
        && !state.names.ids.contains_key(port)
    &&& state.names.ids.contains_key(port) && !met.contains(port) ==> {
        &&& state.seen.contains(Port(node, 0))
        &&& state.seen.contains(Port(node, 2))
        &&& state.seen.contains(body) || next == Some(body)
    }
}

/// What holds of a duplication or superposition while the net is read. If one of its variables
/// has a name, then it is listed. If it is listed, then its auxiliary ports were only seen as
/// variables, and one of them was. If one was seen otherwise, then both were.
spec fn dup_is_orderly(
    net: Seq<Node>,
    state: State,
    met: Set<Port>,
    node: NodeId,
) -> bool {
    let p1 = Port(node, 1);
    let p2 = Port(node, 2);
    &&& state.names.ids.contains_key(p1) || state.names.ids.contains_key(p2)
        ==> state.pending.listed.contains(node)
    &&& state.pending.listed.contains(node) ==> {
        &&& state.seen.contains(p1) ==> met.contains(p1)
        &&& state.seen.contains(p2) ==> met.contains(p2)
        &&& met.contains(p1) || met.contains(p2)
    }
    &&& state.seen.contains(p1) && !met.contains(p1) ==> state.seen.contains(p2)
    &&& state.seen.contains(p2) && !met.contains(p2) ==> state.seen.contains(p1)
}

/// What holds of a node while the net is read.
spec fn node_is_orderly(
    net: Seq<Node>,
    state: State,
    met: Set<Port>,
    next: Option<Port>,
    node: NodeId,
) -> bool {
    match net[node as int].kind {
        NodeKind::Con => con_is_orderly(net, state, met, next, node),
        NodeKind::Dup { .. } => dup_is_orderly(net, state, met, node),
        _ => true,
    }
}

/// What holds while the net is read.
#[verifier::opaque]
spec fn is_orderly(net: Seq<Node>, state: State, met: Set<Port>, next: Option<Port>) -> bool {
    &&& is_sound(state.names)
    &&& state.pending.within(net)
    &&& forall|node: NodeId| #[trigger]
        state.pending.listed.contains(node) ==> net[node as int].kind is Dup
    &&& forall|port: Port| #[trigger] state.names.ids.contains_key(port) ==> may_bind(net, port)
    &&& forall|port: Port| #[trigger]
        met.contains(port) ==> state.seen.contains(port) && state.names.ids.contains_key(port) && (
        state.seen.contains(entered(net, port)) || entered(net, port) == root_port())
    &&& forall|node: NodeId|
        node < net.len() ==> #[trigger] node_is_orderly(net, state, met, next, node)
}

/// Seeing a port that binds no variable keeps order.
proof fn lemma_marked_is_orderly(
    net: Seq<Node>,
    state: State,
    met: Set<Port>,
    next: Option<Port>,
    port: Port,
)
    requires
        is_orderly(net, state, met, next),
        net[port.0 as int].kind is Con ==> port.1 != 1,
        net[port.0 as int].kind is Dup ==> port.1 == 0,
    ensures
        is_orderly(net, mark(state, port), met, next),
        next == Some(port) ==> is_orderly(net, mark(state, port), met, None),
{
    reveal(is_orderly);
    let st = mark(state, port);
    assert forall|node: NodeId| node < net.len() implies #[trigger] node_is_orderly(
        net,
        st,
        met,
        next,
        node,
    ) && (next == Some(port) ==> node_is_orderly(net, st, met, None, node)) by {
        assert(node_is_orderly(net, state, met, next, node));
    }
    if next == Some(port) {
        assert forall|node: NodeId| node < net.len() implies #[trigger] node_is_orderly(
            net,
            st,
            met,
            None,
            node,
        ) by {
            assert(node_is_orderly(net, st, met, next, node));
        }
    }
}

/// Order does not depend on a port that is about to be entered where there is none to wait for.
proof fn lemma_any_next(net: Seq<Node>, state: State, met: Set<Port>, next: Port)
    requires
        is_orderly(net, state, met, None),
    ensures
        is_orderly(net, state, met, Some(next)),
{
    reveal(is_orderly);
    assert forall|node: NodeId| node < net.len() implies #[trigger] node_is_orderly(
        net,
        state,
        met,
        Some(next),
        node,
    ) by {
        assert(node_is_orderly(net, state, met, None, node));
    }
}

/// Seeing a constructor as an application or as the holder of cases keeps order, unless its
/// variable has a name and was not read.
proof fn lemma_con_is_marked(net: Seq<Node>, state: State, met: Set<Port>, node: NodeId)
    requires
        is_orderly(net, state, met, None),
        net[node as int].kind == NodeKind::Con,
        state.names.ids.contains_key(Port(node, 1)) ==> met.contains(Port(node, 1)),
    ensures
        is_orderly(net, mark(mark(state, Port(node, 0)), Port(node, 1)), met, None),
{
    reveal(is_orderly);
    let st = mark(mark(state, Port(node, 0)), Port(node, 1));
    assert forall|other: NodeId| other < net.len() implies #[trigger] node_is_orderly(
        net,
        st,
        met,
        None,
        other,
    ) by {
        assert(node_is_orderly(net, state, met, None, other));
    }
}

/// Seeing the sides of a superposition keeps order, unless it is listed as a duplication.
proof fn lemma_sup_is_marked(net: Seq<Node>, state: State, met: Set<Port>, node: NodeId)
    requires
        is_orderly(net, state, met, None),
        net[node as int].kind is Dup,
        !state.pending.listed.contains(node),
    ensures
        is_orderly(net, mark(mark(state, Port(node, 1)), Port(node, 2)), met, None),
{
    reveal(is_orderly);
    let st = mark(mark(state, Port(node, 1)), Port(node, 2));
    assert forall|other: NodeId| other < net.len() implies #[trigger] node_is_orderly(
        net,
        st,
        met,
        None,
        other,
    ) by {
        assert(node_is_orderly(net, state, met, None, other));
    }
}

/// Reading a variable keeps order.
proof fn lemma_variable_is_orderly(
    net: Seq<Node>,
    port: Port,
    state: State,
    met: Set<Port>,
    noted: State,
)
    requires
        is_orderly(net, state, met, Some(port)),
        may_bind(net, port),
        is_left(net, state, entered(net, port)),
        !state.seen.contains(port),
        noted == (if net[port.0 as int].kind is Dup {
            State { pending: state.pending.noted(port.0), ..state }
        } else {
            state
        }),
    ensures
        state.names.named(port) matches Some((_, names)) ==> is_orderly(
            net,
            (State { names, ..mark(noted, port) }),
            met.insert(port),
            None,
        ),
{
    reveal(is_orderly);
    lemma_named_is_sound(state.names, port);
    lemma_noting_keeps_waiting(net, state.pending, port.0);
    if let Some((_, names)) = state.names.named(port) {
        let st = State { names, ..mark(noted, port) };
        let met1 = met.insert(port);
        assert forall|node: NodeId| node < net.len() implies #[trigger] node_is_orderly(
            net,
            st,
            met1,
            None,
            node,
        ) by {
            assert(node_is_orderly(net, state, met, Some(port), node));
        }
    }
}

/// Reading the head of a lambda keeps order, with the body next.
proof fn lemma_lambda_is_orderly(net: Seq<Node>, node: NodeId, state: State, met: Set<Port>)
    requires
        is_orderly(net, state, met, Some(Port(node, 0))),
        node < net.len(),
        net[node as int].kind == NodeKind::Con,
        !state.seen.contains(Port(node, 0)),
    ensures
        state.names.declared(net, Port(node, 1)) matches Some((_, names)) ==> is_orderly(
            net,
            (State { names, ..mark(mark(state, Port(node, 0)), Port(node, 2)) }),
            met,
            Some(entered(net, Port(node, 2))),
        ),
{
    reveal(is_orderly);
    lemma_named_is_sound(state.names, Port(node, 1));
    if let Some((_, names)) = state.names.declared(net, Port(node, 1)) {
        let st = State { names, ..mark(mark(state, Port(node, 0)), Port(node, 2)) };
        let body = entered(net, Port(node, 2));
        assert forall|other: NodeId| other < net.len() implies #[trigger] node_is_orderly(
            net,
            st,
            met,
            Some(body),
            other,
        ) by {
            assert(node_is_orderly(net, state, met, Some(Port(node, 0)), other));
        }
    }
}

/// What a valid reading from `before` on comes to: `after` is in order, `own` are the variables
/// that were read meanwhile, and `term` uses them.
spec fn comes_to(
    net: Seq<Node>,
    before: State,
    met: Set<Port>,
    own: Set<Port>,
    term: TermView,
    after: State,
) -> bool {
    &&& is_orderly(net, after, met.union(own), None)
    &&& own.disjoint(before.seen)
    &&& own.subset_of(after.seen)
    &&& uses_once(term, after.names, own)
    &&& before.seen.subset_of(after.seen)
    &&& before.pending.listed.subset_of(after.pending.listed)
}

/// A reading that comes to something from a state with more ports seen does so from the state
/// itself.
proof fn lemma_from_earlier(
    net: Seq<Node>,
    earlier: State,
    before: State,
    met: Set<Port>,
    own: Set<Port>,
    term: TermView,
    other: TermView,
    after: State,
)
    requires
        comes_to(net, before, met, own, other, after),
        earlier.seen.subset_of(before.seen),
        earlier.pending.listed.subset_of(before.pending.listed),
        forall|nam: Seq<char>| #[trigger] occurrences(term, nam) == occurrences(other, nam),
    ensures
        comes_to(net, earlier, met, own, term, after),
{
    lemma_same_uses(term, other, after.names, own);
}

/// A reading without variables comes to nothing more than its state.
proof fn lemma_comes_to_nothing(
    net: Seq<Node>,
    before: State,
    met: Set<Port>,
    term: TermView,
    after: State,
)
    requires
        is_orderly(net, after, met, None),
        before.seen.subset_of(after.seen),
        before.pending.listed.subset_of(after.pending.listed),
        forall|nam: Seq<char>| #[trigger] occurrences(term, nam) == 0,
    ensures
        comes_to(net, before, met, Set::empty(), term, after),
{
    assert(met.union(Set::<Port>::empty()) =~= met);
}

/// The variables that a valid reading uses.
proof fn lemma_reading_uses(
    net: Seq<Node>,
    book: BookView,
    next: Port,
    state: State,
    depth: nat,
    met: Set<Port>,
) -> (own: Set<Port>)
    requires
        is_proper(net),
        refers_plainly(net, book),
        has_port(net, next),
        is_left(net, state, entered(net, next)),
        is_orderly(net, state, met, Some(next)),
    ensures
        read(net, book, next, state, depth) matches Ok(reading) ==> reading.valid ==> comes_to(
            net,
            state,
            met,
            own,
            reading.term,
            reading.state,
        ),
    decreases depth, 1nat,
{
    let none = Set::<Port>::empty();
    if read(net, book, next, state, depth) is Ok && read(
        net,
        book,
        next,
        state,
        depth,
    )->Ok_0.valid {
        let reading = read(net, book, next, state, depth)->Ok_0;
        let node = next.0;
        let slot = next.1;
        let p0 = Port(node, 0);
        let p1 = Port(node, 1);
        let p2 = Port(node, 2);
        let d = (depth - 1) as nat;
        let st = mark(state, next);
        assert(has_port(net, p0) && has_port(net, p1) && has_port(net, p2));
        match net[node as int].kind {
            NodeKind::Con => {
                if slot == 0 {
                    let (nam, names) = st.names.declared(net, p1)->0;
                    let st1 = State { names, ..mark(st, p2) };
                    let body = entered(net, p2);
                    lemma_lambda_is_orderly(net, node, state, met);
                    let own = lemma_reading_uses(net, book, body, st1, d, met);
                    let bod = read(net, book, body, st1, d)->Ok_0;
                    let term = reading.term;
                    lemma_from_earlier(net, state, st1, met, own, term, bod.term, bod.state);
                    own
                } else if slot == 1 {
                    lemma_variable_is_used(net, book, next, state, depth, met);
                    set![next]
                } else {
                    lemma_application_uses(net, book, node, state, depth, met)
                }
            },
            NodeKind::Mat => lemma_distinction_uses(net, book, node, state, depth, met),
            NodeKind::Dup { .. } => {
                if slot == 0 {
                    lemma_superposition_uses(net, book, node, state, depth, met)
                } else {
                    lemma_variable_is_used(net, book, next, state, depth, met);
                    set![next]
                }
            },
            NodeKind::Op2 => lemma_operation_uses(net, book, node, state, depth, met),
            NodeKind::Tup => {
                let st1 = mark(mark(st, p1), p2);
                lemma_marked_is_orderly(net, state, met, Some(next), next);
                lemma_marked_is_orderly(net, st, met, None, p1);
                lemma_marked_is_orderly(net, mark(st, p1), met, None, p2);
                let (own, pair) = lemma_two_use(net, book, p1, p2, st1, d, met);
                lemma_from_earlier(net, state, st1, met, own, reading.term, pair, reading.state);
                own
            },
            _ => {
                lemma_marked_is_orderly(net, state, met, Some(next), next);
                assert(net[node as int].kind matches NodeKind::Ref { def_id }
                    ==> !book.is_generated(def_id));
                lemma_comes_to_nothing(net, state, met, reading.term, reading.state);
                none
            },
        }
    } else {
        none
    }
}

/// The variable that is read is used.
proof fn lemma_variable_is_used(
    net: Seq<Node>,
    book: BookView,
    next: Port,
    state: State,
    depth: nat,
    met: Set<Port>,
)
    requires
        may_bind(net, next),
        is_left(net, state, entered(net, next)),
        is_orderly(net, state, met, Some(next)),
        !state.seen.contains(next),
    ensures
        read(net, book, next, state, depth) matches Ok(reading) ==> comes_to(
            net,
            state,
            met,
            set![next],
            reading.term,
            reading.state,
        ),
{
    if let Ok(reading) = read(net, book, next, state, depth) {
        let noted = if net[next.0 as int].kind is Dup {
            State { pending: state.pending.noted(next.0), ..state }
        } else {
            state
        };
        let own = set![next];
        let names = reading.state.names;
        lemma_variable_is_orderly(net, next, state, met, noted);
        assert(met.union(own) =~= met.insert(next));
        assert(own.contains(next));
        assert forall|nam: Seq<char>| #[trigger]
            occurrences(reading.term, nam) == (if is_name_of(names, own, nam) {
                1nat
            } else {
                0nat
            }) by {
            if nam == id_name(names.ids[next] as nat) {
                assert(is_name_of(names, own, nam));
            }
        }
    }
}

/// The variables that two valid readings in turn use, on from two ports that were seen, and the
/// pair of the terms that were read.
proof fn lemma_two_use(
    net: Seq<Node>,
    book: BookView,
    p: Port,
    q: Port,
    state: State,
    depth: nat,
    met: Set<Port>,
) -> (res: (Set<Port>, TermView))
    requires
        is_proper(net),
        refers_plainly(net, book),
        has_port(net, p),
        has_port(net, q),
        is_left(net, state, p),
        is_left(net, state, q),
        is_orderly(net, state, met, None),
    ensures
        read(net, book, entered(net, p), state, depth) matches Ok(one) ==> (read(
            net,
            book,
            entered(net, q),
            one.state,
            depth,
        ) matches Ok(two) ==> one.valid && two.valid ==> {
            &&& res.1 == (TermView::Tup { fst: Box::new(one.term), snd: Box::new(two.term) })
            &&& comes_to(net, state, met, res.0, res.1, two.state)
        }),
    decreases depth, 2nat,
{
    let fst = entered(net, p);
    let snd = entered(net, q);
    let none = (Set::<Port>::empty(), TermView::Era);
    lemma_any_next(net, state, met, fst);
    let own = lemma_reading_uses(net, book, fst, state, depth, met);
    law_ports_stay_seen(net, book, fst, state, depth);
    if let Ok(one) = read(net, book, fst, state, depth) {
        if one.valid {
            let met1 = met.union(own);
            lemma_any_next(net, one.state, met1, snd);
            let more = lemma_reading_uses(net, book, snd, one.state, depth, met1);
            assert(is_sound(one.state.names)) by {
                reveal(is_orderly);
            }
            law_linear_keeps_names(net, book, snd, one.state, depth);
            if let Ok(two) = read(net, book, snd, one.state, depth) {
                let pair = TermView::Tup { fst: Box::new(one.term), snd: Box::new(two.term) };
                if two.valid {
                    lemma_uses_join(
                        one.term,
                        two.term,
                        one.state.names,
                        two.state.names,
                        own,
                        more,
                    );
                    assert(met1.union(more) =~= met.union(own.union(more)));
                }
                (own.union(more), pair)
            } else {
                none
            }
        } else {
            none
        }
    } else {
        none
    }
}

/// The variables that a valid reading of an application uses.
proof fn lemma_application_uses(
    net: Seq<Node>,
    book: BookView,
    node: NodeId,
    state: State,
    depth: nat,
    met: Set<Port>,
) -> (own: Set<Port>)
    requires
        is_proper(net),
        refers_plainly(net, book),
        node < net.len(),
        net[node as int].kind == NodeKind::Con,
        is_orderly(net, state, met, Some(Port(node, 2))),
        read(net, book, Port(node, 2), state, depth) matches Ok(reading) && reading.valid,
    ensures
        read(net, book, Port(node, 2), state, depth) matches Ok(reading) && comes_to(
            net,
            state,
            met,
            own,
            reading.term,
            reading.state,
        ),
    decreases depth, 0nat,
{
    let reading = read(net, book, Port(node, 2), state, depth)->Ok_0;
    let p0 = Port(node, 0);
    let p1 = Port(node, 1);
    let p2 = Port(node, 2);
    let d = (depth - 1) as nat;
    let st = mark(state, p2);
    let st1 = mark(mark(st, p0), p1);
    lemma_marked_is_orderly(net, state, met, Some(p2), p2);
    assert(state.names.ids.contains_key(p1) ==> met.contains(p1)) by {
        reveal(is_orderly);
        assert(node_is_orderly(net, state, met, Some(p2), node));
    }
    lemma_con_is_marked(net, st, met, node);
    let (own, pair) = lemma_two_use(net, book, p0, p1, st1, d, met);
    lemma_from_earlier(net, state, st1, met, own, reading.term, pair, reading.state);
    own
}

/// The variables that a valid reading of a superposition uses.
proof fn lemma_superposition_uses(
    net: Seq<Node>,
    book: BookView,
    node: NodeId,
    state: State,
    depth: nat,
    met: Set<Port>,
) -> (own: Set<Port>)
    requires
        is_proper(net),
        refers_plainly(net, book),
        node < net.len(),
        net[node as int].kind is Dup,
        is_orderly(net, state, met, Some(Port(node, 0))),
        read(net, book, Port(node, 0), state, depth) matches Ok(reading) && reading.valid,
    ensures
        read(net, book, Port(node, 0), state, depth) matches Ok(reading) && comes_to(
            net,
            state,
            met,
            own,
            reading.term,
            reading.state,
        ),
    decreases depth, 0nat,
{
    let reading = read(net, book, Port(node, 0), state, depth)->Ok_0;
    let p0 = Port(node, 0);
    let p1 = Port(node, 1);
    let p2 = Port(node, 2);
    let aux1 = entered(net, p1);
    let aux2 = entered(net, p2);
    let d = (depth - 1) as nat;
    let st = mark(state, p0);
    let st1 = mark(mark(st, p1), p2);
    let fst = read(net, book, aux1, st1, d)->Ok_0;
    lemma_marked_is_orderly(net, state, met, Some(p0), p0);
    assert(!state.pending.listed.contains(node)) by {
        if state.pending.listed.contains(node) {
            // One of the variables was read, so that reading on from its port goes back.
            reveal(is_orderly);
            assert(node_is_orderly(net, state, met, Some(p0), node));
            law_ports_stay_seen(net, book, aux1, st1, d);
            if met.contains(p1) {
                lemma_going_back_is_invalid(net, book, aux1, st1, d);
            } else {
                assert(met.contains(p2));
                lemma_going_back_is_invalid(net, book, aux2, fst.state, d);
            }
        }
    }
    lemma_sup_is_marked(net, st, met, node);
    let (own, pair) = lemma_two_use(net, book, p1, p2, st1, d, met);
    lemma_from_earlier(net, state, st1, met, own, reading.term, pair, reading.state);
    own
}

/// The variables that a valid reading of a case distinction uses.
proof fn lemma_distinction_uses(
    net: Seq<Node>,
    book: BookView,
    node: NodeId,
    state: State,
    depth: nat,
    met: Set<Port>,
) -> (own: Set<Port>)
    requires
        is_proper(net),
        refers_plainly(net, book),
        node < net.len(),
        net[node as int].kind == NodeKind::Mat,
        is_orderly(net, state, met, Some(Port(node, 2))),
        read(net, book, Port(node, 2), state, depth) matches Ok(reading) && reading.valid,
    ensures
        read(net, book, Port(node, 2), state, depth) matches Ok(reading) && comes_to(
            net,
            state,
            met,
            own,
            reading.term,
            reading.state,
        ),
    decreases depth, 0nat,
{
    let reading = read(net, book, Port(node, 2), state, depth)->Ok_0;
    let p0 = Port(node, 0);
    let p1 = Port(node, 1);
    let p2 = Port(node, 2);
    let main = entered(net, p0);
    let d = (depth - 1) as nat;
    let st = mark(state, p2);
    let st1 = mark(mark(st, p0), p1);
    assert(has_port(net, p0) && has_port(net, p1));
    lemma_marked_is_orderly(net, state, met, Some(p2), p2);
    lemma_marked_is_orderly(net, st, met, None, p0);
    lemma_marked_is_orderly(net, mark(st, p0), met, None, p1);
    lemma_any_next(net, st1, met, main);
    let fst = lemma_reading_uses(net, book, main, st1, d, met);
    let cond = read(net, book, main, st1, d)->Ok_0;
    let met1 = met.union(fst);
    let sel = entered(net, p1).0;
    let q0 = Port(sel, 0);
    let q1 = Port(sel, 1);
    let q2 = Port(sel, 2);
    let zero_port = entered(net, q1);
    let succ_port = entered(net, q2);
    let st2 = mark_node(cond.state, sel);
    let zero = read(net, book, zero_port, st2, d)->Ok_0;
    let succ = read(net, book, succ_port, zero.state, d)->Ok_0;
    assert(cond.state.names.ids.contains_key(q1) ==> met1.contains(q1)) by {
        if cond.state.names.ids.contains_key(q1) && !met1.contains(q1) {
            // The constructor was read as a lambda, so that its body is not read again.
            reveal(is_orderly);
            assert(node_is_orderly(net, cond.state, met1, None, sel));
            law_ports_stay_seen(net, book, zero_port, st2, d);
            lemma_going_back_is_invalid(net, book, succ_port, zero.state, d);
        }
    }
    lemma_con_is_marked(net, cond.state, met1, sel);
    lemma_marked_is_orderly(net, mark(mark(cond.state, q0), q1), met1, None, q2);
    assert(has_port(net, q1) && has_port(net, q2));
    let (snd, cases) = lemma_two_use(net, book, q1, q2, st2, d, met1);
    assert(is_sound(cond.state.names) && is_sound(succ.state.names)) by {
        reveal(is_orderly);
    }
    law_linear_keeps_names(net, book, zero_port, st2, d);
    law_linear_keeps_names(net, book, succ_port, zero.state, d);
    let own = fst.union(snd);
    lemma_uses_join(cond.term, cases, cond.state.names, succ.state.names, fst, snd);
    let all = TermView::Tup { fst: Box::new(cond.term), snd: Box::new(cases) };
    reveal_with_fuel(occurrences, 3);
    lemma_same_uses(reading.term, all, succ.state.names, own);
    assert(met1.union(snd) =~= met.union(own));
    own
}

/// The variables that a valid reading of an operation uses.
proof fn lemma_operation_uses(
    net: Seq<Node>,
    book: BookView,
    node: NodeId,
    state: State,
    depth: nat,
    met: Set<Port>,
) -> (own: Set<Port>)
    requires
        is_proper(net),
        refers_plainly(net, book),
        node < net.len(),
        net[node as int].kind == NodeKind::Op2,
        is_orderly(net, state, met, Some(Port(node, 2))),
        read(net, book, Port(node, 2), state, depth) matches Ok(reading) && reading.valid,
    ensures
        read(net, book, Port(node, 2), state, depth) matches Ok(reading) && comes_to(
            net,
            state,
            met,
            own,
            reading.term,
            reading.state,
        ),
    decreases depth, 0nat,
{
    let reading = read(net, book, Port(node, 2), state, depth)->Ok_0;
    let p0 = Port(node, 0);
    let p1 = Port(node, 1);
    let p2 = Port(node, 2);
    let main = entered(net, p0);
    let d = (depth - 1) as nat;
    let st = mark(state, p2);
    let st1 = mark(mark(st, p0), p1);
    assert(has_port(net, p0) && has_port(net, p1));
    lemma_marked_is_orderly(net, state, met, Some(p2), p2);
    lemma_marked_is_orderly(net, st, met, None, p0);
    lemma_marked_is_orderly(net, mark(st, p0), met, None, p1);
    let (own, pair) = lemma_two_use(net, book, p0, p1, st1, d, met);
    let op = read(net, book, main, st1, d)->Ok_0;
    let arg = read(net, book, entered(net, p1), op.state, d)->Ok_0;
    if net[main.0 as int].kind == NodeKind::Op2 {
        lemma_operator_lacks_operand(net, book, main, st1, d);
    }
    assert(has_port(net, main));
    assert(net[main.0 as int].kind matches NodeKind::Ref { def_id } ==> !book.is_generated(
        def_id,
    ));
    lemma_operation_keeps_uses(op.term, arg.term);
    lemma_from_earlier(net, state, st1, met, own, reading.term, pair, reading.state);
    own
}

/// An operation has the variables of its operator and operand, if the operator is a number or
/// lacks an operand.
proof fn lemma_operation_keeps_uses(op_term: TermView, arg: TermView)
    requires
        op_term is Num || (op_term matches TermView::Opx { snd, .. } && *snd == TermView::Era),
    ensures
        applied(op_term, arg) matches Some(term) ==> forall|nam: Seq<char>| #[trigger]
            occurrences(term, nam) == occurrences(
                TermView::Tup { fst: Box::new(op_term), snd: Box::new(arg) },
                nam,
            ),
{
    reveal_with_fuel(occurrences, 4);
}

/// Declaring a variable of a duplication that is listed keeps order.
proof fn lemma_declared_is_orderly(net: Seq<Node>, state: State, met: Set<Port>, port: Port)
    requires
        is_orderly(net, state, met, None),
        has_port(net, port),
        net[port.0 as int].kind is Dup,
        1 <= port.1 <= 2,
        state.pending.listed.contains(port.0),
    ensures
        state.names.declared(net, port) matches Some((_, names)) ==> is_orderly(
            net,
            (State { names, ..state }),
            met,
            None,
        ) && keeps_names(state.names, names),
{
    reveal(is_orderly);
    lemma_named_is_sound(state.names, port);
    if let Some((_, names)) = state.names.declared(net, port) {
        let st = State { names, ..state };
        assert forall|node: NodeId| node < net.len() implies #[trigger] node_is_orderly(
            net,
            st,
            met,
            None,
            node,
        ) by {
            assert(node_is_orderly(net, state, met, None, node));
        }
    }
}

/// Taking the duplication that waits next keeps order.
proof fn lemma_popped_is_orderly(net: Seq<Node>, state: State, met: Set<Port>)
    requires
        is_orderly(net, state, met, None),
        state.pending.stack.len() > 0,
    ensures
        is_orderly(net, (State { pending: state.pending.popped(), ..state }), met, None),
        state.pending.listed.contains(state.pending.stack.last()),
        state.pending.stack.last() < net.len(),
        net[state.pending.stack.last() as int].kind is Dup,
{
    reveal(is_orderly);
    let st = State { pending: state.pending.popped(), ..state };
    assert(state.pending.listed.contains(state.pending.stack.last()));
    lemma_popping_stays_within(net, state.pending);
    assert forall|node: NodeId| node < net.len() implies #[trigger] node_is_orderly(
        net,
        st,
        met,
        None,
        node,
    ) by {
        assert(node_is_orderly(net, state, met, None, node));
    }
}

/// Variables that are used stay so when more variables are named.
proof fn lemma_uses_last(
    term: TermView,
    names: VarNamesView,
    later: VarNamesView,
    ports: Set<Port>,
)
    requires
        uses_once(term, names, ports),
        keeps_names(names, later),
    ensures
        uses_once(term, later, ports),
{
    assert forall|port: Port| #[trigger] ports.contains(port) implies later.ids.contains_key(port)
        && later.ids[port] == names.ids[port] by {
        assert(names.ids.contains_key(port));
    }
    assert forall|nam: Seq<char>| #[trigger]
        occurrences(term, nam) == (if is_name_of(later, ports, nam) {
            1nat
        } else {
            0nat
        }) by {
        if is_name_of(names, ports, nam) {
            let port = choose|port: Port| #[trigger]
                ports.contains(port) && id_name(names.ids[port] as nat) == nam;
            assert(is_name_of(later, ports, nam));
        } else if is_name_of(later, ports, nam) {
            let port = choose|port: Port| #[trigger]
                ports.contains(port) && id_name(later.ids[port] as nat) == nam;
            assert(is_name_of(names, ports, nam));
        }
    }
}

/// Whether a valid reading uses every variable with a name whose port was seen.
spec fn is_used_up(net: Seq<Node>, all: Reading) -> bool {
    exists|met: Set<Port>| #[trigger]
        is_orderly(net, all.state, met, None) && uses_once(all.term, all.state.names, met)
}

/// Valid readings of the duplications that wait use variables once.
proof fn lemma_dups_use(
    net: Seq<Node>,
    book: BookView,
    main: Reading,
    depth: nat,
    met: Set<Port>,
)
    requires
        is_proper(net),
        refers_plainly(net, book),
        main.valid ==> is_orderly(net, main.state, met, None) && uses_once(
            main.term,
            main.state.names,
            met,
        ),
    ensures
        read_dups(net, book, main, depth) matches Ok(all) ==> all.valid ==> is_used_up(net, all),
    decreases depth,
{
    if main.state.pending.stack.len() > 0 && read_dups(net, book, main, depth) is Ok {
        let d = (depth - 1) as nat;
        let dup = main.state.pending.stack.last();
        let p0 = Port(dup, 0);
        let p1 = Port(dup, 1);
        let p2 = Port(dup, 2);
        let body = entered(net, p0);
        let state0 = State { pending: main.state.pending.popped(), ..main.state };
        let state = mark(state0, p0);
        let val = read(net, book, body, state, d)->Ok_0;
        let (fst, names1) = val.state.names.declared(net, p1)->0;
        let (snd, names2) = names1.declared(net, p2)->0;
        let term = TermView::Dup {
            fst,
            snd,
            val: Box::new(val.term),
            nxt: Box::new(main.term),
        };
        let more = Reading {
            term,
            valid: main.valid && val.valid,
            state: State { names: names2, ..val.state },
        };
        if more.valid {
            lemma_popped_is_orderly(net, main.state, met);
            lemma_marked_is_orderly(net, state0, met, None, p0);
            lemma_any_next(net, state, met, body);
            assert(has_port(net, p0) && has_port(net, p1) && has_port(net, p2));
            let own = lemma_reading_uses(net, book, body, state, d, met);
            let met1 = met.union(own);
            assert(is_sound(state.names)) by {
                reveal(is_orderly);
            }
            law_linear_keeps_names(net, book, body, state, d);
            lemma_declared_is_orderly(net, val.state, met1, p1);
            lemma_declared_is_orderly(net, State { names: names1, ..val.state }, met1, p2);
            assert(is_sound(names2) && own.disjoint(met)) by {
                reveal(is_orderly);
            }
            lemma_uses_last(val.term, val.state.names, names1, own);
            lemma_uses_last(val.term, names1, names2, own);
            lemma_keeps_on(main.state.names, val.state.names, names1);
            lemma_keeps_on(main.state.names, names1, names2);
            lemma_uses_join(main.term, val.term, main.state.names, names2, met, own);
            let pair = TermView::Tup { fst: Box::new(main.term), snd: Box::new(val.term) };
            lemma_same_uses(term, pair, names2, met1);
            lemma_dups_use(net, book, more, d, met1);
        } else {
            lemma_dups_use(net, book, more, d, met);
        }
    }
}

/// Names that are kept twice in turn are kept.
proof fn lemma_keeps_on(before: VarNamesView, mid: VarNamesView, after: VarNamesView)
    requires
        keeps_names(before, mid),
        keeps_names(mid, after),
    ensures
        keeps_names(before, after),
{
    assert forall|port: Port| #[trigger]
        before.ids.contains_key(port) implies after.ids.contains_key(port) && after.ids[port]
        == before.ids[port] by {
        assert(mid.ids.contains_key(port));
    }
    assert forall|port: Port| #[trigger]
        after.ids.contains_key(port) implies before.ids.contains_key(port) || before.next
        <= after.ids[port] by {
        if mid.ids.contains_key(port) {
            assert(after.ids[port] == mid.ids[port]);
        }
    }
}

/// The nodes that are listed at the end of a valid reading belong to the net.
proof fn lemma_listed_are_within(net: Seq<Node>, all: Reading)
    requires
        is_used_up(net, all),
    ensures
        all.state.pending.within(net),
{
    let met = choose|met: Set<Port>| #[trigger]
        is_orderly(net, all.state, met, None) && uses_once(all.term, all.state.names, met);
    reveal(is_orderly);
}

/// A valid linear readback uses variables once.
proof fn lemma_net_is_used_up(net: Seq<Node>, book: BookView)
    requires
        is_proper(net),
        refers_plainly(net, book),
    ensures
        read_net(net, book) matches Ok(reading) ==> reading.valid ==> {
            &&& is_used_up(net, reading)
            &&& binders_read(net, reading.state.names, reading.state.seen)
        },
{
    let depth = ample_depth(net);
    let start = State::initial();
    let root = entered(net, root_port());
    let none = Set::<Port>::empty();
    if let Ok(reading) = read_net(net, book) {
        if reading.valid {
            assert(has_port(net, root_port()));
            assert(is_orderly(net, start, none, Some(root))) by {
                reveal(is_orderly);
                assert forall|node: NodeId| node < net.len() implies #[trigger] node_is_orderly(
                    net,
                    start,
                    none,
                    Some(root),
                    node,
                ) by {}
            }
            let own = lemma_reading_uses(net, book, root, start, depth, none);
            let main = read(net, book, root, start, depth)->Ok_0;
            assert(none.union(own) =~= own);
            lemma_dups_use(net, book, main, depth, own);
            let all = read_dups(net, book, main, depth)->Ok_0;
            let met = choose|met: Set<Port>| #[trigger]
                is_orderly(net, all.state, met, None) && uses_once(all.term, all.state.names, met);
            assert(is_orderly(net, reading.state, met, None));
        }
    }
}

/// In a valid linear readback every variable with a name occurs exactly once, and no other
/// variable occurs. The net refers to no generated definition.
pub proof fn law_valid_linear_readback_uses_variables_once(net: Seq<Node>, book: BookView)
    requires
        is_proper(net),
        refers_plainly(net, book),
    ensures
        read_net(net, book) matches Ok(reading) ==> reading.valid ==> {
            let names = reading.state.names;
            forall|nam: Seq<char>| #[trigger]
                occurrences(reading.term, nam) == (if is_recorded(names, nam) {
                    1nat
                } else {
                    0nat
                })
        },
{
    if let Ok(reading) = read_net(net, book) {
        if reading.valid {
            lemma_net_is_used_up(net, book);
            let state = reading.state;
            let met = choose|met: Set<Port>| #[trigger]
                is_orderly(net, state, met, None) && uses_once(reading.term, state.names, met);
            let names = state.names;
            let seen = state.seen;
            assert forall|port: Port| #[trigger] names.ids.contains_key(port) implies met.contains(
                port,
            ) by {
                reveal(is_orderly);
                assert(may_bind(net, port));
                assert(node_is_orderly(net, state, met, None, port.0));
                assert(is_node_read(net, seen, port.0));
                assert(is_read(net, seen, port));
            }
            assert forall|nam: Seq<char>| #[trigger]
                occurrences(reading.term, nam) == (if is_recorded(names, nam) {
                    1nat
                } else {
                    0nat
                }) by {
                if is_recorded(names, nam) {
                    let port = choose|port: Port| #[trigger]
                        names.ids.contains_key(port) && id_name(names.ids[port] as nat) == nam;
                    assert(met.contains(port));
                    assert(is_name_of(names, met, nam));
                } else if is_name_of(names, met, nam) {
                    let port = choose|port: Port| #[trigger]
                        met.contains(port) && id_name(names.ids[port] as nat) == nam;
                    assert(names.ids.contains_key(port));
                }
            }
        }
    }
}

/// The binders of a depicted term have names on record.
proof fn lemma_depicted_binders_are_recorded(
    net: Seq<Node>,
    book: BookView,
    names: VarNamesView,
    port: Port,
    term: TermView,
    depth: nat,
)
    requires
        is_net(net),
        has_port(net, port),
        refers_plainly(net, book),
        depicts(net, book, names, port, term, depth),
    ensures
        are_recorded(names, binders(term)),
    decreases depth,
{
    reveal_with_fuel(binders, 2);
    let node = port.0;
    let slot = port.1;
    let p0 = Port(node, 0);
    let p1 = Port(node, 1);
    let p2 = Port(node, 2);
    assert(has_port(net, p0) && has_port(net, p1) && has_port(net, p2));
    let main = entered(net, p0);
    let aux1 = entered(net, p1);
    let aux2 = entered(net, p2);
    let d = (depth - 1) as nat;
    match net[node as int].kind {
        NodeKind::Con => {
            if slot == 0 {
                let nam = term->Lam_nam;
                let bod = *term->Lam_bod;
                lemma_depicted_binders_are_recorded(net, book, names, aux2, bod, d);
                lemma_binder_is_recorded(net, names, p1, nam);
                lemma_both_are_recorded(names, binder(nam), binders(bod));
            } else if slot != 1 {
                let fun = *term->App_fun;
                let arg = *term->App_arg;
                lemma_depicted_binders_are_recorded(net, book, names, main, fun, d);
                lemma_depicted_binders_are_recorded(net, book, names, aux1, arg, d);
                lemma_both_are_recorded(names, binders(fun), binders(arg));
            }
        },
        NodeKind::Mat => {
            let q1 = Port(aux1.0, 1);
            let q2 = Port(aux1.0, 2);
            assert(has_port(net, q1) && has_port(net, q2));
            let cond = *term->Match_cond;
            let zero = *term->Match_zero;
            let succ = *term->Match_succ;
            lemma_depicted_binders_are_recorded(net, book, names, main, cond, d);
            lemma_depicted_binders_are_recorded(net, book, names, entered(net, q1), zero, d);
            lemma_depicted_binders_are_recorded(net, book, names, entered(net, q2), succ, d);
            lemma_both_are_recorded(names, binders(cond), binders(zero));
            lemma_both_are_recorded(names, binders(cond) + binders(zero), binders(succ));
        },
        NodeKind::Dup { .. } => {
            if slot == 0 {
                let fst = *term->Sup_fst;
                let snd = *term->Sup_snd;
                lemma_depicted_binders_are_recorded(net, book, names, aux1, fst, d);
                lemma_depicted_binders_are_recorded(net, book, names, aux2, snd, d);
                lemma_both_are_recorded(names, binders(fst), binders(snd));
            }
        },
        NodeKind::Op2 => {
            let (op, arg) = choose|op: TermView, arg: TermView|
                #[trigger] applied(op, arg) == Some(term) && depicts(net, book, names, main, op, d)
                    && depicts(net, book, names, aux1, arg, d);
            lemma_depicted_binders_are_recorded(net, book, names, main, op, d);
            lemma_depicted_binders_are_recorded(net, book, names, aux1, arg, d);
            lemma_operation_is_recorded(names, op, arg);
        },
        NodeKind::Ref { def_id } => {
            assert(!book.is_generated(def_id));
            assert(is_reference_to(book, def_id, term));
        },
        NodeKind::Tup => {
            let fst = *term->Tup_fst;
            let snd = *term->Tup_snd;
            lemma_depicted_binders_are_recorded(net, book, names, aux1, fst, d);
            lemma_depicted_binders_are_recorded(net, book, names, aux2, snd, d);
            lemma_both_are_recorded(names, binders(fst), binders(snd));
        },
        _ => {},
    }
}

/// A binder has a name on record.
proof fn lemma_binder_is_recorded(
    net: Seq<Node>,
    names: VarNamesView,
    port: Port,
    nam: Option<Seq<char>>,
)
    requires
        is_binder_of(net, names, port, nam),
    ensures
        are_recorded(names, binder(nam)),
{
    if nam is Some {
        assert(names.ids.contains_key(port));
    }
}

/// Names of which both halves are on record are on record.
proof fn lemma_both_are_recorded(
    names: VarNamesView,
    fst: Seq<Seq<char>>,
    snd: Seq<Seq<char>>,
)
    requires
        are_recorded(names, fst),
        are_recorded(names, snd),
    ensures
        are_recorded(names, fst + snd),
{
    lemma_joined(fst, snd);
    let all = fst + snd;
    assert forall|nam: Seq<char>| #[trigger] all.contains(nam) implies is_recorded(names, nam) by {
        assert(all.to_set().contains(nam));
        assert(fst.to_set().contains(nam) || snd.to_set().contains(nam));
        assert(fst.contains(nam) || snd.contains(nam));
    }
}

/// The binders of an operation are on record if those of its operator and operand are.
proof fn lemma_operation_is_recorded(names: VarNamesView, op_term: TermView, arg: TermView)
    requires
        are_recorded(names, binders(op_term)),
        are_recorded(names, binders(arg)),
    ensures
        applied(op_term, arg) matches Some(term) ==> are_recorded(names, binders(term)),
{
    reveal_with_fuel(binders, 3);
    let none = Seq::<Seq<char>>::empty();
    assert(binders(arg) + none =~= binders(arg));
    assert(none + binders(arg) =~= binders(arg));
    if let TermView::Opx { fst, snd, .. } = op_term {
        lemma_joined(binders(*fst), binders(*snd));
        assert forall|nam: Seq<char>| #[trigger] binders(*fst).contains(nam) implies is_recorded(
            names,
            nam,
        ) by {
            assert(binders(*fst).to_set().contains(nam));
            assert(binders(op_term).to_set().contains(nam));
            assert(binders(op_term).contains(nam));
        }
        lemma_both_are_recorded(names, binders(*fst), binders(arg));
    }
}

/// The binders of a term depicted with duplications have names on record.
proof fn lemma_dups_binders_are_recorded(
    net: Seq<Node>,
    book: BookView,
    names: VarNamesView,
    dups: Seq<NodeId>,
    term: TermView,
    depth: nat,
)
    requires
        is_net(net),
        refers_plainly(net, book),
        forall|i: int| 0 <= i < dups.len() ==> #[trigger] dups[i] < net.len(),
        depicts_with_dups(net, book, names, dups, term, depth),
    ensures
        are_recorded(names, binders(term)),
    decreases dups.len(),
{
    if dups.len() == 0 {
        assert(has_port(net, root_port()));
        let root = entered(net, root_port());
        lemma_depicted_binders_are_recorded(net, book, names, root, term, depth);
    } else if let TermView::Dup { fst, snd, val, nxt } = term {
        let dup = dups.last();
        let p0 = Port(dup, 0);
        assert(has_port(net, p0));
        let body = entered(net, p0);
        lemma_depicted_binders_are_recorded(net, book, names, body, *val, depth);
        lemma_dups_binders_are_recorded(net, book, names, dups.drop_last(), *nxt, depth);
        lemma_binder_is_recorded(net, names, Port(dup, 1), fst);
        lemma_binder_is_recorded(net, names, Port(dup, 2), snd);
        lemma_both_are_recorded(names, binders(*val), binder(fst));
        lemma_both_are_recorded(names, binders(*val) + binder(fst), binder(snd));
        lemma_both_are_recorded(
            names,
            binders(*val) + binder(fst) + binder(snd),
            binders(*nxt),
        );
    }
}

/// In a valid linear readback every named binder has exactly one occurrence of its variable. The
/// net refers to no generated definition.
pub proof fn law_valid_linear_readback_uses_binders_once(
    net: Seq<Node>,
    book: BookView,
    nam: Seq<char>,
)
    requires
        is_proper(net),
        refers_plainly(net, book),
    ensures
        read_net(net, book) matches Ok(reading) ==> reading.valid && binders(
            reading.term,
        ).contains(nam) ==> occurrences(reading.term, nam) == 1,
{
    if let Ok(reading) = read_net(net, book) {
        if reading.valid && binders(reading.term).contains(nam) {
            let depth = ample_depth(net);
            let names = reading.state.names;
            law_valid_linear_readback_uses_variables_once(net, book);
            lemma_net_is_used_up(net, book);
            lemma_listed_are_within(net, reading);
            law_linear_readback_depicts(net, book);
            let dups = choose|dups: Seq<NodeId>|
                {
                    &&& binds_all(net, dup_nodes(), names, dups)
                    &&& dups.to_set() == reading.state.pending.listed
                    &&& #[trigger] depicts_with_dups(net, book, names, dups, reading.term, depth)
                };
            assert forall|i: int| 0 <= i < dups.len() implies #[trigger] dups[i] < net.len() by {
                assert(dups.to_set().contains(dups[i]));
            }
            lemma_dups_binders_are_recorded(net, book, names, dups, reading.term, depth);
            assert(is_recorded(names, nam));
        }
    }
}

} // verus!
