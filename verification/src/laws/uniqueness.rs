//! No two binders of a linear readback share a name.

use vstd::prelude::*;

use crate::book::BookView;
use crate::laws::bindings::{
    dup_nodes, is_account, lemma_declared_is_accounted, lemma_linear_is_accounted,
    lemma_popped_is_accounted,
};
use crate::laws::naming::{
    binder, binders, is_sound, keeps_names, law_linear_keeps_names,
    law_refreshed_binders_are_fresh, lemma_named_is_sound,
};
use crate::laws::termination::law_ports_stay_seen;
use crate::linear;
use crate::linear::{ample_depth, mark, mark_node, read, read_dups, read_net};
use crate::name::{id_name, law_id_names_are_distinct, Val};
use crate::net::{entered, root_port, Node, NodeId, NodeKind, Port};
use crate::reading::{applied, Reading, State};
use crate::state::VarNamesView;
use crate::term::TermView;

verus! {

/// Whether `id` is the id of a variable on record.
spec fn is_recorded(names: VarNamesView, id: Val) -> bool {
    exists|port: Port| #[trigger] names.ids.contains_key(port) && names.ids[port] == id
}

/// Whether `id` belongs to the variable of the constructor `node`, and the constructor was
/// reached by its main port between two states.
spec fn is_parameter(
    net: Seq<Node>,
    before: State,
    after: State,
    id: Val,
    node: NodeId,
) -> bool {
    &&& net[node as int].kind == NodeKind::Con
    &&& after.names.ids.contains_key(Port(node, 1))
    &&& after.names.ids[Port(node, 1)] == id
    &&& after.seen.contains(Port(node, 0))
    &&& !before.seen.contains(Port(node, 0))
}

/// Whether a binder that was read between two states may have the name of `id`: the binder came
/// with a definition, or it is a lambda that was read.
spec fn is_claimed(net: Seq<Node>, before: State, after: State, id: Val) -> bool {
    ||| before.names.next <= id < after.names.next && !is_recorded(after.names, id)
    ||| exists|node: NodeId| #[trigger] is_parameter(net, before, after, id, node)
}

/// Whether `ids` are different from each other, and all claimed between two states.
spec fn is_claim(net: Seq<Node>, before: State, after: State, ids: Seq<Val>) -> bool {
    &&& ids.no_duplicates()
    &&& forall|i: int| 0 <= i < ids.len() ==> #[trigger] is_claimed(net, before, after, ids[i])
}

/// Whether the reader went on from one state to the other.
spec fn goes_on(before: State, after: State) -> bool {
    &&& is_sound(before.names)
    &&& is_sound(after.names)
    &&& keeps_names(before.names, after.names)
    &&& before.seen.subset_of(after.seen)
}

/// The names of ids.
spec fn names_of(ids: Seq<Val>) -> Seq<Seq<char>> {
    Seq::new(ids.len(), |i: int| id_name(ids[i] as nat))
}

/// Claims in turn are a claim together.
proof fn lemma_claims_join(
    net: Seq<Node>,
    before: State,
    mid: State,
    after: State,
    fst: Seq<Val>,
    snd: Seq<Val>,
)
    requires
        goes_on(before, mid),
        goes_on(mid, after),
        is_claim(net, before, mid, fst),
        is_claim(net, mid, after, snd),
    ensures
        is_claim(net, before, after, fst + snd),
        names_of(fst + snd) == names_of(fst) + names_of(snd),
{
    let all = fst + snd;
    assert(names_of(all) =~= names_of(fst) + names_of(snd));
    assert forall|i: int| 0 <= i < all.len() implies #[trigger] is_claimed(
        net,
        before,
        after,
        all[i],
    ) by {
        if i < fst.len() {
            assert(is_claimed(net, before, mid, fst[i]));
            lemma_claim_lasts(net, before, mid, after, fst[i]);
        } else {
            let id = snd[i - fst.len()];
            assert(is_claimed(net, mid, after, id));
            if exists|node: NodeId| #[trigger] is_parameter(net, mid, after, id, node) {
                let node = choose|node: NodeId| #[trigger] is_parameter(net, mid, after, id, node);
                assert(is_parameter(net, before, after, id, node));
            }
        }
    }
    assert forall|i: int, j: int|
        0 <= i < all.len() && 0 <= j < all.len() && i != j implies all[i] != all[j] by {
        if i < fst.len() && j >= fst.len() {
            lemma_claims_differ(net, before, mid, after, fst[i], snd[j - fst.len()]);
        }
        if j < fst.len() && i >= fst.len() {
            lemma_claims_differ(net, before, mid, after, fst[j], snd[i - fst.len()]);
        }
    }
}

/// What was claimed stays claimed.
proof fn lemma_claim_lasts(net: Seq<Node>, before: State, mid: State, after: State, id: Val)
    requires
        goes_on(mid, after),
        is_claimed(net, before, mid, id),
    ensures
        is_claimed(net, before, after, id),
{
    if exists|node: NodeId| #[trigger] is_parameter(net, before, mid, id, node) {
        let node = choose|node: NodeId| #[trigger] is_parameter(net, before, mid, id, node);
        assert(mid.names.ids.contains_key(Port(node, 1)));
        assert(is_parameter(net, before, after, id, node));
    } else if is_recorded(after.names, id) {
        let port = choose|port: Port| #[trigger]
            after.names.ids.contains_key(port) && after.names.ids[port] == id;
        assert(mid.names.ids.contains_key(port));
        assert(is_recorded(mid.names, id));
    }
}

/// No id is claimed twice.
proof fn lemma_claims_differ(
    net: Seq<Node>,
    before: State,
    mid: State,
    after: State,
    fst: Val,
    snd: Val,
)
    requires
        goes_on(mid, after),
        is_claimed(net, before, mid, fst),
        is_claimed(net, mid, after, snd),
    ensures
        fst != snd,
{
    if exists|node: NodeId| #[trigger] is_parameter(net, mid, after, snd, node) {
        let node = choose|node: NodeId| #[trigger] is_parameter(net, mid, after, snd, node);
        let port = Port(node, 1);
        if exists|other: NodeId| #[trigger] is_parameter(net, before, mid, fst, other) {
            let other = choose|other: NodeId| #[trigger] is_parameter(net, before, mid, fst, other);
            assert(mid.names.ids.contains_key(Port(other, 1)));
            assert(after.names.ids[Port(other, 1)] == fst);
            assert(port != Port(other, 1));
        } else if fst == snd {
            assert(after.names.ids.contains_key(port));
            assert(mid.names.ids.contains_key(port));
            assert(is_recorded(mid.names, fst));
        }
    } else if exists|other: NodeId| #[trigger] is_parameter(net, before, mid, fst, other) {
        let other = choose|other: NodeId| #[trigger] is_parameter(net, before, mid, fst, other);
        assert(mid.names.ids.contains_key(Port(other, 1)));
    }
}

/// A claim from a later state on is one from an earlier state on.
proof fn lemma_claim_from_earlier(
    net: Seq<Node>,
    before: State,
    mid: State,
    after: State,
    ids: Seq<Val>,
)
    requires
        goes_on(before, mid),
        goes_on(mid, after),
        is_claim(net, mid, after, ids),
    ensures
        is_claim(net, before, after, ids),
{
    let none = Seq::<Val>::empty();
    lemma_claims_join(net, before, mid, after, none, ids);
    assert(none + ids =~= ids);
}

/// The binders of a linear reading have the names of different ids, which were claimed in the
/// course of the reading. Returns these ids.
proof fn lemma_reading_claims(
    net: Seq<Node>,
    book: BookView,
    next: Port,
    state: State,
    depth: nat,
) -> (ids: Seq<Val>)
    requires
        is_sound(state.names),
    ensures
        read(net, book, next, state, depth) matches Ok(reading) ==> {
            &&& goes_on(state, reading.state)
            &&& is_claim(net, state, reading.state, ids)
            &&& binders(reading.term) == names_of(ids)
        },
    decreases depth, 0nat,
{
    let none = Seq::<Val>::empty();
    law_linear_keeps_names(net, book, next, state, depth);
    law_ports_stay_seen(net, book, next, state, depth);
    if depth > 0 && !state.seen.contains(next) && read(net, book, next, state, depth) is Ok {
        let reading = read(net, book, next, state, depth)->Ok_0;
        let node = next.0;
        let slot = next.1;
        let p0 = Port(node, 0);
        let p1 = Port(node, 1);
        let p2 = Port(node, 2);
        let main = entered(net, p0);
        let aux1 = entered(net, p1);
        let aux2 = entered(net, p2);
        let d = (depth - 1) as nat;
        let st = mark(state, next);
        match net[node as int].kind {
            NodeKind::Con => {
                if slot == 0 {
                    lemma_named_is_sound(st.names, p1);
                    let (nam, names) = st.names.declared(net, p1)->0;
                    let st1 = State { names, ..mark(st, p2) };
                    let inner = lemma_reading_claims(net, book, aux2, st1, d);
                    let own = if nam is Some {
                        seq![names.ids[p1]]
                    } else {
                        none
                    };
                    assert(is_claim(net, state, st1, own)) by {
                        if nam is Some {
                            assert(is_parameter(net, state, st1, names.ids[p1], node));
                        }
                    }
                    assert(binder(nam) =~= names_of(own));
                    lemma_claims_join(net, state, st1, reading.state, own, inner);
                    own + inner
                } else if slot == 1 {
                    assert(binders(reading.term) =~= names_of(none));
                    none
                } else {
                    let st1 = mark(mark(st, p0), p1);
                    let ids = lemma_two_claim(net, book, main, aux1, st1, d);
                    lemma_claim_from_earlier(net, state, st1, reading.state, ids);
                    ids
                }
            },
            NodeKind::Mat => {
                let st1 = mark(mark(st, p0), p1);
                let fst = lemma_reading_claims(net, book, main, st1, d);
                let cond = read(net, book, main, st1, d)->Ok_0;
                let st2 = mark_node(cond.state, aux1.0);
                if net[aux1.0 as int].kind == NodeKind::Con {
                    let zero_port = entered(net, Port(aux1.0, 1));
                    let succ_port = entered(net, Port(aux1.0, 2));
                    let snd = lemma_two_claim(net, book, zero_port, succ_port, st2, d);
                    let zero = read(net, book, zero_port, st2, d)->Ok_0;
                    let succ = read(net, book, succ_port, zero.state, d)->Ok_0;
                    lemma_claim_from_earlier(net, cond.state, st2, reading.state, snd);
                    lemma_claims_join(net, st1, cond.state, reading.state, fst, snd);
                    lemma_claim_from_earlier(net, state, st1, reading.state, fst + snd);
                    assert(binders(reading.term) =~= binders(cond.term) + (binders(zero.term)
                        + binders(succ.term)));
                    fst + snd
                } else {
                    lemma_claims_join(net, st1, cond.state, reading.state, fst, none);
                    assert(fst + none =~= fst);
                    lemma_claim_from_earlier(net, state, st1, reading.state, fst);
                    assert(binders(TermView::Era) =~= Seq::empty());
                    assert(binders(reading.term) =~= binders(cond.term));
                    fst
                }
            },
            NodeKind::Ref { def_id } => {
                let from = state.names.next;
                let to = reading.state.names.next;
                law_refreshed_binders_are_fresh(
                    TermView::Ref { def_id },
                    from,
                    book,
                    Set::empty(),
                );
                let ids = Seq::new((to - from) as nat, |i: int| (from + i) as Val);
                assert(binders(reading.term) =~= names_of(ids));
                ids
            },
            NodeKind::Dup { .. } => {
                if slot == 0 {
                    let st1 = mark(mark(st, p1), p2);
                    let ids = lemma_two_claim(net, book, aux1, aux2, st1, d);
                    lemma_claim_from_earlier(net, state, st1, reading.state, ids);
                    ids
                } else {
                    assert(binders(reading.term) =~= names_of(none));
                    none
                }
            },
            NodeKind::Op2 => {
                let st1 = mark(mark(st, p0), p1);
                let ids = lemma_two_claim(net, book, main, aux1, st1, d);
                lemma_claim_from_earlier(net, state, st1, reading.state, ids);
                let op = read(net, book, main, st1, d)->Ok_0;
                let arg = read(net, book, aux1, op.state, d)->Ok_0;
                lemma_operation_claims(net, state, reading.state, ids, op.term, arg.term)
            },
            NodeKind::Tup => {
                let st1 = mark(mark(st, p1), p2);
                let ids = lemma_two_claim(net, book, aux1, aux2, st1, d);
                lemma_claim_from_earlier(net, state, st1, reading.state, ids);
                ids
            },
            _ => {
                assert(binders(reading.term) =~= names_of(none));
                none
            },
        }
    } else {
        if let Ok(reading) = read(net, book, next, state, depth) {
            assert(binders(reading.term) =~= names_of(none));
        }
        none
    }
}

/// The ids that two readings in turn claim.
proof fn lemma_two_claim(
    net: Seq<Node>,
    book: BookView,
    fst: Port,
    snd: Port,
    state: State,
    depth: nat,
) -> (ids: Seq<Val>)
    requires
        is_sound(state.names),
    ensures
        read(net, book, fst, state, depth) matches Ok(one) ==> (read(
            net,
            book,
            snd,
            one.state,
            depth,
        ) matches Ok(two) ==> {
            &&& goes_on(state, two.state)
            &&& is_claim(net, state, two.state, ids)
            &&& binders(one.term) + binders(two.term) == names_of(ids)
        }),
    decreases depth, 1nat,
{
    let ids1 = lemma_reading_claims(net, book, fst, state, depth);
    if let Ok(one) = read(net, book, fst, state, depth) {
        let ids2 = lemma_reading_claims(net, book, snd, one.state, depth);
        if let Ok(two) = read(net, book, snd, one.state, depth) {
            lemma_claims_join(net, state, one.state, two.state, ids1, ids2);
        }
        ids1 + ids2
    } else {
        ids1
    }
}

/// The ids that an operation claims are among those that its operator and operand claim.
proof fn lemma_operation_claims(
    net: Seq<Node>,
    before: State,
    after: State,
    ids: Seq<Val>,
    op_term: TermView,
    arg: TermView,
) -> (own: Seq<Val>)
    requires
        is_claim(net, before, after, ids),
        binders(op_term) + binders(arg) == names_of(ids),
        applied(op_term, arg) is Some,
    ensures
        is_claim(net, before, after, own),
        binders(applied(op_term, arg)->0) == names_of(own),
{
    reveal_with_fuel(binders, 3);
    let term = applied(op_term, arg)->0;
    let both = binders(op_term) + binders(arg);
    let kept = match op_term {
        TermView::Opx { fst, .. } => binders(*fst).len() as int,
        _ => 0,
    };
    let from = binders(op_term).len() as int;
    let own = ids.take(kept) + ids.skip(from);
    assert(ids.len() == both.len());
    assert forall|i: int| 0 <= i < both.len() implies both[i] == id_name(
        #[trigger] ids[i] as nat,
    ) by {
        assert(names_of(ids)[i] == both[i]);
    }
    assert(binders(term) =~= names_of(own));
    assert forall|i: int| 0 <= i < own.len() implies #[trigger] is_claimed(
        net,
        before,
        after,
        own[i],
    ) by {
        let j = if i < kept {
            i
        } else {
            i - kept + from
        };
        assert(own[i] == ids[j]);
        assert(is_claimed(net, before, after, ids[j]));
    }
    own
}

/// An id that was claimed is not that of a variable of any other node than a constructor.
proof fn lemma_others_differ(
    net: Seq<Node>,
    before: State,
    mid: State,
    after: State,
    id: Val,
    port: Port,
)
    requires
        goes_on(mid, after),
        is_claimed(net, before, mid, id),
        after.names.ids.contains_key(port),
        net[port.0 as int].kind != NodeKind::Con,
    ensures
        after.names.ids[port] != id,
{
    if exists|node: NodeId| #[trigger] is_parameter(net, before, mid, id, node) {
        let node = choose|node: NodeId| #[trigger] is_parameter(net, before, mid, id, node);
        assert(mid.names.ids.contains_key(Port(node, 1)));
        assert(after.names.ids[Port(node, 1)] == id);
        assert(port != Port(node, 1));
    } else if after.names.ids[port] == id {
        assert(mid.names.ids.contains_key(port));
        assert(is_recorded(mid.names, id));
    }
}

/// Whether `id` belongs to the variable that `port` of one of the duplications `read` binds.
spec fn is_copy(
    net: Seq<Node>,
    names: VarNamesView,
    read: Seq<NodeId>,
    id: Val,
    port: Port,
) -> bool {
    &&& net[port.0 as int].kind is Dup
    &&& read.contains(port.0)
    &&& names.ids.contains_key(port)
    &&& names.ids[port] == id
}

/// Whether a binder that was read may have the name of `id`, where `read` are the duplications
/// that were read.
spec fn is_used(net: Seq<Node>, state: State, read: Seq<NodeId>, id: Val) -> bool {
    ||| is_claimed(net, State::initial(), state, id)
    ||| exists|port: Port| #[trigger] is_copy(net, state.names, read, id, port)
}

/// Whether `ids` are different from each other, and all used.
spec fn are_used(net: Seq<Node>, state: State, read: Seq<NodeId>, ids: Seq<Val>) -> bool {
    &&& ids.no_duplicates()
    &&& forall|i: int| 0 <= i < ids.len() ==> #[trigger] is_used(net, state, read, ids[i])
}

/// What is used stays used.
proof fn lemma_uses_last(
    net: Seq<Node>,
    state: State,
    later: State,
    read: Seq<NodeId>,
    dup: NodeId,
    ids: Seq<Val>,
)
    requires
        goes_on(state, later),
        are_used(net, state, read, ids),
    ensures
        are_used(net, later, read.push(dup), ids),
{
    let read1 = read.push(dup);
    assert forall|i: int| 0 <= i < ids.len() implies #[trigger] is_used(
        net,
        later,
        read1,
        ids[i],
    ) by {
        let id = ids[i];
        assert(is_used(net, state, read, id));
        if is_claimed(net, State::initial(), state, id) {
            lemma_claim_lasts(net, State::initial(), state, later, id);
        } else {
            let port = choose|port: Port| #[trigger] is_copy(net, state.names, read, id, port);
            assert(state.names.ids.contains_key(port));
            assert(read1[read.index_of(port.0)] == port.0);
            assert(is_copy(net, later.names, read1, id, port));
        }
    }
}

/// An id that is used stays so when more variables are named, and is below the next free one.
proof fn lemma_use_lasts(
    net: Seq<Node>,
    state: State,
    later: State,
    read: Seq<NodeId>,
    id: Val,
)
    requires
        goes_on(state, later),
        is_used(net, state, read, id),
    ensures
        is_used(net, later, read, id),
        id < state.names.next,
{
    if is_claimed(net, State::initial(), state, id) {
        lemma_claim_lasts(net, State::initial(), state, later, id);
    } else {
        let port = choose|port: Port| #[trigger] is_copy(net, state.names, read, id, port);
        assert(state.names.ids.contains_key(port));
        assert(is_copy(net, later.names, read, id, port));
    }
}

/// The value of a duplication uses other ids than what was read before.
proof fn lemma_value_is_used(
    net: Seq<Node>,
    before: State,
    after: State,
    read: Seq<NodeId>,
    more: Seq<NodeId>,
    ids: Seq<Val>,
    own: Seq<Val>,
)
    requires
        goes_on(State::initial(), before),
        goes_on(before, after),
        are_used(net, before, read, ids),
        are_used(net, after, more, ids),
        is_claim(net, before, after, own),
    ensures
        are_used(net, after, more, own + ids),
{
    let all = own + ids;
    lemma_claim_from_earlier(net, State::initial(), before, after, own);
    assert forall|i: int| 0 <= i < all.len() implies #[trigger] is_used(
        net,
        after,
        more,
        all[i],
    ) by {
        if i < own.len() {
            assert(is_claimed(net, State::initial(), after, own[i]));
        } else {
            assert(is_used(net, after, more, ids[i - own.len()]));
        }
    }
    assert forall|i: int, j: int| 0 <= i < own.len() && 0 <= j < ids.len() implies own[i]
        != ids[j] by {
        assert(is_claimed(net, before, after, own[i]));
        assert(is_used(net, before, read, ids[j]));
        if is_claimed(net, State::initial(), before, ids[j]) {
            lemma_claims_differ(net, State::initial(), before, after, ids[j], own[i]);
        } else {
            let port = choose|port: Port| #[trigger] is_copy(net, before.names, read, ids[j], port);
            assert(before.names.ids.contains_key(port));
            lemma_others_differ(net, before, after, after, own[i], port);
        }
    }
    lemma_no_duplicates(own, ids);
}

/// A variable of a duplication that was not read before has an id that is not used.
proof fn lemma_copy_is_new(
    net: Seq<Node>,
    before: State,
    after: State,
    read: Seq<NodeId>,
    ids: Seq<Val>,
    own: Seq<Val>,
    port: Port,
)
    requires
        goes_on(before, after),
        are_used(net, before, read, ids),
        is_claim(net, before, after, own),
        net[port.0 as int].kind is Dup,
        !read.contains(port.0),
        after.names.ids.contains_key(port),
    ensures
        !(own + ids).contains(after.names.ids[port]),
{
    let all = own + ids;
    let id = after.names.ids[port];
    if all.contains(id) {
        let i = all.index_of(id);
        if i < own.len() {
            assert(is_claimed(net, before, after, own[i]));
            lemma_others_differ(net, before, after, after, id, port);
        } else {
            assert(is_used(net, before, read, ids[i - own.len()]));
            if is_claimed(net, State::initial(), before, id) {
                lemma_others_differ(net, State::initial(), before, after, id, port);
            } else {
                let other = choose|other: Port| #[trigger]
                    is_copy(net, before.names, read, id, other);
                assert(before.names.ids.contains_key(other));
                assert(after.names.ids[other] == id);
            }
        }
    }
}

/// Different ids without repetition have none together.
proof fn lemma_no_duplicates(fst: Seq<Val>, snd: Seq<Val>)
    requires
        fst.no_duplicates(),
        snd.no_duplicates(),
        forall|i: int, j: int| 0 <= i < fst.len() && 0 <= j < snd.len() ==> fst[i] != snd[j],
    ensures
        (fst + snd).no_duplicates(),
{
    let all = fst + snd;
    assert forall|i: int, j: int|
        0 <= i < all.len() && 0 <= j < all.len() && i != j implies all[i] != all[j] by {
        if i < fst.len() && j >= fst.len() {
            assert(fst[i] != snd[j - fst.len()]);
        }
        if j < fst.len() && i >= fst.len() {
            assert(fst[j] != snd[i - fst.len()]);
        }
    }
}

/// The id of an optional binder for the variable that `port` binds.
spec fn own_id(nam: Option<Seq<char>>, names: VarNamesView, port: Port) -> Seq<Val> {
    if nam is Some {
        seq![names.ids[port]]
    } else {
        Seq::empty()
    }
}

/// Declaring a variable of a duplication that was read uses one more id.
proof fn lemma_copy_is_used(
    net: Seq<Node>,
    state: State,
    read: Seq<NodeId>,
    ids: Seq<Val>,
    port: Port,
)
    requires
        goes_on(State::initial(), state),
        are_used(net, state, read, ids),
        net[port.0 as int].kind is Dup,
        read.contains(port.0),
        state.names.ids.contains_key(port) ==> !ids.contains(state.names.ids[port]),
    ensures
        state.names.declared(net, port) matches Some((nam, names)) ==> {
            let later = State { names, ..state };
            let own = own_id(nam, names, port);
            &&& goes_on(state, later)
            &&& are_used(net, later, read, own + ids)
            &&& binder(nam) == names_of(own)
        },
{
    if let Some((nam, names)) = state.names.declared(net, port) {
        let later = State { names, ..state };
        let own = own_id(nam, names, port);
        let all = own + ids;
        lemma_named_is_sound(state.names, port);
        assert(binder(nam) =~= names_of(own));
        assert forall|i: int| 0 <= i < ids.len() implies is_used(net, later, read, ids[i])
            && ids[i] < state.names.next by {
            lemma_use_lasts(net, state, later, read, ids[i]);
        }
        assert forall|i: int| 0 <= i < all.len() implies #[trigger] is_used(
            net,
            later,
            read,
            all[i],
        ) by {
            if i < own.len() {
                assert(is_copy(net, names, read, all[i], port));
            } else {
                assert(is_used(net, later, read, ids[i - own.len()]));
            }
        }
        assert forall|i: int, j: int| 0 <= i < own.len() && 0 <= j < ids.len() implies own[i]
            != ids[j] by {
            assert(ids.contains(ids[j]));
        }
        lemma_no_duplicates(own, ids);
    }
}

/// Declaring the first variable of a duplication does not use the id of the second.
proof fn lemma_second_is_new(
    before: VarNamesView,
    after: VarNamesView,
    fst: Port,
    snd: Port,
    own: Seq<Val>,
    ids: Seq<Val>,
)
    requires
        is_sound(after),
        fst != snd,
        before.ids == after.ids || (after.ids == before.ids.insert(fst, after.ids[fst])),
        before.ids.contains_key(snd) ==> !ids.contains(before.ids[snd]),
        own.len() == 0 || (own == seq![after.ids[fst]] && after.ids.contains_key(fst)),
    ensures
        after.ids.contains_key(snd) ==> !(own + ids).contains(after.ids[snd]),
{
    let all = own + ids;
    if after.ids.contains_key(snd) && all.contains(after.ids[snd]) {
        let i = all.index_of(after.ids[snd]);
        if i >= own.len() {
            assert(ids[i - own.len()] == after.ids[snd]);
        }
    }
}

/// The order of four sequences of ids does not matter to whether they are used.
proof fn lemma_used_in_any_order(
    net: Seq<Node>,
    state: State,
    read: Seq<NodeId>,
    a: Seq<Val>,
    b: Seq<Val>,
    c: Seq<Val>,
    d: Seq<Val>,
)
    requires
        are_used(net, state, read, c + (b + (a + d))),
    ensures
        are_used(net, state, read, a + b + c + d),
{
    let old_order = c + (b + (a + d));
    let new_order = a + b + c + d;
    // Where the ids stood.
    let place = |i: int|
        if i < a.len() {
            c.len() + b.len() + i
        } else if i < a.len() + b.len() {
            c.len() + (i - a.len())
        } else if i < a.len() + b.len() + c.len() {
            i - a.len() - b.len()
        } else {
            i
        };
    assert forall|i: int| 0 <= i < new_order.len() implies #[trigger] is_used(
        net,
        state,
        read,
        new_order[i],
    ) by {
        assert(is_used(net, state, read, old_order[place(i)]));
    }
    assert forall|i: int, j: int|
        0 <= i < new_order.len() && 0 <= j < new_order.len() && i != j implies new_order[i]
        != new_order[j] by {
        assert(new_order[i] == old_order[place(i)]);
        assert(new_order[j] == old_order[place(j)]);
    }
}

/// Different ids have different names.
proof fn lemma_names_differ(ids: Seq<Val>)
    requires
        ids.no_duplicates(),
    ensures
        names_of(ids).no_duplicates(),
{
    let names = names_of(ids);
    assert forall|i: int, j: int|
        0 <= i < names.len() && 0 <= j < names.len() && i != j implies names[i] != names[j] by {
        if names[i] == names[j] {
            law_id_names_are_distinct(ids[i] as nat, ids[j] as nat);
        }
    }
}

/// Reading the duplications that wait uses each id once.
proof fn lemma_dups_use(
    net: Seq<Node>,
    book: BookView,
    main: Reading,
    depth: nat,
    read: Seq<NodeId>,
    ids: Seq<Val>,
)
    requires
        goes_on(State::initial(), main.state),
        is_account(net, dup_nodes(), main.state, read),
        are_used(net, main.state, read, ids),
        binders(main.term) == names_of(ids),
    ensures
        read_dups(net, book, main, depth) matches Ok(all) ==> binders(all.term).no_duplicates(),
    decreases depth,
{
    if read_dups(net, book, main, depth) is Ok {
        let pending = main.state.pending;
        if pending.stack.len() == 0 {
            lemma_names_differ(ids);
        } else {
            let d = (depth - 1) as nat;
            let dup = pending.stack.last();
            let p1 = Port(dup, 1);
            let p2 = Port(dup, 2);
            let body = entered(net, Port(dup, 0));
            let state = mark(State { pending: pending.popped(), ..main.state }, Port(dup, 0));
            let read1 = read.push(dup);
            lemma_popped_is_accounted(net, dup_nodes(), main.state, read);
            lemma_linear_is_accounted(net, book, body, state, d, read1);
            let own = lemma_reading_claims(net, book, body, state, d);
            let val = linear::read(net, book, body, state, d)->Ok_0;
            let (fst, names1) = val.state.names.declared(net, p1)->0;
            let state1 = State { names: names1, ..val.state };
            let (snd, names2) = names1.declared(net, p2)->0;
            let state2 = State { names: names2, ..val.state };
            lemma_claim_from_earlier(net, main.state, state, val.state, own);
            lemma_uses_last(net, main.state, val.state, read, dup, ids);
            lemma_value_is_used(net, main.state, val.state, read, read1, ids, own);
            assert(read1[read.len() as int] == dup);
            assert(!read.contains(dup)) by {
                let all = read + pending.stack;
                assert(all[all.len() - 1] == dup);
                if read.contains(dup) {
                    assert(all[read.index_of(dup)] == dup);
                }
            }
            if val.state.names.ids.contains_key(p1) {
                lemma_copy_is_new(net, main.state, val.state, read, ids, own, p1);
            }
            if val.state.names.ids.contains_key(p2) {
                lemma_copy_is_new(net, main.state, val.state, read, ids, own, p2);
            }
            let fst_id = own_id(fst, names1, p1);
            let snd_id = own_id(snd, names2, p2);
            lemma_copy_is_used(net, val.state, read1, own + ids, p1);
            assert(names1.ids.contains_key(p2) ==> !(fst_id + (own + ids)).contains(
                names1.ids[p2],
            )) by {
                lemma_second_is_new(val.state.names, names1, p1, p2, fst_id, own + ids);
            }
            lemma_copy_is_used(net, state1, read1, fst_id + (own + ids), p2);
            lemma_used_in_any_order(net, state2, read1, own, fst_id, snd_id, ids);
            let term = TermView::Dup {
                fst,
                snd,
                val: Box::new(val.term),
                nxt: Box::new(main.term),
            };
            let more = Reading {
                term,
                valid: main.valid && val.valid,
                state: state2,
            };
            let ids1 = own + fst_id + snd_id + ids;
            assert(names_of(ids1) =~= names_of(own) + names_of(fst_id) + names_of(snd_id)
                + names_of(ids));
            lemma_declared_is_accounted(net, dup_nodes(), val.state, read1, p1);
            lemma_declared_is_accounted(net, dup_nodes(), state1, read1, p2);
            lemma_dups_use(net, book, more, d, read1, ids1);
        }
    }
}

/// No two binders of a linear readback share a name.
pub proof fn law_linear_binders_differ(net: Seq<Node>, book: BookView)
    ensures
        read_net(net, book) matches Ok(reading) ==> binders(reading.term).no_duplicates(),
{
    if let Ok(_) = read_net(net, book) {
        let depth = ample_depth(net);
        let root = entered(net, root_port());
        let start = State::initial();
        let none = Seq::<NodeId>::empty();
        assert(none + start.pending.stack =~= none);
        lemma_linear_is_accounted(net, book, root, start, depth, none);
        let ids = lemma_reading_claims(net, book, root, start, depth);
        let main = read(net, book, root, start, depth)->Ok_0;
        assert forall|i: int| 0 <= i < ids.len() implies #[trigger] is_used(
            net,
            main.state,
            none,
            ids[i],
        ) by {
            assert(is_claimed(net, start, main.state, ids[i]));
        }
        lemma_dups_use(net, book, main, depth, none, ids);
    }
}

} // verus!
