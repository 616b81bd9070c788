//! How variables are named.

use vstd::prelude::*;

use crate::book::BookView;
use crate::fix_names::{
    lemma_opening_decreases, lemma_rebound_keeps_size, rebound, refreshed, refreshed_pair,
    term_size, unopened,
};
use crate::linear;
use crate::linear::{mark, mark_node};
use crate::name::{id_name, law_id_names_are_distinct, Val};
use crate::net::{entered, root_port, Node, NodeId, NodeKind, Port, SlotId};
use crate::non_linear;
use crate::reading::{after, Reading, State};
use crate::state::{entered_dup, left_dup, no_dups, VarNamesView};
use crate::term::{DefId, LetPatView, TermView};

verus! {

/// The name of an optional binder.
pub open spec fn binder(nam: Option<Seq<char>>) -> Seq<Seq<char>> {
    match nam {
        None => Seq::empty(),
        Some(nam) => seq![nam],
    }
}

/// The names of the binders of a term, in the order in which `refreshed` renames them.
pub open spec fn binders(term: TermView) -> Seq<Seq<char>>
    decreases term,
{
    match term {
        TermView::Lam { nam, bod } => binder(nam) + binders(*bod),
        TermView::Chn { bod, .. } => binders(*bod),
        TermView::Let { val, nxt, .. } => binders(*val) + binders(*nxt),
        TermView::App { fun, arg } => binders(*fun) + binders(*arg),
        TermView::Tup { fst, snd } => binders(*fst) + binders(*snd),
        TermView::Dup { fst, snd, val, nxt } => binders(*val) + binder(fst) + binder(snd) + binders(
            *nxt,
        ),
        TermView::Sup { fst, snd } => binders(*fst) + binders(*snd),
        TermView::Opx { fst, snd, .. } => binders(*fst) + binders(*snd),
        TermView::Match { cond, zero, succ } => binders(*cond) + binders(*zero) + binders(*succ),
        _ => Seq::empty(),
    }
}

/// The names of the ids from `from` up to `to`.
pub open spec fn names_between(from: Val, to: Val) -> Seq<Seq<char>>
    recommends
        from <= to,
{
    Seq::new((to - from) as nat, |i: int| id_name((from + i) as nat))
}

/// Refreshing a term gives its binders the names of the ids it uses up, each id once and in
/// order.
pub proof fn law_refreshed_binders_are_fresh(
    term: TermView,
    next: Val,
    book: BookView,
    open: Set<DefId>,
)
    ensures
        refreshed(term, next, book, open) matches Some((fresh, end)) ==> next <= end && binders(
            fresh,
        ) == names_between(next, end),
    decreases unopened(open), term_size(term), 0nat,
{
    if let Some((fresh, end)) = refreshed(term, next, book, open) {
        match term {
            TermView::Lam { nam, bod } => {
                let (nam1, next1, bod1) = rebound(nam, next, *bod)->0;
                lemma_rebound_keeps_size(nam, next, *bod);
                law_refreshed_binders_are_fresh(bod1, next1, book, open);
                assert(binder(nam1) =~= names_between(next, next1));
                lemma_names_join(next, next1, end);
            },
            TermView::Ref { def_id } => {
                if book.is_generated(def_id) {
                    lemma_opening_decreases(open, def_id);
                    law_refreshed_binders_are_fresh(
                        book.bodies[def_id],
                        next,
                        book,
                        open.insert(def_id),
                    );
                } else {
                    assert(binders(fresh) =~= names_between(next, end));
                }
            },
            TermView::Dup { fst, snd, val, nxt } => {
                let (_, next1) = refreshed(*val, next, book, open)->0;
                let (fst1, next2, nxt2) = rebound(fst, next1, *nxt)->0;
                let (snd1, next3, nxt3) = rebound(snd, next2, nxt2)->0;
                lemma_rebound_keeps_size(fst, next1, *nxt);
                lemma_rebound_keeps_size(snd, next2, nxt2);
                law_refreshed_binders_are_fresh(*val, next, book, open);
                law_refreshed_binders_are_fresh(nxt3, next3, book, open);
                assert(binder(fst1) =~= names_between(next1, next2));
                assert(binder(snd1) =~= names_between(next2, next3));
                lemma_names_join(next, next1, next2);
                lemma_names_join(next, next2, next3);
                lemma_names_join(next, next3, end);
            },
            TermView::Chn { bod, .. } => law_refreshed_binders_are_fresh(*bod, next, book, open),
            TermView::App { fun, arg } => lemma_pair_binders(*fun, *arg, next, book, open),
            TermView::Sup { fst, snd } => lemma_pair_binders(*fst, *snd, next, book, open),
            TermView::Tup { fst, snd } => lemma_pair_binders(*fst, *snd, next, book, open),
            TermView::Opx { fst, snd, .. } => lemma_pair_binders(*fst, *snd, next, book, open),
            TermView::Match { cond, zero, succ } => {
                let (cond1, next1) = refreshed(*cond, next, book, open)->0;
                let (zero1, succ1, _) = refreshed_pair(*zero, *succ, next1, book, open)->0;
                law_refreshed_binders_are_fresh(*cond, next, book, open);
                lemma_pair_binders(*zero, *succ, next1, book, open);
                lemma_names_join(next, next1, end);
                assert(binders(fresh) =~= binders(cond1) + (binders(zero1) + binders(succ1)));
            },
            _ => {
                assert(binders(fresh) =~= names_between(next, end));
            },
        }
    }
}

/// The names up to an id and those from it on are all names.
proof fn lemma_names_join(from: Val, mid: Val, to: Val)
    requires
        from <= mid <= to,
    ensures
        names_between(from, mid) + names_between(mid, to) == names_between(from, to),
{
    assert(names_between(from, mid) + names_between(mid, to) =~= names_between(from, to));
}

/// Refreshing two terms in turn gives the binders of both fresh names.
proof fn lemma_pair_binders(
    fst: TermView,
    snd: TermView,
    next: Val,
    book: BookView,
    open: Set<DefId>,
)
    ensures
        refreshed_pair(fst, snd, next, book, open) matches Some((fst1, snd1, end)) ==> next <= end
            && binders(fst1) + binders(snd1) == names_between(next, end),
    decreases unopened(open), term_size(fst) + term_size(snd), 1nat,
{
    if let Some((fst1, snd1, end)) = refreshed_pair(fst, snd, next, book, open) {
        let (_, next1) = refreshed(fst, next, book, open)->0;
        law_refreshed_binders_are_fresh(fst, next, book, open);
        law_refreshed_binders_are_fresh(snd, next1, book, open);
        lemma_names_join(next, next1, end);
    }
}

/// Whether every id in use is below the next free one, and no two variables share one.
pub open spec fn is_sound(names: VarNamesView) -> bool {
    &&& forall|port: Port| #[trigger]
        names.ids.contains_key(port) ==> names.ids[port] < names.next
    &&& forall|p: Port, q: Port|
        #![trigger names.ids[p], names.ids[q]]
        names.ids.contains_key(p) && names.ids.contains_key(q) && p != q ==> names.ids[p]
            != names.ids[q]
}

/// Whether all variables that had a name keep it, and those that got one since have later ids.
pub open spec fn keeps_names(before: VarNamesView, after: VarNamesView) -> bool {
    &&& before.next <= after.next
    &&& forall|port: Port| #[trigger]
        after.ids.contains_key(port) ==> before.ids.contains_key(port) || before.next
            <= after.ids[port]
    &&& forall|port: Port| #[trigger]
        before.ids.contains_key(port) ==> after.ids.contains_key(port) && after.ids[port]
            == before.ids[port]
}

/// A variable that was named is named the same the next time, and nothing changes then.
pub proof fn law_variable_keeps_its_name(names: VarNamesView, port: Port)
    ensures
        names.named(port) matches Some((nam, names1)) ==> names1.named(port) == Some((nam, names1)),
{
}

/// Naming keeps names sound.
pub proof fn lemma_named_is_sound(names: VarNamesView, port: Port)
    requires
        is_sound(names),
    ensures
        names.named(port) matches Some((_, names1)) ==> is_sound(names1) && keeps_names(
            names,
            names1,
        ),
{
}

/// Reading refers to definitions without touching the names of variables.
proof fn lemma_reference_is_sound(names: VarNamesView, book: BookView, def_id: DefId)
    requires
        is_sound(names),
    ensures
        refreshed(TermView::Ref { def_id }, names.next, book, Set::empty()) matches Some((_, next))
            ==> {
            let names1 = VarNamesView { next, ..names };
            is_sound(names1) && keeps_names(names, names1)
        },
{
    law_refreshed_binders_are_fresh(TermView::Ref { def_id }, names.next, book, Set::empty());
}

/// The non-linear readback keeps the names of variables, and names different variables
/// differently.
pub proof fn law_non_linear_keeps_names(
    net: Seq<Node>,
    book: BookView,
    next: Port,
    scope: Map<u8, Seq<SlotId>>,
    state: State,
    depth: nat,
)
    requires
        is_sound(state.names),
    ensures
        non_linear::read(net, book, next, scope, state, depth) matches Ok(reading) ==> is_sound(
            reading.state.names,
        ) && keeps_names(state.names, reading.state.names),
    decreases depth, 0nat,
{
    if depth > 0 {
        let node = next.0;
        let slot = next.1;
        let main = entered(net, Port(node, 0));
        let aux1 = entered(net, Port(node, 1));
        let aux2 = entered(net, Port(node, 2));
        let d = (depth - 1) as nat;
        lemma_named_is_sound(state.names, next);
        match net[node as int].kind {
            NodeKind::Con => {
                if slot == 0 {
                    lemma_named_is_sound(state.names, Port(node, 1));
                    if let Some((_, names)) = state.names.declared(net, Port(node, 1)) {
                        law_non_linear_keeps_names(
                            net,
                            book,
                            aux2,
                            scope,
                            State { names, ..state },
                            d,
                        );
                    }
                } else if slot != 1 {
                    lemma_non_linear_two_keep_names(net, book, main, aux1, scope, state, d);
                }
            },
            NodeKind::Mat => {
                let cond = non_linear::read(net, book, main, scope, state, d);
                law_non_linear_keeps_names(net, book, main, scope, state, d);
                if cond is Ok {
                    let zero_port = entered(net, Port(aux1.0, 1));
                    let succ_port = entered(net, Port(aux1.0, 2));
                    lemma_non_linear_two_keep_names(
                        net,
                        book,
                        zero_port,
                        succ_port,
                        scope,
                        after(cond, state),
                        d,
                    );
                }
            },
            NodeKind::Ref { def_id } => lemma_reference_is_sound(state.names, book, def_id),
            NodeKind::Dup { lab } => {
                if slot != 0 {
                    let inner = entered_dup(scope, lab, slot);
                    law_non_linear_keeps_names(net, book, main, inner, state, d);
                } else if scope[lab].len() > 0 {
                    let chosen = entered(net, Port(node, scope[lab].last()));
                    law_non_linear_keeps_names(net, book, chosen, left_dup(scope, lab), state, d);
                } else {
                    lemma_non_linear_two_keep_names(net, book, aux1, aux2, scope, state, d);
                }
            },
            NodeKind::Op2 => {
                lemma_non_linear_two_keep_names(net, book, main, aux1, scope, state, d);
            },
            NodeKind::Tup => {
                lemma_non_linear_two_keep_names(net, book, aux1, aux2, scope, state, d);
            },
            _ => {},
        }
    }
}

/// Two readings in turn keep names.
proof fn lemma_non_linear_two_keep_names(
    net: Seq<Node>,
    book: BookView,
    fst: Port,
    snd: Port,
    scope: Map<u8, Seq<SlotId>>,
    state: State,
    depth: nat,
)
    requires
        is_sound(state.names),
    ensures
        non_linear::read(net, book, fst, scope, state, depth) matches Ok(one) ==> (
        non_linear::read(net, book, snd, scope, one.state, depth) matches Ok(two) ==> is_sound(
            two.state.names,
        ) && keeps_names(state.names, two.state.names)),
    decreases depth, 1nat,
{
    law_non_linear_keeps_names(net, book, fst, scope, state, depth);
    if let Ok(one) = non_linear::read(net, book, fst, scope, state, depth) {
        law_non_linear_keeps_names(net, book, snd, scope, one.state, depth);
    }
}

/// The linear readback keeps the names of variables, and names different variables differently.
pub proof fn law_linear_keeps_names(
    net: Seq<Node>,
    book: BookView,
    next: Port,
    state: State,
    depth: nat,
)
    requires
        is_sound(state.names),
    ensures
        linear::read(net, book, next, state, depth) matches Ok(reading) ==> is_sound(
            reading.state.names,
        ) && keeps_names(state.names, reading.state.names),
    decreases depth, 0nat,
{
    if depth > 0 && !state.seen.contains(next) {
        let node = next.0;
        let slot = next.1;
        let p0 = Port(node, 0);
        let p1 = Port(node, 1);
        let p2 = Port(node, 2);
        let main = entered(net, p0);
        let aux1 = entered(net, p1);
        let aux2 = entered(net, p2);
        let d = (depth - 1) as nat;
        let st = mark(state, next);
        lemma_named_is_sound(state.names, next);
        match net[node as int].kind {
            NodeKind::Con => {
                if slot == 0 {
                    lemma_named_is_sound(state.names, p1);
                    if let Some((_, names)) = state.names.declared(net, p1) {
                        let st1 = State { names, ..mark(st, p2) };
                        law_linear_keeps_names(net, book, aux2, st1, d);
                    }
                } else if slot != 1 {
                    let st1 = mark(mark(st, p0), p1);
                    lemma_linear_two_keep_names(net, book, main, aux1, st1, d);
                }
            },
            NodeKind::Mat => {
                let st1 = mark(mark(st, p0), p1);
                let cond = linear::read(net, book, main, st1, d);
                law_linear_keeps_names(net, book, main, st1, d);
                if cond is Ok {
                    let zero_port = entered(net, Port(aux1.0, 1));
                    let succ_port = entered(net, Port(aux1.0, 2));
                    let st2 = mark_node(after(cond, st1), aux1.0);
                    lemma_linear_two_keep_names(net, book, zero_port, succ_port, st2, d);
                }
            },
            NodeKind::Ref { def_id } => lemma_reference_is_sound(state.names, book, def_id),
            NodeKind::Dup { .. } => {
                let st1 = mark(mark(st, p1), p2);
                lemma_linear_two_keep_names(net, book, aux1, aux2, st1, d);
            },
            NodeKind::Op2 => {
                let st1 = mark(mark(st, p0), p1);
                lemma_linear_two_keep_names(net, book, main, aux1, st1, d);
            },
            NodeKind::Tup => {
                let st1 = mark(mark(st, p1), p2);
                lemma_linear_two_keep_names(net, book, aux1, aux2, st1, d);
            },
            _ => {},
        }
    }
}

/// Two readings in turn keep names.
proof fn lemma_linear_two_keep_names(
    net: Seq<Node>,
    book: BookView,
    fst: Port,
    snd: Port,
    state: State,
    depth: nat,
)
    requires
        is_sound(state.names),
    ensures
        linear::read(net, book, fst, state, depth) matches Ok(one) ==> (linear::read(
            net,
            book,
            snd,
            one.state,
            depth,
        ) matches Ok(two) ==> is_sound(two.state.names) && keeps_names(
            state.names,
            two.state.names,
        )),
    decreases depth, 1nat,
{
    law_linear_keeps_names(net, book, fst, state, depth);
    if let Ok(one) = linear::read(net, book, fst, state, depth) {
        law_linear_keeps_names(net, book, snd, one.state, depth);
    }
}

/// Reading the `let`s keeps names.
proof fn lemma_lets_keep_names(net: Seq<Node>, book: BookView, main: Reading, depth: nat)
    requires
        is_sound(main.state.names),
    ensures
        non_linear::read_lets(net, book, main, depth) matches Ok(all) ==> is_sound(all.state.names)
            && keeps_names(main.state.names, all.state.names),
    decreases depth,
{
    let lets = main.state.pending;
    if lets.stack.len() > 0 && depth > 0 {
        let d = (depth - 1) as nat;
        let tup = lets.stack.last();
        let port = entered(net, Port(tup, 0));
        let state = State { pending: lets.popped(), ..main.state };
        law_non_linear_keeps_names(net, book, port, no_dups(), state, d);
        if let Ok(val) = non_linear::read(net, book, port, no_dups(), state, d) {
            lemma_named_is_sound(val.state.names, Port(tup, 1));
            if let Some((fst, names1)) = val.state.names.declared(net, Port(tup, 1)) {
                lemma_named_is_sound(names1, Port(tup, 2));
                if let Some((snd, names2)) = names1.declared(net, Port(tup, 2)) {
                    let inner = Reading {
                        term: TermView::Let {
                            pat: LetPatView::Tup(fst, snd),
                            val: Box::new(val.term),
                            nxt: Box::new(main.term),
                        },
                        valid: main.valid && val.valid,
                        state: State { names: names2, ..val.state },
                    };
                    lemma_lets_keep_names(net, book, inner, d);
                }
            }
        }
    }
}

/// Reading the duplications keeps names.
proof fn lemma_dups_keep_names(net: Seq<Node>, book: BookView, main: Reading, depth: nat)
    requires
        is_sound(main.state.names),
    ensures
        linear::read_dups(net, book, main, depth) matches Ok(all) ==> is_sound(all.state.names)
            && keeps_names(main.state.names, all.state.names),
    decreases depth,
{
    let dups = main.state.pending;
    if dups.stack.len() > 0 && depth > 0 {
        let d = (depth - 1) as nat;
        let dup = dups.stack.last();
        let port = entered(net, Port(dup, 0));
        let state = mark(State { pending: dups.popped(), ..main.state }, Port(dup, 0));
        law_linear_keeps_names(net, book, port, state, d);
        if let Ok(val) = linear::read(net, book, port, state, d) {
            lemma_named_is_sound(val.state.names, Port(dup, 1));
            if let Some((fst, names1)) = val.state.names.declared(net, Port(dup, 1)) {
                lemma_named_is_sound(names1, Port(dup, 2));
                if let Some((snd, names2)) = names1.declared(net, Port(dup, 2)) {
                    let inner = Reading {
                        term: TermView::Dup {
                            fst,
                            snd,
                            val: Box::new(val.term),
                            nxt: Box::new(main.term),
                        },
                        valid: main.valid && val.valid,
                        state: State { names: names2, ..val.state },
                    };
                    lemma_dups_keep_names(net, book, inner, d);
                }
            }
        }
    }
}

/// In the non-linear readback of a net, variables that different ports bind have different
/// names.
pub proof fn law_non_linear_tells_variables_apart(
    net: Seq<Node>,
    book: BookView,
    depth: nat,
    p: Port,
    q: Port,
)
    requires
        p != q,
    ensures
        non_linear::read_net(net, book, depth) matches Ok(reading) ==> {
            let ids = reading.state.names.ids;
            ids.contains_key(p) && ids.contains_key(q) ==> id_name(ids[p] as nat) != id_name(
                ids[q] as nat,
            )
        },
{
    let port = entered(net, root_port());
    law_non_linear_keeps_names(net, book, port, no_dups(), State::initial(), depth);
    if let Ok(main) = non_linear::read(net, book, port, no_dups(), State::initial(), depth) {
        lemma_lets_keep_names(net, book, main, depth);
        if let Ok(all) = non_linear::read_net(net, book, depth) {
            lemma_sound_names_differ(all.state.names, p, q);
        }
    }
}

/// In the linear readback of a net, variables that different ports bind have different names.
pub proof fn law_linear_tells_variables_apart(net: Seq<Node>, book: BookView, p: Port, q: Port)
    requires
        p != q,
    ensures
        linear::read_net(net, book) matches Ok(reading) ==> {
            let ids = reading.state.names.ids;
            ids.contains_key(p) && ids.contains_key(q) ==> id_name(ids[p] as nat) != id_name(
                ids[q] as nat,
            )
        },
{
    let port = entered(net, root_port());
    let depth = linear::ample_depth(net);
    law_linear_keeps_names(net, book, port, State::initial(), depth);
    if let Ok(main) = linear::read(net, book, port, State::initial(), depth) {
        lemma_dups_keep_names(net, book, main, depth);
        if let Ok(all) = linear::read_net(net, book) {
            lemma_sound_names_differ(all.state.names, p, q);
        }
    }
}

/// Different variables with sound names have different names.
pub proof fn lemma_sound_names_differ(names: VarNamesView, p: Port, q: Port)
    requires
        is_sound(names),
        p != q,
    ensures
        names.ids.contains_key(p) && names.ids.contains_key(q) ==> id_name(names.ids[p] as nat)
            != id_name(names.ids[q] as nat),
{
    if id_name(names.ids[p] as nat) == id_name(names.ids[q] as nat) {
        law_id_names_are_distinct(names.ids[p] as nat, names.ids[q] as nat);
    }
}

/// Whether `nam` is what a binder calls the variable that `port` binds: nothing if the port is
/// linked to an eraser, its name on record otherwise.
pub open spec fn is_binder_of(
    net: Seq<Node>,
    names: VarNamesView,
    port: Port,
    nam: Option<Seq<char>>,
) -> bool {
    if net[entered(net, port).0 as int].kind == NodeKind::Era {
        nam is None
    } else {
        names.ids.contains_key(port) && nam == Some(id_name(names.ids[port] as nat))
    }
}

/// A declared variable is bound by its name, also when more variables are named.
pub proof fn lemma_declared_binds(
    net: Seq<Node>,
    names: VarNamesView,
    port: Port,
    later: VarNamesView,
)
    ensures
        names.declared(net, port) matches Some((nam, names1)) ==> keeps_names(names1, later)
            ==> is_binder_of(net, later, port, nam),
{
    if let Some((_, names1)) = names.declared(net, port) {
        if keeps_names(names1, later) && names1.ids.contains_key(port) {
            assert(later.ids.contains_key(port));
        }
    }
}

/// A lambda binds the variable of its port, by the name on record when the body has been read.
pub proof fn law_lambda_binds_its_variable(
    net: Seq<Node>,
    book: BookView,
    node: NodeId,
    scope: Map<u8, Seq<SlotId>>,
    state: State,
    depth: nat,
)
    requires
        is_sound(state.names),
        net[node as int].kind == NodeKind::Con,
    ensures
        non_linear::read(net, book, Port(node, 0), scope, state, depth) matches Ok(reading) ==> (
        reading.term matches TermView::Lam { nam, .. } && is_binder_of(
            net,
            reading.state.names,
            Port(node, 1),
            nam,
        )),
        !state.seen.contains(Port(node, 0)) ==> (linear::read(
            net,
            book,
            Port(node, 0),
            state,
            depth,
        ) matches Ok(reading) ==> (reading.term matches TermView::Lam { nam, .. } && is_binder_of(
            net,
            reading.state.names,
            Port(node, 1),
            nam,
        ))),
{
    if depth > 0 {
        let d = (depth - 1) as nat;
        let p1 = Port(node, 1);
        let aux2 = entered(net, Port(node, 2));
        lemma_named_is_sound(state.names, p1);
        if let Some((_, names)) = state.names.declared(net, p1) {
            let st = State { names, ..state };
            let marked = mark(mark(state, Port(node, 0)), Port(node, 2));
            let st1 = State { names, ..marked };
            law_non_linear_keeps_names(net, book, aux2, scope, st, d);
            law_linear_keeps_names(net, book, aux2, st1, d);
            if let Ok(bod) = non_linear::read(net, book, aux2, scope, st, d) {
                lemma_declared_binds(net, state.names, p1, bod.state.names);
            }
            if let Ok(bod) = linear::read(net, book, aux2, st1, d) {
                lemma_declared_binds(net, state.names, p1, bod.state.names);
            }
        }
    }
}

} // verus!
