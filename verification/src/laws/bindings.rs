//! Valid readbacks of whole nets depict the net, and bind every variable of a duplication or of
//! a pair exactly once.

use vstd::prelude::*;

use crate::book::BookView;
use crate::laws::faithfulness::{
    depicts, depicts_within, law_linear_reading_depicts, law_non_linear_reading_depicts,
    lemma_depiction_lasts, lemma_depiction_within_lasts,
};
use crate::laws::naming::{
    is_binder_of, is_sound, keeps_names, law_linear_keeps_names, law_non_linear_keeps_names,
    lemma_declared_binds, lemma_named_is_sound,
};
use crate::linear;
use crate::linear::{ample_depth, mark, mark_node};
use crate::net::{entered, root_port, Node, NodeId, NodeKind, Port, SlotId};
use crate::non_linear;
use crate::reading::{Reading, State};
use crate::state::{entered_dup, left_dup, no_dups, VarNamesView};
use crate::term::{LetPatView, TermView};

verus! {

/// The kind of nodes that the linear readback keeps to be read later.
pub open spec fn dup_nodes() -> spec_fn(NodeKind) -> bool {
    |kind: NodeKind| kind is Dup
}

/// The kind of nodes that the non-linear readback keeps to be read later.
pub open spec fn tup_nodes() -> spec_fn(NodeKind) -> bool {
    |kind: NodeKind| kind is Tup
}

/// Whether `nodes` are all of one kind, none of them occurs twice, and every named variable that
/// a node of that kind binds is bound by one of them.
pub open spec fn binds_all(
    net: Seq<Node>,
    kind: spec_fn(NodeKind) -> bool,
    names: VarNamesView,
    nodes: Seq<NodeId>,
) -> bool {
    &&& nodes.no_duplicates()
    &&& forall|node: NodeId| #[trigger] nodes.contains(node) ==> kind(net[node as int].kind)
    &&& forall|port: Port| #[trigger]
        names.ids.contains_key(port) && kind(net[port.0 as int].kind) ==> nodes.contains(port.0)
}

/// Whether the nodes that were read and those that wait are those that were ever listed, and bind
/// every variable that they should.
pub open spec fn is_account(
    net: Seq<Node>,
    kind: spec_fn(NodeKind) -> bool,
    state: State,
    read: Seq<NodeId>,
) -> bool {
    let all = read + state.pending.stack;
    &&& binds_all(net, kind, state.names, all)
    &&& forall|node: NodeId| #[trigger] state.pending.listed.contains(node) <==> all.contains(node)
}

/// Listing a node and naming one of its variables keeps an account.
proof fn lemma_variable_is_accounted(
    net: Seq<Node>,
    kind: spec_fn(NodeKind) -> bool,
    state: State,
    read: Seq<NodeId>,
    port: Port,
)
    requires
        is_account(net, kind, state, read),
        kind(net[port.0 as int].kind),
    ensures
        state.names.named(port) matches Some((_, names)) ==> is_account(
            net,
            kind,
            State { names, pending: state.pending.noted(port.0), ..state },
            read,
        ),
{
    if let Some((_, names)) = state.names.named(port) {
        let pending = state.pending.noted(port.0);
        let all = read + state.pending.stack;
        let all1 = read + pending.stack;
        if !state.pending.listed.contains(port.0) {
            assert(all1 =~= all.push(port.0));
            assert(!all.contains(port.0));
            assert(all1[all.len() as int] == port.0);
            assert forall|node: NodeId| #[trigger] all1.contains(node) <==> all.contains(node)
                || node == port.0 by {
                if all.contains(node) {
                    let i = all.index_of(node);
                    assert(all1[i] == node);
                }
            }
        }
    }
}

/// Naming a variable of a node of another kind keeps an account.
proof fn lemma_other_is_accounted(
    net: Seq<Node>,
    kind: spec_fn(NodeKind) -> bool,
    state: State,
    read: Seq<NodeId>,
    port: Port,
)
    requires
        is_account(net, kind, state, read),
        !kind(net[port.0 as int].kind),
    ensures
        state.names.named(port) matches Some((_, names)) ==> is_account(
            net,
            kind,
            State { names, ..state },
            read,
        ),
{
}

/// Declaring a variable of a node that was read keeps an account.
pub proof fn lemma_declared_is_accounted(
    net: Seq<Node>,
    kind: spec_fn(NodeKind) -> bool,
    state: State,
    read: Seq<NodeId>,
    port: Port,
)
    requires
        is_account(net, kind, state, read),
        read.len() > 0,
        read.last() == port.0,
    ensures
        state.names.declared(net, port) matches Some((_, names)) ==> is_account(
            net,
            kind,
            State { names, ..state },
            read,
        ),
{
    let all = read + state.pending.stack;
    assert(all[read.len() - 1] == port.0);
    assert(all.contains(port.0));
    assert(state.pending.noted(port.0) == state.pending);
    lemma_variable_is_accounted(net, kind, state, read, port);
}

/// Reading the node that waits next keeps an account.
pub proof fn lemma_popped_is_accounted(
    net: Seq<Node>,
    kind: spec_fn(NodeKind) -> bool,
    state: State,
    read: Seq<NodeId>,
)
    requires
        is_account(net, kind, state, read),
        state.pending.stack.len() > 0,
    ensures
        is_account(
            net,
            kind,
            State { pending: state.pending.popped(), ..state },
            read.push(state.pending.stack.last()),
        ),
        state.pending.listed.contains(state.pending.stack.last()),
        kind(net[state.pending.stack.last() as int].kind),
{
    let stack = state.pending.stack;
    let last = stack.last();
    let all = read + stack;
    let all1 = read.push(last) + stack.drop_last();
    assert(all[all.len() - 1] == last);
    assert(all.contains(last));
    // Where each node of the one list stands in the other.
    let there = |i: int|
        if i == all.len() - 1 {
            read.len() as int
        } else if i >= read.len() {
            i + 1
        } else {
            i
        };
    let back = |i: int|
        if i == read.len() {
            all.len() - 1
        } else if i > read.len() {
            i - 1
        } else {
            i
        };
    assert forall|node: NodeId| #[trigger] all1.contains(node) <==> all.contains(node) by {
        if all.contains(node) {
            let i = all.index_of(node);
            assert(all1[there(i)] == node);
        }
        if all1.contains(node) {
            let i = all1.index_of(node);
            assert(all[back(i)] == node);
        }
    }
    assert forall|i: int, j: int|
        0 <= i < all1.len() && 0 <= j < all1.len() && i != j implies all1[i] != all1[j] by {
        assert(all1[i] == all[back(i)]);
        assert(all1[j] == all[back(j)]);
    }
}

/// The linear readback keeps an account of the duplications it meets.
pub proof fn lemma_linear_is_accounted(
    net: Seq<Node>,
    book: BookView,
    next: Port,
    state: State,
    depth: nat,
    read: Seq<NodeId>,
)
    requires
        is_account(net, dup_nodes(), state, read),
    ensures
        linear::read(net, book, next, state, depth) matches Ok(reading) ==> is_account(
            net,
            dup_nodes(),
            reading.state,
            read,
        ),
    decreases depth, 0nat,
{
    if depth > 0 && !state.seen.contains(next) {
        let node = next.0;
        let slot = next.1;
        let p0 = Port(node, 0);
        let p1 = Port(node, 1);
        let p2 = Port(node, 2);
        let main = entered(net, p0);
        let aux1 = entered(net, p1);
        let aux2 = entered(net, p2);
        let d = (depth - 1) as nat;
        let st = mark(state, next);
        match net[node as int].kind {
            NodeKind::Con => {
                if slot == 0 {
                    lemma_other_is_accounted(net, dup_nodes(), st, read, p1);
                    if let Some((_, names)) = st.names.declared(net, p1) {
                        let st1 = State { names, ..mark(st, p2) };
                        lemma_linear_is_accounted(net, book, aux2, st1, d, read);
                    }
                } else if slot == 1 {
                    lemma_other_is_accounted(net, dup_nodes(), st, read, next);
                } else {
                    let st1 = mark(mark(st, p0), p1);
                    lemma_linear_two_are_accounted(net, book, main, aux1, st1, d, read);
                }
            },
            NodeKind::Mat => {
                let st1 = mark(mark(st, p0), p1);
                lemma_linear_is_accounted(net, book, main, st1, d, read);
                if let Ok(cond) = linear::read(net, book, main, st1, d) {
                    let zero_port = entered(net, Port(aux1.0, 1));
                    let succ_port = entered(net, Port(aux1.0, 2));
                    let st2 = mark_node(cond.state, aux1.0);
                    lemma_linear_two_are_accounted(net, book, zero_port, succ_port, st2, d, read);
                }
            },
            NodeKind::Dup { .. } => {
                if slot == 0 {
                    let st1 = mark(mark(st, p1), p2);
                    lemma_linear_two_are_accounted(net, book, aux1, aux2, st1, d, read);
                } else {
                    lemma_variable_is_accounted(net, dup_nodes(), st, read, next);
                }
            },
            NodeKind::Op2 => {
                let st1 = mark(mark(st, p0), p1);
                lemma_linear_two_are_accounted(net, book, main, aux1, st1, d, read);
            },
            NodeKind::Tup => {
                let st1 = mark(mark(st, p1), p2);
                lemma_linear_two_are_accounted(net, book, aux1, aux2, st1, d, read);
            },
            _ => {},
        }
    }
}

/// Two readings in turn keep an account.
proof fn lemma_linear_two_are_accounted(
    net: Seq<Node>,
    book: BookView,
    fst: Port,
    snd: Port,
    state: State,
    depth: nat,
    read: Seq<NodeId>,
)
    requires
        is_account(net, dup_nodes(), state, read),
    ensures
        linear::read(net, book, fst, state, depth) matches Ok(one) ==> (linear::read(
            net,
            book,
            snd,
            one.state,
            depth,
        ) matches Ok(two) ==> is_account(net, dup_nodes(), two.state, read)),
    decreases depth, 1nat,
{
    lemma_linear_is_accounted(net, book, fst, state, depth, read);
    if let Ok(one) = linear::read(net, book, fst, state, depth) {
        lemma_linear_is_accounted(net, book, snd, one.state, depth, read);
    }
}

/// Whether `term` depicts the net from its root on, in the scope of the duplications `dups`, the
/// outermost last.
pub open spec fn depicts_with_dups(
    net: Seq<Node>,
    book: BookView,
    names: VarNamesView,
    dups: Seq<NodeId>,
    term: TermView,
    depth: nat,
) -> bool
    decreases dups.len(),
{
    if dups.len() == 0 {
        depicts(net, book, names, entered(net, root_port()), term, depth)
    } else {
        let dup = dups.last();
        &&& term matches TermView::Dup { fst, snd, val, nxt }
        &&& is_binder_of(net, names, Port(dup, 1), fst)
        &&& is_binder_of(net, names, Port(dup, 2), snd)
        &&& depicts(net, book, names, entered(net, Port(dup, 0)), *val, depth)
        &&& depicts_with_dups(net, book, names, dups.drop_last(), *nxt, depth)
    }
}

/// A binder stays one when more variables are named.
pub proof fn lemma_binder_lasts(
    net: Seq<Node>,
    names: VarNamesView,
    later: VarNamesView,
    port: Port,
    nam: Option<Seq<char>>,
)
    requires
        keeps_names(names, later),
        is_binder_of(net, names, port, nam),
    ensures
        is_binder_of(net, later, port, nam),
{
}

/// A depiction with duplications stays one when more variables are named.
proof fn lemma_dups_last(
    net: Seq<Node>,
    book: BookView,
    names: VarNamesView,
    later: VarNamesView,
    dups: Seq<NodeId>,
    term: TermView,
    depth: nat,
)
    requires
        keeps_names(names, later),
        depicts_with_dups(net, book, names, dups, term, depth),
    ensures
        depicts_with_dups(net, book, later, dups, term, depth),
    decreases dups.len(),
{
    if dups.len() == 0 {
        let root = entered(net, root_port());
        lemma_depiction_lasts(net, book, names, later, root, term, depth, depth);
    } else if let TermView::Dup { fst, snd, val, nxt } = term {
        let dup = dups.last();
        let main = entered(net, Port(dup, 0));
        lemma_binder_lasts(net, names, later, Port(dup, 1), fst);
        lemma_binder_lasts(net, names, later, Port(dup, 2), snd);
        lemma_depiction_lasts(net, book, names, later, main, *val, depth, depth);
        lemma_dups_last(net, book, names, later, dups.drop_last(), *nxt, depth);
    }
}

/// Reading the duplications that wait depicts them, and leaves none out.
proof fn lemma_dups_depict(
    net: Seq<Node>,
    book: BookView,
    main: Reading,
    depth: nat,
    read: Seq<NodeId>,
    most: nat,
)
    requires
        is_sound(main.state.names),
        is_account(net, dup_nodes(), main.state, read),
        depth <= most,
        main.valid ==> depicts_with_dups(net, book, main.state.names, read, main.term, most),
    ensures
        linear::read_dups(net, book, main, depth) matches Ok(all) ==> all.valid ==> exists|
            dups: Seq<NodeId>,
        |
            {
                &&& binds_all(net, dup_nodes(), all.state.names, dups)
                &&& dups.to_set() == all.state.pending.listed
                &&& #[trigger] depicts_with_dups(net, book, all.state.names, dups, all.term, most)
            },
    decreases depth,
{
    if let Ok(all) = linear::read_dups(net, book, main, depth) {
        let pending = main.state.pending;
        if pending.stack.len() == 0 {
            assert(read + pending.stack =~= read);
            assert(read.to_set() =~= pending.listed);
        } else {
            let d = (depth - 1) as nat;
            let dup = pending.stack.last();
            let p1 = Port(dup, 1);
            let p2 = Port(dup, 2);
            let body = entered(net, Port(dup, 0));
            let state = mark(State { pending: pending.popped(), ..main.state }, Port(dup, 0));
            let read1 = read.push(dup);
            lemma_popped_is_accounted(net, dup_nodes(), main.state, read);
            lemma_linear_is_accounted(net, book, body, state, d, read1);
            law_linear_keeps_names(net, book, body, state, d);
            law_linear_reading_depicts(net, book, body, state, d);
            let val = linear::read(net, book, body, state, d)->Ok_0;
            let (fst, names1) = val.state.names.declared(net, p1)->0;
            let (snd, names2) = names1.declared(net, p2)->0;
            lemma_named_is_sound(val.state.names, p1);
            lemma_named_is_sound(names1, p2);
            let term = TermView::Dup {
                fst,
                snd,
                val: Box::new(val.term),
                nxt: Box::new(main.term),
            };
            let more = Reading {
                term,
                valid: main.valid && val.valid,
                state: State { names: names2, ..val.state },
            };
            assert(is_account(net, dup_nodes(), more.state, read1)) by {
                lemma_declared_is_accounted(net, dup_nodes(), val.state, read1, p1);
                let state1 = State { names: names1, ..val.state };
                lemma_declared_is_accounted(net, dup_nodes(), state1, read1, p2);
            }
            if more.valid {
                lemma_declared_binds(net, val.state.names, p1, names2);
                lemma_declared_binds(net, names1, p2, names2);
                lemma_depiction_lasts(net, book, val.state.names, names2, body, val.term, d, most);
                lemma_dups_last(net, book, main.state.names, names2, read, main.term, most);
                assert(read1.drop_last() =~= read);
                assert(depicts_with_dups(net, book, names2, read1, term, most));
            }
            lemma_dups_depict(net, book, more, d, read1, most);
        }
    }
}

/// A valid linear readback depicts the net: the duplications that were listed can be put in an
/// order, without repetition, they bind every variable of a duplication, and the term is the
/// depiction of the net from its root on in the scope of these duplications.
pub proof fn law_linear_readback_depicts(net: Seq<Node>, book: BookView)
    ensures
        linear::read_net(net, book) matches Ok(reading) ==> reading.valid ==> exists|
            dups: Seq<NodeId>,
        |
            {
                &&& binds_all(net, dup_nodes(), reading.state.names, dups)
                &&& dups.to_set() == reading.state.pending.listed
                &&& #[trigger] depicts_with_dups(
                    net,
                    book,
                    reading.state.names,
                    dups,
                    reading.term,
                    ample_depth(net),
                )
            },
{
    if let Ok(_) = linear::read_net(net, book) {
        let depth = ample_depth(net);
        let root = entered(net, root_port());
        let start = State::initial();
        let none = Seq::<NodeId>::empty();
        assert(none + start.pending.stack =~= none);
        lemma_linear_is_accounted(net, book, root, start, depth, none);
        law_linear_keeps_names(net, book, root, start, depth);
        law_linear_reading_depicts(net, book, root, start, depth);
        let main = linear::read(net, book, root, start, depth)->Ok_0;
        lemma_dups_depict(net, book, main, depth, none, depth);
    }
}

/// The non-linear readback keeps an account of the pairs it takes apart.
pub proof fn lemma_non_linear_is_accounted(
    net: Seq<Node>,
    book: BookView,
    next: Port,
    scope: Map<u8, Seq<SlotId>>,
    state: State,
    depth: nat,
    read: Seq<NodeId>,
)
    requires
        is_account(net, tup_nodes(), state, read),
    ensures
        non_linear::read(net, book, next, scope, state, depth) matches Ok(reading) ==> is_account(
            net,
            tup_nodes(),
            reading.state,
            read,
        ),
    decreases depth, 0nat,
{
    if depth > 0 {
        let node = next.0;
        let slot = next.1;
        let p1 = Port(node, 1);
        let main = entered(net, Port(node, 0));
        let aux1 = entered(net, p1);
        let aux2 = entered(net, Port(node, 2));
        let d = (depth - 1) as nat;
        match net[node as int].kind {
            NodeKind::Con => {
                if slot == 0 {
                    lemma_other_is_accounted(net, tup_nodes(), state, read, p1);
                    if let Some((_, names)) = state.names.declared(net, p1) {
                        let st = State { names, ..state };
                        lemma_non_linear_is_accounted(net, book, aux2, scope, st, d, read);
                    }
                } else if slot == 1 {
                    lemma_other_is_accounted(net, tup_nodes(), state, read, next);
                } else {
                    lemma_non_linear_two_are_accounted(
                        net,
                        book,
                        main,
                        aux1,
                        scope,
                        state,
                        d,
                        read,
                    );
                }
            },
            NodeKind::Mat => {
                lemma_non_linear_is_accounted(net, book, main, scope, state, d, read);
                if let Ok(cond) = non_linear::read(net, book, main, scope, state, d) {
                    let zero_port = entered(net, Port(aux1.0, 1));
                    let succ_port = entered(net, Port(aux1.0, 2));
                    lemma_non_linear_two_are_accounted(
                        net,
                        book,
                        zero_port,
                        succ_port,
                        scope,
                        cond.state,
                        d,
                        read,
                    );
                }
            },
            NodeKind::Dup { lab } => {
                if slot != 0 {
                    let inner = entered_dup(scope, lab, slot);
                    lemma_non_linear_is_accounted(net, book, main, inner, state, d, read);
                } else if scope[lab].len() > 0 {
                    let outer = left_dup(scope, lab);
                    let chosen = entered(net, Port(node, scope[lab].last()));
                    lemma_non_linear_is_accounted(net, book, chosen, outer, state, d, read);
                } else {
                    lemma_non_linear_two_are_accounted(
                        net,
                        book,
                        aux1,
                        aux2,
                        scope,
                        state,
                        d,
                        read,
                    );
                }
            },
            NodeKind::Op2 => {
                lemma_non_linear_two_are_accounted(net, book, main, aux1, scope, state, d, read);
            },
            NodeKind::Tup => {
                if slot == 0 {
                    lemma_non_linear_two_are_accounted(
                        net,
                        book,
                        aux1,
                        aux2,
                        scope,
                        state,
                        d,
                        read,
                    );
                } else {
                    lemma_variable_is_accounted(net, tup_nodes(), state, read, next);
                }
            },
            _ => {},
        }
    }
}

/// Two readings in turn keep an account.
proof fn lemma_non_linear_two_are_accounted(
    net: Seq<Node>,
    book: BookView,
    fst: Port,
    snd: Port,
    scope: Map<u8, Seq<SlotId>>,
    state: State,
    depth: nat,
    read: Seq<NodeId>,
)
    requires
        is_account(net, tup_nodes(), state, read),
    ensures
        non_linear::read(net, book, fst, scope, state, depth) matches Ok(one) ==> (
        non_linear::read(net, book, snd, scope, one.state, depth) matches Ok(two) ==> is_account(
            net,
            tup_nodes(),
            two.state,
            read,
        )),
    decreases depth, 1nat,
{
    lemma_non_linear_is_accounted(net, book, fst, scope, state, depth, read);
    if let Ok(one) = non_linear::read(net, book, fst, scope, state, depth) {
        lemma_non_linear_is_accounted(net, book, snd, scope, one.state, depth, read);
    }
}

/// Whether `term` depicts the net from its root on, with superpositions decayed where possible
/// and in the scope of a `let` for each of `tups`, the outermost last.
pub open spec fn depicts_with_lets(
    net: Seq<Node>,
    book: BookView,
    names: VarNamesView,
    tups: Seq<NodeId>,
    term: TermView,
    depth: nat,
) -> bool
    decreases tups.len(),
{
    if tups.len() == 0 {
        depicts_within(net, book, names, entered(net, root_port()), no_dups(), term, depth)
    } else {
        let tup = tups.last();
        let main = entered(net, Port(tup, 0));
        &&& term matches TermView::Let { pat: LetPatView::Tup(fst, snd), val, nxt }
        &&& is_binder_of(net, names, Port(tup, 1), fst)
        &&& is_binder_of(net, names, Port(tup, 2), snd)
        &&& depicts_within(net, book, names, main, no_dups(), *val, depth)
        &&& depicts_with_lets(net, book, names, tups.drop_last(), *nxt, depth)
    }
}

/// A depiction with `let`s stays one when more variables are named.
proof fn lemma_lets_last(
    net: Seq<Node>,
    book: BookView,
    names: VarNamesView,
    later: VarNamesView,
    tups: Seq<NodeId>,
    term: TermView,
    depth: nat,
)
    requires
        keeps_names(names, later),
        depicts_with_lets(net, book, names, tups, term, depth),
    ensures
        depicts_with_lets(net, book, later, tups, term, depth),
    decreases tups.len(),
{
    let scope = no_dups();
    if tups.len() == 0 {
        let root = entered(net, root_port());
        lemma_depiction_within_lasts(net, book, names, later, root, scope, term, depth, depth);
    } else if let TermView::Let { pat: LetPatView::Tup(fst, snd), val, nxt } = term {
        let tup = tups.last();
        let main = entered(net, Port(tup, 0));
        lemma_binder_lasts(net, names, later, Port(tup, 1), fst);
        lemma_binder_lasts(net, names, later, Port(tup, 2), snd);
        lemma_depiction_within_lasts(net, book, names, later, main, scope, *val, depth, depth);
        lemma_lets_last(net, book, names, later, tups.drop_last(), *nxt, depth);
    }
}

/// Reading the pairs that wait depicts them, and leaves none out.
proof fn lemma_lets_depict(
    net: Seq<Node>,
    book: BookView,
    main: Reading,
    depth: nat,
    read: Seq<NodeId>,
    most: nat,
)
    requires
        is_sound(main.state.names),
        is_account(net, tup_nodes(), main.state, read),
        depth <= most,
        main.valid ==> depicts_with_lets(net, book, main.state.names, read, main.term, most),
    ensures
        non_linear::read_lets(net, book, main, depth) matches Ok(all) ==> all.valid ==> exists|
            tups: Seq<NodeId>,
        |
            {
                &&& binds_all(net, tup_nodes(), all.state.names, tups)
                &&& tups.to_set() == all.state.pending.listed
                &&& #[trigger] depicts_with_lets(net, book, all.state.names, tups, all.term, most)
            },
    decreases depth,
{
    if let Ok(all) = non_linear::read_lets(net, book, main, depth) {
        let pending = main.state.pending;
        if pending.stack.len() == 0 {
            assert(read + pending.stack =~= read);
            assert(read.to_set() =~= pending.listed);
        } else {
            let d = (depth - 1) as nat;
            let tup = pending.stack.last();
            let p1 = Port(tup, 1);
            let p2 = Port(tup, 2);
            let body = entered(net, Port(tup, 0));
            let scope = no_dups();
            let state = State { pending: pending.popped(), ..main.state };
            let read1 = read.push(tup);
            lemma_popped_is_accounted(net, tup_nodes(), main.state, read);
            lemma_non_linear_is_accounted(net, book, body, scope, state, d, read1);
            law_non_linear_keeps_names(net, book, body, scope, state, d);
            law_non_linear_reading_depicts(net, book, body, scope, state, d);
            let val = non_linear::read(net, book, body, scope, state, d)->Ok_0;
            let (fst, names1) = val.state.names.declared(net, p1)->0;
            let (snd, names2) = names1.declared(net, p2)->0;
            lemma_named_is_sound(val.state.names, p1);
            lemma_named_is_sound(names1, p2);
            let term = TermView::Let {
                pat: LetPatView::Tup(fst, snd),
                val: Box::new(val.term),
                nxt: Box::new(main.term),
            };
            let more = Reading {
                term,
                valid: main.valid && val.valid,
                state: State { names: names2, ..val.state },
            };
            assert(is_account(net, tup_nodes(), more.state, read1)) by {
                lemma_declared_is_accounted(net, tup_nodes(), val.state, read1, p1);
                let state1 = State { names: names1, ..val.state };
                lemma_declared_is_accounted(net, tup_nodes(), state1, read1, p2);
            }
            if more.valid {
                lemma_declared_binds(net, val.state.names, p1, names2);
                lemma_declared_binds(net, names1, p2, names2);
                lemma_depiction_within_lasts(
                    net,
                    book,
                    val.state.names,
                    names2,
                    body,
                    scope,
                    val.term,
                    d,
                    most,
                );
                lemma_lets_last(net, book, main.state.names, names2, read, main.term, most);
                assert(read1.drop_last() =~= read);
                assert(depicts_with_lets(net, book, names2, read1, term, most));
            }
            lemma_lets_depict(net, book, more, d, read1, most);
        }
    }
}

/// A valid non-linear readback depicts the net: the pairs that were listed can be put in an order,
/// without repetition, they bind every variable of a pair, and the term is the depiction of the
/// net from its root on, with superpositions decayed where possible, in the scope of a `let` for
/// each of these pairs.
pub proof fn law_non_linear_readback_depicts(net: Seq<Node>, book: BookView, depth: nat)
    ensures
        non_linear::read_net(net, book, depth) matches Ok(reading) ==> reading.valid ==> exists|
            tups: Seq<NodeId>,
        |
            {
                &&& binds_all(net, tup_nodes(), reading.state.names, tups)
                &&& tups.to_set() == reading.state.pending.listed
                &&& #[trigger] depicts_with_lets(
                    net,
                    book,
                    reading.state.names,
                    tups,
                    reading.term,
                    depth,
                )
            },
{
    if let Ok(_) = non_linear::read_net(net, book, depth) {
        let root = entered(net, root_port());
        let scope = no_dups();
        let start = State::initial();
        let none = Seq::<NodeId>::empty();
        assert(none + start.pending.stack =~= none);
        lemma_non_linear_is_accounted(net, book, root, scope, start, depth, none);
        law_non_linear_keeps_names(net, book, root, scope, start, depth);
        law_non_linear_reading_depicts(net, book, root, scope, start, depth);
        let main = non_linear::read(net, book, root, scope, start, depth)->Ok_0;
        lemma_lets_depict(net, book, main, depth, none, depth);
    }
}

} // verus!
