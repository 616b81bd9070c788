//! What terms read from a net are made of.

use vstd::prelude::*;

use crate::book::BookView;
use crate::fix_names::{
    lemma_opening_decreases, lemma_rebound_keeps_size, rebound, refreshed, refreshed_pair,
    term_size, unopened,
};
use crate::linear;
use crate::linear::{ellipsis, mark, mark_node};
use crate::name::{id_name, letter, Val};
use crate::net::{entered, root_port, Node, NodeKind, Port, SlotId};
use crate::non_linear;
use crate::reading::{after, applied, variable, Reading, State};
use crate::state::{entered_dup, left_dup, no_dups};
use crate::term::{substituted, DefId, LetPatView, TermView};

verus! {

/// Something that a term may hold.
pub enum Part {
    /// A `let`.
    Let,
    /// A duplication.
    Dup,
    /// A function whose variable may also occur outside its body.
    Chn,
    /// A use of the variable of such a function.
    Lnk,
    /// A variable with a given name.
    Var(Seq<char>),
    /// A reference to a generated definition of a book.
    GeneratedRef(BookView),
}

/// Whether the topmost node of `term` is of the given kind.
pub open spec fn is_part(term: TermView, part: Part) -> bool {
    match part {
        Part::Let => term is Let,
        Part::Dup => term is Dup,
        Part::Chn => term is Chn,
        Part::Lnk => term is Lnk,
        Part::Var(name) => term == (TermView::Var { nam: name }),
        Part::GeneratedRef(book) => term matches TermView::Ref { def_id } && book.is_generated(
            def_id,
        ),
    }
}

/// Whether no node of `term` is of the given kind.
pub open spec fn lacks(term: TermView, part: Part) -> bool
    decreases term,
{
    &&& !is_part(term, part)
    &&& match term {
        TermView::Lam { bod, .. } => lacks(*bod, part),
        TermView::Chn { bod, .. } => lacks(*bod, part),
        TermView::Let { val, nxt, .. } => lacks(*val, part) && lacks(*nxt, part),
        TermView::App { fun, arg } => lacks(*fun, part) && lacks(*arg, part),
        TermView::Tup { fst, snd } => lacks(*fst, part) && lacks(*snd, part),
        TermView::Dup { val, nxt, .. } => lacks(*val, part) && lacks(*nxt, part),
        TermView::Sup { fst, snd } => lacks(*fst, part) && lacks(*snd, part),
        TermView::Opx { fst, snd, .. } => lacks(*fst, part) && lacks(*snd, part),
        TermView::Match { cond, zero, succ } => lacks(*cond, part) && lacks(*zero, part) && lacks(
            *succ,
            part,
        ),
        _ => true,
    }
}

/// Whether no definition that may be inlined, that is no generated one, holds a node of the given
/// kind.
pub open spec fn book_lacks(book: BookView, part: Part) -> bool {
    forall|def_id: DefId| #[trigger]
        book.bodies.contains_key(def_id) && book.is_generated(def_id) ==> lacks(
            book.bodies[def_id],
            part,
        )
}

/// Whether `part` is not a variable with a generated name.
pub open spec fn is_not_generated_name(part: Part) -> bool {
    forall|id: nat| part != Part::Var(#[trigger] id_name(id))
}

/// Renaming a variable to a generated name adds no node of another kind.
proof fn lemma_renaming_adds_nothing(term: TermView, from: Seq<char>, id: nat, part: Part)
    requires
        lacks(term, part),
        is_not_generated_name(part),
    ensures
        lacks(substituted(term, from, TermView::Var { nam: id_name(id) }), part),
    decreases term,
{
    assert(part != Part::Var(id_name(id)));
    match term {
        TermView::Lam { bod, .. } => lemma_renaming_adds_nothing(*bod, from, id, part),
        TermView::Chn { bod, .. } => lemma_renaming_adds_nothing(*bod, from, id, part),
        TermView::Let { val, nxt, .. } => {
            lemma_renaming_adds_nothing(*val, from, id, part);
            lemma_renaming_adds_nothing(*nxt, from, id, part);
        },
        TermView::App { fun, arg } => {
            lemma_renaming_adds_nothing(*fun, from, id, part);
            lemma_renaming_adds_nothing(*arg, from, id, part);
        },
        TermView::Tup { fst, snd } => {
            lemma_renaming_adds_nothing(*fst, from, id, part);
            lemma_renaming_adds_nothing(*snd, from, id, part);
        },
        TermView::Dup { val, nxt, .. } => {
            lemma_renaming_adds_nothing(*val, from, id, part);
            lemma_renaming_adds_nothing(*nxt, from, id, part);
        },
        TermView::Sup { fst, snd } => {
            lemma_renaming_adds_nothing(*fst, from, id, part);
            lemma_renaming_adds_nothing(*snd, from, id, part);
        },
        TermView::Opx { fst, snd, .. } => {
            lemma_renaming_adds_nothing(*fst, from, id, part);
            lemma_renaming_adds_nothing(*snd, from, id, part);
        },
        TermView::Match { cond, zero, succ } => {
            lemma_renaming_adds_nothing(*cond, from, id, part);
            lemma_renaming_adds_nothing(*zero, from, id, part);
            lemma_renaming_adds_nothing(*succ, from, id, part);
        },
        _ => {},
    }
}

/// Renaming a binder adds no node of another kind to its scope.
proof fn lemma_rebound_adds_nothing(
    nam: Option<Seq<char>>,
    next: Val,
    scope: TermView,
    part: Part,
)
    requires
        lacks(scope, part),
        is_not_generated_name(part),
    ensures
        rebound(nam, next, scope) matches Some((_, _, scope1)) ==> lacks(scope1, part),
{
    if let Some(nam) = nam {
        lemma_renaming_adds_nothing(scope, nam, next as nat, part);
    }
}

/// Whether refreshing `term` cannot bring in a node of the given kind: `let`s are refused,
/// generated definitions are replaced, and other kinds are held by neither the term nor a
/// generated definition.
pub open spec fn kept_out(term: TermView, book: BookView, part: Part) -> bool {
    ||| part is Let
    ||| part == Part::GeneratedRef(book)
    ||| lacks(term, part) && book_lacks(book, part) && is_not_generated_name(part)
}

/// A refreshed term holds no `let`, no reference to a generated definition, and no node of a
/// kind that neither the term nor a generated definition holds.
pub proof fn law_refreshed_lacks(
    term: TermView,
    next: Val,
    book: BookView,
    open: Set<DefId>,
    part: Part,
)
    requires
        kept_out(term, book, part),
    ensures
        refreshed(term, next, book, open) matches Some((fresh, _)) ==> lacks(fresh, part),
    decreases unopened(open), term_size(term), 0nat,
{
    if refreshed(term, next, book, open) is Some {
        match term {
            TermView::Lam { nam, bod } => {
                let (_, next1, bod1) = rebound(nam, next, *bod)->0;
                lemma_rebound_keeps_size(nam, next, *bod);
                lemma_rebound_is_kept_out(nam, next, *bod, book, part);
                law_refreshed_lacks(bod1, next1, book, open, part);
            },
            TermView::Ref { def_id } => {
                if book.is_generated(def_id) {
                    lemma_opening_decreases(open, def_id);
                    law_refreshed_lacks(
                        book.bodies[def_id],
                        next,
                        book,
                        open.insert(def_id),
                        part,
                    );
                }
            },
            TermView::Dup { fst, snd, val, nxt } => {
                let (_, next1) = refreshed(*val, next, book, open)->0;
                let (_, next2, nxt2) = rebound(fst, next1, *nxt)->0;
                let (_, next3, nxt3) = rebound(snd, next2, nxt2)->0;
                lemma_rebound_keeps_size(fst, next1, *nxt);
                lemma_rebound_keeps_size(snd, next2, nxt2);
                lemma_rebound_is_kept_out(fst, next1, *nxt, book, part);
                lemma_rebound_is_kept_out(snd, next2, nxt2, book, part);
                law_refreshed_lacks(*val, next, book, open, part);
                law_refreshed_lacks(nxt3, next3, book, open, part);
            },
            TermView::Chn { bod, .. } => law_refreshed_lacks(*bod, next, book, open, part),
            TermView::App { fun, arg } => lemma_pair_lacks(*fun, *arg, next, book, open, part),
            TermView::Sup { fst, snd } => lemma_pair_lacks(*fst, *snd, next, book, open, part),
            TermView::Tup { fst, snd } => lemma_pair_lacks(*fst, *snd, next, book, open, part),
            TermView::Opx { fst, snd, .. } => lemma_pair_lacks(*fst, *snd, next, book, open, part),
            TermView::Match { cond, zero, succ } => {
                let (_, next1) = refreshed(*cond, next, book, open)->0;
                law_refreshed_lacks(*cond, next, book, open, part);
                lemma_pair_lacks(*zero, *succ, next1, book, open, part);
            },
            _ => {},
        }
    }
}

/// The scope of a renamed binder keeps out what it kept out before.
proof fn lemma_rebound_is_kept_out(
    nam: Option<Seq<char>>,
    next: Val,
    scope: TermView,
    book: BookView,
    part: Part,
)
    requires
        kept_out(scope, book, part),
    ensures
        rebound(nam, next, scope) matches Some((_, _, scope1)) ==> kept_out(scope1, book, part),
{
    if lacks(scope, part) && is_not_generated_name(part) {
        lemma_rebound_adds_nothing(nam, next, scope, part);
    }
}

/// Two terms refreshed in turn hold no node that is kept out of both.
proof fn lemma_pair_lacks(
    fst: TermView,
    snd: TermView,
    next: Val,
    book: BookView,
    open: Set<DefId>,
    part: Part,
)
    requires
        kept_out(fst, book, part),
        kept_out(snd, book, part),
    ensures
        refreshed_pair(fst, snd, next, book, open) matches Some((fst1, snd1, _)) ==> lacks(
            fst1,
            part,
        ) && lacks(snd1, part),
    decreases unopened(open), term_size(fst) + term_size(snd), 1nat,
{
    if refreshed_pair(fst, snd, next, book, open) is Some {
        let (_, next1) = refreshed(fst, next, book, open)->0;
        law_refreshed_lacks(fst, next, book, open, part);
        law_refreshed_lacks(snd, next1, book, open, part);
    }
}

/// No generated name is the ellipsis.
pub proof fn lemma_ellipsis_is_not_generated()
    ensures
        is_not_generated_name(Part::Var(ellipsis())),
{
    assert forall|id: nat| Part::Var(ellipsis()) != Part::Var(#[trigger] id_name(id)) by {
        assert(id_name(id)[0] == letter(id % 26));
        assert(ellipsis()[0] == '.');
    }
}

/// Whether references read from a net bring in no node of the given kind, and names do not
/// either.
pub open spec fn kept_out_of_readings(book: BookView, part: Part) -> bool {
    &&& part is Let || part == Part::GeneratedRef(book) || (part !is GeneratedRef && book_lacks(
        book,
        part,
    ))
    &&& is_not_generated_name(part)
}

/// A reference is read without nodes that are kept out of readings.
proof fn lemma_reference_lacks(def_id: DefId, next: Val, book: BookView, part: Part)
    requires
        kept_out_of_readings(book, part),
    ensures
        refreshed(TermView::Ref { def_id }, next, book, Set::empty()) matches Some((fresh, _))
            ==> lacks(fresh, part),
{
    law_refreshed_lacks(TermView::Ref { def_id }, next, book, Set::empty(), part);
}

/// A variable that is read has a generated name.
proof fn lemma_variable_lacks(port: Port, state: State, part: Part)
    requires
        is_not_generated_name(part),
    ensures
        variable(port, state) matches Ok(reading) ==> lacks(reading.term, part),
{
    if let Some((nam, _)) = state.names.named(port) {
        if state.names.ids.contains_key(port) {
            assert(part != Part::Var(id_name(state.names.ids[port] as nat)));
        } else {
            assert(part != Part::Var(id_name(state.names.next as nat)));
        }
    }
}

/// What the non-linear reader reads from any port holds no node that is kept out of readings.
pub proof fn lemma_non_linear_lacks(
    net: Seq<Node>,
    book: BookView,
    next: Port,
    scope: Map<u8, Seq<SlotId>>,
    state: State,
    depth: nat,
    part: Part,
)
    requires
        kept_out_of_readings(book, part),
    ensures
        non_linear::read(net, book, next, scope, state, depth) matches Ok(reading) ==> lacks(
            reading.term,
            part,
        ),
    decreases depth, 0nat,
{
    if depth > 0 {
        let node = next.0;
        let slot = next.1;
        let main = entered(net, Port(node, 0));
        let aux1 = entered(net, Port(node, 1));
        let aux2 = entered(net, Port(node, 2));
        let d = (depth - 1) as nat;
        match net[node as int].kind {
            NodeKind::Con => {
                if slot == 0 {
                    if let Some((_, names)) = state.names.declared(net, Port(node, 1)) {
                        let st = State { names, ..state };
                        lemma_non_linear_lacks(net, book, aux2, scope, st, d, part);
                    }
                } else if slot == 1 {
                    lemma_variable_lacks(next, state, part);
                } else {
                    lemma_non_linear_two_lack(net, book, main, aux1, scope, state, d, part);
                }
            },
            NodeKind::Mat => {
                let cond = non_linear::read(net, book, main, scope, state, d);
                lemma_non_linear_lacks(net, book, main, scope, state, d, part);
                assert(lacks(TermView::Era, part));
                if cond is Ok {
                    let zero_port = entered(net, Port(aux1.0, 1));
                    let succ_port = entered(net, Port(aux1.0, 2));
                    let st = after(cond, state);
                    lemma_non_linear_two_lack(net, book, zero_port, succ_port, scope, st, d, part);
                }
            },
            NodeKind::Ref { def_id } => {
                lemma_reference_lacks(def_id, state.names.next, book, part);
            },
            NodeKind::Dup { lab } => {
                if slot != 0 {
                    let inner = entered_dup(scope, lab, slot);
                    lemma_non_linear_lacks(net, book, main, inner, state, d, part);
                } else if scope[lab].len() > 0 {
                    let chosen = entered(net, Port(node, scope[lab].last()));
                    let outer = left_dup(scope, lab);
                    lemma_non_linear_lacks(net, book, chosen, outer, state, d, part);
                } else {
                    lemma_non_linear_two_lack(net, book, aux1, aux2, scope, state, d, part);
                }
            },
            NodeKind::Op2 => {
                assert(lacks(TermView::Era, part));
                lemma_non_linear_two_lack(net, book, main, aux1, scope, state, d, part);
            },
            NodeKind::Tup => {
                if slot == 0 {
                    lemma_non_linear_two_lack(net, book, aux1, aux2, scope, state, d, part);
                } else {
                    let st = State { pending: state.pending.noted(node), ..state };
                    lemma_variable_lacks(next, st, part);
                }
            },
            _ => {},
        }
    }
}

/// Two readings in turn hold no node that is kept out of readings.
proof fn lemma_non_linear_two_lack(
    net: Seq<Node>,
    book: BookView,
    fst: Port,
    snd: Port,
    scope: Map<u8, Seq<SlotId>>,
    state: State,
    depth: nat,
    part: Part,
)
    requires
        kept_out_of_readings(book, part),
    ensures
        non_linear::read(net, book, fst, scope, state, depth) matches Ok(one) ==> {
            &&& lacks(one.term, part)
            &&& non_linear::read(net, book, snd, scope, one.state, depth) matches Ok(two) ==> {
                &&& lacks(two.term, part)
                &&& applied(one.term, two.term) matches Some(term) ==> lacks(term, part)
            }
        },
    decreases depth, 1nat,
{
    lemma_non_linear_lacks(net, book, fst, scope, state, depth, part);
    if let Ok(one) = non_linear::read(net, book, fst, scope, state, depth) {
        lemma_non_linear_lacks(net, book, snd, scope, one.state, depth, part);
        if let Ok(two) = non_linear::read(net, book, snd, scope, one.state, depth) {
            lemma_applied_lacks(one.term, two.term, part);
        }
    }
}

/// An operation is made of what was read for its operator and operands.
proof fn lemma_applied_lacks(op_term: TermView, arg: TermView, part: Part)
    requires
        lacks(op_term, part),
        lacks(arg, part),
    ensures
        applied(op_term, arg) matches Some(term) ==> lacks(term, part),
{
    reveal_with_fuel(lacks, 2);
}

/// What the linear reader reads from any port holds no node that is kept out of readings; and
/// if the reading is valid, no ellipsis either.
pub proof fn lemma_linear_lacks(
    net: Seq<Node>,
    book: BookView,
    next: Port,
    state: State,
    depth: nat,
    part: Part,
)
    requires
        kept_out_of_readings(book, part),
    ensures
        linear::read(net, book, next, state, depth) matches Ok(reading) ==> reading.valid || part
            != Part::Var(ellipsis()) ==> lacks(reading.term, part),
    decreases depth, 0nat,
{
    if depth > 0 && !state.seen.contains(next) {
        let node = next.0;
        let slot = next.1;
        let p0 = Port(node, 0);
        let p1 = Port(node, 1);
        let p2 = Port(node, 2);
        let main = entered(net, p0);
        let aux1 = entered(net, p1);
        let aux2 = entered(net, p2);
        let d = (depth - 1) as nat;
        let st = mark(state, next);
        match net[node as int].kind {
            NodeKind::Con => {
                if slot == 0 {
                    if let Some((_, names)) = st.names.declared(net, p1) {
                        let st1 = State { names, ..mark(st, p2) };
                        lemma_linear_lacks(net, book, aux2, st1, d, part);
                    }
                } else if slot == 1 {
                    lemma_variable_lacks(next, st, part);
                } else {
                    let st1 = mark(mark(st, p0), p1);
                    lemma_linear_two_lack(net, book, main, aux1, st1, d, part);
                }
            },
            NodeKind::Mat => {
                let st1 = mark(mark(st, p0), p1);
                let cond = linear::read(net, book, main, st1, d);
                lemma_linear_lacks(net, book, main, st1, d, part);
                assert(lacks(TermView::Era, part));
                if cond is Ok {
                    let zero_port = entered(net, Port(aux1.0, 1));
                    let succ_port = entered(net, Port(aux1.0, 2));
                    let st2 = mark_node(after(cond, st1), aux1.0);
                    lemma_linear_two_lack(net, book, zero_port, succ_port, st2, d, part);
                }
            },
            NodeKind::Ref { def_id } => {
                lemma_reference_lacks(def_id, state.names.next, book, part);
            },
            NodeKind::Dup { .. } => {
                if slot == 0 {
                    let st1 = mark(mark(st, p1), p2);
                    lemma_linear_two_lack(net, book, aux1, aux2, st1, d, part);
                } else {
                    let st1 = State { pending: st.pending.noted(node), ..st };
                    lemma_variable_lacks(next, st1, part);
                }
            },
            NodeKind::Op2 => {
                let st1 = mark(mark(st, p0), p1);
                assert(lacks(TermView::Era, part));
                lemma_linear_two_lack(net, book, main, aux1, st1, d, part);
            },
            NodeKind::Tup => {
                let st1 = mark(mark(st, p1), p2);
                lemma_linear_two_lack(net, book, aux1, aux2, st1, d, part);
            },
            _ => {},
        }
    }
}

/// Two readings in turn hold no node that is kept out of readings.
proof fn lemma_linear_two_lack(
    net: Seq<Node>,
    book: BookView,
    fst: Port,
    snd: Port,
    state: State,
    depth: nat,
    part: Part,
)
    requires
        kept_out_of_readings(book, part),
    ensures
        linear::read(net, book, fst, state, depth) matches Ok(one) ==> {
            &&& one.valid || part != Part::Var(ellipsis()) ==> lacks(one.term, part)
            &&& linear::read(net, book, snd, one.state, depth) matches Ok(two) ==> {
                &&& two.valid || part != Part::Var(ellipsis()) ==> lacks(two.term, part)
                &&& (one.valid && two.valid) || part != Part::Var(ellipsis()) ==> (applied(
                    one.term,
                    two.term,
                ) matches Some(term) ==> lacks(term, part))
            }
        },
    decreases depth, 1nat,
{
    lemma_linear_lacks(net, book, fst, state, depth, part);
    if let Ok(one) = linear::read(net, book, fst, state, depth) {
        lemma_linear_lacks(net, book, snd, one.state, depth, part);
        if let Ok(two) = linear::read(net, book, snd, one.state, depth) {
            if (one.valid && two.valid) || part != Part::Var(ellipsis()) {
                lemma_applied_lacks(one.term, two.term, part);
            }
        }
    }
}

/// Putting a reading in the scope of the `let`s that wait adds nothing but `let`s and what is
/// read for their values.
proof fn lemma_lets_lack(net: Seq<Node>, book: BookView, main: Reading, depth: nat, part: Part)
    requires
        kept_out_of_readings(book, part),
        part !is Let,
        lacks(main.term, part),
    ensures
        non_linear::read_lets(net, book, main, depth) matches Ok(all) ==> lacks(all.term, part),
    decreases depth,
{
    let lets = main.state.pending;
    if lets.stack.len() > 0 && depth > 0 {
        let d = (depth - 1) as nat;
        let tup = lets.stack.last();
        let port = entered(net, Port(tup, 0));
        let state = State { pending: lets.popped(), ..main.state };
        lemma_non_linear_lacks(net, book, port, no_dups(), state, d, part);
        if let Ok(val) = non_linear::read(net, book, port, no_dups(), state, d) {
            if let Some((fst, names1)) = val.state.names.declared(net, Port(tup, 1)) {
                if let Some((snd, names2)) = names1.declared(net, Port(tup, 2)) {
                    let inner = Reading {
                        term: TermView::Let {
                            pat: LetPatView::Tup(fst, snd),
                            val: Box::new(val.term),
                            nxt: Box::new(main.term),
                        },
                        valid: main.valid && val.valid,
                        state: State { names: names2, ..val.state },
                    };
                    lemma_lets_lack(net, book, inner, d, part);
                }
            }
        }
    }
}

/// Putting a reading in the scope of the duplications that wait adds nothing but duplications
/// and what is read for their values, and nothing makes an invalid reading valid.
proof fn lemma_dups_lack(net: Seq<Node>, book: BookView, main: Reading, depth: nat, part: Part)
    requires
        kept_out_of_readings(book, part),
        part !is Dup,
        main.valid || part != Part::Var(ellipsis()) ==> lacks(main.term, part),
    ensures
        linear::read_dups(net, book, main, depth) matches Ok(all) ==> all.valid || part
            != Part::Var(ellipsis()) ==> lacks(all.term, part),
    decreases depth,
{
    let dups = main.state.pending;
    if dups.stack.len() > 0 && depth > 0 {
        let d = (depth - 1) as nat;
        let dup = dups.stack.last();
        let port = entered(net, Port(dup, 0));
        let state = mark(State { pending: dups.popped(), ..main.state }, Port(dup, 0));
        lemma_linear_lacks(net, book, port, state, d, part);
        if let Ok(val) = linear::read(net, book, port, state, d) {
            if let Some((fst, names1)) = val.state.names.declared(net, Port(dup, 1)) {
                if let Some((snd, names2)) = names1.declared(net, Port(dup, 2)) {
                    let inner = Reading {
                        term: TermView::Dup {
                            fst,
                            snd,
                            val: Box::new(val.term),
                            nxt: Box::new(main.term),
                        },
                        valid: main.valid && val.valid,
                        state: State { names: names2, ..val.state },
                    };
                    lemma_dups_lack(net, book, inner, d, part);
                }
            }
        }
    }
}

/// A non-linear readback lacks what is kept out of readings, but for `let`s.
proof fn lemma_non_linear_net_lacks(net: Seq<Node>, book: BookView, depth: nat, part: Part)
    requires
        kept_out_of_readings(book, part),
        part !is Let,
    ensures
        non_linear::read_net(net, book, depth) matches Ok(reading) ==> lacks(reading.term, part),
{
    let port = entered(net, root_port());
    lemma_non_linear_lacks(net, book, port, no_dups(), State::initial(), depth, part);
    if let Ok(main) = non_linear::read(net, book, port, no_dups(), State::initial(), depth) {
        lemma_lets_lack(net, book, main, depth, part);
    }
}

/// A linear readback lacks what is kept out of readings, but for duplications; and if it is
/// valid, the ellipsis too.
proof fn lemma_linear_net_lacks(net: Seq<Node>, book: BookView, part: Part)
    requires
        kept_out_of_readings(book, part),
        part !is Dup,
    ensures
        linear::read_net(net, book) matches Ok(reading) ==> reading.valid || part != Part::Var(
            ellipsis(),
        ) ==> lacks(reading.term, part),
{
    let port = entered(net, root_port());
    let depth = linear::ample_depth(net);
    lemma_linear_lacks(net, book, port, State::initial(), depth, part);
    if let Ok(main) = linear::read(net, book, port, State::initial(), depth) {
        lemma_dups_lack(net, book, main, depth, part);
    }
}

/// The non-linear readback resolves all duplications: none is left, unless a definition that is
/// inlined holds one.
pub proof fn law_non_linear_resolves_dups(net: Seq<Node>, book: BookView, depth: nat)
    requires
        book_lacks(book, Part::Dup),
    ensures
        non_linear::read_net(net, book, depth) matches Ok(reading) ==> lacks(
            reading.term,
            Part::Dup,
        ),
{
    lemma_non_linear_net_lacks(net, book, depth, Part::Dup);
}

/// The linear readback holds no `let`.
pub proof fn law_linear_has_no_lets(net: Seq<Node>, book: BookView)
    ensures
        linear::read_net(net, book) matches Ok(reading) ==> lacks(reading.term, Part::Let),
{
    lemma_linear_net_lacks(net, book, Part::Let);
}

/// Neither readback leaves a reference to a generated definition.
pub proof fn law_generated_definitions_are_inlined(net: Seq<Node>, book: BookView, depth: nat)
    ensures
        non_linear::read_net(net, book, depth) matches Ok(reading) ==> lacks(
            reading.term,
            Part::GeneratedRef(book),
        ),
        linear::read_net(net, book) matches Ok(reading) ==> lacks(
            reading.term,
            Part::GeneratedRef(book),
        ),
{
    lemma_non_linear_net_lacks(net, book, depth, Part::GeneratedRef(book));
    lemma_linear_net_lacks(net, book, Part::GeneratedRef(book));
}

/// Neither readback makes a function whose variable may occur outside its body, or a use of such
/// a variable: there is none, unless a definition that is inlined holds one.
pub proof fn law_readbacks_lack_scopeless_variables(
    net: Seq<Node>,
    book: BookView,
    depth: nat,
    part: Part,
)
    requires
        part is Chn || part is Lnk,
        book_lacks(book, part),
    ensures
        non_linear::read_net(net, book, depth) matches Ok(reading) ==> lacks(reading.term, part),
        linear::read_net(net, book) matches Ok(reading) ==> lacks(reading.term, part),
{
    lemma_non_linear_net_lacks(net, book, depth, part);
    lemma_linear_net_lacks(net, book, part);
}

/// A valid linear readback is complete: no part of it is replaced by an ellipsis, which no
/// generated definition may hold as a variable.
pub proof fn law_valid_linear_readback_has_no_ellipsis(net: Seq<Node>, book: BookView)
    requires
        book_lacks(book, Part::Var(ellipsis())),
    ensures
        linear::read_net(net, book) matches Ok(reading) ==> reading.valid ==> lacks(
            reading.term,
            Part::Var(ellipsis()),
        ),
{
    lemma_ellipsis_is_not_generated();
    lemma_linear_net_lacks(net, book, Part::Var(ellipsis()));
}

} // verus!
