//! Valid readbacks depict the net: what they say can be checked port by port, against the names
//! on record and without regard to the order in which the net was read.

use vstd::prelude::*;

use crate::book::BookView;
use crate::fix_names::refreshed;
use crate::laws::naming::{
    is_binder_of, is_sound, keeps_names, law_linear_keeps_names, law_non_linear_keeps_names,
    lemma_declared_binds, lemma_named_is_sound,
};
use crate::linear;
use crate::linear::{mark, mark_node};
use crate::name::{id_name, Val};
use crate::net::{entered, Node, NodeKind, Port, SlotId};
use crate::non_linear;
use crate::reading::{applied, State};
use crate::state::{entered_dup, left_dup, VarNamesView};
use crate::term::{DefId, TermView};

verus! {

/// Whether `term` is the variable that `port` binds.
pub open spec fn is_variable_of(names: VarNamesView, port: Port, term: TermView) -> bool {
    names.ids.contains_key(port) && term == (TermView::Var {
        nam: id_name(names.ids[port] as nat),
    })
}

/// Whether `term` is what a reference to a definition stands for: the reference itself, or the
/// body of a generated definition with names from some id on.
pub open spec fn is_reference_to(book: BookView, def_id: DefId, term: TermView) -> bool {
    exists|from: Val|
        (#[trigger] refreshed(TermView::Ref { def_id }, from, book, Set::empty())) matches Some(
            (body, _),
        ) && body == term
}

/// Whether `term` depicts the net that is entered by `port`, with duplications and
/// superpositions as they are, down to at most `depth` nested nodes.
pub open spec fn depicts(
    net: Seq<Node>,
    book: BookView,
    names: VarNamesView,
    port: Port,
    term: TermView,
    depth: nat,
) -> bool
    decreases depth,
{
    let node = port.0;
    let slot = port.1;
    let main = entered(net, Port(node, 0));
    let aux1 = entered(net, Port(node, 1));
    let aux2 = entered(net, Port(node, 2));
    let d = (depth - 1) as nat;
    depth > 0 && match net[node as int].kind {
        NodeKind::Era => slot == 0 && term == TermView::Era,
        NodeKind::Con => if slot == 0 {
            &&& term matches TermView::Lam { nam, bod }
            &&& is_binder_of(net, names, Port(node, 1), nam)
            &&& depicts(net, book, names, aux2, *bod, d)
        } else if slot == 1 {
            is_variable_of(names, port, term)
        } else {
            &&& term matches TermView::App { fun, arg }
            &&& depicts(net, book, names, main, *fun, d)
            &&& depicts(net, book, names, aux1, *arg, d)
        },
        NodeKind::Mat => {
            &&& slot == 2
            &&& net[aux1.0 as int].kind == NodeKind::Con
            &&& term matches TermView::Match { cond, zero, succ }
            &&& depicts(net, book, names, main, *cond, d)
            &&& depicts(net, book, names, entered(net, Port(aux1.0, 1)), *zero, d)
            &&& depicts(net, book, names, entered(net, Port(aux1.0, 2)), *succ, d)
        },
        NodeKind::Ref { def_id } => is_reference_to(book, def_id, term),
        NodeKind::Dup { .. } => if slot == 0 {
            &&& term matches TermView::Sup { fst, snd }
            &&& depicts(net, book, names, aux1, *fst, d)
            &&& depicts(net, book, names, aux2, *snd, d)
        } else {
            is_variable_of(names, port, term)
        },
        NodeKind::Num { val } => term == (TermView::Num { val }),
        NodeKind::Op2 => {
            &&& slot == 2
            &&& exists|op: TermView, arg: TermView|
                #[trigger] applied(op, arg) == Some(term) && depicts(net, book, names, main, op, d)
                    && depicts(net, book, names, aux1, arg, d)
        },
        NodeKind::Rot => false,
        NodeKind::Tup => {
            &&& term matches TermView::Tup { fst, snd }
            &&& depicts(net, book, names, aux1, *fst, d)
            &&& depicts(net, book, names, aux2, *snd, d)
        },
    }
}

/// Whether `term` depicts the net that is entered by `port`, where `scope` holds the
/// duplications passed on the way and superpositions decay accordingly, down to at most `depth`
/// nested nodes.
pub open spec fn depicts_within(
    net: Seq<Node>,
    book: BookView,
    names: VarNamesView,
    port: Port,
    scope: Map<u8, Seq<SlotId>>,
    term: TermView,
    depth: nat,
) -> bool
    decreases depth,
{
    let node = port.0;
    let slot = port.1;
    let main = entered(net, Port(node, 0));
    let aux1 = entered(net, Port(node, 1));
    let aux2 = entered(net, Port(node, 2));
    let d = (depth - 1) as nat;
    depth > 0 && match net[node as int].kind {
        NodeKind::Era => slot == 0 && term == TermView::Era,
        NodeKind::Con => if slot == 0 {
            &&& term matches TermView::Lam { nam, bod }
            &&& is_binder_of(net, names, Port(node, 1), nam)
            &&& depicts_within(net, book, names, aux2, scope, *bod, d)
        } else if slot == 1 {
            is_variable_of(names, port, term)
        } else {
            &&& term matches TermView::App { fun, arg }
            &&& depicts_within(net, book, names, main, scope, *fun, d)
            &&& depicts_within(net, book, names, aux1, scope, *arg, d)
        },
        NodeKind::Mat => {
            &&& slot == 2
            &&& net[aux1.0 as int].kind == NodeKind::Con
            &&& term matches TermView::Match { cond, zero, succ }
            &&& depicts_within(net, book, names, main, scope, *cond, d)
            &&& depicts_within(net, book, names, entered(net, Port(aux1.0, 1)), scope, *zero, d)
            &&& depicts_within(net, book, names, entered(net, Port(aux1.0, 2)), scope, *succ, d)
        },
        NodeKind::Ref { def_id } => is_reference_to(book, def_id, term),
        NodeKind::Dup { lab } => if slot != 0 {
            depicts_within(net, book, names, main, entered_dup(scope, lab, slot), term, d)
        } else if scope[lab].len() > 0 {
            let chosen = entered(net, Port(node, scope[lab].last()));
            depicts_within(net, book, names, chosen, left_dup(scope, lab), term, d)
        } else {
            &&& term matches TermView::Sup { fst, snd }
            &&& depicts_within(net, book, names, aux1, scope, *fst, d)
            &&& depicts_within(net, book, names, aux2, scope, *snd, d)
        },
        NodeKind::Num { val } => term == (TermView::Num { val }),
        NodeKind::Op2 => {
            &&& slot == 2
            &&& exists|op: TermView, arg: TermView|
                #[trigger] applied(op, arg) == Some(term)
                    && depicts_within(net, book, names, main, scope, op, d)
                    && depicts_within(net, book, names, aux1, scope, arg, d)
        },
        NodeKind::Rot => false,
        NodeKind::Tup => if slot == 0 {
            &&& term matches TermView::Tup { fst, snd }
            &&& depicts_within(net, book, names, aux1, scope, *fst, d)
            &&& depicts_within(net, book, names, aux2, scope, *snd, d)
        } else {
            is_variable_of(names, port, term)
        },
    }
}

/// What a reference is read as depicts it.
proof fn lemma_reference_depicts(book: BookView, def_id: DefId, next: Val)
    ensures
        refreshed(TermView::Ref { def_id }, next, book, Set::empty()) matches Some((body, _))
            ==> is_reference_to(book, def_id, body),
{
}

/// A depiction stays one when more variables are named, and to any greater depth.
pub proof fn lemma_depiction_lasts(
    net: Seq<Node>,
    book: BookView,
    names: VarNamesView,
    later: VarNamesView,
    port: Port,
    term: TermView,
    depth: nat,
    more: nat,
)
    requires
        keeps_names(names, later),
        depth <= more,
        depicts(net, book, names, port, term, depth),
    ensures
        depicts(net, book, later, port, term, more),
    decreases depth,
{
    let node = port.0;
    let slot = port.1;
    let main = entered(net, Port(node, 0));
    let aux1 = entered(net, Port(node, 1));
    let aux2 = entered(net, Port(node, 2));
    let d = (depth - 1) as nat;
    let m = (more - 1) as nat;
    match net[node as int].kind {
        NodeKind::Con => {
            if slot == 0 {
                lemma_depiction_lasts(net, book, names, later, aux2, *term->Lam_bod, d, m);
            } else if slot != 1 {
                lemma_depiction_lasts(net, book, names, later, main, *term->App_fun, d, m);
                lemma_depiction_lasts(net, book, names, later, aux1, *term->App_arg, d, m);
            }
        },
        NodeKind::Mat => {
            let zero_port = entered(net, Port(aux1.0, 1));
            let succ_port = entered(net, Port(aux1.0, 2));
            lemma_depiction_lasts(net, book, names, later, main, *term->Match_cond, d, m);
            lemma_depiction_lasts(net, book, names, later, zero_port, *term->Match_zero, d, m);
            lemma_depiction_lasts(net, book, names, later, succ_port, *term->Match_succ, d, m);
        },
        NodeKind::Dup { .. } => {
            if slot == 0 {
                lemma_depiction_lasts(net, book, names, later, aux1, *term->Sup_fst, d, m);
                lemma_depiction_lasts(net, book, names, later, aux2, *term->Sup_snd, d, m);
            }
        },
        NodeKind::Op2 => {
            let (op, arg) = choose|op: TermView, arg: TermView|
                #[trigger] applied(op, arg) == Some(term) && depicts(net, book, names, main, op, d)
                    && depicts(net, book, names, aux1, arg, d);
            lemma_depiction_lasts(net, book, names, later, main, op, d, m);
            lemma_depiction_lasts(net, book, names, later, aux1, arg, d, m);
        },
        NodeKind::Tup => {
            lemma_depiction_lasts(net, book, names, later, aux1, *term->Tup_fst, d, m);
            lemma_depiction_lasts(net, book, names, later, aux2, *term->Tup_snd, d, m);
        },
        _ => {},
    }
}

/// A depiction within a scope stays one when more variables are named, and to any greater
/// depth.
pub proof fn lemma_depiction_within_lasts(
    net: Seq<Node>,
    book: BookView,
    names: VarNamesView,
    later: VarNamesView,
    port: Port,
    scope: Map<u8, Seq<SlotId>>,
    term: TermView,
    depth: nat,
    more: nat,
)
    requires
        keeps_names(names, later),
        depth <= more,
        depicts_within(net, book, names, port, scope, term, depth),
    ensures
        depicts_within(net, book, later, port, scope, term, more),
    decreases depth,
{
    let node = port.0;
    let slot = port.1;
    let main = entered(net, Port(node, 0));
    let aux1 = entered(net, Port(node, 1));
    let aux2 = entered(net, Port(node, 2));
    let d = (depth - 1) as nat;
    let m = (more - 1) as nat;
    match net[node as int].kind {
        NodeKind::Con => {
            if slot == 0 {
                let bod = *term->Lam_bod;
                lemma_depiction_within_lasts(net, book, names, later, aux2, scope, bod, d, m);
            } else if slot != 1 {
                let fun = *term->App_fun;
                let arg = *term->App_arg;
                lemma_depiction_within_lasts(net, book, names, later, main, scope, fun, d, m);
                lemma_depiction_within_lasts(net, book, names, later, aux1, scope, arg, d, m);
            }
        },
        NodeKind::Mat => {
            let cond = *term->Match_cond;
            let zero = *term->Match_zero;
            let succ = *term->Match_succ;
            let zero_port = entered(net, Port(aux1.0, 1));
            let succ_port = entered(net, Port(aux1.0, 2));
            lemma_depiction_within_lasts(net, book, names, later, main, scope, cond, d, m);
            lemma_depiction_within_lasts(net, book, names, later, zero_port, scope, zero, d, m);
            lemma_depiction_within_lasts(net, book, names, later, succ_port, scope, succ, d, m);
        },
        NodeKind::Dup { lab } => {
            if slot != 0 {
                let inner = entered_dup(scope, lab, slot);
                lemma_depiction_within_lasts(net, book, names, later, main, inner, term, d, m);
            } else if scope[lab].len() > 0 {
                let outer = left_dup(scope, lab);
                let chosen = entered(net, Port(node, scope[lab].last()));
                lemma_depiction_within_lasts(net, book, names, later, chosen, outer, term, d, m);
            } else {
                let fst = *term->Sup_fst;
                let snd = *term->Sup_snd;
                lemma_depiction_within_lasts(net, book, names, later, aux1, scope, fst, d, m);
                lemma_depiction_within_lasts(net, book, names, later, aux2, scope, snd, d, m);
            }
        },
        NodeKind::Op2 => {
            let (op, arg) = choose|op: TermView, arg: TermView|
                #[trigger] applied(op, arg) == Some(term)
                    && depicts_within(net, book, names, main, scope, op, d)
                    && depicts_within(net, book, names, aux1, scope, arg, d);
            lemma_depiction_within_lasts(net, book, names, later, main, scope, op, d, m);
            lemma_depiction_within_lasts(net, book, names, later, aux1, scope, arg, d, m);
        },
        NodeKind::Tup => {
            if slot == 0 {
                let fst = *term->Tup_fst;
                let snd = *term->Tup_snd;
                lemma_depiction_within_lasts(net, book, names, later, aux1, scope, fst, d, m);
                lemma_depiction_within_lasts(net, book, names, later, aux2, scope, snd, d, m);
            }
        },
        _ => {},
    }
}

/// A valid linear reading depicts the net that was read.
pub proof fn law_linear_reading_depicts(
    net: Seq<Node>,
    book: BookView,
    next: Port,
    state: State,
    depth: nat,
)
    requires
        is_sound(state.names),
    ensures
        linear::read(net, book, next, state, depth) matches Ok(reading) ==> reading.valid
            ==> depicts(net, book, reading.state.names, next, reading.term, depth),
    decreases depth, 0nat,
{
    if depth > 0 && !state.seen.contains(next) {
        let node = next.0;
        let slot = next.1;
        let p0 = Port(node, 0);
        let p1 = Port(node, 1);
        let p2 = Port(node, 2);
        let main = entered(net, p0);
        let aux1 = entered(net, p1);
        let aux2 = entered(net, p2);
        let d = (depth - 1) as nat;
        let st = mark(state, next);
        match net[node as int].kind {
            NodeKind::Con => {
                if slot == 0 {
                    lemma_named_is_sound(st.names, p1);
                    if let Some((_, names)) = st.names.declared(net, p1) {
                        let st1 = State { names, ..mark(st, p2) };
                        law_linear_keeps_names(net, book, aux2, st1, d);
                        law_linear_reading_depicts(net, book, aux2, st1, d);
                        if let Ok(bod) = linear::read(net, book, aux2, st1, d) {
                            lemma_declared_binds(net, st.names, p1, bod.state.names);
                        }
                    }
                } else if slot != 1 {
                    let st1 = mark(mark(st, p0), p1);
                    lemma_linear_two_depict(net, book, main, aux1, st1, d);
                }
            },
            NodeKind::Mat => {
                let st1 = mark(mark(st, p0), p1);
                let cond = linear::read(net, book, main, st1, d);
                law_linear_keeps_names(net, book, main, st1, d);
                law_linear_reading_depicts(net, book, main, st1, d);
                if let Ok(cond) = cond {
                    let zero_port = entered(net, Port(aux1.0, 1));
                    let succ_port = entered(net, Port(aux1.0, 2));
                    let st2 = mark_node(cond.state, aux1.0);
                    lemma_linear_two_depict(net, book, zero_port, succ_port, st2, d);
                    if let Ok(reading) = linear::read(net, book, next, state, depth) {
                        if reading.valid {
                            lemma_depiction_lasts(
                                net,
                                book,
                                cond.state.names,
                                reading.state.names,
                                main,
                                cond.term,
                                d,
                                d,
                            );
                        }
                    }
                }
            },
            NodeKind::Dup { .. } => {
                if slot == 0 {
                    let st1 = mark(mark(st, p1), p2);
                    lemma_linear_two_depict(net, book, aux1, aux2, st1, d);
                }
            },
            NodeKind::Op2 => {
                let st1 = mark(mark(st, p0), p1);
                lemma_linear_two_depict(net, book, main, aux1, st1, d);
            },
            NodeKind::Ref { def_id } => lemma_reference_depicts(book, def_id, st.names.next),
            NodeKind::Tup => {
                let st1 = mark(mark(st, p1), p2);
                lemma_linear_two_depict(net, book, aux1, aux2, st1, d);
            },
            _ => {},
        }
    }
}

/// Two valid readings in turn depict the nets that were read.
proof fn lemma_linear_two_depict(
    net: Seq<Node>,
    book: BookView,
    fst: Port,
    snd: Port,
    state: State,
    depth: nat,
)
    requires
        is_sound(state.names),
    ensures
        linear::read(net, book, fst, state, depth) matches Ok(one) ==> (linear::read(
            net,
            book,
            snd,
            one.state,
            depth,
        ) matches Ok(two) ==> {
            &&& keeps_names(state.names, two.state.names)
            &&& one.valid ==> depicts(net, book, two.state.names, fst, one.term, depth)
            &&& two.valid ==> depicts(net, book, two.state.names, snd, two.term, depth)
        }),
    decreases depth, 1nat,
{
    law_linear_keeps_names(net, book, fst, state, depth);
    law_linear_reading_depicts(net, book, fst, state, depth);
    if let Ok(one) = linear::read(net, book, fst, state, depth) {
        law_linear_keeps_names(net, book, snd, one.state, depth);
        law_linear_reading_depicts(net, book, snd, one.state, depth);
        if let Ok(two) = linear::read(net, book, snd, one.state, depth) {
            if one.valid {
                lemma_depiction_lasts(
                    net,
                    book,
                    one.state.names,
                    two.state.names,
                    fst,
                    one.term,
                    depth,
                    depth,
                );
            }
        }
    }
}

/// A valid non-linear reading depicts the net that was read.
pub proof fn law_non_linear_reading_depicts(
    net: Seq<Node>,
    book: BookView,
    next: Port,
    scope: Map<u8, Seq<SlotId>>,
    state: State,
    depth: nat,
)
    requires
        is_sound(state.names),
    ensures
        non_linear::read(net, book, next, scope, state, depth) matches Ok(reading)
            ==> reading.valid ==> depicts_within(
            net,
            book,
            reading.state.names,
            next,
            scope,
            reading.term,
            depth,
        ),
    decreases depth, 0nat,
{
    if depth > 0 {
        let node = next.0;
        let slot = next.1;
        let main = entered(net, Port(node, 0));
        let aux1 = entered(net, Port(node, 1));
        let aux2 = entered(net, Port(node, 2));
        let d = (depth - 1) as nat;
        match net[node as int].kind {
            NodeKind::Con => {
                if slot == 0 {
                    lemma_named_is_sound(state.names, Port(node, 1));
                    if let Some((_, names)) = state.names.declared(net, Port(node, 1)) {
                        let st = State { names, ..state };
                        law_non_linear_keeps_names(net, book, aux2, scope, st, d);
                        law_non_linear_reading_depicts(net, book, aux2, scope, st, d);
                        if let Ok(bod) = non_linear::read(net, book, aux2, scope, st, d) {
                            lemma_declared_binds(net, state.names, Port(node, 1), bod.state.names);
                        }
                    }
                } else if slot != 1 {
                    lemma_non_linear_two_depict(net, book, main, aux1, scope, state, d);
                }
            },
            NodeKind::Mat => {
                let cond = non_linear::read(net, book, main, scope, state, d);
                law_non_linear_keeps_names(net, book, main, scope, state, d);
                law_non_linear_reading_depicts(net, book, main, scope, state, d);
                if let Ok(cond) = cond {
                    let zero_port = entered(net, Port(aux1.0, 1));
                    let succ_port = entered(net, Port(aux1.0, 2));
                    let st = cond.state;
                    lemma_non_linear_two_depict(net, book, zero_port, succ_port, scope, st, d);
                    if let Ok(reading) = non_linear::read(net, book, next, scope, state, depth) {
                        if reading.valid {
                            lemma_depiction_within_lasts(
                                net,
                                book,
                                cond.state.names,
                                reading.state.names,
                                main,
                                scope,
                                cond.term,
                                d,
                                d,
                            );
                        }
                    }
                }
            },
            NodeKind::Ref { def_id } => lemma_reference_depicts(book, def_id, state.names.next),
            NodeKind::Dup { lab } => {
                if slot != 0 {
                    let inner = entered_dup(scope, lab, slot);
                    law_non_linear_reading_depicts(net, book, main, inner, state, d);
                } else if scope[lab].len() > 0 {
                    let outer = left_dup(scope, lab);
                    let chosen = entered(net, Port(node, scope[lab].last()));
                    law_non_linear_reading_depicts(net, book, chosen, outer, state, d);
                } else {
                    lemma_non_linear_two_depict(net, book, aux1, aux2, scope, state, d);
                }
            },
            NodeKind::Op2 => {
                lemma_non_linear_two_depict(net, book, main, aux1, scope, state, d);
            },
            NodeKind::Tup => {
                if slot == 0 {
                    lemma_non_linear_two_depict(net, book, aux1, aux2, scope, state, d);
                }
            },
            _ => {},
        }
    }
}

/// Two valid readings in turn depict the nets that were read.
proof fn lemma_non_linear_two_depict(
    net: Seq<Node>,
    book: BookView,
    fst: Port,
    snd: Port,
    scope: Map<u8, Seq<SlotId>>,
    state: State,
    depth: nat,
)
    requires
        is_sound(state.names),
    ensures
        non_linear::read(net, book, fst, scope, state, depth) matches Ok(one) ==> (
        non_linear::read(net, book, snd, scope, one.state, depth) matches Ok(two) ==> {
            &&& keeps_names(state.names, two.state.names)
            &&& one.valid ==> depicts_within(
                net,
                book,
                two.state.names,
                fst,
                scope,
                one.term,
                depth,
            )
            &&& two.valid ==> depicts_within(
                net,
                book,
                two.state.names,
                snd,
                scope,
                two.term,
                depth,
            )
        }),
    decreases depth, 1nat,
{
    law_non_linear_keeps_names(net, book, fst, scope, state, depth);
    law_non_linear_reading_depicts(net, book, fst, scope, state, depth);
    if let Ok(one) = non_linear::read(net, book, fst, scope, state, depth) {
        law_non_linear_keeps_names(net, book, snd, scope, one.state, depth);
        law_non_linear_reading_depicts(net, book, snd, scope, one.state, depth);
        if let Ok(two) = non_linear::read(net, book, snd, scope, one.state, depth) {
            if one.valid {
                lemma_depiction_within_lasts(
                    net,
                    book,
                    one.state.names,
                    two.state.names,
                    fst,
                    scope,
                    one.term,
                    depth,
                    depth,
                );
            }
        }
    }
}

} // verus!
