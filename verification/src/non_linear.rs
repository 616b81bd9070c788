//! Readback into the lambda calculus, with duplications and superpositions resolved where
//! possible.

use vstd::pervasive::unreached;
use vstd::prelude::*;

use crate::book::{Book, BookView};
use crate::net::{entered, has_port, root_port, INet, Node, NodeKind, Port, SlotId};
use crate::reading::{
    after, application, apply, caseless, distinction, done, lambda, operation, pair, reference,
    superposition, variable, Outcome, Reading, State, Stop,
};
use crate::state::{
    entered_dup, is_scope, left_dup, lemma_entered_dup_is_scope, lemma_left_dup_is_scope, no_dups,
    DupScope, Pending, PendingView, VarNames, VarNamesView,
};
use crate::term::{term_view, LetPat, LetPatView, Term, TermView};

verus! {

/// The reading of the net that is entered by `next`, in at most `depth` nested steps. `scope`
/// holds the duplications passed on the way to `next`.
pub open spec fn read(
    net: Seq<Node>,
    book: BookView,
    next: Port,
    scope: Map<u8, Seq<SlotId>>,
    state: State,
    depth: nat,
) -> Outcome
    decreases depth,
{
    let node = next.0;
    let slot = next.1;
    let main = entered(net, Port(node, 0));
    let aux1 = entered(net, Port(node, 1));
    let aux2 = entered(net, Port(node, 2));
    if depth == 0 {
        Err(Stop::Depth)
    } else {
        let depth = (depth - 1) as nat;
        match net[node as int].kind {
            // An eraser has only a main port.
            NodeKind::Era => done(TermView::Era, slot == 0, state),
            NodeKind::Con => if slot == 0 {
                match state.names.declared(net, Port(node, 1)) {
                    None => Err(Stop::Stuck),
                    Some((nam, names)) => lambda(
                        nam,
                        read(net, book, aux2, scope, State { names, ..state }, depth),
                    ),
                }
            } else if slot == 1 {
                variable(next, state)
            } else {
                let fun = read(net, book, main, scope, state, depth);
                let arg = read(net, book, aux1, scope, after(fun, state), depth);
                application(fun, arg)
            },
            NodeKind::Mat => if slot == 2 {
                let cond = read(net, book, main, scope, state, depth);
                if net[aux1.0 as int].kind == NodeKind::Con {
                    let zero_port = entered(net, Port(aux1.0, 1));
                    let succ_port = entered(net, Port(aux1.0, 2));
                    let zero = read(net, book, zero_port, scope, after(cond, state), depth);
                    let succ = read(net, book, succ_port, scope, after(zero, state), depth);
                    distinction(cond, zero, succ)
                } else {
                    caseless(cond, after(cond, state))
                }
            } else {
                Err(Stop::Stuck)
            },
            NodeKind::Ref { def_id } => reference(def_id, book, state),
            NodeKind::Dup { lab } => if slot == 0 {
                if scope[lab].len() > 0 {
                    // The superposition decays in the direction from which the duplication with
                    // the same label was entered.
                    let chosen = entered(net, Port(node, scope[lab].last()));
                    read(net, book, chosen, left_dup(scope, lab), state, depth)
                } else {
                    let fst = read(net, book, aux1, scope, state, depth);
                    let snd = read(net, book, aux2, scope, after(fst, state), depth);
                    superposition(fst, snd)
                }
            } else {
                read(net, book, main, entered_dup(scope, lab, slot), state, depth)
            },
            NodeKind::Num { val } => done(TermView::Num { val }, true, state),
            NodeKind::Op2 => if slot == 2 {
                let op = read(net, book, main, scope, state, depth);
                let arg = read(net, book, aux1, scope, after(op, state), depth);
                operation(op, arg)
            } else {
                Err(Stop::Stuck)
            },
            NodeKind::Rot => done(TermView::Era, false, state),
            NodeKind::Tup => if slot == 0 {
                let fst = read(net, book, aux1, scope, state, depth);
                let snd = read(net, book, aux2, scope, after(fst, state), depth);
                pair(fst, snd)
            } else {
                // The variable of a `let`, which is kept to be read later.
                variable(next, State { pending: state.pending.noted(node), ..state })
            },
        }
    }
}

/// `main` in the scope of a `let` for each pair that is still to be taken apart: the pair last
/// found gets the innermost `let`, and reading its value may find more.
pub open spec fn read_lets(net: Seq<Node>, book: BookView, main: Reading, depth: nat) -> Outcome
    decreases depth,
{
    let lets = main.state.pending;
    if lets.stack.len() == 0 {
        Ok(main)
    } else if depth == 0 {
        Err(Stop::Depth)
    } else {
        let depth = (depth - 1) as nat;
        let tup = lets.stack.last();
        match read(
            net,
            book,
            entered(net, Port(tup, 0)),
            no_dups(),
            State { pending: lets.popped(), ..main.state },
            depth,
        ) {
            Err(stop) => Err(stop),
            Ok(val) => match val.state.names.declared(net, Port(tup, 1)) {
                None => Err(Stop::Stuck),
                Some((fst, names1)) => match names1.declared(net, Port(tup, 2)) {
                    None => Err(Stop::Stuck),
                    Some((snd, names2)) => read_lets(
                        net,
                        book,
                        Reading {
                            term: TermView::Let {
                                pat: LetPatView::Tup(fst, snd),
                                val: Box::new(val.term),
                                nxt: Box::new(main.term),
                            },
                            valid: main.valid && val.valid,
                            state: State { names: names2, ..val.state },
                        },
                        depth,
                    ),
                },
            },
        }
    }
}

/// The reading of a whole net in at most `depth` nested steps and `depth` `let`s.
pub open spec fn read_net(net: Seq<Node>, book: BookView, depth: nat) -> Outcome {
    match read(net, book, entered(net, root_port()), no_dups(), State::initial(), depth) {
        Err(stop) => Err(stop),
        Ok(main) => read_lets(net, book, main, depth),
    }
}

/// Whether the net can be read: the walk ends, and meets nothing that has no reading.
pub open spec fn readable(net: Seq<Node>, book: BookView) -> bool {
    exists|depth: nat| #[trigger] read_net(net, book, depth) is Ok
}

/// A readback that ends within a depth is the same at any greater depth.
pub proof fn law_read_at_any_depth(
    net: Seq<Node>,
    book: BookView,
    next: Port,
    scope: Map<u8, Seq<SlotId>>,
    state: State,
    depth: nat,
    more: nat,
)
    requires
        depth <= more,
        read(net, book, next, scope, state, depth) != Err::<Reading, Stop>(Stop::Depth),
    ensures
        read(net, book, next, scope, state, more) == read(net, book, next, scope, state, depth),
    decreases depth, 0nat,
{
    let node = next.0;
    let slot = next.1;
    let main = entered(net, Port(node, 0));
    let aux1 = entered(net, Port(node, 1));
    let aux2 = entered(net, Port(node, 2));
    let d = (depth - 1) as nat;
    let m = (more - 1) as nat;
    match net[node as int].kind {
        NodeKind::Con => {
            if slot == 0 {
                if let Some((_, names)) = state.names.declared(net, Port(node, 1)) {
                    law_read_at_any_depth(net, book, aux2, scope, State { names, ..state }, d, m);
                }
            } else if slot > 1 {
                lemma_two_at_any_depth(net, book, main, aux1, scope, state, d, m);
            }
        },
        NodeKind::Mat => {
            if slot == 2 {
                let cond = read(net, book, main, scope, state, d);
                law_read_at_any_depth(net, book, main, scope, state, d, m);
                if net[aux1.0 as int].kind == NodeKind::Con && cond is Ok {
                    let zero_port = entered(net, Port(aux1.0, 1));
                    let succ_port = entered(net, Port(aux1.0, 2));
                    let state1 = after(cond, state);
                    let zero = read(net, book, zero_port, scope, state1, d);
                    law_read_at_any_depth(net, book, zero_port, scope, state1, d, m);
                    if zero is Ok {
                        let state2 = after(zero, state1);
                        law_read_at_any_depth(net, book, succ_port, scope, state2, d, m);
                    }
                }
            }
        },
        NodeKind::Dup { lab } => {
            if slot == 0 {
                if scope[lab].len() > 0 {
                    let chosen = entered(net, Port(node, scope[lab].last()));
                    law_read_at_any_depth(net, book, chosen, left_dup(scope, lab), state, d, m);
                } else {
                    lemma_two_at_any_depth(net, book, aux1, aux2, scope, state, d, m);
                }
            } else {
                let inner = entered_dup(scope, lab, slot);
                law_read_at_any_depth(net, book, main, inner, state, d, m);
            }
        },
        NodeKind::Op2 => {
            if slot == 2 {
                lemma_two_at_any_depth(net, book, main, aux1, scope, state, d, m);
            }
        },
        NodeKind::Tup => {
            if slot == 0 {
                lemma_two_at_any_depth(net, book, aux1, aux2, scope, state, d, m);
            }
        },
        _ => {},
    }
}

/// Two readings in turn that end within a depth are the same at any greater depth.
proof fn lemma_two_at_any_depth(
    net: Seq<Node>,
    book: BookView,
    fst: Port,
    snd: Port,
    scope: Map<u8, Seq<SlotId>>,
    state: State,
    depth: nat,
    more: nat,
)
    requires
        depth <= more,
        read(net, book, fst, scope, state, depth) != Err::<Reading, Stop>(Stop::Depth),
        read(net, book, fst, scope, state, depth) matches Ok(reading) ==> read(
            net,
            book,
            snd,
            scope,
            reading.state,
            depth,
        ) != Err::<Reading, Stop>(Stop::Depth),
    ensures
        read(net, book, fst, scope, state, more) == read(net, book, fst, scope, state, depth),
        read(net, book, fst, scope, state, depth) matches Ok(reading) ==> read(
            net,
            book,
            snd,
            scope,
            reading.state,
            more,
        ) == read(net, book, snd, scope, reading.state, depth),
    decreases depth, 1nat,
{
    law_read_at_any_depth(net, book, fst, scope, state, depth, more);
    if let Ok(reading) = read(net, book, fst, scope, state, depth) {
        law_read_at_any_depth(net, book, snd, scope, reading.state, depth, more);
    }
}

/// The `let`s are the same at any depth at which they can be read.
proof fn lemma_lets_at_any_depth(
    net: Seq<Node>,
    book: BookView,
    main: Reading,
    depth: nat,
    more: nat,
)
    requires
        depth <= more,
        read_lets(net, book, main, depth) != Err::<Reading, Stop>(Stop::Depth),
    ensures
        read_lets(net, book, main, more) == read_lets(net, book, main, depth),
    decreases depth,
{
    let lets = main.state.pending;
    if lets.stack.len() > 0 {
        let d = (depth - 1) as nat;
        let m = (more - 1) as nat;
        let tup = lets.stack.last();
        let port = entered(net, Port(tup, 0));
        let state = State { pending: lets.popped(), ..main.state };
        law_read_at_any_depth(net, book, port, no_dups(), state, d, m);
        if let Ok(val) = read(net, book, port, no_dups(), state, d) {
            if let Some((fst, names1)) = val.state.names.declared(net, Port(tup, 1)) {
                if let Some((snd, names2)) = names1.declared(net, Port(tup, 2)) {
                    let inner = Reading {
                        term: TermView::Let {
                            pat: LetPatView::Tup(fst, snd),
                            val: Box::new(val.term),
                            nxt: Box::new(main.term),
                        },
                        valid: main.valid && val.valid,
                        state: State { names: names2, ..val.state },
                    };
                    lemma_lets_at_any_depth(net, book, inner, d, m);
                }
            }
        }
    }
}

/// A net has one reading: whenever it can be read at all, it reads the same.
pub proof fn law_one_reading(net: Seq<Node>, book: BookView, depth1: nat, depth2: nat)
    requires
        read_net(net, book, depth1) is Ok,
        read_net(net, book, depth2) is Ok,
    ensures
        read_net(net, book, depth1) == read_net(net, book, depth2),
{
    if depth1 <= depth2 {
        lemma_net_at_any_depth(net, book, depth1, depth2);
    } else {
        lemma_net_at_any_depth(net, book, depth2, depth1);
    }
}

/// The reading of a whole net is the same at any greater depth.
proof fn lemma_net_at_any_depth(net: Seq<Node>, book: BookView, depth: nat, more: nat)
    requires
        depth <= more,
        read_net(net, book, depth) is Ok,
    ensures
        read_net(net, book, more) == read_net(net, book, depth),
{
    let port = entered(net, root_port());
    law_read_at_any_depth(net, book, port, no_dups(), State::initial(), depth, more);
    if let Ok(main) = read(net, book, port, no_dups(), State::initial(), depth) {
        lemma_lets_at_any_depth(net, book, main, depth, more);
    }
}

/// What the reader remembers.
spec fn remembered(names: VarNamesView, lets: PendingView) -> State {
    State { names, pending: lets, seen: Set::empty() }
}

/// Reads the net that is entered by `next`, recursively. Returns the term and whether it is a
/// valid readback.
fn reader(
    net: &INet,
    next: Port,
    names: &mut VarNames,
    dup_scope: &mut DupScope,
    lets: &mut Pending,
    book: &Book,
    Ghost(depth): Ghost<nat>,
) -> (res: (Term, bool))
    requires
        net.wf(),
        has_port(net@, next),
        is_scope(old(dup_scope)@),
        old(names)@.within(net@),
        old(lets)@.within(net@),
        read(
            net@,
            book@,
            next,
            old(dup_scope)@,
            remembered(old(names)@, old(lets)@),
            depth,
        ) is Ok,
    ensures
        final(dup_scope)@ == old(dup_scope)@,
        final(names)@.within(net@),
        final(lets)@.within(net@),
        read(
            net@,
            book@,
            next,
            old(dup_scope)@,
            remembered(old(names)@, old(lets)@),
            depth,
        ) == done(res.0@, res.1, remembered(final(names)@, final(lets)@)),
    decreases depth,
{
    let ghost scope = dup_scope@;
    let ghost inner = (depth - 1) as nat;
    let node = next.node();
    match net.node(node).kind {
        NodeKind::Era => {
            // Only the main port exists in an eraser.
            let valid = next.slot() == 0;
            (Term::Era, valid)
        },
        NodeKind::Con => {
            if next.slot() == 0 {
                // The main port: a lambda.
                let nam = names.decl_name(net, Port(node, 1));
                let prt = net.enter_port(Port(node, 2));
                let (bod, valid) = reader(net, prt, names, dup_scope, lets, book, Ghost(inner));
                (Term::Lam { nam, bod: Box::new(bod) }, valid)
            } else if next.slot() == 1 {
                // The port of the parameter: a variable.
                (Term::Var { nam: names.var_name(next) }, true)
            } else {
                // The port of the result: an application.
                let prt = net.enter_port(Port(node, 0));
                let (fun, fun_valid) = reader(
                    net,
                    prt,
                    names,
                    dup_scope,
                    lets,
                    book,
                    Ghost(inner),
                );
                let prt = net.enter_port(Port(node, 1));
                let (arg, arg_valid) = reader(
                    net,
                    prt,
                    names,
                    dup_scope,
                    lets,
                    book,
                    Ghost(inner),
                );
                let valid = fun_valid && arg_valid;
                (Term::App { fun: Box::new(fun), arg: Box::new(arg) }, valid)
            }
        },
        NodeKind::Mat => {
            if next.slot() != 2 {
                return unreached();
            }
            // Read the matched expression.
            let cond_port = net.enter_port(Port(node, 0));
            let (cond, cond_valid) = reader(
                net,
                cond_port,
                names,
                dup_scope,
                lets,
                book,
                Ghost(inner),
            );
            // The node that holds the two cases.
            let sel_node = net.enter_port(Port(node, 1)).node();
            let sel_kind = net.node(sel_node).kind;
            if sel_kind != NodeKind::Con {
                assert(term_view(Term::Era) == TermView::Era);
                let term = Term::Match {
                    cond: Box::new(cond),
                    zero: Box::new(Term::Era),
                    succ: Box::new(Term::Era),
                };
                return (term, false);
            }
            let zero_port = net.enter_port(Port(sel_node, 1));
            let (zero, zero_valid) = reader(
                net,
                zero_port,
                names,
                dup_scope,
                lets,
                book,
                Ghost(inner),
            );
            let succ_port = net.enter_port(Port(sel_node, 2));
            let (succ, succ_valid) = reader(
                net,
                succ_port,
                names,
                dup_scope,
                lets,
                book,
                Ghost(inner),
            );
            let valid = cond_valid && zero_valid && succ_valid;
            let term = Term::Match {
                cond: Box::new(cond),
                zero: Box::new(zero),
                succ: Box::new(succ),
            };
            (term, valid)
        },
        NodeKind::Ref { def_id } => {
            // Generated definitions are inlined.
            let mut term = Term::Ref { def_id };
            term.fix_names(&mut names.next, book);
            (term, true)
        },
        NodeKind::Dup { lab } => {
            if next.slot() == 0 {
                // The main port: a superposition.
                proof {
                    if scope[lab].len() > 0 {
                        lemma_left_dup_is_scope(scope, lab);
                    }
                }
                match dup_scope.pop(lab) {
                    Some(slot) => {
                        // There was a duplication with the same label on the way here: the
                        // superposition decays in the direction we came from.
                        let chosen = net.enter_port(Port(node, slot));
                        let (val, valid) = reader(
                            net,
                            chosen,
                            names,
                            dup_scope,
                            lets,
                            book,
                            Ghost(inner),
                        );
                        dup_scope.push(lab, slot);
                        (val, valid)
                    },
                    None => {
                        // No duplication with the same label on the way: the superposition
                        // stays.
                        let fst = net.enter_port(Port(node, 1));
                        let (fst, fst_valid) = reader(
                            net,
                            fst,
                            names,
                            dup_scope,
                            lets,
                            book,
                            Ghost(inner),
                        );
                        let snd = net.enter_port(Port(node, 2));
                        let (snd, snd_valid) = reader(
                            net,
                            snd,
                            names,
                            dup_scope,
                            lets,
                            book,
                            Ghost(inner),
                        );
                        let valid = fst_valid && snd_valid;
                        (Term::Sup { fst: Box::new(fst), snd: Box::new(snd) }, valid)
                    },
                }
            } else {
                // The other ports: one of the copies of what is duplicated.
                proof {
                    lemma_entered_dup_is_scope(scope, lab, next.1);
                }
                let body = net.enter_port(Port(node, 0));
                dup_scope.push(lab, next.slot());
                let (body, valid) = reader(
                    net,
                    body,
                    names,
                    dup_scope,
                    lets,
                    book,
                    Ghost(inner),
                );
                let _ = dup_scope.pop(lab);
                (body, valid)
            }
        },
        NodeKind::Num { val } => (Term::Num { val }, true),
        NodeKind::Op2 => {
            if next.slot() != 2 {
                return unreached();
            }
            let op_port = net.enter_port(Port(node, 0));
            let (op_term, op_valid) = reader(
                net,
                op_port,
                names,
                dup_scope,
                lets,
                book,
                Ghost(inner),
            );
            let arg_port = net.enter_port(Port(node, 1));
            let (arg_term, arg_valid) = reader(
                net,
                arg_port,
                names,
                dup_scope,
                lets,
                book,
                Ghost(inner),
            );
            let valid = op_valid && arg_valid;
            (apply(op_term, arg_term), valid)
        },
        NodeKind::Rot => (Term::Era, false),
        NodeKind::Tup => {
            if next.slot() == 0 {
                // The main port: a pair.
                let fst = net.enter_port(Port(node, 1));
                let (fst, fst_valid) = reader(
                    net,
                    fst,
                    names,
                    dup_scope,
                    lets,
                    book,
                    Ghost(inner),
                );
                let snd = net.enter_port(Port(node, 2));
                let (snd, snd_valid) = reader(
                    net,
                    snd,
                    names,
                    dup_scope,
                    lets,
                    book,
                    Ghost(inner),
                );
                let valid = fst_valid && snd_valid;
                (Term::Tup { fst: Box::new(fst), snd: Box::new(snd) }, valid)
            } else {
                // The other ports: a variable of a `let`, which is kept to be read later.
                lets.note(node);
                (Term::Var { nam: names.var_name(next) }, true)
            }
        },
    }
}

/// Converts an interaction net to a term of the lambda calculus, resolving duplications and
/// superpositions where possible. Returns the term and whether it is a valid readback.
pub fn net_to_term_non_linear(net: &INet, book: &Book) -> (res: (Term, bool))
    requires
        net.wf(),
        readable(net@, book@),
    ensures
        forall|depth: nat|
            (#[trigger] read_net(net@, book@, depth)) matches Ok(reading) ==> res.0@
                == reading.term && res.1 == reading.valid,
{
    let ghost depth = choose|depth: nat| #[trigger] read_net(net@, book@, depth) is Ok;
    let ghost whole = read_net(net@, book@, depth);
    proof {
        assert forall|other: nat| read_net(net@, book@, other) is Ok implies #[trigger] read_net(
            net@,
            book@,
            other,
        ) == whole by {
            law_one_reading(net@, book@, depth, other);
        }
    }
    let mut names = VarNames::new();
    let mut dup_scope = DupScope::new();
    let mut lets = Pending::new();

    // Read the main term.
    let (mut main, mut valid) = reader(
        net,
        net.enter_root(),
        &mut names,
        &mut dup_scope,
        &mut lets,
        book,
        Ghost(depth),
    );

    // Read the values that the `let`s take apart.
    let ghost mut rest = depth;
    loop
        invariant_except_break
            net.wf(),
            dup_scope@ == no_dups(),
            names@.within(net@),
            lets@.within(net@),
            whole is Ok,
            read_lets(
                net@,
                book@,
                (Reading { term: main@, valid, state: remembered(names@, lets@) }),
                rest,
            ) == whole,
        ensures
            whole matches Ok(reading) && main@ == reading.term && valid == reading.valid,
        decreases rest,
    {
        match lets.pop() {
            None => {
                break;
            },
            Some(tup) => {
                proof {
                    rest = (rest - 1) as nat;
                }
                let val = net.enter_port(Port(tup, 0));
                let (val, val_valid) = reader(
                    net,
                    val,
                    &mut names,
                    &mut dup_scope,
                    &mut lets,
                    book,
                    Ghost(rest),
                );
                let fst = names.decl_name(net, Port(tup, 1));
                let snd = names.decl_name(net, Port(tup, 2));
                main = Term::Let {
                    pat: LetPat::Tup(fst, snd),
                    val: Box::new(val),
                    nxt: Box::new(main),
                };
                valid = valid && val_valid;
            },
        }
    }
    (main, valid)
}

} // verus!
