//! Readback into the interaction calculus, where duplications and superpositions stay.

use vstd::pervasive::unreached;
use vstd::prelude::*;

use crate::book::{Book, BookView};
use crate::name::Name;
use crate::net::{entered, has_port, root_port, INet, Node, NodeId, NodeKind, Port, SlotId};
use crate::ports::PortSet;
use crate::reading::{
    after, application, apply, caseless, distinction, done, lambda, operation, pair, reference,
    superposition, variable, Outcome, Reading, State, Stop,
};
use crate::state::{Pending, PendingView, VarNames, VarNamesView};
use crate::term::{term_view, Term, TermView};

verus! {

/// The name of the variable that stands for what would be read a second time.
pub open spec fn ellipsis() -> Seq<char> {
    seq!['.', '.', '.']
}

/// `state` with a port seen.
pub open spec fn mark(state: State, port: Port) -> State {
    State { seen: state.seen.insert(port), ..state }
}

/// `state` with all ports of a node seen.
pub open spec fn mark_node(state: State, node: NodeId) -> State {
    mark(mark(mark(state, Port(node, 0)), Port(node, 1)), Port(node, 2))
}

/// The reading of the net that is entered by `next`, in at most `depth` nested steps. What was
/// seen before is not read again.
pub open spec fn read(
    net: Seq<Node>,
    book: BookView,
    next: Port,
    state: State,
    depth: nat,
) -> Outcome
    decreases depth,
{
    let node = next.0;
    let slot = next.1;
    let main = entered(net, Port(node, 0));
    let aux1 = entered(net, Port(node, 1));
    let aux2 = entered(net, Port(node, 2));
    if state.seen.contains(next) {
        done(TermView::Var { nam: ellipsis() }, false, state)
    } else if depth == 0 {
        Err(Stop::Depth)
    } else {
        let depth = (depth - 1) as nat;
        let state = mark(state, next);
        match net[node as int].kind {
            // An eraser has only a main port.
            NodeKind::Era => done(TermView::Era, slot == 0, state),
            NodeKind::Con => if slot == 0 {
                match state.names.declared(net, Port(node, 1)) {
                    None => Err(Stop::Stuck),
                    Some((nam, names)) => {
                        let state = State { names, ..mark(state, Port(node, 2)) };
                        lambda(nam, read(net, book, aux2, state, depth))
                    },
                }
            } else if slot == 1 {
                variable(next, state)
            } else {
                let state = mark(mark(state, Port(node, 0)), Port(node, 1));
                let fun = read(net, book, main, state, depth);
                let arg = read(net, book, aux1, after(fun, state), depth);
                application(fun, arg)
            },
            NodeKind::Mat => if slot == 2 {
                let state = mark(mark(state, Port(node, 0)), Port(node, 1));
                let cond = read(net, book, main, state, depth);
                // The node that holds the cases counts as seen, whatever it is.
                let state = mark_node(after(cond, state), aux1.0);
                if net[aux1.0 as int].kind == NodeKind::Con {
                    let zero_port = entered(net, Port(aux1.0, 1));
                    let succ_port = entered(net, Port(aux1.0, 2));
                    let zero = read(net, book, zero_port, state, depth);
                    let succ = read(net, book, succ_port, after(zero, state), depth);
                    distinction(cond, zero, succ)
                } else {
                    caseless(cond, state)
                }
            } else {
                Err(Stop::Stuck)
            },
            NodeKind::Ref { def_id } => reference(def_id, book, state),
            NodeKind::Dup { .. } => if slot == 0 {
                let state = mark(mark(state, Port(node, 1)), Port(node, 2));
                let fst = read(net, book, aux1, state, depth);
                let snd = read(net, book, aux2, after(fst, state), depth);
                superposition(fst, snd)
            } else {
                // The variable of a duplication, which is kept to be read later.
                variable(next, State { pending: state.pending.noted(node), ..state })
            },
            NodeKind::Num { val } => done(TermView::Num { val }, true, state),
            NodeKind::Op2 => if slot == 2 {
                let state = mark(mark(state, Port(node, 0)), Port(node, 1));
                let op = read(net, book, main, state, depth);
                let arg = read(net, book, aux1, after(op, state), depth);
                operation(op, arg)
            } else {
                Err(Stop::Stuck)
            },
            // The root is not met again in a proper net.
            NodeKind::Rot => done(TermView::Era, false, state),
            NodeKind::Tup => {
                let state = mark(mark(state, Port(node, 1)), Port(node, 2));
                let fst = read(net, book, aux1, state, depth);
                let snd = read(net, book, aux2, after(fst, state), depth);
                pair(fst, snd)
            },
        }
    }
}

/// `main` in the scope of every duplication that is still to be read: the one last found is the
/// innermost, and reading its value may find more.
pub open spec fn read_dups(
    net: Seq<Node>,
    book: BookView,
    main: Reading,
    depth: nat,
) -> Outcome
    decreases depth,
{
    let dups = main.state.pending;
    if dups.stack.len() == 0 {
        Ok(main)
    } else if depth == 0 {
        Err(Stop::Depth)
    } else {
        let depth = (depth - 1) as nat;
        let dup = dups.stack.last();
        let state = mark(State { pending: dups.popped(), ..main.state }, Port(dup, 0));
        match read(net, book, entered(net, Port(dup, 0)), state, depth) {
            Err(stop) => Err(stop),
            Ok(val) => match val.state.names.declared(net, Port(dup, 1)) {
                None => Err(Stop::Stuck),
                Some((fst, names1)) => match names1.declared(net, Port(dup, 2)) {
                    None => Err(Stop::Stuck),
                    Some((snd, names2)) => read_dups(
                        net,
                        book,
                        Reading {
                            term: TermView::Dup {
                                fst,
                                snd,
                                val: Box::new(val.term),
                                nxt: Box::new(main.term),
                            },
                            valid: main.valid && val.valid,
                            state: State { names: names2, ..val.state },
                        },
                        depth,
                    ),
                },
            },
        }
    }
}

/// Whether a port was seen, or leads to an eraser.
pub open spec fn is_read(net: Seq<Node>, seen: Set<Port>, port: Port) -> bool {
    seen.contains(port) || net[entered(net, port).0 as int].kind == NodeKind::Era
}

/// Whether all ports of a node were seen, but for those that lead to an eraser.
pub open spec fn is_node_read(net: Seq<Node>, seen: Set<Port>, node: NodeId) -> bool {
    forall|slot: SlotId| slot < 3 ==> #[trigger] is_read(net, seen, Port(node, slot))
}

/// Whether every node that binds a variable was read.
pub open spec fn binders_read(net: Seq<Node>, names: VarNamesView, seen: Set<Port>) -> bool {
    forall|port: Port| #[trigger]
        names.ids.contains_key(port) ==> is_node_read(net, seen, port.0)
}

/// A depth that suffices for any net: no port is read twice, and no duplication waits twice.
pub open spec fn ample_depth(net: Seq<Node>) -> nat {
    4 * net.len()
}

/// The reading of a whole net. It is valid if all its parts are and no binder was left unread.
pub open spec fn read_net(net: Seq<Node>, book: BookView) -> Outcome {
    let depth = ample_depth(net);
    match read(net, book, entered(net, root_port()), State::initial(), depth) {
        Err(stop) => Err(stop),
        Ok(main) => match read_dups(net, book, main, depth) {
            Err(stop) => Err(stop),
            Ok(all) => done(
                all.term,
                all.valid && binders_read(net, all.state.names, all.state.seen),
                all.state,
            ),
        },
    }
}

/// Whether the net can be read: nothing that is met lacks a reading.
pub open spec fn readable(net: Seq<Node>, book: BookView) -> bool {
    read_net(net, book) is Ok
}

/// What the reader remembers.
spec fn remembered(names: VarNamesView, dups: PendingView, seen: Set<Port>) -> State {
    State { names, pending: dups, seen }
}

/// Reads the net that is entered by `next`, recursively. Returns the term and whether it is a
/// valid readback.
fn reader(
    net: &INet,
    next: Port,
    names: &mut VarNames,
    dups: &mut Pending,
    seen: &mut PortSet,
    book: &Book,
    Ghost(depth): Ghost<nat>,
) -> (res: (Term, bool))
    requires
        net.wf(),
        has_port(net@, next),
        old(names)@.within(net@),
        old(dups)@.within(net@),
        read(net@, book@, next, remembered(old(names)@, old(dups)@, old(seen)@), depth) is Ok,
    ensures
        final(names)@.within(net@),
        final(dups)@.within(net@),
        read(net@, book@, next, remembered(old(names)@, old(dups)@, old(seen)@), depth) == done(
            res.0@,
            res.1,
            remembered(final(names)@, final(dups)@, final(seen)@),
        ),
    decreases depth,
{
    if seen.contains(next) {
        proof {
            reveal_strlit("...");
            assert("..."@ =~= ellipsis());
        }
        return (Term::Var { nam: Name::new("...") }, false);
    }
    seen.insert(next);
    let ghost inner = (depth - 1) as nat;
    let node = next.node();
    match net.node(node).kind {
        NodeKind::Era => {
            // Only the main port exists in an eraser.
            let valid = next.slot() == 0;
            (Term::Era, valid)
        },
        NodeKind::Con => {
            if next.slot() == 0 {
                // The main port: a lambda.
                seen.insert(Port(node, 2));
                let nam = names.decl_name(net, Port(node, 1));
                let prt = net.enter_port(Port(node, 2));
                let (bod, valid) = reader(net, prt, names, dups, seen, book, Ghost(inner));
                (Term::Lam { nam, bod: Box::new(bod) }, valid)
            } else if next.slot() == 1 {
                // The port of the parameter: a variable.
                (Term::Var { nam: names.var_name(next) }, true)
            } else {
                // The port of the result: an application.
                seen.insert(Port(node, 0));
                seen.insert(Port(node, 1));
                let prt = net.enter_port(Port(node, 0));
                let (fun, fun_valid) = reader(net, prt, names, dups, seen, book, Ghost(inner));
                let prt = net.enter_port(Port(node, 1));
                let (arg, arg_valid) = reader(net, prt, names, dups, seen, book, Ghost(inner));
                let valid = fun_valid && arg_valid;
                (Term::App { fun: Box::new(fun), arg: Box::new(arg) }, valid)
            }
        },
        NodeKind::Mat => {
            if next.slot() != 2 {
                return unreached();
            }
            // Read the matched expression.
            seen.insert(Port(node, 0));
            seen.insert(Port(node, 1));
            let cond_port = net.enter_port(Port(node, 0));
            let (cond, cond_valid) = reader(net, cond_port, names, dups, seen, book, Ghost(inner));
            // The node that holds the two cases.
            let sel_node = net.enter_port(Port(node, 1)).node();
            seen.insert(Port(sel_node, 0));
            seen.insert(Port(sel_node, 1));
            seen.insert(Port(sel_node, 2));
            let sel_kind = net.node(sel_node).kind;
            if sel_kind != NodeKind::Con {
                assert(term_view(Term::Era) == TermView::Era);
                let term = Term::Match {
                    cond: Box::new(cond),
                    zero: Box::new(Term::Era),
                    succ: Box::new(Term::Era),
                };
                return (term, false);
            }
            let zero_port = net.enter_port(Port(sel_node, 1));
            let (zero, zero_valid) = reader(net, zero_port, names, dups, seen, book, Ghost(inner));
            let succ_port = net.enter_port(Port(sel_node, 2));
            let (succ, succ_valid) = reader(net, succ_port, names, dups, seen, book, Ghost(inner));
            let valid = cond_valid && zero_valid && succ_valid;
            let term = Term::Match {
                cond: Box::new(cond),
                zero: Box::new(zero),
                succ: Box::new(succ),
            };
            (term, valid)
        },
        NodeKind::Ref { def_id } => {
            // Generated definitions are inlined.
            let mut term = Term::Ref { def_id };
            term.fix_names(&mut names.next, book);
            (term, true)
        },
        NodeKind::Dup { .. } => {
            if next.slot() == 0 {
                // The main port: a superposition.
                seen.insert(Port(node, 1));
                seen.insert(Port(node, 2));
                let fst_port = net.enter_port(Port(node, 1));
                let (fst, fst_valid) = reader(net, fst_port, names, dups, seen, book, Ghost(inner));
                let snd_port = net.enter_port(Port(node, 2));
                let (snd, snd_valid) = reader(net, snd_port, names, dups, seen, book, Ghost(inner));
                let valid = fst_valid && snd_valid;
                (Term::Sup { fst: Box::new(fst), snd: Box::new(snd) }, valid)
            } else {
                // The other ports: a variable of the duplication, which is kept to be read later.
                dups.note(node);
                (Term::Var { nam: names.var_name(next) }, true)
            }
        },
        NodeKind::Num { val } => (Term::Num { val }, true),
        NodeKind::Op2 => {
            if next.slot() != 2 {
                return unreached();
            }
            seen.insert(Port(node, 0));
            seen.insert(Port(node, 1));
            let op_port = net.enter_port(Port(node, 0));
            let (op_term, op_valid) = reader(net, op_port, names, dups, seen, book, Ghost(inner));
            let arg_port = net.enter_port(Port(node, 1));
            let (arg_term, arg_valid) = reader(
                net,
                arg_port,
                names,
                dups,
                seen,
                book,
                Ghost(inner),
            );
            let valid = op_valid && arg_valid;
            (apply(op_term, arg_term), valid)
        },
        // If the root is met again, something went wrong with this net.
        NodeKind::Rot => (Term::Era, false),
        NodeKind::Tup => {
            seen.insert(Port(node, 1));
            seen.insert(Port(node, 2));
            let fst_port = net.enter_port(Port(node, 1));
            let (fst, fst_valid) = reader(net, fst_port, names, dups, seen, book, Ghost(inner));
            let snd_port = net.enter_port(Port(node, 2));
            let (snd, snd_valid) = reader(net, snd_port, names, dups, seen, book, Ghost(inner));
            let valid = fst_valid && snd_valid;
            (Term::Tup { fst: Box::new(fst), snd: Box::new(snd) }, valid)
        },
    }
}

/// Whether all ports of a node were seen, but for those that lead to an eraser.
fn check_node(net: &INet, seen: &PortSet, node: NodeId) -> (res: bool)
    requires
        net.wf(),
        node < net@.len(),
    ensures
        res == is_node_read(net@, seen@, node),
{
    for slot in 0..3usize
        invariant
            net.wf(),
            node < net@.len(),
            forall|i: SlotId| i < slot ==> #[trigger] is_read(net@, seen@, Port(node, i)),
    {
        let port = Port(node, slot);
        let other_node = net.enter_port(port).node();
        if !seen.contains(port) && net.node(other_node).kind != NodeKind::Era {
            assert(!is_read(net@, seen@, Port(node, slot)));
            return false;
        }
    }
    true
}

/// Whether no node that binds a variable was left unread, for example by reading a variable of
/// a lambda but never the lambda itself.
fn check_binders(net: &INet, names: &VarNames, seen: &PortSet) -> (res: bool)
    requires
        net.wf(),
        names@.within(net@),
    ensures
        res == binders_read(net@, names@, seen@),
{
    let nodes = names.ids.nodes();
    assert(names@.ids == names.ids@);
    let mut i: usize = 0;
    while i < nodes.len()
        invariant
            net.wf(),
            names@.within(net@),
            i <= nodes@.len(),
            forall|node: NodeId| #[trigger]
                nodes@.contains(node) ==> exists|port: Port| #[trigger]
                    names@.ids.contains_key(port) && port.0 == node,
            forall|j: int| 0 <= j < i ==> is_node_read(net@, seen@, #[trigger] nodes@[j]),
        decreases nodes@.len() - i,
    {
        assert(nodes@.contains(nodes@[i as int]));
        if !check_node(net, seen, nodes[i]) {
            return false;
        }
        i += 1;
    }
    true
}

/// Converts an interaction net to a term of the interaction calculus. Returns the term and
/// whether it is a valid readback.
pub fn net_to_term_linear(net: &INet, book: &Book) -> (res: (Term, bool))
    requires
        net.wf(),
        readable(net@, book@),
    ensures
        read_net(net@, book@) matches Ok(reading) && res.0@ == reading.term && res.1
            == reading.valid,
{
    let mut names = VarNames::new();
    // Duplications have no scope. We find them when we read one of their variables, and store
    // them to read later.
    let mut dups = Pending::new();
    let mut seen = PortSet::new();
    let ghost depth = ample_depth(net@);

    // Read the main term.
    let (mut main, mut valid) = reader(
        net,
        net.enter_root(),
        &mut names,
        &mut dups,
        &mut seen,
        book,
        Ghost(depth),
    );

    // Read the values that the duplications copy.
    let ghost whole = read_dups(
        net@,
        book@,
        (Reading { term: main@, valid, state: remembered(names@, dups@, seen@) }),
        depth,
    );
    let ghost mut rest = depth;
    loop
        invariant_except_break
            net.wf(),
            names@.within(net@),
            dups@.within(net@),
            whole is Ok,
            read_dups(
                net@,
                book@,
                (Reading { term: main@, valid, state: remembered(names@, dups@, seen@) }),
                rest,
            ) == whole,
        ensures
            names@.within(net@),
            whole == done(main@, valid, remembered(names@, dups@, seen@)),
        decreases rest,
    {
        match dups.pop() {
            None => {
                break;
            },
            Some(dup) => {
                proof {
                    rest = (rest - 1) as nat;
                }
                seen.insert(Port(dup, 0));
                let val = net.enter_port(Port(dup, 0));
                let (val, val_valid) = reader(
                    net,
                    val,
                    &mut names,
                    &mut dups,
                    &mut seen,
                    book,
                    Ghost(rest),
                );
                let fst = names.decl_name(net, Port(dup, 1));
                let snd = names.decl_name(net, Port(dup, 2));
                main = Term::Dup { fst, snd, val: Box::new(val), nxt: Box::new(main) };
                valid = valid && val_valid;
            },
        }
    }

    // Check that the readback left no binder unread.
    if !check_binders(net, &names, &seen) {
        valid = false;
    }
    (main, valid)
}

} // verus!
