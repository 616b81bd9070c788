//! What the linear readback does at each kind of node.

use vstd::prelude::*;

use crate::book::BookView;
use crate::fix_names::refreshed;
use crate::linear::{binders_read, is_node_read, is_read, read, read_dups, read_net, readable};
use crate::name::Val;
use crate::net::{entered, Node, NodeId, NodeKind, Port, SlotId};
use crate::reading::{applied, Reading, State, Stop};
use crate::state::{PendingView, VarNamesView};
use crate::term::{DefId, TermView};

verus! {

/// What was seen is not read again: it reads as a variable called `...`, which is not valid, and
/// nothing changes.
pub proof fn law_linear_goes_nowhere_twice(
    net: Seq<Node>,
    book: BookView,
    port: Port,
    state: State,
    depth: nat,
)
    requires
        state.seen.contains(port),
    ensures
        read(net, book, port, state, depth) == Ok::<Reading, Stop>(
            Reading { term: TermView::Var { nam: seq!['.', '.', '.'] }, valid: false, state },
        ),
{
}

/// An eraser reads as an erased term, which is valid if it is entered by the main port.
pub proof fn law_linear_eraser(
    net: Seq<Node>,
    book: BookView,
    node: NodeId,
    slot: SlotId,
    state: State,
    depth: nat,
)
    requires
        net[node as int].kind == NodeKind::Era,
        !state.seen.contains(Port(node, slot)),
    ensures
        read(net, book, Port(node, slot), state, depth + 1) == Ok::<Reading, Stop>(
            Reading {
                term: TermView::Era,
                valid: slot == 0,
                state: State { seen: state.seen.insert(Port(node, slot)), ..state },
            },
        ),
{
}

/// The root reads as an erased term, which is not valid.
pub proof fn law_linear_root(
    net: Seq<Node>,
    book: BookView,
    node: NodeId,
    slot: SlotId,
    state: State,
    depth: nat,
)
    requires
        net[node as int].kind == NodeKind::Rot,
        !state.seen.contains(Port(node, slot)),
    ensures
        read(net, book, Port(node, slot), state, depth + 1) == Ok::<Reading, Stop>(
            Reading {
                term: TermView::Era,
                valid: false,
                state: State { seen: state.seen.insert(Port(node, slot)), ..state },
            },
        ),
{
}

/// A number reads as itself.
pub proof fn law_linear_number(
    net: Seq<Node>,
    book: BookView,
    node: NodeId,
    slot: SlotId,
    val: Val,
    state: State,
    depth: nat,
)
    requires
        net[node as int].kind == (NodeKind::Num { val }),
        !state.seen.contains(Port(node, slot)),
    ensures
        read(net, book, Port(node, slot), state, depth + 1) == Ok::<Reading, Stop>(
            Reading {
                term: TermView::Num { val },
                valid: true,
                state: State { seen: state.seen.insert(Port(node, slot)), ..state },
            },
        ),
{
}

/// A reference to a definition whose name holds no `$` reads as itself. One to a generated
/// definition reads as the body of the definition with fresh names, and has no reading if there
/// is no such body.
pub proof fn law_linear_reference(
    net: Seq<Node>,
    book: BookView,
    node: NodeId,
    slot: SlotId,
    def_id: DefId,
    state: State,
    depth: nat,
)
    requires
        net[node as int].kind == (NodeKind::Ref { def_id }),
        !state.seen.contains(Port(node, slot)),
    ensures
        ({
            let next = state.names.next;
            let here = read(net, book, Port(node, slot), state, depth + 1);
            if book.names.contains_key(def_id) && exists|i: int|
                0 <= i < book.names[def_id].len() && #[trigger] book.names[def_id][i] == '$' {
                match refreshed(book.bodies[def_id], next, book, Set::empty().insert(def_id)) {
                    Some((term, end)) if book.bodies.contains_key(def_id) => here == Ok::<
                        Reading,
                        Stop,
                    >(
                        Reading {
                            term,
                            valid: true,
                            state: State {
                                names: VarNamesView { next: end, ..state.names },
                                ..State { seen: state.seen.insert(Port(node, slot)), ..state }
                            },
                        },
                    ),
                    _ => here == Err::<Reading, Stop>(Stop::Stuck),
                }
            } else {
                here == Ok::<Reading, Stop>(
                    Reading {
                        term: TermView::Ref { def_id },
                        valid: true,
                        state: State { seen: state.seen.insert(Port(node, slot)), ..state },
                    },
                )
            }
        }),
{
}

/// A constructor that is entered by the main port reads as a lambda: its variable is declared,
/// and its body is what is read on from the third port.
pub proof fn law_linear_lambda(
    net: Seq<Node>,
    book: BookView,
    node: NodeId,
    state: State,
    depth: nat,
)
    requires
        net[node as int].kind == NodeKind::Con,
        !state.seen.contains(Port(node, 0)),
    ensures
        read(net, book, Port(node, 0), state, depth + 1)
            == match state.names.declared(net, Port(node, 1)) {
            None => Err::<Reading, Stop>(Stop::Stuck),
            Some((nam, names)) => {
                let st = State {
                    names,
                    seen: state.seen.insert(Port(node, 0)).insert(Port(node, 2)),
                    ..state
                };
                match read(net, book, entered(net, Port(node, 2)), st, depth) {
                    Err(stop) => Err::<Reading, Stop>(stop),
                    Ok(bod) => Ok(
                        Reading {
                            term: TermView::Lam { nam, bod: Box::new(bod.term) },
                            valid: bod.valid,
                            state: bod.state,
                        },
                    ),
                }
            },
        },
{
}

/// A constructor that is entered by the second port reads as its variable, which gets a name if
/// it has none.
pub proof fn law_linear_variable_of_lambda(
    net: Seq<Node>,
    book: BookView,
    node: NodeId,
    state: State,
    depth: nat,
)
    requires
        net[node as int].kind == NodeKind::Con,
        !state.seen.contains(Port(node, 1)),
    ensures
        read(net, book, Port(node, 1), state, depth + 1) == match state.names.named(Port(node, 1)) {
            None => Err::<Reading, Stop>(Stop::Stuck),
            Some((nam, names)) => Ok(
                Reading {
                    term: TermView::Var { nam },
                    valid: true,
                    state: State {
                        names,
                        seen: state.seen.insert(Port(node, 1)),
                        ..state
                    },
                },
            ),
        },
{
}

/// A constructor that is entered by the third port reads as the application of what is read on
/// from the main port to what is then read on from the second port.
pub proof fn law_linear_application(
    net: Seq<Node>,
    book: BookView,
    node: NodeId,
    state: State,
    depth: nat,
)
    requires
        net[node as int].kind == NodeKind::Con,
        !state.seen.contains(Port(node, 2)),
    ensures
        ({
            let st = State {
                seen: state.seen.insert(Port(node, 2)).insert(Port(node, 0)).insert(Port(node, 1)),
                ..state
            };
            read(net, book, Port(node, 2), state, depth + 1)
                == match read(net, book, entered(net, Port(node, 0)), st, depth) {
                Err(stop) => Err::<Reading, Stop>(stop),
                Ok(fun) => match read(net, book, entered(net, Port(node, 1)), fun.state, depth) {
                    Err(stop) => Err::<Reading, Stop>(stop),
                    Ok(arg) => Ok(
                        Reading {
                            term: TermView::App {
                                fun: Box::new(fun.term),
                                arg: Box::new(arg.term),
                            },
                            valid: fun.valid && arg.valid,
                            state: arg.state,
                        },
                    ),
                },
            }
        }),
{
}

/// A case distinction that is entered by the third port reads as one: the number is what is read
/// on from the main port, and the cases are what is then read on from the second and third port
/// of the constructor that the second port leads to. It is valid exactly if all three readings
/// are. The cases are erased exactly if there is no such constructor, and this is not valid.
pub proof fn law_linear_distinction(
    net: Seq<Node>,
    book: BookView,
    node: NodeId,
    state: State,
    depth: nat,
)
    requires
        net[node as int].kind == NodeKind::Mat,
        !state.seen.contains(Port(node, 2)),
    ensures
        ({
            let st = State {
                seen: state.seen.insert(Port(node, 2)).insert(Port(node, 0)).insert(Port(node, 1)),
                ..state
            };
            let sel = entered(net, Port(node, 1)).0;
            read(net, book, Port(node, 2), state, depth + 1)
                == match read(net, book, entered(net, Port(node, 0)), st, depth) {
                Err(stop) => Err::<Reading, Stop>(stop),
                Ok(cond) => {
                    let st = State {
                        seen: cond.state.seen.insert(Port(sel, 0)).insert(Port(sel, 1)).insert(
                            Port(sel, 2),
                        ),
                        ..cond.state
                    };
                    if net[sel as int].kind == NodeKind::Con {
                        match read(net, book, entered(net, Port(sel, 1)), st, depth) {
                            Err(stop) => Err::<Reading, Stop>(stop),
                            Ok(zero) => match read(
                                net,
                                book,
                                entered(net, Port(sel, 2)),
                                zero.state,
                                depth,
                            ) {
                                Err(stop) => Err::<Reading, Stop>(stop),
                                Ok(succ) => Ok(
                                    Reading {
                                        term: TermView::Match {
                                            cond: Box::new(cond.term),
                                            zero: Box::new(zero.term),
                                            succ: Box::new(succ.term),
                                        },
                                        valid: cond.valid && zero.valid && succ.valid,
                                        state: succ.state,
                                    },
                                ),
                            },
                        }
                    } else {
                        Ok(
                            Reading {
                                term: TermView::Match {
                                    cond: Box::new(cond.term),
                                    zero: Box::new(TermView::Era),
                                    succ: Box::new(TermView::Era),
                                },
                                valid: false,
                                state: st,
                            },
                        )
                    }
                },
            }
        }),
{
}

/// An operation that is entered by the third port reads as what is read on from the main port,
/// applied to what is then read on from the second port.
pub proof fn law_linear_operation(
    net: Seq<Node>,
    book: BookView,
    node: NodeId,
    state: State,
    depth: nat,
)
    requires
        net[node as int].kind == NodeKind::Op2,
        !state.seen.contains(Port(node, 2)),
    ensures
        ({
            let st = State {
                seen: state.seen.insert(Port(node, 2)).insert(Port(node, 0)).insert(Port(node, 1)),
                ..state
            };
            read(net, book, Port(node, 2), state, depth + 1)
                == match read(net, book, entered(net, Port(node, 0)), st, depth) {
                Err(stop) => Err::<Reading, Stop>(stop),
                Ok(op) => match read(net, book, entered(net, Port(node, 1)), op.state, depth) {
                    Err(stop) => Err::<Reading, Stop>(stop),
                    Ok(arg) => match applied(op.term, arg.term) {
                        None => Err::<Reading, Stop>(Stop::Stuck),
                        Some(term) => Ok(
                            Reading { term, valid: op.valid && arg.valid, state: arg.state },
                        ),
                    },
                },
            }
        }),
{
}

/// A duplication that is entered by the main port reads as the superposition of what is read on
/// from the second port and what is then read on from the third.
pub proof fn law_linear_superposition(
    net: Seq<Node>,
    book: BookView,
    node: NodeId,
    state: State,
    depth: nat,
)
    requires
        net[node as int].kind is Dup,
        !state.seen.contains(Port(node, 0)),
    ensures
        ({
            let st = State {
                seen: state.seen.insert(Port(node, 0)).insert(Port(node, 1)).insert(Port(node, 2)),
                ..state
            };
            read(net, book, Port(node, 0), state, depth + 1)
                == match read(net, book, entered(net, Port(node, 1)), st, depth) {
                Err(stop) => Err::<Reading, Stop>(stop),
                Ok(fst) => match read(net, book, entered(net, Port(node, 2)), fst.state, depth) {
                    Err(stop) => Err::<Reading, Stop>(stop),
                    Ok(snd) => Ok(
                        Reading {
                            term: TermView::Sup {
                                fst: Box::new(fst.term),
                                snd: Box::new(snd.term),
                            },
                            valid: fst.valid && snd.valid,
                            state: snd.state,
                        },
                    ),
                },
            }
        }),
{
}

/// A duplication that is entered by another port than the main one reads as the variable of that
/// port, which gets a name if it has none, and the duplication is noted to be read later.
pub proof fn law_linear_variable_of_duplication(
    net: Seq<Node>,
    book: BookView,
    node: NodeId,
    slot: SlotId,
    state: State,
    depth: nat,
)
    requires
        net[node as int].kind is Dup,
        slot != 0,
        !state.seen.contains(Port(node, slot)),
    ensures
        read(net, book, Port(node, slot), state, depth + 1)
            == match state.names.named(Port(node, slot)) {
            None => Err::<Reading, Stop>(Stop::Stuck),
            Some((nam, names)) => Ok(
                Reading {
                    term: TermView::Var { nam },
                    valid: true,
                    state: State {
                        names,
                        pending: state.pending.noted(node),
                        seen: state.seen.insert(Port(node, slot)),
                    },
                },
            ),
        },
{
}

/// A pair reads as one, by whatever port it is entered: its components are what is read on from
/// the second port and what is then read on from the third.
pub proof fn law_linear_pair(
    net: Seq<Node>,
    book: BookView,
    node: NodeId,
    slot: SlotId,
    state: State,
    depth: nat,
)
    requires
        net[node as int].kind == NodeKind::Tup,
        !state.seen.contains(Port(node, slot)),
    ensures
        ({
            let st = State {
                seen: state.seen.insert(Port(node, slot)).insert(Port(node, 1)).insert(
                    Port(node, 2),
                ),
                ..state
            };
            read(net, book, Port(node, slot), state, depth + 1)
                == match read(net, book, entered(net, Port(node, 1)), st, depth) {
                Err(stop) => Err::<Reading, Stop>(stop),
                Ok(fst) => match read(net, book, entered(net, Port(node, 2)), fst.state, depth) {
                    Err(stop) => Err::<Reading, Stop>(stop),
                    Ok(snd) => Ok(
                        Reading {
                            term: TermView::Tup {
                                fst: Box::new(fst.term),
                                snd: Box::new(snd.term),
                            },
                            valid: fst.valid && snd.valid,
                            state: snd.state,
                        },
                    ),
                },
            }
        }),
{
}

/// Case distinctions and operations have no reading from another port than the third.
pub proof fn law_linear_result_is_the_third_port(
    net: Seq<Node>,
    book: BookView,
    node: NodeId,
    slot: SlotId,
    state: State,
    depth: nat,
)
    requires
        net[node as int].kind == NodeKind::Mat || net[node as int].kind == NodeKind::Op2,
        slot != 2,
        !state.seen.contains(Port(node, slot)),
    ensures
        read(net, book, Port(node, slot), state, depth + 1) == Err::<Reading, Stop>(
            Stop::Stuck,
        ),
{
}

/// No step can be taken where none is allowed.
pub proof fn law_linear_needs_steps(
    net: Seq<Node>,
    book: BookView,
    port: Port,
    state: State,
)
    requires
        !state.seen.contains(port),
    ensures
        read(net, book, port, state, 0) == Err::<Reading, Stop>(Stop::Depth),
{
}

/// Where no duplication waits, the reading stays as it is.
pub proof fn law_linear_is_complete(net: Seq<Node>, book: BookView, main: Reading, depth: nat)
    requires
        main.state.pending.stack.len() == 0,
    ensures
        read_dups(net, book, main, depth) == Ok::<Reading, Stop>(main),
{
}

/// The duplication that waits last is read next: what is read on from its main port is the value,
/// its two variables are declared after that, and what was read before stands in their scope.
/// The whole is valid if both parts are.
pub proof fn law_linear_reads_what_waits(
    net: Seq<Node>,
    book: BookView,
    main: Reading,
    depth: nat,
)
    requires
        main.state.pending.stack.len() > 0,
    ensures
        ({
            let waiting = main.state.pending.stack;
            let dup = waiting.last();
            let st = State {
                pending: PendingView { stack: waiting.drop_last(), ..main.state.pending },
                seen: main.state.seen.insert(Port(dup, 0)),
                ..main.state
            };
            read_dups(net, book, main, depth + 1) == match read(
                net,
                book,
                entered(net, Port(dup, 0)),
                st,
                depth,
            ) {
                Err(stop) => Err::<Reading, Stop>(stop),
                Ok(val) => match val.state.names.declared(net, Port(dup, 1)) {
                    None => Err::<Reading, Stop>(Stop::Stuck),
                    Some((fst, names)) => match names.declared(net, Port(dup, 2)) {
                        None => Err::<Reading, Stop>(Stop::Stuck),
                        Some((snd, names)) => read_dups(
                            net,
                            book,
                            Reading {
                                term: TermView::Dup {
                                    fst,
                                    snd,
                                    val: Box::new(val.term),
                                    nxt: Box::new(main.term),
                                },
                                valid: main.valid && val.valid,
                                state: State { names, ..val.state },
                            },
                            depth,
                        ),
                    },
                },
            }
        }),
{
}

/// Whether every port of every node that binds a variable with a name was seen or leads to an
/// eraser.
pub open spec fn variables_are_accounted_for(net: Seq<Node>, state: State) -> bool {
    forall|port: Port, slot: SlotId|
        #![trigger state.names.ids.contains_key(port), state.seen.contains(Port(port.0, slot))]
        state.names.ids.contains_key(port) && slot < 3 ==> state.seen.contains(Port(port.0, slot))
            || net[entered(net, Port(port.0, slot)).0 as int].kind == NodeKind::Era
}

/// The linear readback of a net starts from the port that the second port of the first node leads
/// to, with nothing remembered. It is the reading with all duplications, and it is valid if that
/// is and every port of every node that binds a variable with a name was seen or leads to an
/// eraser. The net is readable exactly if there is such a reading.
pub proof fn law_linear_readback_of_a_net(net: Seq<Node>, book: BookView)
    ensures
        readable(net, book) <==> read_net(net, book) is Ok,
        ({
            let depth = 4 * net.len();
            read_net(net, book) == match read(net, book, net[0].aux1, State::initial(), depth) {
                Err(stop) => Err::<Reading, Stop>(stop),
                Ok(main) => match read_dups(net, book, main, depth) {
                    Err(stop) => Err::<Reading, Stop>(stop),
                    Ok(all) => Ok(
                        Reading {
                            valid: all.valid && variables_are_accounted_for(net, all.state),
                            ..all
                        },
                    ),
                },
            }
        }),
{
    if let Ok(main) = read(net, book, net[0].aux1, State::initial(), 4 * net.len()) {
        if let Ok(all) = read_dups(net, book, main, 4 * net.len()) {
            let ids = all.state.names.ids;
            let seen = all.state.seen;
            if binders_read(net, all.state.names, seen) {
                assert forall|port: Port, slot: SlotId|
                    #![trigger ids.contains_key(port), seen.contains(Port(port.0, slot))]
                    ids.contains_key(port) && slot < 3 implies seen.contains(Port(port.0, slot))
                    || net[entered(net, Port(port.0, slot)).0 as int].kind == NodeKind::Era by {
                    assert(is_node_read(net, seen, port.0));
                    assert(is_read(net, seen, Port(port.0, slot)));
                }
            } else {
                let port = choose|port: Port| #[trigger]
                    ids.contains_key(port) && !is_node_read(net, seen, port.0);
                let slot = choose|slot: SlotId|
                    slot < 3 && !#[trigger] is_read(net, seen, Port(port.0, slot));
                assert(ids.contains_key(port));
                assert(!seen.contains(Port(port.0, slot)));
            }
        }
    }
}

} // verus!
