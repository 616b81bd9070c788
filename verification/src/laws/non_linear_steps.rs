//! What the non-linear readback does at each kind of node.

use vstd::prelude::*;

use crate::book::BookView;
use crate::fix_names::refreshed;
use crate::non_linear::{read, read_lets, read_net, readable};
use crate::name::Val;
use crate::net::{entered, Node, NodeId, NodeKind, Port, SlotId};
use crate::reading::{applied, Reading, State, Stop};
use crate::state::{no_dups, PendingView, VarNamesView};
use crate::term::{DefId, LetPatView, TermView};

verus! {

/// An eraser reads as an erased term, which is valid if it is entered by the main port.
pub proof fn law_non_linear_eraser(
    net: Seq<Node>,
    book: BookView,
    node: NodeId,
    slot: SlotId,
    scope: Map<u8, Seq<SlotId>>,
    state: State,
    depth: nat,
)
    requires
        net[node as int].kind == NodeKind::Era,
    ensures
        read(net, book, Port(node, slot), scope, state, depth + 1) == Ok::<Reading, Stop>(
            Reading {
                term: TermView::Era,
                valid: slot == 0,
                state: state,
            },
        ),
{
}

/// The root reads as an erased term, which is not valid.
pub proof fn law_non_linear_root(
    net: Seq<Node>,
    book: BookView,
    node: NodeId,
    slot: SlotId,
    scope: Map<u8, Seq<SlotId>>,
    state: State,
    depth: nat,
)
    requires
        net[node as int].kind == NodeKind::Rot,
    ensures
        read(net, book, Port(node, slot), scope, state, depth + 1) == Ok::<Reading, Stop>(
            Reading {
                term: TermView::Era,
                valid: false,
                state: state,
            },
        ),
{
}

/// A number reads as itself.
pub proof fn law_non_linear_number(
    net: Seq<Node>,
    book: BookView,
    node: NodeId,
    slot: SlotId,
    val: Val,
    scope: Map<u8, Seq<SlotId>>,
    state: State,
    depth: nat,
)
    requires
        net[node as int].kind == (NodeKind::Num { val }),
    ensures
        read(net, book, Port(node, slot), scope, state, depth + 1) == Ok::<Reading, Stop>(
            Reading {
                term: TermView::Num { val },
                valid: true,
                state: state,
            },
        ),
{
}

/// A reference to a definition whose name holds no `$` reads as itself. One to a generated
/// definition reads as the body of the definition with fresh names, and has no reading if there
/// is no such body.
pub proof fn law_non_linear_reference(
    net: Seq<Node>,
    book: BookView,
    node: NodeId,
    slot: SlotId,
    def_id: DefId,
    scope: Map<u8, Seq<SlotId>>,
    state: State,
    depth: nat,
)
    requires
        net[node as int].kind == (NodeKind::Ref { def_id }),
    ensures
        ({
            let next = state.names.next;
            let here = read(net, book, Port(node, slot), scope, state, depth + 1);
            if book.names.contains_key(def_id) && exists|i: int|
                0 <= i < book.names[def_id].len() && #[trigger] book.names[def_id][i] == '$' {
                match refreshed(book.bodies[def_id], next, book, Set::empty().insert(def_id)) {
                    Some((term, end)) if book.bodies.contains_key(def_id) => here == Ok::<
                        Reading,
                        Stop,
                    >(
                        Reading {
                            term,
                            valid: true,
                            state: State {
                                names: VarNamesView { next: end, ..state.names },
                                ..state
                            },
                        },
                    ),
                    _ => here == Err::<Reading, Stop>(Stop::Stuck),
                }
            } else {
                here == Ok::<Reading, Stop>(
                    Reading {
                        term: TermView::Ref { def_id },
                        valid: true,
                        state: state,
                    },
                )
            }
        }),
{
}

/// A constructor that is entered by the main port reads as a lambda: its variable is declared,
/// and its body is what is read on from the third port.
pub proof fn law_non_linear_lambda(
    net: Seq<Node>,
    book: BookView,
    node: NodeId,
    scope: Map<u8, Seq<SlotId>>,
    state: State,
    depth: nat,
)
    requires
        net[node as int].kind == NodeKind::Con,
    ensures
        read(net, book, Port(node, 0), scope, state, depth + 1)
            == match state.names.declared(net, Port(node, 1)) {
            None => Err::<Reading, Stop>(Stop::Stuck),
            Some((nam, names)) => {
                let st = State { names, ..state };
                match read(net, book, entered(net, Port(node, 2)), scope, st, depth) {
                    Err(stop) => Err::<Reading, Stop>(stop),
                    Ok(bod) => Ok(
                        Reading {
                            term: TermView::Lam { nam, bod: Box::new(bod.term) },
                            valid: bod.valid,
                            state: bod.state,
                        },
                    ),
                }
            },
        },
{
}

/// A constructor that is entered by the second port reads as its variable, which gets a name if
/// it has none.
pub proof fn law_non_linear_variable_of_lambda(
    net: Seq<Node>,
    book: BookView,
    node: NodeId,
    scope: Map<u8, Seq<SlotId>>,
    state: State,
    depth: nat,
)
    requires
        net[node as int].kind == NodeKind::Con,
    ensures
        read(net, book, Port(node, 1), scope, state, depth + 1)
            == match state.names.named(Port(node, 1)) {
            None => Err::<Reading, Stop>(Stop::Stuck),
            Some((nam, names)) => Ok(
                Reading {
                    term: TermView::Var { nam },
                    valid: true,
                    state: State { names, ..state },
                },
            ),
        },
{
}

/// A constructor that is entered by the third port reads as the application of what is read on
/// from the main port to what is then read on from the second port.
pub proof fn law_non_linear_application(
    net: Seq<Node>,
    book: BookView,
    node: NodeId,
    scope: Map<u8, Seq<SlotId>>,
    state: State,
    depth: nat,
)
    requires
        net[node as int].kind == NodeKind::Con,
    ensures
        ({
            let st = state;
            read(net, book, Port(node, 2), scope, state, depth + 1)
                == match read(net, book, entered(net, Port(node, 0)), scope, st, depth) {
                Err(stop) => Err::<Reading, Stop>(stop),
                Ok(fun) => match read(
                    net,
                    book,
                    entered(net, Port(node, 1)),
                    scope,
                    fun.state,
                    depth,
                ) {
                    Err(stop) => Err::<Reading, Stop>(stop),
                    Ok(arg) => Ok(
                        Reading {
                            term: TermView::App {
                                fun: Box::new(fun.term),
                                arg: Box::new(arg.term),
                            },
                            valid: fun.valid && arg.valid,
                            state: arg.state,
                        },
                    ),
                },
            }
        }),
{
}

/// A case distinction that is entered by the third port reads as one: the number is what is read
/// on from the main port, and the cases are what is then read on from the second and third port
/// of the constructor that the second port leads to. It is valid exactly if all three readings
/// are. The cases are erased exactly if there is no such constructor, and this is not valid.
pub proof fn law_non_linear_distinction(
    net: Seq<Node>,
    book: BookView,
    node: NodeId,
    scope: Map<u8, Seq<SlotId>>,
    state: State,
    depth: nat,
)
    requires
        net[node as int].kind == NodeKind::Mat,
    ensures
        ({
            let st = state;
            let sel = entered(net, Port(node, 1)).0;
            read(net, book, Port(node, 2), scope, state, depth + 1)
                == match read(net, book, entered(net, Port(node, 0)), scope, st, depth) {
                Err(stop) => Err::<Reading, Stop>(stop),
                Ok(cond) => {
                    let st = cond.state;
                    if net[sel as int].kind == NodeKind::Con {
                        match read(net, book, entered(net, Port(sel, 1)), scope, st, depth) {
                            Err(stop) => Err::<Reading, Stop>(stop),
                            Ok(zero) => match read(
                                net,
                                book,
                                entered(net, Port(sel, 2)),
                                scope,
                                zero.state,
                                depth,
                            ) {
                                Err(stop) => Err::<Reading, Stop>(stop),
                                Ok(succ) => Ok(
                                    Reading {
                                        term: TermView::Match {
                                            cond: Box::new(cond.term),
                                            zero: Box::new(zero.term),
                                            succ: Box::new(succ.term),
                                        },
                                        valid: cond.valid && zero.valid && succ.valid,
                                        state: succ.state,
                                    },
                                ),
                            },
                        }
                    } else {
                        Ok(
                            Reading {
                                term: TermView::Match {
                                    cond: Box::new(cond.term),
                                    zero: Box::new(TermView::Era),
                                    succ: Box::new(TermView::Era),
                                },
                                valid: false,
                                state: st,
                            },
                        )
                    }
                },
            }
        }),
{
}

/// An operation that is entered by the third port reads as what is read on from the main port,
/// applied to what is then read on from the second port.
pub proof fn law_non_linear_operation(
    net: Seq<Node>,
    book: BookView,
    node: NodeId,
    scope: Map<u8, Seq<SlotId>>,
    state: State,
    depth: nat,
)
    requires
        net[node as int].kind == NodeKind::Op2,
    ensures
        ({
            let st = state;
            read(net, book, Port(node, 2), scope, state, depth + 1)
                == match read(net, book, entered(net, Port(node, 0)), scope, st, depth) {
                Err(stop) => Err::<Reading, Stop>(stop),
                Ok(op) => match read(
                    net,
                    book,
                    entered(net, Port(node, 1)),
                    scope,
                    op.state,
                    depth,
                ) {
                    Err(stop) => Err::<Reading, Stop>(stop),
                    Ok(arg) => match applied(op.term, arg.term) {
                        None => Err::<Reading, Stop>(Stop::Stuck),
                        Some(term) => Ok(
                            Reading { term, valid: op.valid && arg.valid, state: arg.state },
                        ),
                    },
                },
            }
        }),
{
}

/// A duplication that is entered by the main port, below no duplication with its label, reads as
/// the superposition of what is read on from the second port and then from the third.
pub proof fn law_non_linear_superposition(
    net: Seq<Node>,
    book: BookView,
    node: NodeId,
    lab: u8,
    scope: Map<u8, Seq<SlotId>>,
    state: State,
    depth: nat,
)
    requires
        net[node as int].kind == (NodeKind::Dup { lab }),
        scope[lab].len() == 0,
    ensures
        read(net, book, Port(node, 0), scope, state, depth + 1)
            == match read(net, book, entered(net, Port(node, 1)), scope, state, depth) {
                Err(stop) => Err::<Reading, Stop>(stop),
                Ok(fst) => match read(
                    net,
                    book,
                    entered(net, Port(node, 2)),
                    scope,
                    fst.state,
                    depth,
                ) {
                    Err(stop) => Err::<Reading, Stop>(stop),
                    Ok(snd) => Ok(
                        Reading {
                            term: TermView::Sup {
                                fst: Box::new(fst.term),
                                snd: Box::new(snd.term),
                            },
                            valid: fst.valid && snd.valid,
                            state: snd.state,
                        },
                    ),
                },
            },
{
}

/// A duplication that is entered by the main port, below a duplication with its label, reads as
/// what is read on from the port in the slot by which the last of these was entered, which is
/// then left.
pub proof fn law_non_linear_decay(
    net: Seq<Node>,
    book: BookView,
    node: NodeId,
    lab: u8,
    scope: Map<u8, Seq<SlotId>>,
    state: State,
    depth: nat,
)
    requires
        net[node as int].kind == (NodeKind::Dup { lab }),
        scope[lab].len() > 0,
    ensures
        read(net, book, Port(node, 0), scope, state, depth + 1) == read(
            net,
            book,
            entered(net, Port(node, scope[lab].last())),
            scope.insert(lab, scope[lab].drop_last()),
            state,
            depth,
        ),
{
}

/// A duplication that is entered by another port than the main one reads as what is read on from
/// the main port, with the slot remembered for its label.
pub proof fn law_non_linear_copy(
    net: Seq<Node>,
    book: BookView,
    node: NodeId,
    slot: SlotId,
    lab: u8,
    scope: Map<u8, Seq<SlotId>>,
    state: State,
    depth: nat,
)
    requires
        net[node as int].kind == (NodeKind::Dup { lab }),
        slot != 0,
    ensures
        read(net, book, Port(node, slot), scope, state, depth + 1) == read(
            net,
            book,
            entered(net, Port(node, 0)),
            scope.insert(lab, scope[lab].push(slot)),
            state,
            depth,
        ),
{
}

/// A pair that is entered by the main port reads as one: its components are what is read on from
/// the second port and what is then read on from the third.
pub proof fn law_non_linear_pair(
    net: Seq<Node>,
    book: BookView,
    node: NodeId,
    scope: Map<u8, Seq<SlotId>>,
    state: State,
    depth: nat,
)
    requires
        net[node as int].kind == NodeKind::Tup,
    ensures
        read(net, book, Port(node, 0), scope, state, depth + 1)
            == match read(net, book, entered(net, Port(node, 1)), scope, state, depth) {
                Err(stop) => Err::<Reading, Stop>(stop),
                Ok(fst) => match read(
                    net,
                    book,
                    entered(net, Port(node, 2)),
                    scope,
                    fst.state,
                    depth,
                ) {
                    Err(stop) => Err::<Reading, Stop>(stop),
                    Ok(snd) => Ok(
                        Reading {
                            term: TermView::Tup {
                                fst: Box::new(fst.term),
                                snd: Box::new(snd.term),
                            },
                            valid: fst.valid && snd.valid,
                            state: snd.state,
                        },
                    ),
                },
            },
{
}

/// A pair that is entered by another port than the main one reads as the variable of that port,
/// which gets a name if it has none, and the pair is noted to be read later.
pub proof fn law_non_linear_variable_of_let(
    net: Seq<Node>,
    book: BookView,
    node: NodeId,
    slot: SlotId,
    scope: Map<u8, Seq<SlotId>>,
    state: State,
    depth: nat,
)
    requires
        net[node as int].kind == NodeKind::Tup,
        slot != 0,
    ensures
        read(net, book, Port(node, slot), scope, state, depth + 1)
            == match state.names.named(Port(node, slot)) {
            None => Err::<Reading, Stop>(Stop::Stuck),
            Some((nam, names)) => Ok(
                Reading {
                    term: TermView::Var { nam },
                    valid: true,
                    state: State { names, pending: state.pending.noted(node), ..state },
                },
            ),
        },
{
}

/// Case distinctions and operations have no reading from another port than the third.
pub proof fn law_non_linear_result_is_the_third_port(
    net: Seq<Node>,
    book: BookView,
    node: NodeId,
    slot: SlotId,
    scope: Map<u8, Seq<SlotId>>,
    state: State,
    depth: nat,
)
    requires
        net[node as int].kind == NodeKind::Mat || net[node as int].kind == NodeKind::Op2,
        slot != 2,
    ensures
        read(net, book, Port(node, slot), scope, state, depth + 1) == Err::<Reading, Stop>(
            Stop::Stuck,
        ),
{
}

/// No step can be taken where none is allowed.
pub proof fn law_non_linear_needs_steps(
    net: Seq<Node>,
    book: BookView,
    port: Port,
    scope: Map<u8, Seq<SlotId>>,
    state: State,
)
    ensures
        read(net, book, port, scope, state, 0) == Err::<Reading, Stop>(Stop::Depth),
{
}

/// Where no pair waits, the reading stays as it is.
pub proof fn law_non_linear_is_complete(net: Seq<Node>, book: BookView, main: Reading, depth: nat)
    requires
        main.state.pending.stack.len() == 0,
    ensures
        read_lets(net, book, main, depth) == Ok::<Reading, Stop>(main),
{
}

/// The pair that waits last is read next: what is read on from its main port is the value, its
/// two variables are declared after that, and what was read before stands in their scope. The
/// whole is valid if both parts are.
pub proof fn law_non_linear_reads_what_waits(
    net: Seq<Node>,
    book: BookView,
    main: Reading,
    depth: nat,
)
    requires
        main.state.pending.stack.len() > 0,
    ensures
        ({
            let waiting = main.state.pending.stack;
            let tup = waiting.last();
            let st = State {
                pending: PendingView { stack: waiting.drop_last(), ..main.state.pending },
                ..main.state
            };
            read_lets(net, book, main, depth + 1) == match read(
                net,
                book,
                entered(net, Port(tup, 0)),
                no_dups(),
                st,
                depth,
            ) {
                Err(stop) => Err::<Reading, Stop>(stop),
                Ok(val) => match val.state.names.declared(net, Port(tup, 1)) {
                    None => Err::<Reading, Stop>(Stop::Stuck),
                    Some((fst, names)) => match names.declared(net, Port(tup, 2)) {
                        None => Err::<Reading, Stop>(Stop::Stuck),
                        Some((snd, names)) => read_lets(
                            net,
                            book,
                            Reading {
                                term: TermView::Let {
                                    pat: LetPatView::Tup(fst, snd),
                                    val: Box::new(val.term),
                                    nxt: Box::new(main.term),
                                },
                                valid: main.valid && val.valid,
                                state: State { names, ..val.state },
                            },
                            depth,
                        ),
                    },
                },
            }
        }),
{
}

/// The non-linear readback of a net starts from the port that the second port of the first node
/// leads to, with nothing remembered. It is the reading with all `let`s, and the net is readable
/// exactly if there is one at some depth.
pub proof fn law_non_linear_readback_of_a_net(net: Seq<Node>, book: BookView, depth: nat)
    ensures
        read_net(net, book, depth) is Ok ==> readable(net, book),
        readable(net, book) ==> exists|enough: nat| #[trigger] read_net(net, book, enough) is Ok,
        read_net(net, book, depth) == match read(
            net,
            book,
            net[0].aux1,
            no_dups(),
            State::initial(),
            depth,
        ) {
            Err(stop) => Err::<Reading, Stop>(stop),
            Ok(main) => read_lets(net, book, main, depth),
        },
{
}

} // verus!
