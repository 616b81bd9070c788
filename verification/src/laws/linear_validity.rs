//! When the linear readback is valid.

use vstd::prelude::*;

use crate::book::BookView;
use crate::laws::bindings::{
    dup_nodes, is_account, lemma_declared_is_accounted, lemma_linear_is_accounted,
    lemma_popped_is_accounted,
};
use crate::laws::labels::lemma_reading_stays_within;
use crate::laws::linear_steps::{law_linear_readback_of_a_net, variables_are_accounted_for};
use crate::laws::shape::{
    book_lacks, kept_out_of_readings, lacks, lemma_ellipsis_is_not_generated, lemma_linear_lacks,
    Part,
};
use crate::laws::termination::{law_ports_stay_seen, lemma_popping_stays_within};
use crate::laws::validity::is_flaw;
use crate::laws::variables::{keeps_operands, lemma_operator_lacks_operand};
use crate::linear::{mark, mark_node, read, read_dups, read_net};
use crate::net::{entered, has_port, is_net, Node, NodeId, NodeKind, Port};
use crate::reading::{applied, Reading, State};
use crate::term::TermView;

verus! {

/// The variable that stands for what would be read a second time.
pub open spec fn repetition() -> Part {
    Part::Var(seq!['.', '.', '.'])
}

/// Whether none of the ports that were seen since is a flaw.
pub open spec fn no_flaw_since(net: Seq<Node>, before: Set<Port>, now: Set<Port>) -> bool {
    forall|port: Port| #[trigger]
        now.contains(port) && !before.contains(port) ==> !is_flaw(net, port)
}

/// What was seen since the start is what was seen up to some point and what was seen since that.
proof fn lemma_flaws_add_up(
    net: Seq<Node>,
    start: Set<Port>,
    middle: Set<Port>,
    end: Set<Port>,
)
    requires
        start.subset_of(middle),
        middle.subset_of(end),
    ensures
        no_flaw_since(net, start, end) <==> no_flaw_since(net, start, middle) && no_flaw_since(
            net,
            middle,
            end,
        ),
{
    if no_flaw_since(net, start, end) {
        assert forall|port: Port| #[trigger]
            middle.contains(port) && !start.contains(port) implies !is_flaw(net, port) by {
            assert(end.contains(port));
        }
        assert forall|port: Port| #[trigger]
            end.contains(port) && !middle.contains(port) implies !is_flaw(net, port) by {
            assert(!start.contains(port));
        }
    }
}

/// An operation holds what was read for its operands, unless what was read for its operator has
/// two already.
proof fn lemma_operation_holds_operands(op_term: TermView, arg: TermView, part: Part)
    requires
        part is Var,
    ensures
        applied(op_term, arg) matches Some(term) ==> lacks(term, part) ==> {
            &&& lacks(arg, part)
            &&& op_term is Num || (op_term matches TermView::Opx { snd, .. } && *snd
                == TermView::Era) ==> lacks(op_term, part)
        },
{
    reveal_with_fuel(lacks, 3);
}

/// Two readings in turn, each of which is valid if nothing is met twice and no flaw is met.
proof fn lemma_two_are_valid(
    net: Seq<Node>,
    book: BookView,
    fst: Port,
    snd: Port,
    state: State,
    depth: nat,
)
    requires
        is_net(net),
        keeps_operands(net),
        has_port(net, fst),
        has_port(net, snd),
        kept_out_of_readings(book, repetition()),
    ensures
        read(net, book, fst, state, depth) matches Ok(one) ==> {
            let seen = one.state.seen;
            &&& state.seen.subset_of(seen)
            &&& one.valid <==> lacks(one.term, repetition()) && no_flaw_since(net, state.seen, seen)
            &&& read(net, book, snd, one.state, depth) matches Ok(two) ==> {
                &&& seen.subset_of(two.state.seen)
                &&& two.valid <==> lacks(two.term, repetition()) && no_flaw_since(
                    net,
                    seen,
                    two.state.seen,
                )
                &&& no_flaw_since(net, state.seen, two.state.seen) <==> no_flaw_since(
                    net,
                    state.seen,
                    seen,
                ) && no_flaw_since(net, seen, two.state.seen)
            }
        },
    decreases depth, 1nat,
{
    law_linear_reading_is_valid_without_flaws(net, book, fst, state, depth);
    law_ports_stay_seen(net, book, fst, state, depth);
    if let Ok(one) = read(net, book, fst, state, depth) {
        law_linear_reading_is_valid_without_flaws(net, book, snd, one.state, depth);
        law_ports_stay_seen(net, book, snd, one.state, depth);
        if let Ok(two) = read(net, book, snd, one.state, depth) {
            lemma_flaws_add_up(net, state.seen, one.state.seen, two.state.seen);
        }
    }
}

/// A linear reading is valid exactly if no port is met a second time and none of the ports that
/// were seen for it is a flaw: an eraser that is entered by another port than the main one, the
/// root, or a case distinction whose cases are not held by a constructor.
pub proof fn law_linear_reading_is_valid_without_flaws(
    net: Seq<Node>,
    book: BookView,
    next: Port,
    state: State,
    depth: nat,
)
    requires
        is_net(net),
        keeps_operands(net),
        has_port(net, next),
        kept_out_of_readings(book, repetition()),
    ensures
        read(net, book, next, state, depth) matches Ok(reading) ==> (reading.valid <==> lacks(
            reading.term,
            repetition(),
        ) && no_flaw_since(net, state.seen, reading.state.seen)),
    decreases depth, 0nat,
{
    if depth > 0 && !state.seen.contains(next) && read(net, book, next, state, depth) is Ok {
        let reading = read(net, book, next, state, depth)->Ok_0;
        let node = next.0;
        let slot = next.1;
        let p0 = Port(node, 0);
        let p1 = Port(node, 1);
        let p2 = Port(node, 2);
        assert(has_port(net, p0) && has_port(net, p1) && has_port(net, p2));
        let main = entered(net, p0);
        let aux1 = entered(net, p1);
        let aux2 = entered(net, p2);
        let d = (depth - 1) as nat;
        let st = mark(state, next);
        lemma_linear_lacks(net, book, next, state, depth, repetition());
        assert(st.seen.contains(next));
        match net[node as int].kind {
            NodeKind::Con => {
                if slot == 0 {
                    let (_, names) = st.names.declared(net, p1)->0;
                    let st1 = State { names, ..mark(st, p2) };
                    lemma_two_are_valid(net, book, aux2, aux2, st1, d);
                    lemma_flaws_add_up(net, state.seen, st1.seen, reading.state.seen);
                } else if slot != 1 {
                    let st1 = mark(mark(st, p0), p1);
                    lemma_two_are_valid(net, book, main, aux1, st1, d);
                    lemma_flaws_add_up(net, state.seen, st1.seen, reading.state.seen);
                }
            },
            NodeKind::Mat => {
                let st1 = mark(mark(st, p0), p1);
                let cond = read(net, book, main, st1, d)->Ok_0;
                let st2 = mark_node(cond.state, aux1.0);
                lemma_two_are_valid(net, book, main, main, st1, d);
                if net[aux1.0 as int].kind == NodeKind::Con {
                    let q1 = Port(aux1.0, 1);
                    let q2 = Port(aux1.0, 2);
                    assert(has_port(net, q1) && has_port(net, q2));
                    lemma_two_are_valid(net, book, entered(net, q1), entered(net, q2), st2, d);
                    lemma_flaws_add_up(net, state.seen, st1.seen, cond.state.seen);
                    lemma_flaws_add_up(net, state.seen, cond.state.seen, st2.seen);
                    lemma_flaws_add_up(net, state.seen, st2.seen, reading.state.seen);
                } else {
                    assert(reading.state.seen.contains(next));
                    assert(is_flaw(net, next));
                }
            },
            NodeKind::Dup { .. } => {
                if slot == 0 {
                    let st1 = mark(mark(st, p1), p2);
                    lemma_two_are_valid(net, book, aux1, aux2, st1, d);
                    lemma_flaws_add_up(net, state.seen, st1.seen, reading.state.seen);
                }
            },
            NodeKind::Op2 => {
                let st1 = mark(mark(st, p0), p1);
                lemma_two_are_valid(net, book, main, aux1, st1, d);
                lemma_flaws_add_up(net, state.seen, st1.seen, reading.state.seen);
                let op = read(net, book, main, st1, d)->Ok_0;
                let arg = read(net, book, aux1, op.state, d)->Ok_0;
                lemma_operation_holds_operands(op.term, arg.term, repetition());
                if net[main.0 as int].kind == NodeKind::Op2 {
                    lemma_operator_lacks_operand(net, book, main, st1, d);
                }
            },
            NodeKind::Tup => {
                let st1 = mark(mark(st, p1), p2);
                lemma_two_are_valid(net, book, aux1, aux2, st1, d);
                lemma_flaws_add_up(net, state.seen, st1.seen, reading.state.seen);
            },
            _ => {},
        }
    }
}

/// What holds between the readings of the duplications that wait: only ports of the net bind
/// variables, and only duplications of the net wait.
#[verifier::opaque]
spec fn is_orderly(net: Seq<Node>, state: State) -> bool {
    &&& state.names.within(net)
    &&& state.pending.within(net)
    &&& exists|done: Seq<NodeId>| #[trigger] is_account(net, dup_nodes(), state, done)
}

/// What is read of the duplication that waits next.
spec fn next_value(net: Seq<Node>, book: BookView, main: Reading, depth: nat) -> Reading {
    let dup = main.state.pending.stack.last();
    let state = mark(State { pending: main.state.pending.popped(), ..main.state }, Port(dup, 0));
    read(net, book, entered(net, Port(dup, 0)), state, depth)->Ok_0
}

/// What was read, in the scope of the duplication that waits next.
spec fn with_next(net: Seq<Node>, book: BookView, main: Reading, depth: nat) -> Reading {
    let dup = main.state.pending.stack.last();
    let val = next_value(net, book, main, depth);
    let (fst, names1) = val.state.names.declared(net, Port(dup, 1))->0;
    let (snd, names2) = names1.declared(net, Port(dup, 2))->0;
    Reading {
        term: TermView::Dup { fst, snd, val: Box::new(val.term), nxt: Box::new(main.term) },
        valid: main.valid && val.valid,
        state: State { names: names2, ..val.state },
    }
}

/// Reading the duplication that waits next leaves an orderly state.
proof fn lemma_next_is_orderly(net: Seq<Node>, book: BookView, main: Reading, depth: nat)
    requires
        is_net(net),
        is_orderly(net, main.state),
        main.state.pending.stack.len() > 0,
        read_dups(net, book, main, depth + 1) is Ok,
    ensures
        is_orderly(net, with_next(net, book, main, depth).state),
        main.state.pending.stack.last() < net.len(),
        net[main.state.pending.stack.last() as int].kind is Dup,
{
    reveal(is_orderly);
    let pending = main.state.pending;
    let done = choose|done: Seq<NodeId>| #[trigger]
        is_account(net, dup_nodes(), main.state, done);
    let dup = pending.stack.last();
    let p0 = Port(dup, 0);
    let p1 = Port(dup, 1);
    let p2 = Port(dup, 2);
    let body = entered(net, p0);
    let state = mark(State { pending: pending.popped(), ..main.state }, p0);
    let done1 = done.push(dup);
    lemma_popped_is_accounted(net, dup_nodes(), main.state, done);
    lemma_popping_stays_within(net, pending);
    lemma_linear_is_accounted(net, book, body, state, depth, done1);
    assert(pending.listed.contains(dup));
    assert((done + pending.stack).contains(dup));
    assert(has_port(net, p0) && has_port(net, p1) && has_port(net, p2));
    lemma_reading_stays_within(net, book, body, state, depth);
    let val = next_value(net, book, main, depth);
    let (_, names1) = val.state.names.declared(net, p1)->0;
    let state1 = State { names: names1, ..val.state };
    lemma_declared_is_accounted(net, dup_nodes(), val.state, done1, p1);
    lemma_declared_is_accounted(net, dup_nodes(), state1, done1, p2);
    assert(is_account(net, dup_nodes(), with_next(net, book, main, depth).state, done1));
}

/// Whether a reading from the start on is valid exactly if nothing is met twice and no flaw is
/// met.
spec fn is_judged(net: Seq<Node>, reading: Reading) -> bool {
    reading.valid <==> lacks(reading.term, repetition()) && no_flaw_since(
        net,
        Set::empty(),
        reading.state.seen,
    )
}

/// Reading the duplication that waits next leaves the readback valid exactly if nothing is met
/// twice and no flaw is met.
proof fn lemma_next_is_judged(net: Seq<Node>, book: BookView, main: Reading, depth: nat)
    requires
        is_net(net),
        keeps_operands(net),
        kept_out_of_readings(book, repetition()),
        is_judged(net, main),
        main.state.pending.stack.len() > 0,
        main.state.pending.stack.last() < net.len(),
        net[main.state.pending.stack.last() as int].kind is Dup,
        read_dups(net, book, main, depth + 1) is Ok,
    ensures
        is_judged(net, with_next(net, book, main, depth)),
{
    let pending = main.state.pending;
    let dup = pending.stack.last();
    let p0 = Port(dup, 0);
    let body = entered(net, p0);
    let state = mark(State { pending: pending.popped(), ..main.state }, p0);
    let start = Set::<Port>::empty();
    assert(has_port(net, p0));
    lemma_two_are_valid(net, book, body, body, state, depth);
    let val = next_value(net, book, main, depth);
    lemma_flaws_add_up(net, start, main.state.seen, state.seen);
    lemma_flaws_add_up(net, start, state.seen, val.state.seen);
}

/// Reading the duplications that wait leaves the readback valid exactly if nothing is met twice
/// and no flaw is met.
proof fn lemma_dups_are_judged(net: Seq<Node>, book: BookView, main: Reading, depth: nat)
    requires
        is_net(net),
        keeps_operands(net),
        kept_out_of_readings(book, repetition()),
        is_orderly(net, main.state),
        is_judged(net, main),
    ensures
        read_dups(net, book, main, depth) matches Ok(all) ==> is_judged(net, all),
    decreases depth,
{
    if main.state.pending.stack.len() > 0 && read_dups(net, book, main, depth) is Ok {
        let d = (depth - 1) as nat;
        lemma_next_is_orderly(net, book, main, d);
        lemma_next_is_judged(net, book, main, d);
        lemma_dups_are_judged(net, book, with_next(net, book, main, d), d);
    }
}

/// The reading from the root on is orderly, and is valid exactly if nothing is met twice and no
/// flaw is met.
proof fn lemma_main_is_judged(net: Seq<Node>, book: BookView, depth: nat)
    requires
        is_net(net),
        keeps_operands(net),
        kept_out_of_readings(book, repetition()),
    ensures
        read(net, book, net[0].aux1, State::initial(), depth) matches Ok(main) ==> is_orderly(
            net,
            main.state,
        ) && is_judged(net, main),
{
    reveal(is_orderly);
    let root = net[0].aux1;
    let start = State::initial();
    let none = Seq::<NodeId>::empty();
    assert(has_port(net, Port(0, 1)));
    assert(root == entered(net, Port(0, 1)));
    assert(none + start.pending.stack =~= none);
    lemma_linear_is_accounted(net, book, root, start, depth, none);
    lemma_reading_stays_within(net, book, root, start, depth);
    law_linear_reading_is_valid_without_flaws(net, book, root, start, depth);
}

/// The linear readback of a net is valid exactly if three things hold. No port is met a second
/// time. None of the ports that were seen is a flaw: an eraser that is entered by another port
/// than the main one, the root, or a case distinction whose cases are not held by a constructor.
/// And every port of every node that binds a variable with a name was seen or leads to an eraser.
pub proof fn law_linear_readback_is_valid_without_flaws(net: Seq<Node>, book: BookView)
    requires
        is_net(net),
        keeps_operands(net),
        book_lacks(book, repetition()),
    ensures
        read_net(net, book) matches Ok(reading) ==> (reading.valid <==> {
            let seen = reading.state.seen;
            &&& lacks(reading.term, repetition())
            &&& forall|port: Port| #[trigger] seen.contains(port) ==> !is_flaw(net, port)
            &&& variables_are_accounted_for(net, reading.state)
        }),
{
    let depth = 4 * net.len();
    lemma_ellipsis_is_not_generated();
    law_linear_readback_of_a_net(net, book);
    lemma_main_is_judged(net, book, depth);
    if let Ok(main) = read(net, book, net[0].aux1, State::initial(), depth) {
        lemma_dups_are_judged(net, book, main, depth);
        if let Ok(all) = read_dups(net, book, main, depth) {
            let seen = all.state.seen;
            assert(no_flaw_since(net, Set::empty(), seen) <==> forall|port: Port| #[trigger]
                seen.contains(port) ==> !is_flaw(net, port));
        }
    }
}

} // verus!
