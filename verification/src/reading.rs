//! What both readers share.

use vstd::pervasive::unreached;
use vstd::prelude::*;

use crate::book::BookView;
use crate::fix_names::refreshed;
use crate::net::Port;
use crate::op::{labeled_op, split_num_with_op, Op, NUM_BOUND};
use crate::state::{PendingView, VarNamesView};
use crate::term::{term_view, DefId, Term, TermView};

verus! {

/// Why a readback has no result.
pub enum Stop {
    /// The walk goes deeper than it was allowed to.
    Depth,
    /// The net holds what has no reading, or the variable ids are used up.
    Stuck,
}

/// What a reader remembers: the names of variables, the nodes whose binders have yet to be read
/// and, in the linear readback, the ports that were seen.
pub struct State {
    pub names: VarNamesView,
    pub pending: PendingView,
    pub seen: Set<Port>,
}

/// A term that was read, whether it is a faithful account of the net, and what the reader
/// remembers afterwards.
pub struct Reading {
    pub term: TermView,
    pub valid: bool,
    pub state: State,
}

/// A reading, or the reason why there is none.
pub type Outcome = Result<Reading, Stop>;

impl State {
    /// Nothing has been read.
    pub open spec fn initial() -> State {
        State {
            names: VarNamesView::empty(),
            pending: PendingView::empty(),
            seen: Set::empty(),
        }
    }
}

/// A reading that succeeds.
pub open spec fn done(term: TermView, valid: bool, state: State) -> Outcome {
    Ok(Reading { term, valid, state })
}

/// What the reader remembers after a reading that started from `state`.
pub open spec fn after(outcome: Outcome, state: State) -> State {
    match outcome {
        Ok(reading) => reading.state,
        Err(_) => state,
    }
}

/// A variable that `port` binds.
pub open spec fn variable(port: Port, state: State) -> Outcome {
    match state.names.named(port) {
        None => Err(Stop::Stuck),
        Some((nam, names)) => done(TermView::Var { nam }, true, State { names, ..state }),
    }
}

/// A reference to a definition, or the body of the definition if it is a generated one.
pub open spec fn reference(def_id: DefId, book: BookView, state: State) -> Outcome {
    match refreshed(TermView::Ref { def_id }, state.names.next, book, Set::empty()) {
        None => Err(Stop::Stuck),
        Some((term, next)) => done(
            term,
            true,
            State { names: VarNamesView { next, ..state.names }, ..state },
        ),
    }
}

/// A lambda whose body was read.
pub open spec fn lambda(nam: Option<Seq<char>>, bod: Outcome) -> Outcome {
    match bod {
        Err(stop) => Err(stop),
        Ok(bod) => done(TermView::Lam { nam, bod: Box::new(bod.term) }, bod.valid, bod.state),
    }
}

/// An application whose function and then argument were read.
pub open spec fn application(fun: Outcome, arg: Outcome) -> Outcome {
    match (fun, arg) {
        (Err(stop), _) => Err(stop),
        (_, Err(stop)) => Err(stop),
        (Ok(fun), Ok(arg)) => done(
            TermView::App { fun: Box::new(fun.term), arg: Box::new(arg.term) },
            fun.valid && arg.valid,
            arg.state,
        ),
    }
}

/// A pair whose components were read in turn.
pub open spec fn pair(fst: Outcome, snd: Outcome) -> Outcome {
    match (fst, snd) {
        (Err(stop), _) => Err(stop),
        (_, Err(stop)) => Err(stop),
        (Ok(fst), Ok(snd)) => done(
            TermView::Tup { fst: Box::new(fst.term), snd: Box::new(snd.term) },
            fst.valid && snd.valid,
            snd.state,
        ),
    }
}

/// A superposition whose components were read in turn.
pub open spec fn superposition(fst: Outcome, snd: Outcome) -> Outcome {
    match (fst, snd) {
        (Err(stop), _) => Err(stop),
        (_, Err(stop)) => Err(stop),
        (Ok(fst), Ok(snd)) => done(
            TermView::Sup { fst: Box::new(fst.term), snd: Box::new(snd.term) },
            fst.valid && snd.valid,
            snd.state,
        ),
    }
}

/// An operation whose operator, perhaps with an operand, and then other operand were read.
pub open spec fn operation(op: Outcome, arg: Outcome) -> Outcome {
    match (op, arg) {
        (Err(stop), _) => Err(stop),
        (_, Err(stop)) => Err(stop),
        (Ok(op), Ok(arg)) => match applied(op.term, arg.term) {
            None => Err(Stop::Stuck),
            Some(term) => done(term, op.valid && arg.valid, arg.state),
        },
    }
}

/// A case distinction whose number and then two cases were read.
pub open spec fn distinction(cond: Outcome, zero: Outcome, succ: Outcome) -> Outcome {
    match (cond, zero, succ) {
        (Err(stop), _, _) => Err(stop),
        (_, Err(stop), _) => Err(stop),
        (_, _, Err(stop)) => Err(stop),
        (Ok(cond), Ok(zero), Ok(succ)) => done(
            TermView::Match {
                cond: Box::new(cond.term),
                zero: Box::new(zero.term),
                succ: Box::new(succ.term),
            },
            cond.valid && zero.valid && succ.valid,
            succ.state,
        ),
    }
}

/// A case distinction without cases: not a faithful account of any net.
pub open spec fn caseless(cond: Outcome, state: State) -> Outcome {
    match cond {
        Err(stop) => Err(stop),
        Ok(cond) => done(
            TermView::Match {
                cond: Box::new(cond.term),
                zero: Box::new(TermView::Era),
                succ: Box::new(TermView::Era),
            },
            false,
            state,
        ),
    }
}

/// The term for an operation node: `op_term` was read from its main port and holds the operator,
/// alone or with the first operand, and `arg` is the operand that it lacks. `None` says that
/// `op_term` holds no operator.
pub open spec fn applied(op_term: TermView, arg: TermView) -> Option<TermView> {
    match op_term {
        TermView::Num { val } => match labeled_op(val as int / NUM_BOUND as int) {
            Some(op) => Some(
                TermView::Opx {
                    op,
                    fst: Box::new(TermView::Num { val: val % NUM_BOUND }),
                    snd: Box::new(arg),
                },
            ),
            None => match labeled_op(val as int % NUM_BOUND as int) {
                Some(op) => Some(
                    TermView::Opx { op, fst: Box::new(arg), snd: Box::new(TermView::Era) },
                ),
                None => None,
            },
        },
        TermView::Opx { op, fst, .. } => Some(TermView::Opx { op, fst, snd: Box::new(arg) }),
        _ => None,
    }
}

/// Builds the term for an operation node.
pub fn apply(op_term: Term, arg_term: Term) -> (res: Term)
    requires
        applied(op_term@, arg_term@) is Some,
    ensures
        applied(op_term@, arg_term@) == Some(res@),
{
    reveal_with_fuel(term_view, 2);
    match op_term {
        Term::Num { val } => {
            let (val, op) = split_num_with_op(val);
            match op {
                // A number and an operator in the same value.
                Some(op) => Term::Opx {
                    op,
                    fst: Box::new(Term::Num { val }),
                    snd: Box::new(arg_term),
                },
                // Only an operator.
                None => {
                    let op = Op::from_hvmc_label(val).unwrap();
                    Term::Opx { op, fst: Box::new(arg_term), snd: Box::new(Term::Era) }
                },
            }
        },
        Term::Opx { op, fst, snd: _ } => Term::Opx { op, fst, snd: Box::new(arg_term) },
        _ => unreached(),
    }
}

} // verus!
