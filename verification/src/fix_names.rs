//! Inlining of generated definitions, with fresh names for what they bind.

use vstd::pervasive::unreached;
use vstd::prelude::*;
use vstd::set_lib::*;

use crate::book::{Book, BookView};
use crate::name::{id_name, optional_name, var_id_to_name, Name, Val};
use crate::term::{substituted, DefId, Term, TermView};

verus! {

/// The number of nodes of a term.
pub open spec fn term_size(term: TermView) -> nat
    decreases term,
{
    match term {
        TermView::Lam { bod, .. } => 1 + term_size(*bod),
        TermView::Chn { bod, .. } => 1 + term_size(*bod),
        TermView::Let { val, nxt, .. } => 1 + term_size(*val) + term_size(*nxt),
        TermView::App { fun, arg } => 1 + term_size(*fun) + term_size(*arg),
        TermView::Tup { fst, snd } => 1 + term_size(*fst) + term_size(*snd),
        TermView::Dup { val, nxt, .. } => 1 + term_size(*val) + term_size(*nxt),
        TermView::Sup { fst, snd } => 1 + term_size(*fst) + term_size(*snd),
        TermView::Opx { fst, snd, .. } => 1 + term_size(*fst) + term_size(*snd),
        TermView::Match { cond, zero, succ } => 1 + term_size(*cond) + term_size(*zero) + term_size(
            *succ,
        ),
        _ => 1,
    }
}

/// Renaming a variable keeps the size of a term.
pub proof fn lemma_renaming_keeps_size(term: TermView, from: Seq<char>, to: Seq<char>)
    ensures
        term_size(substituted(term, from, TermView::Var { nam: to })) == term_size(term),
    decreases term,
{
    match term {
        TermView::Lam { bod, .. } => lemma_renaming_keeps_size(*bod, from, to),
        TermView::Chn { bod, .. } => lemma_renaming_keeps_size(*bod, from, to),
        TermView::Let { val, nxt, .. } => {
            lemma_renaming_keeps_size(*val, from, to);
            lemma_renaming_keeps_size(*nxt, from, to);
        },
        TermView::App { fun, arg } => {
            lemma_renaming_keeps_size(*fun, from, to);
            lemma_renaming_keeps_size(*arg, from, to);
        },
        TermView::Tup { fst, snd } => {
            lemma_renaming_keeps_size(*fst, from, to);
            lemma_renaming_keeps_size(*snd, from, to);
        },
        TermView::Dup { val, nxt, .. } => {
            lemma_renaming_keeps_size(*val, from, to);
            lemma_renaming_keeps_size(*nxt, from, to);
        },
        TermView::Sup { fst, snd } => {
            lemma_renaming_keeps_size(*fst, from, to);
            lemma_renaming_keeps_size(*snd, from, to);
        },
        TermView::Opx { fst, snd, .. } => {
            lemma_renaming_keeps_size(*fst, from, to);
            lemma_renaming_keeps_size(*snd, from, to);
        },
        TermView::Match { cond, zero, succ } => {
            lemma_renaming_keeps_size(*cond, from, to);
            lemma_renaming_keeps_size(*zero, from, to);
            lemma_renaming_keeps_size(*succ, from, to);
        },
        _ => {},
    }
}

/// How many definition ids are not in `open`.
pub open spec fn unopened(open: Set<DefId>) -> nat {
    set_int_range(0, 0x1_0000_0000).filter(|i: int| !open.contains(i as DefId)).len()
}

/// Opening a definition leaves fewer unopened.
pub proof fn lemma_opening_decreases(open: Set<DefId>, def_id: DefId)
    requires
        !open.contains(def_id),
    ensures
        unopened(open.insert(def_id)) < unopened(open),
{
    let all = set_int_range(0, 0x1_0000_0000);
    let before = all.filter(|i: int| !open.contains(i as DefId));
    let after = all.filter(|i: int| !open.insert(def_id).contains(i as DefId));
    lemma_int_range(0, 0x1_0000_0000);
    all.lemma_len_filter(|i: int| !open.contains(i as DefId));
    assert(before.contains(def_id as int));
    assert(after =~= before.remove(def_id as int));
}

/// A binder, the terms in whose scope it stands and the next free variable id, once the binder
/// has been given the name of that id. An unnamed binder stays as it is, and `None` says that
/// the ids are used up.
pub open spec fn rebound(nam: Option<Seq<char>>, next: Val, scope: TermView) -> Option<
    (Option<Seq<char>>, Val, TermView),
> {
    match nam {
        None => Some((nam, next, scope)),
        Some(nam) => if next < Val::MAX {
            let fresh = id_name(next as nat);
            Some(
                (
                    Some(fresh),
                    (next + 1) as Val,
                    substituted(scope, nam, TermView::Var { nam: fresh }),
                ),
            )
        } else {
            None
        },
    }
}

/// `term` with references to generated definitions replaced by their bodies and with its
/// binders renamed, in the order in which they are met, to the ids from `next` on; and the id
/// that is free after that. `open` holds the definitions that are being unfolded.
///
/// `None` says that there is no such term: the ids are used up, a `let` is met, or a generated
/// definition has no plain body or unfolds to itself without end.
pub open spec fn refreshed(
    term: TermView,
    next: Val,
    book: BookView,
    open: Set<DefId>,
) -> Option<(TermView, Val)>
    decreases unopened(open), term_size(term),
{
    match term {
        TermView::Lam { nam, bod } => match rebound(nam, next, *bod) {
            None => None,
            Some((nam1, next1, bod1)) => {
                proof {
                    lemma_rebound_keeps_size(nam, next, *bod);
                }
                match refreshed(bod1, next1, book, open) {
                    None => None,
                    Some((bod2, next2)) => Some(
                        (TermView::Lam { nam: nam1, bod: Box::new(bod2) }, next2),
                    ),
                }
            },
        },
        TermView::Ref { def_id } => if !book.is_generated(def_id) {
            Some((term, next))
        } else if book.bodies.contains_key(def_id) && !open.contains(def_id) {
            proof {
                lemma_opening_decreases(open, def_id);
            }
            refreshed(book.bodies[def_id], next, book, open.insert(def_id))
        } else {
            None
        },
        TermView::Dup { fst, snd, val, nxt } => match refreshed(*val, next, book, open) {
            None => None,
            Some((val1, next1)) => match rebound(fst, next1, *nxt) {
                None => None,
                Some((fst1, next2, nxt2)) => match rebound(snd, next2, nxt2) {
                    None => None,
                    Some((snd1, next3, nxt3)) => {
                        proof {
                            lemma_rebound_keeps_size(fst, next1, *nxt);
                            lemma_rebound_keeps_size(snd, next2, nxt2);
                        }
                        match refreshed(nxt3, next3, book, open) {
                            None => None,
                            Some((nxt4, next4)) => Some(
                                (
                                    TermView::Dup {
                                        fst: fst1,
                                        snd: snd1,
                                        val: Box::new(val1),
                                        nxt: Box::new(nxt4),
                                    },
                                    next4,
                                ),
                            ),
                        }
                    },
                },
            },
        },
        TermView::Chn { nam, bod } => match refreshed(*bod, next, book, open) {
            None => None,
            Some((bod1, next1)) => Some((TermView::Chn { nam, bod: Box::new(bod1) }, next1)),
        },
        TermView::App { fun, arg } => match refreshed_pair(*fun, *arg, next, book, open) {
            None => None,
            Some((fun1, arg1, next1)) => Some(
                (TermView::App { fun: Box::new(fun1), arg: Box::new(arg1) }, next1),
            ),
        },
        TermView::Sup { fst, snd } => match refreshed_pair(*fst, *snd, next, book, open) {
            None => None,
            Some((fst1, snd1, next1)) => Some(
                (TermView::Sup { fst: Box::new(fst1), snd: Box::new(snd1) }, next1),
            ),
        },
        TermView::Tup { fst, snd } => match refreshed_pair(*fst, *snd, next, book, open) {
            None => None,
            Some((fst1, snd1, next1)) => Some(
                (TermView::Tup { fst: Box::new(fst1), snd: Box::new(snd1) }, next1),
            ),
        },
        TermView::Opx { op, fst, snd } => match refreshed_pair(*fst, *snd, next, book, open) {
            None => None,
            Some((fst1, snd1, next1)) => Some(
                (TermView::Opx { op, fst: Box::new(fst1), snd: Box::new(snd1) }, next1),
            ),
        },
        TermView::Match { cond, zero, succ } => match refreshed(*cond, next, book, open) {
            None => None,
            Some((cond1, next1)) => match refreshed_pair(*zero, *succ, next1, book, open) {
                None => None,
                Some((zero1, succ1, next2)) => Some(
                    (
                        TermView::Match {
                            cond: Box::new(cond1),
                            zero: Box::new(zero1),
                            succ: Box::new(succ1),
                        },
                        next2,
                    ),
                ),
            },
        },
        TermView::Let { .. } => None,
        _ => Some((term, next)),
    }
}

/// Two terms, the first refreshed from `next` on and the second from where the first ends.
pub open spec fn refreshed_pair(
    fst: TermView,
    snd: TermView,
    next: Val,
    book: BookView,
    open: Set<DefId>,
) -> Option<(TermView, TermView, Val)>
    decreases unopened(open), term_size(fst) + term_size(snd),
{
    match refreshed(fst, next, book, open) {
        None => None,
        Some((fst1, next1)) => match refreshed(snd, next1, book, open) {
            None => None,
            Some((snd1, next2)) => Some((fst1, snd1, next2)),
        },
    }
}

/// Renaming a binder keeps the size of its scope.
pub proof fn lemma_rebound_keeps_size(nam: Option<Seq<char>>, next: Val, scope: TermView)
    ensures
        rebound(nam, next, scope) matches Some((_, _, scope1)) ==> term_size(scope1) == term_size(
            scope,
        ),
{
    if let Some(nam) = nam {
        lemma_renaming_keeps_size(scope, nam, id_name(next as nat));
    }
}

/// Gives a named binder the name of the next variable id, in the binder and in its scope.
fn fix_name(nam: &mut Option<Name>, id_counter: &mut Val, bod: &mut Term)
    requires
        rebound(optional_name(*old(nam)), *old(id_counter), old(bod)@) is Some,
    ensures
        rebound(optional_name(*old(nam)), *old(id_counter), old(bod)@) == Some(
            (optional_name(*final(nam)), *final(id_counter), final(bod)@),
        ),
{
    if let Some(nam) = nam {
        let name = var_id_to_name(*id_counter);
        *id_counter += 1;
        bod.subst(nam, &Term::Var { nam: name.clone() });
        *nam = name;
    }
}

impl Term {
    /// Replaces references to generated definitions by their bodies, and renames the binders of
    /// the term to variable ids from `id_counter` on.
    pub fn fix_names(&mut self, id_counter: &mut Val, book: &Book)
        requires
            refreshed(old(self)@, *old(id_counter), book@, Set::empty()) is Some,
        ensures
            refreshed(old(self)@, *old(id_counter), book@, Set::empty()) == Some(
                (final(self)@, *final(id_counter)),
            ),
    {
        self.fix_names_within(id_counter, book, Ghost(Set::empty()));
    }

    /// `fix_names` in the body of the definitions in `open`, which are being unfolded.
    fn fix_names_within(
        &mut self,
        id_counter: &mut Val,
        book: &Book,
        Ghost(open): Ghost<Set<DefId>>,
    )
        requires
            refreshed(old(self)@, *old(id_counter), book@, open) is Some,
        ensures
            refreshed(old(self)@, *old(id_counter), book@, open) == Some(
                (final(self)@, *final(id_counter)),
            ),
        decreases unopened(open), term_size(old(self)@),
    {
        reveal_with_fuel(refreshed, 2);
        match self {
            Term::Lam { nam, bod } => {
                proof {
                    lemma_rebound_keeps_size(optional_name(*nam), *id_counter, bod@);
                }
                fix_name(nam, id_counter, bod);
                bod.fix_names_within(id_counter, book, Ghost(open));
            },
            Term::Ref { def_id } => {
                if book.is_generated_def(*def_id) {
                    proof {
                        lemma_opening_decreases(open, *def_id);
                    }
                    let mut term = book.plain_body(*def_id).clone();
                    term.fix_names_within(id_counter, book, Ghost(open.insert(*def_id)));
                    *self = term;
                }
            },
            Term::Dup { fst, snd, val, nxt } => {
                val.fix_names_within(id_counter, book, Ghost(open));
                proof {
                    lemma_rebound_keeps_size(optional_name(*fst), *id_counter, nxt@);
                }
                fix_name(fst, id_counter, nxt);
                proof {
                    lemma_rebound_keeps_size(optional_name(*snd), *id_counter, nxt@);
                }
                fix_name(snd, id_counter, nxt);
                nxt.fix_names_within(id_counter, book, Ghost(open));
            },
            Term::Chn { nam: _, bod } => bod.fix_names_within(id_counter, book, Ghost(open)),
            Term::App { fun, arg } => {
                fun.fix_names_within(id_counter, book, Ghost(open));
                arg.fix_names_within(id_counter, book, Ghost(open));
            },
            Term::Sup { fst, snd } => {
                fst.fix_names_within(id_counter, book, Ghost(open));
                snd.fix_names_within(id_counter, book, Ghost(open));
            },
            Term::Tup { fst, snd } => {
                fst.fix_names_within(id_counter, book, Ghost(open));
                snd.fix_names_within(id_counter, book, Ghost(open));
            },
            Term::Opx { op: _, fst, snd } => {
                fst.fix_names_within(id_counter, book, Ghost(open));
                snd.fix_names_within(id_counter, book, Ghost(open));
            },
            Term::Match { cond, zero, succ } => {
                cond.fix_names_within(id_counter, book, Ghost(open));
                zero.fix_names_within(id_counter, book, Ghost(open));
                succ.fix_names_within(id_counter, book, Ghost(open));
            },
            Term::Let { .. } => unreached(),
            Term::Var { .. } | Term::Lnk { .. } | Term::Num { .. } | Term::Era => {},
        }
    }
}

} // verus!
