//! Refreshing a term once more.

use vstd::prelude::*;

use crate::book::BookView;
use crate::fix_names::{
    lemma_rebound_keeps_size, rebound, refreshed, refreshed_pair, term_size,
};
use crate::laws::naming::{binder, binders, law_refreshed_binders_are_fresh};
use crate::laws::shape::{lacks, law_refreshed_lacks, Part};
use crate::name::{id_name, Val};
use crate::term::{substituted, DefId, TermView};

verus! {

/// Whether a term has neither a `let` nor a reference to a generated definition.
spec fn is_settled(term: TermView, book: BookView) -> bool {
    lacks(term, Part::Let) && lacks(term, Part::GeneratedRef(book))
}

/// How many ids it takes to refresh a settled term.
spec fn cost(term: TermView) -> nat {
    binders(term).len()
}

/// Renaming a variable keeps the binders of a term, and a settled term settled.
proof fn lemma_renaming_keeps_binders(
    term: TermView,
    from: Seq<char>,
    to: Seq<char>,
    book: BookView,
)
    requires
        is_settled(term, book),
    ensures
        is_settled(substituted(term, from, TermView::Var { nam: to }), book),
        binders(substituted(term, from, TermView::Var { nam: to })) == binders(term),
    decreases term,
{
    match term {
        TermView::Lam { bod, .. } => lemma_renaming_keeps_binders(*bod, from, to, book),
        TermView::Chn { bod, .. } => lemma_renaming_keeps_binders(*bod, from, to, book),
        TermView::App { fun, arg } => {
            lemma_renaming_keeps_binders(*fun, from, to, book);
            lemma_renaming_keeps_binders(*arg, from, to, book);
        },
        TermView::Tup { fst, snd } => {
            lemma_renaming_keeps_binders(*fst, from, to, book);
            lemma_renaming_keeps_binders(*snd, from, to, book);
        },
        TermView::Dup { val, nxt, .. } => {
            lemma_renaming_keeps_binders(*val, from, to, book);
            lemma_renaming_keeps_binders(*nxt, from, to, book);
        },
        TermView::Sup { fst, snd } => {
            lemma_renaming_keeps_binders(*fst, from, to, book);
            lemma_renaming_keeps_binders(*snd, from, to, book);
        },
        TermView::Opx { fst, snd, .. } => {
            lemma_renaming_keeps_binders(*fst, from, to, book);
            lemma_renaming_keeps_binders(*snd, from, to, book);
        },
        TermView::Match { cond, zero, succ } => {
            lemma_renaming_keeps_binders(*cond, from, to, book);
            lemma_renaming_keeps_binders(*zero, from, to, book);
            lemma_renaming_keeps_binders(*succ, from, to, book);
        },
        _ => {},
    }
}

/// Renaming a binder takes one id if it has a name, and keeps the binders of its scope. It fails
/// only if there is no such id.
proof fn lemma_rebound_costs(
    nam: Option<Seq<char>>,
    next: Val,
    scope: TermView,
    book: BookView,
)
    requires
        is_settled(scope, book),
    ensures
        rebound(nam, next, scope) is Some <==> next + binder(nam).len() <= Val::MAX,
        rebound(nam, next, scope) matches Some((_, next1, scope1)) ==> {
            &&& next1 == next + binder(nam).len()
            &&& is_settled(scope1, book)
            &&& binders(scope1) == binders(scope)
            &&& term_size(scope1) == term_size(scope)
        },
{
    if let Some(nam) = nam {
        lemma_renaming_keeps_binders(scope, nam, id_name(next as nat), book);
    }
    lemma_rebound_keeps_size(nam, next, scope);
}

/// Refreshing a settled term takes an id for each binder with a name. It fails only if ids do
/// not suffice.
proof fn lemma_refreshing_costs(term: TermView, next: Val, book: BookView, open: Set<DefId>)
    requires
        is_settled(term, book),
    ensures
        refreshed(term, next, book, open) is Some <==> next + cost(term) <= Val::MAX,
        refreshed(term, next, book, open) matches Some((_, end)) ==> end == next + cost(term),
    decreases term_size(term), 0nat,
{
    match term {
        TermView::Lam { nam, bod } => {
            lemma_rebound_costs(nam, next, *bod, book);
            if let Some((_, next1, bod1)) = rebound(nam, next, *bod) {
                lemma_refreshing_costs(bod1, next1, book, open);
            }
        },
        TermView::Dup { fst, snd, val, nxt } => {
            lemma_refreshing_costs(*val, next, book, open);
            if let Some((_, next1)) = refreshed(*val, next, book, open) {
                lemma_rebound_costs(fst, next1, *nxt, book);
                if let Some((_, next2, nxt2)) = rebound(fst, next1, *nxt) {
                    lemma_rebound_costs(snd, next2, nxt2, book);
                    if let Some((_, next3, nxt3)) = rebound(snd, next2, nxt2) {
                        lemma_refreshing_costs(nxt3, next3, book, open);
                    }
                }
            }
        },
        TermView::Chn { bod, .. } => lemma_refreshing_costs(*bod, next, book, open),
        TermView::App { fun, arg } => lemma_pair_costs(*fun, *arg, next, book, open),
        TermView::Sup { fst, snd } => lemma_pair_costs(*fst, *snd, next, book, open),
        TermView::Tup { fst, snd } => lemma_pair_costs(*fst, *snd, next, book, open),
        TermView::Opx { fst, snd, .. } => lemma_pair_costs(*fst, *snd, next, book, open),
        TermView::Match { cond, zero, succ } => {
            lemma_refreshing_costs(*cond, next, book, open);
            if let Some((_, next1)) = refreshed(*cond, next, book, open) {
                lemma_pair_costs(*zero, *succ, next1, book, open);
            }
        },
        _ => {},
    }
}

/// Refreshing two settled terms in turn takes an id for each binder with a name.
proof fn lemma_pair_costs(
    fst: TermView,
    snd: TermView,
    next: Val,
    book: BookView,
    open: Set<DefId>,
)
    requires
        is_settled(fst, book),
        is_settled(snd, book),
    ensures
        refreshed_pair(fst, snd, next, book, open) is Some <==> next + cost(fst) + cost(snd)
            <= Val::MAX,
        refreshed_pair(fst, snd, next, book, open) matches Some((_, _, end)) ==> end == next + cost(
            fst,
        ) + cost(snd),
    decreases term_size(fst) + term_size(snd), 1nat,
{
    lemma_refreshing_costs(fst, next, book, open);
    if let Some((_, next1)) = refreshed(fst, next, book, open) {
        lemma_refreshing_costs(snd, next1, book, open);
    }
}

/// A term without `let`s and without references to generated definitions can be refreshed
/// exactly from those ids on from which there is an id for each binder with a name, and takes
/// that many.
pub proof fn law_refreshing_takes_an_id_for_each_binder(
    term: TermView,
    next: Val,
    book: BookView,
    open: Set<DefId>,
)
    requires
        lacks(term, Part::Let),
        lacks(term, Part::GeneratedRef(book)),
    ensures
        refreshed(term, next, book, open) is Some <==> next + binders(term).len() <= Val::MAX,
        refreshed(term, next, book, open) matches Some((_, end)) ==> end == next + binders(
            term,
        ).len(),
{
    lemma_refreshing_costs(term, next, book, open);
}

/// A term that was refreshed can be refreshed again exactly from those ids on from which ids
/// suffice, and takes as many ids as the first time.
pub proof fn law_refreshing_again_takes_as_many_ids(
    term: TermView,
    next: Val,
    book: BookView,
    open: Set<DefId>,
    again: Val,
    open_again: Set<DefId>,
)
    ensures
        refreshed(term, next, book, open) matches Some((fresh, end)) ==> {
            &&& refreshed(fresh, again, book, open_again) is Some <==> again + (end - next)
                <= Val::MAX
            &&& refreshed(fresh, again, book, open_again) matches Some((_, end_again))
                ==> end_again - again == end - next
        },
{
    if let Some((fresh, _)) = refreshed(term, next, book, open) {
        law_refreshed_binders_are_fresh(term, next, book, open);
        law_refreshed_lacks(term, next, book, open, Part::Let);
        law_refreshed_lacks(term, next, book, open, Part::GeneratedRef(book));
        lemma_refreshing_costs(fresh, again, book, open_again);
    }
}

} // verus!
