//! Refreshing the names of a term keeps its meaning.

use vstd::prelude::*;

use crate::book::BookView;
use crate::fix_names::{
    lemma_opening_decreases, lemma_rebound_keeps_size, rebound, refreshed, refreshed_pair,
    term_size, unopened,
};
use crate::laws::naming::{binder, binders, law_refreshed_binders_are_fresh, names_between};
use crate::name::{id_name, law_id_names_are_distinct, Val};
use crate::term::{binds, pattern_binds, substituted, DefId, TermView};

verus! {

/// Pairs of names, the innermost last: a name in one term, and what it is called in another.
pub type Renaming = Seq<(Seq<char>, Seq<char>)>;

/// Whether a variable of one term corresponds to a variable of another: the innermost pair that
/// holds either of them holds both, or no pair does and they are called the same.
pub open spec fn corresponds(env: Renaming, here: Seq<char>, there: Seq<char>) -> bool
    decreases env.len(),
{
    if env.len() == 0 {
        here == there
    } else if env.last().0 == here || env.last().1 == there {
        env.last() == (here, there)
    } else {
        corresponds(env.drop_last(), here, there)
    }
}

/// `env` in the scope of two binders that correspond to each other.
pub open spec fn extended(
    env: Renaming,
    here: Option<Seq<char>>,
    there: Option<Seq<char>>,
) -> Renaming {
    match (here, there) {
        (Some(here), Some(there)) => env.push((here, there)),
        _ => env,
    }
}

/// Whether `there` is `here` with its binders renamed and with references to generated
/// definitions replaced by their bodies, where the names in scope correspond by `env`. `open`
/// holds the definitions that are being unfolded. Terms with a `let` correspond to none.
pub open spec fn is_renamed(
    book: BookView,
    open: Set<DefId>,
    env: Renaming,
    here: TermView,
    there: TermView,
) -> bool
    decreases unopened(open), here,
{
    match here {
        TermView::Lam { nam, bod } => {
            &&& there matches TermView::Lam { nam: nam1, bod: bod1 }
            &&& nam is Some == nam1 is Some
            &&& is_renamed(book, open, extended(env, nam, nam1), *bod, *bod1)
        },
        TermView::Var { nam } => {
            &&& there matches TermView::Var { nam: nam1 }
            &&& corresponds(env, nam, nam1)
        },
        TermView::Chn { nam, bod } => {
            &&& there matches TermView::Chn { nam: nam1, bod: bod1 }
            &&& nam == nam1
            &&& is_renamed(book, open, env, *bod, *bod1)
        },
        TermView::Let { .. } => false,
        TermView::App { fun, arg } => {
            &&& there matches TermView::App { fun: fun1, arg: arg1 }
            &&& is_renamed(book, open, env, *fun, *fun1)
            &&& is_renamed(book, open, env, *arg, *arg1)
        },
        TermView::Tup { fst, snd } => {
            &&& there matches TermView::Tup { fst: fst1, snd: snd1 }
            &&& is_renamed(book, open, env, *fst, *fst1)
            &&& is_renamed(book, open, env, *snd, *snd1)
        },
        TermView::Dup { fst, snd, val, nxt } => {
            &&& there matches TermView::Dup { fst: fst1, snd: snd1, val: val1, nxt: nxt1 }
            &&& fst is Some == fst1 is Some
            &&& snd is Some == snd1 is Some
            &&& is_renamed(book, open, env, *val, *val1)
            &&& is_renamed(
                book,
                open,
                extended(extended(env, snd, snd1), fst, fst1),
                *nxt,
                *nxt1,
            )
        },
        TermView::Sup { fst, snd } => {
            &&& there matches TermView::Sup { fst: fst1, snd: snd1 }
            &&& is_renamed(book, open, env, *fst, *fst1)
            &&& is_renamed(book, open, env, *snd, *snd1)
        },
        TermView::Opx { op, fst, snd } => {
            &&& there matches TermView::Opx { op: op1, fst: fst1, snd: snd1 }
            &&& op == op1
            &&& is_renamed(book, open, env, *fst, *fst1)
            &&& is_renamed(book, open, env, *snd, *snd1)
        },
        TermView::Match { cond, zero, succ } => {
            &&& there matches TermView::Match { cond: cond1, zero: zero1, succ: succ1 }
            &&& is_renamed(book, open, env, *cond, *cond1)
            &&& is_renamed(book, open, env, *zero, *zero1)
            &&& is_renamed(book, open, env, *succ, *succ1)
        },
        TermView::Ref { def_id } => if !book.is_generated(def_id) {
            there == here
        } else if open.contains(def_id) || !book.bodies.contains_key(def_id) {
            false
        } else {
            proof {
                lemma_opening_decreases(open, def_id);
            }
            is_renamed(book, open.insert(def_id), Seq::empty(), book.bodies[def_id], there)
        },
        _ => there == here,
    }
}

/// Whether a variable called `nam` occurs free in `term`.
pub open spec fn is_free(nam: Seq<char>, term: TermView) -> bool
    decreases term,
{
    match term {
        TermView::Lam { nam: own, bod } => !binds(own, nam) && is_free(nam, *bod),
        TermView::Var { nam: own } => own == nam,
        TermView::Chn { bod, .. } => is_free(nam, *bod),
        TermView::Let { pat, val, nxt } => is_free(nam, *val) || (!pattern_binds(pat, nam)
            && is_free(nam, *nxt)),
        TermView::App { fun, arg } => is_free(nam, *fun) || is_free(nam, *arg),
        TermView::Tup { fst, snd } => is_free(nam, *fst) || is_free(nam, *snd),
        TermView::Dup { fst, snd, val, nxt } => is_free(nam, *val) || (!binds(fst, nam) && !binds(
            snd,
            nam,
        ) && is_free(nam, *nxt)),
        TermView::Sup { fst, snd } => is_free(nam, *fst) || is_free(nam, *snd),
        TermView::Opx { fst, snd, .. } => is_free(nam, *fst) || is_free(nam, *snd),
        TermView::Match { cond, zero, succ } => is_free(nam, *cond) || is_free(nam, *zero)
            || is_free(nam, *succ),
        _ => false,
    }
}

/// Whether a free variable of `term` called `from` occurs in the scope of a binder called `to`,
/// so that it would be captured if it were called `to`.
pub open spec fn captures(term: TermView, from: Seq<char>, to: Seq<char>) -> bool
    decreases term,
{
    match term {
        TermView::Lam { nam, bod } => !binds(nam, from) && if binds(nam, to) {
            is_free(from, *bod)
        } else {
            captures(*bod, from, to)
        },
        TermView::Chn { bod, .. } => captures(*bod, from, to),
        TermView::Let { pat, val, nxt } => captures(*val, from, to) || (!pattern_binds(pat, from)
            && if pattern_binds(pat, to) {
            is_free(from, *nxt)
        } else {
            captures(*nxt, from, to)
        }),
        TermView::App { fun, arg } => captures(*fun, from, to) || captures(*arg, from, to),
        TermView::Tup { fst, snd } => captures(*fst, from, to) || captures(*snd, from, to),
        TermView::Dup { fst, snd, val, nxt } => captures(*val, from, to) || (!binds(fst, from)
            && !binds(snd, from) && if binds(fst, to) || binds(snd, to) {
            is_free(from, *nxt)
        } else {
            captures(*nxt, from, to)
        }),
        TermView::Sup { fst, snd } => captures(*fst, from, to) || captures(*snd, from, to),
        TermView::Opx { fst, snd, .. } => captures(*fst, from, to) || captures(*snd, from, to),
        TermView::Match { cond, zero, succ } => captures(*cond, from, to) || captures(
            *zero,
            from,
            to,
        ) || captures(*succ, from, to),
        _ => false,
    }
}

/// Whether a binder can be given the name of an id without capturing a variable in its scope or
/// having one captured.
pub open spec fn can_rebind(nam: Option<Seq<char>>, next: Val, scope: TermView) -> bool {
    nam matches Some(from) ==> {
        let to = id_name(next as nat);
        from == to || (!is_free(to, scope) && !captures(scope, from, to))
    }
}

/// Whether every binder can be renamed when `term` is refreshed.
pub open spec fn can_refresh(term: TermView, next: Val, book: BookView, open: Set<DefId>) -> bool
    decreases unopened(open), term_size(term),
{
    match term {
        TermView::Lam { nam, bod } => {
            &&& can_rebind(nam, next, *bod)
            &&& rebound(nam, next, *bod) matches Some((_, next1, bod1)) ==> {
                proof {
                    lemma_rebound_keeps_size(nam, next, *bod);
                }
                can_refresh(bod1, next1, book, open)
            }
        },
        TermView::Ref { def_id } => book.is_generated(def_id) && !open.contains(def_id) ==> {
            proof {
                lemma_opening_decreases(open, def_id);
            }
            can_refresh(book.bodies[def_id], next, book, open.insert(def_id))
        },
        TermView::Dup { fst, snd, val, nxt } => {
            &&& can_refresh(*val, next, book, open)
            &&& refreshed(*val, next, book, open) matches Some((_, next1)) ==> {
                &&& can_rebind(fst, next1, *nxt)
                // The new name of the first variable is not taken for the second.
                &&& fst matches Some(fst) ==> snd == Some(id_name(next1 as nat)) ==> !is_free(
                    fst,
                    *nxt,
                )
                &&& rebound(fst, next1, *nxt) matches Some((_, next2, nxt2)) ==> {
                    &&& can_rebind(snd, next2, nxt2)
                    &&& rebound(snd, next2, nxt2) matches Some((_, next3, nxt3)) ==> {
                        proof {
                            lemma_rebound_keeps_size(fst, next1, *nxt);
                            lemma_rebound_keeps_size(snd, next2, nxt2);
                        }
                        can_refresh(nxt3, next3, book, open)
                    }
                }
            }
        },
        TermView::Chn { bod, .. } => can_refresh(*bod, next, book, open),
        TermView::App { fun, arg } => can_refresh_pair(*fun, *arg, next, book, open),
        TermView::Sup { fst, snd } => can_refresh_pair(*fst, *snd, next, book, open),
        TermView::Tup { fst, snd } => can_refresh_pair(*fst, *snd, next, book, open),
        TermView::Opx { fst, snd, .. } => can_refresh_pair(*fst, *snd, next, book, open),
        TermView::Match { cond, zero, succ } => {
            &&& can_refresh(*cond, next, book, open)
            &&& refreshed(*cond, next, book, open) matches Some((_, next1)) ==> can_refresh_pair(
                *zero,
                *succ,
                next1,
                book,
                open,
            )
        },
        _ => true,
    }
}

/// Whether every binder can be renamed when two terms are refreshed in turn.
pub open spec fn can_refresh_pair(
    fst: TermView,
    snd: TermView,
    next: Val,
    book: BookView,
    open: Set<DefId>,
) -> bool
    decreases unopened(open), term_size(fst) + term_size(snd),
{
    &&& can_refresh(fst, next, book, open)
    &&& refreshed(fst, next, book, open) matches Some((_, next1)) ==> can_refresh(
        snd,
        next1,
        book,
        open,
    )
}

/// Whether a pair of `env` holds `nam` as a name in the first term.
spec fn holds_here(env: Renaming, nam: Seq<char>) -> bool {
    exists|i: int| 0 <= i < env.len() && (#[trigger] env[i]).0 == nam
}

/// Whether a pair of `env` holds `nam` as a name in the second term.
spec fn holds_there(env: Renaming, nam: Seq<char>) -> bool {
    exists|i: int| 0 <= i < env.len() && (#[trigger] env[i]).1 == nam
}

/// Variables that correspond are both held or, called the same, both not held.
proof fn lemma_corresponding(env: Renaming, here: Seq<char>, there: Seq<char>)
    requires
        corresponds(env, here, there),
    ensures
        holds_here(env, here) == holds_there(env, there),
        !holds_here(env, here) ==> here == there,
    decreases env.len(),
{
    if env.len() > 0 {
        let rest = env.drop_last();
        let last = env.len() - 1;
        if env.last().0 == here || env.last().1 == there {
            assert(env[last] == (here, there));
        } else {
            lemma_corresponding(rest, here, there);
            if holds_here(rest, here) {
                let i = choose|i: int| 0 <= i < rest.len() && (#[trigger] rest[i]).0 == here;
                assert(env[i].0 == here);
                let j = choose|j: int| 0 <= j < rest.len() && (#[trigger] rest[j]).1 == there;
                assert(env[j].1 == there);
            } else {
                if holds_here(env, here) {
                    let i = choose|i: int| 0 <= i < env.len() && (#[trigger] env[i]).0 == here;
                    assert(rest[i].0 == here);
                }
                if holds_there(env, there) {
                    let i = choose|i: int| 0 <= i < env.len() && (#[trigger] env[i]).1 == there;
                    assert(rest[i].1 == there);
                }
            }
        }
    }
}

/// Holding one pair more.
proof fn lemma_pushed(env: Renaming, pair: (Seq<char>, Seq<char>), nam: Seq<char>)
    ensures
        holds_here(env.push(pair), nam) == (holds_here(env, nam) || pair.0 == nam),
        holds_there(env.push(pair), nam) == (holds_there(env, nam) || pair.1 == nam),
{
    let more = env.push(pair);
    assert(more[env.len() as int] == pair);
    if holds_here(env, nam) {
        let i = choose|i: int| 0 <= i < env.len() && (#[trigger] env[i]).0 == nam;
        assert(more[i].0 == nam);
    }
    if holds_there(env, nam) {
        let i = choose|i: int| 0 <= i < env.len() && (#[trigger] env[i]).1 == nam;
        assert(more[i].1 == nam);
    }
    if holds_here(more, nam) && pair.0 != nam {
        let i = choose|i: int| 0 <= i < more.len() && (#[trigger] more[i]).0 == nam;
        assert(env[i].0 == nam);
    }
    if holds_there(more, nam) && pair.1 != nam {
        let i = choose|i: int| 0 <= i < more.len() && (#[trigger] more[i]).1 == nam;
        assert(env[i].1 == nam);
    }
}

/// A pair further out that holds neither of two variables, or only one that is shadowed, does
/// not matter to them.
proof fn lemma_inserted(
    outer: Renaming,
    inner: Renaming,
    pair: (Seq<char>, Seq<char>),
    here: Seq<char>,
    there: Seq<char>,
)
    requires
        corresponds(outer + inner, here, there),
        there != pair.1,
        here != pair.0 || holds_here(inner, here),
    ensures
        corresponds(outer.push(pair) + inner, here, there),
    decreases inner.len(),
{
    let before = outer + inner;
    let after = outer.push(pair) + inner;
    if inner.len() == 0 {
        assert(before =~= outer);
        assert(after =~= outer.push(pair));
        assert(outer.push(pair).drop_last() =~= outer);
    } else {
        let rest = inner.drop_last();
        assert(before.drop_last() =~= outer + rest);
        assert(after.drop_last() =~= outer.push(pair) + rest);
        if inner.last().0 != here && inner.last().1 != there {
            assert(inner =~= rest.push(inner.last()));
            lemma_pushed(rest, inner.last(), here);
            lemma_inserted(outer, rest, pair, here, there);
        }
    }
}

/// A pair that nothing further in shadows relates the names that it holds.
proof fn lemma_found(outer: Renaming, inner: Renaming, pair: (Seq<char>, Seq<char>))
    requires
        !holds_here(inner, pair.0),
        !holds_there(inner, pair.1),
    ensures
        corresponds(outer.push(pair) + inner, pair.0, pair.1),
    decreases inner.len(),
{
    let after = outer.push(pair) + inner;
    if inner.len() == 0 {
        assert(after =~= outer.push(pair));
    } else {
        let rest = inner.drop_last();
        assert(after.drop_last() =~= outer.push(pair) + rest);
        assert(inner =~= rest.push(inner.last()));
        lemma_pushed(rest, inner.last(), pair.0);
        lemma_pushed(rest, inner.last(), pair.1);
        lemma_found(outer, rest, pair);
    }
}

/// What is held in the scope of two more binders.
proof fn lemma_extended(
    env: Renaming,
    here: Option<Seq<char>>,
    there: Option<Seq<char>>,
    nam: Seq<char>,
)
    requires
        here is Some == there is Some,
    ensures
        holds_here(extended(env, here, there), nam) == (holds_here(env, nam) || binds(here, nam)),
        holds_there(extended(env, here, there), nam) == (holds_there(env, nam) || binds(
            there,
            nam,
        )),
{
    if let (Some(here), Some(there)) = (here, there) {
        lemma_pushed(env, (here, there), nam);
    }
}

/// Binders extend the inner part of a renaming.
proof fn lemma_extended_inside(
    outer: Renaming,
    inner: Renaming,
    here: Option<Seq<char>>,
    there: Option<Seq<char>>,
)
    ensures
        extended(outer + inner, here, there) == outer + extended(inner, here, there),
{
    assert(extended(outer + inner, here, there) =~= outer + extended(inner, here, there));
}

/// What the inner part of a renaming holds, all of it holds.
proof fn lemma_inner_holds(outer: Renaming, inner: Renaming, nam: Seq<char>)
    ensures
        holds_here(inner, nam) ==> holds_here(outer + inner, nam),
        holds_there(inner, nam) ==> holds_there(outer + inner, nam),
{
    if holds_here(inner, nam) {
        let i = choose|i: int| 0 <= i < inner.len() && (#[trigger] inner[i]).0 == nam;
        assert((outer + inner)[outer.len() + i].0 == nam);
    }
    if holds_there(inner, nam) {
        let i = choose|i: int| 0 <= i < inner.len() && (#[trigger] inner[i]).1 == nam;
        assert((outer + inner)[outer.len() + i].1 == nam);
    }
}

/// A name that two sequences together lack, each of them lacks.
proof fn lemma_lacked(fst: Seq<Seq<char>>, snd: Seq<Seq<char>>, nam: Seq<char>)
    requires
        !(fst + snd).contains(nam),
    ensures
        !fst.contains(nam),
        !snd.contains(nam),
{
    let all = fst + snd;
    if fst.contains(nam) {
        assert(all[fst.index_of(nam)] == nam);
    }
    if snd.contains(nam) {
        assert(all[fst.len() + snd.index_of(nam)] == nam);
    }
}

/// A name that a binder lacks is not the name of the binder.
proof fn lemma_binder_lacks(own: Option<Seq<char>>, nam: Seq<char>)
    requires
        !binder(own).contains(nam),
    ensures
        !binds(own, nam),
{
    if let Some(own) = own {
        assert(binder(Some(own))[0] == own);
    }
}

/// A pair further out whose names do not occur free, or only shadowed, does not matter.
proof fn lemma_weakened(
    book: BookView,
    open: Set<DefId>,
    outer: Renaming,
    inner: Renaming,
    pair: (Seq<char>, Seq<char>),
    here: TermView,
    there: TermView,
)
    requires
        is_renamed(book, open, outer + inner, here, there),
        !holds_there(outer + inner, pair.1),
        !binders(there).contains(pair.1),
        is_free(pair.0, here) ==> holds_here(inner, pair.0),
        is_free(pair.1, here) ==> holds_here(outer + inner, pair.1),
    ensures
        is_renamed(book, open, outer.push(pair) + inner, here, there),
    decreases here,
{
    let more = outer.push(pair);
    match (here, there) {
        (TermView::Lam { nam, bod }, TermView::Lam { nam: nam1, bod: bod1 }) => {
            let inner1 = extended(inner, nam, nam1);
            lemma_extended_inside(outer, inner, nam, nam1);
            lemma_extended_inside(more, inner, nam, nam1);
            lemma_lacked(binder(nam1), binders(*bod1), pair.1);
            lemma_binder_lacks(nam1, pair.1);
            lemma_extended(inner, nam, nam1, pair.0);
            lemma_extended(outer + inner, nam, nam1, pair.1);
            lemma_weakened(book, open, outer, inner1, pair, *bod, *bod1);
        },
        (TermView::Var { nam }, TermView::Var { nam: nam1 }) => {
            lemma_corresponding(outer + inner, nam, nam1);
            lemma_inserted(outer, inner, pair, nam, nam1);
        },
        (TermView::Chn { bod, .. }, TermView::Chn { bod: bod1, .. }) => {
            lemma_weakened(book, open, outer, inner, pair, *bod, *bod1);
        },
        (TermView::App { fun, arg }, TermView::App { fun: fun1, arg: arg1 }) => {
            lemma_lacked(binders(*fun1), binders(*arg1), pair.1);
            lemma_weakened(book, open, outer, inner, pair, *fun, *fun1);
            lemma_weakened(book, open, outer, inner, pair, *arg, *arg1);
        },
        (TermView::Tup { fst, snd }, TermView::Tup { fst: fst1, snd: snd1 }) => {
            lemma_lacked(binders(*fst1), binders(*snd1), pair.1);
            lemma_weakened(book, open, outer, inner, pair, *fst, *fst1);
            lemma_weakened(book, open, outer, inner, pair, *snd, *snd1);
        },
        (
            TermView::Dup { fst, snd, val, nxt },
            TermView::Dup { fst: fst1, snd: snd1, val: val1, nxt: nxt1 },
        ) => {
            let inner1 = extended(inner, snd, snd1);
            let inner2 = extended(inner1, fst, fst1);
            lemma_extended_inside(outer, inner, snd, snd1);
            lemma_extended_inside(more, inner, snd, snd1);
            lemma_extended_inside(outer, inner1, fst, fst1);
            lemma_extended_inside(more, inner1, fst, fst1);
            lemma_lacked(binders(*val1) + binder(fst1) + binder(snd1), binders(*nxt1), pair.1);
            lemma_lacked(binders(*val1) + binder(fst1), binder(snd1), pair.1);
            lemma_lacked(binders(*val1), binder(fst1), pair.1);
            lemma_binder_lacks(fst1, pair.1);
            lemma_binder_lacks(snd1, pair.1);
            lemma_extended(inner, snd, snd1, pair.0);
            lemma_extended(inner1, fst, fst1, pair.0);
            lemma_extended(outer + inner, snd, snd1, pair.1);
            lemma_extended(outer + inner1, fst, fst1, pair.1);
            lemma_weakened(book, open, outer, inner, pair, *val, *val1);
            lemma_weakened(book, open, outer, inner2, pair, *nxt, *nxt1);
        },
        (TermView::Sup { fst, snd }, TermView::Sup { fst: fst1, snd: snd1 }) => {
            lemma_lacked(binders(*fst1), binders(*snd1), pair.1);
            lemma_weakened(book, open, outer, inner, pair, *fst, *fst1);
            lemma_weakened(book, open, outer, inner, pair, *snd, *snd1);
        },
        (TermView::Opx { fst, snd, .. }, TermView::Opx { fst: fst1, snd: snd1, .. }) => {
            lemma_lacked(binders(*fst1), binders(*snd1), pair.1);
            lemma_weakened(book, open, outer, inner, pair, *fst, *fst1);
            lemma_weakened(book, open, outer, inner, pair, *snd, *snd1);
        },
        (
            TermView::Match { cond, zero, succ },
            TermView::Match { cond: cond1, zero: zero1, succ: succ1 },
        ) => {
            lemma_lacked(binders(*cond1) + binders(*zero1), binders(*succ1), pair.1);
            lemma_lacked(binders(*cond1), binders(*zero1), pair.1);
            lemma_weakened(book, open, outer, inner, pair, *cond, *cond1);
            lemma_weakened(book, open, outer, inner, pair, *zero, *zero1);
            lemma_weakened(book, open, outer, inner, pair, *succ, *succ1);
        },
        _ => {},
    }
}

/// If a term with its variables called `pair.0` renamed to `pair.1` corresponds to another, then
/// so does the term itself in the scope of that pair, provided nothing is captured.
proof fn lemma_renamed(
    book: BookView,
    open: Set<DefId>,
    outer: Renaming,
    inner: Renaming,
    pair: (Seq<char>, Seq<char>),
    here: TermView,
    there: TermView,
)
    requires
        is_renamed(
            book,
            open,
            outer + inner,
            substituted(here, pair.0, TermView::Var { nam: pair.1 }),
            there,
        ),
        !holds_here(inner, pair.0),
        !holds_there(outer + inner, pair.1),
        !binders(there).contains(pair.1),
        is_free(pair.0, here) ==> !holds_here(outer + inner, pair.1) && (pair.0 == pair.1
            || !captures(here, pair.0, pair.1)),
        is_free(pair.1, here) && pair.0 != pair.1 ==> holds_here(outer + inner, pair.1),
    ensures
        is_renamed(book, open, outer.push(pair) + inner, here, there),
    decreases here,
{
    let more = outer.push(pair);
    match here {
        TermView::Lam { nam, bod } => {
            let nam1 = there->Lam_nam;
            let bod1 = *there->Lam_bod;
            let inner1 = extended(inner, nam, nam1);
            lemma_extended_inside(outer, inner, nam, nam1);
            lemma_extended_inside(more, inner, nam, nam1);
            lemma_lacked(binder(nam1), binders(bod1), pair.1);
            lemma_binder_lacks(nam1, pair.1);
            lemma_extended(inner, nam, nam1, pair.0);
            lemma_extended(outer + inner, nam, nam1, pair.1);
            if binds(nam, pair.0) {
                lemma_inner_holds(outer, inner1, pair.0);
                lemma_weakened(book, open, outer, inner1, pair, *bod, bod1);
            } else {
                lemma_renamed(book, open, outer, inner1, pair, *bod, bod1);
            }
        },
        TermView::Var { nam } => {
            let nam1 = there->Var_nam;
            if nam == pair.0 {
                lemma_corresponding(outer + inner, pair.1, nam1);
                lemma_inner_holds(outer, inner, pair.1);
                lemma_found(outer, inner, pair);
            } else {
                lemma_corresponding(outer + inner, nam, nam1);
                lemma_inserted(outer, inner, pair, nam, nam1);
            }
        },
        TermView::Chn { bod, .. } => {
            lemma_renamed(book, open, outer, inner, pair, *bod, *there->Chn_bod);
        },
        TermView::App { fun, arg } => {
            let fun1 = *there->App_fun;
            let arg1 = *there->App_arg;
            lemma_lacked(binders(fun1), binders(arg1), pair.1);
            lemma_renamed(book, open, outer, inner, pair, *fun, fun1);
            lemma_renamed(book, open, outer, inner, pair, *arg, arg1);
        },
        TermView::Tup { fst, snd } => {
            let fst1 = *there->Tup_fst;
            let snd1 = *there->Tup_snd;
            lemma_lacked(binders(fst1), binders(snd1), pair.1);
            lemma_renamed(book, open, outer, inner, pair, *fst, fst1);
            lemma_renamed(book, open, outer, inner, pair, *snd, snd1);
        },
        TermView::Dup { fst, snd, val, nxt } => {
            let fst1 = there->Dup_fst;
            let snd1 = there->Dup_snd;
            let val1 = *there->Dup_val;
            let nxt1 = *there->Dup_nxt;
            let inner1 = extended(inner, snd, snd1);
            let inner2 = extended(inner1, fst, fst1);
            lemma_extended_inside(outer, inner, snd, snd1);
            lemma_extended_inside(more, inner, snd, snd1);
            lemma_extended_inside(outer, inner1, fst, fst1);
            lemma_extended_inside(more, inner1, fst, fst1);
            lemma_lacked(binders(val1) + binder(fst1) + binder(snd1), binders(nxt1), pair.1);
            lemma_lacked(binders(val1) + binder(fst1), binder(snd1), pair.1);
            lemma_lacked(binders(val1), binder(fst1), pair.1);
            lemma_binder_lacks(fst1, pair.1);
            lemma_binder_lacks(snd1, pair.1);
            lemma_extended(inner, snd, snd1, pair.0);
            lemma_extended(inner1, fst, fst1, pair.0);
            lemma_extended(outer + inner, snd, snd1, pair.1);
            lemma_extended(outer + inner1, fst, fst1, pair.1);
            lemma_renamed(book, open, outer, inner, pair, *val, val1);
            if binds(fst, pair.0) || binds(snd, pair.0) {
                lemma_inner_holds(outer, inner2, pair.0);
                lemma_weakened(book, open, outer, inner2, pair, *nxt, nxt1);
            } else {
                lemma_renamed(book, open, outer, inner2, pair, *nxt, nxt1);
            }
        },
        TermView::Sup { fst, snd } => {
            let fst1 = *there->Sup_fst;
            let snd1 = *there->Sup_snd;
            lemma_lacked(binders(fst1), binders(snd1), pair.1);
            lemma_renamed(book, open, outer, inner, pair, *fst, fst1);
            lemma_renamed(book, open, outer, inner, pair, *snd, snd1);
        },
        TermView::Opx { fst, snd, .. } => {
            let fst1 = *there->Opx_fst;
            let snd1 = *there->Opx_snd;
            lemma_lacked(binders(fst1), binders(snd1), pair.1);
            lemma_renamed(book, open, outer, inner, pair, *fst, fst1);
            lemma_renamed(book, open, outer, inner, pair, *snd, snd1);
        },
        TermView::Match { cond, zero, succ } => {
            let cond1 = *there->Match_cond;
            let zero1 = *there->Match_zero;
            let succ1 = *there->Match_succ;
            lemma_lacked(binders(cond1) + binders(zero1), binders(succ1), pair.1);
            lemma_lacked(binders(cond1), binders(zero1), pair.1);
            lemma_renamed(book, open, outer, inner, pair, *cond, cond1);
            lemma_renamed(book, open, outer, inner, pair, *zero, zero1);
            lemma_renamed(book, open, outer, inner, pair, *succ, succ1);
        },
        _ => {},
    }
}

/// A binder of a term that was refreshed from a later id on has another name.
proof fn lemma_later_names_differ(id: Val, from: Val, to: Val)
    requires
        id < from <= to,
    ensures
        !names_between(from, to).contains(id_name(id as nat)),
{
    let later = names_between(from, to);
    if later.contains(id_name(id as nat)) {
        let i = later.index_of(id_name(id as nat));
        law_id_names_are_distinct(id as nat, (from + i) as nat);
    }
}

/// If the scope of a binder that was renamed corresponds to a term whose binders have later
/// names, then so does the scope as it was, in the scope of the binder.
proof fn lemma_rebound_is_renamed(
    book: BookView,
    open: Set<DefId>,
    outer: Renaming,
    nam: Option<Seq<char>>,
    next: Val,
    scope: TermView,
    there: TermView,
)
    requires
        can_rebind(nam, next, scope),
        nam matches Some(nam) ==> {
            let to = id_name(next as nat);
            &&& !holds_there(outer, to)
            &&& is_free(nam, scope) ==> !holds_here(outer, to)
            &&& !binders(there).contains(to)
        },
        rebound(nam, next, scope) matches Some((_, _, scope1)) && is_renamed(
            book,
            open,
            outer,
            scope1,
            there,
        ),
    ensures
        rebound(nam, next, scope) matches Some((nam1, _, _)) && is_renamed(
            book,
            open,
            extended(outer, nam, nam1),
            scope,
            there,
        ),
{
    if let Some(from) = nam {
        let pair = (from, id_name(next as nat));
        let none: Renaming = Seq::empty();
        assert(outer + none =~= outer);
        assert(outer.push(pair) + none =~= outer.push(pair));
        lemma_renamed(book, open, outer, none, pair, scope, there);
    }
}

/// Refreshing a term keeps its meaning: the result is the term with its binders renamed and
/// with references to generated definitions replaced by their bodies. This holds where no
/// binder, given its new name, captures a variable or has one captured.
pub proof fn law_refreshed_is_renamed(
    term: TermView,
    next: Val,
    book: BookView,
    open: Set<DefId>,
)
    requires
        can_refresh(term, next, book, open),
    ensures
        refreshed(term, next, book, open) matches Some((fresh, _)) ==> is_renamed(
            book,
            open,
            Seq::empty(),
            term,
            fresh,
        ),
    decreases unopened(open), term_size(term), 0nat,
{
    let none: Renaming = Seq::empty();
    if let Some((fresh, end)) = refreshed(term, next, book, open) {
        match term {
            TermView::Lam { nam, bod } => {
                let (nam1, next1, bod1) = rebound(nam, next, *bod)->0;
                lemma_rebound_keeps_size(nam, next, *bod);
                law_refreshed_is_renamed(bod1, next1, book, open);
                law_refreshed_binders_are_fresh(bod1, next1, book, open);
                let (bod2, _) = refreshed(bod1, next1, book, open)->0;
                if nam is Some {
                    lemma_later_names_differ(next, next1, end);
                }
                lemma_rebound_is_renamed(book, open, none, nam, next, *bod, bod2);
            },
            TermView::Ref { def_id } => {
                if book.is_generated(def_id) {
                    lemma_opening_decreases(open, def_id);
                    law_refreshed_is_renamed(
                        book.bodies[def_id],
                        next,
                        book,
                        open.insert(def_id),
                    );
                }
            },
            TermView::Dup { fst, snd, val, nxt } => {
                let (_, next1) = refreshed(*val, next, book, open)->0;
                let (fst1, next2, nxt2) = rebound(fst, next1, *nxt)->0;
                let (snd1, next3, nxt3) = rebound(snd, next2, nxt2)->0;
                lemma_rebound_keeps_size(fst, next1, *nxt);
                lemma_rebound_keeps_size(snd, next2, nxt2);
                law_refreshed_is_renamed(*val, next, book, open);
                law_refreshed_is_renamed(nxt3, next3, book, open);
                law_refreshed_binders_are_fresh(nxt3, next3, book, open);
                let (nxt4, _) = refreshed(nxt3, next3, book, open)->0;
                if snd is Some {
                    lemma_later_names_differ(next2, next3, end);
                }
                lemma_rebound_is_renamed(book, open, none, snd, next2, nxt2, nxt4);
                let outer = extended(none, snd, snd1);
                if fst is Some {
                    let to = id_name(next1 as nat);
                    lemma_later_names_differ(next1, next3, end);
                    lemma_extended(none, snd, snd1, to);
                    if snd is Some && id_name(next2 as nat) == to {
                        law_id_names_are_distinct(next1 as nat, next2 as nat);
                    }
                }
                lemma_rebound_is_renamed(book, open, outer, fst, next1, *nxt, nxt4);
            },
            TermView::Chn { bod, .. } => law_refreshed_is_renamed(*bod, next, book, open),
            TermView::App { fun, arg } => lemma_pair_is_renamed(*fun, *arg, next, book, open),
            TermView::Sup { fst, snd } => lemma_pair_is_renamed(*fst, *snd, next, book, open),
            TermView::Tup { fst, snd } => lemma_pair_is_renamed(*fst, *snd, next, book, open),
            TermView::Opx { fst, snd, .. } => lemma_pair_is_renamed(*fst, *snd, next, book, open),
            TermView::Match { cond, zero, succ } => {
                let (_, next1) = refreshed(*cond, next, book, open)->0;
                law_refreshed_is_renamed(*cond, next, book, open);
                lemma_pair_is_renamed(*zero, *succ, next1, book, open);
            },
            _ => {},
        }
    }
}

/// Refreshing two terms in turn keeps the meaning of both.
proof fn lemma_pair_is_renamed(
    fst: TermView,
    snd: TermView,
    next: Val,
    book: BookView,
    open: Set<DefId>,
)
    requires
        can_refresh_pair(fst, snd, next, book, open),
    ensures
        refreshed_pair(fst, snd, next, book, open) matches Some((fst1, snd1, _)) ==> is_renamed(
            book,
            open,
            Seq::empty(),
            fst,
            fst1,
        ) && is_renamed(book, open, Seq::empty(), snd, snd1),
    decreases unopened(open), term_size(fst) + term_size(snd), 1nat,
{
    if let Some((_, next1)) = refreshed(fst, next, book, open) {
        law_refreshed_is_renamed(fst, next, book, open);
        law_refreshed_is_renamed(snd, next1, book, open);
    }
}

} // verus!
