//! How definitions are inlined and terms are given fresh names.

use vstd::prelude::*;

use crate::book::{Book, BookView};
use crate::fix_names::{lemma_rebound_keeps_size, rebound, refreshed, refreshed_pair};
use crate::name::{id_name, Val};
use crate::op::Op;
use crate::term::{substituted, DefId, LetPatView, TermView};

verus! {

/// A definition is a generated one exactly if it has a name and some character of the name is a
/// `$`.
pub proof fn law_generated_names_hold_a_dollar(book: BookView, def_id: DefId)
    ensures
        book.is_generated(def_id) <==> book.names.contains_key(def_id) && exists|i: int|
            0 <= i < book.names[def_id].len() && #[trigger] book.names[def_id][i] == '$',
{
}

/// A book denotes the names it gives to definitions, and the bodies of those definitions that
/// have one rule and no pattern in it.
pub proof fn law_books_denote_names_and_bodies(book: Book, def_id: DefId)
    ensures
        book@.names.contains_key(def_id) <==> book.def_names.id_to_name@.contains_key(def_id),
        book@.names.contains_key(def_id) ==> book@.names[def_id]
            == book.def_names.id_to_name@[def_id].0@,
        book@.bodies.contains_key(def_id) <==> book.defs@.contains_key(def_id)
            && book.defs@[def_id].rules@.len() == 1 && book.defs@[def_id].rules@[0].pats@.len()
            == 0,
        book@.bodies.contains_key(def_id) ==> book@.bodies[def_id]
            == book.defs@[def_id].rules@[0].body@,
{
}

/// A reference to a generated definition is replaced by the body of the definition, refreshed in
/// turn. There is no result if the definition has no plain body or is being unfolded. Any other
/// reference is kept.
pub proof fn law_generated_references_are_unfolded(
    def_id: DefId,
    next: Val,
    book: BookView,
    open: Set<DefId>,
)
    ensures
        ({
            let term = TermView::Ref { def_id };
            let here = refreshed(term, next, book, open);
            let generated = book.names.contains_key(def_id) && exists|i: int|
                0 <= i < book.names[def_id].len() && #[trigger] book.names[def_id][i] == '$';
            &&& !generated ==> here == Some((term, next))
            &&& generated && book.bodies.contains_key(def_id) && !open.contains(def_id) ==> here
                == refreshed(book.bodies[def_id], next, book, open.insert(def_id))
            &&& generated && !(book.bodies.contains_key(def_id) && !open.contains(def_id))
                ==> here is None
        }),
{
    reveal_with_fuel(refreshed, 2);
}

/// A binder with a name gets the name of the next id, and its variables get it too. One without
/// a name is kept. This fails exactly if there is no next id.
pub proof fn law_binders_take_the_next_id(nam: Option<Seq<char>>, next: Val, scope: TermView)
    ensures
        rebound(nam, next, scope) is None <==> nam is Some && next == Val::MAX,
        nam is None ==> rebound(nam, next, scope) == Some((nam, next, scope)),
        nam matches Some(from) ==> next < Val::MAX ==> {
            let fresh = id_name(next as nat);
            rebound(nam, next, scope) == Some(
                (
                    Some(fresh),
                    (next + 1) as Val,
                    substituted(scope, from, TermView::Var { nam: fresh }),
                ),
            )
        },
{
}

/// The binder of a lambda is renamed, and then its body refreshed.
pub proof fn law_lambda_is_renamed_before_its_body(
    nam: Option<Seq<char>>,
    bod: TermView,
    next: Val,
    book: BookView,
    open: Set<DefId>,
)
    ensures
        refreshed(TermView::Lam { nam, bod: Box::new(bod) }, next, book, open) == (match rebound(
            nam,
            next,
            bod,
        ) {
            None => None::<(TermView, Val)>,
            Some((nam1, next1, bod1)) => match refreshed(bod1, next1, book, open) {
                None => None,
                Some((bod2, end)) => Some((TermView::Lam { nam: nam1, bod: Box::new(bod2) }, end)),
            },
        }),
{
    reveal_with_fuel(refreshed, 2);
}

/// The value of a duplication is refreshed first. Then the two binders are renamed, the first
/// one first, and then the rest is refreshed.
pub proof fn law_duplication_is_renamed_after_its_value(
    fst: Option<Seq<char>>,
    snd: Option<Seq<char>>,
    val: TermView,
    nxt: TermView,
    next: Val,
    book: BookView,
    open: Set<DefId>,
)
    ensures
        ({
            let term = TermView::Dup { fst, snd, val: Box::new(val), nxt: Box::new(nxt) };
            refreshed(term, next, book, open) == (match refreshed(val, next, book, open) {
                None => None::<(TermView, Val)>,
                Some((val1, next1)) => match rebound(fst, next1, nxt) {
                    None => None,
                    Some((fst1, next2, nxt2)) => match rebound(snd, next2, nxt2) {
                        None => None,
                        Some((snd1, next3, nxt3)) => match refreshed(nxt3, next3, book, open) {
                            None => None,
                            Some((nxt4, end)) => Some(
                                (
                                    TermView::Dup {
                                        fst: fst1,
                                        snd: snd1,
                                        val: Box::new(val1),
                                        nxt: Box::new(nxt4),
                                    },
                                    end,
                                ),
                            ),
                        },
                    },
                },
            })
        }),
{
    reveal_with_fuel(refreshed, 2);
    if let Some((_, next1)) = refreshed(val, next, book, open) {
        if let Some((_, next2, nxt2)) = rebound(fst, next1, nxt) {
            lemma_rebound_keeps_size(fst, next1, nxt);
            lemma_rebound_keeps_size(snd, next2, nxt2);
        }
    }
}

/// The parts of a term that binds nothing are refreshed in turn, each from where the one before
/// ends.
pub proof fn law_parts_are_refreshed_in_turn(
    a: TermView,
    b: TermView,
    c: TermView,
    op: Op,
    nam: Seq<char>,
    next: Val,
    book: BookView,
    open: Set<DefId>,
)
    ensures
        ({
            let first = refreshed(a, next, book, open);
            let second = match first {
                None => None,
                Some((_, next1)) => refreshed(b, next1, book, open),
            };
            let third = match second {
                None => None,
                Some((_, next2)) => refreshed(c, next2, book, open),
            };
            &&& refreshed(TermView::Chn { nam, bod: Box::new(a) }, next, book, open) == (
            match first {
                None => None,
                Some((a1, end)) => Some((TermView::Chn { nam, bod: Box::new(a1) }, end)),
            })
            &&& refreshed(
                TermView::App { fun: Box::new(a), arg: Box::new(b) },
                next,
                book,
                open,
            ) == (match (first, second) {
                (Some((a1, _)), Some((b1, end))) => Some(
                    (TermView::App { fun: Box::new(a1), arg: Box::new(b1) }, end),
                ),
                _ => None,
            })
            &&& refreshed(
                TermView::Tup { fst: Box::new(a), snd: Box::new(b) },
                next,
                book,
                open,
            ) == (match (first, second) {
                (Some((a1, _)), Some((b1, end))) => Some(
                    (TermView::Tup { fst: Box::new(a1), snd: Box::new(b1) }, end),
                ),
                _ => None,
            })
            &&& refreshed(
                TermView::Sup { fst: Box::new(a), snd: Box::new(b) },
                next,
                book,
                open,
            ) == (match (first, second) {
                (Some((a1, _)), Some((b1, end))) => Some(
                    (TermView::Sup { fst: Box::new(a1), snd: Box::new(b1) }, end),
                ),
                _ => None,
            })
            &&& refreshed(
                TermView::Opx { op, fst: Box::new(a), snd: Box::new(b) },
                next,
                book,
                open,
            ) == (match (first, second) {
                (Some((a1, _)), Some((b1, end))) => Some(
                    (TermView::Opx { op, fst: Box::new(a1), snd: Box::new(b1) }, end),
                ),
                _ => None,
            })
            &&& refreshed(
                TermView::Match { cond: Box::new(a), zero: Box::new(b), succ: Box::new(c) },
                next,
                book,
                open,
            ) == (match (first, second, third) {
                (Some((a1, _)), Some((b1, _)), Some((c1, end))) => Some(
                    (
                        TermView::Match {
                            cond: Box::new(a1),
                            zero: Box::new(b1),
                            succ: Box::new(c1),
                        },
                        end,
                    ),
                ),
                _ => None,
            })
        }),
{
    reveal_with_fuel(refreshed, 3);
    reveal_with_fuel(refreshed_pair, 3);
}

/// Variables, numbers and erased terms are kept, and a `let` has no result.
pub proof fn law_leaves_are_kept(
    term: TermView,
    pat: LetPatView,
    val: TermView,
    nxt: TermView,
    next: Val,
    book: BookView,
    open: Set<DefId>,
)
    ensures
        term is Var || term is Lnk || term is Num || term is Era ==> refreshed(
            term,
            next,
            book,
            open,
        ) == Some((term, next)),
        refreshed(
            TermView::Let { pat, val: Box::new(val), nxt: Box::new(nxt) },
            next,
            book,
            open,
        ) is None,
{
}

} // verus!
