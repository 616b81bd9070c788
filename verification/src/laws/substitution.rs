//! What substitution does to a term.

use vstd::prelude::*;

use crate::laws::renaming::is_free;
use crate::op::Op;
use crate::term::{substituted, LetPatView, TermView};

verus! {

/// Substituting for a variable that does not occur free changes nothing.
pub proof fn law_only_free_variables_are_substituted(
    term: TermView,
    from: Seq<char>,
    to: TermView,
)
    requires
        !is_free(from, term),
    ensures
        substituted(term, from, to) == term,
    decreases term,
{
    match term {
        TermView::Lam { nam, bod } => {
            if nam != Some(from) {
                law_only_free_variables_are_substituted(*bod, from, to);
            }
        },
        TermView::Chn { bod, .. } => law_only_free_variables_are_substituted(*bod, from, to),
        TermView::Let { val, nxt, .. } => {
            law_only_free_variables_are_substituted(*val, from, to);
            if is_free(from, *nxt) == false {
                law_only_free_variables_are_substituted(*nxt, from, to);
            }
        },
        TermView::App { fun, arg } => {
            law_only_free_variables_are_substituted(*fun, from, to);
            law_only_free_variables_are_substituted(*arg, from, to);
        },
        TermView::Tup { fst, snd } => {
            law_only_free_variables_are_substituted(*fst, from, to);
            law_only_free_variables_are_substituted(*snd, from, to);
        },
        TermView::Dup { val, nxt, .. } => {
            law_only_free_variables_are_substituted(*val, from, to);
            if is_free(from, *nxt) == false {
                law_only_free_variables_are_substituted(*nxt, from, to);
            }
        },
        TermView::Sup { fst, snd } => {
            law_only_free_variables_are_substituted(*fst, from, to);
            law_only_free_variables_are_substituted(*snd, from, to);
        },
        TermView::Opx { fst, snd, .. } => {
            law_only_free_variables_are_substituted(*fst, from, to);
            law_only_free_variables_are_substituted(*snd, from, to);
        },
        TermView::Match { cond, zero, succ } => {
            law_only_free_variables_are_substituted(*cond, from, to);
            law_only_free_variables_are_substituted(*zero, from, to);
            law_only_free_variables_are_substituted(*succ, from, to);
        },
        _ => {},
    }
}

/// Once a variable has been substituted by a term in which it does not occur free, it does not
/// occur free any more.
pub proof fn law_substitution_leaves_none(term: TermView, from: Seq<char>, to: TermView)
    requires
        !is_free(from, to),
    ensures
        !is_free(from, substituted(term, from, to)),
    decreases term,
{
    match term {
        TermView::Lam { bod, .. } => law_substitution_leaves_none(*bod, from, to),
        TermView::Chn { bod, .. } => law_substitution_leaves_none(*bod, from, to),
        TermView::Let { val, nxt, .. } => {
            law_substitution_leaves_none(*val, from, to);
            law_substitution_leaves_none(*nxt, from, to);
        },
        TermView::App { fun, arg } => {
            law_substitution_leaves_none(*fun, from, to);
            law_substitution_leaves_none(*arg, from, to);
        },
        TermView::Tup { fst, snd } => {
            law_substitution_leaves_none(*fst, from, to);
            law_substitution_leaves_none(*snd, from, to);
        },
        TermView::Dup { val, nxt, .. } => {
            law_substitution_leaves_none(*val, from, to);
            law_substitution_leaves_none(*nxt, from, to);
        },
        TermView::Sup { fst, snd } => {
            law_substitution_leaves_none(*fst, from, to);
            law_substitution_leaves_none(*snd, from, to);
        },
        TermView::Opx { fst, snd, .. } => {
            law_substitution_leaves_none(*fst, from, to);
            law_substitution_leaves_none(*snd, from, to);
        },
        TermView::Match { cond, zero, succ } => {
            law_substitution_leaves_none(*cond, from, to);
            law_substitution_leaves_none(*zero, from, to);
            law_substitution_leaves_none(*succ, from, to);
        },
        _ => {},
    }
}

/// A variable is replaced if it has the name that is substituted, and other leaves are kept.
pub proof fn law_leaves_are_substituted_by_name(
    term: TermView,
    nam: Seq<char>,
    from: Seq<char>,
    to: TermView,
)
    ensures
        substituted(TermView::Var { nam: from }, from, to) == to,
        nam != from ==> substituted(TermView::Var { nam }, from, to) == (TermView::Var { nam }),
        term is Lnk || term is Num || term is Ref || term is Era ==> substituted(term, from, to)
            == term,
{
}

/// Substitution acts on the parts of a term that bind nothing, each for itself.
pub proof fn law_parts_are_substituted(
    a: TermView,
    b: TermView,
    c: TermView,
    op: Op,
    nam: Seq<char>,
    from: Seq<char>,
    to: TermView,
)
    ensures
        ({
            let sa = substituted(a, from, to);
            let sb = substituted(b, from, to);
            let sc = substituted(c, from, to);
            &&& substituted(TermView::Chn { nam, bod: Box::new(a) }, from, to) == (TermView::Chn {
                nam,
                bod: Box::new(sa),
            })
            &&& substituted(TermView::App { fun: Box::new(a), arg: Box::new(b) }, from, to) == (
            TermView::App { fun: Box::new(sa), arg: Box::new(sb) })
            &&& substituted(TermView::Tup { fst: Box::new(a), snd: Box::new(b) }, from, to) == (
            TermView::Tup { fst: Box::new(sa), snd: Box::new(sb) })
            &&& substituted(TermView::Sup { fst: Box::new(a), snd: Box::new(b) }, from, to) == (
            TermView::Sup { fst: Box::new(sa), snd: Box::new(sb) })
            &&& substituted(TermView::Opx { op, fst: Box::new(a), snd: Box::new(b) }, from, to) == (
            TermView::Opx { op, fst: Box::new(sa), snd: Box::new(sb) })
            &&& substituted(
                TermView::Match { cond: Box::new(a), zero: Box::new(b), succ: Box::new(c) },
                from,
                to,
            ) == (TermView::Match {
                cond: Box::new(sa),
                zero: Box::new(sb),
                succ: Box::new(sc),
            })
        }),
{
}

/// Substitution does not reach into the scope of a binder with the name that is substituted. It
/// reaches all other scopes, and the values that are bound.
pub proof fn law_binders_shadow(
    nam: Option<Seq<char>>,
    other: Option<Seq<char>>,
    name: Seq<char>,
    val: TermView,
    nxt: TermView,
    from: Seq<char>,
    to: TermView,
)
    ensures
        ({
            let lam = substituted(TermView::Lam { nam, bod: Box::new(nxt) }, from, to);
            lam == (TermView::Lam {
                nam,
                bod: Box::new(
                    if nam == Some(from) {
                        nxt
                    } else {
                        substituted(nxt, from, to)
                    },
                ),
            })
        }),
        ({
            let dup = TermView::Dup {
                fst: nam,
                snd: other,
                val: Box::new(val),
                nxt: Box::new(nxt),
            };
            substituted(dup, from, to) == (TermView::Dup {
                fst: nam,
                snd: other,
                val: Box::new(substituted(val, from, to)),
                nxt: Box::new(
                    if nam == Some(from) || other == Some(from) {
                        nxt
                    } else {
                        substituted(nxt, from, to)
                    },
                ),
            })
        }),
        ({
            let pat = LetPatView::Tup(nam, other);
            let term = TermView::Let { pat, val: Box::new(val), nxt: Box::new(nxt) };
            substituted(term, from, to) == (TermView::Let {
                pat,
                val: Box::new(substituted(val, from, to)),
                nxt: Box::new(
                    if nam == Some(from) || other == Some(from) {
                        nxt
                    } else {
                        substituted(nxt, from, to)
                    },
                ),
            })
        }),
        ({
            let pat = LetPatView::Var(name);
            let term = TermView::Let { pat, val: Box::new(val), nxt: Box::new(nxt) };
            substituted(term, from, to) == (TermView::Let {
                pat,
                val: Box::new(substituted(val, from, to)),
                nxt: Box::new(
                    if name == from {
                        nxt
                    } else {
                        substituted(nxt, from, to)
                    },
                ),
            })
        }),
{
}

} // verus!
