//! Lambda terms.

use vstd::prelude::*;

use crate::name::{clone_optional, optional_name, Name, Val};
use crate::op::Op;

verus! {

/// The number of a definition in a book.
pub type DefId = Val;

/// The pattern of a `let`.
#[derive(Debug, PartialEq, Eq)]
pub enum LetPat {
    Var(Name),
    Tup(Option<Name>, Option<Name>),
}

/// A term of the lambda calculus with superpositions, duplications, numbers and pairs.
#[derive(Debug, PartialEq, Eq)]
#[allow(inconsistent_fields)]
pub enum Term {
    /// A function. A parameter without a name is unused.
    Lam { nam: Option<Name>, bod: Box<Term> },
    /// A variable.
    Var { nam: Name },
    /// A function whose variable may also occur outside its body.
    Chn { nam: Name, bod: Box<Term> },
    /// A use of the variable of a `Chn`.
    Lnk { nam: Name },
    /// The value of `val`, taken apart by `pat` in `nxt`.
    Let { pat: LetPat, val: Box<Term>, nxt: Box<Term> },
    /// An application.
    App { fun: Box<Term>, arg: Box<Term> },
    /// A pair.
    Tup { fst: Box<Term>, snd: Box<Term> },
    /// Two copies of `val` for use in `nxt`.
    Dup { fst: Option<Name>, snd: Option<Name>, val: Box<Term>, nxt: Box<Term> },
    /// A superposition of two terms.
    Sup { fst: Box<Term>, snd: Box<Term> },
    /// A native number.
    Num { val: Val },
    /// An operation on native numbers.
    Opx { op: Op, fst: Box<Term>, snd: Box<Term> },
    /// A case distinction on a native number.
    Match { cond: Box<Term>, zero: Box<Term>, succ: Box<Term> },
    /// A reference to a definition.
    Ref { def_id: DefId },
    /// An erased term.
    Era,
}

/// What the pattern of a `let` denotes.
pub enum LetPatView {
    Var(Seq<char>),
    Tup(Option<Seq<char>>, Option<Seq<char>>),
}

/// What a term denotes: the same tree, with names as sequences of characters.
#[allow(inconsistent_fields)]
pub enum TermView {
    Lam { nam: Option<Seq<char>>, bod: Box<TermView> },
    Var { nam: Seq<char> },
    Chn { nam: Seq<char>, bod: Box<TermView> },
    Lnk { nam: Seq<char> },
    Let { pat: LetPatView, val: Box<TermView>, nxt: Box<TermView> },
    App { fun: Box<TermView>, arg: Box<TermView> },
    Tup { fst: Box<TermView>, snd: Box<TermView> },
    Dup { fst: Option<Seq<char>>, snd: Option<Seq<char>>, val: Box<TermView>, nxt: Box<TermView> },
    Sup { fst: Box<TermView>, snd: Box<TermView> },
    Num { val: Val },
    Opx { op: Op, fst: Box<TermView>, snd: Box<TermView> },
    Match { cond: Box<TermView>, zero: Box<TermView>, succ: Box<TermView> },
    Ref { def_id: DefId },
    Era,
}

impl View for LetPat {
    type V = LetPatView;

    open spec fn view(&self) -> LetPatView {
        match *self {
            LetPat::Var(nam) => LetPatView::Var(nam@),
            LetPat::Tup(fst, snd) => LetPatView::Tup(optional_name(fst), optional_name(snd)),
        }
    }
}

/// What a term denotes.
pub open spec fn term_view(term: Term) -> TermView
    decreases term,
{
    match term {
        Term::Lam { nam, bod } => TermView::Lam {
            nam: optional_name(nam),
            bod: Box::new(term_view(*bod)),
        },
        Term::Var { nam } => TermView::Var { nam: nam@ },
        Term::Chn { nam, bod } => TermView::Chn { nam: nam@, bod: Box::new(term_view(*bod)) },
        Term::Lnk { nam } => TermView::Lnk { nam: nam@ },
        Term::Let { pat, val, nxt } => TermView::Let {
            pat: pat@,
            val: Box::new(term_view(*val)),
            nxt: Box::new(term_view(*nxt)),
        },
        Term::App { fun, arg } => TermView::App {
            fun: Box::new(term_view(*fun)),
            arg: Box::new(term_view(*arg)),
        },
        Term::Tup { fst, snd } => TermView::Tup {
            fst: Box::new(term_view(*fst)),
            snd: Box::new(term_view(*snd)),
        },
        Term::Dup { fst, snd, val, nxt } => TermView::Dup {
            fst: optional_name(fst),
            snd: optional_name(snd),
            val: Box::new(term_view(*val)),
            nxt: Box::new(term_view(*nxt)),
        },
        Term::Sup { fst, snd } => TermView::Sup {
            fst: Box::new(term_view(*fst)),
            snd: Box::new(term_view(*snd)),
        },
        Term::Num { val } => TermView::Num { val },
        Term::Opx { op, fst, snd } => TermView::Opx {
            op,
            fst: Box::new(term_view(*fst)),
            snd: Box::new(term_view(*snd)),
        },
        Term::Match { cond, zero, succ } => TermView::Match {
            cond: Box::new(term_view(*cond)),
            zero: Box::new(term_view(*zero)),
            succ: Box::new(term_view(*succ)),
        },
        Term::Ref { def_id } => TermView::Ref { def_id },
        Term::Era => TermView::Era,
    }
}

impl View for Term {
    type V = TermView;

    open spec fn view(&self) -> TermView {
        term_view(*self)
    }
}

impl Clone for LetPat {
    fn clone(&self) -> (res: Self)
        ensures
            res == *self,
    {
        match self {
            LetPat::Var(nam) => LetPat::Var(nam.clone()),
            LetPat::Tup(fst, snd) => LetPat::Tup(clone_optional(fst), clone_optional(snd)),
        }
    }
}

impl Clone for Term {
    fn clone(&self) -> (res: Self)
        ensures
            res == *self,
        decreases self,
    {
        match self {
            Term::Lam { nam, bod } => Term::Lam {
                nam: clone_optional(nam),
                bod: Box::new((&**bod).clone()),
            },
            Term::Var { nam } => Term::Var { nam: nam.clone() },
            Term::Chn { nam, bod } => Term::Chn {
                nam: nam.clone(),
                bod: Box::new((&**bod).clone()),
            },
            Term::Lnk { nam } => Term::Lnk { nam: nam.clone() },
            Term::Let { pat, val, nxt } => Term::Let {
                pat: pat.clone(),
                val: Box::new((&**val).clone()),
                nxt: Box::new((&**nxt).clone()),
            },
            Term::App { fun, arg } => Term::App {
                fun: Box::new((&**fun).clone()),
                arg: Box::new((&**arg).clone()),
            },
            Term::Tup { fst, snd } => Term::Tup {
                fst: Box::new((&**fst).clone()),
                snd: Box::new((&**snd).clone()),
            },
            Term::Dup { fst, snd, val, nxt } => Term::Dup {
                fst: clone_optional(fst),
                snd: clone_optional(snd),
                val: Box::new((&**val).clone()),
                nxt: Box::new((&**nxt).clone()),
            },
            Term::Sup { fst, snd } => Term::Sup {
                fst: Box::new((&**fst).clone()),
                snd: Box::new((&**snd).clone()),
            },
            Term::Num { val } => Term::Num { val: *val },
            Term::Opx { op, fst, snd } => Term::Opx {
                op: *op,
                fst: Box::new((&**fst).clone()),
                snd: Box::new((&**snd).clone()),
            },
            Term::Match { cond, zero, succ } => Term::Match {
                cond: Box::new((&**cond).clone()),
                zero: Box::new((&**zero).clone()),
                succ: Box::new((&**succ).clone()),
            },
            Term::Ref { def_id } => Term::Ref { def_id: *def_id },
            Term::Era => Term::Era,
        }
    }
}

/// Whether `name` is bound by an optional name.
pub open spec fn binds(binder: Option<Seq<char>>, name: Seq<char>) -> bool {
    binder == Some(name)
}

/// `term` with its free variables named `from` replaced by `to`. A binder named `from` shadows
/// the name in its scope. Names of `to` may be captured by binders of `term`, and the variables
/// of `Chn` are left alone.
pub open spec fn substituted(term: TermView, from: Seq<char>, to: TermView) -> TermView
    decreases term,
{
    match term {
        TermView::Lam { nam, bod } => TermView::Lam {
            nam,
            bod: if binds(nam, from) {
                bod
            } else {
                Box::new(substituted(*bod, from, to))
            },
        },
        TermView::Var { nam } => if nam == from {
            to
        } else {
            term
        },
        TermView::Chn { nam, bod } => TermView::Chn {
            nam,
            bod: Box::new(substituted(*bod, from, to)),
        },
        TermView::Lnk { .. } => term,
        TermView::Let { pat, val, nxt } => TermView::Let {
            pat,
            val: Box::new(substituted(*val, from, to)),
            nxt: if pattern_binds(pat, from) {
                nxt
            } else {
                Box::new(substituted(*nxt, from, to))
            },
        },
        TermView::App { fun, arg } => TermView::App {
            fun: Box::new(substituted(*fun, from, to)),
            arg: Box::new(substituted(*arg, from, to)),
        },
        TermView::Tup { fst, snd } => TermView::Tup {
            fst: Box::new(substituted(*fst, from, to)),
            snd: Box::new(substituted(*snd, from, to)),
        },
        TermView::Dup { fst, snd, val, nxt } => TermView::Dup {
            fst,
            snd,
            val: Box::new(substituted(*val, from, to)),
            nxt: if binds(fst, from) || binds(snd, from) {
                nxt
            } else {
                Box::new(substituted(*nxt, from, to))
            },
        },
        TermView::Sup { fst, snd } => TermView::Sup {
            fst: Box::new(substituted(*fst, from, to)),
            snd: Box::new(substituted(*snd, from, to)),
        },
        TermView::Num { .. } => term,
        TermView::Opx { op, fst, snd } => TermView::Opx {
            op,
            fst: Box::new(substituted(*fst, from, to)),
            snd: Box::new(substituted(*snd, from, to)),
        },
        TermView::Match { cond, zero, succ } => TermView::Match {
            cond: Box::new(substituted(*cond, from, to)),
            zero: Box::new(substituted(*zero, from, to)),
            succ: Box::new(substituted(*succ, from, to)),
        },
        TermView::Ref { .. } => term,
        TermView::Era => term,
    }
}

/// Whether a pattern binds `name`.
pub open spec fn pattern_binds(pat: LetPatView, name: Seq<char>) -> bool {
    match pat {
        LetPatView::Var(nam) => nam == name,
        LetPatView::Tup(fst, snd) => binds(fst, name) || binds(snd, name),
    }
}

/// Whether an optional name is spelled like `name`.
fn is_named(binder: &Option<Name>, name: &Name) -> (res: bool)
    ensures
        res == binds(optional_name(*binder), name@),
{
    match binder {
        Some(binder) => binder.same(name),
        None => false,
    }
}

impl LetPat {
    /// Whether the pattern binds `name`.
    fn binds(&self, name: &Name) -> (res: bool)
        ensures
            res == pattern_binds(self@, name@),
    {
        match self {
            LetPat::Var(nam) => nam.same(name),
            LetPat::Tup(fst, snd) => is_named(fst, name) || is_named(snd, name),
        }
    }
}

impl Term {
    /// Replaces the free variables named `from` by `to`.
    pub fn subst(&mut self, from: &Name, to: &Term)
        ensures
            final(self)@ == substituted(old(self)@, from@, to@),
        decreases *old(self),
    {
        match self {
            Term::Lam { nam, bod } => {
                if !is_named(nam, from) {
                    bod.subst(from, to);
                }
            },
            Term::Var { nam } => {
                if nam.same(from) {
                    *self = to.clone();
                }
            },
            Term::Chn { nam: _, bod } => bod.subst(from, to),
            Term::Lnk { .. } => {},
            Term::Let { pat, val, nxt } => {
                val.subst(from, to);
                if !pat.binds(from) {
                    nxt.subst(from, to);
                }
            },
            Term::App { fun, arg } => {
                fun.subst(from, to);
                arg.subst(from, to);
            },
            Term::Dup { fst, snd, val, nxt } => {
                val.subst(from, to);
                if !is_named(fst, from) && !is_named(snd, from) {
                    nxt.subst(from, to);
                }
            },
            Term::Tup { fst, snd } => {
                fst.subst(from, to);
                snd.subst(from, to);
            },
            Term::Sup { fst, snd } => {
                fst.subst(from, to);
                snd.subst(from, to);
            },
            Term::Opx { op: _, fst, snd } => {
                fst.subst(from, to);
                snd.subst(from, to);
            },
            Term::Match { cond, zero, succ } => {
                cond.subst(from, to);
                zero.subst(from, to);
                succ.subst(from, to);
            },
            Term::Num { .. } | Term::Ref { .. } | Term::Era => {},
        }
    }
}

} // verus!
