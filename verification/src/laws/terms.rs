//! Terms, names and nets: what they denote, and how they are changed.

use vstd::prelude::*;

use crate::name::{id_name, optional_name, Name, Val};
use crate::net::{entered, root_port, Node, NodeId, Port};
use crate::op::Op;
use crate::term::{DefId, LetPat, LetPatView, Term, TermView};

verus! {

/// The name of an id below 26 is the letter that comes so many places after `a`. The name of
/// `26 * high + low` is that of `low`, followed by that of `high` unless `high` is zero.
pub proof fn law_names_are_written_in_base_26(high: nat, low: nat)
    requires
        low < 26,
    ensures
        id_name(low) == seq![((97 + low) as u32) as char],
        high > 0 ==> id_name(26 * high + low) == id_name(low) + id_name(high),
{
    assert(('a' as nat) == 97);
    assert((26 * high + low) % 26 == low);
    assert((26 * high + low) / 26 == high);
}

/// Names consist of small letters, and end in `a` only if they are called `a`.
pub proof fn law_names_are_canonical(id: nat, i: int)
    ensures
        id_name(id).len() > 0,
        0 <= i < id_name(id).len() ==> 'a' <= id_name(id)[i] <= 'z',
        id_name(id).last() == 'a' ==> id == 0 && id_name(id).len() == 1,
    decreases id,
{
    if id >= 26 {
        let rest = id_name(id / 26);
        law_names_are_canonical(id / 26, i - 1);
        law_names_are_canonical(id / 26, 0);
        assert(id_name(id).last() == rest.last());
    }
}

/// The root leads into the net by the second port of the first node, and the ports of a node
/// lead where its links lead.
pub proof fn law_ports_lead_where_links_lead(net: Seq<Node>, node: NodeId)
    ensures
        root_port() == Port(0, 1),
        entered(net, Port(node, 0)) == net[node as int].main,
        entered(net, Port(node, 1)) == net[node as int].aux1,
        entered(net, Port(node, 2)) == net[node as int].aux2,
{
}

/// A term denotes the same tree, with each name spelled out.
pub proof fn law_terms_denote_themselves(
    name: Name,
    nam: Option<Name>,
    other: Option<Name>,
    a: Term,
    b: Term,
    c: Term,
    op: Op,
    val: Val,
    def_id: DefId,
)
    ensures
        optional_name(Some(name)) == Some(name.0@),
        optional_name(None) is None,
        (Term::Lam { nam, bod: Box::new(a) })@ == (TermView::Lam {
            nam: optional_name(nam),
            bod: Box::new(a@),
        }),
        (Term::Var { nam: name })@ == (TermView::Var { nam: name.0@ }),
        (Term::Chn { nam: name, bod: Box::new(a) })@ == (TermView::Chn {
            nam: name.0@,
            bod: Box::new(a@),
        }),
        (Term::Lnk { nam: name })@ == (TermView::Lnk { nam: name.0@ }),
        (Term::Let { pat: LetPat::Var(name), val: Box::new(a), nxt: Box::new(b) })@ == (
        TermView::Let { pat: LetPatView::Var(name.0@), val: Box::new(a@), nxt: Box::new(b@) }),
        (Term::Let { pat: LetPat::Tup(nam, other), val: Box::new(a), nxt: Box::new(b) })@ == (
        TermView::Let {
            pat: LetPatView::Tup(optional_name(nam), optional_name(other)),
            val: Box::new(a@),
            nxt: Box::new(b@),
        }),
        (Term::App { fun: Box::new(a), arg: Box::new(b) })@ == (TermView::App {
            fun: Box::new(a@),
            arg: Box::new(b@),
        }),
        (Term::Tup { fst: Box::new(a), snd: Box::new(b) })@ == (TermView::Tup {
            fst: Box::new(a@),
            snd: Box::new(b@),
        }),
        (Term::Dup { fst: nam, snd: other, val: Box::new(a), nxt: Box::new(b) })@ == (
        TermView::Dup {
            fst: optional_name(nam),
            snd: optional_name(other),
            val: Box::new(a@),
            nxt: Box::new(b@),
        }),
        (Term::Sup { fst: Box::new(a), snd: Box::new(b) })@ == (TermView::Sup {
            fst: Box::new(a@),
            snd: Box::new(b@),
        }),
        (Term::Num { val })@ == (TermView::Num { val }),
        (Term::Opx { op, fst: Box::new(a), snd: Box::new(b) })@ == (TermView::Opx {
            op,
            fst: Box::new(a@),
            snd: Box::new(b@),
        }),
        (Term::Match { cond: Box::new(a), zero: Box::new(b), succ: Box::new(c) })@ == (
        TermView::Match { cond: Box::new(a@), zero: Box::new(b@), succ: Box::new(c@) }),
        (Term::Ref { def_id })@ == (TermView::Ref { def_id }),
        (Term::Era)@ == TermView::Era,
{
}

} // verus!
