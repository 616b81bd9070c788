use std::collections::{BTreeMap, HashMap};

use readback::book::{Book, DefNames, Definition, Rule, RulePat};
use readback::name::{Name, Val};
use readback::op::Op;
use readback::term::{DefId, LetPat, Term};

fn named(nam: &str) -> Option<Name> {
    Some(Name::new(nam))
}

fn var(nam: &str) -> Term {
    Term::Var { nam: Name::new(nam) }
}

fn lam(nam: &str, bod: Term) -> Term {
    Term::Lam { nam: named(nam), bod: Box::new(bod) }
}

fn app(fun: Term, arg: Term) -> Term {
    Term::App { fun: Box::new(fun), arg: Box::new(arg) }
}

fn dup(fst: &str, snd: &str, val: Term, nxt: Term) -> Term {
    Term::Dup { fst: named(fst), snd: named(snd), val: Box::new(val), nxt: Box::new(nxt) }
}

fn definition(body: Term) -> Definition {
    Definition { rules: vec![Rule { pats: vec![], body }] }
}

fn book(defs: Vec<(DefId, &str, Term)>) -> Book {
    let mut id_to_name = HashMap::new();
    let mut bodies = BTreeMap::new();
    for (def_id, name, body) in defs {
        id_to_name.insert(def_id, Name::new(name));
        bodies.insert(def_id, definition(body));
    }
    Book { def_names: DefNames { id_to_name }, defs: bodies }
}

fn refreshed(term: Term, next: Val, book: &Book) -> (Term, Val) {
    let mut term = term;
    let mut next = next;
    term.fix_names(&mut next, book);
    (term, next)
}

#[test]
fn names_with_a_dollar_are_generated() {
    let book = book(vec![(0, "main", Term::Era), (1, "main$S0", Term::Era), (2, "$", Term::Era)]);
    assert!(!book.is_generated_def(0));
    assert!(book.is_generated_def(1));
    assert!(book.is_generated_def(2));
}

#[test]
fn unknown_definitions_are_not_generated() {
    assert!(!book(vec![]).is_generated_def(7));
}

#[test]
fn definitions_are_found_by_their_id() {
    let book = book(vec![(3, "id", lam("x", var("x")))]);
    assert_eq!(book.def_names.name(&3), Some(&Name::new("id")));
    assert_eq!(book.def_names.name(&4), None);
    assert_eq!(book.plain_body(3), &lam("x", var("x")));
}

#[test]
fn definitions_with_patterns_may_stand_beside() {
    let mut book = book(vec![(0, "gen$0", lam("x", var("x")))]);
    let rule = Rule {
        pats: vec![
            RulePat::Ctr(Name::new("Pair"), vec![RulePat::Var(Name::new("y")), RulePat::Num(1)]),
        ],
        body: var("y"),
    };
    book.defs.insert(1, Definition { rules: vec![rule] });
    assert_eq!(refreshed(Term::Ref { def_id: 0 }, 0, &book), (lam("a", var("a")), 1));
}

#[test]
fn substitution_replaces_free_variables() {
    let mut term = app(var("x"), lam("y", app(var("x"), var("y"))));
    term.subst(&Name::new("x"), &Term::Num { val: 1 });
    let one = || Term::Num { val: 1 };
    assert_eq!(term, app(one(), lam("y", app(one(), var("y")))));
}

#[test]
fn binders_shadow_what_is_substituted() {
    let mut term = app(lam("x", var("x")), dup("x", "y", var("x"), var("x")));
    term.subst(&Name::new("x"), &Term::Era);
    assert_eq!(term, app(lam("x", var("x")), dup("x", "y", Term::Era, var("x"))));
}

#[test]
fn patterns_shadow_what_is_substituted() {
    let with = |pat: LetPat, val: Term, nxt: Term| Term::Let {
        pat,
        val: Box::new(val),
        nxt: Box::new(nxt),
    };
    let pair = || LetPat::Tup(None, named("x"));
    let mut term = with(pair(), var("x"), var("x"));
    term.subst(&Name::new("x"), &Term::Era);
    assert_eq!(term, with(pair(), Term::Era, var("x")));

    let one = || LetPat::Var(Name::new("y"));
    let mut term = with(one(), var("x"), var("x"));
    term.subst(&Name::new("x"), &Term::Era);
    assert_eq!(term, with(one(), Term::Era, Term::Era));
}

#[test]
fn scopeless_variables_are_not_substituted() {
    let nam = Name::new("x");
    let chn = |bod: Term| Term::Chn { nam: Name::new("x"), bod: Box::new(bod) };
    let mut term = chn(app(Term::Lnk { nam: nam.clone() }, var("x")));
    term.subst(&nam, &Term::Era);
    assert_eq!(term, chn(app(Term::Lnk { nam: nam.clone() }, Term::Era)));
}

#[test]
fn clones_are_equal() {
    let term = dup("x", "y", lam("z", var("z")), app(var("x"), var("y")));
    assert_eq!(term.clone(), term);
}

#[test]
fn binders_get_the_next_ids_in_order() {
    let term = lam("x", lam("y", app(var("x"), var("y"))));
    let expected = lam("d", lam("e", app(var("d"), var("e"))));
    assert_eq!(refreshed(term, 3, &book(vec![])), (expected, 5));
}

#[test]
fn unused_binders_stay_unnamed() {
    let term = Term::Lam { nam: None, bod: Box::new(lam("x", var("x"))) };
    let expected = Term::Lam { nam: None, bod: Box::new(lam("a", var("a"))) };
    assert_eq!(refreshed(term, 0, &book(vec![])), (expected, 1));
}

#[test]
fn value_of_a_duplication_is_renamed_first() {
    let term = dup("x", "y", lam("z", var("z")), app(var("x"), var("y")));
    let expected = dup("b", "c", lam("a", var("a")), app(var("b"), var("c")));
    assert_eq!(refreshed(term, 0, &book(vec![])), (expected, 3));
}

#[test]
fn all_parts_of_a_term_are_renamed() {
    let id = |nam: &str| Box::new(lam(nam, var(nam)));
    let term = Term::Match {
        cond: Box::new(Term::Opx { op: Op::ADD, fst: id("x"), snd: id("x") }),
        zero: Box::new(Term::Sup { fst: id("x"), snd: id("x") }),
        succ: Box::new(Term::Tup {
            fst: id("x"),
            snd: Box::new(Term::Chn { nam: Name::new("x"), bod: id("x") }),
        }),
    };
    let expected = Term::Match {
        cond: Box::new(Term::Opx { op: Op::ADD, fst: id("a"), snd: id("b") }),
        zero: Box::new(Term::Sup { fst: id("c"), snd: id("d") }),
        succ: Box::new(Term::Tup {
            fst: id("e"),
            snd: Box::new(Term::Chn { nam: Name::new("x"), bod: id("f") }),
        }),
    };
    assert_eq!(refreshed(term, 0, &book(vec![])), (expected, 6));
}

#[test]
fn leaves_are_kept() {
    for leaf in [
        var("x"),
        Term::Lnk { nam: Name::new("x") },
        Term::Num { val: 3 },
        Term::Era,
        Term::Ref { def_id: 0 },
    ] {
        assert_eq!(refreshed(leaf.clone(), 4, &book(vec![(0, "main", Term::Era)])), (leaf, 4));
    }
}

#[test]
fn generated_definitions_are_inlined_throughout() {
    let book = book(vec![
        (0, "outer$0", app(Term::Ref { def_id: 1 }, Term::Ref { def_id: 2 })),
        (1, "inner$1", lam("x", app(var("x"), Term::Ref { def_id: 2 }))),
        (2, "plain", lam("x", var("x"))),
    ]);
    let plain = || Term::Ref { def_id: 2 };
    let expected = app(lam("b", app(var("b"), plain())), plain());
    assert_eq!(refreshed(Term::Ref { def_id: 0 }, 1, &book), (expected, 2));
}

#[test]
fn renaming_keeps_the_meaning() {
    // The names that are given do not occur in the term.
    let term = lam("x", lam("y", app(app(var("y"), var("x")), lam("x", var("x")))));
    let expected = lam("a", lam("b", app(app(var("b"), var("a")), lam("c", var("c")))));
    assert_eq!(refreshed(term, 0, &book(vec![])), (expected, 3));
}

#[test]
fn refreshing_again_takes_as_many_ids() {
    let book = book(vec![(0, "gen$0", lam("x", lam("y", var("x"))))]);
    let term = app(Term::Ref { def_id: 0 }, Term::Lam { nam: None, bod: Box::new(Term::Era) });
    let (fresh, end) = refreshed(term, 4, &book);
    assert_eq!(end, 6);
    let (again, end) = refreshed(fresh, 10, &book);
    assert_eq!(end, 12);
    let unused = Term::Lam { nam: None, bod: Box::new(Term::Era) };
    assert_eq!(again, app(lam("k", lam("l", var("k"))), unused));
}

#[test]
fn refreshing_may_use_up_all_ids() {
    let (_, end) = refreshed(lam("x", var("x")), Val::MAX - 1, &book(vec![]));
    assert_eq!(end, Val::MAX);
}

#[test]
fn renaming_may_capture_a_name_that_is_taken() {
    let term = lam("x", lam("a", var("x")));
    let expected = lam("a", lam("b", var("b")));
    assert_eq!(refreshed(term, 0, &book(vec![])), (expected, 2));
}
