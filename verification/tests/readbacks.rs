use std::collections::{BTreeMap, HashMap};

use readback::book::{Book, DefNames, Definition, Rule};
use readback::linear::net_to_term_linear;
use readback::name::{Name, Val};
use readback::net::{INet, NodeId, NodeKind, Port};
use readback::non_linear::net_to_term_non_linear;
use readback::op::Op;
use readback::term::{DefId, LetPat, Term};

fn named(nam: &str) -> Option<Name> {
    Some(Name::new(nam))
}

fn var(nam: &str) -> Term {
    Term::Var { nam: Name::new(nam) }
}

fn lam(nam: &str, bod: Term) -> Term {
    Term::Lam { nam: named(nam), bod: Box::new(bod) }
}

fn unused_lam(bod: Term) -> Term {
    Term::Lam { nam: None, bod: Box::new(bod) }
}

fn app(fun: Term, arg: Term) -> Term {
    Term::App { fun: Box::new(fun), arg: Box::new(arg) }
}

fn tup(fst: Term, snd: Term) -> Term {
    Term::Tup { fst: Box::new(fst), snd: Box::new(snd) }
}

fn sup(fst: Term, snd: Term) -> Term {
    Term::Sup { fst: Box::new(fst), snd: Box::new(snd) }
}

fn num(val: Val) -> Term {
    Term::Num { val }
}

fn opx(op: Op, fst: Term, snd: Term) -> Term {
    Term::Opx { op, fst: Box::new(fst), snd: Box::new(snd) }
}

fn match_on(cond: Term, zero: Term, succ: Term) -> Term {
    Term::Match { cond: Box::new(cond), zero: Box::new(zero), succ: Box::new(succ) }
}

fn dup_term(fst: Option<Name>, snd: Option<Name>, val: Term, nxt: Term) -> Term {
    Term::Dup { fst, snd, val: Box::new(val), nxt: Box::new(nxt) }
}

fn empty_book() -> Book {
    Book { def_names: DefNames { id_to_name: HashMap::new() }, defs: BTreeMap::new() }
}

/// A book with one definition.
fn book_with(def_id: DefId, name: &str, body: Term) -> Book {
    let mut book = empty_book();
    book.def_names.id_to_name.insert(def_id, Name::new(name));
    book.defs.insert(def_id, Definition { rules: vec![Rule { pats: vec![], body }] });
    book
}

/// Adds a number and links it to `port`.
fn link_num(net: &mut INet, port: Port, val: Val) {
    let node = net.new_node(NodeKind::Num { val });
    net.link(port, Port(node, 0));
}

/// Adds a reference and links it to `port`.
fn link_ref(net: &mut INet, port: Port, def_id: DefId) {
    let node = net.new_node(NodeKind::Ref { def_id });
    net.link(port, Port(node, 0));
}

/// Adds an eraser and links it to `port`.
fn link_era(net: &mut INet, port: Port) {
    let node = net.new_node(NodeKind::Era);
    net.link(port, Port(node, 0));
}

/// A net whose root is linked to port `slot` of a node of the given kind.
fn rooted(kind: NodeKind, slot: usize) -> (INet, NodeId) {
    let mut net = INet::new();
    let node = net.new_node(kind);
    net.link(Port(0, 1), Port(node, slot));
    (net, node)
}

/// How many variables of a term are called `nam`.
fn occurrences(term: &Term, nam: &Name) -> usize {
    match term {
        Term::Var { nam: own } => (own == nam) as usize,
        Term::Lam { bod, .. } | Term::Chn { bod, .. } => occurrences(bod, nam),
        Term::Let { val, nxt, .. } | Term::Dup { val, nxt, .. } => {
            occurrences(val, nam) + occurrences(nxt, nam)
        }
        Term::App { fun, arg } => occurrences(fun, nam) + occurrences(arg, nam),
        Term::Tup { fst, snd } | Term::Sup { fst, snd } | Term::Opx { fst, snd, .. } => {
            occurrences(fst, nam) + occurrences(snd, nam)
        }
        Term::Match { cond, zero, succ } => {
            occurrences(cond, nam) + occurrences(zero, nam) + occurrences(succ, nam)
        }
        Term::Lnk { .. } | Term::Num { .. } | Term::Ref { .. } | Term::Era => 0,
    }
}

/// The net of a function that applies its argument to itself.
fn self_application() -> INet {
    labeled_self_application(0)
}

/// The net of a function that applies its argument to itself, with a label for its duplication.
fn labeled_self_application(lab: u8) -> INet {
    let (mut net, fun) = rooted(NodeKind::Con, 0);
    let call = net.new_node(NodeKind::Con);
    let dup = net.new_node(NodeKind::Dup { lab });
    net.link(Port(fun, 2), Port(call, 2));
    net.link(Port(fun, 1), Port(dup, 0));
    net.link(Port(dup, 1), Port(call, 0));
    net.link(Port(dup, 2), Port(call, 1));
    net
}

/// A duplication, entered by `slot`, of a superposition of 1 and 2. The other copy is erased.
fn copied_superposition(slot: usize, dup_lab: u8, sup_lab: u8) -> INet {
    let (mut net, dup) = rooted(NodeKind::Dup { lab: dup_lab }, slot);
    link_era(&mut net, Port(dup, 3 - slot));
    let sup = net.new_node(NodeKind::Dup { lab: sup_lab });
    net.link(Port(dup, 0), Port(sup, 0));
    link_num(&mut net, Port(sup, 1), 1);
    link_num(&mut net, Port(sup, 2), 2);
    net
}

/// A pair of the two components of the pair of 1 and 2, swapped.
fn swapped_pair() -> INet {
    let (mut net, result) = rooted(NodeKind::Tup, 0);
    let parts = net.new_node(NodeKind::Tup);
    let value = net.new_node(NodeKind::Tup);
    net.link(Port(result, 1), Port(parts, 2));
    net.link(Port(result, 2), Port(parts, 1));
    net.link(Port(parts, 0), Port(value, 0));
    link_num(&mut net, Port(value, 1), 1);
    link_num(&mut net, Port(value, 2), 2);
    net
}

#[test]
fn identity_is_read_back() {
    let (mut net, fun) = rooted(NodeKind::Con, 0);
    net.link(Port(fun, 1), Port(fun, 2));
    let expected = (lam("a", var("a")), true);
    assert_eq!(net_to_term_linear(&net, &empty_book()), expected);
    assert_eq!(net_to_term_non_linear(&net, &empty_book()), expected);
}

#[test]
fn unused_variables_have_no_name() {
    let (mut net, fun) = rooted(NodeKind::Con, 0);
    let inner = net.new_node(NodeKind::Con);
    net.link(Port(fun, 2), Port(inner, 0));
    net.link(Port(fun, 1), Port(inner, 2));
    link_era(&mut net, Port(inner, 1));
    let expected = (lam("a", unused_lam(var("a"))), true);
    assert_eq!(net_to_term_linear(&net, &empty_book()), expected);
    assert_eq!(net_to_term_non_linear(&net, &empty_book()), expected);
}

#[test]
fn applications_are_read_back() {
    let (mut net, call) = rooted(NodeKind::Con, 2);
    link_ref(&mut net, Port(call, 0), 3);
    link_ref(&mut net, Port(call, 1), 4);
    let expected = (app(Term::Ref { def_id: 3 }, Term::Ref { def_id: 4 }), true);
    assert_eq!(net_to_term_linear(&net, &empty_book()), expected);
    assert_eq!(net_to_term_non_linear(&net, &empty_book()), expected);
}

#[test]
fn pairs_are_read_back() {
    let (mut net, pair) = rooted(NodeKind::Tup, 0);
    link_num(&mut net, Port(pair, 1), 1);
    link_num(&mut net, Port(pair, 2), 2);
    let expected = (tup(num(1), num(2)), true);
    assert_eq!(net_to_term_linear(&net, &empty_book()), expected);
    assert_eq!(net_to_term_non_linear(&net, &empty_book()), expected);
}

#[test]
fn pairs_are_taken_apart_by_a_let() {
    let expected = Term::Let {
        pat: LetPat::Tup(named("b"), named("a")),
        val: Box::new(tup(num(1), num(2))),
        nxt: Box::new(tup(var("a"), var("b"))),
    };
    assert_eq!(net_to_term_non_linear(&swapped_pair(), &empty_book()), (expected, true));
}

#[test]
fn pairs_that_are_taken_apart_have_no_valid_linear_readback() {
    let again = || var("...");
    let expected = tup(tup(again(), again()), again());
    assert_eq!(net_to_term_linear(&swapped_pair(), &empty_book()), (expected, false));
}

#[test]
fn lets_may_be_nested() {
    // The pair of the first component's components, from the pair of a pair and a number.
    let (mut net, result) = rooted(NodeKind::Tup, 0);
    let inner = net.new_node(NodeKind::Tup);
    let outer = net.new_node(NodeKind::Tup);
    net.link(Port(result, 1), Port(inner, 1));
    net.link(Port(result, 2), Port(inner, 2));
    net.link(Port(inner, 0), Port(outer, 1));
    link_era(&mut net, Port(outer, 2));
    link_ref(&mut net, Port(outer, 0), 5);
    let pair = Term::Let {
        pat: LetPat::Tup(named("a"), named("b")),
        val: Box::new(var("c")),
        nxt: Box::new(tup(var("a"), var("b"))),
    };
    let expected = Term::Let {
        pat: LetPat::Tup(named("c"), None),
        val: Box::new(Term::Ref { def_id: 5 }),
        nxt: Box::new(pair),
    };
    assert_eq!(net_to_term_non_linear(&net, &empty_book()), (expected, true));
}

#[test]
fn duplications_stay_in_the_linear_readback() {
    let main = lam("a", app(var("b"), var("c")));
    let expected = dup_term(named("b"), named("c"), var("a"), main);
    assert_eq!(net_to_term_linear(&self_application(), &empty_book()), (expected, true));
}

#[test]
fn duplications_are_resolved_in_the_non_linear_readback() {
    let expected = lam("a", app(var("a"), var("a")));
    assert_eq!(net_to_term_non_linear(&self_application(), &empty_book()), (expected, true));
}

#[test]
fn duplications_may_wait_for_each_other() {
    // One copy of a copy: the value of the first duplication is a variable of the second.
    let (mut net, first) = rooted(NodeKind::Dup { lab: 0 }, 1);
    link_era(&mut net, Port(first, 2));
    let second = net.new_node(NodeKind::Dup { lab: 1 });
    net.link(Port(first, 0), Port(second, 2));
    link_era(&mut net, Port(second, 1));
    link_num(&mut net, Port(second, 0), 8);
    let inner = dup_term(named("a"), None, var("b"), var("a"));
    let expected = dup_term(None, named("b"), num(8), inner);
    assert_eq!(net_to_term_linear(&net, &empty_book()), (expected, true));
    assert_eq!(net_to_term_non_linear(&net, &empty_book()), (num(8), true));
}

#[test]
fn superpositions_stay_without_a_duplication() {
    let (mut net, node) = rooted(NodeKind::Dup { lab: 2 }, 0);
    link_num(&mut net, Port(node, 1), 1);
    link_num(&mut net, Port(node, 2), 2);
    let expected = (sup(num(1), num(2)), true);
    assert_eq!(net_to_term_linear(&net, &empty_book()), expected);
    assert_eq!(net_to_term_non_linear(&net, &empty_book()), expected);
}

#[test]
fn superpositions_decay_below_their_duplication() {
    let fst = copied_superposition(1, 0, 0);
    let snd = copied_superposition(2, 0, 0);
    assert_eq!(net_to_term_non_linear(&fst, &empty_book()), (num(1), true));
    assert_eq!(net_to_term_non_linear(&snd, &empty_book()), (num(2), true));
}

#[test]
fn superpositions_stay_below_other_duplications() {
    let net = copied_superposition(1, 0, 1);
    assert_eq!(net_to_term_non_linear(&net, &empty_book()), (sup(num(1), num(2)), true));
}

#[test]
fn superpositions_stay_in_the_linear_readback() {
    let net = copied_superposition(2, 0, 0);
    let expected = dup_term(None, named("a"), sup(num(1), num(2)), var("a"));
    assert_eq!(net_to_term_linear(&net, &empty_book()), (expected, true));
}

#[test]
fn case_distinctions_are_read_back() {
    let (mut net, mat) = rooted(NodeKind::Mat, 2);
    let cases = net.new_node(NodeKind::Con);
    link_num(&mut net, Port(mat, 0), 3);
    net.link(Port(mat, 1), Port(cases, 0));
    link_num(&mut net, Port(cases, 1), 10);
    link_num(&mut net, Port(cases, 2), 20);
    let expected = (match_on(num(3), num(10), num(20)), true);
    assert_eq!(net_to_term_linear(&net, &empty_book()), expected);
    assert_eq!(net_to_term_non_linear(&net, &empty_book()), expected);
}

#[test]
fn case_distinctions_without_cases_are_not_valid() {
    let (mut net, mat) = rooted(NodeKind::Mat, 2);
    link_num(&mut net, Port(mat, 0), 3);
    link_ref(&mut net, Port(mat, 1), 0);
    let expected = (match_on(num(3), Term::Era, Term::Era), false);
    assert_eq!(net_to_term_linear(&net, &empty_book()), expected);
    assert_eq!(net_to_term_non_linear(&net, &empty_book()), expected);
}

#[test]
fn operator_packed_with_a_number_is_read_back() {
    let (mut net, op) = rooted(NodeKind::Op2, 2);
    link_num(&mut net, Port(op, 0), 0x100_0005);
    link_num(&mut net, Port(op, 1), 7);
    let expected = (opx(Op::ADD, num(5), num(7)), true);
    assert_eq!(net_to_term_linear(&net, &empty_book()), expected);
    assert_eq!(net_to_term_non_linear(&net, &empty_book()), expected);
}

#[test]
fn operator_alone_is_read_back() {
    let (mut net, op) = rooted(NodeKind::Op2, 2);
    link_num(&mut net, Port(op, 0), 3);
    link_num(&mut net, Port(op, 1), 7);
    let expected = (opx(Op::MUL, num(7), Term::Era), true);
    assert_eq!(net_to_term_linear(&net, &empty_book()), expected);
    assert_eq!(net_to_term_non_linear(&net, &empty_book()), expected);
}

#[test]
fn operator_applied_twice_is_read_back() {
    let (mut net, outer) = rooted(NodeKind::Op2, 2);
    let inner = net.new_node(NodeKind::Op2);
    net.link(Port(outer, 0), Port(inner, 2));
    link_num(&mut net, Port(outer, 1), 9);
    link_num(&mut net, Port(inner, 0), 3);
    link_num(&mut net, Port(inner, 1), 4);
    let expected = (opx(Op::MUL, num(4), num(9)), true);
    assert_eq!(net_to_term_linear(&net, &empty_book()), expected);
    assert_eq!(net_to_term_non_linear(&net, &empty_book()), expected);
}

#[test]
fn plain_references_stay() {
    let book = book_with(6, "plain", lam("x", var("x")));
    let (net, _) = rooted(NodeKind::Ref { def_id: 6 }, 0);
    let expected = (Term::Ref { def_id: 6 }, true);
    assert_eq!(net_to_term_linear(&net, &book), expected);
    assert_eq!(net_to_term_non_linear(&net, &book), expected);
}

#[test]
fn generated_references_are_inlined() {
    let book = book_with(6, "main$S1", lam("x", var("x")));
    let (mut net, pair) = rooted(NodeKind::Tup, 0);
    link_ref(&mut net, Port(pair, 1), 6);
    link_ref(&mut net, Port(pair, 2), 6);
    let expected = (tup(lam("a", var("a")), lam("b", var("b"))), true);
    assert_eq!(net_to_term_linear(&net, &book), expected);
    assert_eq!(net_to_term_non_linear(&net, &book), expected);
}

#[test]
fn inlined_names_and_variables_differ() {
    let book = book_with(6, "main$S1", lam("x", var("x")));
    let (mut net, fun) = rooted(NodeKind::Con, 0);
    let call = net.new_node(NodeKind::Con);
    net.link(Port(fun, 2), Port(call, 2));
    link_ref(&mut net, Port(call, 0), 6);
    net.link(Port(call, 1), Port(fun, 1));
    let expected = (lam("a", app(lam("b", var("b")), var("a"))), true);
    assert_eq!(net_to_term_linear(&net, &book), expected);
    assert_eq!(net_to_term_non_linear(&net, &book), expected);
}

#[test]
fn erasers_are_entered_by_their_main_port() {
    let (net, _) = rooted(NodeKind::Era, 0);
    assert_eq!(net_to_term_linear(&net, &empty_book()), (Term::Era, true));
    assert_eq!(net_to_term_non_linear(&net, &empty_book()), (Term::Era, true));

    let (net, _) = rooted(NodeKind::Era, 1);
    assert_eq!(net_to_term_linear(&net, &empty_book()), (Term::Era, false));
    assert_eq!(net_to_term_non_linear(&net, &empty_book()), (Term::Era, false));
}

#[test]
fn root_is_not_read_again() {
    let net = INet::new();
    assert_eq!(net_to_term_linear(&net, &empty_book()), (Term::Era, false));
    assert_eq!(net_to_term_non_linear(&net, &empty_book()), (Term::Era, false));
}

#[test]
fn invalid_parts_make_the_whole_invalid() {
    let (mut net, pair) = rooted(NodeKind::Tup, 0);
    link_num(&mut net, Port(pair, 1), 1);
    net.link(Port(pair, 2), Port(0, 2));
    let expected = (tup(num(1), Term::Era), false);
    assert_eq!(net_to_term_linear(&net, &empty_book()), expected);
    assert_eq!(net_to_term_non_linear(&net, &empty_book()), expected);
}

#[test]
fn variables_are_not_read_without_their_lambda() {
    let (mut net, fun) = rooted(NodeKind::Con, 1);
    net.link(Port(fun, 0), Port(fun, 2));
    assert_eq!(net_to_term_linear(&net, &empty_book()), (var("a"), false));
    assert_eq!(net_to_term_non_linear(&net, &empty_book()), (var("a"), true));
}

#[test]
fn variables_of_an_erased_lambda_are_valid() {
    let (mut net, fun) = rooted(NodeKind::Con, 1);
    link_era(&mut net, Port(fun, 0));
    link_era(&mut net, Port(fun, 2));
    assert_eq!(net_to_term_linear(&net, &empty_book()), (var("a"), true));
}

#[test]
fn lambdas_may_bind_out_of_scope() {
    let (mut net, pair) = rooted(NodeKind::Tup, 0);
    let fun = net.new_node(NodeKind::Con);
    net.link(Port(pair, 1), Port(fun, 1));
    net.link(Port(pair, 2), Port(fun, 0));
    link_num(&mut net, Port(fun, 2), 5);
    let expected = (tup(var("a"), lam("a", num(5))), true);
    assert_eq!(net_to_term_linear(&net, &empty_book()), expected);
    assert_eq!(net_to_term_non_linear(&net, &empty_book()), expected);
}

#[test]
fn variables_are_used_once_in_the_linear_readback() {
    let (term, valid) = net_to_term_linear(&self_application(), &empty_book());
    assert!(valid);
    for nam in ["a", "b", "c"] {
        assert_eq!(occurrences(&term, &Name::new(nam)), 1);
    }
    assert_eq!(occurrences(&term, &Name::new("d")), 0);
}

#[test]
fn labels_do_not_matter_to_the_linear_readback() {
    let expected = net_to_term_linear(&labeled_self_application(0), &empty_book());
    assert_eq!(net_to_term_linear(&labeled_self_application(7), &empty_book()), expected);
}

#[test]
fn readbacks_agree_on_pairs() {
    let (mut net, fun) = rooted(NodeKind::Con, 0);
    let pair = net.new_node(NodeKind::Tup);
    let inner = net.new_node(NodeKind::Tup);
    net.link(Port(fun, 2), Port(pair, 0));
    net.link(Port(pair, 1), Port(inner, 0));
    net.link(Port(pair, 2), Port(fun, 1));
    link_num(&mut net, Port(inner, 1), 1);
    link_ref(&mut net, Port(inner, 2), 2);
    let parts = tup(num(1), Term::Ref { def_id: 2 });
    let expected = (lam("a", tup(parts, var("a"))), true);
    assert_eq!(net_to_term_linear(&net, &empty_book()), expected);
    assert_eq!(net_to_term_non_linear(&net, &empty_book()), expected);
}

#[test]
fn invalid_values_keep_their_duplication() {
    let (mut net, dup) = rooted(NodeKind::Dup { lab: 0 }, 1);
    link_era(&mut net, Port(dup, 2));
    net.link(Port(dup, 0), Port(0, 2));
    let expected = dup_term(named("a"), None, Term::Era, var("a"));
    assert_eq!(net_to_term_linear(&net, &empty_book()), (expected, false));
}

#[test]
fn invalid_values_keep_their_let() {
    let (mut net, parts) = rooted(NodeKind::Tup, 2);
    link_era(&mut net, Port(parts, 1));
    net.link(Port(parts, 0), Port(0, 2));
    let expected = Term::Let {
        pat: LetPat::Tup(None, named("a")),
        val: Box::new(Term::Era),
        nxt: Box::new(var("a")),
    };
    assert_eq!(net_to_term_non_linear(&net, &empty_book()), (expected, false));
}

#[test]
fn linear_readback_of_a_cycle_ends() {
    let (mut net, call) = rooted(NodeKind::Con, 2);
    net.link(Port(call, 0), Port(call, 1));
    let expected = (app(var("..."), var("...")), false);
    assert_eq!(net_to_term_linear(&net, &empty_book()), expected);
}

#[test]
fn operation_may_drop_an_operand() {
    // The inner operation has both operands, so that the outer one replaces the second.
    let (mut net, outer) = rooted(NodeKind::Op2, 2);
    let inner = net.new_node(NodeKind::Op2);
    net.link(Port(outer, 0), Port(inner, 2));
    link_num(&mut net, Port(outer, 1), 9);
    link_num(&mut net, Port(inner, 0), 0x100_0005);
    link_num(&mut net, Port(inner, 1), 7);
    let expected = (opx(Op::ADD, num(5), num(9)), true);
    assert_eq!(net_to_term_linear(&net, &empty_book()), expected);
    assert_eq!(net_to_term_non_linear(&net, &empty_book()), expected);
}
