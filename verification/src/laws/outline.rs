//! The outer shape of readbacks, valid or not.

use vstd::prelude::*;

use crate::book::BookView;
use crate::laws::bindings::{
    binds_all, dup_nodes, is_account, lemma_binder_lasts, lemma_declared_is_accounted,
    lemma_linear_is_accounted, lemma_non_linear_is_accounted, lemma_popped_is_accounted, tup_nodes,
};
use crate::laws::naming::{
    is_binder_of, is_sound, keeps_names, law_linear_keeps_names, law_non_linear_keeps_names,
    lemma_declared_binds, lemma_named_is_sound,
};
use crate::laws::shape::{book_lacks, lacks, lemma_linear_lacks, lemma_non_linear_lacks, Part};
use crate::linear;
use crate::linear::{ample_depth, mark};
use crate::net::{entered, root_port, Node, NodeId, Port};
use crate::non_linear;
use crate::reading::{Reading, State};
use crate::state::{no_dups, VarNamesView};
use crate::term::{LetPatView, TermView};

verus! {

/// Whether a term has neither duplications nor `let`s.
pub open spec fn is_flat(term: TermView) -> bool {
    lacks(term, Part::Dup) && lacks(term, Part::Let)
}

/// Whether `term` is a flat term in the scope of a duplication for each of `dups`, the outermost
/// last, each with a flat value and the names on record.
pub open spec fn is_wrapped_in_dups(
    net: Seq<Node>,
    names: VarNamesView,
    dups: Seq<NodeId>,
    term: TermView,
) -> bool
    decreases dups.len(),
{
    if dups.len() == 0 {
        is_flat(term)
    } else {
        let dup = dups.last();
        &&& term matches TermView::Dup { fst, snd, val, nxt }
        &&& is_binder_of(net, names, Port(dup, 1), fst)
        &&& is_binder_of(net, names, Port(dup, 2), snd)
        &&& is_flat(*val)
        &&& is_wrapped_in_dups(net, names, dups.drop_last(), *nxt)
    }
}

/// The outer shape of a term stays when more variables are named.
proof fn lemma_wrapped_in_dups_lasts(
    net: Seq<Node>,
    names: VarNamesView,
    later: VarNamesView,
    dups: Seq<NodeId>,
    term: TermView,
)
    requires
        keeps_names(names, later),
        is_wrapped_in_dups(net, names, dups, term),
    ensures
        is_wrapped_in_dups(net, later, dups, term),
    decreases dups.len(),
{
    if dups.len() > 0 {
        if let TermView::Dup { fst, snd, val, nxt } = term {
            let dup = dups.last();
            lemma_binder_lasts(net, names, later, Port(dup, 1), fst);
            lemma_binder_lasts(net, names, later, Port(dup, 2), snd);
            lemma_wrapped_in_dups_lasts(net, names, later, dups.drop_last(), *nxt);
        }
    }
}

/// Reading the duplications that wait puts one duplication for each around the term.
proof fn lemma_linear_wraps(
    net: Seq<Node>,
    book: BookView,
    main: Reading,
    depth: nat,
    done: Seq<NodeId>,
)
    requires
        book_lacks(book, Part::Dup),
        is_sound(main.state.names),
        is_account(net, dup_nodes(), main.state, done),
        is_wrapped_in_dups(net, main.state.names, done, main.term),
    ensures
        linear::read_dups(net, book, main, depth) matches Ok(all) ==> exists|dups: Seq<NodeId>|
            {
                &&& binds_all(net, dup_nodes(), all.state.names, dups)
                &&& dups.to_set() == all.state.pending.listed
                &&& #[trigger] is_wrapped_in_dups(net, all.state.names, dups, all.term)
            },
    decreases depth,
{
    if linear::read_dups(net, book, main, depth) is Ok {
        let pending = main.state.pending;
        if pending.stack.len() == 0 {
            assert(done + pending.stack =~= done);
            assert(done.to_set() =~= pending.listed);
        } else {
            let d = (depth - 1) as nat;
            let dup = pending.stack.last();
            let p1 = Port(dup, 1);
            let p2 = Port(dup, 2);
            let body = entered(net, Port(dup, 0));
            let state = mark(State { pending: pending.popped(), ..main.state }, Port(dup, 0));
            let done1 = done.push(dup);
            lemma_popped_is_accounted(net, dup_nodes(), main.state, done);
            lemma_linear_is_accounted(net, book, body, state, d, done1);
            law_linear_keeps_names(net, book, body, state, d);
            lemma_linear_lacks(net, book, body, state, d, Part::Dup);
            lemma_linear_lacks(net, book, body, state, d, Part::Let);
            let val = linear::read(net, book, body, state, d)->Ok_0;
            let (fst, names1) = val.state.names.declared(net, p1)->0;
            let (snd, names2) = names1.declared(net, p2)->0;
            let state1 = State { names: names1, ..val.state };
            lemma_named_is_sound(val.state.names, p1);
            lemma_named_is_sound(names1, p2);
            let term = TermView::Dup {
                fst,
                snd,
                val: Box::new(val.term),
                nxt: Box::new(main.term),
            };
            let more = Reading {
                term,
                valid: main.valid && val.valid,
                state: State { names: names2, ..val.state },
            };
            lemma_declared_is_accounted(net, dup_nodes(), val.state, done1, p1);
            lemma_declared_is_accounted(net, dup_nodes(), state1, done1, p2);
            lemma_declared_binds(net, val.state.names, p1, names2);
            lemma_declared_binds(net, names1, p2, names2);
            lemma_wrapped_in_dups_lasts(net, main.state.names, names2, done, main.term);
            assert(done1.drop_last() =~= done);
            assert(is_wrapped_in_dups(net, names2, done1, term));
            lemma_linear_wraps(net, book, more, d, done1);
        }
    }
}

/// The outer shape of the linear readback, valid or not: a term without duplications and `let`s,
/// in the scope of one duplication for each node that was listed, with values without
/// duplications and `let`s. The definitions that are inlined may hold no duplication.
pub proof fn law_linear_readback_is_wrapped_in_dups(net: Seq<Node>, book: BookView)
    requires
        book_lacks(book, Part::Dup),
    ensures
        linear::read_net(net, book) matches Ok(reading) ==> exists|dups: Seq<NodeId>|
            {
                &&& binds_all(net, dup_nodes(), reading.state.names, dups)
                &&& dups.to_set() == reading.state.pending.listed
                &&& #[trigger] is_wrapped_in_dups(net, reading.state.names, dups, reading.term)
            },
{
    if linear::read_net(net, book) is Ok {
        let depth = ample_depth(net);
        let root = entered(net, root_port());
        let start = State::initial();
        let none = Seq::<NodeId>::empty();
        assert(none + start.pending.stack =~= none);
        lemma_linear_is_accounted(net, book, root, start, depth, none);
        law_linear_keeps_names(net, book, root, start, depth);
        lemma_linear_lacks(net, book, root, start, depth, Part::Dup);
        lemma_linear_lacks(net, book, root, start, depth, Part::Let);
        let main = linear::read(net, book, root, start, depth)->Ok_0;
        lemma_linear_wraps(net, book, main, depth, none);
        let all = linear::read_dups(net, book, main, depth)->Ok_0;
        let reading = linear::read_net(net, book)->Ok_0;
        let dups = choose|dups: Seq<NodeId>|
            {
                &&& binds_all(net, dup_nodes(), all.state.names, dups)
                &&& dups.to_set() == all.state.pending.listed
                &&& #[trigger] is_wrapped_in_dups(net, all.state.names, dups, all.term)
            };
        assert(is_wrapped_in_dups(net, reading.state.names, dups, reading.term));
    }
}

/// Whether `term` is a flat term in the scope of a `let` for each of `tups`, the outermost
/// last, each with a flat value and the names on record.
pub open spec fn is_wrapped_in_lets(
    net: Seq<Node>,
    names: VarNamesView,
    tups: Seq<NodeId>,
    term: TermView,
) -> bool
    decreases tups.len(),
{
    if tups.len() == 0 {
        is_flat(term)
    } else {
        let tup = tups.last();
        &&& term matches TermView::Let { pat: LetPatView::Tup(fst, snd), val, nxt }
        &&& is_binder_of(net, names, Port(tup, 1), fst)
        &&& is_binder_of(net, names, Port(tup, 2), snd)
        &&& is_flat(*val)
        &&& is_wrapped_in_lets(net, names, tups.drop_last(), *nxt)
    }
}

/// The outer shape of a term stays when more variables are named.
proof fn lemma_wrapped_in_lets_lasts(
    net: Seq<Node>,
    names: VarNamesView,
    later: VarNamesView,
    tups: Seq<NodeId>,
    term: TermView,
)
    requires
        keeps_names(names, later),
        is_wrapped_in_lets(net, names, tups, term),
    ensures
        is_wrapped_in_lets(net, later, tups, term),
    decreases tups.len(),
{
    if tups.len() > 0 {
        if let TermView::Let { pat: LetPatView::Tup(fst, snd), val, nxt } = term {
            let tup = tups.last();
            lemma_binder_lasts(net, names, later, Port(tup, 1), fst);
            lemma_binder_lasts(net, names, later, Port(tup, 2), snd);
            lemma_wrapped_in_lets_lasts(net, names, later, tups.drop_last(), *nxt);
        }
    }
}

/// Reading the pairs that wait puts one `let` for each around the term.
proof fn lemma_non_linear_wraps(
    net: Seq<Node>,
    book: BookView,
    main: Reading,
    depth: nat,
    done: Seq<NodeId>,
)
    requires
        book_lacks(book, Part::Dup),
        is_sound(main.state.names),
        is_account(net, tup_nodes(), main.state, done),
        is_wrapped_in_lets(net, main.state.names, done, main.term),
    ensures
        non_linear::read_lets(net, book, main, depth) matches Ok(all) ==> exists|tups: Seq<NodeId>|
            {
                &&& binds_all(net, tup_nodes(), all.state.names, tups)
                &&& tups.to_set() == all.state.pending.listed
                &&& #[trigger] is_wrapped_in_lets(net, all.state.names, tups, all.term)
            },
    decreases depth,
{
    if non_linear::read_lets(net, book, main, depth) is Ok {
        let pending = main.state.pending;
        if pending.stack.len() == 0 {
            assert(done + pending.stack =~= done);
            assert(done.to_set() =~= pending.listed);
        } else {
            let d = (depth - 1) as nat;
            let tup = pending.stack.last();
            let p1 = Port(tup, 1);
            let p2 = Port(tup, 2);
            let body = entered(net, Port(tup, 0));
            let scope = no_dups();
            let state = State { pending: pending.popped(), ..main.state };
            let done1 = done.push(tup);
            lemma_popped_is_accounted(net, tup_nodes(), main.state, done);
            lemma_non_linear_is_accounted(net, book, body, scope, state, d, done1);
            law_non_linear_keeps_names(net, book, body, scope, state, d);
            lemma_non_linear_lacks(net, book, body, scope, state, d, Part::Dup);
            lemma_non_linear_lacks(net, book, body, scope, state, d, Part::Let);
            let val = non_linear::read(net, book, body, scope, state, d)->Ok_0;
            let (fst, names1) = val.state.names.declared(net, p1)->0;
            let (snd, names2) = names1.declared(net, p2)->0;
            let state1 = State { names: names1, ..val.state };
            lemma_named_is_sound(val.state.names, p1);
            lemma_named_is_sound(names1, p2);
            let term = TermView::Let {
                pat: LetPatView::Tup(fst, snd),
                val: Box::new(val.term),
                nxt: Box::new(main.term),
            };
            let more = Reading {
                term,
                valid: main.valid && val.valid,
                state: State { names: names2, ..val.state },
            };
            lemma_declared_is_accounted(net, tup_nodes(), val.state, done1, p1);
            lemma_declared_is_accounted(net, tup_nodes(), state1, done1, p2);
            lemma_declared_binds(net, val.state.names, p1, names2);
            lemma_declared_binds(net, names1, p2, names2);
            lemma_wrapped_in_lets_lasts(net, main.state.names, names2, done, main.term);
            assert(done1.drop_last() =~= done);
            assert(is_wrapped_in_lets(net, names2, done1, term));
            lemma_non_linear_wraps(net, book, more, d, done1);
        }
    }
}

/// The outer shape of the non-linear readback, valid or not: a term without duplications and
/// `let`s, in the scope of one `let` for each of the pairs that were listed, with values without
/// duplications and `let`s. The definitions that are inlined may hold no duplication.
pub proof fn law_non_linear_readback_is_wrapped_in_lets(
    net: Seq<Node>,
    book: BookView,
    depth: nat,
)
    requires
        book_lacks(book, Part::Dup),
    ensures
        non_linear::read_net(net, book, depth) matches Ok(reading) ==> exists|tups: Seq<NodeId>|
            {
                &&& binds_all(net, tup_nodes(), reading.state.names, tups)
                &&& tups.to_set() == reading.state.pending.listed
                &&& #[trigger] is_wrapped_in_lets(net, reading.state.names, tups, reading.term)
            },
{
    if non_linear::read_net(net, book, depth) is Ok {
        let root = entered(net, root_port());
        let scope = no_dups();
        let start = State::initial();
        let none = Seq::<NodeId>::empty();
        assert(none + start.pending.stack =~= none);
        lemma_non_linear_is_accounted(net, book, root, scope, start, depth, none);
        law_non_linear_keeps_names(net, book, root, scope, start, depth);
        lemma_non_linear_lacks(net, book, root, scope, start, depth, Part::Dup);
        lemma_non_linear_lacks(net, book, root, scope, start, depth, Part::Let);
        let main = non_linear::read(net, book, root, scope, start, depth)->Ok_0;
        lemma_non_linear_wraps(net, book, main, depth, none);
    }
}

} // verus!
