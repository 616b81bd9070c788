//! Superpositions decay by label, along a path of duplications.

use vstd::prelude::*;

use crate::book::BookView;
use crate::net::{entered, Node, NodeId, NodeKind, Port, SlotId};
use crate::non_linear::read;
use crate::reading::State;

verus! {

/// Whether `path` leads up through duplications, each entered by another port than the main one,
/// to `end`: the main port of each leads to the next.
pub open spec fn is_path(net: Seq<Node>, path: Seq<Port>, end: Port) -> bool {
    &&& forall|i: int| #![trigger path[i]]
        0 <= i < path.len() ==> net[path[i].0 as int].kind is Dup && path[i].1 != 0
    &&& forall|i: int| #![trigger path[i]]
        0 <= i < path.len() ==> entered(net, Port(path[i].0, 0)) == (if i + 1 < path.len() {
            path[i + 1]
        } else {
            end
        })
}

/// The label of the duplication that a port belongs to.
pub open spec fn label(net: Seq<Node>, port: Port) -> u8
    recommends
        net[port.0 as int].kind is Dup,
{
    match net[port.0 as int].kind {
        NodeKind::Dup { lab } => lab,
        _ => 0,
    }
}

/// The slots by which the duplications with a given label were entered, in turn.
pub open spec fn slots_with(net: Seq<Node>, path: Seq<Port>, lab: u8) -> Seq<SlotId>
    decreases path.len(),
{
    if path.len() == 0 {
        Seq::empty()
    } else if label(net, path[0]) == lab {
        seq![path[0].1] + slots_with(net, path.skip(1), lab)
    } else {
        slots_with(net, path.skip(1), lab)
    }
}

/// Whether what is remembered at the end of a path is what was remembered at its start, with the
/// slots of the path added for each label apart.
pub open spec fn remembers(
    net: Seq<Node>,
    path: Seq<Port>,
    scope: Map<u8, Seq<SlotId>>,
    later: Map<u8, Seq<SlotId>>,
) -> bool {
    &&& forall|lab: u8| #[trigger]
        later[lab] == scope[lab] + slots_with(net, path, lab)
    &&& forall|lab: u8| #[trigger] later.contains_key(lab)
}

/// Going up a path of duplications reads what is at its end, with the slots of the path
/// remembered for each label apart.
pub proof fn law_path_is_remembered_by_label(
    net: Seq<Node>,
    book: BookView,
    path: Seq<Port>,
    end: Port,
    scope: Map<u8, Seq<SlotId>>,
    later: Map<u8, Seq<SlotId>>,
    state: State,
    depth: nat,
)
    requires
        path.len() > 0,
        is_path(net, path, end),
        forall|lab: u8| #[trigger] scope.contains_key(lab),
        remembers(net, path, scope, later),
    ensures
        read(net, book, path[0], scope, state, depth + path.len()) == read(
            net,
            book,
            end,
            later,
            state,
            depth,
        ),
    decreases path.len(),
{
    let port = path[0];
    let lab = label(net, port);
    let rest = path.skip(1);
    let inner = scope.insert(lab, scope[lab].push(port.1));
    let up = entered(net, Port(port.0, 0));
    assert(read(net, book, port, scope, state, depth + path.len()) == read(
        net,
        book,
        up,
        inner,
        state,
        (depth + path.len() - 1) as nat,
    ));
    assert forall|other: u8| #[trigger]
        later[other] == inner[other] + slots_with(net, rest, other) by {
        assert(later[other] == scope[other] + slots_with(net, path, other));
        assert(scope.contains_key(other));
        if other == lab {
            assert(scope[lab] + (seq![port.1] + slots_with(net, rest, lab)) =~= scope[lab].push(
                port.1,
            ) + slots_with(net, rest, lab));
        }
    }
    if rest.len() == 0 {
        assert forall|other: u8| #[trigger] later[other] == inner[other] by {
            assert(later[other] =~= inner[other]);
        }
        assert(later =~= inner);
    } else {
        assert(rest[0] == path[1]);
        assert forall|i: int| #![trigger rest[i]] 0 <= i < rest.len() implies entered(
            net,
            Port(rest[i].0, 0),
        ) == (if i + 1 < rest.len() {
            rest[i + 1]
        } else {
            end
        }) by {
            assert(rest[i] == path[i + 1]);
        }
        law_path_is_remembered_by_label(net, book, rest, end, inner, later, state, depth);
    }
}

/// If duplications with other labels lie between, nothing is added for a label.
proof fn lemma_other_labels_add_nothing(net: Seq<Node>, path: Seq<Port>, lab: u8)
    requires
        forall|i: int| 0 <= i < path.len() ==> label(net, #[trigger] path[i]) != lab,
    ensures
        slots_with(net, path, lab) == Seq::<SlotId>::empty(),
    decreases path.len(),
{
    if path.len() > 0 {
        lemma_other_labels_add_nothing(net, path.skip(1), lab);
    }
}

/// A superposition that is reached from a duplication with its label reads as what is read on
/// from its port in the slot by which that duplication was entered, whatever duplications with
/// other labels lie between. For its label then nothing is remembered but what was before, and
/// for the other labels the slots by which those duplications were entered.
pub proof fn law_superposition_decays_by_its_label(
    net: Seq<Node>,
    book: BookView,
    path: Seq<Port>,
    sup: NodeId,
    scope: Map<u8, Seq<SlotId>>,
    later: Map<u8, Seq<SlotId>>,
    state: State,
    depth: nat,
)
    requires
        path.len() > 0,
        is_path(net, path, Port(sup, 0)),
        net[sup as int].kind is Dup,
        label(net, path[0]) == label(net, Port(sup, 0)),
        forall|i: int|
            0 < i < path.len() ==> label(net, #[trigger] path[i]) != label(net, path[0]),
        forall|lab: u8| #[trigger] scope.contains_key(lab),
        remembers(net, path.skip(1), scope, later),
    ensures
        read(net, book, path[0], scope, state, depth + path.len() + 1) == read(
            net,
            book,
            entered(net, Port(sup, path[0].1)),
            later,
            state,
            depth,
        ),
{
    let lab = label(net, path[0]);
    let slot = path[0].1;
    let rest = path.skip(1);
    let inner = later.insert(lab, later[lab].push(slot));
    assert forall|i: int| 0 <= i < rest.len() implies label(net, #[trigger] rest[i]) != lab by {
        assert(rest[i] == path[i + 1]);
    }
    lemma_other_labels_add_nothing(net, rest, lab);
    assert(later[lab] == scope[lab] + slots_with(net, rest, lab));
    assert(later[lab] =~= scope[lab]);
    assert forall|other: u8| #[trigger]
        inner[other] == scope[other] + slots_with(net, path, other) by {
        assert(later[other] == scope[other] + slots_with(net, rest, other));
        assert(later.contains_key(other));
        if other == lab {
            assert(scope[lab].push(slot) =~= scope[lab] + (seq![slot] + slots_with(
                net,
                rest,
                lab,
            )));
        }
    }
    let d = (depth + 1) as nat;
    law_path_is_remembered_by_label(net, book, path, Port(sup, 0), scope, inner, state, d);
    assert(inner[lab].last() == slot);
    assert(inner.insert(lab, inner[lab].drop_last()) =~= later) by {
        assert(later[lab].push(slot).drop_last() =~= later[lab]);
    }
}

} // verus!
