//! What the readers remember, and how it changes.

use vstd::prelude::*;

use crate::name::{id_name, Val};
use crate::net::{entered, Node, NodeId, NodeKind, Port, SlotId};
use crate::reading::State;
use crate::state::{entered_dup, left_dup, no_dups, PendingView, VarNamesView};

verus! {

/// At the start no variable has a name, the first free id is zero, no node waits or is listed,
/// no port was seen and no duplication was entered.
pub proof fn law_nothing_is_remembered_at_the_start(port: Port, node: NodeId, lab: u8)
    ensures
        !State::initial().names.ids.contains_key(port),
        State::initial().names.next == 0,
        State::initial().pending.stack.len() == 0,
        !State::initial().pending.listed.contains(node),
        !State::initial().seen.contains(port),
        no_dups().contains_key(lab),
        no_dups()[lab].len() == 0,
{
}

/// Naming a variable that has a name gives the name of its id and changes nothing. Naming one
/// that has none gives it the next free id, and fails only if there is no such id.
pub proof fn law_naming_takes_the_next_id(names: VarNamesView, port: Port)
    ensures
        names.named(port) is None <==> !names.ids.contains_key(port) && names.next == Val::MAX,
        names.ids.contains_key(port) ==> names.named(port) == Some(
            (id_name(names.ids[port] as nat), names),
        ),
        names.named(port) matches Some((nam, later)) ==> {
            &&& later.ids.contains_key(port)
            &&& nam == id_name(later.ids[port] as nat)
            &&& !names.ids.contains_key(port) ==> later.ids[port] == names.next && later.next
                == names.next + 1
            &&& forall|other: Port|
                other != port ==> (#[trigger] later.ids.contains_key(other)
                    <==> names.ids.contains_key(other))
            &&& forall|other: Port|
                other != port && names.ids.contains_key(other) ==> #[trigger] later.ids[other]
                    == names.ids[other]
        },
{
}

/// A variable is declared without a name exactly if its port leads to an eraser, and then
/// nothing changes. Otherwise it is declared by the name that it is given.
pub proof fn law_declared_without_a_name_if_erased(
    net: Seq<Node>,
    names: VarNamesView,
    port: Port,
)
    ensures
        net[entered(net, port).0 as int].kind == NodeKind::Era ==> names.declared(net, port)
            == Some((None::<Seq<char>>, names)),
        net[entered(net, port).0 as int].kind != NodeKind::Era ==> {
            &&& names.declared(net, port) is None <==> names.named(port) is None
            &&& names.named(port) matches Some((nam, later)) ==> names.declared(net, port) == Some(
                (Some(nam), later),
            )
        },
{
}

/// A node is listed once it was noted, waits last if it was not listed before, and no other node
/// comes or goes.
pub proof fn law_noted_nodes_wait_once(pending: PendingView, node: NodeId)
    ensures
        pending.noted(node).listed == pending.listed.insert(node),
        pending.listed.contains(node) ==> pending.noted(node).stack == pending.stack,
        !pending.listed.contains(node) ==> pending.noted(node).stack == pending.stack.push(node),
{
    assert(pending.noted(node).listed =~= pending.listed.insert(node));
}

/// Taking the node that waits next leaves those before it, and all that are listed.
pub proof fn law_last_node_is_taken(pending: PendingView)
    requires
        pending.stack.len() > 0,
    ensures
        pending.popped().stack.push(pending.stack.last()) == pending.stack,
        pending.popped().listed == pending.listed,
{
    assert(pending.popped().stack.push(pending.stack.last()) =~= pending.stack);
}

/// The slots by which duplications were entered are kept for each label apart: entering or
/// leaving one changes what is remembered for its own label only. The slot by which it was
/// entered comes last, and is what is forgotten when it is left.
pub proof fn law_scope_is_kept_per_label(
    scope: Map<u8, Seq<SlotId>>,
    lab: u8,
    slot: SlotId,
    other: u8,
)
    ensures
        entered_dup(scope, lab, slot)[lab] == scope[lab].push(slot),
        entered_dup(scope, lab, slot).contains_key(lab),
        other != lab ==> {
            &&& entered_dup(scope, lab, slot)[other] == scope[other]
            &&& entered_dup(scope, lab, slot).contains_key(other) == scope.contains_key(other)
            &&& left_dup(scope, lab)[other] == scope[other]
            &&& left_dup(scope, lab).contains_key(other) == scope.contains_key(other)
        },
        left_dup(entered_dup(scope, lab, slot), lab)[lab] == scope[lab],
        scope[lab].len() > 0 ==> left_dup(scope, lab)[lab].push(scope[lab].last()) == scope[lab],
{
    assert(left_dup(entered_dup(scope, lab, slot), lab)[lab] =~= scope[lab]);
    if scope[lab].len() > 0 {
        assert(left_dup(scope, lab)[lab].push(scope[lab].last()) =~= scope[lab]);
    }
}

/// Two duplications with different labels can be entered in either order: what is remembered is
/// the same.
pub proof fn law_labels_do_not_meet(
    scope: Map<u8, Seq<SlotId>>,
    lab: u8,
    slot: SlotId,
    other: u8,
    other_slot: SlotId,
)
    requires
        lab != other,
    ensures
        entered_dup(entered_dup(scope, lab, slot), other, other_slot) == entered_dup(
            entered_dup(scope, other, other_slot),
            lab,
            slot,
        ),
{
    assert(entered_dup(entered_dup(scope, lab, slot), other, other_slot) =~= entered_dup(
        entered_dup(scope, other, other_slot),
        lab,
        slot,
    ));
}

} // verus!
