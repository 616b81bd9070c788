//! What the readers remember while they walk a net.

use std::collections::{HashMap, HashSet};

use vstd::prelude::*;

use crate::name::{id_name, optional_name, var_id_to_name, Name, Val};
use crate::net::{entered, has_port, INet, Node, NodeId, NodeKind, Port, SlotId};
use crate::ports::PortMap;

verus! {

broadcast use vstd::std_specs::hash::group_hash_axioms;

/// The ids of the variables named so far, by the port that binds them, and the next free id.
pub struct VarNamesView {
    pub ids: Map<Port, Val>,
    pub next: Val,
}

/// The ids of the variables named so far, by the port that binds them, and the next free id.
#[derive(Debug)]
pub struct VarNames {
    pub ids: PortMap<Val>,
    pub next: Val,
}

impl View for VarNames {
    type V = VarNamesView;

    open spec fn view(&self) -> VarNamesView {
        VarNamesView { ids: self.ids@, next: self.next }
    }
}

impl VarNamesView {
    /// No variable has a name.
    pub open spec fn empty() -> VarNamesView {
        VarNamesView { ids: Map::empty(), next: 0 }
    }

    /// The name of the variable bound by `port`, and the ids once it has one. `None` says that
    /// the ids are used up.
    pub open spec fn named(self, port: Port) -> Option<(Seq<char>, VarNamesView)> {
        if self.ids.contains_key(port) {
            Some((id_name(self.ids[port] as nat), self))
        } else if self.next < Val::MAX {
            Some(
                (
                    id_name(self.next as nat),
                    VarNamesView {
                        ids: self.ids.insert(port, self.next),
                        next: (self.next + 1) as Val,
                    },
                ),
            )
        } else {
            None
        }
    }

    /// The name that a binder gets for the variable that `port` binds: none if the port is
    /// linked to an eraser, so that the variable is not used.
    pub open spec fn declared(self, nodes: Seq<Node>, port: Port) -> Option<
        (Option<Seq<char>>, VarNamesView),
    > {
        if nodes[entered(nodes, port).0 as int].kind == NodeKind::Era {
            Some((None, self))
        } else {
            match self.named(port) {
                None => None,
                Some((nam, names)) => Some((Some(nam), names)),
            }
        }
    }

    /// Whether only ports of the net bind variables.
    pub open spec fn within(self, nodes: Seq<Node>) -> bool {
        forall|port: Port| #[trigger] self.ids.contains_key(port) ==> has_port(nodes, port)
    }
}

impl VarNames {
    /// No variable has a name.
    pub fn new() -> (res: VarNames)
        ensures
            res@ == VarNamesView::empty(),
    {
        VarNames { ids: PortMap::new(), next: 0 }
    }

    /// Given a port, returns its name, or assigns one if it was not named yet.
    pub fn var_name(&mut self, var_port: Port) -> (res: Name)
        requires
            var_port.1 < 3,
            old(self)@.named(var_port) is Some,
        ensures
            old(self)@.named(var_port) == Some((res@, final(self)@)),
            old(self)@.ids.contains_key(var_port) ==> final(self)@ == old(self)@,
            !old(self)@.ids.contains_key(var_port) ==> {
                &&& final(self)@.ids == old(self)@.ids.insert(var_port, old(self)@.next)
                &&& final(self)@.next == old(self)@.next + 1
            },
            res@ == id_name(final(self)@.ids[var_port] as nat),
    {
        let id: Val = match self.ids.get(var_port) {
            Some(id) => *id,
            None => {
                let id: Val = self.next;
                self.next = self.next + 1;
                self.ids.insert(var_port, id);
                id
            },
        };
        var_id_to_name(id)
    }

    /// The name that a binder gets for the variable that `var_port` binds.
    pub fn decl_name(&mut self, net: &INet, var_port: Port) -> (res: Option<Name>)
        requires
            net.wf(),
            has_port(net@, var_port),
            old(self)@.declared(net@, var_port) is Some,
        ensures
            old(self)@.declared(net@, var_port) == Some((optional_name(res), final(self)@)),
            res is None <==> net@[entered(net@, var_port).0 as int].kind == NodeKind::Era,
            res is None ==> final(self)@ == old(self)@,
            res matches Some(nam) ==> old(self)@.named(var_port) == Some((nam@, final(self)@)),
    {
        // If the port is linked to an eraser, the variable is not used.
        let var_use = net.enter_port(var_port);
        let var_kind = net.node(var_use.node()).kind;
        if var_kind == NodeKind::Era {
            None
        } else {
            Some(self.var_name(var_port))
        }
    }
}

/// Nodes that wait to be read, the next one last, and all nodes that ever waited.
pub struct PendingView {
    pub stack: Seq<NodeId>,
    pub listed: Set<NodeId>,
}

/// Nodes that wait to be read, the next one last, and all nodes that ever waited.
#[derive(Debug)]
pub struct Pending {
    pub stack: Vec<NodeId>,
    pub listed: HashSet<NodeId>,
}

impl View for Pending {
    type V = PendingView;

    open spec fn view(&self) -> PendingView {
        PendingView { stack: self.stack@, listed: self.listed@ }
    }
}

impl PendingView {
    /// No node waits or ever waited.
    pub open spec fn empty() -> PendingView {
        PendingView { stack: Seq::empty(), listed: Set::empty() }
    }

    /// `node` waits too, unless it has been listed before.
    pub open spec fn noted(self, node: NodeId) -> PendingView {
        if self.listed.contains(node) {
            self
        } else {
            PendingView { stack: self.stack.push(node), listed: self.listed.insert(node) }
        }
    }

    /// The next node no longer waits.
    pub open spec fn popped(self) -> PendingView {
        PendingView { stack: self.stack.drop_last(), ..self }
    }

    /// Whether only nodes of the net are listed, every node that waits is, and none waits twice.
    pub open spec fn within(self, nodes: Seq<Node>) -> bool {
        &&& forall|node: NodeId| #[trigger] self.listed.contains(node) ==> node < nodes.len()
        &&& forall|i: int|
            0 <= i < self.stack.len() ==> self.listed.contains(#[trigger] self.stack[i])
        &&& self.stack.no_duplicates()
    }
}

impl Pending {
    /// No node waits or ever waited.
    pub fn new() -> (res: Pending)
        ensures
            res@ == PendingView::empty(),
    {
        Pending { stack: Vec::new(), listed: HashSet::new() }
    }

    /// Lets a node wait, unless it has been listed before.
    pub fn note(&mut self, node: NodeId)
        ensures
            final(self)@ == old(self)@.noted(node),
            final(self)@.listed == old(self)@.listed.insert(node),
            old(self)@.listed.contains(node) ==> final(self)@.stack == old(self)@.stack,
            !old(self)@.listed.contains(node) ==> final(self)@.stack == old(self)@.stack.push(
                node,
            ),
    {
        if !self.listed.contains(&node) {
            self.listed.insert(node);
            self.stack.push(node);
        }
    }

    /// Takes the next node that waits.
    pub fn pop(&mut self) -> (res: Option<NodeId>)
        ensures
            old(self)@.stack.len() == 0 ==> res is None && final(self)@ == old(self)@,
            old(self)@.stack.len() > 0 ==> res == Some(old(self)@.stack.last()) && final(self)@
                == old(self)@.popped(),
            final(self)@.listed == old(self)@.listed,
            old(self)@.stack.len() > 0 ==> old(self)@.stack == final(self)@.stack.push(res->0),
    {
        self.stack.pop()
    }
}

/// The slots by which duplications were entered on the way to a port, by their label, the last
/// one entered last.
#[derive(Debug)]
pub struct DupScope {
    stacks: HashMap<u8, Vec<SlotId>>,
}

impl View for DupScope {
    type V = Map<u8, Seq<SlotId>>;

    closed spec fn view(&self) -> Map<u8, Seq<SlotId>> {
        Map::new(
            |lab: u8| true,
            |lab: u8|
                if self.stacks@.contains_key(lab) {
                    self.stacks@[lab]@
                } else {
                    Seq::empty()
                },
        )
    }
}

/// No duplication was entered.
pub open spec fn no_dups() -> Map<u8, Seq<SlotId>> {
    Map::new(|lab: u8| true, |lab: u8| Seq::empty())
}

/// `scope` with a duplication with label `lab` entered by `slot`.
pub open spec fn entered_dup(
    scope: Map<u8, Seq<SlotId>>,
    lab: u8,
    slot: SlotId,
) -> Map<u8, Seq<SlotId>> {
    scope.insert(lab, scope[lab].push(slot))
}

/// `scope` with the last duplication with label `lab` left.
pub open spec fn left_dup(scope: Map<u8, Seq<SlotId>>, lab: u8) -> Map<u8, Seq<SlotId>> {
    scope.insert(lab, scope[lab].drop_last())
}

/// Whether every label has a stack, of slots of auxiliary ports.
pub open spec fn is_scope(scope: Map<u8, Seq<SlotId>>) -> bool {
    &&& forall|lab: u8| #[trigger] scope.contains_key(lab)
    &&& forall|lab: u8, i: int|
        0 <= i < scope[lab].len() ==> 1 <= #[trigger] scope[lab][i] <= 2
}

/// Entering a duplication by an auxiliary port keeps a scope.
pub proof fn lemma_entered_dup_is_scope(scope: Map<u8, Seq<SlotId>>, lab: u8, slot: SlotId)
    requires
        is_scope(scope),
        1 <= slot <= 2,
    ensures
        is_scope(entered_dup(scope, lab, slot)),
        left_dup(entered_dup(scope, lab, slot), lab) == scope,
{
    let inner = entered_dup(scope, lab, slot);
    assert forall|l: u8| #[trigger] inner.contains_key(l) by {
        assert(scope.contains_key(l));
    }
    assert forall|l: u8, i: int| 0 <= i < inner[l].len() implies 1 <= #[trigger] inner[l][i]
        <= 2 by {
        if i < scope[l].len() {
            assert(inner[l][i] == scope[l][i]);
        }
    }
    assert(scope.contains_key(lab));
    assert(inner[lab].drop_last() =~= scope[lab]);
    assert(left_dup(inner, lab) =~= scope);
}

/// Leaving a duplication keeps a scope.
pub proof fn lemma_left_dup_is_scope(scope: Map<u8, Seq<SlotId>>, lab: u8)
    requires
        is_scope(scope),
        scope[lab].len() > 0,
    ensures
        is_scope(left_dup(scope, lab)),
        1 <= scope[lab].last() <= 2,
        entered_dup(left_dup(scope, lab), lab, scope[lab].last()) == scope,
{
    let inner = left_dup(scope, lab);
    assert forall|l: u8| #[trigger] inner.contains_key(l) by {
        assert(scope.contains_key(l));
    }
    assert forall|l: u8, i: int| 0 <= i < inner[l].len() implies 1 <= #[trigger] inner[l][i]
        <= 2 by {
        assert(inner[l][i] == scope[l][i]);
    }
    assert(scope.contains_key(lab));
    assert(inner[lab].push(scope[lab].last()) =~= scope[lab]);
    assert(entered_dup(inner, lab, scope[lab].last()) =~= scope);
}

impl DupScope {
    /// No duplication was entered.
    pub fn new() -> (res: DupScope)
        ensures
            res@ == no_dups(),
    {
        let res = DupScope { stacks: HashMap::new() };
        assert(res@ =~= no_dups());
        res
    }

    /// Enters a duplication.
    pub fn push(&mut self, lab: u8, slot: SlotId)
        ensures
            final(self)@ == entered_dup(old(self)@, lab, slot),
            final(self)@[lab] == old(self)@[lab].push(slot),
            forall|other: u8| other != lab ==> #[trigger] final(self)@[other] == old(self)@[other],
    {
        self.stacks.entry(lab).or_insert(Vec::new()).push(slot);
        assert(self@ =~= entered_dup(old(self)@, lab, slot));
    }

    /// Leaves the last duplication entered with a label.
    pub fn pop(&mut self, lab: u8) -> (res: Option<SlotId>)
        ensures
            old(self)@[lab].len() == 0 ==> res is None && final(self)@ == old(self)@,
            old(self)@[lab].len() > 0 ==> res == Some(old(self)@[lab].last()) && final(self)@
                == left_dup(old(self)@, lab),
            old(self)@[lab].len() > 0 ==> old(self)@[lab] == final(self)@[lab].push(res->0),
            forall|other: u8| other != lab ==> #[trigger] final(self)@[other] == old(self)@[other],
    {
        let res = self.stacks.entry(lab).or_insert(Vec::new()).pop();
        proof {
            if old(self)@[lab].len() == 0 {
                assert(self@ =~= old(self)@);
            } else {
                assert(self@ =~= left_dup(old(self)@, lab));
            }
        }
        res
    }
}

} // verus!
