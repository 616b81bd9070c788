//! Interaction nets.

use vstd::prelude::*;

use crate::name::Val;
use crate::term::DefId;

verus! {

/// The position of a node in a net.
pub type NodeId = usize;

/// The position of a port on its node: 0 for the main port, 1 and 2 for the auxiliary ports.
pub type SlotId = usize;

/// A port of a node.
#[derive(Debug, Clone, Copy, PartialEq, Eq, Structural, Hash)]
pub struct Port(pub NodeId, pub SlotId);

/// The port of the root node that leads into the net.
pub open spec fn root_port() -> Port {
    Port(0, 1)
}

/// What a node stands for.
#[derive(Debug, Clone, Copy, PartialEq, Eq, Structural)]
pub enum NodeKind {
    /// The root of the net.
    Rot,
    /// An eraser.
    Era,
    /// A lambda or an application.
    Con,
    /// A pair or the pattern that takes one apart.
    Tup,
    /// A duplication or a superposition, with its label.
    Dup { lab: u8 },
    /// A reference to a definition.
    Ref { def_id: DefId },
    /// A native number.
    Num { val: Val },
    /// An operation on native numbers.
    Op2,
    /// A case distinction on a native number.
    Mat,
}

/// A node, with the ports that its own three ports are linked to.
#[derive(Debug, Clone, Copy, PartialEq, Eq, Structural)]
pub struct Node {
    pub main: Port,
    pub aux1: Port,
    pub aux2: Port,
    pub kind: NodeKind,
}

/// A net: nodes whose ports are linked to ports of its nodes. The first node is the root.
#[derive(Debug)]
pub struct INet {
    nodes: Vec<Node>,
}

impl Port {
    /// The node of the port.
    pub fn node(self) -> (res: NodeId)
        ensures
            res == self.0,
    {
        self.0
    }

    /// The slot of the port.
    pub fn slot(self) -> (res: SlotId)
        ensures
            res == self.1,
    {
        self.1
    }
}

/// The port that the port in slot `slot` of `node` is linked to.
pub open spec fn linked(node: Node, slot: SlotId) -> Port {
    if slot == 0 {
        node.main
    } else if slot == 1 {
        node.aux1
    } else {
        node.aux2
    }
}

/// Whether `port` is a port of one of `nodes`.
pub open spec fn has_port(nodes: Seq<Node>, port: Port) -> bool {
    port.0 < nodes.len() && port.1 < 3
}

/// The port on the other end of the link of `port`.
pub open spec fn entered(nodes: Seq<Node>, port: Port) -> Port {
    linked(nodes[port.0 as int], port.1)
}

/// `node` with the port in slot `slot` linked to `to`.
pub open spec fn relinked(node: Node, slot: SlotId, to: Port) -> Node {
    if slot == 0 {
        Node { main: to, ..node }
    } else if slot == 1 {
        Node { aux1: to, ..node }
    } else {
        Node { aux2: to, ..node }
    }
}

/// `nodes` with `src` linked to `dst`.
pub open spec fn with_link(nodes: Seq<Node>, src: Port, dst: Port) -> Seq<Node> {
    nodes.update(src.0 as int, relinked(nodes[src.0 as int], src.1, dst))
}

/// The nodes of a net: the first is the root, and links lead to ports of the net.
pub open spec fn is_net(nodes: Seq<Node>) -> bool {
    &&& nodes.len() > 0
    &&& nodes[0].kind == NodeKind::Rot
    &&& forall|port: Port|
        has_port(nodes, port) ==> has_port(nodes, #[trigger] entered(nodes, port))
}

impl Node {
    /// The port that the port in slot `slot` is linked to.
    pub fn port(&self, slot: SlotId) -> (res: Port)
        requires
            slot < 3,
        ensures
            res == linked(*self, slot),
            slot == 0 ==> res == self.main,
            slot == 1 ==> res == self.aux1,
            slot == 2 ==> res == self.aux2,
    {
        if slot == 0 {
            self.main
        } else if slot == 1 {
            self.aux1
        } else {
            self.aux2
        }
    }
}

impl View for INet {
    type V = Seq<Node>;

    closed spec fn view(&self) -> Seq<Node> {
        self.nodes@
    }
}

impl INet {
    /// Whether the root comes first and all links lead to ports of the net.
    pub open spec fn wf(&self) -> bool {
        is_net(self@)
    }

    /// A net that holds only the root: port 1 is free, ports 0 and 2 are linked to each other.
    pub fn new() -> (res: INet)
        ensures
            res.wf(),
            res@ == seq![
                Node { main: Port(0, 2), aux1: Port(0, 1), aux2: Port(0, 0), kind: NodeKind::Rot },
            ],
    {
        let root = Node {
            main: Port(0, 2),
            aux1: Port(0, 1),
            aux2: Port(0, 0),
            kind: NodeKind::Rot,
        };
        let mut nodes: Vec<Node> = Vec::new();
        nodes.push(root);
        INet { nodes }
    }

    /// Adds a node whose ports are linked to themselves.
    pub fn new_node(&mut self, kind: NodeKind) -> (res: NodeId)
        requires
            old(self).wf(),
        ensures
            final(self).wf(),
            res == old(self)@.len(),
            final(self)@ == old(self)@.push(
                Node { main: Port(res, 0), aux1: Port(res, 1), aux2: Port(res, 2), kind },
            ),
    {
        let id: NodeId = self.nodes.len();
        let node = Node { main: Port(id, 0), aux1: Port(id, 1), aux2: Port(id, 2), kind };
        self.nodes.push(node);
        assert forall|port: Port| has_port(self@, port) implies has_port(
            self@,
            #[trigger] entered(self@, port),
        ) by {
            if has_port(old(self)@, port) {
                assert(has_port(old(self)@, entered(old(self)@, port)));
            }
        }
        id
    }

    /// A node of the net.
    pub fn node(&self, node: NodeId) -> (res: &Node)
        requires
            node < self@.len(),
        ensures
            *res == self@[node as int],
    {
        &self.nodes[node]
    }

    /// The port on the other end of the link of the root's port that leads into the net.
    pub fn enter_root(&self) -> (res: Port)
        requires
            self.wf(),
        ensures
            res == entered(self@, root_port()),
            has_port(self@, res),
    {
        self.enter_port(Port(0, 1))
    }

    /// The port on the other end of the link of `port`.
    pub fn enter_port(&self, port: Port) -> (res: Port)
        requires
            self.wf(),
            has_port(self@, port),
        ensures
            res == entered(self@, port),
            has_port(self@, res),
    {
        self.node(port.node()).port(port.slot())
    }

    /// Links two ports to each other.
    pub fn link(&mut self, a: Port, b: Port)
        requires
            old(self).wf(),
            has_port(old(self)@, a),
            has_port(old(self)@, b),
        ensures
            final(self).wf(),
            final(self)@ == with_link(with_link(old(self)@, a, b), b, a),
            entered(final(self)@, a) == b,
            entered(final(self)@, b) == a,
            final(self)@.len() == old(self)@.len(),
            forall|i: int|
                0 <= i < old(self)@.len() ==> (#[trigger] final(self)@[i]).kind
                    == old(self)@[i].kind,
            forall|port: Port|
                has_port(old(self)@, port) && port != a && port != b ==> #[trigger] entered(
                    final(self)@,
                    port,
                ) == entered(old(self)@, port),
    {
        self.set(a, b);
        self.set(b, a);
    }

    /// Links `src` to `dst`, in that direction only.
    fn set(&mut self, src: Port, dst: Port)
        requires
            old(self).wf(),
            has_port(old(self)@, src),
            has_port(old(self)@, dst),
        ensures
            final(self).wf(),
            final(self)@ == with_link(old(self)@, src, dst),
    {
        let mut node = self.nodes[src.node()];
        if src.slot() == 0 {
            node.main = dst;
        } else if src.slot() == 1 {
            node.aux1 = dst;
        } else {
            node.aux2 = dst;
        }
        self.nodes[src.node()] = node;
        assert forall|port: Port| has_port(self@, port) implies has_port(
            self@,
            #[trigger] entered(self@, port),
        ) by {
            if has_port(old(self)@, port) {
                assert(has_port(old(self)@, entered(old(self)@, port)));
            }
        }
    }
}

} // verus!
