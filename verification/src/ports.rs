//! Maps and sets of ports.

use std::collections::HashMap;

use vstd::prelude::*;

use crate::net::{NodeId, Port};

verus! {

broadcast use vstd::std_specs::hash::group_hash_axioms;

/// A map from ports to values: one map from nodes for each slot.
#[derive(Debug)]
#[verifier::reject_recursive_types(V)]
pub struct PortMap<V> {
    main: HashMap<NodeId, V>,
    aux1: HashMap<NodeId, V>,
    aux2: HashMap<NodeId, V>,
}

impl<V> PortMap<V> {
    /// The values of the ports in slot `slot`, by node.
    spec fn slot(&self, slot: int) -> Map<NodeId, V> {
        if slot == 0 {
            self.main@
        } else if slot == 1 {
            self.aux1@
        } else {
            self.aux2@
        }
    }
}

impl<V> View for PortMap<V> {
    type V = Map<Port, V>;

    closed spec fn view(&self) -> Map<Port, V> {
        Map::new(
            |port: Port| port.1 < 3 && self.slot(port.1 as int).contains_key(port.0),
            |port: Port| self.slot(port.1 as int)[port.0],
        )
    }
}

impl<V> PortMap<V> {
    /// The empty map.
    pub fn new() -> (res: Self)
        ensures
            res@ == Map::<Port, V>::empty(),
    {
        let res = PortMap { main: HashMap::new(), aux1: HashMap::new(), aux2: HashMap::new() };
        assert(res@ =~= Map::<Port, V>::empty());
        res
    }

    /// The value of a port.
    pub fn get(&self, port: Port) -> (res: Option<&V>)
        requires
            port.1 < 3,
        ensures
            res == (if self@.contains_key(port) {
                Some(&self@[port])
            } else {
                None
            }),
    {
        let node = port.node();
        if port.slot() == 0 {
            self.main.get(&node)
        } else if port.slot() == 1 {
            self.aux1.get(&node)
        } else {
            self.aux2.get(&node)
        }
    }

    /// Sets the value of a port.
    pub fn insert(&mut self, port: Port, value: V)
        requires
            port.1 < 3,
        ensures
            final(self)@ == old(self)@.insert(port, value),
    {
        let node = port.node();
        if port.slot() == 0 {
            self.main.insert(node, value);
        } else if port.slot() == 1 {
            self.aux1.insert(node, value);
        } else {
            self.aux2.insert(node, value);
        }
        assert(self@ =~= old(self)@.insert(port, value));
    }

    /// The nodes of the ports that have a value, in no particular order.
    pub fn nodes(&self) -> (res: Vec<NodeId>)
        ensures
            forall|port: Port| #[trigger] self@.contains_key(port) ==> res@.contains(port.0),
            forall|node: NodeId| #[trigger]
                res@.contains(node) ==> exists|port: Port| #[trigger]
                    self@.contains_key(port) && port.0 == node,
    {
        let mut res: Vec<NodeId> = Vec::new();
        push_keys(&self.main, &mut res);
        push_keys(&self.aux1, &mut res);
        push_keys(&self.aux2, &mut res);
        assert forall|port: Port| #[trigger] self@.contains_key(port) implies res@.contains(
            port.0,
        ) by {
            assert(self.slot(port.1 as int).contains_key(port.0));
        }
        assert forall|node: NodeId| #[trigger] res@.contains(node) implies exists|port: Port|
         #[trigger]
            self@.contains_key(port) && port.0 == node by {
            if self.main@.contains_key(node) {
                assert(self@.contains_key(Port(node, 0)));
            } else if self.aux1@.contains_key(node) {
                assert(self@.contains_key(Port(node, 1)));
            } else {
                assert(self@.contains_key(Port(node, 2)));
            }
        }
        res
    }
}

/// Appends the keys of a map to a list of nodes.
fn push_keys<V>(map: &HashMap<NodeId, V>, nodes: &mut Vec<NodeId>)
    ensures
        forall|node: NodeId| #[trigger]
            final(nodes)@.contains(node) <==> old(nodes)@.contains(node) || map@.contains_key(node),
{
    let keys = map.keys();
    let ghost all = vstd::std_specs::iter::IteratorSpec::remaining(&keys).unref();
    for node in walk: keys
        invariant
            walk.seq().unref() == all,
            forall|node: NodeId| #[trigger]
                nodes@.contains(node) <==> old(nodes)@.contains(node) || all.take(
                    walk.index(),
                ).contains(node),
    {
        let ghost before = nodes@;
        nodes.push(*node);
        proof {
            let i = walk.index();
            assert(all.take(i + 1) =~= all.take(i).push(*node));
            assert forall|other: NodeId| #[trigger]
                nodes@.contains(other) <==> old(nodes)@.contains(other) || all.take(
                    i + 1,
                ).contains(other) by {
                broadcast use vstd::seq_lib::group_seq_properties;

            }
        }
    }
    assert(all.take(all.len() as int) =~= all);
    assert forall|node: NodeId| #[trigger]
        nodes@.contains(node) <==> old(nodes)@.contains(node) || map@.contains_key(node) by {
        assert(all.contains(node) <==> all.to_set().contains(node));
    }
}

/// A set of ports.
#[derive(Debug)]
pub struct PortSet {
    ports: PortMap<()>,
}

impl View for PortSet {
    type V = Set<Port>;

    closed spec fn view(&self) -> Set<Port> {
        self.ports@.dom()
    }
}

impl PortSet {
    /// The empty set.
    pub fn new() -> (res: PortSet)
        ensures
            res@ == Set::<Port>::empty(),
    {
        let res = PortSet { ports: PortMap::new() };
        assert(res@ =~= Set::<Port>::empty());
        res
    }

    /// Whether a port is in the set.
    pub fn contains(&self, port: Port) -> (res: bool)
        requires
            port.1 < 3,
        ensures
            res == self@.contains(port),
    {
        self.ports.get(port).is_some()
    }

    /// Adds a port.
    pub fn insert(&mut self, port: Port)
        requires
            port.1 < 3,
        ensures
            final(self)@ == old(self)@.insert(port),
    {
        self.ports.insert(port, ());
        assert(self@ =~= old(self)@.insert(port));
    }
}

} // verus!
