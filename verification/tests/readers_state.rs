use readback::name::Name;
use readback::net::{INet, Node, NodeKind, Port};
use readback::ports::{PortMap, PortSet};
use readback::state::{DupScope, Pending, VarNames};

#[test]
fn new_net_holds_the_root() {
    let net = INet::new();
    let root = Node { main: Port(0, 2), aux1: Port(0, 1), aux2: Port(0, 0), kind: NodeKind::Rot };
    assert_eq!(net.node(0), &root);
    assert_eq!(net.enter_root(), Port(0, 1));
}

#[test]
fn links_lead_both_ways() {
    let mut net = INet::new();
    let node = net.new_node(NodeKind::Con);
    assert_eq!(node, 1);
    assert_eq!(net.enter_port(Port(node, 2)), Port(node, 2));
    net.link(Port(0, 1), Port(node, 2));
    assert_eq!(net.enter_root(), Port(node, 2));
    assert_eq!(net.enter_port(Port(node, 2)), Port(0, 1));
    assert_eq!(net.enter_port(Port(node, 0)), Port(node, 0));
}

#[test]
fn variables_are_named_once() {
    let mut names = VarNames::new();
    assert_eq!(names.var_name(Port(4, 1)), Name::new("a"));
    assert_eq!(names.var_name(Port(4, 2)), Name::new("b"));
    assert_eq!(names.var_name(Port(4, 1)), Name::new("a"));
    assert_eq!(names.next, 2);
}

#[test]
fn erased_variables_are_not_declared() {
    let mut net = INet::new();
    let lam = net.new_node(NodeKind::Con);
    let era = net.new_node(NodeKind::Era);
    net.link(Port(lam, 1), Port(era, 0));
    let mut names = VarNames::new();
    assert_eq!(names.decl_name(&net, Port(lam, 1)), None);
    assert_eq!(names.next, 0);
    assert_eq!(names.decl_name(&net, Port(lam, 2)), Some(Name::new("a")));
    assert_eq!(names.next, 1);
}

#[test]
fn nodes_wait_once_and_the_last_goes_first() {
    let mut pending = Pending::new();
    pending.note(3);
    pending.note(5);
    pending.note(3);
    assert_eq!(pending.pop(), Some(5));
    pending.note(5);
    assert_eq!(pending.pop(), Some(3));
    assert_eq!(pending.pop(), None);
}

#[test]
fn duplications_are_left_in_the_reverse_order() {
    let mut scope = DupScope::new();
    scope.push(0, 1);
    scope.push(0, 2);
    scope.push(7, 1);
    assert_eq!(scope.pop(0), Some(2));
    assert_eq!(scope.pop(0), Some(1));
    assert_eq!(scope.pop(0), None);
    assert_eq!(scope.pop(7), Some(1));
    assert_eq!(scope.pop(9), None);
}

#[test]
fn ports_are_kept_apart() {
    let mut map: PortMap<u32> = PortMap::new();
    map.insert(Port(1, 0), 10);
    map.insert(Port(1, 2), 12);
    map.insert(Port(2, 2), 22);
    map.insert(Port(1, 2), 13);
    assert_eq!(map.get(Port(1, 0)), Some(&10));
    assert_eq!(map.get(Port(1, 1)), None);
    assert_eq!(map.get(Port(1, 2)), Some(&13));
    let mut nodes = map.nodes();
    nodes.sort();
    nodes.dedup();
    assert_eq!(nodes, vec![1, 2]);

    let mut set = PortSet::new();
    set.insert(Port(1, 1));
    assert!(set.contains(Port(1, 1)));
    assert!(!set.contains(Port(1, 0)));
    assert!(!set.contains(Port(2, 1)));
}
