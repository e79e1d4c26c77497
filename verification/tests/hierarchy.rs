use nodenet::error::Error;
use nodenet::expr::Value;
use nodenet::network::node::NodeOps;
use nodenet::network::{GenericNodeId, Network, NodeHierarchy};
use nodenet::path::split_path;

fn tree() -> (Network, GenericNodeId, GenericNodeId, GenericNodeId) {
    let mut net = Network::new();
    let root = net.root();
    let obj = net.create(root, "obj").unwrap();
    let a = net.create(obj, "A").unwrap();
    let b = net.create(obj, "B").unwrap();
    (net, obj, a, b)
}

#[test]
fn new_network_holds_only_the_root() {
    let net = Network::new();
    let root = net.root();
    assert_eq!(net.node_count(), 1);
    assert!(net.contains(root));
    let rec = net.node(root).unwrap();
    assert!(rec.is_root());
    assert!(!rec.has_subnet());
    assert_eq!(rec.parent(), None);
    assert_eq!(rec.name(), "");
    assert_eq!(net.runs(), 0);
}

#[test]
fn new_root_and_with_parent_records() {
    let root = NodeHierarchy::new_root();
    assert!(root.is_root());
    assert!(!root.has_subnet());
    assert_eq!(root.name(), "");
    let up = GenericNodeId { raw: 0x1_0000_0001 };
    let child = NodeHierarchy::with_parent("kid", up);
    assert!(!child.is_root());
    assert_eq!(child.parent(), Some(up));
    assert_eq!(child.name(), "kid");
    assert_eq!(child.display_node(), "kid");
}

#[test]
fn create_links_parent_and_child() {
    let (net, obj, a, b) = tree();
    assert_eq!(net.node_count(), 4);
    let rec = net.node(obj).unwrap();
    assert!(rec.has_subnet());
    assert_eq!(rec.children, vec![a, b]);
    assert_eq!(rec.parent(), Some(net.root()));
    assert_eq!(net.node(a).unwrap().parent(), Some(obj));
    assert_eq!(net.node(a).unwrap().name(), "A");
    assert!(!net.node(a).unwrap().has_subnet());
    assert_eq!(net.node_keys().len(), 4);
}

#[test]
fn create_below_unknown_parent_fails() {
    let (mut net, _obj, a, _b) = tree();
    net.delete(a).unwrap();
    assert!(matches!(net.create(a, "x"), Err(Error::IdNotFound)));
    let bogus = GenericNodeId { raw: 12345 };
    assert!(matches!(net.create(bogus, "x"), Err(Error::IdNotFound)));
    assert!(!net.contains(bogus));
    assert_eq!(net.node_count(), 3);
}

#[test]
fn absolute_and_relative_paths_resolve() {
    let (net, obj, a, b) = tree();
    let root = net.root();
    assert_eq!(net.resolve_path(root, "/obj/A").unwrap(), a);
    assert_eq!(net.resolve_path(b, "/obj/A").unwrap(), a);
    assert_eq!(net.resolve_path(b, "../A").unwrap(), a);
    assert_eq!(net.resolve_path(a, "../B").unwrap(), b);
    assert_eq!(net.resolve_path(a, "..").unwrap(), obj);
    assert_eq!(net.resolve_path(a, "../..").unwrap(), root);
    assert_eq!(net.resolve_path(obj, "A").unwrap(), a);
    assert_eq!(net.resolve_path(a, "").unwrap(), a);
    assert_eq!(net.resolve_path(a, ".").unwrap(), a);
    assert_eq!(net.resolve_path(a, "/").unwrap(), root);
    assert_eq!(net.resolve_path(root, "obj//A/").unwrap(), a);
    assert_eq!(net.resolve_path(root, "./obj/./B").unwrap(), b);
}

#[test]
fn paths_that_lead_nowhere_fail() {
    let (net, _obj, a, _b) = tree();
    let root = net.root();
    assert!(matches!(net.resolve_path(root, "/obj/C"), Err(Error::NameNotFound)));
    assert!(matches!(net.resolve_path(root, ".."), Err(Error::NameNotFound)));
    assert!(matches!(net.resolve_path(a, "../../.."), Err(Error::NameNotFound)));
    assert!(matches!(net.resolve_path(a, "A"), Err(Error::NameNotFound)));
    assert!(matches!(net.resolve_path(root, "obj/a"), Err(Error::NameNotFound)));
    let bogus = GenericNodeId { raw: 7 };
    assert!(matches!(net.resolve_path(bogus, "/obj"), Err(Error::IdNotFound)));
}

#[test]
fn node_without_name_is_reached_by_identifier_only() {
    let mut net = Network::new();
    let root = net.root();
    let hidden = net.create(root, "").unwrap();
    let below = net.create(hidden, "x").unwrap();
    assert!(net.contains(hidden));
    assert_eq!(net.resolve_path(root, "").unwrap(), root);
    assert!(matches!(net.resolve_path(root, "x"), Err(Error::NameNotFound)));
    assert_eq!(net.resolve_path(hidden, "x").unwrap(), below);
    assert_eq!(net.resolve_path(below, "..").unwrap(), hidden);
}

#[test]
fn first_of_two_children_with_one_name_is_found() {
    let mut net = Network::new();
    let root = net.root();
    let first = net.create(root, "twin").unwrap();
    let second = net.create(root, "twin").unwrap();
    assert_ne!(first, second);
    assert_eq!(net.resolve_path(root, "twin").unwrap(), first);
    assert_eq!(net.child_named(root, &"twin".to_string()), Some(first));
    net.delete(first).unwrap();
    assert_eq!(net.resolve_path(root, "twin").unwrap(), second);
}

#[test]
fn resolution_is_the_same_twice() {
    let (net, _obj, a, b) = tree();
    let once = net.resolve_path(b, "../A").unwrap();
    let twice = net.resolve_path(b, "../A").unwrap();
    assert_eq!(once, a);
    assert_eq!(once, twice);
}

#[test]
fn split_path_keeps_empty_pieces() {
    assert_eq!(split_path("/obj/A"), vec!["", "obj", "A"]);
    assert_eq!(split_path("../x/"), vec!["..", "x", ""]);
    assert_eq!(split_path(""), vec![""]);
    assert_eq!(split_path("a"), vec!["a"]);
    assert_eq!(split_path("é/ü"), vec!["é", "ü"]);
}

#[test]
fn parameters_are_indexed_in_creation_order() {
    let (mut net, _obj, a, _b) = tree();
    let one = Value::Number(1.0f64.to_bits());
    assert_eq!(net.add_param(a, "x", one.clone()).unwrap(), 0);
    assert_eq!(net.add_param(a, "y", Value::String("hi".to_string())).unwrap(), 1);
    assert_eq!(net.add_param(a, "x", one).unwrap(), 2);
    assert_eq!(net.find_param(a, &"x".to_string()), Some(0));
    assert_eq!(net.find_param(a, &"y".to_string()), Some(1));
    assert_eq!(net.find_param(a, &"z".to_string()), None);
    let p = net.get_param(a, 1).unwrap();
    assert_eq!(p.name(), "y");
    assert!(!p.is_dirty());
    assert_eq!(p.expression().code(), "");
    assert!(matches!(p.cached(), Ok(Value::String(s)) if s == "hi"));
    assert!(matches!(net.get_param(a, 3), Err(Error::IdNotFound)));
    assert!(net.contains_param((a.raw, 2)));
    assert!(!net.contains_param((a.raw, 3)));
    let bogus = GenericNodeId { raw: 99 };
    assert!(matches!(net.add_param(bogus, "x", Value::Number(0)), Err(Error::IdNotFound)));
}

#[test]
fn references_resolve_to_parameters() {
    let (mut net, obj, a, b) = tree();
    net.add_param(a, "x", Value::Number(0)).unwrap();
    net.add_param(obj, "top", Value::Number(0)).unwrap();
    net.add_param(b, "own", Value::Number(0)).unwrap();
    assert_eq!(net.resolve_ref(b, "../A/x").unwrap(), (a.raw, 0));
    assert_eq!(net.resolve_ref(b, "/obj/A/x").unwrap(), (a.raw, 0));
    assert_eq!(net.resolve_ref(b, "../top").unwrap(), (obj.raw, 0));
    assert_eq!(net.resolve_ref(b, "own").unwrap(), (b.raw, 0));
    assert_eq!(net.resolve_ref(b, "./own").unwrap(), (b.raw, 0));
    assert!(matches!(net.resolve_ref(b, "../A/y"), Err(Error::NameNotFound)));
    assert!(matches!(net.resolve_ref(b, "../C/x"), Err(Error::NameNotFound)));
    assert!(matches!(net.resolve_ref(b, "../A/"), Err(Error::NameNotFound)));
}

#[test]
fn handles_create_nodes() {
    let mut net = Network::new();
    let id = {
        let mut root = net.root_node();
        let mut sub = root.subnet();
        let mut node = sub.new_node("n").unwrap();
        let inner = node.subnet().new_node("m").unwrap().id();
        assert_ne!(inner, node.id());
        node.id()
    };
    assert_eq!(net.resolve_path(net.root(), "/n").unwrap(), id);
    assert!(net.resolve_path(net.root(), "/n/m").is_ok());
    assert_eq!(net.node_count(), 3);
}

struct Lamp;

impl NodeOps for Lamp {
    fn name(&self) -> &str {
        "lamp"
    }
}

struct Shade;

impl NodeOps for Shade {
    fn name(&self) -> &str {
        "shade"
    }

    fn display_node(&self) -> &str {
        "Lamp shade"
    }
}

#[test]
fn display_name_is_the_name_unless_overridden() {
    assert_eq!(Lamp.name(), "lamp");
    assert_eq!(Lamp.display_node(), "lamp");
    assert_eq!(Shade.name(), "shade");
    assert_eq!(Shade.display_node(), "Lamp shade");
    let mut net = Network::new();
    let root = net.root();
    let a = net.create(root, "A").unwrap();
    assert_eq!(net.node(a).unwrap().display_node(), "A");
}

#[test]
fn identifiers_of_deleted_nodes_are_not_handed_out_again() {
    let mut net = Network::new();
    let root = net.root();
    let mut old_ids = Vec::new();
    for round in 0..50 {
        let a = net.create(root, "a").unwrap();
        let b = net.create(a, "b").unwrap();
        assert!(!old_ids.contains(&a) && !old_ids.contains(&b), "round {}", round);
        net.delete(a).unwrap();
        old_ids.push(a);
        old_ids.push(b);
    }
    let fresh = net.create(root, "fresh").unwrap();
    assert!(!old_ids.contains(&fresh));
    for id in old_ids {
        assert!(!net.contains(id));
    }
}
