use nodenet::error::Error;
use nodenet::network::{typed, GenericNodeId, Network, NodeId};
use std::marker::PhantomData;

#[derive(Debug, PartialEq)]
struct Light {
    watts: u32,
}

#[test]
fn payload_is_read_back_with_its_type() {
    let mut net = Network::new();
    let root = net.root();
    let a = net.create(root, "a").unwrap();
    assert!(!net.has_data(a));
    let id = net.set_data(a, Light { watts: 60 }).unwrap();
    assert_eq!(id.generic(), a);
    assert!(net.has_data(a));
    assert_eq!(net.data(id).unwrap(), &Light { watts: 60 });
    let copy = id;
    assert_eq!(net.data(copy.clone()).unwrap().watts, 60);
}

#[test]
fn wrong_type_is_a_type_error() {
    let mut net = Network::new();
    let root = net.root();
    let a = net.create(root, "a").unwrap();
    net.set_data(a, Light { watts: 60 }).unwrap();
    let wrong: NodeId<String> = NodeId(a, PhantomData);
    assert!(matches!(net.data(wrong), Err(Error::TypeError)));
}

#[test]
fn node_without_payload_has_none() {
    let mut net = Network::new();
    let root = net.root();
    let a = net.create(root, "a").unwrap();
    let id: NodeId<Light> = NodeId(a, PhantomData);
    assert!(matches!(net.data(id), Err(Error::IdNotFound)));
    let bogus: NodeId<Light> = NodeId(GenericNodeId { raw: 3 }, PhantomData);
    assert!(matches!(net.data(bogus), Err(Error::IdNotFound)));
    assert!(matches!(net.set_data(GenericNodeId { raw: 3 }, 1u8), Err(Error::IdNotFound)));
}

#[test]
fn new_payload_takes_the_place_of_the_old() {
    let mut net = Network::new();
    let root = net.root();
    let a = net.create(root, "a").unwrap();
    let first = net.set_data(a, Light { watts: 60 }).unwrap();
    let second = net.set_data(a, "text".to_string()).unwrap();
    assert_eq!(net.data(second).unwrap(), "text");
    assert!(matches!(net.data(first), Err(Error::TypeError)));
}

#[test]
fn payload_goes_with_its_node() {
    let mut net = Network::new();
    let root = net.root();
    let a = net.create(root, "a").unwrap();
    let b = net.create(a, "b").unwrap();
    let keep = net.create(root, "keep").unwrap();
    let on_b = net.set_data(b, Light { watts: 1 }).unwrap();
    let on_keep = net.set_data(keep, Light { watts: 2 }).unwrap();
    net.delete(a).unwrap();
    assert!(!net.has_data(b));
    assert!(matches!(net.data(on_b), Err(Error::IdNotFound)));
    assert_eq!(net.data(on_keep).unwrap().watts, 2);
    let again = net.create(root, "again").unwrap();
    assert!(!net.has_data(again));
}

#[test]
fn payloads_pass_through_a_commit() {
    let mut net = Network::new();
    let root = net.root();
    let a = net.create(root, "a").unwrap();
    let b = net.create(root, "b").unwrap();
    let c = net.create(root, "c").unwrap();
    let on_a = net.set_data(a, Light { watts: 1 }).unwrap();
    let on_b = net.set_data(b, Light { watts: 2 }).unwrap();
    let on_c = net.set_data(c, Light { watts: 3 }).unwrap();
    let mut tx = net.transaction();
    let d = tx.create(root, "d").unwrap();
    let on_d = tx.draft.set_data(d, Light { watts: 4 }).unwrap();
    let new_b = tx.draft.set_data(b, 5u64).unwrap();
    tx.delete(c).unwrap();
    tx.commit().unwrap();
    assert_eq!(net.data(on_a).unwrap().watts, 1);
    assert_eq!(*net.data(new_b).unwrap(), 5);
    assert!(matches!(net.data(on_b), Err(Error::TypeError)));
    assert!(matches!(net.data(on_c), Err(Error::IdNotFound)));
    assert_eq!(net.data(on_d).unwrap().watts, 4);
}

#[test]
fn payloads_stay_when_a_commit_fails() {
    let mut net = Network::new();
    let root = net.root();
    let a = net.create(root, "a").unwrap();
    let on_a = net.set_data(a, Light { watts: 1 }).unwrap();
    let mut tx = net.transaction();
    tx.draft.set_data(a, 0u8).unwrap();
    assert!(tx.delete(root).is_err());
    assert!(tx.commit().is_err());
    assert_eq!(net.data(on_a).unwrap().watts, 1);
}

#[test]
fn handle_attaches_a_payload() {
    let mut net = Network::new();
    let id = {
        let mut root = net.root_node();
        let mut sub = root.subnet();
        let mut node = sub.new_node("n").unwrap();
        node.set_data(Light { watts: 9 }).unwrap()
    };
    assert_eq!(net.data(id).unwrap().watts, 9);
}

#[test]
fn typed_tells_the_three_cases_apart() {
    let v = 3u8;
    assert!(matches!(typed::<u8>(None), Err(Error::IdNotFound)));
    assert!(matches!(typed::<u8>(Some(None)), Err(Error::TypeError)));
    assert!(matches!(typed::<u8>(Some(Some(&v))), Ok(&3)));
}

#[test]
fn typed_identifier_converts_to_the_plain_one() {
    let mut net = Network::new();
    let root = net.root();
    let a = net.create(root, "a").unwrap();
    let id = net.set_data(a, 1u8).unwrap();
    assert_eq!(GenericNodeId::from(id), a);
    let plain: GenericNodeId = id.into();
    assert_eq!(plain, a);
}

#[test]
fn typed_identifiers_compare_by_their_node() {
    let mut net = Network::new();
    let root = net.root();
    let a = net.create(root, "a").unwrap();
    let b = net.create(root, "b").unwrap();
    let on_a = net.set_data(a, 1u8).unwrap();
    let on_b = net.set_data(b, 2u8).unwrap();
    assert_eq!(on_a, on_a.clone());
    assert_ne!(on_a, on_b);
    assert_eq!(on_a < on_b, a < b);
    let mut seen = std::collections::HashSet::new();
    seen.insert(on_a);
    assert!(seen.contains(&on_a) && !seen.contains(&on_b));
}
