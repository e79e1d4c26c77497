use nodenet::error::Error;
use nodenet::eval::EvalContext;
use nodenet::expr::{Expr, Value};
use nodenet::network::{GenericNodeId, Network};

struct NoVars;

impl EvalContext for NoVars {
    fn var(&self, _name: &str) -> Result<Value, Error> {
        Err(Error::NameNotFound)
    }
}

fn num(x: f64) -> Value {
    Value::Number(x.to_bits())
}

fn number(v: Result<Value, Error>) -> f64 {
    f64::from_bits(v.unwrap().as_number().unwrap())
}

fn two_nodes() -> (Network, GenericNodeId, GenericNodeId) {
    let mut net = Network::new();
    let mut tx = net.transaction();
    let root = tx.draft.root();
    let obj = tx.create(root, "obj").unwrap();
    let a = tx.create(obj, "A").unwrap();
    let b = tx.create(obj, "B").unwrap();
    tx.add_param(a, "x", num(1.0)).unwrap();
    let y = tx.add_param(b, "y", num(0.0)).unwrap();
    tx.set_expression(b, y, Expr::new("p('../A/x') + 1.0")).unwrap();
    tx.commit().unwrap();
    (net, a, b)
}

#[test]
fn edits_are_invisible_until_commit() {
    let mut net = Network::new();
    let root = net.root();
    let id;
    {
        let mut tx = net.transaction();
        id = tx.create(root, "obj").unwrap();
        assert!(tx.draft.contains(id));
        assert!(!tx.network.contains(id));
        tx.commit().unwrap();
    }
    assert!(net.contains(id));
    assert_eq!(net.node_count(), 2);
}

#[test]
fn dropped_transaction_changes_nothing() {
    let mut net = Network::new();
    let root = net.root();
    {
        let mut tx = net.transaction();
        tx.create(root, "obj").unwrap();
    }
    assert_eq!(net.node_count(), 1);
}

#[test]
fn committed_dependency_is_evaluated() {
    let (mut net, _a, b) = two_nodes();
    assert_eq!(number(net.value(b, 0, &NoVars)), 2.0);
}

#[test]
fn set_then_reread_follows_dependency() {
    let (mut net, a, b) = two_nodes();
    assert_eq!(number(net.value(b, 0, &NoVars)), 2.0);
    let mut tx = net.transaction();
    tx.set_expression(a, 0, Expr::new("5.0")).unwrap();
    tx.commit().unwrap();
    assert!(net.get_param(b, 0).unwrap().is_dirty());
    assert_eq!(number(net.value(b, 0, &NoVars)), 6.0);
}

#[test]
fn cycle_is_rejected_at_commit() {
    let (mut net, a, b) = two_nodes();
    let mut tx = net.transaction();
    tx.set_expression(a, 0, Expr::new("p('../B/y')")).unwrap();
    let other = tx.create(a, "late").unwrap();
    let refused = tx.commit().unwrap_err();
    assert!(matches!(refused.error, Error::CycleDetected));
    assert_eq!(refused.path, vec![(a.raw, 0), (b.raw, 0), (a.raw, 0)]);
    assert_eq!(net.get_param(a, 0).unwrap().expression().code(), "");
    assert_eq!(net.get_param(b, 0).unwrap().expression().code(), "p('../A/x') + 1.0");
    assert!(!net.contains(other));
    assert_eq!(net.node_count(), 4);
}

#[test]
fn self_reference_is_a_cycle() {
    let (mut net, a, _b) = two_nodes();
    let mut tx = net.transaction();
    tx.set_expression(a, 0, Expr::new("p('x') + 1")).unwrap();
    assert!(matches!(tx.commit().map_err(|r| r.error), Err(Error::CycleDetected)));
}

#[test]
fn cycle_within_one_batch_is_judged_on_the_result() {
    let (mut net, a, b) = two_nodes();
    let mut tx = net.transaction();
    tx.set_expression(a, 0, Expr::new("p('../B/y')")).unwrap();
    tx.set_expression(b, 0, Expr::new("2.0")).unwrap();
    tx.commit().unwrap();
    assert_eq!(number(net.value(a, 0, &NoVars)), 2.0);
}

#[test]
fn later_edit_of_same_parameter_wins() {
    let (mut net, a, _b) = two_nodes();
    let mut tx = net.transaction();
    tx.set_expression(a, 0, Expr::new("p('../B/y')")).unwrap();
    tx.set_expression(a, 0, Expr::new("7.0")).unwrap();
    assert_eq!(tx.pending.len(), 1);
    tx.commit().unwrap();
    assert_eq!(number(net.value(a, 0, &NoVars)), 7.0);
}

#[test]
fn refused_edit_fails_the_commit() {
    let (mut net, a, _b) = two_nodes();
    let mut tx = net.transaction();
    tx.delete(a).unwrap();
    assert!(matches!(tx.create(a, "child"), Err(Error::IdNotFound)));
    assert!(matches!(tx.commit().map_err(|r| r.error), Err(Error::IdNotFound)));
    assert!(net.contains(a));
}

#[test]
fn unresolved_reference_fails_the_commit() {
    let (mut net, a, _b) = two_nodes();
    let mut tx = net.transaction();
    tx.set_expression(a, 0, Expr::new("p('../C/z')")).unwrap();
    assert!(matches!(tx.commit().map_err(|r| r.error), Err(Error::NameNotFound)));
}

#[test]
fn deleted_dependency_is_a_name_error() {
    let (mut net, a, b) = two_nodes();
    assert_eq!(number(net.value(b, 0, &NoVars)), 2.0);
    assert!(!net.get_param(b, 0).unwrap().is_dirty());
    let mut tx = net.transaction();
    tx.delete(a).unwrap();
    tx.commit().unwrap();
    assert!(!net.contains(a));
    assert!(net.get_param(b, 0).unwrap().is_dirty());
    assert!(net.dependencies((b.raw, 0)).is_empty());
    let res = net.value(b, 0, &NoVars);
    assert!(matches!(res, Err(Error::NameNotFound)));
    assert!(matches!(net.value(a, 0, &NoVars), Err(Error::IdNotFound)));
}

#[test]
fn delete_removes_the_whole_subtree() {
    let mut net = Network::new();
    let root = net.root();
    let a = net.create(root, "a").unwrap();
    let b = net.create(a, "b").unwrap();
    let c = net.create(b, "c").unwrap();
    let d = net.create(root, "d").unwrap();
    net.add_param(c, "deep", num(1.0)).unwrap();
    net.add_param(d, "out", num(0.0)).unwrap();
    net.set_expression(d, 0, Expr::new("p('/a/b/c/deep') * 2")).unwrap();
    assert_eq!(number(net.value(d, 0, &NoVars)), 2.0);
    net.delete(a).unwrap();
    assert!(!net.contains(a) && !net.contains(b) && !net.contains(c));
    assert!(net.contains(d));
    assert_eq!(net.node_count(), 2);
    assert!(!net.node(root).unwrap().children.contains(&a));
    assert!(net.get_param(d, 0).unwrap().is_dirty());
    assert!(matches!(net.delete(a), Err(Error::IdNotFound)));
    assert!(matches!(net.delete(root), Err(Error::Other)));
}

#[test]
fn stale_identifier_does_not_name_a_new_node() {
    let mut net = Network::new();
    let root = net.root();
    let a = net.create(root, "a").unwrap();
    net.delete(a).unwrap();
    let b = net.create(root, "b").unwrap();
    assert_ne!(a, b);
    assert!(!net.contains(a));
    assert!(matches!(net.node(a), Err(Error::IdNotFound)));
    assert_eq!(net.node(b).unwrap().name(), "b");
}

#[test]
fn cycle_of_a_batch_is_spelled_out() {
    let (mut net, a, b) = two_nodes();
    let mut tx = net.transaction();
    assert_eq!(tx.offending_path(), None);
    tx.set_expression(a, 0, Expr::new("p('../B/y')")).unwrap();
    assert_eq!(tx.offending_path(), Some(vec![(a.raw, 0), (b.raw, 0), (a.raw, 0)]));
    tx.set_expression(b, 0, Expr::new("2.0")).unwrap();
    assert_eq!(tx.offending_path(), None);
    tx.commit().unwrap();
}

#[test]
fn handle_on_the_draft_edits_the_draft() {
    let mut net = Network::new();
    let mut tx = net.transaction();
    let id = {
        let mut root = tx.root_node();
        let mut sub = root.subnet();
        let node = sub.new_node("made").unwrap();
        node.id()
    };
    assert!(!tx.network.contains(id));
    tx.commit().unwrap();
    assert!(net.contains(id));
}

#[test]
fn pending_expression_for_a_deleted_node_fails_the_commit() {
    let (mut net, a, _b) = two_nodes();
    let mut tx = net.transaction();
    let c = tx.create(a, "c").unwrap();
    tx.add_param(c, "z", num(1.0)).unwrap();
    tx.set_expression(c, 0, Expr::new("2")).unwrap();
    tx.delete(c).unwrap();
    assert!(matches!(tx.commit().map_err(|r| r.error), Err(Error::IdNotFound)));
    assert_eq!(net.node_count(), 4);
}

#[test]
fn expression_for_an_unknown_parameter_is_refused_at_once() {
    let (mut net, a, _b) = two_nodes();
    let mut tx = net.transaction();
    assert!(matches!(tx.set_expression(a, 9, Expr::new("1")), Err(Error::IdNotFound)));
    assert_eq!(tx.errors.len(), 1);
    assert!(tx.pending.is_empty());
    assert!(matches!(tx.commit().map_err(|r| r.error), Err(Error::IdNotFound)));
}

#[test]
fn batch_may_build_and_wire_new_nodes() {
    let (mut net, _a, b) = two_nodes();
    let mut tx = net.transaction();
    let root = tx.draft.root();
    let c = tx.create(root, "C").unwrap();
    let z = tx.add_param(c, "z", num(0.0)).unwrap();
    tx.set_expression(c, z, Expr::new("p('/obj/B/y') * 10")).unwrap();
    tx.set_expression(b, 0, Expr::new("p('../A/x') + 2")).unwrap();
    tx.commit().unwrap();
    assert_eq!(net.dependents(&vec![(b.raw, 0)]), vec![(b.raw, 0), (c.raw, 0)]);
    assert_eq!(number(net.value(c, z, &NoVars)), 30.0);
}
