use nodenet::error::Error;
use nodenet::expr::Value;
use nodenet::network::{GenericNodeId, Network};
use nodenet::ports::{copy_outputs, default_value};
use nodenet::server::{NodeCreateInfo, NodeOutputInfo, NodeParamInfo};

fn description() -> NodeCreateInfo {
    NodeCreateInfo {
        name: "blur".to_string(),
        params: vec![
            ("radius".to_string(), NodeParamInfo { ty: "number".to_string(), show_connector: true }),
            ("label".to_string(), NodeParamInfo { ty: "string".to_string(), show_connector: false }),
            ("source".to_string(), NodeParamInfo { ty: "image".to_string(), show_connector: true }),
        ],
        outputs: vec![("out".to_string(), NodeOutputInfo { ty: "image".to_string() })],
    }
}

#[test]
fn import_builds_the_described_node() {
    let mut net = Network::new();
    let root = net.root();
    let info = description();
    let id = net.import(root, &info).unwrap();
    let rec = net.node(id).unwrap();
    assert_eq!(rec.name(), "blur");
    assert_eq!(rec.parent(), Some(root));
    assert_eq!(rec.params.len(), 3);
    assert_eq!(net.resolve_path(root, "/blur").unwrap(), id);
    assert_eq!(net.resolve_ref(root, "blur/label").unwrap(), (id.raw, 1));
    assert!(matches!(net.get_param(id, 0).unwrap().cached(), Ok(Value::Number(0))));
    assert!(matches!(net.get_param(id, 1).unwrap().cached(), Ok(Value::String(s)) if s.is_empty()));
    assert!(matches!(net.get_param(id, 2).unwrap().cached(), Ok(Value::Number(0))));
    assert!(!net.get_param(id, 0).unwrap().is_dirty());
    assert_eq!(net.get_inputs(id).unwrap(), info.params);
    assert_eq!(net.get_outputs(id).unwrap(), info.outputs);
    assert!(net.dirty_params().is_empty());
}

#[test]
fn import_below_unknown_parent_fails() {
    let mut net = Network::new();
    let bogus = GenericNodeId { raw: 5 };
    assert!(matches!(net.import(bogus, &description()), Err(Error::IdNotFound)));
    assert_eq!(net.node_count(), 1);
}

#[test]
fn inputs_describe_parameters_by_kind() {
    let mut net = Network::new();
    let root = net.root();
    let n = net.create(root, "n").unwrap();
    net.add_param(n, "x", Value::Number(1.0f64.to_bits())).unwrap();
    net.add_param(n, "t", Value::String("a".to_string())).unwrap();
    let custom = NodeParamInfo { ty: "colour".to_string(), show_connector: true };
    net.add_described_param(n, "c", Value::Number(0), custom.clone()).unwrap();
    let inputs = net.get_inputs(n).unwrap();
    assert_eq!(
        inputs,
        vec![
            ("x".to_string(), NodeParamInfo { ty: "number".to_string(), show_connector: false }),
            ("t".to_string(), NodeParamInfo { ty: "string".to_string(), show_connector: false }),
            ("c".to_string(), custom),
        ]
    );
    assert!(net.get_outputs(n).unwrap().is_empty());
    assert!(matches!(net.get_inputs(GenericNodeId { raw: 5 }), Err(Error::IdNotFound)));
    assert!(matches!(net.get_outputs(GenericNodeId { raw: 5 }), Err(Error::IdNotFound)));
}

#[test]
fn outputs_can_be_declared_anew() {
    let mut net = Network::new();
    let root = net.root();
    let n = net.create(root, "n").unwrap();
    let outs = vec![
        ("a".to_string(), NodeOutputInfo { ty: "number".to_string() }),
        ("b".to_string(), NodeOutputInfo { ty: "image".to_string() }),
    ];
    net.set_outputs(n, outs.clone()).unwrap();
    assert_eq!(net.get_outputs(n).unwrap(), outs);
    assert_eq!(copy_outputs(&outs), outs);
    net.set_outputs(n, Vec::new()).unwrap();
    assert!(net.get_outputs(n).unwrap().is_empty());
    assert!(matches!(net.set_outputs(GenericNodeId { raw: 5 }, outs), Err(Error::IdNotFound)));
}

#[test]
fn default_depends_on_the_type() {
    assert!(matches!(default_value(&"string".to_string()), Value::String(s) if s.is_empty()));
    assert!(matches!(default_value(&"number".to_string()), Value::Number(0)));
    assert!(matches!(default_value(&"".to_string()), Value::Number(0)));
    assert!(matches!(default_value(&"String".to_string()), Value::Number(0)));
}

#[test]
fn imported_node_survives_a_transaction() {
    let mut net = Network::new();
    let root = net.root();
    let mut tx = net.transaction();
    let id = tx.draft.import(root, &description()).unwrap();
    tx.commit().unwrap();
    assert_eq!(net.get_inputs(id).unwrap().len(), 3);
    assert_eq!(net.get_outputs(id).unwrap().len(), 1);
}

#[test]
fn description_with_a_name_twice_is_refused() {
    let mut net = Network::new();
    let root = net.root();
    let mut info = description();
    assert!(info.is_valid());
    info.params.push(("radius".to_string(), NodeParamInfo { ty: "number".to_string(), show_connector: false }));
    assert!(!info.is_valid());
    assert!(matches!(net.import(root, &info), Err(Error::Other)));
    assert_eq!(net.node_count(), 1);
    let mut info = description();
    info.outputs.push(("out".to_string(), NodeOutputInfo { ty: "number".to_string() }));
    assert!(!info.is_valid());
    assert!(matches!(net.import(root, &info), Err(Error::Other)));
    assert!(matches!(net.import(GenericNodeId { raw: 5 }, &info), Err(Error::IdNotFound)));
}
