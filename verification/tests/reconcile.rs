use archon_node::discover::DeviceSpec;
use archon_node::model::{Attrs, NodeId, ResourceClass};
use archon_node::reconcile::{reconcile_device_subtree, CommittedHost, DeviceSubtree, NodeState, RecordedDevice};

fn spec(id: &str, dev: &str, parent: Option<&str>) -> DeviceSpec {
    DeviceSpec {
        kind: ResourceClass::Gpu,
        id: id.into(),
        dev: dev.into(),
        host_parent: parent.map(String::from),
        access: Vec::new(),
        attrs: Attrs::new(),
    }
}

fn recorded_attrs(id: &str, dev: &str, parent: Option<&str>) -> Attrs {
    let mut attrs = Attrs::new();
    attrs.insert("id".into(), id.into());
    attrs.insert("dev".into(), dev.into());
    if let Some(p) = parent {
        attrs.insert("archon.host-parent".into(), p.into());
    }
    attrs
}

fn recorded(id: &str, node: u64, dev: &str, parent: Option<&str>, graph_parent: u64, state: NodeState) -> RecordedDevice {
    RecordedDevice {
        stable_id: id.into(),
        node: NodeId(node),
        kind: ResourceClass::Gpu,
        attrs: recorded_attrs(id, dev, parent),
        parent: Some(NodeId(graph_parent)),
        state: Some(state),
    }
}

fn subtree(devices: Vec<RecordedDevice>) -> DeviceSubtree {
    DeviceSubtree {
        machine: NodeId(1),
        max_node_id: 20,
        hosts: vec![CommittedHost { host_id: "pcie/0".into(), node: NodeId(5) }],
        devices,
    }
}

#[test]
fn unchanged_devices_write_nothing() {
    let sub = subtree(vec![recorded("gpu0", 10, "/dev/nvidia0", None, 1, NodeState::Schedulable)]);
    let out = reconcile_device_subtree(&sub, &[spec("gpu0", "/dev/nvidia0", None)]).unwrap();
    assert!(out.nodes.is_empty());
    assert!(out.edges.is_empty());
    assert_eq!(out.reported, vec![NodeId(10)]);
    assert!(out.returning.is_empty());
    assert!(out.disappeared.is_empty());
}

#[test]
fn identity_survives_a_new_path_and_new_devices_get_fresh_ids() {
    let sub = subtree(vec![
        recorded("gpu0", 10, "/dev/nvidia0", None, 1, NodeState::Unavailable),
        recorded("gpu1", 11, "/dev/nvidia1", None, 1, NodeState::Schedulable),
    ]);
    let out = reconcile_device_subtree(
        &sub,
        &[spec("gpu0", "/dev/nvidia5", None), spec("gpu9", "/dev/nvidia9", Some("pcie/0"))],
    )
    .unwrap();
    assert_eq!(out.nodes.len(), 2);
    assert_eq!(out.nodes[0].id, NodeId(10));
    assert_eq!(out.nodes[0].attrs.get("dev"), Some("/dev/nvidia5".to_string()));
    assert_eq!(out.nodes[1].id, NodeId(21));
    assert_eq!(out.nodes[1].attrs.get("archon.host-parent"), Some("pcie/0".to_string()));
    assert_eq!(out.edges.len(), 1);
    assert_eq!((out.edges[0].from, out.edges[0].to), (NodeId(5), NodeId(21)));
    assert_eq!(out.reported, vec![NodeId(10)]);
    assert_eq!(out.returning, vec![NodeId(10)]);
    assert_eq!(out.disappeared, vec![NodeId(11)]);
}

#[test]
fn same_device_cannot_silently_move_between_host_domains() {
    let sub = DeviceSubtree {
        machine: NodeId(1),
        max_node_id: 20,
        hosts: vec![
            CommittedHost { host_id: "pcie/0".into(), node: NodeId(5) },
            CommittedHost { host_id: "pcie/1".into(), node: NodeId(6) },
        ],
        devices: vec![recorded("gpu0", 10, "/dev/nvidia0", Some("pcie/0"), 5, NodeState::Schedulable)],
    };
    assert_eq!(
        reconcile_device_subtree(&sub, &[spec("gpu0", "/dev/nvidia0", Some("pcie/1"))]).err().unwrap(),
        "device \"gpu0\" changed host containment from \"pcie/0\" to \"pcie/1\"; explicit topology reconciliation is required"
    );
    assert_eq!(
        reconcile_device_subtree(&sub, &[spec("gpu0", "/dev/nvidia0", None)]).err().unwrap(),
        "device \"gpu0\" withdrew authoritative host containment \"pcie/0\"; explicit topology reconciliation is required"
    );
}

#[test]
fn reconciliation_refusals() {
    let moved = subtree(vec![recorded("gpu0", 10, "/dev/nvidia0", None, 1, NodeState::Schedulable)]);
    assert_eq!(
        reconcile_device_subtree(&moved, &[spec("gpu0", "/dev/nvidia0", Some("pcie/0"))]).err().unwrap(),
        "device \"gpu0\" changed physical containment; explicit topology reconciliation is required"
    );
    assert_eq!(
        reconcile_device_subtree(&moved, &[spec("gpu0", "/dev/nvidia0", Some("pcie/9"))]).err().unwrap(),
        "unknown committed host parent \"pcie/9\""
    );
    let mut nic = spec("gpu0", "/dev/nvidia0", None);
    nic.kind = ResourceClass::Nic;
    assert_eq!(
        reconcile_device_subtree(&moved, &[nic]).err().unwrap(),
        "device \"gpu0\" changed resource class; replacement requires a new stable id"
    );
    let retired = subtree(vec![recorded("gpu0", 10, "/dev/nvidia0", None, 1, NodeState::Retired)]);
    assert_eq!(
        reconcile_device_subtree(&retired, &[spec("gpu0", "/dev/nvidia0", None)]).err().unwrap(),
        "device \"gpu0\" is retired; replacement requires a new stable id"
    );
}

#[test]
fn a_repeated_stable_id_gets_a_fresh_node() {
    let sub = subtree(vec![recorded("gpu0", 10, "/dev/nvidia0", None, 1, NodeState::Joining)]);
    let out = reconcile_device_subtree(&sub, &[spec("gpu0", "/dev/nvidia0", None), spec("gpu0", "/dev/nvidia0", None)]).unwrap();
    assert_eq!(out.nodes.len(), 1);
    assert_eq!(out.nodes[0].id, NodeId(21));
    assert_eq!(out.returning, vec![NodeId(10)]);
}

#[test]
fn access_paths_are_rewritten_and_dropped() {
    let mut with_access = recorded("gpu0", 10, "/dev/nvidia0", None, 1, NodeState::Schedulable);
    with_access.attrs.insert("access".into(), "[\"/dev/ctl\"]".into());
    let sub = subtree(vec![with_access]);
    let out = reconcile_device_subtree(&sub, &[spec("gpu0", "/dev/nvidia0", None)]).unwrap();
    assert_eq!(out.nodes.len(), 1);
    assert_eq!(out.nodes[0].attrs.get("access"), None);
    let mut again = spec("gpu0", "/dev/nvidia0", None);
    again.access = vec!["/dev/ctl".into()];
    let out = reconcile_device_subtree(&sub, &[again]).unwrap();
    assert!(out.nodes.is_empty());
}
