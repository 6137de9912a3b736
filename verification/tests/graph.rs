use archon_node::discover::{DeviceSpec, HostNodeSpec, MachineDescription};
use archon_node::graph::{
    build_graph, claim_bindings, id_less_exec, provider_fact_batches, sorted_indices, ClaimBinding, ClaimBindingUpdate,
    ProviderId, DEVICE_FACT_WRITER, HOST_FACT_WRITER,
};
use archon_node::model::{qty, Attrs, CapacityDimension, EdgeKind, NodeId, Quantity, ResourceClass};
use archon_node::protocol::BindingScope;

fn chars(s: &str) -> Vec<char> {
    s.chars().collect()
}

fn flat(cpus: u64, devices: Vec<DeviceSpec>) -> MachineDescription {
    MachineDescription {
        instance_id: "agent-1".into(),
        name: "box".into(),
        cpus,
        memory_bytes: 8192,
        host_nodes: Vec::new(),
        devices,
    }
}

fn device(id: &str, parent: Option<&str>, access: Vec<String>) -> DeviceSpec {
    DeviceSpec {
        kind: ResourceClass::Gpu,
        id: id.into(),
        dev: format!("/dev/{id}"),
        host_parent: parent.map(String::from),
        access,
        attrs: Attrs::new(),
    }
}

#[test]
fn flat_machine_numbers_memory_then_cpus_then_devices() {
    let (local, nodes, edges) = build_graph(&flat(2, vec![device("gpu0", None, Vec::new())]), 10);
    assert_eq!(local.machine, NodeId(11));
    assert_eq!(local.cpus, vec![NodeId(12), NodeId(13)]);
    assert_eq!(local.memory, vec![NodeId(14)]);
    let ids: Vec<u64> = nodes.iter().map(|n| n.id.0).collect();
    assert_eq!(ids, vec![11, 14, 12, 13, 15]);
    assert_eq!(nodes[0].kind, ResourceClass::Machine);
    assert_eq!(nodes[0].attrs.get("name"), Some("box".to_string()));
    assert_eq!(nodes[0].attrs.get("agent_id"), Some("agent-1".to_string()));
    assert_eq!(nodes[1].capacity, qty(CapacityDimension::Bytes, 8192));
    assert_eq!(nodes[2].capacity, qty(CapacityDimension::Count, 1));
    assert_eq!(nodes[4].attrs.get("id"), Some("gpu0".to_string()));
    assert_eq!(nodes[4].attrs.get("dev"), Some("/dev/gpu0".to_string()));
    assert_eq!(nodes[4].attrs.get("access"), None);
    let pairs: Vec<(u64, u64)> = edges.iter().map(|e| (e.from.0, e.to.0)).collect();
    assert_eq!(pairs, vec![(11, 14), (11, 12), (11, 13), (11, 15)]);
    assert!(edges.iter().all(|e| e.kind == EdgeKind::Contains));
}

#[test]
fn device_access_paths_are_written_as_json() {
    let (_, nodes, _) = build_graph(&flat(0, vec![device("gpu0", None, vec!["/dev/ctl".into(), "/dev/uvm".into()])]), 0);
    assert_eq!(nodes.last().unwrap().attrs.get("access"), Some("[\"/dev/ctl\",\"/dev/uvm\"]".to_string()));
}

#[test]
fn access_paths_are_escaped_as_json_strings() {
    let odd = "/dev/a\"b\\c\n\t\u{1}\u{1f}é".to_string();
    let (_, nodes, _) = build_graph(&flat(0, vec![device("gpu0", None, vec![odd, "/dev/x".into()])]), 0);
    assert_eq!(
        nodes.last().unwrap().attrs.get("access"),
        Some("[\"/dev/a\\\"b\\\\c\\n\\t\\u0001\\u001fé\",\"/dev/x\"]".to_string())
    );
}

#[test]
fn host_inventory_is_numbered_by_id_and_attached_to_parents() {
    let description = MachineDescription {
        instance_id: String::new(),
        name: "n".into(),
        cpus: 1,
        memory_bytes: 64,
        host_nodes: vec![
            HostNodeSpec { id: "numa/0".into(), kind: ResourceClass::Numa, parent: None, attrs: Attrs::new(), capacity: Quantity::new() },
            HostNodeSpec { id: "cpu/0".into(), kind: ResourceClass::Cpu, parent: Some("numa/0".into()), attrs: Attrs::new(), capacity: qty(CapacityDimension::Count, 1) },
            HostNodeSpec { id: "memory/0".into(), kind: ResourceClass::Memory, parent: Some("numa/0".into()), attrs: Attrs::new(), capacity: qty(CapacityDimension::Bytes, 64) },
        ],
        devices: vec![device("gpu0", Some("numa/0"), Vec::new())],
    };
    let (local, nodes, edges) = build_graph(&description, 0);
    // Sorted ids: cpu/0, memory/0, numa/0 get 2, 3, 4.
    assert_eq!(local.cpus, vec![NodeId(2)]);
    assert_eq!(local.memory, vec![NodeId(3)]);
    assert_eq!(nodes[3].attrs.get("archon.host-id"), Some("numa/0".to_string()));
    let pairs: Vec<(u64, u64)> = edges.iter().map(|e| (e.from.0, e.to.0)).collect();
    assert_eq!(pairs, vec![(4, 2), (4, 3), (1, 4), (4, 5)]);
    assert_eq!(nodes[4].attrs.get("archon.host-parent"), Some("numa/0".to_string()));
}

#[test]
fn ids_sort_as_text() {
    assert!(id_less_exec(&chars("a"), &chars("b")));
    assert!(id_less_exec(&chars("ab"), &chars("abc")));
    assert!(!id_less_exec(&chars("abc"), &chars("ab")));
    assert!(!id_less_exec(&chars("x"), &chars("x")));
    let ids = vec![chars("numa/1"), chars("cpu/10"), chars("cpu/2"), chars("numa/0")];
    assert_eq!(sorted_indices(&ids), vec![1, 2, 3, 0]);
}

#[test]
fn claim_contracts_follow_capacity() {
    let (_, nodes, _) = build_graph(&flat(1, vec![device("gpu0", None, Vec::new())]), 0);
    let updates = claim_bindings(&nodes);
    assert_eq!(
        updates,
        vec![
            ClaimBindingUpdate {
                node: NodeId(3),
                dimension: CapacityDimension::Bytes,
                binding: Some(ClaimBinding { provider: ProviderId::Enforce, scope: BindingScope::IndependentShare }),
            },
            ClaimBindingUpdate {
                node: NodeId(2),
                dimension: CapacityDimension::Count,
                binding: Some(ClaimBinding { provider: ProviderId::Enforce, scope: BindingScope::Exclusive }),
            },
            ClaimBindingUpdate {
                node: NodeId(4),
                dimension: CapacityDimension::Count,
                binding: Some(ClaimBinding { provider: ProviderId::Enforce, scope: BindingScope::Exclusive }),
            },
        ]
    );
    // Zero memory declares no contract.
    let mut empty = flat(0, Vec::new());
    empty.memory_bytes = 0;
    let (_, nodes, _) = build_graph(&empty, 0);
    assert!(claim_bindings(&nodes).is_empty());
}

#[test]
fn facts_split_between_host_and_device_writers() {
    let (_, nodes, edges) = build_graph(&flat(1, vec![device("gpu0", None, Vec::new())]), 0);
    let batches = provider_fact_batches(nodes, edges);
    assert_eq!(batches.len(), 2);
    assert_eq!(batches[0].writer, HOST_FACT_WRITER);
    assert_eq!(batches[0].nodes.iter().map(|n| n.id.0).collect::<Vec<_>>(), vec![1, 3, 2]);
    assert_eq!(batches[0].edges.len(), 2);
    assert_eq!(batches[1].writer, DEVICE_FACT_WRITER);
    assert_eq!(batches[1].nodes.iter().map(|n| n.id.0).collect::<Vec<_>>(), vec![4]);
    assert_eq!(batches[1].edges.iter().map(|e| e.to.0).collect::<Vec<_>>(), vec![4]);
    // Without devices only the host batch remains.
    let (_, nodes, edges) = build_graph(&flat(1, Vec::new()), 0);
    let batches = provider_fact_batches(nodes, edges);
    assert_eq!(batches.len(), 1);
    assert_eq!(batches[0].writer, HOST_FACT_WRITER);
    assert!(provider_fact_batches(Vec::new(), Vec::new()).is_empty());
}
