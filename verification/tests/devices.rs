use archon_node::discover::{validate_machine_description, DeviceSpec, MachineDescription};
use archon_node::graph::build_graph;
use archon_node::model::{Attrs, NodeId, ResourceClass};
use archon_node::reconcile::{
    device_state_changes, disappeared_reason, reconcile_device_subtree, DeviceSubtree, LeaseNodes, NodeState, RecordedDevice,
    StateChange,
};
use archon_node::registration::{machine_for_instance, returning_host_check, validated_machine_facts, RecordedNode};
use archon_node::service::{lease_devices_for_machine, DeviceClaim};

fn description(instance: &str, gpu_dev: &str) -> MachineDescription {
    MachineDescription {
        instance_id: instance.into(),
        name: "gpu-box".into(),
        cpus: 2,
        memory_bytes: 0,
        host_nodes: Vec::new(),
        devices: vec![DeviceSpec {
            kind: ResourceClass::Gpu,
            id: "gpu0".into(),
            dev: gpu_dev.into(),
            host_parent: None,
            access: Vec::new(),
            attrs: Attrs::new(),
        }],
    }
}

/// The recorded device subtree of a machine registered from `description`
/// with its device nodes in `states`, numbered as the graph numbers them.
fn recorded_subtree(description: &MachineDescription, states: &[NodeState]) -> DeviceSubtree {
    let (local, nodes, edges) = build_graph(description, 0);
    let devices = nodes
        .iter()
        .filter(|n| n.kind.is_device())
        .zip(states)
        .map(|(n, state)| RecordedDevice {
            stable_id: n.attrs.get("id").unwrap(),
            node: n.id,
            kind: n.kind,
            attrs: n.attrs.copied(),
            parent: edges.iter().find(|e| e.to == n.id).map(|e| e.from),
            state: Some(*state),
        })
        .collect();
    DeviceSubtree {
        machine: local.machine,
        max_node_id: nodes.iter().map(|n| n.id.0).max().unwrap(),
        hosts: Vec::new(),
        devices,
    }
}

fn gpu_node(subtree: &DeviceSubtree) -> NodeId {
    subtree.devices[0].node
}

#[test]
fn provider_support_paths_follow_one_device_claim() {
    let mut description = description("inst-paths", "/dev/null");
    description.devices[0].access = vec!["/dev/zero".into()];
    description.devices[0].attrs.insert("cdi".into(), "nvidia.com/gpu=gpu0".into());
    let (local, nodes, _edges) = build_graph(&description, 0);
    let gpu = nodes.iter().find(|n| n.kind == ResourceClass::Gpu).unwrap();
    let claims = [DeviceClaim {
        machine: Some(local.machine),
        kind: Some(gpu.kind),
        attrs: Some(gpu.attrs.copied()),
    }];
    let devices = lease_devices_for_machine(&claims, Some(local.machine));
    assert_eq!(devices[0].dev, "/dev/null");
    assert_eq!(devices[0].paths, vec!["/dev/zero"]);
    assert_eq!(devices[0].cdi.as_deref(), Some("nvidia.com/gpu=gpu0"));
}

#[test]
fn device_identity_survives_re_registration_with_new_path() {
    let recorded = recorded_subtree(&description("inst-dev", "/dev/gpuA"), &[NodeState::Schedulable]);
    let gpu = gpu_node(&recorded);
    assert_eq!(recorded.devices[0].attrs.get("dev"), Some("/dev/gpuA".to_string()));

    // The agent returns with the same device id behind a new host path.
    let out = reconcile_device_subtree(&recorded, &description("inst-dev", "/dev/gpuB").devices).unwrap();

    // Same node, refreshed path.
    assert_eq!(out.nodes.len(), 1, "no duplicate device node");
    assert_eq!(out.nodes[0].id, gpu);
    assert_eq!(out.nodes[0].attrs.get("dev"), Some("/dev/gpuB".to_string()));
    assert_eq!(out.nodes[0].attrs.get("id"), Some("gpu0".to_string()));
    assert!(out.edges.is_empty());
    assert_eq!(out.reported, vec![gpu]);
    assert!(out.disappeared.is_empty());
}

#[test]
fn re_registration_adds_and_refreshes_without_spurious_revisions() {
    let recorded = recorded_subtree(&description("inst-add", "/dev/gpuA"), &[NodeState::Schedulable]);
    let gpu = gpu_node(&recorded);

    // Identical declaration: nothing to reconcile.
    let out = reconcile_device_subtree(&recorded, &description("inst-add", "/dev/gpuA").devices).unwrap();
    assert!(out.nodes.is_empty(), "identical declaration must not advance the graph");
    assert!(out.edges.is_empty());

    // One path refresh plus one brand-new device.
    let mut updated = description("inst-add", "/dev/gpuC");
    updated.devices.push(DeviceSpec {
        kind: ResourceClass::Nvme,
        id: "nvme0".into(),
        dev: "/dev/nvme0n1".into(),
        host_parent: None,
        access: Vec::new(),
        attrs: Attrs::new(),
    });
    let out = reconcile_device_subtree(&recorded, &updated.devices).unwrap();
    let nvme: Vec<_> = out.nodes.iter().filter(|n| n.kind == ResourceClass::Nvme).collect();
    assert_eq!(nvme.len(), 1, "new device added");
    assert!(nvme[0].id.0 > recorded.max_node_id);
    assert_eq!(out.edges.len(), 1);
    assert_eq!((out.edges[0].from, out.edges[0].to), (recorded.machine, nvme[0].id));
    let gpus: Vec<_> = out.nodes.iter().filter(|n| n.kind == ResourceClass::Gpu).collect();
    assert_eq!(gpus.len(), 1);
    assert_eq!(gpus[0].id, gpu);
    assert_eq!(gpus[0].attrs.get("dev"), Some("/dev/gpuC".to_string()), "path refreshed in place");
}

#[test]
fn provider_disappearance_blocks_placement_and_same_id_reappears() {
    let recorded = recorded_subtree(&description("inst-disappear", "/dev/gpuA"), &[NodeState::Schedulable]);
    let gpu = gpu_node(&recorded);

    let out = reconcile_device_subtree(&recorded, &[]).unwrap();
    assert_eq!(out.disappeared, vec![gpu]);
    assert!(out.nodes.is_empty(), "disappearance preserves the stable identity record");

    let unavailable = recorded_subtree(&description("inst-disappear", "/dev/gpuA"), &[NodeState::Unavailable]);
    let out = reconcile_device_subtree(&unavailable, &description("inst-disappear", "/dev/gpuB").devices).unwrap();
    assert_eq!(out.returning, vec![gpu]);
    assert_eq!(out.reported, vec![gpu]);
    assert_eq!(out.nodes.len(), 1);
    assert_eq!(out.nodes[0].id, gpu);
    assert_eq!(out.nodes[0].attrs.get("dev"), Some("/dev/gpuB".to_string()));
}

#[test]
fn replacement_at_the_same_path_gets_a_new_identity() {
    let recorded = recorded_subtree(&description("inst-replace", "/dev/gpuA"), &[NodeState::Schedulable]);
    let original = gpu_node(&recorded);

    let mut replacement = description("inst-replace", "/dev/gpuA");
    replacement.devices[0].id = "gpu1".into();
    let out = reconcile_device_subtree(&recorded, &replacement.devices).unwrap();

    assert_eq!(out.disappeared, vec![original]);
    assert_eq!(out.nodes.len(), 1);
    let fresh = &out.nodes[0];
    assert_ne!(fresh.id, original);
    assert_eq!(fresh.attrs.get("id"), Some("gpu1".to_string()));
    assert_eq!(
        fresh.attrs.get("dev"),
        Some("/dev/gpuA".to_string()),
        "host-path reuse does not reuse the old provider identity"
    );
    assert_eq!(recorded.devices[0].attrs.get("id"), Some("gpu0".to_string()));
}

#[test]
fn initial_registration_rejects_invalid_device_inventory() {
    let mut duplicate = description("inst-invalid", "/dev/gpuA");
    duplicate.devices.push(duplicate.devices[0].clone());
    assert!(validate_machine_description(&duplicate).is_err());

    let mut invalid_kind = description("inst-invalid-kind", "/dev/gpuA");
    invalid_kind.devices[0].kind = ResourceClass::Cpu;
    assert!(validate_machine_description(&invalid_kind).is_err());
}

#[test]
fn nested_device_reconciliation_preserves_topology_parent() {
    let machine = NodeId(100);
    let numa = NodeId(101);
    let gpu = NodeId(102);
    let mut gpu_attrs = Attrs::new();
    gpu_attrs.insert("id".into(), "gpu0".into());
    gpu_attrs.insert("dev".into(), "/dev/gpuA".into());
    let nested = |state: NodeState| DeviceSubtree {
        machine,
        max_node_id: 105,
        hosts: Vec::new(),
        devices: vec![RecordedDevice {
            stable_id: "gpu0".into(),
            node: gpu,
            kind: ResourceClass::Gpu,
            attrs: gpu_attrs.copied(),
            parent: Some(numa),
            state: Some(state),
        }],
    };

    let out = reconcile_device_subtree(&nested(NodeState::Schedulable), &description("inst-nested", "/dev/gpuB").devices)
        .expect("reconcile nested device");
    assert_eq!(out.nodes.len(), 1, "stable provider identity must not duplicate a nested device");
    assert_eq!(out.nodes[0].id, gpu);
    assert!(out.edges.is_empty(), "path refresh must preserve provider-independent topology containment");
    assert_eq!(out.nodes[0].attrs.get("dev"), Some("/dev/gpuB".to_string()));

    let out = reconcile_device_subtree(&nested(NodeState::Schedulable), &[]).expect("nested device disappearance");
    assert_eq!(out.disappeared, vec![gpu]);
    assert!(out.edges.is_empty());

    let out = reconcile_device_subtree(&nested(NodeState::Unavailable), &description("inst-nested", "/dev/gpuC").devices)
        .expect("nested device reappearance");
    assert_eq!(out.returning, vec![gpu]);
    assert!(out.edges.is_empty());
    assert_eq!(out.nodes[0].attrs.get("dev"), Some("/dev/gpuC".to_string()));
}

#[test]
fn provider_disappearance_fails_and_fences_a_live_device_claim() {
    let recorded = recorded_subtree(&description("inst-live", "/dev/null"), &[NodeState::Schedulable]);
    let gpu = gpu_node(&recorded);
    // Lease 1 is preparing with a claim on the GPU.
    let leases = [LeaseNodes { lease: 1, live: true, nodes: vec![gpu] }];

    let out = reconcile_device_subtree(&recorded, &[]).expect("provider reports disappearance");
    assert_eq!(out.disappeared, vec![gpu]);
    let gone = [(gpu, Some(NodeState::Schedulable))];
    let changes = device_state_changes(&gone, &leases, &[]);
    assert_eq!(
        changes,
        vec![StateChange::SetNodeState { node: gpu, state: NodeState::Unavailable }, StateChange::FailLease { lease: 1 }],
        "work using vanished hardware follows the workload-failure path"
    );
    assert_eq!(disappeared_reason(), "provider resource disappeared");

    // The same stable device returns after fencing.
    let unavailable = recorded_subtree(&description("inst-live", "/dev/null"), &[NodeState::Unavailable]);
    let out = reconcile_device_subtree(&unavailable, &description("inst-live", "/dev/zero").devices)
        .expect("same stable device returns after fencing");
    assert_eq!(out.returning, vec![gpu]);
    let changes = device_state_changes(&[], &[], &[(gpu, Some(NodeState::Unavailable), false)]);
    assert_eq!(
        changes,
        vec![
            StateChange::SetNodeState { node: gpu, state: NodeState::Joining },
            StateChange::SetNodeState { node: gpu, state: NodeState::Schedulable },
        ]
    );
}

#[test]
fn returning_devices_wait_for_open_bindings_and_ended_leases_stay() {
    let gpu = NodeId(7);
    let leases = [
        LeaseNodes { lease: 1, live: false, nodes: vec![gpu] },
        LeaseNodes { lease: 2, live: true, nodes: vec![NodeId(8)] },
    ];
    assert!(device_state_changes(&[(gpu, Some(NodeState::Unavailable))], &leases, &[]).is_empty());
    assert_eq!(
        device_state_changes(&[], &[], &[(gpu, Some(NodeState::Unavailable), true)]),
        vec![StateChange::SetNodeState { node: gpu, state: NodeState::Joining }]
    );
    assert_eq!(
        device_state_changes(&[], &[], &[(gpu, Some(NodeState::Joining), false)]),
        vec![StateChange::SetNodeState { node: gpu, state: NodeState::Schedulable }]
    );
    assert!(device_state_changes(&[], &[], &[(gpu, Some(NodeState::Schedulable), false)]).is_empty());
}

#[test]
fn returning_agent_with_changed_host_shape_fails_closed() {
    let first = description("inst-host-change", "/dev/gpuA");
    let (local, batches, _claims) = validated_machine_facts(&first, 0).expect("first registration");
    let machine = local.machine;
    let recorded: Vec<RecordedNode> = batches
        .iter()
        .flat_map(|b| b.nodes.iter().map(move |n| (n, b)))
        .filter(|(n, _)| n.id != machine)
        .map(|(n, b)| RecordedNode {
            node: n.id,
            kind: n.kind,
            attrs: n.attrs.copied(),
            capacity: n.capacity,
            parent: b.edges.iter().find(|e| e.to == n.id).map(|e| e.from),
        })
        .collect();
    assert!(returning_host_check(machine, Some(NodeState::Schedulable), &recorded, &first).is_ok());

    let mut changed = description("inst-host-change", "/dev/gpuA");
    changed.cpus = 3;
    let err = returning_host_check(machine, Some(NodeState::Schedulable), &recorded, &changed)
        .expect_err("changed host facts must not be silently accepted");
    assert!(err.message.contains("host inventory changed"));
    assert!(err.mark_unavailable);
    let err = returning_host_check(machine, Some(NodeState::Retired), &recorded, &changed).unwrap_err();
    assert!(!err.mark_unavailable);
}

#[test]
fn registering_agents_are_found_by_instance_id() {
    let (a, _, _) = validated_machine_facts(&description("inst-a", "/dev/gpuA"), 0).unwrap();
    let (b, _, _) = validated_machine_facts(&description("inst-b", "/dev/gpuA"), 10).unwrap();
    let mut attrs_a = Attrs::new();
    attrs_a.insert("agent_id".into(), "inst-a".into());
    let mut attrs_b = Attrs::new();
    attrs_b.insert("agent_id".into(), "inst-b".into());
    let machines = [(a.machine, attrs_a), (b.machine, attrs_b)];
    assert_eq!(machine_for_instance(&machines, "inst-a"), Some(a.machine));
    assert_eq!(machine_for_instance(&machines, "inst-b"), Some(b.machine));
    assert_eq!(machine_for_instance(&machines, "inst-c"), None);
    assert_ne!(a.machine, b.machine);

    let mut invalid = description("inst-invalid", "/dev/gpuA");
    invalid.devices[0].kind = ResourceClass::Cpu;
    assert!(validated_machine_facts(&invalid, 0).is_err());
}
