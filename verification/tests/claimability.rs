use archon_node::discover::{DeviceSpec, MachineDescription};
use archon_node::graph::{build_graph, ClaimBinding, ClaimBindingUpdate, ProviderId, DEVICE_FACT_WRITER, HOST_FACT_WRITER};
use archon_node::model::{Attrs, CapacityDimension, Edge, Node, NodeId, ResourceClass};
use archon_node::ownership::{
    current_fact_writer_assignments, missing_claim_contracts, missing_fact_writer_assignments, FactEdge,
    OwnershipConflict,
};
use archon_node::protocol::BindingScope;

fn older_description() -> MachineDescription {
    MachineDescription {
        instance_id: "legacy-claimability-agent".into(),
        name: "legacy-claimability-agent".into(),
        cpus: 1,
        memory_bytes: 1 << 30,
        host_nodes: Vec::new(),
        devices: Vec::new(),
    }
}

fn older_device(id: &str, dev: &str) -> DeviceSpec {
    DeviceSpec {
        kind: ResourceClass::Gpu,
        id: id.into(),
        dev: dev.into(),
        host_parent: None,
        access: Vec::new(),
        attrs: Attrs::new(),
    }
}

fn of_class(nodes: &[Node], kind: ResourceClass) -> NodeId {
    nodes.iter().find(|n| n.kind == kind).map(|n| n.id).unwrap()
}

fn device_node(nodes: &[Node], stable_id: &str) -> NodeId {
    nodes
        .iter()
        .find(|n| n.kind == ResourceClass::Gpu && n.attrs.get("id").is_some_and(|id| id == stable_id))
        .map(|n| n.id)
        .expect("device is present in the recorded graph")
}

fn enforce(scope: BindingScope) -> ClaimBinding {
    ClaimBinding { provider: ProviderId::Enforce, scope }
}

fn foreign() -> ClaimBinding {
    ClaimBinding { provider: ProviderId::External(99), scope: BindingScope::Exclusive }
}

fn older_graph(description: &MachineDescription) -> (Vec<Node>, Vec<Edge>) {
    let (_local, nodes, edges) = build_graph(description, 0);
    (nodes, edges)
}

#[test]
fn returning_agent_backfills_claim_contracts_missing_from_older_graph_state() {
    let description = older_description();
    let (nodes, edges) = older_graph(&description);
    let machine = of_class(&nodes, ResourceClass::Machine);
    let cpu = of_class(&nodes, ResourceClass::Cpu);
    let memory = of_class(&nodes, ResourceClass::Memory);

    let missing = missing_fact_writer_assignments(&nodes, &edges, &description.devices, &[], &[])
        .expect("validated returning agent backfills current provider contracts");
    assert_eq!(missing.len(), 1);
    assert_eq!(missing[0].writer, HOST_FACT_WRITER);
    assert!(missing[0].nodes.contains(&machine));
    assert!(missing[0].nodes.contains(&cpu));
    assert!(missing[0].nodes.contains(&memory));

    let claims = missing_claim_contracts(&nodes, &description.devices, &[]).unwrap();
    assert!(claims.contains(&ClaimBindingUpdate {
        node: cpu,
        dimension: CapacityDimension::Count,
        binding: Some(enforce(BindingScope::Exclusive)),
    }));
    assert!(claims.contains(&ClaimBindingUpdate {
        node: memory,
        dimension: CapacityDimension::Bytes,
        binding: Some(enforce(BindingScope::IndependentShare)),
    }));
}

#[test]
fn returning_agent_never_overwrites_a_conflicting_claim_provider() {
    let description = older_description();
    let (nodes, _edges) = older_graph(&description);
    let cpu = of_class(&nodes, ResourceClass::Cpu);
    let recorded = [(cpu, CapacityDimension::Count, foreign())];

    let error = missing_claim_contracts(&nodes, &description.devices, &recorded)
        .expect_err("returning agent must not steal another provider's claim contract");
    assert!(error.explanation().contains("already belongs to provider"));
    assert_eq!(
        error,
        OwnershipConflict::Claim {
            node: cpu,
            dimension: CapacityDimension::Count,
            recorded: foreign(),
            reported: enforce(BindingScope::Exclusive),
        }
    );
}

#[test]
fn returning_agent_backfills_only_devices_in_current_provider_inventory() {
    let mut older = older_description();
    older.devices = vec![older_device("gpu-keep", "/dev/gpu-keep"), older_device("gpu-gone", "/dev/gpu-gone")];
    let (nodes, edges) = older_graph(&older);
    let kept = device_node(&nodes, "gpu-keep");
    let gone = device_node(&nodes, "gpu-gone");

    let returning = vec![older_device("gpu-keep", "/dev/gpu-keep")];
    let missing = missing_fact_writer_assignments(&nodes, &edges, &returning, &[], &[])
        .expect("current provider inventory reconciles");
    let device = missing.iter().find(|a| a.writer == DEVICE_FACT_WRITER).unwrap();
    assert_eq!(device.nodes, vec![kept]);
    assert!(missing.iter().all(|a| !a.nodes.contains(&gone)));
    assert!(missing.iter().all(|a| a.edges.iter().all(|e| e.to != gone)));

    let claims = missing_claim_contracts(&nodes, &returning, &[]).unwrap();
    assert!(claims.contains(&ClaimBindingUpdate {
        node: kept,
        dimension: CapacityDimension::Count,
        binding: Some(enforce(BindingScope::Exclusive)),
    }));
    assert!(claims.iter().all(|u| u.node != gone));
}

#[test]
fn returning_device_fact_change_never_overwrites_conflicting_provider_contract() {
    let mut older = older_description();
    older.devices = vec![older_device("gpu-1", "/dev/gpu-old")];
    let (nodes, _edges) = older_graph(&older);
    let gpu = device_node(&nodes, "gpu-1");
    let recorded = [(gpu, CapacityDimension::Count, foreign())];

    let returning = vec![older_device("gpu-1", "/dev/gpu-new")];
    let error = missing_claim_contracts(&nodes, &returning, &recorded)
        .expect_err("device fact refresh must not steal another provider contract");
    assert!(error.explanation().contains("already belongs to provider"));
    assert!(matches!(error, OwnershipConflict::Claim { node, .. } if node == gpu));
}

#[test]
fn returning_host_contract_conflict_prevents_device_reconciliation_mutation() {
    let mut older = older_description();
    older.devices = vec![older_device("gpu-1", "/dev/gpu-old")];
    let (nodes, _edges) = older_graph(&older);
    let cpu = of_class(&nodes, ResourceClass::Cpu);
    let recorded = [(cpu, CapacityDimension::Count, foreign())];

    let returning = vec![older_device("gpu-1", "/dev/gpu-new")];
    let error = missing_claim_contracts(&nodes, &returning, &recorded)
        .expect_err("host provider conflict must fail before device reconciliation");
    assert!(error.explanation().contains("already belongs to provider"));
    assert!(matches!(error, OwnershipConflict::Claim { node, .. } if node == cpu));
}

#[test]
fn returning_host_writer_conflict_prevents_device_fact_mutation() {
    let mut older = older_description();
    older.devices = vec![older_device("gpu-1", "/dev/gpu-old")];
    let (nodes, edges) = older_graph(&older);
    let cpu = of_class(&nodes, ResourceClass::Cpu);

    let returning = vec![older_device("gpu-1", "/dev/gpu-new")];
    let error = missing_fact_writer_assignments(&nodes, &edges, &returning, &[(cpu, 77)], &[])
        .expect_err("discovery writer conflict must fail before device reconciliation");
    assert!(error.explanation().contains("discovery writer"));
    assert_eq!(error, OwnershipConflict::Node { node: cpu, owner: 77, expected: HOST_FACT_WRITER });
}

#[test]
fn facts_already_owned_by_their_writer_are_not_adopted_again() {
    let mut older = older_description();
    older.devices = vec![older_device("gpu-1", "/dev/gpu-1")];
    let (nodes, edges) = older_graph(&older);
    let expected = current_fact_writer_assignments(&nodes, &edges, &older.devices);
    assert_eq!(expected.len(), 2);
    assert_eq!(expected[0].writer, HOST_FACT_WRITER);
    assert_eq!(expected[1].writer, DEVICE_FACT_WRITER);
    let node_owners: Vec<(NodeId, u64)> =
        expected.iter().flat_map(|a| a.nodes.iter().map(move |n| (*n, a.writer))).collect();
    let edge_owners: Vec<(FactEdge, u64)> =
        expected.iter().flat_map(|a| a.edges.iter().map(move |e| (*e, a.writer))).collect();
    let missing = missing_fact_writer_assignments(&nodes, &edges, &older.devices, &node_owners, &edge_owners).unwrap();
    assert!(missing.is_empty());
    let gpu = device_node(&nodes, "gpu-1");
    let edge = *expected[1].edges.iter().find(|e| e.to == gpu).unwrap();
    let error = missing_fact_writer_assignments(&nodes, &edges, &older.devices, &[], &[(edge, HOST_FACT_WRITER)])
        .unwrap_err();
    assert_eq!(error, OwnershipConflict::Edge { edge, owner: HOST_FACT_WRITER, expected: DEVICE_FACT_WRITER });
    assert_eq!(
        error.explanation(),
        format!("resource edge {} -> {} Contains already belongs to discovery writer 1; returning agent expects 2", edge.from.0, edge.to.0)
    );
}

#[test]
fn recorded_claim_contracts_are_not_rebound() {
    let description = older_description();
    let (nodes, _edges) = older_graph(&description);
    let all = missing_claim_contracts(&nodes, &description.devices, &[]).unwrap();
    let recorded: Vec<(NodeId, CapacityDimension, ClaimBinding)> =
        all.iter().map(|u| (u.node, u.dimension, u.binding.unwrap())).collect();
    assert!(missing_claim_contracts(&nodes, &description.devices, &recorded).unwrap().is_empty());
    let cpu = of_class(&nodes, ResourceClass::Cpu);
    let error = OwnershipConflict::Claim {
        node: cpu,
        dimension: CapacityDimension::Count,
        recorded: foreign(),
        reported: enforce(BindingScope::Exclusive),
    };
    assert_eq!(
        error.explanation(),
        format!(
            "resource {} dimension count already belongs to provider 99 with exclusive scope; returning agent reports provider enforce with exclusive scope",
            cpu.0
        )
    );
}
