use archon_node::agent::{agent_action, agent_answer, endpoint_response, start_response, AgentAction, Performed};
use archon_node::protocol::ExecutionCapabilities;
use archon_node::runtime::WorkStatus;
use archon_node::discover::{HostNodeSpec, MachineDescription};
use archon_node::graph::{HOST_FACT_WRITER};
use archon_node::model::{qty, Attrs, CapacityDimension, NodeId, Quantity, ResourceClass};
use archon_node::protocol::{AgentRequest, AgentResponse, BindingScope};
use archon_node::provider::{EndpointGeneration, EndpointOp};
use archon_node::registration::{
    new_machine_facts, returning_after_restart, verify_registered_host, welcome_description, RecordedNode,
};
use archon_node::service::{
    binding_outcome, binding_request, rebind_target, reconcile_commands, start_failure_reason, start_outcome, status_outcome,
    BindingOutcome,
    BindingRecord, EffectPhase, MemberStatus, ReconcileCommand, StartOutcome, StatusOutcome,
};

fn flat(cpus: u64, memory_bytes: u64) -> MachineDescription {
    MachineDescription {
        instance_id: "a".into(),
        name: "m".into(),
        cpus,
        memory_bytes,
        host_nodes: Vec::new(),
        devices: Vec::new(),
    }
}

fn node(id: u64, kind: ResourceClass, capacity: Quantity, parent: u64) -> RecordedNode {
    RecordedNode { node: NodeId(id), kind, attrs: Attrs::new(), capacity, parent: Some(NodeId(parent)) }
}

fn host_node(id: u64, host_id: &str, kind: ResourceClass, parent: Option<u64>) -> RecordedNode {
    let mut attrs = Attrs::new();
    attrs.insert("archon.host-id".into(), host_id.into());
    RecordedNode { node: NodeId(id), kind, attrs, capacity: Quantity::new(), parent: parent.map(NodeId) }
}

#[test]
fn returning_flat_host_must_keep_its_cpu_and_memory_facts() {
    let recorded = vec![
        node(2, ResourceClass::Cpu, qty(CapacityDimension::Count, 1), 1),
        node(3, ResourceClass::Cpu, qty(CapacityDimension::Count, 1), 1),
        node(4, ResourceClass::Memory, qty(CapacityDimension::Bytes, 512), 1),
    ];
    assert!(verify_registered_host(NodeId(1), &recorded, &flat(2, 512)).is_ok());
    assert_eq!(
        verify_registered_host(NodeId(1), &recorded, &flat(3, 512)).unwrap_err(),
        "returning agent changed host CPU or memory facts"
    );
    assert!(verify_registered_host(NodeId(1), &recorded, &flat(2, 1024)).is_err());
    let mut recorded_host = recorded.clone();
    recorded_host.push(host_node(5, "numa/0", ResourceClass::Numa, Some(1)));
    assert_eq!(
        verify_registered_host(NodeId(1), &recorded_host, &flat(2, 512)).unwrap_err(),
        "returning agent omitted previously authoritative normalized host topology"
    );
}

fn spec(id: &str, kind: ResourceClass, parent: Option<&str>) -> HostNodeSpec {
    HostNodeSpec { id: id.into(), kind, parent: parent.map(String::from), attrs: Attrs::new(), capacity: Quantity::new() }
}

#[test]
fn returning_normalized_host_must_report_the_same_hosts() {
    let recorded = vec![
        host_node(2, "numa/0", ResourceClass::Numa, Some(1)),
        host_node(3, "cpu/0", ResourceClass::Cpu, Some(2)),
        node(9, ResourceClass::Gpu, qty(CapacityDimension::Count, 1), 1),
    ];
    let mut description = flat(1, 0);
    description.host_nodes = vec![spec("cpu/0", ResourceClass::Cpu, Some("numa/0")), spec("numa/0", ResourceClass::Numa, None)];
    assert!(verify_registered_host(NodeId(1), &recorded, &description).is_ok());
    description.host_nodes[0].parent = None;
    assert_eq!(
        verify_registered_host(NodeId(1), &recorded, &description).unwrap_err(),
        "returning agent changed authoritative host topology or capacity"
    );
    let orphan = vec![host_node(3, "cpu/0", ResourceClass::Cpu, None)];
    assert_eq!(verify_registered_host(NodeId(1), &orphan, &description).unwrap_err(), "host node \"cpu/0\" lost containment");
    let misplaced = vec![host_node(3, "cpu/0", ResourceClass::Cpu, Some(9)), node(9, ResourceClass::Gpu, Quantity::new(), 1)];
    assert_eq!(
        verify_registered_host(NodeId(1), &misplaced, &description).unwrap_err(),
        "host node \"cpu/0\" has a non-host containment parent"
    );
}

#[test]
fn welcome_carries_the_description() {
    let welcome = AgentResponse::Welcome {
        instance_id: "i".into(),
        name: "n".into(),
        cpus: 4,
        memory_bytes: 8,
        host_nodes: Vec::new(),
        devices: Vec::new(),
    };
    let d = welcome_description(welcome).unwrap();
    assert_eq!((d.instance_id.as_str(), d.name.as_str(), d.cpus, d.memory_bytes), ("i", "n", 4, 8));
    assert!(welcome_description(AgentResponse::Activated { binding: 1 }).is_none());
}

#[test]
fn restart_recovery_applies_to_known_machines_from_older_sessions() {
    assert!(returning_after_restart(false, Some(3), 10));
    assert!(!returning_after_restart(false, Some(10), 10));
    assert!(!returning_after_restart(true, Some(3), 10));
    assert!(!returning_after_restart(false, None, 10));
}

#[test]
fn new_machines_contribute_facts_and_contracts() {
    let (local, batches, claims) = new_machine_facts(&flat(1, 64), 100);
    assert_eq!(local.machine, NodeId(101));
    assert_eq!(batches.len(), 1);
    assert_eq!(batches[0].writer, HOST_FACT_WRITER);
    assert_eq!(batches[0].nodes.len(), 3);
    assert_eq!(claims.len(), 2);
}

fn record() -> BindingRecord {
    BindingRecord { binding: 5, lease: 6, node: 7, provider: 8, scope: BindingScope::Exclusive, session: 9, fence: 10 }
}

#[test]
fn binding_effects_become_agent_calls() {
    match binding_request(EffectPhase::Release, &record(), 11) {
        AgentRequest::Release { binding, lease, node, provider, scope, session, fence, epoch } => {
            assert_eq!((binding, lease, node, provider, session, fence, epoch), (5, 6, 7, 8, 9, 10, 11));
            assert_eq!(scope, BindingScope::Exclusive);
        }
        other => panic!("unexpected {other:?}"),
    }
    assert!(matches!(binding_request(EffectPhase::Prepare, &record(), 1), AgentRequest::Prepare { .. }));
    assert_eq!(rebind_target(9, Some(12)), Some(12));
    assert_eq!(rebind_target(9, Some(9)), None);
    assert_eq!(rebind_target(9, None), None);
    assert_eq!(
        reconcile_commands(&[(1, true), (2, false), (3, true)], 4),
        vec![
            ReconcileCommand::RebindSession { binding: 1, session: 4 },
            ReconcileCommand::ActivateBinding { binding: 1 },
            ReconcileCommand::RebindSession { binding: 3, session: 4 },
            ReconcileCommand::ActivateBinding { binding: 3 },
        ]
    );
}

#[test]
fn agent_answers_are_classified() {
    assert!(matches!(binding_outcome(Ok(AgentResponse::Prepared { binding: 1, handle: 4 })), BindingOutcome::Prepared { handle: 4 }));
    assert!(matches!(binding_outcome(Ok(AgentResponse::Logs { lease: 1, output: String::new() })), BindingOutcome::Unexpected));
    assert!(matches!(binding_outcome(Err("down".into())), BindingOutcome::Dropped { .. }));
    assert!(matches!(start_outcome(1, false, Ok(AgentResponse::ExecutionStarted { lease: 1 })), StartOutcome::Stale));
    assert!(matches!(start_outcome(1, true, Ok(AgentResponse::ExecutionStarted { lease: 1 })), StartOutcome::Started));
    assert!(matches!(start_outcome(1, true, Ok(AgentResponse::ExecutionStarted { lease: 2 })), StartOutcome::Unexpected { .. }));
    match start_outcome(1, true, Ok(AgentResponse::ExecutionFailed { lease: 1, reason: "boom".into() })) {
        StartOutcome::Failed { reason } => assert_eq!(reason, "boom"),
        _ => panic!("expected a failure"),
    }
    let report = Ok(AgentResponse::Running { lease: 1, running: false, exit_code: Some(0) });
    assert_eq!(status_outcome(false, report.clone()), StatusOutcome::Observed(MemberStatus { running: false, exit_code: Some(0) }));
    assert_eq!(status_outcome(true, report), StatusOutcome::Recovered(MemberStatus { running: false, exit_code: Some(0) }));
    assert_eq!(status_outcome(true, Err("x".into())), StatusOutcome::Recovered(MemberStatus { running: false, exit_code: None }));
    assert_eq!(status_outcome(false, Err("x".into())), StatusOutcome::Ignored);
}

#[test]
fn agent_requests_choose_their_component() {
    assert!(matches!(agent_action(&AgentRequest::Hello), AgentAction::Describe));
    match agent_action(&AgentRequest::Register {
        instance_id: String::new(),
        name: String::new(),
        cpus: 0,
        memory_bytes: 0,
        host_nodes: Vec::new(),
        devices: Vec::new(),
    }) {
        AgentAction::Refuse { binding, reason } => {
            assert_eq!(binding, 0);
            assert_eq!(reason, "Register is not handled by an agent");
        }
        _ => panic!("expected a refusal"),
    }
    let fence = AgentRequest::Fence { binding: 1, lease: 2, node: 3, provider: 4, scope: BindingScope::IndependentShare, session: 5, fence: 6, epoch: 7 };
    match agent_action(&fence) {
        AgentAction::Endpoint { op, generation, stop_lease } => {
            assert_eq!(op, EndpointOp::Fence);
            assert_eq!(generation, EndpointGeneration { binding: 1, node: 3, provider: 4, scope: BindingScope::IndependentShare, session: 5, fence: 6, epoch: 7 });
            assert_eq!(stop_lease, Some(2));
        }
        _ => panic!("expected an endpoint operation"),
    }
}

#[test]
fn endpoint_and_start_answers() {
    assert!(matches!(endpoint_response(EndpointOp::Prepare, 3, Ok(9), Ok(false)), AgentResponse::Prepared { binding: 3, handle: 9 }));
    assert!(matches!(endpoint_response(EndpointOp::Release, 3, Ok(0), Ok(true)), AgentResponse::Released { binding: 3 }));
    match endpoint_response(EndpointOp::Fence, 3, Ok(0), Err("stuck".into())) {
        AgentResponse::Failed { binding, reason } => assert_eq!((binding, reason.as_str()), (3, "stuck")),
        _ => panic!("expected a failure"),
    }
    match endpoint_response(EndpointOp::Activate, 3, Err("stale".into()), Ok(true)) {
        AgentResponse::Failed { reason, .. } => assert_eq!(reason, "stale"),
        _ => panic!("expected a failure"),
    }
    assert!(matches!(start_response(4, Ok(false), Ok(())), AgentResponse::ExecutionStarted { lease: 4 }));
    assert!(matches!(start_response(4, Err("stale agent session 1; current 2".into()), Ok(())), AgentResponse::ExecutionFailed { lease: 4, .. }));
}

#[test]
fn agent_answers_are_built_from_component_results() {
    let description = MachineDescription {
        instance_id: "ignored".into(),
        name: "discovered".into(),
        cpus: 2,
        memory_bytes: 512,
        host_nodes: Vec::new(),
        devices: Vec::new(),
    };
    match agent_answer("inst-1".into(), None, AgentAction::Describe, Performed::Described(Ok(description.clone()))) {
        AgentResponse::Welcome { instance_id, name, cpus, memory_bytes, .. } => {
            assert_eq!((instance_id.as_str(), name.as_str(), cpus, memory_bytes), ("inst-1", "discovered", 2, 512));
        }
        other => panic!("expected Welcome, got {other:?}"),
    }
    match agent_answer("inst-1".into(), Some("named".into()), AgentAction::Describe, Performed::Described(Ok(description))) {
        AgentResponse::Welcome { name, .. } => assert_eq!(name, "named"),
        other => panic!("expected Welcome, got {other:?}"),
    }
    match agent_answer("inst-1".into(), None, AgentAction::Describe, Performed::Described(Err("nvidia-smi timed out".into()))) {
        AgentResponse::Failed { binding, reason } => {
            assert_eq!((binding, reason.as_str()), (0, "device discovery incomplete: nvidia-smi timed out"))
        }
        other => panic!("expected Failed, got {other:?}"),
    }
    let refuse = AgentAction::Refuse { binding: 0, reason: "Register is not handled by an agent".into() };
    match agent_answer(String::new(), None, refuse, Performed::Nothing) {
        AgentResponse::Failed { binding, reason } => assert_eq!((binding, reason.as_str()), (0, "Register is not handled by an agent")),
        other => panic!("expected Failed, got {other:?}"),
    }
    assert!(matches!(
        agent_answer(String::new(), None, AgentAction::Observe { lease: 3 }, Performed::Observed(WorkStatus::Exited(7))),
        AgentResponse::Running { lease: 3, running: false, exit_code: Some(7) }
    ));
    assert!(matches!(
        agent_answer(String::new(), None, AgentAction::ReportCapabilities, Performed::Reported(ExecutionCapabilities::default())),
        AgentResponse::Capabilities { .. }
    ));
    let start = AgentAction::Start { lease: 4, session: 1, epoch: 1 };
    match agent_answer(String::new(), None, start, Performed::Start { authorized: Err("stale cluster epoch 1; current 2".into()), started: Ok(()) }) {
        AgentResponse::ExecutionFailed { lease, reason } => assert_eq!((lease, reason.as_str()), (4, "stale cluster epoch 1; current 2")),
        other => panic!("expected ExecutionFailed, got {other:?}"),
    }
}

#[test]
fn failed_starts_explain_the_machine_and_cause() {
    let machine = NodeId(12);
    let failed = start_outcome(1, true, Ok(AgentResponse::ExecutionFailed { lease: 1, reason: "no such file".into() }));
    assert_eq!(
        start_failure_reason(machine, &failed, "").as_deref(),
        Some("execution start failed on machine 12: no such file")
    );
    let unprovable = start_outcome(1, true, Err("agent gone".into()));
    assert_eq!(
        start_failure_reason(machine, &unprovable, "").as_deref(),
        Some("execution start on machine 12 became unprovable: agent gone")
    );
    let unexpected = start_outcome(1, true, Ok(AgentResponse::Activated { binding: 5 }));
    let rendered = match &unexpected {
        StartOutcome::Unexpected { response } => format!("{response:?}"),
        _ => panic!("expected an unexpected answer"),
    };
    assert_eq!(
        start_failure_reason(machine, &unexpected, &rendered),
        Some("execution start on machine 12 returned unexpected response: Activated { binding: 5 }".to_string())
    );
    assert_eq!(start_failure_reason(machine, &StartOutcome::Started, ""), None);
}
