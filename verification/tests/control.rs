use archon_node::model::{qty, CapacityDimension, NodeId, Quantity, ResourceClass};
use archon_node::protocol::BindingScope;
use archon_node::provider::{endpoint_admission, endpoint_key, ControlGeneration, EndpointGeneration, EndpointKey, EndpointOp};
use archon_node::service::{
    execution_start_targets, lease_limits_on_machine, recovered_member_outcome, resolve_observed_completion,
    restart_decision, restart_delay, ClaimView, MemberMachine, MemberStatus, RecoveredMember, RestartDecision,
};

#[test]
fn stale_cluster_epoch_is_rejected() {
    let mut control = ControlGeneration::new();
    // Prepare at session 3, epoch 9.
    assert!(control.check(3, 9).is_ok());
    // Activate at epoch 8 is stale.
    assert!(control.check(3, 8).is_err());
}

#[test]
fn control_generation_messages_and_advances() {
    let mut control = ControlGeneration::new();
    assert_eq!(control.check(2, 5), Ok(true));
    assert_eq!(control.check(2, 6), Ok(false));
    assert_eq!(control.check(1, 6).unwrap_err(), "stale agent session 1; current 2");
    assert_eq!(control.check(9, 4).unwrap_err(), "stale cluster epoch 4; current 6");
    assert_eq!(control, ControlGeneration { session: 2, epoch: 6 });
    assert_eq!(control.check(3, 6), Ok(true));
}

fn generation(binding: u64, scope: BindingScope) -> EndpointGeneration {
    EndpointGeneration { binding, node: 7, provider: 1, scope, session: 3, fence: 1, epoch: 1 }
}

#[test]
fn endpoints_are_keyed_by_scope() {
    assert_eq!(endpoint_key(generation(10, BindingScope::Exclusive)), EndpointKey::Exclusive { provider: 1, node: 7 });
    assert_eq!(endpoint_key(generation(11, BindingScope::Exclusive)), endpoint_key(generation(10, BindingScope::Exclusive)));
    assert_eq!(endpoint_key(generation(10, BindingScope::IndependentShare)), EndpointKey::IndependentShare { binding: 10 });
    assert_ne!(
        endpoint_key(generation(10, BindingScope::IndependentShare)),
        endpoint_key(generation(11, BindingScope::IndependentShare))
    );
}

#[test]
fn activation_without_preparation_adopts() {
    assert_eq!(endpoint_admission(EndpointOp::Activate, false), (true, true));
    assert_eq!(endpoint_admission(EndpointOp::Activate, true), (false, false));
    assert_eq!(endpoint_admission(EndpointOp::Prepare, true), (true, false));
    assert_eq!(endpoint_admission(EndpointOp::Fence, false), (true, false));
}

fn exited(code: i32) -> Option<MemberStatus> {
    Some(MemberStatus { running: false, exit_code: Some(code) })
}

#[test]
fn distributed_success_waits_for_every_member() {
    let running = Some(MemberStatus { running: true, exit_code: None });
    assert_eq!(resolve_observed_completion(&[exited(0), running]), None);
    assert_eq!(resolve_observed_completion(&[exited(0), None]), None);
    assert_eq!(resolve_observed_completion(&[exited(0), exited(0)]), Some(0));
    assert_eq!(resolve_observed_completion(&[]), None);
}

#[test]
fn distributed_failure_takes_the_first_failed_code() {
    let running = Some(MemberStatus { running: true, exit_code: None });
    assert_eq!(resolve_observed_completion(&[running, exited(3), exited(4)]), Some(3));
    assert_eq!(resolve_observed_completion(&[exited(0), exited(-1)]), Some(-1));
}

#[test]
fn recovered_members_need_proof() {
    assert_eq!(recovered_member_outcome(true, None), RecoveredMember::Adopt);
    assert_eq!(recovered_member_outcome(false, Some(0)), RecoveredMember::Adopt);
    assert_eq!(recovered_member_outcome(false, None), RecoveredMember::Revoke);
}

#[test]
fn restarts_back_off_exponentially_up_to_a_cap() {
    let delays: Vec<u64> = (0..9).map(restart_delay).collect();
    assert_eq!(delays, vec![1, 2, 4, 8, 16, 32, 60, 60, 60]);
    assert_eq!(restart_decision(0, 0, 100), RestartDecision::Restart);
    assert_eq!(restart_decision(2, 100, 103), RestartDecision::Backoff);
    assert_eq!(restart_decision(2, 100, 104), RestartDecision::Restart);
    assert_eq!(restart_decision(5, 0, 1000), RestartDecision::CapExceeded);
    assert_eq!(restart_decision(4, u64::MAX - 1, u64::MAX), RestartDecision::Restart);
}

fn claim(machine: u64, kind: ResourceClass, quantity: Quantity) -> ClaimView {
    ClaimView { node: NodeId(99), machine: Some(NodeId(machine)), kind: Some(kind), quantity }
}

#[test]
fn machine_limits_count_only_local_claims() {
    let claims = [
        claim(1, ResourceClass::Cpu, qty(CapacityDimension::Count, 1)),
        claim(1, ResourceClass::Cpu, qty(CapacityDimension::Count, 2)),
        claim(2, ResourceClass::Cpu, qty(CapacityDimension::Count, 8)),
        claim(1, ResourceClass::Memory, qty(CapacityDimension::Bytes, 4096)),
        claim(1, ResourceClass::Gpu, qty(CapacityDimension::Count, 1)),
    ];
    let limits = lease_limits_on_machine(&claims, NodeId(1));
    assert_eq!((limits.cpu_count, limits.memory_bytes), (3, 4096));
    let limits = lease_limits_on_machine(&claims, NodeId(2));
    assert_eq!((limits.cpu_count, limits.memory_bytes), (8, 0));
}

use archon_node::graph::ProviderId;
use archon_node::model::Attrs;
use archon_node::protocol::{ExecutionCapabilities, RuntimeCapabilities};
use archon_node::service::{claim_enforceable, execution_excluded, lease_devices_for_machine, DeviceClaim};

fn caps(process: RuntimeCapabilities) -> Option<ExecutionCapabilities> {
    Some(ExecutionCapabilities { process, container: RuntimeCapabilities::default() })
}

#[test]
fn executable_work_is_excluded_where_it_cannot_be_enforced() {
    let lifecycle_only = RuntimeCapabilities { available: true, ..RuntimeCapabilities::default() };
    let cgroups = RuntimeCapabilities {
        available: true,
        cpu_limit: true,
        memory_limit: true,
        device_isolation: true,
        physical_cpu_placement: false,
        numa_memory_placement: false,
    };
    let cpu = [ResourceClass::Cpu];
    assert!(execution_excluded(caps(lifecycle_only), false, &cpu, false, false));
    assert!(!execution_excluded(caps(cgroups), false, &cpu, false, false));
    assert!(execution_excluded(caps(cgroups), false, &cpu, true, false));
    assert!(!execution_excluded(caps(cgroups), false, &[ResourceClass::Gpu], true, true));
    assert!(execution_excluded(None, false, &[], false, false));
    assert!(execution_excluded(caps(cgroups), true, &[], false, false), "containers unavailable");
}

#[test]
fn only_enforced_kinds_under_this_provider_are_claimable() {
    assert!(claim_enforceable(ProviderId::Enforce, ResourceClass::Cpu));
    assert!(claim_enforceable(ProviderId::Enforce, ResourceClass::Nvme));
    assert!(!claim_enforceable(ProviderId::Enforce, ResourceClass::Numa));
    assert!(!claim_enforceable(ProviderId::External(99), ResourceClass::Cpu));
}

#[test]
fn device_claims_resolve_to_host_paths() {
    let mut attrs = Attrs::new();
    attrs.insert("id".into(), "gpu0".into());
    attrs.insert("dev".into(), "/dev/nvidia0".into());
    let claims = vec![
        DeviceClaim { machine: Some(NodeId(1)), kind: Some(ResourceClass::Gpu), attrs: Some(attrs.copied()) },
        DeviceClaim { machine: Some(NodeId(2)), kind: Some(ResourceClass::Gpu), attrs: Some(attrs.copied()) },
        DeviceClaim { machine: Some(NodeId(1)), kind: Some(ResourceClass::Cpu), attrs: Some(attrs.copied()) },
        DeviceClaim { machine: Some(NodeId(1)), kind: Some(ResourceClass::Nic), attrs: None },
    ];
    let local = lease_devices_for_machine(&claims, Some(NodeId(1)));
    assert_eq!(local.len(), 1);
    assert_eq!(local[0].dev, "/dev/nvidia0");
    assert_eq!(lease_devices_for_machine(&claims, None).len(), 2);
}

fn member(machine: u64, recovering: bool, session: Option<u64>, started: bool) -> MemberMachine {
    MemberMachine { machine: NodeId(machine), recovering, session, started }
}

#[test]
fn execution_starts_only_once_every_provider_is_active() {
    let machines = [
        member(1, false, Some(4), false),
        member(2, true, Some(5), false),
        member(3, false, None, false),
        member(4, false, Some(6), true),
        member(5, false, Some(7), false),
    ];
    let ready = [(true, true), (true, true)];
    assert_eq!(execution_start_targets(true, true, &ready, &machines), vec![(NodeId(1), 4), (NodeId(5), 7)]);
    assert!(execution_start_targets(true, true, &[(true, true), (true, false)], &machines).is_empty());
    assert!(execution_start_targets(true, true, &[(false, true)], &machines).is_empty());
    assert!(execution_start_targets(true, true, &[], &machines).is_empty());
    assert!(execution_start_targets(false, true, &ready, &machines).is_empty());
    assert!(execution_start_targets(true, false, &ready, &machines).is_empty());
}
