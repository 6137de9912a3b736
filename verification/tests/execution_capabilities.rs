use archon_node::model::ResourceClass;
use archon_node::protocol::{ExecutionCapabilities, RuntimeCapabilities};
use archon_node::service::execution_excluded;

/// What a process runtime proves without a usable cgroup root: it can
/// run and observe processes, and enforces nothing.
fn lifecycle_only() -> ExecutionCapabilities {
    ExecutionCapabilities {
        process: RuntimeCapabilities { available: true, ..RuntimeCapabilities::default() },
        container: RuntimeCapabilities::default(),
    }
}

#[test]
fn unusable_cgroup_configuration_is_excluded_before_cpu_lease_authority() {
    // A configured root that does not exist proves no enforcement.
    assert!(
        execution_excluded(Some(lifecycle_only()), false, &[ResourceClass::Cpu], false, false),
        "unproven enforcement must exclude the machine before Lease authority"
    );
}

#[test]
fn lifecycle_only_process_is_excluded_before_cpu_lease_authority() {
    assert!(execution_excluded(Some(lifecycle_only()), false, &[ResourceClass::Cpu], false, false));
    assert!(execution_excluded(Some(lifecycle_only()), false, &[ResourceClass::Memory], false, false));
    assert!(execution_excluded(Some(lifecycle_only()), false, &[ResourceClass::Gpu], false, false));
    assert!(!execution_excluded(Some(lifecycle_only()), false, &[ResourceClass::Numa], false, false));
}
