use archon_node::model::ResourceClass;
use archon_node::protocol::{ExecutionCapabilities, RuntimeCapabilities};
use archon_node::service::execution_excluded;

/// Limits and device isolation, but no cpuset placement.
fn aggregate() -> ExecutionCapabilities {
    ExecutionCapabilities {
        process: RuntimeCapabilities {
            available: true,
            cpu_limit: true,
            memory_limit: true,
            device_isolation: true,
            physical_cpu_placement: false,
            numa_memory_placement: false,
        },
        container: RuntimeCapabilities::default(),
    }
}

#[test]
fn executable_work_skips_normalized_cpu_placement_without_cpuset_support() {
    let cpu = [ResourceClass::Cpu];
    let normalized_excluded = execution_excluded(Some(aggregate()), false, &cpu, true, true);
    let flat_excluded = execution_excluded(Some(aggregate()), false, &cpu, false, false);
    assert!(normalized_excluded);
    assert!(!flat_excluded);
}

#[test]
fn normalized_cpu_only_machine_stays_unadmitted_until_placement_is_enforceable() {
    let cpu = [ResourceClass::Cpu];
    assert!(
        execution_excluded(Some(aggregate()), false, &cpu, true, true),
        "unsupported execution placement must be rejected before Lease authority mutates"
    );
    let mut placed = aggregate();
    placed.process.physical_cpu_placement = true;
    assert!(!execution_excluded(Some(placed), false, &cpu, true, false));
}
