use archon_node::cgroup::{
    lease_group_name, limit_writes, probe_group_name, required_controllers, subtree_control_update, CgroupGroup,
};
use archon_node::model::{Attrs, ResourceClass};
use archon_node::protocol::{DeviceAccess, LeaseLimits};
use archon_node::workload::{Cardinality, ExecutionSpec};

fn writes(limits: &LeaseLimits) -> Vec<(String, String)> {
    limit_writes(limits).unwrap().into_iter().map(|w| (w.file, w.content)).collect()
}

#[test]
fn lease_limits_become_cgroup_files() {
    let limits = LeaseLimits { cpu_count: 2, memory_bytes: 1 << 30 };
    assert_eq!(
        writes(&limits),
        vec![
            ("cpu.max".to_string(), "200000 100000".to_string()),
            ("memory.max".to_string(), "1073741824".to_string()),
            ("memory.swap.max".to_string(), "0".to_string()),
        ]
    );
    assert!(writes(&LeaseLimits { cpu_count: 0, memory_bytes: 0 }).is_empty());
    assert_eq!(
        limit_writes(&LeaseLimits { cpu_count: u64::MAX, memory_bytes: 0 }).unwrap_err(),
        "cpu quota overflow"
    );
}

#[test]
fn groups_live_under_the_root() {
    let group = CgroupGroup::for_lease("/sys/fs/cgroup/archon", 7);
    assert_eq!(group.path(), "/sys/fs/cgroup/archon/lease-7");
    assert_eq!(CgroupGroup::for_lease("/root/", 1).path(), "/root/lease-1");
    assert_eq!(group.file("cgroup.procs"), "/sys/fs/cgroup/archon/lease-7/cgroup.procs");
    let kill = group.kill();
    assert_eq!((kill.file.as_str(), kill.content.as_str()), ("cgroup.kill", "1"));
    assert_eq!(CgroupGroup::for_probe("/r", 42, 3).path(), "/r/.archon-probe-42-3");
    assert_eq!(lease_group_name(9), "lease-9");
    assert_eq!(probe_group_name(1, 2), ".archon-probe-1-2");
    let plan = group.configure_limits(&LeaseLimits { cpu_count: 1, memory_bytes: 0 }).unwrap();
    assert_eq!(plan.len(), 1);
}

#[test]
fn only_missing_controllers_are_enabled() {
    let required = required_controllers(&LeaseLimits { cpu_count: 1, memory_bytes: 1 });
    assert_eq!(required, vec!["+cpu".to_string(), "+memory".to_string()]);
    assert_eq!(subtree_control_update(&required, "cpu io"), Some("+memory".to_string()));
    assert_eq!(subtree_control_update(&required, "io"), Some("+cpu +memory".to_string()));
    assert_eq!(subtree_control_update(&required, "memory cpu\n"), None);
    assert!(required_controllers(&LeaseLimits { cpu_count: 0, memory_bytes: 0 }).is_empty());
}

#[test]
fn device_access_reads_node_attributes() {
    let mut attrs = Attrs::new();
    assert!(DeviceAccess::from_attrs(&attrs).is_none());
    attrs.insert("dev".into(), "/dev/nvidia0".into());
    let access = DeviceAccess::from_attrs(&attrs).unwrap();
    assert_eq!(access, DeviceAccess { id: "/dev/nvidia0".into(), dev: "/dev/nvidia0".into(), paths: Vec::new(), cdi: None });
    attrs.insert("id".into(), "GPU-1".into());
    attrs.insert("access".into(), "[\"/dev/nvidiactl\"]".into());
    attrs.insert("cdi".into(), "nvidia.com/gpu=GPU-1".into());
    let access = DeviceAccess::from_attrs(&attrs).unwrap();
    assert_eq!(access.id, "GPU-1");
    assert_eq!(access.paths, vec!["/dev/nvidiactl".to_string()]);
    assert_eq!(access.cdi, Some("nvidia.com/gpu=GPU-1".to_string()));
    attrs.insert("access".into(), "not json".into());
    assert!(DeviceAccess::from_attrs(&attrs).unwrap().paths.is_empty());
    attrs.insert("dev".into(), String::new());
    assert!(DeviceAccess::from_attrs(&attrs).is_none());
}

#[test]
fn lease_limits_emptiness() {
    assert!(LeaseLimits { cpu_count: 0, memory_bytes: 0 }.is_empty());
    assert!(!LeaseLimits { cpu_count: 1, memory_bytes: 0 }.is_empty());
}

#[test]
fn cardinality_policies() {
    assert_eq!(Cardinality::Fixed(3).desired_count(10), 3);
    assert_eq!(Cardinality::Elastic { min: 1, target: 2, max: 4 }.desired_count(10), 2);
    assert_eq!(Cardinality::PerMachine.desired_count(5), 5);
    assert!(Cardinality::Fixed(1).validate().is_ok());
    assert_eq!(Cardinality::Fixed(0).validate().unwrap_err(), "fixed cardinality must be positive");
    assert_eq!(
        Cardinality::Elastic { min: 2, target: 1, max: 4 }.validate().unwrap_err(),
        "elastic cardinality needs 1 <= min <= target <= max"
    );
    assert!(Cardinality::Elastic { min: 0, target: 0, max: 0 }.validate().is_err());
    assert!(Cardinality::PerMachine.validate().is_ok());
}

#[test]
fn execution_intent() {
    let mut spec = ExecutionSpec::new();
    assert!(!spec.has_program());
    assert!(!spec.is_container());
    spec.image = Some(String::new());
    assert!(spec.has_program());
    assert!(!spec.is_container());
    spec.image = Some("alpine".into());
    assert!(spec.is_container());
    let mut spec = ExecutionSpec::new();
    spec.command = vec!["true".into()];
    assert!(spec.has_program());
}

#[test]
fn attrs_behave_as_a_map() {
    let mut a = Attrs::new();
    a.insert("k".into(), "1".into());
    a.insert("k".into(), "2".into());
    a.insert("j".into(), "3".into());
    assert_eq!(a.get("k"), Some("2".to_string()));
    assert!(a.contains_key("j"));
    let b = a.copied();
    assert!(a.same_as(&b));
    a.remove("j");
    assert!(!a.contains_key("j"));
    assert!(!a.same_as(&b));
    let mut c = Attrs::new();
    c.insert("k".into(), "2".into());
    assert!(a.same_as(&c));
    assert_eq!(ResourceClass::PcieRoot.display_string(), "pcie-root");
    assert!(ResourceClass::Nvme.is_device());
    assert!(!ResourceClass::Cpu.is_device());
}
