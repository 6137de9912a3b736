use archon_node::discover::{
    interpret_nvidia_query, normalize_pci_bus_id, nvidia_device, nvidia_rows_of, nvidia_support_paths,
    parse_cpu_list, parse_declared_devices, validate_declared_devices, validate_machine_description, DeviceSpec,
    HostNodeSpec, MachineDescription,
};
use archon_node::graph::build_graph;
use archon_node::model::{qty, Attrs, CapacityDimension, NodeId, Quantity, ResourceClass};

fn chars(s: &str) -> Vec<char> {
    s.chars().collect()
}

#[test]
fn parses_sysfs_cpulists() {
    assert_eq!(parse_cpu_list("0-3").unwrap(), vec![0, 1, 2, 3]);
    assert_eq!(parse_cpu_list("0-3,8,10-11").unwrap(), vec![0, 1, 2, 3, 8, 10, 11]);
    assert_eq!(parse_cpu_list("5").unwrap(), vec![5]);
    assert_eq!(parse_cpu_list("").unwrap(), Vec::<u32>::new());
    assert!(parse_cpu_list("3-0").is_err(), "inverted range");
    assert!(parse_cpu_list("x-y").is_err(), "garbage");
}

#[test]
fn cpu_list_errors_name_the_part() {
    assert_eq!(parse_cpu_list("3-0").unwrap_err(), "inverted CPU range \"3-0\"");
    assert_eq!(parse_cpu_list("0-1,x").unwrap_err(), "invalid CPU range \"x\"");
}

fn nvidia_devices(output: &str) -> Vec<DeviceSpec> {
    nvidia_rows_of(output)
        .iter()
        .map(|row| nvidia_device(row, nvidia_support_paths(), Attrs::new()))
        .collect()
}

#[test]
fn parses_nvidia_identity_and_capabilities() {
    let devices = nvidia_devices("0, GPU-test, NVIDIA Test GPU, 00000000:01:00.0, 24564, 8.9, 610.57.04\n");
    assert_eq!(devices.len(), 1);
    let device = &devices[0];
    assert_eq!(device.kind, ResourceClass::Gpu);
    assert_eq!(device.id, "GPU-test");
    assert_eq!(device.dev, "/dev/nvidia0");
    assert_eq!(device.attrs.get("pci_bus_id"), Some("0000:01:00.0".to_string()));
    assert_eq!(device.attrs.get("memory_bytes"), Some("25757220864".to_string()));
    assert_eq!(device.attrs.get("cdi"), Some("nvidia.com/gpu=GPU-test".to_string()));
    assert_eq!(device.attrs.get("whole_device"), Some("true".to_string()));
}

#[test]
fn malformed_nvidia_rows_are_ignored() {
    assert!(nvidia_devices("not,a,gpu\n").is_empty());
    assert!(nvidia_devices(
        "0, GPU-test, NVIDIA Test GPU, 00000000:01:00.0, not-a-number, 8.9, 610.57.04\n"
    )
    .is_empty());
}

#[test]
fn uncertain_nvidia_query_is_not_an_authoritative_empty_inventory() {
    let failed = interpret_nvidia_query(false, "", "driver unavailable").unwrap_err();
    assert!(failed.contains("driver unavailable"));

    let malformed = interpret_nvidia_query(true, "No devices were found\n", "").unwrap_err();
    assert!(malformed.contains("incomplete GPU inventory"));

    let partial = interpret_nvidia_query(
        true,
        "0, GPU-test, NVIDIA Test GPU, 00000000:01:00.0, 24564, 8.9, 610.57.04\nmalformed\n",
        "",
    )
    .unwrap_err();
    assert!(partial.contains("parsed 1 of 2 rows"));

    assert!(interpret_nvidia_query(true, "", "").unwrap().is_empty());
}

#[test]
fn failed_nvidia_query_messages() {
    assert_eq!(interpret_nvidia_query(false, "", "  ").unwrap_err(), "nvidia-smi discovery failed");
    assert_eq!(
        interpret_nvidia_query(false, " out ", "").unwrap_err(),
        "nvidia-smi discovery failed: out"
    );
    assert_eq!(
        interpret_nvidia_query(true, "garbage\n", "").unwrap_err(),
        "nvidia-smi returned an incomplete GPU inventory: parsed 0 of 1 rows"
    );
}

#[test]
fn nvidia_row_fields_are_normalized() {
    let rows = nvidia_rows_of("3, GPU-x, Model X, 00000000:81:00.0, 1, 9.0, \n");
    assert_eq!(rows.len(), 1);
    assert_eq!(rows[0].index, 3);
    assert_eq!(rows[0].pci_bus_id, "0000:81:00.0");
    assert_eq!(rows[0].memory_mib, 1);
    let device = nvidia_device(&rows[0], nvidia_support_paths(), Attrs::new());
    assert_eq!(device.dev, "/dev/nvidia3");
    assert_eq!(device.attrs.get("driver_version"), None);
    assert_eq!(device.attrs.get("memory_bytes"), Some("1048576".to_string()));
    assert_eq!(device.access.len(), 4);
}

#[test]
fn pci_bus_ids_lose_the_long_domain_only() {
    assert_eq!(normalize_pci_bus_id(&chars("00000000:01:00.0")), chars("0000:01:00.0"));
    assert_eq!(normalize_pci_bus_id(&chars("0000:01:00.0")), chars("0000:01:00.0"));
    assert_eq!(normalize_pci_bus_id(&chars("0000000g:01:00.0")), chars("0000000g:01:00.0"));
}

#[test]
fn explicit_device_inventory_must_parse_completely() {
    assert!(validate_declared_devices("gpu=g0:/dev/nvidia0,nic=n0:/dev/net0").is_ok());
    assert!(validate_declared_devices("").is_ok());
    assert!(validate_declared_devices("gpu=g0:/dev/nvidia0,broken").is_err());
    assert!(validate_declared_devices("unknown=x:/dev/x").is_err());
    assert!(validate_declared_devices("gpu=:/dev/nvidia0").is_err());
}

#[test]
fn declared_devices_default_their_id_to_the_path() {
    let devices = parse_declared_devices("gpu:/dev/nvidia0,nvme=disk0:/dev/nvme0n1,bogus");
    assert_eq!(devices.len(), 2);
    assert_eq!(devices[0].kind, ResourceClass::Gpu);
    assert_eq!(devices[0].id, "/dev/nvidia0");
    assert_eq!(devices[0].dev, "/dev/nvidia0");
    assert_eq!(devices[1].kind, ResourceClass::Nvme);
    assert_eq!(devices[1].id, "disk0");
}

fn host(id: &str, kind: ResourceClass, parent: Option<&str>, capacity: Quantity) -> HostNodeSpec {
    HostNodeSpec { id: id.into(), kind, parent: parent.map(String::from), attrs: Attrs::new(), capacity }
}

fn locality_description() -> MachineDescription {
    let mut numa_attrs = Attrs::new();
    numa_attrs.insert("os_index".into(), "0".into());
    let mut numa = host("numa/0", ResourceClass::Numa, None, Quantity::new());
    numa.attrs = numa_attrs;
    MachineDescription {
        instance_id: "topology-test".into(),
        name: "topology-box".into(),
        cpus: 1,
        memory_bytes: 4096,
        host_nodes: vec![
            numa,
            host("cpu/0", ResourceClass::Cpu, Some("numa/0"), qty(CapacityDimension::Count, 1)),
            host("memory/0", ResourceClass::Memory, Some("numa/0"), qty(CapacityDimension::Bytes, 4096)),
            host("pcie/0000:00:01.0", ResourceClass::PcieRoot, Some("numa/0"), Quantity::new()),
        ],
        devices: vec![DeviceSpec {
            kind: ResourceClass::Gpu,
            id: "gpu0".into(),
            dev: "/dev/gpu0".into(),
            host_parent: Some("pcie/0000:00:01.0".into()),
            access: Vec::new(),
            attrs: Attrs::new(),
        }],
    }
}

#[test]
fn normalized_host_nodes_build_explicit_device_locality() {
    let description = locality_description();
    validate_machine_description(&description).expect("valid normalized inventory");
    let (_local, nodes, edges) = build_graph(&description, 0);
    let of_class = |kind: ResourceClass| nodes.iter().find(|n| n.kind == kind).unwrap().id;
    let parent = |child: NodeId| edges.iter().find(|e| e.to == child).map(|e| e.from);
    let ancestor_of_class = |mut node: NodeId, kind: ResourceClass| loop {
        let up = parent(node)?;
        if nodes.iter().any(|n| n.id == up && n.kind == kind) {
            return Some(up);
        }
        node = up;
    };
    let cpu = of_class(ResourceClass::Cpu);
    let memory = of_class(ResourceClass::Memory);
    let gpu = of_class(ResourceClass::Gpu);
    let numa = of_class(ResourceClass::Numa);
    let pcie = of_class(ResourceClass::PcieRoot);
    assert_eq!(parent(gpu), Some(pcie));
    assert_eq!(parent(pcie), Some(numa));
    for node in [cpu, memory, gpu] {
        assert_eq!(ancestor_of_class(node, ResourceClass::Numa), Some(numa));
    }
}

#[test]
fn normalized_host_inventory_must_be_complete_acyclic_and_owned() {
    let mut description = MachineDescription {
        instance_id: "bad-topology".into(),
        name: "bad".into(),
        cpus: 1,
        memory_bytes: 1024,
        host_nodes: vec![host("cpu/0", ResourceClass::Cpu, Some("missing"), qty(CapacityDimension::Count, 1))],
        devices: Vec::new(),
    };
    assert!(validate_machine_description(&description).unwrap_err().contains("unknown parent"));
    description.host_nodes = vec![
        host("numa/0", ResourceClass::Numa, Some("socket/0"), Quantity::new()),
        host("socket/0", ResourceClass::Socket, Some("numa/0"), Quantity::new()),
        host("cpu/0", ResourceClass::Cpu, Some("numa/0"), qty(CapacityDimension::Count, 1)),
        host("memory/0", ResourceClass::Memory, Some("numa/0"), qty(CapacityDimension::Bytes, 1024)),
    ];
    assert!(validate_machine_description(&description).unwrap_err().contains("cycle"));
}

#[test]
fn host_summaries_must_agree_and_ids_be_unique() {
    let mut description = locality_description();
    assert!(validate_machine_description(&description).is_ok());
    description.cpus = 2;
    assert!(validate_machine_description(&description).is_err());
    description.cpus = 1;
    description.host_nodes.push(host("cpu/0", ResourceClass::Cpu, Some("numa/0"), qty(CapacityDimension::Count, 1)));
    assert!(validate_machine_description(&description).unwrap_err().contains("duplicate host node id"));
}

use archon_node::inventory::{host_summary, node_meminfo_kib, numa_node_specs, pci_attrs_from, proc_meminfo_bytes};

#[test]
fn numa_meminfo_is_matched_by_label() {
    let text = "Node 0 MemFree:  100 kB\nNode 0 MemTotal:       32595068 kB\n";
    assert_eq!(node_meminfo_kib(text), Some(32595068));
    assert_eq!(node_meminfo_kib("Node 0 MemTotal: x kB\nNode 0 MemTotal: 5 kB\n"), Some(5));
    assert_eq!(node_meminfo_kib("MemTotal: 5 kB\n"), None);
}

#[test]
fn proc_meminfo_reports_bytes() {
    assert_eq!(proc_meminfo_bytes("MemFree: 1 kB\nMemTotal:       16384 kB\n"), Some(16384 * 1024));
    assert_eq!(proc_meminfo_bytes("MemTotal: 2 kB kB\n"), Some(2048));
    assert_eq!(proc_meminfo_bytes("MemFree: 1 kB\n"), None);
    assert_eq!(proc_meminfo_bytes("MemTotal: lots\n"), None);
}

#[test]
fn numa_nodes_become_host_specs() {
    let specs = numa_node_specs("numa/1", "1", &[4, 5], "Node 1 MemTotal: 2 kB\n").unwrap();
    let ids: Vec<&str> = specs.iter().map(|s| s.id.as_str()).collect();
    assert_eq!(ids, vec!["numa/1", "numa/1/memory", "numa/1/cpu/4", "numa/1/cpu/5"]);
    assert_eq!(specs[1].capacity, qty(CapacityDimension::Bytes, 2048));
    assert_eq!(specs[2].parent, Some("numa/1".to_string()));
    assert_eq!(numa_node_specs("numa/1", "1", &[], "").unwrap_err(), "parse /sys/devices/system/node/node1/meminfo MemTotal");
    assert_eq!(
        numa_node_specs("numa/1", "1", &[], "Node 1 MemTotal: 18446744073709551615 kB").unwrap_err(),
        "/sys/devices/system/node/node1/meminfo MemTotal overflows"
    );
}

#[test]
fn pci_locality_attributes() {
    let attrs = pci_attrs_from(Some("1\n"), Some("0000:00:01.0"));
    assert_eq!(attrs.get("numa_node"), Some("1".to_string()));
    assert_eq!(attrs.get("pci_root"), Some("0000:00:01.0".to_string()));
    let attrs = pci_attrs_from(Some("-1\n"), Some("pci0000:00"));
    assert!(!attrs.contains_key("numa_node"));
    assert!(!attrs.contains_key("pci_root"));
    assert!(!pci_attrs_from(None, None).contains_key("numa_node"));
}

#[test]
fn normalized_summaries_count_cpus_and_memory() {
    let specs = numa_node_specs("numa/0", "0", &[0, 1, 2], "Node 0 MemTotal: 4 kB\n").unwrap();
    assert_eq!(host_summary(&specs), (3, 4096));
}
