use archon_node::container::{
    cdi_opt_in, container_name, contains_infix, parse_i32_chars, recognize_engine, reported_exit_code, reports_running,
    run_arguments, ContainerConfig,
};
use archon_node::protocol::{DeviceAccess, LeaseLimits};
use archon_node::runtime::{
    log_file_name, log_tail, observe_child, plan_activation, status_report, Activation, ChildPoll, WorkStatus,
};
use archon_node::workload::{PortPublish, StorageMount};

fn chars(s: &str) -> Vec<char> {
    s.chars().collect()
}

fn strings(v: &[&str]) -> Vec<String> {
    v.iter().map(|s| s.to_string()).collect()
}

#[test]
fn engines_are_recognized_by_their_version_text() {
    assert_eq!(recognize_engine(true, "Docker version 27.0.1, build abc"), (true, false));
    assert_eq!(recognize_engine(true, "podman version 5.1.0"), (true, true));
    assert_eq!(recognize_engine(false, "podman version 5.1.0"), (false, false));
    assert_eq!(recognize_engine(true, "nerdctl version 1.0"), (false, false));
    assert_eq!(recognize_engine(true, ""), (false, false));
}

#[test]
fn cdi_opt_in_values() {
    for yes in ["1", "true", " TRUE ", "Yes"] {
        assert!(cdi_opt_in(yes), "{yes}");
    }
    for no in ["", "0", "no", "y", "truee"] {
        assert!(!cdi_opt_in(no), "{no}");
    }
}

#[test]
fn infix_search() {
    assert!(contains_infix(&chars("abcdef"), &chars("cde")));
    assert!(contains_infix(&chars("abc"), &chars("")));
    assert!(!contains_infix(&chars("ab"), &chars("abc")));
    assert!(!contains_infix(&chars("abcdef"), &chars("ced")));
}

#[test]
fn container_names_carry_namespace_and_lease() {
    assert_eq!(container_name("12-34-0", 7), "archon-12-34-0-lease-7");
}

#[test]
fn run_arguments_carry_limits_devices_mounts_and_ports() {
    let limits = LeaseLimits { cpu_count: 2, memory_bytes: 1048576 };
    let command = strings(&["sh", "-c", "echo hi"]);
    let storage = vec![StorageMount { host_path: "/data".into(), mount_path: "/mnt".into() }];
    let ports = vec![
        PortPublish { container_port: 80, host_port: Some(8080) },
        PortPublish { container_port: 443, host_port: None },
    ];
    let devices = vec![
        DeviceAccess { id: "gpu0".into(), dev: "/dev/nvidia0".into(), paths: strings(&["/dev/nvidiactl"]), cdi: Some("nvidia.com/gpu=GPU-0".into()) },
        DeviceAccess { id: "nvme0".into(), dev: "/dev/nvme0".into(), paths: Vec::new(), cdi: None },
    ];
    let cfg = ContainerConfig {
        image: "alpine:3",
        command: &command,
        limits: &limits,
        storage: &storage,
        ports: &ports,
        devices: &devices,
    };
    let args = run_arguments(&None, false, true, "archon-x-lease-1", &cfg);
    assert_eq!(
        args,
        strings(&[
            "run",
            "-d",
            "--name",
            "archon-x-lease-1",
            "--pull",
            "missing",
            "--cpus=2",
            "--memory=1048576b",
            "--device=/dev/nvidia0:/dev/nvidia0",
            "--device=/dev/nvidiactl:/dev/nvidiactl",
            "--device=/dev/nvme0:/dev/nvme0",
            "--volume=/data:/mnt:Z",
            "-p=8080:80",
            "-p=443",
            "alpine:3",
            "sh",
            "-c",
            "echo hi",
        ])
    );
    let args = run_arguments(&Some("/etc/cdi".into()), true, false, "n", &cfg);
    assert_eq!(&args[..2], &strings(&["--cdi-spec-dir", "/etc/cdi"])[..]);
    assert!(args.contains(&"--device=nvidia.com/gpu=GPU-0".to_string()));
    assert!(!args.contains(&"--device=/dev/nvidiactl:/dev/nvidiactl".to_string()));
    assert!(args.contains(&"--device=/dev/nvme0:/dev/nvme0".to_string()));
    assert!(args.contains(&"--volume=/data:/mnt".to_string()));
}

#[test]
fn unlimited_leases_pass_no_limit_flags() {
    let limits = LeaseLimits { cpu_count: 0, memory_bytes: 0 };
    let cfg = ContainerConfig { image: "img", command: &[], limits: &limits, storage: &[], ports: &[], devices: &[] };
    assert_eq!(run_arguments(&None, false, false, "n", &cfg), strings(&["run", "-d", "--name", "n", "--pull", "missing", "img"]));
}

#[test]
fn inspect_answers_are_read_back() {
    assert!(reports_running(true, "true\n"));
    assert!(!reports_running(true, "false\n"));
    assert!(!reports_running(false, "true"));
    assert_eq!(reported_exit_code(true, " 3\n"), 3);
    assert_eq!(reported_exit_code(true, "-9"), -9);
    assert_eq!(reported_exit_code(true, "x"), -1);
    assert_eq!(reported_exit_code(false, "0"), -1);
}

#[test]
fn signed_codes_parse_as_i32() {
    assert_eq!(parse_i32_chars(&chars("+7")), Some(7));
    assert_eq!(parse_i32_chars(&chars("-2147483648")), Some(i32::MIN));
    assert_eq!(parse_i32_chars(&chars("2147483647")), Some(i32::MAX));
    assert_eq!(parse_i32_chars(&chars("2147483648")), None);
    assert_eq!(parse_i32_chars(&chars("-")), None);
    assert_eq!(parse_i32_chars(&chars("-+1")), None);
    assert_eq!(parse_i32_chars(&chars("")), None);
}

#[test]
fn activation_plans() {
    let limits = LeaseLimits { cpu_count: 0, memory_bytes: 0 };
    let command = strings(&["sleep", "10"]);
    assert!(matches!(plan_activation(1, true, &[], &limits, 0, false), Ok(Activation::AlreadyRunning)));
    assert_eq!(plan_activation(4, false, &[], &limits, 0, false).unwrap_err(), "lease 4 has no command to execute");
    assert_eq!(
        plan_activation(5, false, &command, &limits, 1, false).unwrap_err(),
        "lease 5 has device claims but process device enforcement requires a cgroup v2 root"
    );
    match plan_activation(6, false, &command, &limits, 0, true).unwrap() {
        Activation::Launch { program, args, cgroup, filter_devices } => {
            assert_eq!(program, "sleep");
            assert_eq!(args, strings(&["10"]));
            assert!(!cgroup, "nothing to enforce");
            assert!(!filter_devices);
        }
        Activation::AlreadyRunning => panic!("expected a launch"),
    }
    let limited = LeaseLimits { cpu_count: 1, memory_bytes: 0 };
    match plan_activation(6, false, &command, &limited, 0, true).unwrap() {
        Activation::Launch { cgroup, .. } => assert!(cgroup),
        Activation::AlreadyRunning => panic!("expected a launch"),
    }
    match plan_activation(6, false, &command, &limits, 2, true).unwrap() {
        Activation::Launch { cgroup, filter_devices, .. } => assert!(cgroup && filter_devices),
        Activation::AlreadyRunning => panic!("expected a launch"),
    }
    match plan_activation(6, false, &command, &limited, 0, false).unwrap() {
        Activation::Launch { cgroup, .. } => assert!(!cgroup, "no root, lifecycle only"),
        Activation::AlreadyRunning => panic!("expected a launch"),
    }
}

#[test]
fn child_polls_become_statuses() {
    assert_eq!(observe_child(false, ChildPoll::Running), WorkStatus::Gone);
    assert_eq!(observe_child(true, ChildPoll::Running), WorkStatus::Running);
    assert_eq!(observe_child(true, ChildPoll::Exited(Some(2))), WorkStatus::Exited(2));
    assert_eq!(observe_child(true, ChildPoll::Exited(None)), WorkStatus::Exited(-1));
    assert_eq!(observe_child(true, ChildPoll::Failed), WorkStatus::Gone);
    assert_eq!(status_report(WorkStatus::Running), (true, None));
    assert_eq!(status_report(WorkStatus::Exited(0)), (false, Some(0)));
    assert_eq!(status_report(WorkStatus::Gone), (false, None));
}

#[test]
fn logs_keep_their_last_64_kib() {
    let small = vec![1u8, 2, 3];
    assert_eq!(log_tail(&small), small);
    let mut big = vec![0u8; 70000];
    big[69999] = 9;
    big[70000 - 65536] = 7;
    let tail = log_tail(&big);
    assert_eq!(tail.len(), 65536);
    assert_eq!(tail[0], 7);
    assert_eq!(tail[65535], 9);
    assert_eq!(log_file_name(12), "lease-12.log");
}
