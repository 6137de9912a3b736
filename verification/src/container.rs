//! Container executions through a Docker/Podman-style engine CLI: which
//! engine answers, how a lease's limits, devices, mounts and ports become
//! `run` arguments, and how the engine's answers are read back.
use vstd::prelude::*;

use crate::discover::views_of;
use crate::protocol::{DeviceAccess, LeaseLimits};
use crate::text::{
    all_digits, ascii_lower, ascii_lower_chars, chars_of, decimal, decimal_string, digits_value,
    parse_unsigned, parse_unsigned_chars, trim, trim_chars,
};
use crate::workload::{PortPublish, StorageMount};

verus! {

/// Everything one container activation needs.
pub struct ContainerConfig<'a> {
    pub image: &'a str,
    pub command: &'a [String],
    pub limits: &'a LeaseLimits,
    pub storage: &'a [StorageMount],
    pub ports: &'a [PortPublish],
    pub devices: &'a [DeviceAccess],
}

// ---------------------------------------------------------------------------
// Substrings.

/// `w` occurs in `s`.
pub open spec fn has_infix(s: Seq<char>, w: Seq<char>) -> bool {
    exists|i: int| 0 <= i && i + w.len() <= s.len() && #[trigger] s.subrange(i, i + w.len()) == w
}

/// Whether `w` occurs in `s` (`str::contains`).
pub fn contains_infix(s: &[char], w: &[char]) -> (r: bool)
    ensures
        r == has_infix(s@, w@),
{
    if w.len() > s.len() {
        return false;
    }
    let n = s.len();
    let last = n - w.len();
    let mut i: usize = 0;
    while i <= last
        invariant
            n == s@.len(),
            last + w@.len() == s@.len(),
            i <= last + 1,
            forall|j: int| 0 <= j < i ==> #[trigger] s@.subrange(j, j + w@.len()) != w@,
        decreases last + 1 - i,
    {
        let mut k: usize = 0;
        let mut same = true;
        assert(s@.subrange(i as int, i as int) =~= w@.take(0));
        while k < w.len()
            invariant
                n == s@.len(),
                i <= last,
                last + w@.len() == s@.len(),
                k <= w@.len(),
                same == (s@.subrange(i as int, i + k) == w@.take(k as int)),
            decreases w@.len() - k,
        {
            if s[i + k] != w[k] {
                same = false;
            }
            proof {
                if same {
                    assert(s@.subrange(i as int, i + k + 1) =~= s@.subrange(i as int, i + k).push(s@[i + k]));
                    assert(w@.take(k + 1) =~= w@.take(k as int).push(w@[k as int]));
                } else if s@.subrange(i as int, i + k + 1) == w@.take(k + 1) {
                    assert(s@.subrange(i as int, i + k + 1)[k as int] == w@.take(k + 1)[k as int]);
                    assert(s@.subrange(i as int, i + k) =~= s@.subrange(i as int, i + k + 1).take(k as int));
                    assert(w@.take(k as int) =~= w@.take(k + 1).take(k as int));
                }
            }
            k = k + 1;
        }
        assert(w@.take(w@.len() as int) =~= w@);
        if same {
            return true;
        }
        if i == last {
            assert forall|j: int| 0 <= j && j + w@.len() <= s@.len() implies #[trigger] s@.subrange(j, j + w@.len()) != w@ by {
                assert(j <= i);
            }
            return false;
        }
        i = i + 1;
    }
    false
}

// ---------------------------------------------------------------------------
// Engine probing and configuration.

/// A recognised engine answered `--version` successfully: its (lower-cased)
/// answer names docker or podman. Podman also relabels volume mounts.
pub open spec fn engine_support(success: bool, version_text: Seq<char>) -> (bool, bool) {
    let text = ascii_lower(version_text);
    let recognized = has_infix(text, "docker"@) || has_infix(text, "podman"@);
    let available = success && recognized;
    (available, available && has_infix(text, "podman"@))
}

/// Whether the engine is usable, and whether it needs the SELinux relabel
/// suffix on volume mounts, from its `--version` run: `success` is false
/// when it could not be run or failed, `version_text` is its stdout then
/// stderr.
pub fn recognize_engine(success: bool, version_text: &str) -> (r: (bool, bool))
    ensures
        r == engine_support(success, version_text@),
{
    let text = ascii_lower_chars(chars_of(version_text).as_slice());
    let docker = chars_of("docker");
    let podman = chars_of("podman");
    let is_podman = contains_infix(text.as_slice(), podman.as_slice());
    let recognized = contains_infix(text.as_slice(), docker.as_slice()) || is_podman;
    let available = success && recognized;
    (available, available && is_podman)
}

/// The values that opt into provider-native CDI device names.
pub open spec fn cdi_opted_in(value: Seq<char>) -> bool {
    let v = ascii_lower(trim(value));
    v == "1"@ || v == "true"@ || v == "yes"@
}

/// Whether an `ARCHON_CONTAINER_USE_CDI` value opts in: `1`, `true` or
/// `yes`, ignoring surrounding whitespace and ASCII case.
pub fn cdi_opt_in(value: &str) -> (r: bool)
    ensures
        r == cdi_opted_in(value@),
{
    let v = ascii_lower_chars(trim_chars(chars_of(value).as_slice()).as_slice());
    let one = chars_of("1");
    let yes_word = chars_of("true");
    let yes = chars_of("yes");
    crate::text::chars_eq(v.as_slice(), one.as_slice()) || crate::text::chars_eq(v.as_slice(), yes_word.as_slice())
        || crate::text::chars_eq(v.as_slice(), yes.as_slice())
}

/// The name a lease's container runs under.
pub open spec fn container_name_spec(namespace: Seq<char>, lease: u64) -> Seq<char> {
    "archon-"@ + namespace + "-lease-"@ + decimal(lease as nat)
}

pub fn container_name(namespace: &str, lease: u64) -> (name: String)
    ensures
        name@ == container_name_spec(namespace@, lease),
{
    String::from_str("archon-").concat(namespace).concat("-lease-").concat(decimal_string(lease).as_str())
}

// ---------------------------------------------------------------------------
// `run` arguments.

/// `--device=<path>:<path>` for each path.
pub open spec fn path_args(paths: Seq<Seq<char>>) -> Seq<Seq<char>> {
    paths.map_values(|p: Seq<char>| "--device="@ + p + ":"@ + p)
}

/// One device: its CDI name when CDI is in use and it has one, else its
/// primary path and its support paths mapped one to one.
pub open spec fn one_device_args(use_cdi: bool, d: DeviceAccess) -> Seq<Seq<char>> {
    if use_cdi && d.cdi is Some {
        seq!["--device="@ + d.cdi->0@]
    } else {
        path_args(seq![d.dev@] + views_of(d.paths@))
    }
}

pub open spec fn device_args(use_cdi: bool, devices: Seq<DeviceAccess>) -> Seq<Seq<char>>
    decreases devices.len(),
{
    if devices.len() == 0 {
        Seq::empty()
    } else {
        device_args(use_cdi, devices.drop_last()) + one_device_args(use_cdi, devices.last())
    }
}

pub open spec fn volume_arg(relabels: bool, m: StorageMount) -> Seq<char> {
    "--volume="@ + m.host_path@ + ":"@ + m.mount_path@ + (if relabels { ":Z"@ } else { Seq::empty() })
}

pub open spec fn port_arg(p: PortPublish) -> Seq<char> {
    match p.host_port {
        Some(h) => "-p="@ + decimal(h as nat) + ":"@ + decimal(p.container_port as nat),
        None => "-p="@ + decimal(p.container_port as nat),
    }
}

/// The engine arguments that start a lease's container, detached, under
/// `name`, pulling the image only when missing.
pub open spec fn run_args(cdi_spec_dir: Option<Seq<char>>, use_cdi: bool, relabels: bool, name: Seq<char>, cfg: ContainerConfig) -> Seq<Seq<char>> {
    let dir = match cdi_spec_dir {
        Some(d) => seq!["--cdi-spec-dir"@, d],
        None => Seq::empty(),
    };
    let cpus = if cfg.limits.cpu_count > 0 { seq!["--cpus="@ + decimal(cfg.limits.cpu_count as nat)] } else { Seq::empty() };
    let memory = if cfg.limits.memory_bytes > 0 { seq!["--memory="@ + decimal(cfg.limits.memory_bytes as nat) + "b"@] } else { Seq::empty() };
    dir + seq!["run"@, "-d"@, "--name"@, name, "--pull"@, "missing"@] + cpus + memory
        + device_args(use_cdi, cfg.devices@)
        + cfg.storage@.map_values(|m: StorageMount| volume_arg(relabels, m))
        + cfg.ports@.map_values(|p: PortPublish| port_arg(p))
        + seq![cfg.image@] + views_of(cfg.command@)
}

fn push_str(args: &mut Vec<String>, s: String)
    ensures
        views_of(final(args)@) == views_of(old(args)@).push(s@),
{
    let ghost before = args@;
    args.push(s);
    assert(views_of(args@) =~= views_of(before).push(s@));
}

fn device_arg(prefix: &str, value: &str) -> (s: String)
    ensures
        s@ == prefix@ + value@,
{
    String::from_str(prefix).concat(value)
}

fn push_device_args(args: &mut Vec<String>, use_cdi: bool, devices: &[DeviceAccess])
    ensures
        views_of(final(args)@) == views_of(old(args)@) + device_args(use_cdi, devices@),
{
    let ghost head = views_of(args@);
    let mut i: usize = 0;
    assert(devices@.take(0) =~= Seq::<DeviceAccess>::empty());
    assert(head + device_args(use_cdi, devices@.take(0)) =~= head);
    while i < devices.len()
        invariant
            i <= devices@.len(),
            views_of(args@) == head + device_args(use_cdi, devices@.take(i as int)),
        decreases devices@.len() - i,
    {
        let d = &devices[i];
        let ghost before = views_of(args@);
        assert(devices@.take(i + 1).drop_last() =~= devices@.take(i as int));
        if use_cdi && d.cdi.is_some() {
            match &d.cdi {
                Some(cdi) => push_str(args, device_arg("--device=", cdi.as_str())),
                None => {},
            }
            assert(views_of(args@) =~= before + one_device_args(use_cdi, *d));
        } else {
            let ghost all_paths = seq![d.dev@] + views_of(d.paths@);
            let whole = String::from_str("--device=").concat(d.dev.as_str()).concat(":").concat(d.dev.as_str());
            push_str(args, whole);
            assert(path_args(all_paths.take(1)) =~= seq![whole@]);
            let mut p: usize = 0;
            while p < d.paths.len()
                invariant
                    p <= d.paths@.len(),
                    all_paths == seq![d.dev@] + views_of(d.paths@),
                    views_of(args@) == before + path_args(all_paths.take(p + 1)),
                decreases d.paths@.len() - p,
            {
                let path = d.paths[p].as_str();
                let arg = String::from_str("--device=").concat(path).concat(":").concat(path);
                push_str(args, arg);
                assert(all_paths[p + 1] == d.paths@[p as int]@);
                assert(path_args(all_paths.take(p + 2)) =~= path_args(all_paths.take(p + 1)).push(arg@));
                p = p + 1;
            }
            assert(all_paths.take(p + 1) =~= all_paths);
        }
        i = i + 1;
    }
    assert(devices@.take(i as int) =~= devices@);
}

fn push_volume_args(args: &mut Vec<String>, relabels: bool, storage: &[StorageMount])
    ensures
        views_of(final(args)@) == views_of(old(args)@) + storage@.map_values(|m: StorageMount| volume_arg(relabels, m)),
{
    let ghost head = views_of(args@);
    let mut i: usize = 0;
    assert(head + storage@.take(0).map_values(|m: StorageMount| volume_arg(relabels, m)) =~= head);
    while i < storage.len()
        invariant
            i <= storage@.len(),
            views_of(args@) == head + storage@.take(i as int).map_values(|m: StorageMount| volume_arg(relabels, m)),
        decreases storage@.len() - i,
    {
        let m = &storage[i];
        let mut arg = String::from_str("--volume=").concat(m.host_path.as_str()).concat(":").concat(m.mount_path.as_str());
        if relabels {
            arg = arg.concat(":Z");
        } else {
            assert(arg@ + Seq::<char>::empty() =~= arg@);
        }
        push_str(args, arg);
        assert(storage@.take(i + 1).map_values(|m: StorageMount| volume_arg(relabels, m))
            =~= storage@.take(i as int).map_values(|m: StorageMount| volume_arg(relabels, m)).push(volume_arg(relabels, *m)));
        i = i + 1;
    }
    assert(storage@.take(i as int) =~= storage@);
}

fn push_port_args(args: &mut Vec<String>, ports: &[PortPublish])
    ensures
        views_of(final(args)@) == views_of(old(args)@) + ports@.map_values(|p: PortPublish| port_arg(p)),
{
    let ghost head = views_of(args@);
    let mut i: usize = 0;
    assert(head + ports@.take(0).map_values(|p: PortPublish| port_arg(p)) =~= head);
    while i < ports.len()
        invariant
            i <= ports@.len(),
            views_of(args@) == head + ports@.take(i as int).map_values(|p: PortPublish| port_arg(p)),
        decreases ports@.len() - i,
    {
        let port = &ports[i];
        let arg = match port.host_port {
            Some(h) => String::from_str("-p=").concat(decimal_string(h as u64).as_str()).concat(":").concat(
                decimal_string(port.container_port as u64).as_str(),
            ),
            None => String::from_str("-p=").concat(decimal_string(port.container_port as u64).as_str()),
        };
        push_str(args, arg);
        assert(ports@.take(i + 1).map_values(|p: PortPublish| port_arg(p))
            =~= ports@.take(i as int).map_values(|p: PortPublish| port_arg(p)).push(port_arg(*port)));
        i = i + 1;
    }
    assert(ports@.take(i as int) =~= ports@);
}

fn push_all(args: &mut Vec<String>, items: &[String])
    ensures
        views_of(final(args)@) == views_of(old(args)@) + views_of(items@),
{
    let ghost head = views_of(args@);
    let mut i: usize = 0;
    assert(head + views_of(items@.take(0)) =~= head);
    while i < items.len()
        invariant
            i <= items@.len(),
            views_of(args@) == head + views_of(items@.take(i as int)),
        decreases items@.len() - i,
    {
        push_str(args, items[i].clone());
        assert(views_of(items@.take(i + 1)) =~= views_of(items@.take(i as int)).push(items@[i as int]@));
        i = i + 1;
    }
    assert(items@.take(i as int) =~= items@);
}

/// The `run` arguments for one activation (the engine binary itself is not
/// among them).
pub fn run_arguments(cdi_spec_dir: &Option<String>, use_cdi: bool, relabels: bool, name: &str, cfg: &ContainerConfig) -> (args: Vec<String>)
    ensures
        views_of(args@) == run_args(
            match cdi_spec_dir { Some(d) => Some(d@), None => None },
            use_cdi,
            relabels,
            name@,
            *cfg,
        ),
{
    let mut args: Vec<String> = Vec::new();
    match cdi_spec_dir {
        Some(dir) => {
            push_str(&mut args, String::from_str("--cdi-spec-dir"));
            push_str(&mut args, dir.clone());
        },
        None => {},
    }
    push_str(&mut args, String::from_str("run"));
    push_str(&mut args, String::from_str("-d"));
    push_str(&mut args, String::from_str("--name"));
    push_str(&mut args, String::from_str(name));
    push_str(&mut args, String::from_str("--pull"));
    push_str(&mut args, String::from_str("missing"));
    if cfg.limits.cpu_count > 0 {
        push_str(&mut args, String::from_str("--cpus=").concat(decimal_string(cfg.limits.cpu_count).as_str()));
    }
    if cfg.limits.memory_bytes > 0 {
        push_str(&mut args, String::from_str("--memory=").concat(decimal_string(cfg.limits.memory_bytes).as_str()).concat("b"));
    }
    let ghost a0 = views_of(args@);
    push_device_args(&mut args, use_cdi, cfg.devices);
    let ghost a1 = views_of(args@);
    push_volume_args(&mut args, relabels, cfg.storage);
    let ghost a2 = views_of(args@);
    push_port_args(&mut args, cfg.ports);
    let ghost a3 = views_of(args@);
    push_str(&mut args, String::from_str(cfg.image));
    let ghost a4 = views_of(args@);
    push_all(&mut args, cfg.command);
    proof {
        let dir: Seq<Seq<char>> = match cdi_spec_dir {
            Some(d) => seq!["--cdi-spec-dir"@, d@],
            None => Seq::empty(),
        };
        let cpus: Seq<Seq<char>> = if cfg.limits.cpu_count > 0 { seq!["--cpus="@ + decimal(cfg.limits.cpu_count as nat)] } else { Seq::empty() };
        let memory: Seq<Seq<char>> = if cfg.limits.memory_bytes > 0 {
            seq!["--memory="@ + decimal(cfg.limits.memory_bytes as nat) + "b"@]
        } else {
            Seq::empty()
        };
        assert(a0 =~= dir + seq!["run"@, "-d"@, "--name"@, name@, "--pull"@, "missing"@] + cpus + memory);
        assert(a4 =~= a3.push(cfg.image@));
        assert(views_of(args@) =~= a0 + device_args(use_cdi, cfg.devices@) + cfg.storage@.map_values(|m: StorageMount| volume_arg(relabels, m))
            + cfg.ports@.map_values(|p: PortPublish| port_arg(p)) + seq![cfg.image@] + views_of(cfg.command@));
    }
    args
}

// ---------------------------------------------------------------------------
// Reading the engine's answers.

/// `str::parse::<i32>`: an optional sign, then at least one digit and
/// nothing else, within range.
pub open spec fn parse_i32(s: Seq<char>) -> Option<int> {
    if s.len() > 0 && s[0] == '-' {
        let body = s.drop_first();
        if body.len() > 0 && all_digits(body) && digits_value(body) <= 0x8000_0000 {
            Some(-digits_value(body))
        } else {
            None
        }
    } else {
        parse_unsigned(s, 0x7fff_ffff)
    }
}

pub fn parse_i32_chars(s: &[char]) -> (r: Option<i32>)
    ensures
        match r {
            Some(v) => parse_i32(s@) == Some(v as int),
            None => parse_i32(s@) is None,
        },
{
    if s.len() > 0 && s[0] == '-' {
        let body = crate::text::slice_range(s, 1, s.len());
        assert(body@ =~= s@.drop_first());
        if body.len() > 0 && body[0] == '+' {
            return None;
        }
        proof {
            if body@.len() > 0 {
                assert(crate::text::unsigned_body(body@) =~= body@);
            }
        }
        match parse_unsigned_chars(body.as_slice(), 0x8000_0000) {
            Some(v) => {
                if v == 0x8000_0000 {
                    Some(i32::MIN)
                } else {
                    Some(-(v as i32))
                }
            },
            None => None,
        }
    } else {
        match parse_unsigned_chars(s, 0x7fff_ffff) {
            Some(v) => Some(v as i32),
            None => None,
        }
    }
}

/// The engine reports the container running: `inspect` succeeded and
/// printed `true`.
pub open spec fn inspect_running(success: bool, stdout: Seq<char>) -> bool {
    success && trim(stdout) == "true"@
}

pub fn reports_running(success: bool, stdout: &str) -> (r: bool)
    ensures
        r == inspect_running(success, stdout@),
{
    let t = trim_chars(chars_of(stdout).as_slice());
    let word = chars_of("true");
    success && crate::text::chars_eq(t.as_slice(), word.as_slice())
}

/// The exit code `inspect` printed; -1 when it failed or printed no code.
pub open spec fn inspect_exit_code(success: bool, stdout: Seq<char>) -> int {
    if success && parse_i32(trim(stdout)) is Some { parse_i32(trim(stdout))->0 } else { -1 }
}

pub fn reported_exit_code(success: bool, stdout: &str) -> (code: i32)
    ensures
        code == inspect_exit_code(success, stdout@),
{
    if !success {
        return -1;
    }
    let t = trim_chars(chars_of(stdout).as_slice());
    match parse_i32_chars(t.as_slice()) {
        Some(v) => v,
        None => -1,
    }
}

} // verus!
