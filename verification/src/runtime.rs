//! Process executions: what an activation request turns into, how a polled
//! child is reported, and which part of a lease's log is returned.
use vstd::prelude::*;

use crate::discover::views_of;
use crate::protocol::LeaseLimits;
use crate::text::{decimal, decimal_string};

verus! {

/// Lifecycle observation of a lease's workload.
#[derive(Clone, Copy, Debug, PartialEq, Eq, Structural)]
pub enum WorkStatus {
    /// Nothing is kept under this lease.
    Gone,
    /// The workload is still running.
    Running,
    /// The workload exited on its own.
    Exited(i32),
}

/// What polling a running child reported.
#[derive(Clone, Copy, Debug, PartialEq, Eq, Structural)]
pub enum ChildPoll {
    /// It exited, with this code; None when a signal ended it.
    Exited(Option<i32>),
    /// It is still running.
    Running,
    /// Polling failed.
    Failed,
}

pub open spec fn status_of(running: bool, poll: ChildPoll) -> WorkStatus {
    if !running {
        WorkStatus::Gone
    } else {
        match poll {
            ChildPoll::Exited(Some(code)) => WorkStatus::Exited(code),
            ChildPoll::Exited(None) => WorkStatus::Exited(-1i32),
            ChildPoll::Running => WorkStatus::Running,
            ChildPoll::Failed => WorkStatus::Gone,
        }
    }
}

/// The status of a lease's child: Gone when nothing runs under the lease or polling
/// failed; an exit without a code (a signal) reads as -1.
pub fn observe_child(running: bool, poll: ChildPoll) -> (status: WorkStatus)
    ensures
        status == status_of(running, poll),
{
    if !running {
        return WorkStatus::Gone;
    }
    match poll {
        ChildPoll::Exited(Some(code)) => WorkStatus::Exited(code),
        ChildPoll::Exited(None) => WorkStatus::Exited(-1i32),
        ChildPoll::Running => WorkStatus::Running,
        ChildPoll::Failed => WorkStatus::Gone,
    }
}

/// The `running` flag and exit code an agent answers a status request with.
pub fn status_report(status: WorkStatus) -> (report: (bool, Option<i32>))
    ensures
        report.0 == (status == WorkStatus::Running),
        report.1 == (match status {
            WorkStatus::Exited(code) => Some(code),
            _ => None,
        }),
{
    match status {
        WorkStatus::Running => (true, None),
        WorkStatus::Exited(code) => (false, Some(code)),
        WorkStatus::Gone => (false, None),
    }
}

/// What activating a lease's process amounts to.
#[derive(Clone, Debug)]
pub enum Activation {
    /// A child already runs under the lease; activation is idempotent.
    AlreadyRunning,
    /// Start `program` with `args`; inside a fresh lease cgroup when
    /// `cgroup`, with the device filter attached before the start when
    /// `filter_devices`.
    Launch { program: String, args: Vec<String>, cgroup: bool, filter_devices: bool },
}

pub open spec fn no_command_message(lease: u64) -> Seq<char> {
    "lease "@ + decimal(lease as nat) + " has no command to execute"@
}

pub open spec fn unenforceable_devices_message(lease: u64) -> Seq<char> {
    "lease "@ + decimal(lease as nat) + " has device claims but process device enforcement requires a cgroup v2 root"@
}

/// Plan one activation. An lease already running needs nothing; an empty
/// command is refused; device claims are refused without a cgroup root.
/// Otherwise the first word is the program, and a cgroup is created when a
/// root is configured and there is a limit or a device claim to enforce.
pub fn plan_activation(
    lease: u64,
    running: bool,
    command: &[String],
    limits: &LeaseLimits,
    device_count: usize,
    cgroup_root: bool,
) -> (r: Result<Activation, String>)
    ensures
        running ==> r matches Ok(Activation::AlreadyRunning),
        !running && command@.len() == 0 ==> (r matches Err(e) && e@ == no_command_message(lease)),
        !running && command@.len() > 0 && device_count > 0 && !cgroup_root ==> (r matches Err(e) && e@ == unenforceable_devices_message(lease)),
        !running && command@.len() > 0 && (device_count == 0 || cgroup_root) ==> (r matches Ok(Activation::Launch { program, args, cgroup, filter_devices })
            && program@ == command@[0]@
            && views_of(args@) == views_of(command@.drop_first())
            && cgroup == (cgroup_root && !(limits.spec_is_empty() && device_count == 0))
            && filter_devices == (device_count > 0)),
{
    if running {
        return Ok(Activation::AlreadyRunning);
    }
    if command.len() == 0 {
        return Err(String::from_str("lease ").concat(decimal_string(lease).as_str()).concat(" has no command to execute"));
    }
    if device_count > 0 && !cgroup_root {
        return Err(String::from_str("lease ").concat(decimal_string(lease).as_str()).concat(
            " has device claims but process device enforcement requires a cgroup v2 root",
        ));
    }
    let program = command[0].clone();
    let mut args: Vec<String> = Vec::new();
    let mut i: usize = 1;
    while i < command.len()
        invariant
            1 <= i <= command@.len(),
            views_of(args@) == views_of(command@.subrange(1, i as int)),
        decreases command@.len() - i,
    {
        let ghost before = args@;
        args.push(command[i].clone());
        assert(views_of(args@) =~= views_of(before).push(command@[i as int]@));
        assert(views_of(command@.subrange(1, i + 1)) =~= views_of(command@.subrange(1, i as int)).push(command@[i as int]@));
        i = i + 1;
    }
    assert(command@.subrange(1, i as int) =~= command@.drop_first());
    let cgroup = cgroup_root && !(limits.is_empty() && device_count == 0);
    Ok(Activation::Launch { program, args, cgroup, filter_devices: device_count > 0 })
}

/// How much of a lease's log is returned.
pub const LOG_TAIL_BYTES: usize = 65536;

/// The part of a log returned: the last 64 KiB when it grew larger.
pub open spec fn log_tail_spec(bytes: Seq<u8>) -> Seq<u8> {
    if bytes.len() > LOG_TAIL_BYTES {
        bytes.subrange(bytes.len() - LOG_TAIL_BYTES, bytes.len() as int)
    } else {
        bytes
    }
}

pub fn log_tail(bytes: &[u8]) -> (tail: Vec<u8>)
    ensures
        tail@ == log_tail_spec(bytes@),
{
    let start: usize = if bytes.len() > LOG_TAIL_BYTES { bytes.len() - LOG_TAIL_BYTES } else { 0 };
    let mut tail: Vec<u8> = Vec::new();
    let mut i: usize = start;
    while i < bytes.len()
        invariant
            start <= i <= bytes@.len(),
            tail@ == bytes@.subrange(start as int, i as int),
        decreases bytes@.len() - i,
    {
        tail.push(bytes[i]);
        i = i + 1;
        assert(tail@ =~= bytes@.subrange(start as int, i as int));
    }
    assert(bytes@.subrange(0, bytes@.len() as int) =~= bytes@);
    tail
}

/// The file a lease's output is written to, inside the log directory.
pub open spec fn log_file_name_spec(lease: u64) -> Seq<char> {
    "lease-"@ + decimal(lease as nat) + ".log"@
}

pub fn log_file_name(lease: u64) -> (name: String)
    ensures
        name@ == log_file_name_spec(lease),
{
    String::from_str("lease-").concat(decimal_string(lease).as_str()).concat(".log")
}

} // verus!
