//! The agent's request handling: which component answers a controller
//! request, and how its result becomes the agent's answer. The agent runs
//! the components (endpoint bookkeeping, execution supervision, machine
//! discovery) and hands their results back.
use vstd::prelude::*;

use crate::discover::MachineDescription;
use crate::protocol::{AgentRequest, AgentResponse, BindingScope, ExecutionCapabilities};
use crate::runtime::{status_report, WorkStatus};
use crate::provider::{EndpointGeneration, EndpointOp};

verus! {

/// What handling one request takes.
#[derive(Clone, Debug)]
pub enum AgentAction {
    /// Describe this machine.
    Describe,
    /// Report the execution guarantees this agent proved.
    ReportCapabilities,
    /// Answer with a failure and do nothing else.
    Refuse { binding: u64, reason: String },
    /// Observe a lease's workload.
    Observe { lease: u64 },
    /// Read a lease's output.
    ReadLogs { lease: u64 },
    /// Apply an endpoint operation; for a release or fence, stop the
    /// lease's execution afterwards.
    Endpoint { op: EndpointOp, generation: EndpointGeneration, stop_lease: Option<u64> },
    /// Start a lease's member after checking its control generation.
    Start { lease: u64, session: u64, epoch: u64 },
}

pub open spec fn generation_of(binding: u64, node: u64, provider: u64, scope: BindingScope, session: u64, fence: u64, epoch: u64) -> EndpointGeneration {
    EndpointGeneration { binding, node, provider, scope, session, fence, epoch }
}

/// The action a request asks for.
pub open spec fn action_for(request: AgentRequest, action: AgentAction) -> bool {
    match request {
        AgentRequest::Hello => action is Describe,
        AgentRequest::Capabilities => action is ReportCapabilities,
        AgentRequest::Register { .. } => action matches AgentAction::Refuse { binding, reason } && binding == 0
            && reason@ == "Register is not handled by an agent"@,
        AgentRequest::Status { lease } => action == AgentAction::Observe { lease },
        AgentRequest::Logs { lease } => action == AgentAction::ReadLogs { lease },
        AgentRequest::Prepare { binding, node, provider, scope, session, fence, epoch, .. } => action == AgentAction::Endpoint {
            op: EndpointOp::Prepare,
            generation: generation_of(binding, node, provider, scope, session, fence, epoch),
            stop_lease: None,
        },
        AgentRequest::Activate { binding, node, provider, scope, session, fence, epoch, .. } => action == AgentAction::Endpoint {
            op: EndpointOp::Activate,
            generation: generation_of(binding, node, provider, scope, session, fence, epoch),
            stop_lease: None,
        },
        AgentRequest::Release { binding, lease, node, provider, scope, session, fence, epoch } => action == AgentAction::Endpoint {
            op: EndpointOp::Release,
            generation: generation_of(binding, node, provider, scope, session, fence, epoch),
            stop_lease: Some(lease),
        },
        AgentRequest::Fence { binding, lease, node, provider, scope, session, fence, epoch } => action == AgentAction::Endpoint {
            op: EndpointOp::Fence,
            generation: generation_of(binding, node, provider, scope, session, fence, epoch),
            stop_lease: Some(lease),
        },
        AgentRequest::StartExecution { lease, session, epoch, .. } => action == AgentAction::Start { lease, session, epoch },
    }
}

/// Decide how to handle a request. Registration is consumed by the control
/// plane before any request reaches an agent, so an agent refuses it.
pub fn agent_action(request: &AgentRequest) -> (action: AgentAction)
    ensures
        action_for(*request, action),
{
    match request {
        AgentRequest::Hello => AgentAction::Describe,
        AgentRequest::Capabilities => AgentAction::ReportCapabilities,
        AgentRequest::Register { .. } => AgentAction::Refuse { binding: 0, reason: String::from_str("Register is not handled by an agent") },
        AgentRequest::Status { lease } => AgentAction::Observe { lease: *lease },
        AgentRequest::Logs { lease } => AgentAction::ReadLogs { lease: *lease },
        AgentRequest::Prepare { binding, node, provider, scope, session, fence, epoch, .. } => AgentAction::Endpoint {
            op: EndpointOp::Prepare,
            generation: EndpointGeneration { binding: *binding, node: *node, provider: *provider, scope: *scope, session: *session, fence: *fence, epoch: *epoch },
            stop_lease: None,
        },
        AgentRequest::Activate { binding, node, provider, scope, session, fence, epoch, .. } => AgentAction::Endpoint {
            op: EndpointOp::Activate,
            generation: EndpointGeneration { binding: *binding, node: *node, provider: *provider, scope: *scope, session: *session, fence: *fence, epoch: *epoch },
            stop_lease: None,
        },
        AgentRequest::Release { binding, lease, node, provider, scope, session, fence, epoch } => AgentAction::Endpoint {
            op: EndpointOp::Release,
            generation: EndpointGeneration { binding: *binding, node: *node, provider: *provider, scope: *scope, session: *session, fence: *fence, epoch: *epoch },
            stop_lease: Some(*lease),
        },
        AgentRequest::Fence { binding, lease, node, provider, scope, session, fence, epoch } => AgentAction::Endpoint {
            op: EndpointOp::Fence,
            generation: EndpointGeneration { binding: *binding, node: *node, provider: *provider, scope: *scope, session: *session, fence: *fence, epoch: *epoch },
            stop_lease: Some(*lease),
        },
        AgentRequest::StartExecution { lease, session, epoch, .. } => AgentAction::Start { lease: *lease, session: *session, epoch: *epoch },
    }
}

/// The answer to an endpoint operation on `binding`: the endpoint's refusal
/// fails it; otherwise a release or fence also needs the execution stopped,
/// and a failed stop fails it; success answers with the operation's
/// acknowledgement (a prepare carrying its handle).
pub fn endpoint_response(op: EndpointOp, binding: u64, endpoint: Result<u64, String>, stopped: Result<bool, String>) -> (response: AgentResponse)
    ensures
        match endpoint {
            Err(reason) => response matches AgentResponse::Failed { binding: b, reason: r } && b == binding && r == reason,
            Ok(handle) => if (op == EndpointOp::Release || op == EndpointOp::Fence) && stopped is Err {
                response matches AgentResponse::Failed { binding: b, reason: r } && b == binding && r == stopped->Err_0
            } else {
                match op {
                    EndpointOp::Prepare => response matches AgentResponse::Prepared { binding: b, handle: h } && b == binding && h == handle,
                    EndpointOp::Activate => response matches AgentResponse::Activated { binding: b } && b == binding,
                    EndpointOp::Release => response matches AgentResponse::Released { binding: b } && b == binding,
                    EndpointOp::Fence => response matches AgentResponse::Fenced { binding: b } && b == binding,
                }
            },
        },
{
    match endpoint {
        Err(reason) => AgentResponse::Failed { binding, reason },
        Ok(handle) => match op {
            EndpointOp::Prepare => AgentResponse::Prepared { binding, handle },
            EndpointOp::Activate => AgentResponse::Activated { binding },
            EndpointOp::Release => match stopped {
                Ok(_) => AgentResponse::Released { binding },
                Err(reason) => AgentResponse::Failed { binding, reason },
            },
            EndpointOp::Fence => match stopped {
                Ok(_) => AgentResponse::Fenced { binding },
                Err(reason) => AgentResponse::Failed { binding, reason },
            },
        },
    }
}

/// The answer to a start request: a refused control generation or a failed
/// start fails it, else it started.
pub fn start_response(lease: u64, authorized: Result<bool, String>, started: Result<(), String>) -> (response: AgentResponse)
    ensures
        match authorized {
            Err(reason) => response matches AgentResponse::ExecutionFailed { lease: l, reason: r } && l == lease && r == reason,
            Ok(_) => match started {
                Ok(()) => response matches AgentResponse::ExecutionStarted { lease: l } && l == lease,
                Err(reason) => response matches AgentResponse::ExecutionFailed { lease: l, reason: r } && l == lease && r == reason,
            },
        },
{
    match authorized {
        Err(reason) => AgentResponse::ExecutionFailed { lease, reason },
        Ok(_) => match started {
            Ok(()) => AgentResponse::ExecutionStarted { lease },
            Err(reason) => AgentResponse::ExecutionFailed { lease, reason },
        },
    }
}

/// What the agent's components did for an action.
pub enum Performed {
    /// Nothing: the action is a refusal.
    Nothing,
    /// Discovery ran: the machine's description, or why it is incomplete.
    Described(Result<MachineDescription, String>),
    /// The execution supervisor's proven guarantees.
    Reported(ExecutionCapabilities),
    /// The lease's workload as the supervisor observed it.
    Observed(WorkStatus),
    /// The lease's captured output.
    Read(String),
    /// The endpoint operation's result and, for a release or fence, the
    /// stop of the lease's execution.
    Endpoint { endpoint: Result<u64, String>, stopped: Result<bool, String> },
    /// The control generation's check and, once it passed, the start.
    Start { authorized: Result<bool, String>, started: Result<(), String> },
}

/// The component results that fit an action.
pub open spec fn performed_for(action: AgentAction, performed: Performed) -> bool {
    match action {
        AgentAction::Describe => performed is Described,
        AgentAction::ReportCapabilities => performed is Reported,
        AgentAction::Refuse { .. } => performed is Nothing,
        AgentAction::Observe { .. } => performed is Observed,
        AgentAction::ReadLogs { .. } => performed is Read,
        AgentAction::Endpoint { .. } => performed is Endpoint,
        AgentAction::Start { .. } => performed is Start,
    }
}

/// The answer a handled request gets, for an agent with identity
/// `instance_id` and an optional configured `name`.
pub open spec fn answer_for(instance_id: Seq<char>, name: Option<Seq<char>>, action: AgentAction, performed: Performed, response: AgentResponse) -> bool {
    match (action, performed) {
        (AgentAction::Describe, Performed::Described(Ok(d))) => response matches AgentResponse::Welcome {
            instance_id: i, name: n, cpus, memory_bytes, host_nodes, devices,
        } && i@ == instance_id && n@ == (match name { Some(x) => x, None => d.name@ }) && cpus == d.cpus
            && memory_bytes == d.memory_bytes && host_nodes == d.host_nodes && devices == d.devices,
        (AgentAction::Describe, Performed::Described(Err(reason))) => response matches AgentResponse::Failed { binding, reason: r }
            && binding == 0 && r@ == "device discovery incomplete: "@ + reason@,
        (AgentAction::ReportCapabilities, Performed::Reported(c)) => response == AgentResponse::Capabilities { capabilities: c },
        (AgentAction::Refuse { binding, reason }, _) => response == AgentResponse::Failed { binding, reason },
        (AgentAction::Observe { lease }, Performed::Observed(status)) => response == AgentResponse::Running {
            lease,
            running: status == WorkStatus::Running,
            exit_code: match status {
                WorkStatus::Exited(code) => Some(code),
                _ => None,
            },
        },
        (AgentAction::ReadLogs { lease }, Performed::Read(output)) => response == AgentResponse::Logs { lease, output },
        (AgentAction::Endpoint { op, generation, .. }, Performed::Endpoint { endpoint, stopped }) => match endpoint {
            Err(reason) => response == AgentResponse::Failed { binding: generation.binding, reason },
            Ok(handle) => if (op == EndpointOp::Release || op == EndpointOp::Fence) && stopped is Err {
                response == AgentResponse::Failed { binding: generation.binding, reason: stopped->Err_0 }
            } else {
                response == match op {
                    EndpointOp::Prepare => AgentResponse::Prepared { binding: generation.binding, handle },
                    EndpointOp::Activate => AgentResponse::Activated { binding: generation.binding },
                    EndpointOp::Release => AgentResponse::Released { binding: generation.binding },
                    EndpointOp::Fence => AgentResponse::Fenced { binding: generation.binding },
                }
            },
        },
        (AgentAction::Start { lease, .. }, Performed::Start { authorized, started }) => match authorized {
            Err(reason) => response == AgentResponse::ExecutionFailed { lease, reason },
            Ok(_) => match started {
                Ok(()) => response == AgentResponse::ExecutionStarted { lease },
                Err(reason) => response == AgentResponse::ExecutionFailed { lease, reason },
            },
        },
        _ => false,
    }
}

/// The agent's answer to a request, from the action it asked for and what
/// the components did: a refusal fails with its reason; discovery answers
/// with the machine under the agent's identity (its configured name first)
/// or fails with why discovery is incomplete; a status query reports
/// whether the workload runs and its exit code; an endpoint operation and
/// a start answer as `endpoint_response` and `start_response` say.
pub fn agent_answer(instance_id: String, name: Option<String>, action: AgentAction, performed: Performed) -> (response: AgentResponse)
    requires
        performed_for(action, performed),
    ensures
        answer_for(instance_id@, match name { Some(x) => Some(x@), None => None }, action, performed, response),
{
    match action {
        AgentAction::Refuse { binding, reason } => AgentResponse::Failed { binding, reason },
        AgentAction::Describe => match performed {
            Performed::Described(Ok(d)) => AgentResponse::Welcome {
                instance_id,
                name: match name {
                    Some(n) => n,
                    None => d.name,
                },
                cpus: d.cpus,
                memory_bytes: d.memory_bytes,
                host_nodes: d.host_nodes,
                devices: d.devices,
            },
            Performed::Described(Err(reason)) => AgentResponse::Failed {
                binding: 0,
                reason: String::from_str("device discovery incomplete: ").concat(reason.as_str()),
            },
            _ => AgentResponse::Failed { binding: 0, reason: String::new() },
        },
        AgentAction::ReportCapabilities => match performed {
            Performed::Reported(capabilities) => AgentResponse::Capabilities { capabilities },
            _ => AgentResponse::Failed { binding: 0, reason: String::new() },
        },
        AgentAction::Observe { lease } => match performed {
            Performed::Observed(status) => {
                let (running, exit_code) = status_report(status);
                AgentResponse::Running { lease, running, exit_code }
            },
            _ => AgentResponse::Failed { binding: 0, reason: String::new() },
        },
        AgentAction::ReadLogs { lease } => match performed {
            Performed::Read(output) => AgentResponse::Logs { lease, output },
            _ => AgentResponse::Failed { binding: 0, reason: String::new() },
        },
        AgentAction::Endpoint { op, generation, .. } => match performed {
            Performed::Endpoint { endpoint, stopped } => endpoint_response(op, generation.binding, endpoint, stopped),
            _ => AgentResponse::Failed { binding: 0, reason: String::new() },
        },
        AgentAction::Start { lease, .. } => match performed {
            Performed::Start { authorized, started } => start_response(lease, authorized, started),
            _ => AgentResponse::Failed { binding: 0, reason: String::new() },
        },
    }
}

} // verus!
