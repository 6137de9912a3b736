//! Agent protocol: length-prefixed JSON frames between controller and agent.
//!
//! The controller sends `AgentRequest`s derived from kernel effects; the
//! agent answers with `AgentResponse`s. Every request carries the binding's
//! session and fence, so the seam between decision and enforcement survives
//! the network unchanged. This module holds the message types and the
//! framing: a little-endian u32 length, then that many payload bytes.
use vstd::prelude::*;

use crate::discover::{views_of, DeviceSpec, HostNodeSpec};
use crate::model::Attrs;
use crate::workload::{PortPublish, StorageMount};

verus! {

/// How a resource binding shares its node.
#[derive(Clone, Copy, Debug, PartialEq, Eq, PartialOrd, Ord, Structural)]
pub enum BindingScope {
    /// One binding owns the (provider, node) endpoint.
    Exclusive,
    /// Each binding owns its own share; shares never fence siblings.
    IndependentShare,
}

/// One claimed device handed to an execution adapter: its stable `id`, the
/// host path it is reachable through, support paths, and an optional
/// provider-native attachment name.
#[derive(Clone, Debug, PartialEq, Eq)]
pub struct DeviceAccess {
    pub id: String,
    pub dev: String,
    pub paths: Vec<String>,
    /// Provider-native container attachment, such as `nvidia.com/gpu=GPU-...`.
    pub cdi: Option<String>,
}

/// serde_json's reading of a JSON text as a list of strings; None when the
/// text is not a JSON array of strings.
pub uninterp spec fn json_string_list(text: Seq<char>) -> Option<Seq<Seq<char>>>;

/// `serde_json::from_str::<Vec<String>>`, None on any parse error.
#[verifier::external_body]
fn parse_string_list(text: &str) -> (r: Option<Vec<String>>)
    ensures
        match r {
            Some(v) => json_string_list(text@) == Some(views_of(v@)),
            None => json_string_list(text@) is None,
        },
{
    serde_json::from_str::<Vec<String>>(text).ok()
}

/// The support paths recorded in a device node's `access` attribute.
pub open spec fn access_paths(attrs: Map<Seq<char>, Seq<char>>) -> Seq<Seq<char>> {
    if attrs.contains_key("access"@) {
        match json_string_list(attrs["access"@]) {
            Some(paths) => paths,
            None => Seq::empty(),
        }
    } else {
        Seq::empty()
    }
}

impl DeviceAccess {
    /// The access record a device node's attributes describe: None when the
    /// node has no non-empty `dev`; `id` defaults to the path.
    pub open spec fn from_attrs_spec(attrs: Map<Seq<char>, Seq<char>>) -> Option<(Seq<char>, Seq<char>, Seq<Seq<char>>, Option<Seq<char>>)> {
        if !attrs.contains_key("dev"@) || attrs["dev"@].len() == 0 {
            None
        } else {
            let dev = attrs["dev"@];
            let id = if attrs.contains_key("id"@) { attrs["id"@] } else { dev };
            let cdi = if attrs.contains_key("cdi"@) { Some(attrs["cdi"@]) } else { None };
            Some((id, dev, access_paths(attrs), cdi))
        }
    }

    pub open spec fn parts(self) -> (Seq<char>, Seq<char>, Seq<Seq<char>>, Option<Seq<char>>) {
        (self.id@, self.dev@, views_of(self.paths@), match self.cdi {
            Some(c) => Some(c@),
            None => None,
        })
    }

    /// Build from a device node's graph attributes.
    pub fn from_attrs(attrs: &Attrs) -> (access: Option<DeviceAccess>)
        requires
            attrs.wf(),
        ensures
            match access {
                Some(a) => Self::from_attrs_spec(attrs.view()) == Some(a.parts()),
                None => Self::from_attrs_spec(attrs.view()) is None,
            },
    {
        let dev = match attrs.get("dev") {
            Some(dev) => dev,
            None => return None,
        };
        if dev.as_str().is_empty() {
            return None;
        }
        let paths = match attrs.get("access") {
            Some(text) => match parse_string_list(text.as_str()) {
                Some(paths) => paths,
                None => Vec::new(),
            },
            None => Vec::new(),
        };
        assert(paths@.len() == 0 ==> views_of(paths@) =~= Seq::<Seq<char>>::empty());
        let id = match attrs.get("id") {
            Some(id) => id,
            None => dev.clone(),
        };
        let cdi = attrs.get("cdi");
        Some(DeviceAccess { id, dev, paths, cdi })
    }
}

/// Resource limits derived from a lease's claims. Zero means unlimited.
#[derive(Clone, Copy, Debug, Default, PartialEq, Eq, Structural)]
pub struct LeaseLimits {
    pub cpu_count: u64,
    pub memory_bytes: u64,
}

impl LeaseLimits {
    pub open spec fn spec_is_empty(&self) -> bool {
        self.cpu_count == 0 && self.memory_bytes == 0
    }

    /// No limit at all.
    pub fn is_empty(&self) -> (r: bool)
        ensures
            r == self.spec_is_empty(),
    {
        self.cpu_count == 0 && self.memory_bytes == 0
    }
}

/// Which execution guarantees one runtime proved on this agent.
#[derive(Clone, Copy, Debug, Default, PartialEq, Eq, Structural)]
pub struct RuntimeCapabilities {
    pub available: bool,
    pub cpu_limit: bool,
    pub memory_limit: bool,
    pub device_isolation: bool,
    pub physical_cpu_placement: bool,
    pub numa_memory_placement: bool,
}

/// Guarantees of both execution classes an agent supervises.
#[derive(Clone, Copy, Debug, Default, PartialEq, Eq, Structural)]
pub struct ExecutionCapabilities {
    pub process: RuntimeCapabilities,
    pub container: RuntimeCapabilities,
}

/// Connection greeting: role declaration, sent as the first framed message
/// after the handshake authenticates and encrypts the link.
#[derive(Clone, Debug)]
pub enum Greeting {
    /// A dial-in agent announcing its machine.
    Agent {
        instance_id: String,
        name: String,
        cpus: u64,
        memory_bytes: u64,
        host_nodes: Vec<HostNodeSpec>,
        devices: Vec<DeviceSpec>,
    },
    /// A CLI client.
    Client,
}

/// A controller request to an agent.
#[derive(Clone, Debug)]
pub enum AgentRequest {
    /// Ask the agent to describe its machine.
    Hello,
    /// Ask which execution guarantees the agent can prove.
    Capabilities,
    /// Dial-in registration; `instance_id` is the agent's stable identity.
    Register {
        instance_id: String,
        name: String,
        cpus: u64,
        memory_bytes: u64,
        host_nodes: Vec<HostNodeSpec>,
        devices: Vec<DeviceSpec>,
    },
    Prepare { binding: u64, lease: u64, node: u64, provider: u64, scope: BindingScope, session: u64, fence: u64, epoch: u64 },
    Activate { binding: u64, lease: u64, node: u64, provider: u64, scope: BindingScope, session: u64, fence: u64, epoch: u64 },
    /// Start one workload member under an activated lease.
    StartExecution {
        lease: u64,
        session: u64,
        epoch: u64,
        command: Vec<String>,
        limits: LeaseLimits,
        /// OCI image reference; empty runs the command as a plain process.
        image: String,
        storage: Vec<StorageMount>,
        ports: Vec<PortPublish>,
        /// Seconds between SIGTERM and SIGKILL on teardown.
        grace_secs: u32,
        devices: Vec<DeviceAccess>,
    },
    Release { binding: u64, lease: u64, node: u64, provider: u64, scope: BindingScope, session: u64, fence: u64, epoch: u64 },
    Fence { binding: u64, lease: u64, node: u64, provider: u64, scope: BindingScope, session: u64, fence: u64, epoch: u64 },
    /// Liveness probe for a lease's workload; read-only.
    Status { lease: u64 },
    /// A lease's captured output; read-only.
    Logs { lease: u64 },
}

/// An agent's answer.
#[derive(Clone, Debug)]
pub enum AgentResponse {
    Welcome {
        instance_id: String,
        name: String,
        cpus: u64,
        memory_bytes: u64,
        host_nodes: Vec<HostNodeSpec>,
        devices: Vec<DeviceSpec>,
    },
    Capabilities { capabilities: ExecutionCapabilities },
    Prepared { binding: u64, handle: u64 },
    Activated { binding: u64 },
    ExecutionStarted { lease: u64 },
    ExecutionFailed { lease: u64, reason: String },
    Released { binding: u64 },
    Fenced { binding: u64 },
    /// The agent refused or failed the operation.
    Failed { binding: u64, reason: String },
    Running {
        lease: u64,
        running: bool,
        /// Set once the workload has exited; None while running or unknown.
        exit_code: Option<i32>,
    },
    Logs { lease: u64, output: String },
}

// ---------------------------------------------------------------------------
// Framing.

/// Upper bound on one frame; refused before any allocation.
pub const MAX_FRAME: usize = 16777216;

/// The four little-endian bytes of `n`.
pub open spec fn le_bytes(n: u32) -> Seq<u8> {
    seq![(n & 0xff) as u8, ((n >> 8u32) & 0xff) as u8, ((n >> 16u32) & 0xff) as u8, ((n >> 24u32) & 0xff) as u8]
}

/// The number four little-endian bytes spell.
pub open spec fn le_value(b: Seq<u8>) -> int {
    b[0] as int + 256 * (b[1] as int) + 65536 * (b[2] as int) + 16777216 * (b[3] as int)
}

/// The length prefix of a frame whose payload is `len` bytes long: the
/// length as a u32 (truncated, as `len as u32`), little-endian.
pub fn frame_header(len: usize) -> (header: [u8; 4])
    ensures
        header@ == le_bytes(len as u32),
{
    let n = #[verifier::truncate] (len as u32);
    let header = [
        (n & 0xff) as u8,
        ((n >> 8u32) & 0xff) as u8,
        ((n >> 16u32) & 0xff) as u8,
        ((n >> 24u32) & 0xff) as u8,
    ];
    assert(header@ =~= le_bytes(len as u32));
    header
}

/// One whole frame: the length prefix, then the payload.
pub fn encode_frame(payload: &[u8]) -> (frame: Vec<u8>)
    ensures
        frame@ == le_bytes(payload@.len() as u32) + payload@,
{
    let header = frame_header(payload.len());
    let mut frame: Vec<u8> = Vec::new();
    let mut i: usize = 0;
    while i < 4
        invariant
            i <= 4,
            header@ == le_bytes(payload@.len() as u32),
            frame@ == header@.take(i as int),
        decreases 4 - i,
    {
        frame.push(header[i]);
        i = i + 1;
        assert(frame@ =~= header@.take(i as int));
    }
    let mut j: usize = 0;
    while j < payload.len()
        invariant
            j <= payload@.len(),
            header@ == le_bytes(payload@.len() as u32),
            frame@ == header@ + payload@.take(j as int),
        decreases payload@.len() - j,
    {
        frame.push(payload[j]);
        j = j + 1;
        assert(frame@ =~= header@ + payload@.take(j as int));
    }
    assert(payload@.take(payload@.len() as int) =~= payload@);
    frame
}

/// The payload length a frame header announces, or None when it exceeds
/// `MAX_FRAME` ("frame exceeds maximum size").
pub fn payload_length(header: [u8; 4]) -> (len: Option<usize>)
    ensures
        match len {
            Some(n) => n as int == le_value(header@) && n <= MAX_FRAME,
            None => le_value(header@) > MAX_FRAME,
        },
{
    let value = (header[0] as u32) | ((header[1] as u32) << 8u32) | ((header[2] as u32) << 16u32) | ((header[3]
        as u32) << 24u32);
    let (b0, b1, b2, b3) = (header[0], header[1], header[2], header[3]);
    assert(value as int == b0 as int + 256 * (b1 as int) + 65536 * (b2 as int) + 16777216 * (b3 as int)) by (bit_vector)
        requires
            value == (b0 as u32) | ((b1 as u32) << 8u32) | ((b2 as u32) << 16u32) | ((b3 as u32) << 24u32),
    ;
    if value as usize > MAX_FRAME {
        None
    } else {
        Some(value as usize)
    }
}

/// What a reader recovers from a frame is what the writer framed: the
/// header of an encoded payload announces exactly the payload's length,
/// for every payload up to `MAX_FRAME` bytes.
pub proof fn lemma_frame_roundtrip(len: usize)
    requires
        len <= MAX_FRAME,
    ensures
        le_value(le_bytes(len as u32)) == len,
{
    let n = len as u32;
    assert(n as int == len);
    assert(((n & 0xff) as u8) as int + 256 * (((n >> 8u32) & 0xff) as u8) as int + 65536 * (((n >> 16u32) & 0xff)
        as u8) as int + 16777216 * (((n >> 24u32) & 0xff) as u8) as int == n as int) by (bit_vector);
}

} // verus!
