# archon_node

One machine's part in running leased workloads: it describes the machine as
a resource graph fragment, enforces claims with cgroup limits, a device
filter and container arguments, and decides how the control plane records
bindings, completions, restarts and returning machines.

The library under `src/` is written in Verus; every function there carries a
`requires`/`ensures` contract that Verus proves.

- `text`, `model`: character and string helpers, node ids, resource kinds,
  capacities and attribute maps.
- `discover`, `inventory`: parsers for sysfs lists, `nvidia-smi` rows,
  declared devices and `/proc/meminfo`, and validation of a machine
  description.
- `graph`, `reconcile`, `registration`, `ownership`: the graph fragment a
  description builds, claim contracts and fact writers, reconciliation of a
  returning machine's devices and host facts.
- `protocol`, `transport`: the agent protocol's framing, the link's
  pre-shared key and chunking of encrypted frames.
- `device_filter`, `cgroup`, `container`, `runtime`: the eBPF device
  program and its semantics, cgroup limit plans, container engine
  arguments, and process lifecycle decisions.
- `provider`, `agent`, `service`: endpoint keys and control generations,
  request handling on the agent, and the control plane's decisions.

`app/` is ordinary Rust around the library: the command line, file and
socket I/O, the Noise handshake, syscalls that load and attach the device
program, and process spawning.

The control plane's cluster state (graph, leases, bindings, sessions and
the command log) and the endpoint state machine an agent runs for each
binding come from the project's kernel crate, which this repository does
not carry. What needs them stays out: the agent daemon and its remote
client, the local demo, the node service's commit and replay loop,
service groups, and the agent's endpoint bookkeeping. The library holds
the decisions those parts make, as functions from the state they read to
the commands or answers they produce (`service`, `registration`,
`ownership`, `reconcile`, `agent`), so a control plane built on the kernel
applies verified decisions.

Proof functions named `lemma_*` state the library's laws, among them that the
compiled device program admits exactly what the policy allows, that a frame
header round-trips, that buffered plaintext comes out in order, that control
generations only move forward, and that a device the agent no longer reports
never regains an owner.
