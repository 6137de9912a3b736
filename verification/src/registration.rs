//! Registering a machine's agent: reading its welcome, checking that a
//! returning agent reports exactly the host facts already recorded, and
//! the facts a new machine contributes.
use vstd::prelude::*;

use crate::discover::{description_error, host_ids, validate_machine_description, HostNodeSpec, HostView, MachineDescription};
use crate::graph::{
    batch_view, build_graph, claim_bindings, claim_updates, distinct_ids, fact_batches, fragment_of, ids_needed,
    lemma_validated_references_resolve, local_ids_of, provider_fact_batches, references_resolve, sorted_order,
    ClaimBindingUpdate, LocalMachine, ProviderFactBatch,
};
use crate::reconcile::NodeState;
use crate::model::{Edge, Node};
use crate::model::{spec_qty, Attrs, CapacityDimension, NodeId, Quantity, ResourceClass};
use crate::protocol::AgentResponse;
use crate::text::{debug_quoted, debug_str};

verus! {

/// The machine description an agent's welcome carries; None for any other
/// answer.
pub fn welcome_description(response: AgentResponse) -> (d: Option<MachineDescription>)
    ensures
        match response {
            AgentResponse::Welcome { instance_id, name, cpus, memory_bytes, host_nodes, devices } => d matches Some(m)
                && m.instance_id == instance_id && m.name == name && m.cpus == cpus && m.memory_bytes == memory_bytes
                && m.host_nodes == host_nodes && m.devices == devices,
            _ => d is None,
        },
{
    match response {
        AgentResponse::Welcome { instance_id, name, cpus, memory_bytes, host_nodes, devices } => Some(
            MachineDescription { instance_id, name, cpus, memory_bytes, host_nodes, devices },
        ),
        _ => None,
    }
}

/// A known machine returns after a controller restart when its recorded
/// session predates this controller's first session; its live work must
/// then be proven, not re-executed.
pub fn returning_after_restart(new_machine: bool, prior_session: Option<u64>, floor: u64) -> (r: bool)
    ensures
        r == (!new_machine && (prior_session matches Some(prior) && prior < floor)),
{
    !new_machine && match prior_session {
        Some(prior) => prior < floor,
        None => false,
    }
}

// ---------------------------------------------------------------------------
// A returning agent's host facts.

/// A node recorded under the machine (any descendant), with what host
/// verification reads of it.
#[derive(Clone, Debug)]
pub struct RecordedNode {
    pub node: NodeId,
    pub kind: ResourceClass,
    pub attrs: Attrs,
    pub capacity: Quantity,
    /// Its parent in the graph.
    pub parent: Option<NodeId>,
}

pub struct RecordedNodeView {
    pub node: NodeId,
    pub kind: ResourceClass,
    pub attrs: Map<Seq<char>, Seq<char>>,
    pub capacity: Quantity,
    pub parent: Option<NodeId>,
}

impl RecordedNode {
    pub open spec fn view(self) -> RecordedNodeView {
        RecordedNodeView { node: self.node, kind: self.kind, attrs: self.attrs.view(), capacity: self.capacity, parent: self.parent }
    }
}

pub open spec fn recorded_views(v: Seq<RecordedNode>) -> Seq<RecordedNodeView> {
    v.map_values(|n: RecordedNode| n.view())
}

pub open spec fn is_host_node(n: RecordedNodeView) -> bool {
    n.attrs.contains_key("archon.host-id"@)
}

/// The nodes of `kind`, in order.
pub open spec fn of_kind(nodes: Seq<RecordedNodeView>, kind: ResourceClass) -> Seq<RecordedNodeView>
    decreases nodes.len(),
{
    if nodes.len() == 0 {
        Seq::empty()
    } else {
        let prev = of_kind(nodes.drop_last(), kind);
        if nodes.last().kind == kind { prev.push(nodes.last()) } else { prev }
    }
}

/// The flat shape still holds: as many unit CPU nodes as the agent reports
/// CPUs, and one memory node of its memory size.
pub open spec fn flat_facts_hold(nodes: Seq<RecordedNodeView>, cpus: u64, memory_bytes: u64) -> bool {
    let cpu_nodes = of_kind(nodes, ResourceClass::Cpu);
    let memory_nodes = of_kind(nodes, ResourceClass::Memory);
    &&& cpu_nodes.len() == cpus
    &&& all_unit(cpu_nodes)
    &&& memory_nodes.len() == 1
    &&& memory_nodes[0].capacity.amount(CapacityDimension::Bytes) == memory_bytes
}

/// The host id of the node `parent` names among the recorded nodes.
pub open spec fn host_id_of(nodes: Seq<RecordedNodeView>, parent: NodeId) -> Option<Seq<char>>
    decreases nodes.len(),
{
    if nodes.len() == 0 {
        None
    } else if nodes[0].node == parent {
        if is_host_node(nodes[0]) { Some(nodes[0].attrs["archon.host-id"@]) } else { None }
    } else {
        host_id_of(nodes.drop_first(), parent)
    }
}

/// The recorded host inventory, in descendant order, as the agent would
/// report it; refused when a host node lost its parent or hangs under a
/// node that is no host.
pub open spec fn recorded_hosts(machine: NodeId, all: Seq<RecordedNodeView>, rest: Seq<RecordedNodeView>) -> Result<Seq<HostView>, Seq<char>>
    decreases rest.len(),
{
    if rest.len() == 0 {
        Ok(Seq::empty())
    } else {
        match recorded_hosts(machine, all, rest.drop_last()) {
            Err(e) => Err(e),
            Ok(prev) => {
                let n = rest.last();
                if !is_host_node(n) {
                    Ok(prev)
                } else {
                    let id = n.attrs["archon.host-id"@];
                    let parent: Result<Option<Seq<char>>, Seq<char>> = match n.parent {
                        None => Err("host node "@ + debug_quoted(id) + " lost containment"@),
                        Some(p) => if p == machine {
                            Ok(None)
                        } else {
                            match host_id_of(all, p) {
                                Some(pid) => Ok(Some(pid)),
                                None => Err("host node "@ + debug_quoted(id) + " has a non-host containment parent"@),
                            }
                        },
                    };
                    match parent {
                        Err(e) => Err(e),
                        Ok(parent) => Ok(prev.push(HostView {
                            id,
                            kind: n.kind,
                            parent,
                            attrs: n.attrs.remove("archon.host-id"@),
                            capacity: n.capacity,
                        })),
                    }
                }
            },
        }
    }
}

/// The two inventories hold the same hosts. With the reported ids
/// distinct, this is what sorting both by id and comparing them decides.
pub open spec fn same_hosts(actual: Seq<HostView>, expected: Seq<HostView>) -> bool {
    &&& actual.len() == expected.len()
    &&& distinct_ids(host_ids(actual))
    &&& forall|i: int| 0 <= i < actual.len() ==> #[trigger] expected.contains(actual[i])
}

pub open spec fn host_check(machine: NodeId, nodes: Seq<RecordedNodeView>, d: MachineDescription) -> Result<(), Seq<char>> {
    if d.host_nodes@.len() == 0 {
        if exists|i: int| 0 <= i < nodes.len() && #[trigger] is_host_node(nodes[i]) {
            Err("returning agent omitted previously authoritative normalized host topology"@)
        } else if !flat_facts_hold(nodes, d.cpus, d.memory_bytes) {
            Err("returning agent changed host CPU or memory facts"@)
        } else {
            Ok(())
        }
    } else {
        match recorded_hosts(machine, nodes, nodes) {
            Err(e) => Err(e),
            Ok(actual) => if same_hosts(actual, d.hosts()) {
                Ok(())
            } else {
                Err("returning agent changed authoritative host topology or capacity"@)
            },
        }
    }
}

pub open spec fn nodes_wf(nodes: Seq<RecordedNode>) -> bool {
    forall|i: int| 0 <= i < nodes.len() ==> (#[trigger] nodes[i]).attrs.wf()
}

fn flat_facts(nodes: &[RecordedNode], cpus: u64, memory_bytes: u64) -> (r: bool)
    ensures
        r == flat_facts_hold(recorded_views(nodes@), cpus, memory_bytes),
{
    let ghost all = recorded_views(nodes@);
    let mut cpu_count: usize = 0;
    let mut cpus_unit = true;
    let mut memory_count: usize = 0;
    let mut first_memory: u64 = 0;
    let mut i: usize = 0;
    while i < nodes.len()
        invariant
            all == recorded_views(nodes@),
            i <= nodes@.len(),
            cpu_count == of_kind(all.take(i as int), ResourceClass::Cpu).len(),
            cpus_unit == all_unit(of_kind(all.take(i as int), ResourceClass::Cpu)),
            memory_count == of_kind(all.take(i as int), ResourceClass::Memory).len(),
            memory_count > 0 ==> first_memory == of_kind(all.take(i as int), ResourceClass::Memory)[0].capacity.amount(CapacityDimension::Bytes),
            cpu_count <= i && memory_count <= i,
        decreases nodes@.len() - i,
    {
        let n = &nodes[i];
        let ghost prev_cpu = of_kind(all.take(i as int), ResourceClass::Cpu);
        let ghost prev_mem = of_kind(all.take(i as int), ResourceClass::Memory);
        assert(all.take(i + 1).drop_last() =~= all.take(i as int));
        assert(all.take(i + 1).last() == n.view());
        if n.kind == ResourceClass::Cpu {
            let unit = n.capacity == Quantity { count: Some(1), bytes: None };
            proof {
                let now = of_kind(all.take(i + 1), ResourceClass::Cpu);
                assert(now == prev_cpu.push(n.view()));
                lemma_all_unit_push(prev_cpu, n.view());
            }
            cpus_unit = cpus_unit && unit;
            cpu_count = cpu_count + 1;
        } else {
            assert(of_kind(all.take(i + 1), ResourceClass::Cpu) == prev_cpu);
        }
        if n.kind == ResourceClass::Memory {
            if memory_count == 0 {
                first_memory = n.capacity.get(CapacityDimension::Bytes);
            }
            proof {
                let now = of_kind(all.take(i + 1), ResourceClass::Memory);
                assert(now == prev_mem.push(n.view()));
                assert(now[0] == (if prev_mem.len() > 0 { prev_mem[0] } else { n.view() }));
            }
            memory_count = memory_count + 1;
        }
        i = i + 1;
    }
    assert(all.take(i as int) =~= all);
    cpu_count as u64 == cpus && cpus_unit && memory_count == 1 && first_memory == memory_bytes
}

pub open spec fn all_unit(cpus: Seq<RecordedNodeView>) -> bool {
    forall|i: int| 0 <= i < cpus.len() ==> #[trigger] cpus[i].capacity == spec_qty(CapacityDimension::Count, 1)
}

proof fn lemma_all_unit_push(s: Seq<RecordedNodeView>, x: RecordedNodeView)
    ensures
        all_unit(s.push(x)) == (all_unit(s) && x.capacity == spec_qty(CapacityDimension::Count, 1)),
{
    let t = s.push(x);
    if all_unit(s) && x.capacity == spec_qty(CapacityDimension::Count, 1) {
        assert forall|i: int| 0 <= i < t.len() implies #[trigger] t[i].capacity == spec_qty(CapacityDimension::Count, 1) by {
            if i < s.len() {
                assert(t[i] == s[i]);
            }
        }
    } else if !all_unit(s) {
        let k = choose|k: int| 0 <= k < s.len() && !(#[trigger] s[k].capacity == spec_qty(CapacityDimension::Count, 1));
        assert(t[k] == s[k]);
    } else {
        assert(t[s.len() as int] == x);
    }
}

fn host_id_attr(n: &RecordedNode) -> (r: Option<String>)
    requires
        n.attrs.wf(),
    ensures
        match r {
            Some(s) => is_host_node(n.view()) && s@ == n.view().attrs["archon.host-id"@],
            None => !is_host_node(n.view()),
        },
{
    n.attrs.get("archon.host-id")
}

fn host_id_of_node(nodes: &[RecordedNode], parent: NodeId) -> (r: Option<String>)
    requires
        nodes_wf(nodes@),
    ensures
        match r {
            Some(s) => host_id_of(recorded_views(nodes@), parent) == Some(s@),
            None => host_id_of(recorded_views(nodes@), parent) is None,
        },
{
    let ghost all = recorded_views(nodes@);
    let mut i: usize = 0;
    assert(all.skip(0) =~= all);
    while i < nodes.len()
        invariant
            all == recorded_views(nodes@),
            nodes_wf(nodes@),
            i <= nodes@.len(),
            host_id_of(all, parent) == host_id_of(all.skip(i as int), parent),
        decreases nodes@.len() - i,
    {
        assert(all.skip(i as int).drop_first() =~= all.skip(i + 1));
        assert(all.skip(i as int)[0] == nodes@[i as int].view());
        if nodes[i].node == parent {
            assert(nodes@[i as int].attrs.wf());
            return host_id_attr(&nodes[i]);
        }
        i = i + 1;
    }
    None
}

pub open spec fn host_views(v: Seq<HostNodeSpec>) -> Seq<HostView> {
    v.map_values(|h: HostNodeSpec| h.view())
}

/// The host inventory recorded under `machine` (see `recorded_hosts`).
fn recorded_host_specs(machine: NodeId, nodes: &[RecordedNode]) -> (r: Result<Vec<HostNodeSpec>, String>)
    requires
        nodes_wf(nodes@),
    ensures
        match r {
            Ok(hosts) => recorded_hosts(machine, recorded_views(nodes@), recorded_views(nodes@)) == Ok::<Seq<HostView>, Seq<char>>(host_views(hosts@))
                && forall|k: int| 0 <= k < hosts@.len() ==> (#[trigger] hosts@[k]).attrs.wf(),
            Err(e) => recorded_hosts(machine, recorded_views(nodes@), recorded_views(nodes@)) == Err::<Seq<HostView>, Seq<char>>(e@),
        },
{
    let ghost all = recorded_views(nodes@);
    let ghost f = |p: Seq<RecordedNodeView>| recorded_hosts(machine, all, p);
    let mut hosts: Vec<HostNodeSpec> = Vec::new();
    let mut i: usize = 0;
    assert(all.take(0) =~= Seq::<RecordedNodeView>::empty());
    assert(host_views(hosts@) =~= Seq::<HostView>::empty());
    while i < nodes.len()
        invariant
            all == recorded_views(nodes@),
            f == (|p: Seq<RecordedNodeView>| recorded_hosts(machine, all, p)),
            nodes_wf(nodes@),
            i <= nodes@.len(),
            recorded_hosts(machine, all, all.take(i as int)) == Ok::<Seq<HostView>, Seq<char>>(host_views(hosts@)),
            forall|k: int| 0 <= k < hosts@.len() ==> (#[trigger] hosts@[k]).attrs.wf(),
        decreases nodes@.len() - i,
    {
        let n = &nodes[i];
        assert(n.attrs.wf());
        assert(all.take(i + 1).drop_last() =~= all.take(i as int));
        assert(all.take(i + 1).last() == n.view());
        match host_id_attr(n) {
            None => {},
            Some(id) => {
                let parent: Option<String> = match n.parent {
                    None => {
                        let e = String::from_str("host node ").concat(debug_str(id.as_str()).as_str()).concat(" lost containment");
                        proof {
                            crate::discover::lemma_first_error_sticks(f, all, i + 1);
                            assert(all.take(nodes@.len() as int) =~= all);
                        }
                        return Err(e);
                    },
                    Some(p) => {
                        if p == machine {
                            None
                        } else {
                            match host_id_of_node(nodes, p) {
                                Some(pid) => Some(pid),
                                None => {
                                    let e = String::from_str("host node ").concat(debug_str(id.as_str()).as_str()).concat(
                                        " has a non-host containment parent",
                                    );
                                    proof {
                                        crate::discover::lemma_first_error_sticks(f, all, i + 1);
                                        assert(all.take(nodes@.len() as int) =~= all);
                                    }
                                    return Err(e);
                                },
                            }
                        }
                    },
                };
                let mut attrs = n.attrs.copied();
                attrs.remove("archon.host-id");
                let ghost before = hosts@;
                hosts.push(HostNodeSpec { id, kind: n.kind, parent, attrs, capacity: n.capacity });
                assert(host_views(hosts@) =~= host_views(before).push(hosts@.last().view()));
            },
        }
        i = i + 1;
    }
    assert(all.take(i as int) =~= all);
    Ok(hosts)
}

fn same_host(a: &HostNodeSpec, b: &HostNodeSpec) -> (r: bool)
    requires
        a.attrs.wf(),
        b.attrs.wf(),
    ensures
        r == (a.view() == b.view()),
{
    if !crate::text::str_eq(a.id.as_str(), b.id.as_str()) || a.kind != b.kind || a.capacity != b.capacity {
        return false;
    }
    let parents = match (&a.parent, &b.parent) {
        (Some(x), Some(y)) => crate::text::str_eq(x.as_str(), y.as_str()),
        (None, None) => true,
        _ => false,
    };
    parents && a.attrs.same_as(&b.attrs)
}

fn same_host_sets(actual: &Vec<HostNodeSpec>, expected: &Vec<HostNodeSpec>) -> (r: bool)
    requires
        forall|i: int| 0 <= i < actual@.len() ==> (#[trigger] actual@[i]).attrs.wf(),
        forall|i: int| 0 <= i < expected@.len() ==> (#[trigger] expected@[i]).attrs.wf(),
    ensures
        r == same_hosts(host_views(actual@), host_views(expected@)),
{
    let ghost av = host_views(actual@);
    let ghost ev = host_views(expected@);
    if actual.len() != expected.len() {
        return false;
    }
    let mut i: usize = 0;
    while i < actual.len()
        invariant
            av == host_views(actual@),
            ev == host_views(expected@),
            forall|x: int| 0 <= x < actual@.len() ==> (#[trigger] actual@[x]).attrs.wf(),
            forall|x: int| 0 <= x < expected@.len() ==> (#[trigger] expected@[x]).attrs.wf(),
            i <= actual@.len(),
            forall|x: int, y: int| 0 <= x < y < i ==> host_ids(av)[x] != host_ids(av)[y],
            forall|x: int| 0 <= x < i ==> #[trigger] ev.contains(av[x]),
        decreases actual@.len() - i,
    {
        let mut j: usize = 0;
        while j < i
            invariant
                av == host_views(actual@),
                i < actual@.len(),
                j <= i,
                forall|y: int| 0 <= y < j ==> host_ids(av)[y] != host_ids(av)[i as int],
            decreases i - j,
        {
            if crate::text::str_eq(actual[j].id.as_str(), actual[i].id.as_str()) {
                proof {
                    assert(host_ids(av)[j as int] == host_ids(av)[i as int]);
                    assert(!distinct_ids(host_ids(av)));
                }
                return false;
            }
            j = j + 1;
        }
        let mut k: usize = 0;
        let mut found = false;
        while k < expected.len()
            invariant
                av == host_views(actual@),
                ev == host_views(expected@),
                forall|x: int| 0 <= x < actual@.len() ==> (#[trigger] actual@[x]).attrs.wf(),
                forall|x: int| 0 <= x < expected@.len() ==> (#[trigger] expected@[x]).attrs.wf(),
                i < actual@.len(),
                k <= expected@.len(),
                found == (exists|y: int| 0 <= y < k && ev[y] == av[i as int]),
            decreases expected@.len() - k,
        {
            if !found && same_host(&actual[i], &expected[k]) {
                found = true;
            }
            proof {
                assert(ev[k as int] == expected@[k as int].view());
                assert(av[i as int] == actual@[i as int].view());
            }
            k = k + 1;
        }
        if !found {
            proof {
                assert(!ev.contains(av[i as int]));
            }
            return false;
        }
        i = i + 1;
    }
    true
}

/// Check that a returning agent reports exactly the host facts recorded for
/// its machine: without a host inventory, no normalized topology may be
/// recorded and the CPU and memory nodes must match its counts; with one,
/// the recorded host nodes, read back as an inventory, must be the same
/// hosts. `recorded` lists every node under the machine.
pub fn verify_registered_host(machine: NodeId, recorded: &[RecordedNode], description: &MachineDescription) -> (r: Result<(), String>)
    requires
        nodes_wf(recorded@),
        description.wf(),
    ensures
        match r {
            Ok(()) => host_check(machine, recorded_views(recorded@), *description) == Ok::<(), Seq<char>>(()),
            Err(e) => host_check(machine, recorded_views(recorded@), *description) == Err::<(), Seq<char>>(e@),
        },
{
    let ghost all = recorded_views(recorded@);
    if description.host_nodes.len() == 0 {
        let mut i: usize = 0;
        while i < recorded.len()
            invariant
                all == recorded_views(recorded@),
                nodes_wf(recorded@),
                description.host_nodes@.len() == 0,
                i <= recorded@.len(),
                forall|k: int| 0 <= k < i ==> !is_host_node(#[trigger] all[k]),
            decreases recorded@.len() - i,
        {
            assert(recorded@[i as int].attrs.wf());
            if recorded[i].attrs.contains_key("archon.host-id") {
                assert(all[i as int] == recorded@[i as int].view());
                assert(is_host_node(all[i as int]));
                assert(host_check(machine, all, *description) == Err::<(), Seq<char>>(
                    "returning agent omitted previously authoritative normalized host topology"@,
                ));
                return Err(String::from_str("returning agent omitted previously authoritative normalized host topology"));
            }
            i = i + 1;
        }
        if !flat_facts(recorded, description.cpus, description.memory_bytes) {
            return Err(String::from_str("returning agent changed host CPU or memory facts"));
        }
        return Ok(());
    }
    let actual = recorded_host_specs(machine, recorded)?;
    proof {
        assert forall|x: int| 0 <= x < description.host_nodes@.len() implies (#[trigger] description.host_nodes@[x]).attrs.wf() by {
            assert(description.host_nodes@[x].wf());
        }
    }
    assert(host_views(description.host_nodes@) =~= description.hosts());
    if same_host_sets(&actual, &description.host_nodes) {
        Ok(())
    } else {
        Err(String::from_str("returning agent changed authoritative host topology or capacity"))
    }
}

/// What a machine registering for the first time contributes: its graph
/// fragment numbered after `base` (the largest id in the graph), split
/// between the host and device fact writers, and the claim contracts of
/// its nodes.
pub fn new_machine_facts(description: &MachineDescription, base: u64) -> (r: (LocalMachine, Vec<ProviderFactBatch>, Vec<ClaimBindingUpdate>))
    requires
        description.wf(),
        references_resolve(*description),
        base + ids_needed(*description) <= u64::MAX,
    ensures
        exists|order: Seq<usize>, nodes: Seq<Node>, edges: Seq<Edge>|
            #[trigger] fragment_of(*description, base, order, nodes, edges)
            && sorted_order(host_ids(description.hosts()), order)
            && local_ids_of(*description, base, order, r.0)
            && r.2@ == claim_updates(nodes)
            && r.1@.map_values(|b: ProviderFactBatch| batch_view(b)) == fact_batches(nodes, edges),
{
    let (local, nodes, edges) = build_graph(description, base);
    let claims = claim_bindings(nodes.as_slice());
    let ghost gn = nodes@;
    let ghost ge = edges@;
    let batches = provider_fact_batches(nodes, edges);
    proof {
        let order = choose|order: Seq<usize>|
            #[trigger] sorted_order(host_ids(description.hosts()), order)
            && fragment_of(*description, base, order, gn, ge)
            && local_ids_of(*description, base, order, local);
        assert(fragment_of(*description, base, order, gn, ge));
    }
    (local, batches, claims)
}

/// What a machine registering for the first time contributes, once its
/// description validates: the description's refusal, or the facts
/// `new_machine_facts` gives for it.
pub fn validated_machine_facts(description: &MachineDescription, base: u64) -> (r: Result<(LocalMachine, Vec<ProviderFactBatch>, Vec<ClaimBindingUpdate>), String>)
    requires
        description.wf(),
        base + ids_needed(*description) <= u64::MAX,
    ensures
        match r {
            Err(e) => description_error(*description) == Err::<(), Seq<char>>(e@),
            Ok(facts) => description_error(*description) is Ok && exists|order: Seq<usize>, nodes: Seq<Node>, edges: Seq<Edge>|
                #[trigger] fragment_of(*description, base, order, nodes, edges)
                && sorted_order(host_ids(description.hosts()), order)
                && local_ids_of(*description, base, order, facts.0)
                && facts.2@ == claim_updates(nodes)
                && facts.1@.map_values(|b: ProviderFactBatch| batch_view(b)) == fact_batches(nodes, edges),
        },
{
    match validate_machine_description(description) {
        Err(e) => Err(e),
        Ok(()) => {
            proof {
                lemma_validated_references_resolve(*description);
            }
            Ok(new_machine_facts(description, base))
        },
    }
}

/// The id a machine records as its agent's identity.
pub open spec fn agent_id_of(attrs: Map<Seq<char>, Seq<char>>) -> Option<Seq<char>> {
    if attrs.contains_key("agent_id"@) { Some(attrs["agent_id"@]) } else { None }
}

/// The first recorded machine whose agent identity is `instance`.
pub open spec fn machine_named(machines: Seq<(NodeId, Map<Seq<char>, Seq<char>>)>, instance: Seq<char>) -> Option<NodeId>
    decreases machines.len(),
{
    if machines.len() == 0 {
        None
    } else if agent_id_of(machines[0].1) == Some(instance) {
        Some(machines[0].0)
    } else {
        machine_named(machines.drop_first(), instance)
    }
}

pub open spec fn machine_views(machines: Seq<(NodeId, Attrs)>) -> Seq<(NodeId, Map<Seq<char>, Seq<char>>)> {
    machines.map_values(|m: (NodeId, Attrs)| (m.0, m.1.view()))
}

/// The recorded machine a registering agent is: the first machine node
/// (in `machines`, with its attributes) whose `agent_id` is the agent's
/// instance id; None for an agent seen for the first time.
pub fn machine_for_instance(machines: &[(NodeId, Attrs)], instance_id: &str) -> (m: Option<NodeId>)
    requires
        forall|i: int| 0 <= i < machines@.len() ==> (#[trigger] machines@[i]).1.wf(),
    ensures
        m == machine_named(machine_views(machines@), instance_id@),
{
    let ghost mv = machine_views(machines@);
    let mut i: usize = 0;
    assert(mv.subrange(0, mv.len() as int) =~= mv);
    while i < machines.len()
        invariant
            mv == machine_views(machines@),
            i <= machines@.len(),
            forall|k: int| 0 <= k < machines@.len() ==> (#[trigger] machines@[k]).1.wf(),
            machine_named(mv, instance_id@) == machine_named(mv.subrange(i as int, mv.len() as int), instance_id@),
        decreases machines@.len() - i,
    {
        assert(mv.subrange(i as int, mv.len() as int).drop_first() =~= mv.subrange(i + 1, mv.len() as int));
        assert(mv.subrange(i as int, mv.len() as int)[0] == mv[i as int]);
        match machines[i].1.get("agent_id") {
            Some(id) => {
                if crate::text::str_eq(id.as_str(), instance_id) {
                    return Some(machines[i].0);
                }
            },
            None => {},
        }
        i = i + 1;
    }
    None
}

proof fn lemma_named_machine_has_id(machines: Seq<(NodeId, Map<Seq<char>, Seq<char>>)>, instance: Seq<char>)
    requires
        machine_named(machines, instance) is Some,
    ensures
        exists|i: int| 0 <= i < machines.len() && (#[trigger] machines[i]).0 == machine_named(machines, instance)->0
            && agent_id_of(machines[i].1) == Some(instance),
    decreases machines.len(),
{
    if agent_id_of(machines[0].1) == Some(instance) {
        assert(machines[0].0 == machine_named(machines, instance)->0);
    } else {
        let rest = machines.drop_first();
        lemma_named_machine_has_id(rest, instance);
        let i = choose|i: int| 0 <= i < rest.len() && (#[trigger] rest[i]).0 == machine_named(rest, instance)->0
            && agent_id_of(rest[i].1) == Some(instance);
        assert(machines[i + 1] == rest[i]);
    }
}

/// Machine identity is the agent's instance id: the machine a registering
/// agent is found as carries that instance id, so agents with different
/// instance ids are never taken for the same recorded machine.
pub proof fn lemma_instances_name_distinct_machines(machines: Seq<(NodeId, Map<Seq<char>, Seq<char>>)>, a: Seq<char>, b: Seq<char>)
    requires
        forall|i: int, j: int| 0 <= i < j < machines.len() ==> machines[i].0 != machines[j].0,
        machine_named(machines, a) is Some,
        machine_named(machines, a) == machine_named(machines, b),
    ensures
        a == b,
        exists|i: int| 0 <= i < machines.len() && (#[trigger] machines[i]).0 == machine_named(machines, a)->0
            && agent_id_of(machines[i].1) == Some(a),
{
    lemma_named_machine_has_id(machines, a);
    lemma_named_machine_has_id(machines, b);
    let i = choose|i: int| 0 <= i < machines.len() && (#[trigger] machines[i]).0 == machine_named(machines, a)->0
        && agent_id_of(machines[i].1) == Some(a);
    let j = choose|j: int| 0 <= j < machines.len() && (#[trigger] machines[j]).0 == machine_named(machines, b)->0
        && agent_id_of(machines[j].1) == Some(b);
    if i < j {
        assert(machines[i].0 != machines[j].0);
    } else if j < i {
        assert(machines[j].0 != machines[i].0);
    }
}

/// A machine whose returning inventory cannot be reconciled stops taking
/// new placement: it is marked unavailable when it was joining or
/// schedulable, and left as it is otherwise (drained, quarantined, retired
/// or already unavailable).
pub open spec fn mismatch_marks_unavailable(state: Option<NodeState>) -> bool {
    state == Some(NodeState::Joining) || state == Some(NodeState::Schedulable)
}

/// A returning agent whose host facts changed.
pub struct HostMismatch {
    /// The refusal the registration gets.
    pub message: String,
    /// The machine must be marked unavailable.
    pub mark_unavailable: bool,
}

pub open spec fn host_mismatch_message(explanation: Seq<char>) -> Seq<char> {
    "returning agent host inventory changed; explicit topology reconciliation is required: "@ + explanation
}

/// Check a returning agent's host facts (see `verify_registered_host`);
/// `state` is the machine's recorded state. A change refuses the
/// registration and marks the machine unavailable unless it already stopped
/// taking placement.
pub fn returning_host_check(machine: NodeId, state: Option<NodeState>, recorded: &[RecordedNode], description: &MachineDescription) -> (r: Result<(), HostMismatch>)
    requires
        nodes_wf(recorded@),
        description.wf(),
    ensures
        match r {
            Ok(()) => host_check(machine, recorded_views(recorded@), *description) is Ok,
            Err(m) => host_check(machine, recorded_views(recorded@), *description) matches Err(e)
                && m.message@ == host_mismatch_message(e)
                && m.mark_unavailable == mismatch_marks_unavailable(state),
        },
{
    match verify_registered_host(machine, recorded, description) {
        Ok(()) => Ok(()),
        Err(e) => {
            let mark_unavailable = match state {
                Some(NodeState::Joining) | Some(NodeState::Schedulable) => true,
                _ => false,
            };
            Err(HostMismatch {
                message: String::from_str("returning agent host inventory changed; explicit topology reconciliation is required: ")
                    .concat(e.as_str()),
                mark_unavailable,
            })
        },
    }
}

} // verus!
