//! Reconciling a returning machine's reported devices with the device
//! nodes already recorded under it: which recorded nodes are confirmed,
//! which reported devices are new, which node facts must be rewritten,
//! which recorded devices disappeared and which return, and which changes
//! are refused because they would silently rewrite topology.
use vstd::prelude::*;

use crate::discover::{DeviceSpec, DeviceView};
use crate::graph::{json_list_text, to_json_list};
use crate::model::{contains_edge, spec_qty, qty, Attrs, CapacityDimension, Edge, EdgeKind, EdgeView, Node, NodeId, NodeView, ResourceClass};
use crate::text::{chars_eq, chars_of, contains_chars, debug_quoted, debug_str, char_views};

verus! {

/// Lifecycle states of a graph node that reconciliation reads.
#[derive(Clone, Copy, Debug, PartialEq, Eq, Structural)]
pub enum NodeState {
    Joining,
    Schedulable,
    Unavailable,
    Retired,
}

/// A device node recorded under the machine (a GPU, NIC or NVMe
/// descendant carrying a stable `id` attribute).
#[derive(Clone, Debug)]
pub struct RecordedDevice {
    pub stable_id: String,
    pub node: NodeId,
    pub kind: ResourceClass,
    pub attrs: Attrs,
    /// The node's parent in the graph.
    pub parent: Option<NodeId>,
    pub state: Option<NodeState>,
}

/// A host node recorded under the machine, by its provider-local host id.
#[derive(Clone, Debug)]
pub struct CommittedHost {
    pub host_id: String,
    pub node: NodeId,
}

/// What reconciliation reads of the recorded graph.
pub struct DeviceSubtree {
    pub machine: NodeId,
    /// The largest node id anywhere in the graph; new nodes are numbered
    /// after it.
    pub max_node_id: u64,
    /// Recorded hosts in descendant order.
    pub hosts: Vec<CommittedHost>,
    /// Recorded devices in descendant order.
    pub devices: Vec<RecordedDevice>,
}

pub struct RecordedView {
    pub id: Seq<char>,
    pub node: NodeId,
    pub kind: ResourceClass,
    pub attrs: Map<Seq<char>, Seq<char>>,
    pub parent: Option<NodeId>,
    pub state: Option<NodeState>,
}

impl RecordedDevice {
    pub open spec fn view(self) -> RecordedView {
        RecordedView { id: self.stable_id@, node: self.node, kind: self.kind, attrs: self.attrs.view(), parent: self.parent, state: self.state }
    }
}

impl DeviceSubtree {
    pub open spec fn host_views(self) -> Seq<(Seq<char>, NodeId)> {
        self.hosts@.map_values(|h: CommittedHost| (h.host_id@, h.node))
    }

    pub open spec fn recorded(self) -> Seq<RecordedView> {
        self.devices@.map_values(|d: RecordedDevice| d.view())
    }

    pub open spec fn wf(self) -> bool {
        forall|i: int| 0 <= i < self.devices@.len() ==> (#[trigger] self.devices@[i]).attrs.wf()
    }
}

/// The recorded host node with host id `id`: the first in descendant order.
pub open spec fn committed_host(hosts: Seq<(Seq<char>, NodeId)>, id: Seq<char>) -> Option<NodeId>
    decreases hosts.len(),
{
    if hosts.len() == 0 {
        None
    } else if hosts[0].0 == id {
        Some(hosts[0].1)
    } else {
        committed_host(hosts.drop_first(), id)
    }
}

/// The recorded device reconciliation keys stable id `id` to: the last one
/// carrying it.
pub open spec fn last_recorded(devices: Seq<RecordedView>, id: Seq<char>) -> Option<int>
    decreases devices.len(),
{
    if devices.len() == 0 {
        None
    } else if devices.last().id == id {
        Some(devices.len() - 1)
    } else {
        last_recorded(devices.drop_last(), id)
    }
}

/// The node facts written for a reported device: the provider's attributes
/// plus its stable id, path and host parent, and its extra access paths as
/// a JSON list (dropped when there are none).
pub open spec fn reconciled_attrs(d: DeviceView) -> Map<Seq<char>, Seq<char>> {
    let base = d.attrs.insert("id"@, d.id).insert("dev"@, d.dev);
    let with_parent = match d.host_parent {
        Some(p) => base.insert("archon.host-parent"@, p),
        None => base,
    };
    if d.access.len() > 0 {
        with_parent.insert("access"@, json_list_text(d.access))
    } else {
        with_parent.remove("access"@)
    }
}

pub open spec fn q(s: Seq<char>) -> Seq<char> {
    debug_quoted(s)
}

/// Why a reported device may not take over its recorded node: its host
/// containment changed or was withdrawn, it moved physically, it changed
/// class, or the node is retired.
pub open spec fn existing_error(r: RecordedView, d: DeviceView, requested: Option<NodeId>) -> Option<Seq<char>> {
    let recorded_parent = if r.attrs.contains_key("archon.host-parent"@) { Some(r.attrs["archon.host-parent"@]) } else { None };
    if recorded_parent is Some && d.host_parent is Some && recorded_parent->0 != d.host_parent->0 {
        Some("device "@ + q(d.id) + " changed host containment from "@ + q(recorded_parent->0) + " to "@ + q(d.host_parent->0)
            + "; explicit topology reconciliation is required"@)
    } else if recorded_parent is Some && d.host_parent is None {
        Some("device "@ + q(d.id) + " withdrew authoritative host containment "@ + q(recorded_parent->0)
            + "; explicit topology reconciliation is required"@)
    } else if requested is Some && r.parent != requested {
        Some("device "@ + q(d.id) + " changed physical containment; explicit topology reconciliation is required"@)
    } else if r.kind != d.kind {
        Some("device "@ + q(d.id) + " changed resource class; replacement requires a new stable id"@)
    } else if r.state == Some(NodeState::Retired) {
        Some("device "@ + q(d.id) + " is retired; replacement requires a new stable id"@)
    } else {
        None
    }
}

/// Reconciliation after some of the reported devices.
pub struct PlanState {
    /// The last node id handed out.
    pub next: int,
    pub nodes: Seq<NodeView>,
    pub edges: Seq<EdgeView>,
    pub reported: Set<NodeId>,
    pub returning: Set<NodeId>,
    /// Stable ids already matched to a recorded node.
    pub consumed: Set<Seq<char>>,
}

pub open spec fn device_node_view(id: NodeId, d: DeviceView) -> NodeView {
    NodeView { id, kind: d.kind, attrs: reconciled_attrs(d), capacity: spec_qty(CapacityDimension::Count, 1) }
}

/// One reported device. A recorded node with its stable id (not already
/// matched) is confirmed, unless a refusal applies; its facts are
/// rewritten only when they changed, and it returns if it was unavailable
/// or joining. Otherwise the device gets the next node id, under its
/// host parent or the machine.
pub open spec fn reconcile_step(machine: NodeId, hosts: Seq<(Seq<char>, NodeId)>, recorded: Seq<RecordedView>, st: PlanState, d: DeviceView) -> Result<PlanState, Seq<char>> {
    let requested: Result<Option<NodeId>, Seq<char>> = match d.host_parent {
        None => Ok(None),
        Some(p) => match committed_host(hosts, p) {
            Some(n) => Ok(Some(n)),
            None => Err("unknown committed host parent "@ + q(p)),
        },
    };
    match requested {
        Err(e) => Err(e),
        Ok(rp) => {
            let found = if st.consumed.contains(d.id) { None } else { last_recorded(recorded, d.id) };
            match found {
                Some(i) => {
                    let r = recorded[i];
                    match existing_error(r, d, rp) {
                        Some(e) => Err(e),
                        None => Ok(PlanState {
                            next: st.next,
                            nodes: if r.attrs == reconciled_attrs(d) { st.nodes } else { st.nodes.push(device_node_view(r.node, d)) },
                            edges: st.edges,
                            reported: st.reported.insert(r.node),
                            returning: if r.state == Some(NodeState::Unavailable) || r.state == Some(NodeState::Joining) {
                                st.returning.insert(r.node)
                            } else {
                                st.returning
                            },
                            consumed: st.consumed.insert(d.id),
                        }),
                    }
                },
                None => {
                    let fresh = NodeId((st.next + 1) as u64);
                    let parent = match rp {
                        Some(p) => p,
                        None => machine,
                    };
                    Ok(PlanState {
                        next: st.next + 1,
                        nodes: st.nodes.push(device_node_view(fresh, d)),
                        edges: st.edges.push(contains_edge(parent, fresh)),
                        reported: st.reported,
                        returning: st.returning,
                        consumed: st.consumed,
                    })
                },
            }
        },
    }
}

pub open spec fn initial_plan(max_node_id: u64) -> PlanState {
    PlanState {
        next: max_node_id as int,
        nodes: Seq::empty(),
        edges: Seq::empty(),
        reported: Set::empty(),
        returning: Set::empty(),
        consumed: Set::empty(),
    }
}

/// Reconciliation of all reported devices, in order; the first refusal
/// stops it.
pub open spec fn reconcile_plan(machine: NodeId, max_node_id: u64, hosts: Seq<(Seq<char>, NodeId)>, recorded: Seq<RecordedView>, ds: Seq<DeviceView>) -> Result<PlanState, Seq<char>>
    decreases ds.len(),
{
    if ds.len() == 0 {
        Ok(initial_plan(max_node_id))
    } else {
        match reconcile_plan(machine, max_node_id, hosts, recorded, ds.drop_last()) {
            Err(e) => Err(e),
            Ok(st) => reconcile_step(machine, hosts, recorded, st, ds.last()),
        }
    }
}

/// Recorded devices no reported device claimed.
pub open spec fn disappeared_set(recorded: Seq<RecordedView>, consumed: Set<Seq<char>>) -> Set<NodeId> {
    Set::new(|n: NodeId| exists|i: int| 0 <= i < recorded.len() && #[trigger] last_recorded(recorded, recorded[i].id) == Some(i)
        && !consumed.contains(recorded[i].id) && recorded[i].node == n)
}

/// Node ids in strictly increasing order.
pub open spec fn ascending(v: Seq<NodeId>) -> bool {
    forall|i: int, j: int| 0 <= i < j < v.len() ==> v[i].0 < v[j].0
}

/// The outcome of reconciling a machine's devices.
pub struct DeviceReconciliation {
    /// Device node facts to write (new nodes, and recorded ones whose facts changed).
    pub nodes: Vec<Node>,
    /// Containment edges of the new nodes.
    pub edges: Vec<Edge>,
    /// Recorded nodes a reported device confirmed.
    pub reported: Vec<NodeId>,
    /// Confirmed nodes that were unavailable or joining.
    pub returning: Vec<NodeId>,
    /// Recorded nodes no reported device claimed.
    pub disappeared: Vec<NodeId>,
}

fn committed_host_of(hosts: &Vec<CommittedHost>, id: &[char]) -> (r: Option<NodeId>)
    ensures
        r == committed_host(hosts@.map_values(|h: CommittedHost| (h.host_id@, h.node)), id@),
{
    let ghost hv = hosts@.map_values(|h: CommittedHost| (h.host_id@, h.node));
    let mut i: usize = 0;
    assert(hv.skip(0) =~= hv);
    while i < hosts.len()
        invariant
            hv == hosts@.map_values(|h: CommittedHost| (h.host_id@, h.node)),
            i <= hosts@.len(),
            committed_host(hv, id@) == committed_host(hv.skip(i as int), id@),
        decreases hosts@.len() - i,
    {
        assert(hv.skip(i as int).drop_first() =~= hv.skip(i + 1));
        let c = chars_of(hosts[i].host_id.as_str());
        if chars_eq(c.as_slice(), id) {
            return Some(hosts[i].node);
        }
        i = i + 1;
    }
    None
}

fn last_recorded_of(devices: &Vec<RecordedDevice>, id: &[char]) -> (r: Option<usize>)
    ensures
        match r {
            Some(i) => last_recorded(devices@.map_values(|d: RecordedDevice| d.view()), id@) == Some(i as int) && i < devices@.len(),
            None => last_recorded(devices@.map_values(|d: RecordedDevice| d.view()), id@) is None,
        },
{
    let ghost rv = devices@.map_values(|d: RecordedDevice| d.view());
    let mut i: usize = devices.len();
    assert(rv.take(i as int) =~= rv);
    while i > 0
        invariant
            rv == devices@.map_values(|d: RecordedDevice| d.view()),
            i <= devices@.len(),
            last_recorded(rv, id@) == last_recorded(rv.take(i as int), id@),
        decreases i,
    {
        assert(rv.take(i as int).drop_last() =~= rv.take(i - 1));
        let c = chars_of(devices[i - 1].stable_id.as_str());
        if chars_eq(c.as_slice(), id) {
            return Some(i - 1);
        }
        i = i - 1;
    }
    None
}

fn reconciled_attrs_of(d: &DeviceSpec) -> (a: Attrs)
    requires
        d.wf(),
    ensures
        a.wf(),
        a.view() == reconciled_attrs(d.view()),
{
    let mut attrs = d.attrs.copied();
    attrs.insert(String::from_str("id"), d.id.clone());
    attrs.insert(String::from_str("dev"), d.dev.clone());
    match &d.host_parent {
        Some(p) => attrs.insert(String::from_str("archon.host-parent"), p.clone()),
        None => {},
    }
    if d.access.len() > 0 {
        attrs.insert(String::from_str("access"), to_json_list(&d.access));
    } else {
        attrs.remove("access");
    }
    attrs
}

fn device_message(id: &str, middle: &str) -> (m: String)
    ensures
        m@ == "device "@ + q(id@) + middle@,
{
    String::from_str("device ").concat(debug_str(id).as_str()).concat(middle)
}

fn existing_error_of(r: &RecordedDevice, d: &DeviceSpec, requested: Option<NodeId>) -> (e: Option<String>)
    requires
        r.attrs.wf(),
    ensures
        match e {
            Some(m) => existing_error(r.view(), d.view(), requested) == Some(m@),
            None => existing_error(r.view(), d.view(), requested) is None,
        },
{
    let recorded_parent = r.attrs.get("archon.host-parent");
    match (&recorded_parent, &d.host_parent) {
        (Some(previous), Some(current)) => {
            if !crate::text::str_eq(previous.as_str(), current.as_str()) {
                return Some(device_message(d.id.as_str(), " changed host containment from ").concat(debug_str(previous.as_str()).as_str()).concat(
                    " to ",
                ).concat(debug_str(current.as_str()).as_str()).concat("; explicit topology reconciliation is required"));
            }
        },
        (Some(previous), None) => {
            return Some(device_message(d.id.as_str(), " withdrew authoritative host containment ").concat(debug_str(previous.as_str()).as_str()).concat(
                "; explicit topology reconciliation is required",
            ));
        },
        _ => {},
    }
    match requested {
        Some(p) => {
            if r.parent != Some(p) {
                return Some(device_message(d.id.as_str(), " changed physical containment; explicit topology reconciliation is required"));
            }
        },
        None => {},
    }
    if r.kind != d.kind {
        return Some(device_message(d.id.as_str(), " changed resource class; replacement requires a new stable id"));
    }
    if r.state == Some(NodeState::Retired) {
        return Some(device_message(d.id.as_str(), " is retired; replacement requires a new stable id"));
    }
    None
}

/// Add `x` to an ascending list of ids, keeping it ascending and free of
/// repeats.
fn insert_ascending(v: &mut Vec<NodeId>, x: NodeId)
    requires
        ascending(old(v)@),
    ensures
        ascending(final(v)@),
        final(v)@.to_set() == old(v)@.to_set().insert(x),
{
    let mut pos: usize = 0;
    while pos < v.len() && v[pos].0 < x.0
        invariant
            pos <= v@.len(),
            forall|i: int| 0 <= i < pos ==> v@[i].0 < x.0,
        decreases v@.len() - pos,
    {
        pos = pos + 1;
    }
    if pos < v.len() && v[pos].0 == x.0 {
        assert(v@[pos as int] == x);
        assert(v@.to_set() =~= v@.to_set().insert(x));
        return;
    }
    let ghost before = v@;
    v.insert(pos, x);
    proof {
        let after = v@;
        assert(after =~= before.insert(pos as int, x));
        assert forall|i: int, j: int| 0 <= i < j < after.len() implies after[i].0 < after[j].0 by {
            if j < pos {
                assert(after[i] == before[i] && after[j] == before[j]);
            } else if j == pos {
                assert(after[i] == before[i]);
            } else if i < pos {
                assert(after[i] == before[i] && after[j] == before[j - 1]);
            } else if i == pos {
                assert(after[j] == before[j - 1]);
                assert(before[pos as int].0 >= x.0);
            } else {
                assert(after[i] == before[i - 1] && after[j] == before[j - 1]);
            }
        }
        assert forall|n: NodeId| after.to_set().contains(n) <==> before.to_set().insert(x).contains(n) by {
            if after.contains(n) {
                let k = choose|k: int| 0 <= k < after.len() && after[k] == n;
                if k < pos {
                    assert(before[k] == n);
                } else if k > pos {
                    assert(before[k - 1] == n);
                }
            }
            if before.contains(n) {
                let k = choose|k: int| 0 <= k < before.len() && before[k] == n;
                if k < pos {
                    assert(after[k] == n);
                } else {
                    assert(after[k + 1] == n);
                }
            }
            if n == x {
                assert(after[pos as int] == x);
            }
        }
        assert(after.to_set() =~= before.to_set().insert(x));
    }
}

proof fn lemma_push_to_set<A>(s: Seq<A>, x: A)
    ensures
        s.push(x).to_set() == s.to_set().insert(x),
{
    let t = s.push(x);
    assert forall|a: A| t.to_set().contains(a) <==> s.to_set().insert(x).contains(a) by {
        if t.contains(a) {
            let k = choose|k: int| 0 <= k < t.len() && t[k] == a;
            if k < s.len() {
                assert(s[k] == a);
            }
        }
        if s.contains(a) {
            let k = choose|k: int| 0 <= k < s.len() && s[k] == a;
            assert(t[k] == a);
        }
        if a == x {
            assert(t[s.len() as int] == x);
        }
    }
    assert(t.to_set() =~= s.to_set().insert(x));
}

/// Recorded devices before index `n` that no reported device claimed.
pub open spec fn disappeared_upto(recorded: Seq<RecordedView>, consumed: Set<Seq<char>>, n: int) -> Set<NodeId> {
    Set::new(|m: NodeId| exists|i: int| 0 <= i < n && #[trigger] last_recorded(recorded, recorded[i].id) == Some(i)
        && !consumed.contains(recorded[i].id) && recorded[i].node == m)
}

pub open spec fn plan_result(subtree: DeviceSubtree, devices: Seq<DeviceSpec>) -> Result<PlanState, Seq<char>> {
    reconcile_plan(
        subtree.machine,
        subtree.max_node_id,
        subtree.host_views(),
        subtree.recorded(),
        devices.map_values(|d: DeviceSpec| d.view()),
    )
}

/// Reconcile the devices a returning machine reports with those recorded
/// under it. A reported device whose stable id is recorded keeps its node,
/// unless its host containment changed or was withdrawn, it moved under
/// another parent, it changed class, or the node is retired: each of these
/// is refused, as is naming a host parent that is not recorded. A device
/// seen for the first time gets the next node id after the largest in the
/// graph, under its host parent or the machine. Recorded devices nobody
/// reported have disappeared; confirmed ones that were unavailable or
/// joining return.
pub fn reconcile_device_subtree(subtree: &DeviceSubtree, devices: &[DeviceSpec]) -> (r: Result<DeviceReconciliation, String>)
    requires
        subtree.wf(),
        forall|k: int| 0 <= k < devices@.len() ==> (#[trigger] devices@[k]).wf(),
        subtree.max_node_id + devices@.len() <= u64::MAX,
    ensures
        match r {
            Err(e) => plan_result(*subtree, devices@) == Err::<PlanState, Seq<char>>(e@),
            Ok(out) => plan_result(*subtree, devices@) matches Ok(st)
                && out.nodes@.len() == st.nodes.len()
                && (forall|i: int| 0 <= i < out.nodes@.len() ==> (#[trigger] out.nodes@[i]).wf() && out.nodes@[i]@ == st.nodes[i])
                && out.edges@.len() == st.edges.len()
                && (forall|j: int| 0 <= j < out.edges@.len() ==> (#[trigger] out.edges@[j]).wf() && out.edges@[j]@ == st.edges[j])
                && ascending(out.reported@) && out.reported@.to_set() == st.reported
                && ascending(out.returning@) && out.returning@.to_set() == st.returning
                && ascending(out.disappeared@) && out.disappeared@.to_set() == disappeared_set(subtree.recorded(), st.consumed),
        },
{
    let ghost machine = subtree.machine;
    let ghost hosts = subtree.host_views();
    let ghost recorded = subtree.recorded();
    let ghost dsv = devices@.map_values(|d: DeviceSpec| d.view());
    let ghost f = |p: Seq<DeviceView>| reconcile_plan(machine, subtree.max_node_id, hosts, recorded, p);
    let ghost mut st = initial_plan(subtree.max_node_id);
    let mut next: u64 = subtree.max_node_id;
    let mut nodes: Vec<Node> = Vec::new();
    let mut edges: Vec<Edge> = Vec::new();
    let mut reported: Vec<NodeId> = Vec::new();
    let mut returning: Vec<NodeId> = Vec::new();
    let mut consumed: Vec<Vec<char>> = Vec::new();
    assert(dsv.take(0) =~= Seq::<DeviceView>::empty());
    assert(reported@.to_set() =~= Set::<NodeId>::empty());
    assert(returning@.to_set() =~= Set::<NodeId>::empty());
    assert(char_views(consumed@).to_set() =~= Set::<Seq<char>>::empty());
    let mut k: usize = 0;
    while k < devices.len()
        invariant
            subtree.wf(),
            forall|x: int| 0 <= x < devices@.len() ==> (#[trigger] devices@[x]).wf(),
            subtree.max_node_id + devices@.len() <= u64::MAX,
            machine == subtree.machine,
            hosts == subtree.host_views(),
            recorded == subtree.recorded(),
            dsv == devices@.map_values(|d: DeviceSpec| d.view()),
            f == (|p: Seq<DeviceView>| reconcile_plan(machine, subtree.max_node_id, hosts, recorded, p)),
            k <= devices@.len(),
            reconcile_plan(machine, subtree.max_node_id, hosts, recorded, dsv.take(k as int)) == Ok::<PlanState, Seq<char>>(st),
            st.next == next as int,
            next <= subtree.max_node_id + k,
            nodes@.len() == st.nodes.len(),
            forall|i: int| 0 <= i < nodes@.len() ==> (#[trigger] nodes@[i]).wf() && nodes@[i]@ == st.nodes[i],
            edges@.len() == st.edges.len(),
            forall|j: int| 0 <= j < edges@.len() ==> (#[trigger] edges@[j]).wf() && edges@[j]@ == st.edges[j],
            ascending(reported@) && reported@.to_set() == st.reported,
            ascending(returning@) && returning@.to_set() == st.returning,
            char_views(consumed@).to_set() == st.consumed,
        decreases devices@.len() - k,
    {
        let d = &devices[k];
        let ghost dv = dsv[k as int];
        assert(dv == d.view());
        assert(dsv.take(k + 1).drop_last() =~= dsv.take(k as int));
        assert(dsv.take(k + 1).last() == dv);
        let ghost step = reconcile_step(machine, hosts, recorded, st, dv);
        assert(reconcile_plan(machine, subtree.max_node_id, hosts, recorded, dsv.take(k + 1)) == step);
        let requested: Option<NodeId> = match &d.host_parent {
            None => None,
            Some(p) => {
                let pc = chars_of(p.as_str());
                match committed_host_of(&subtree.hosts, pc.as_slice()) {
                    Some(n) => Some(n),
                    None => {
                        let e = String::from_str("unknown committed host parent ").concat(debug_str(p.as_str()).as_str());
                        proof {
                            assert(step == Err::<PlanState, Seq<char>>(e@));
                            crate::discover::lemma_first_error_sticks(f, dsv, k + 1);
                            assert(dsv.take(devices@.len() as int) =~= dsv);
                        }
                        return Err(e);
                    },
                }
            },
        };
        let idc = chars_of(d.id.as_str());
        let already = contains_chars(&consumed, idc.as_slice());
        let found = if already { None } else { last_recorded_of(&subtree.devices, idc.as_slice()) };
        let attrs = reconciled_attrs_of(d);
        match found {
            Some(i) => {
                let rec = &subtree.devices[i];
                assert(recorded[i as int] == rec.view());
                assert(rec.attrs.wf());
                match existing_error_of(rec, d, requested) {
                    Some(e) => {
                        proof {
                            assert(step == Err::<PlanState, Seq<char>>(e@));
                            crate::discover::lemma_first_error_sticks(f, dsv, k + 1);
                            assert(dsv.take(devices@.len() as int) =~= dsv);
                        }
                        return Err(e);
                    },
                    None => {},
                }
                let unchanged = rec.attrs.same_as(&attrs);
                if !unchanged {
                    nodes.push(Node { id: rec.node, kind: d.kind, attrs, capacity: qty(CapacityDimension::Count, 1) });
                }
                insert_ascending(&mut reported, rec.node);
                if rec.state == Some(NodeState::Unavailable) || rec.state == Some(NodeState::Joining) {
                    insert_ascending(&mut returning, rec.node);
                }
                let ghost before = consumed@;
                consumed.push(idc);
                proof {
                    assert(char_views(consumed@) =~= char_views(before).push(d.id@));
                    lemma_push_to_set(char_views(before), d.id@);
                }
            },
            None => {
                next = next + 1;
                let fresh = NodeId(next);
                let parent = match requested {
                    Some(p) => p,
                    None => subtree.machine,
                };
                nodes.push(Node { id: fresh, kind: d.kind, attrs, capacity: qty(CapacityDimension::Count, 1) });
                edges.push(Edge { from: parent, to: fresh, kind: EdgeKind::Contains, attrs: Attrs::new() });
            },
        }
        proof {
            st = step->Ok_0;
        }
        k = k + 1;
    }
    assert(dsv.take(k as int) =~= dsv);
    let mut disappeared: Vec<NodeId> = Vec::new();
    let mut i: usize = 0;
    assert(disappeared@.to_set() =~= disappeared_upto(recorded, st.consumed, 0));
    while i < subtree.devices.len()
        invariant
            recorded == subtree.recorded(),
            char_views(consumed@).to_set() == st.consumed,
            i <= subtree.devices@.len(),
            ascending(disappeared@),
            disappeared@.to_set() == disappeared_upto(recorded, st.consumed, i as int),
        decreases subtree.devices@.len() - i,
    {
        let rec = &subtree.devices[i];
        assert(recorded[i as int] == rec.view());
        let idc = chars_of(rec.stable_id.as_str());
        let last = last_recorded_of(&subtree.devices, idc.as_slice());
        let claimed = contains_chars(&consumed, idc.as_slice());
        let ghost before = disappeared_upto(recorded, st.consumed, i as int);
        let ghost after = disappeared_upto(recorded, st.consumed, i + 1);
        let keep = last == Some(i) && !claimed;
        if keep {
            insert_ascending(&mut disappeared, rec.node);
        }
        proof {
            assert(claimed == st.consumed.contains(recorded[i as int].id));
            if keep {
                assert(after =~= before.insert(rec.node)) by {
                    assert forall|m: NodeId| after.contains(m) <==> before.insert(rec.node).contains(m) by {
                        if after.contains(m) {
                            let j = choose|j: int| 0 <= j < i + 1 && #[trigger] last_recorded(recorded, recorded[j].id) == Some(j)
                                && !st.consumed.contains(recorded[j].id) && recorded[j].node == m;
                            if j < i {
                                assert(before.contains(m));
                            }
                        }
                        if before.contains(m) {
                            let j = choose|j: int| 0 <= j < i && #[trigger] last_recorded(recorded, recorded[j].id) == Some(j)
                                && !st.consumed.contains(recorded[j].id) && recorded[j].node == m;
                            assert(after.contains(m));
                        }
                        if m == rec.node {
                            assert(last_recorded(recorded, recorded[i as int].id) == Some(i as int));
                            assert(after.contains(m));
                        }
                    }
                }
            } else {
                assert(after =~= before) by {
                    assert forall|m: NodeId| after.contains(m) implies before.contains(m) by {
                        let j = choose|j: int| 0 <= j < i + 1 && #[trigger] last_recorded(recorded, recorded[j].id) == Some(j)
                            && !st.consumed.contains(recorded[j].id) && recorded[j].node == m;
                        if j == i {
                            assert(last_recorded(recorded, recorded[i as int].id) == Some(i as int));
                            assert(false);
                        }
                    }
                    assert forall|m: NodeId| before.contains(m) implies after.contains(m) by {
                        let j = choose|j: int| 0 <= j < i && #[trigger] last_recorded(recorded, recorded[j].id) == Some(j)
                            && !st.consumed.contains(recorded[j].id) && recorded[j].node == m;
                    }
                }
            }
        }
        i = i + 1;
    }
    assert(disappeared_upto(recorded, st.consumed, i as int) =~= disappeared_set(recorded, st.consumed));
    Ok(DeviceReconciliation { nodes, edges, reported, returning, disappeared })
}

/// Every stable id reconciliation matched names a recorded device whose
/// node it confirmed, and every reported stable id that is recorded was
/// matched.
proof fn lemma_plan_matches_recorded(machine: NodeId, max_node_id: u64, hosts: Seq<(Seq<char>, NodeId)>, recorded: Seq<RecordedView>, ds: Seq<DeviceView>)
    requires
        reconcile_plan(machine, max_node_id, hosts, recorded, ds) is Ok,
    ensures
        forall|id: Seq<char>| #[trigger] reconcile_plan(machine, max_node_id, hosts, recorded, ds)->Ok_0.consumed.contains(id)
            ==> (last_recorded(recorded, id) matches Some(i)
                && reconcile_plan(machine, max_node_id, hosts, recorded, ds)->Ok_0.reported.contains(recorded[i].node)),
        forall|k: int| 0 <= k < ds.len() && (last_recorded(recorded, #[trigger] ds[k].id) is Some)
            ==> reconcile_plan(machine, max_node_id, hosts, recorded, ds)->Ok_0.consumed.contains(ds[k].id),
    decreases ds.len(),
{
    if ds.len() > 0 {
        let prev_ds = ds.drop_last();
        lemma_plan_matches_recorded(machine, max_node_id, hosts, recorded, prev_ds);
        let prev = reconcile_plan(machine, max_node_id, hosts, recorded, prev_ds)->Ok_0;
        let st = reconcile_plan(machine, max_node_id, hosts, recorded, ds)->Ok_0;
        assert(prev.consumed.subset_of(st.consumed));
        assert(prev.reported.subset_of(st.reported));
        assert forall|k: int| 0 <= k < ds.len() && (last_recorded(recorded, #[trigger] ds[k].id) is Some)
            implies st.consumed.contains(ds[k].id) by {
            if k < ds.len() - 1 {
                assert(prev_ds[k] == ds[k]);
            }
        }
    }
}

/// Stable device identity: when reconciliation succeeds, a reported device
/// whose stable id is recorded keeps the recorded node, which is confirmed
/// and not counted among the disappeared, whatever host path the device
/// now has.
pub proof fn lemma_reported_device_keeps_its_node(subtree: DeviceSubtree, devices: Seq<DeviceSpec>, k: int)
    requires
        plan_result(subtree, devices) is Ok,
        0 <= k < devices.len(),
        last_recorded(subtree.recorded(), devices[k].view().id) is Some,
        forall|a: int, b: int| 0 <= a < b < subtree.recorded().len() ==> subtree.recorded()[a].node != subtree.recorded()[b].node,
    ensures
        ({
            let st = plan_result(subtree, devices)->Ok_0;
            let i = last_recorded(subtree.recorded(), devices[k].view().id)->0;
            &&& st.reported.contains(subtree.recorded()[i].node)
            &&& !disappeared_set(subtree.recorded(), st.consumed).contains(subtree.recorded()[i].node)
        }),
{
    let recorded = subtree.recorded();
    let ds = devices.map_values(|d: DeviceSpec| d.view());
    lemma_plan_matches_recorded(subtree.machine, subtree.max_node_id, subtree.host_views(), recorded, ds);
    let st = plan_result(subtree, devices)->Ok_0;
    assert(ds[k] == devices[k].view());
    let id = ds[k].id;
    assert(st.consumed.contains(id));
    let i = last_recorded(recorded, id)->0;
    lemma_last_recorded_names(recorded, id);
    if disappeared_set(recorded, st.consumed).contains(recorded[i].node) {
        let j = choose|j: int| 0 <= j < recorded.len() && #[trigger] last_recorded(recorded, recorded[j].id) == Some(j)
            && !st.consumed.contains(recorded[j].id) && recorded[j].node == recorded[i].node;
        assert(j == i);
    }
}

proof fn lemma_last_recorded_names(recorded: Seq<RecordedView>, id: Seq<char>)
    requires
        last_recorded(recorded, id) is Some,
    ensures
        0 <= last_recorded(recorded, id)->0 < recorded.len(),
        recorded[last_recorded(recorded, id)->0].id == id,
    decreases recorded.len(),
{
    if recorded.last().id != id {
        lemma_last_recorded_names(recorded.drop_last(), id);
    }
}

// ---------------------------------------------------------------------------
// Node states and leases after reconciliation.

/// A change of node state or lease reconciliation asks for once the device
/// facts are written.
#[derive(Clone, Copy, Debug, PartialEq, Eq, Structural)]
pub enum StateChange {
    SetNodeState { node: NodeId, state: NodeState },
    /// Fail the lease for the reason `disappeared_reason` gives.
    FailLease { lease: u64 },
}

/// Why a lease on a device that disappeared fails.
pub fn disappeared_reason() -> (s: String)
    ensures
        s@ == "provider resource disappeared"@,
{
    String::from_str("provider resource disappeared")
}

/// One lease as the device reconciliation sees it: whether it holds or
/// awaits authority (reserved, preparing or active) and its claimed nodes.
pub struct LeaseNodes {
    pub lease: u64,
    pub live: bool,
    pub nodes: Vec<NodeId>,
}

/// Disappeared devices that were joining or schedulable become unavailable.
pub open spec fn vanish_changes(gone: Seq<(NodeId, Option<NodeState>)>) -> Seq<StateChange>
    decreases gone.len(),
{
    if gone.len() == 0 {
        Seq::empty()
    } else {
        let prev = vanish_changes(gone.drop_last());
        let (node, state) = gone.last();
        if state == Some(NodeState::Schedulable) || state == Some(NodeState::Joining) {
            prev.push(StateChange::SetNodeState { node, state: NodeState::Unavailable })
        } else {
            prev
        }
    }
}

pub open spec fn claims_gone(nodes: Seq<NodeId>, gone: Seq<(NodeId, Option<NodeState>)>) -> bool {
    exists|i: int, j: int| 0 <= i < nodes.len() && 0 <= j < gone.len() && #[trigger] nodes[i] == #[trigger] gone[j].0
}

/// Live leases with a claim on a disappeared device fail.
pub open spec fn fail_changes(leases: Seq<LeaseNodes>, gone: Seq<(NodeId, Option<NodeState>)>) -> Seq<StateChange>
    decreases leases.len(),
{
    if leases.len() == 0 {
        Seq::empty()
    } else {
        let prev = fail_changes(leases.drop_last(), gone);
        let l = leases.last();
        if l.live && claims_gone(l.nodes@, gone) { prev.push(StateChange::FailLease { lease: l.lease }) } else { prev }
    }
}

/// A returning device that was unavailable rejoins; a joining one with no
/// open binding becomes schedulable.
pub open spec fn return_changes(back: Seq<(NodeId, Option<NodeState>, bool)>) -> Seq<StateChange>
    decreases back.len(),
{
    if back.len() == 0 {
        Seq::empty()
    } else {
        let prev = return_changes(back.drop_last());
        let (node, state, open_binding) = back.last();
        let rejoined = if state == Some(NodeState::Unavailable) {
            prev.push(StateChange::SetNodeState { node, state: NodeState::Joining })
        } else {
            prev
        };
        let now = if state == Some(NodeState::Unavailable) { Some(NodeState::Joining) } else { state };
        if !open_binding && now == Some(NodeState::Joining) {
            rejoined.push(StateChange::SetNodeState { node, state: NodeState::Schedulable })
        } else {
            rejoined
        }
    }
}

fn claims_any_gone(nodes: &Vec<NodeId>, gone: &[(NodeId, Option<NodeState>)]) -> (r: bool)
    ensures
        r == claims_gone(nodes@, gone@),
{
    let mut i: usize = 0;
    while i < nodes.len()
        invariant
            i <= nodes@.len(),
            forall|a: int, b: int| 0 <= a < i && 0 <= b < gone@.len() ==> #[trigger] nodes@[a] != #[trigger] gone@[b].0,
        decreases nodes@.len() - i,
    {
        let mut j: usize = 0;
        while j < gone.len()
            invariant
                i < nodes@.len(),
                j <= gone@.len(),
                forall|a: int, b: int| 0 <= a < i && 0 <= b < gone@.len() ==> #[trigger] nodes@[a] != #[trigger] gone@[b].0,
                forall|b: int| 0 <= b < j ==> nodes@[i as int] != #[trigger] gone@[b].0,
            decreases gone@.len() - j,
        {
            if nodes[i] == gone[j].0 {
                return true;
            }
            j = j + 1;
        }
        i = i + 1;
    }
    false
}

/// What reconciliation changes once the device facts are written, in
/// order: the disappeared devices (`gone`, with their recorded states)
/// that were joining or schedulable become unavailable; then every live
/// lease (in `leases`, by increasing id) claiming one of them fails with
/// `disappeared_reason`; then each returning device (`back`, with its
/// state and whether an open binding is on it) that was unavailable
/// rejoins, and becomes schedulable when it is joining with no open
/// binding.
pub fn device_state_changes(
    gone: &[(NodeId, Option<NodeState>)],
    leases: &[LeaseNodes],
    back: &[(NodeId, Option<NodeState>, bool)],
) -> (changes: Vec<StateChange>)
    ensures
        changes@ == vanish_changes(gone@) + fail_changes(leases@, gone@) + return_changes(back@),
{
    let mut changes: Vec<StateChange> = Vec::new();
    let mut i: usize = 0;
    while i < gone.len()
        invariant
            i <= gone@.len(),
            changes@ == vanish_changes(gone@.take(i as int)),
        decreases gone@.len() - i,
    {
        assert(gone@.take(i + 1).drop_last() =~= gone@.take(i as int));
        let (node, state) = gone[i];
        match state {
            Some(NodeState::Schedulable) | Some(NodeState::Joining) => {
                changes.push(StateChange::SetNodeState { node, state: NodeState::Unavailable });
            },
            _ => {},
        }
        i = i + 1;
    }
    assert(gone@.take(i as int) =~= gone@);
    let ghost vanish = changes@;
    let mut k: usize = 0;
    while k < leases.len()
        invariant
            k <= leases@.len(),
            changes@ == vanish + fail_changes(leases@.take(k as int), gone@),
        decreases leases@.len() - k,
    {
        assert(leases@.take(k + 1).drop_last() =~= leases@.take(k as int));
        let l = &leases[k];
        if l.live && claims_any_gone(&l.nodes, gone) {
            changes.push(StateChange::FailLease { lease: l.lease });
            assert(changes@ =~= vanish + fail_changes(leases@.take(k + 1), gone@));
        } else {
            assert(changes@ =~= vanish + fail_changes(leases@.take(k + 1), gone@));
        }
        k = k + 1;
    }
    assert(leases@.take(k as int) =~= leases@);
    let ghost failed = changes@;
    let mut r: usize = 0;
    while r < back.len()
        invariant
            r <= back@.len(),
            changes@ == failed + return_changes(back@.take(r as int)),
        decreases back@.len() - r,
    {
        assert(back@.take(r + 1).drop_last() =~= back@.take(r as int));
        let (node, state, open_binding) = back[r];
        let mut now = state;
        if state == Some(NodeState::Unavailable) {
            changes.push(StateChange::SetNodeState { node, state: NodeState::Joining });
            now = Some(NodeState::Joining);
        }
        if !open_binding && now == Some(NodeState::Joining) {
            changes.push(StateChange::SetNodeState { node, state: NodeState::Schedulable });
        }
        assert(changes@ =~= failed + return_changes(back@.take(r + 1)));
        r = r + 1;
    }
    assert(back@.take(r as int) =~= back@);
    changes
}

proof fn lemma_vanish_contains(gone: Seq<(NodeId, Option<NodeState>)>, j: int)
    requires
        0 <= j < gone.len(),
        gone[j].1 == Some(NodeState::Schedulable) || gone[j].1 == Some(NodeState::Joining),
    ensures
        vanish_changes(gone).contains(StateChange::SetNodeState { node: gone[j].0, state: NodeState::Unavailable }),
    decreases gone.len(),
{
    let c = StateChange::SetNodeState { node: gone[j].0, state: NodeState::Unavailable };
    if j == gone.len() - 1 {
        assert(vanish_changes(gone).last() == c);
    } else {
        assert(gone.drop_last()[j] == gone[j]);
        lemma_vanish_contains(gone.drop_last(), j);
        let prev = vanish_changes(gone.drop_last());
        let i = choose|i: int| 0 <= i < prev.len() && prev[i] == c;
        assert(vanish_changes(gone)[i] == c);
    }
}

proof fn lemma_fail_contains(leases: Seq<LeaseNodes>, gone: Seq<(NodeId, Option<NodeState>)>, k: int)
    requires
        0 <= k < leases.len(),
        leases[k].live,
        claims_gone(leases[k].nodes@, gone),
    ensures
        fail_changes(leases, gone).contains(StateChange::FailLease { lease: leases[k].lease }),
    decreases leases.len(),
{
    let c = StateChange::FailLease { lease: leases[k].lease };
    if k == leases.len() - 1 {
        assert(fail_changes(leases, gone).last() == c);
    } else {
        assert(leases.drop_last()[k] == leases[k]);
        lemma_fail_contains(leases.drop_last(), gone, k);
        let prev = fail_changes(leases.drop_last(), gone);
        let i = choose|i: int| 0 <= i < prev.len() && prev[i] == c;
        assert(fail_changes(leases, gone)[i] == c);
    }
}

/// A device the provider stops reporting stops taking placement: when it
/// was joining or schedulable it becomes unavailable, and every live lease
/// claiming it fails.
pub proof fn lemma_disappeared_device_fails_its_leases(
    gone: Seq<(NodeId, Option<NodeState>)>,
    leases: Seq<LeaseNodes>,
    back: Seq<(NodeId, Option<NodeState>, bool)>,
    j: int,
    k: int,
    c: int,
)
    requires
        0 <= j < gone.len(),
        0 <= k < leases.len(),
        0 <= c < leases[k].nodes@.len(),
        leases[k].nodes@[c] == gone[j].0,
    ensures
        (gone[j].1 == Some(NodeState::Schedulable) || gone[j].1 == Some(NodeState::Joining))
            ==> (vanish_changes(gone) + fail_changes(leases, gone) + return_changes(back)).contains(
            StateChange::SetNodeState { node: gone[j].0, state: NodeState::Unavailable }),
        leases[k].live ==> (vanish_changes(gone) + fail_changes(leases, gone) + return_changes(back)).contains(
            StateChange::FailLease { lease: leases[k].lease }),
{
    let all = vanish_changes(gone) + fail_changes(leases, gone) + return_changes(back);
    let v = vanish_changes(gone);
    let f = fail_changes(leases, gone);
    if gone[j].1 == Some(NodeState::Schedulable) || gone[j].1 == Some(NodeState::Joining) {
        lemma_vanish_contains(gone, j);
        let i = choose|i: int| 0 <= i < v.len() && v[i] == StateChange::SetNodeState { node: gone[j].0, state: NodeState::Unavailable };
        assert(all[i] == v[i]);
    }
    if leases[k].live {
        assert(claims_gone(leases[k].nodes@, gone)) by {
            assert(leases[k].nodes@[c] == gone[j].0);
        }
        lemma_fail_contains(leases, gone, k);
        let i = choose|i: int| 0 <= i < f.len() && f[i] == StateChange::FailLease { lease: leases[k].lease };
        assert(all[v.len() + i] == f[i]);
    }
}

} // verus!
