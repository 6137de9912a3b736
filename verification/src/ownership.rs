//! Who owns a returning machine's recorded facts: which nodes and edges the
//! host and device writers are expected to own, which of those no writer
//! owns yet, and which claim contracts are missing; a fact or contract that
//! another owner holds is a conflict.
use vstd::prelude::*;

use crate::discover::DeviceSpec;
use crate::graph::{
    claim_update, claim_updates, node_claim, ClaimBinding, ClaimBindingUpdate, DEVICE_FACT_WRITER,
    HOST_FACT_WRITER,
};
use crate::graph::ProviderId;
use crate::model::{CapacityDimension, Edge, EdgeKind, Node, NodeId};
use crate::protocol::BindingScope;
use crate::text::{char_views, chars_of, contains_chars, decimal, decimal_string};

verus! {

/// A containment fact between two nodes.
#[derive(Clone, Copy, Debug, PartialEq, Eq, Structural)]
pub struct FactEdge {
    pub from: NodeId,
    pub to: NodeId,
    pub kind: EdgeKind,
}

/// The nodes and edges one fact writer is expected to own.
#[derive(Clone, Debug)]
pub struct FactWriterAssignment {
    pub writer: u64,
    pub nodes: Vec<NodeId>,
    pub edges: Vec<FactEdge>,
}

/// A fact or contract that the returning machine reports but that another
/// owner already holds.
#[derive(Clone, Copy, Debug, PartialEq, Eq, Structural)]
pub enum OwnershipConflict {
    Node { node: NodeId, owner: u64, expected: u64 },
    Edge { edge: FactEdge, owner: u64, expected: u64 },
    Claim { node: NodeId, dimension: CapacityDimension, recorded: ClaimBinding, reported: ClaimBinding },
}

pub open spec fn fact_of(e: Edge) -> FactEdge {
    FactEdge { from: e.from, to: e.to, kind: e.kind }
}

pub open spec fn device_ids(devices: Seq<DeviceSpec>) -> Seq<Seq<char>> {
    devices.map_values(|d: DeviceSpec| d.id@)
}

pub open spec fn nodes_wf(nodes: Seq<Node>) -> bool {
    forall|i: int| 0 <= i < nodes.len() ==> #[trigger] nodes[i].wf()
}

/// The writer expected to own a node: the device writer for a device whose
/// stable id the agent still reports, the host writer for any other kind of
/// node, none for a device it no longer reports.
pub open spec fn expected_writer(n: Node, current: Seq<Seq<char>>) -> Option<u64> {
    if n.kind.is_device_class() {
        if n.attrs@.contains_key("id"@) && current.contains(n.attrs@["id"@]) {
            Some(DEVICE_FACT_WRITER)
        } else {
            None
        }
    } else {
        Some(HOST_FACT_WRITER)
    }
}

/// The expected writer of node id `id`: that of the last owned node with it.
pub open spec fn writer_of_id(nodes: Seq<Node>, current: Seq<Seq<char>>, id: NodeId) -> Option<u64>
    decreases nodes.len(),
{
    if nodes.len() == 0 {
        None
    } else if nodes.last().id == id && expected_writer(nodes.last(), current) is Some {
        expected_writer(nodes.last(), current)
    } else {
        writer_of_id(nodes.drop_last(), current, id)
    }
}

pub open spec fn owned_nodes(nodes: Seq<Node>, current: Seq<Seq<char>>, writer: u64) -> Seq<NodeId>
    decreases nodes.len(),
{
    if nodes.len() == 0 {
        Seq::empty()
    } else {
        let prev = owned_nodes(nodes.drop_last(), current, writer);
        if expected_writer(nodes.last(), current) == Some(writer) { prev.push(nodes.last().id) } else { prev }
    }
}

pub open spec fn owned_edges(nodes: Seq<Node>, current: Seq<Seq<char>>, edges: Seq<Edge>, writer: u64) -> Seq<FactEdge>
    decreases edges.len(),
{
    if edges.len() == 0 {
        Seq::empty()
    } else {
        let prev = owned_edges(nodes, current, edges.drop_last(), writer);
        let e = edges.last();
        if e.kind == EdgeKind::Contains && writer_of_id(nodes, current, e.to) == Some(writer) {
            prev.push(fact_of(e))
        } else {
            prev
        }
    }
}

pub open spec fn assignment_view(a: FactWriterAssignment) -> (u64, Seq<NodeId>, Seq<FactEdge>) {
    (a.writer, a.nodes@, a.edges@)
}

pub open spec fn assignments_view(v: Seq<FactWriterAssignment>) -> Seq<(u64, Seq<NodeId>, Seq<FactEdge>)> {
    v.map_values(|a: FactWriterAssignment| assignment_view(a))
}

/// The host writer's assignment, then the device writer's, each only when
/// it holds something.
pub open spec fn expected_assignments(nodes: Seq<Node>, current: Seq<Seq<char>>, edges: Seq<Edge>) -> Seq<(u64, Seq<NodeId>, Seq<FactEdge>)> {
    let host = (HOST_FACT_WRITER, owned_nodes(nodes, current, HOST_FACT_WRITER), owned_edges(nodes, current, edges, HOST_FACT_WRITER));
    let device = (DEVICE_FACT_WRITER, owned_nodes(nodes, current, DEVICE_FACT_WRITER), owned_edges(nodes, current, edges, DEVICE_FACT_WRITER));
    let first = if host.1.len() > 0 || host.2.len() > 0 { seq![host] } else { Seq::empty() };
    if device.1.len() > 0 || device.2.len() > 0 { first.push(device) } else { first }
}

/// The writer recorded for `key`: the first entry that names it.
pub open spec fn recorded_owner<K>(owners: Seq<(K, u64)>, key: K) -> Option<u64>
    decreases owners.len(),
{
    if owners.len() == 0 {
        None
    } else if owners[0].0 == key {
        Some(owners[0].1)
    } else {
        recorded_owner(owners.drop_first(), key)
    }
}

/// The nodes of an assignment to `writer` that no writer owns yet, or the
/// first that another writer owns.
pub open spec fn unowned_node_ids(nodes: Seq<NodeId>, owners: Seq<(NodeId, u64)>, writer: u64) -> Result<Seq<NodeId>, OwnershipConflict>
    decreases nodes.len(),
{
    if nodes.len() == 0 {
        Ok(Seq::empty())
    } else {
        match unowned_node_ids(nodes.drop_last(), owners, writer) {
            Err(c) => Err(c),
            Ok(prev) => match recorded_owner(owners, nodes.last()) {
                None => Ok(prev.push(nodes.last())),
                Some(w) => if w == writer {
                    Ok(prev)
                } else {
                    Err(OwnershipConflict::Node { node: nodes.last(), owner: w, expected: writer })
                },
            },
        }
    }
}

/// The edges of an assignment to `writer` that no writer owns yet, or the
/// first that another writer owns.
pub open spec fn unowned_edge_facts(edges: Seq<FactEdge>, owners: Seq<(FactEdge, u64)>, writer: u64) -> Result<Seq<FactEdge>, OwnershipConflict>
    decreases edges.len(),
{
    if edges.len() == 0 {
        Ok(Seq::empty())
    } else {
        match unowned_edge_facts(edges.drop_last(), owners, writer) {
            Err(c) => Err(c),
            Ok(prev) => match recorded_owner(owners, edges.last()) {
                None => Ok(prev.push(edges.last())),
                Some(w) => if w == writer {
                    Ok(prev)
                } else {
                    Err(OwnershipConflict::Edge { edge: edges.last(), owner: w, expected: writer })
                },
            },
        }
    }
}

/// What remains of one assignment once owned facts are set aside: nothing
/// when every fact is owned by its writer, a conflict when one is not.
pub open spec fn missing_part(a: (u64, Seq<NodeId>, Seq<FactEdge>), node_owners: Seq<(NodeId, u64)>, edge_owners: Seq<(FactEdge, u64)>) -> Result<Option<(u64, Seq<NodeId>, Seq<FactEdge>)>, OwnershipConflict> {
    match unowned_node_ids(a.1, node_owners, a.0) {
        Err(c) => Err(c),
        Ok(ns) => match unowned_edge_facts(a.2, edge_owners, a.0) {
            Err(c) => Err(c),
            Ok(es) => Ok(if ns.len() > 0 || es.len() > 0 { Some((a.0, ns, es)) } else { None }),
        },
    }
}

/// The unowned part of each assignment, in order, or the first conflict.
pub open spec fn missing_assignments(assignments: Seq<(u64, Seq<NodeId>, Seq<FactEdge>)>, node_owners: Seq<(NodeId, u64)>, edge_owners: Seq<(FactEdge, u64)>) -> Result<Seq<(u64, Seq<NodeId>, Seq<FactEdge>)>, OwnershipConflict>
    decreases assignments.len(),
{
    if assignments.len() == 0 {
        Ok(Seq::empty())
    } else {
        match missing_assignments(assignments.drop_last(), node_owners, edge_owners) {
            Err(c) => Err(c),
            Ok(prev) => match missing_part(assignments.last(), node_owners, edge_owners) {
                Err(c) => Err(c),
                Ok(None) => Ok(prev),
                Ok(Some(m)) => Ok(prev.push(m)),
            },
        }
    }
}

/// The nodes the returning machine still reports.
pub open spec fn current_nodes(nodes: Seq<Node>, current: Seq<Seq<char>>) -> Seq<Node>
    decreases nodes.len(),
{
    if nodes.len() == 0 {
        Seq::empty()
    } else {
        let prev = current_nodes(nodes.drop_last(), current);
        if expected_writer(nodes.last(), current) is Some { prev.push(nodes.last()) } else { prev }
    }
}

/// The binding recorded for a node's dimension: the first entry naming both.
pub open spec fn recorded_binding(recorded: Seq<(NodeId, CapacityDimension, ClaimBinding)>, node: NodeId, dimension: CapacityDimension) -> Option<ClaimBinding>
    decreases recorded.len(),
{
    if recorded.len() == 0 {
        None
    } else if recorded[0].0 == node && recorded[0].1 == dimension {
        Some(recorded[0].2)
    } else {
        recorded_binding(recorded.drop_first(), node, dimension)
    }
}

/// The claim contracts no binding is recorded for, or the first that is
/// recorded with another binding.
pub open spec fn missing_claims(updates: Seq<ClaimBindingUpdate>, recorded: Seq<(NodeId, CapacityDimension, ClaimBinding)>) -> Result<Seq<ClaimBindingUpdate>, OwnershipConflict>
    decreases updates.len(),
{
    if updates.len() == 0 {
        Ok(Seq::empty())
    } else {
        match missing_claims(updates.drop_last(), recorded) {
            Err(c) => Err(c),
            Ok(prev) => {
                let u = updates.last();
                match recorded_binding(recorded, u.node, u.dimension) {
                    None => Ok(prev.push(u)),
                    Some(b) => if Some(b) == u.binding {
                        Ok(prev)
                    } else {
                        Err(OwnershipConflict::Claim { node: u.node, dimension: u.dimension, recorded: b, reported: u.binding.unwrap() })
                    },
                }
            },
        }
    }
}

fn current_ids(devices: &[DeviceSpec]) -> (current: Vec<Vec<char>>)
    ensures
        char_views(current@) == device_ids(devices@),
{
    let mut current: Vec<Vec<char>> = Vec::new();
    let mut k: usize = 0;
    while k < devices.len()
        invariant
            k <= devices@.len(),
            char_views(current@) == device_ids(devices@.take(k as int)),
        decreases devices@.len() - k,
    {
        let ghost before = current@;
        current.push(chars_of(devices[k].id.as_str()));
        assert(char_views(current@) =~= char_views(before).push(devices@[k as int].id@));
        assert(device_ids(devices@.take(k + 1)) =~= device_ids(devices@.take(k as int)).push(devices@[k as int].id@));
        k = k + 1;
    }
    assert(devices@.take(k as int) =~= devices@);
    current
}

fn expected_writer_of(n: &Node, current: &Vec<Vec<char>>) -> (w: Option<u64>)
    requires
        n.wf(),
    ensures
        w == expected_writer(*n, char_views(current@)),
{
    if n.kind.is_device() {
        match n.attrs.get("id") {
            Some(s) => {
                let sc = chars_of(s.as_str());
                if contains_chars(current, sc.as_slice()) { Some(DEVICE_FACT_WRITER) } else { None }
            },
            None => None,
        }
    } else {
        Some(HOST_FACT_WRITER)
    }
}

fn writer_of_node(nodes: &[Node], current: &Vec<Vec<char>>, id: NodeId) -> (w: Option<u64>)
    requires
        nodes_wf(nodes@),
    ensures
        w == writer_of_id(nodes@, char_views(current@), id),
{
    let mut i: usize = nodes.len();
    assert(nodes@.take(i as int) =~= nodes@);
    while i > 0
        invariant
            i <= nodes@.len(),
            nodes_wf(nodes@),
            writer_of_id(nodes@, char_views(current@), id) == writer_of_id(nodes@.take(i as int), char_views(current@), id),
        decreases i,
    {
        assert(nodes@.take(i as int).drop_last() =~= nodes@.take(i - 1));
        if nodes[i - 1].id == id {
            let w = expected_writer_of(&nodes[i - 1], current);
            if w.is_some() {
                return w;
            }
        }
        i = i - 1;
    }
    None
}

/// The facts the host and device writers are expected to own for a
/// returning machine: `nodes` are the machine and its descendants, `edges`
/// the graph's edges, `devices` the inventory the agent reports. A device
/// whose stable id the agent no longer reports stays unowned; only
/// containment edges into owned nodes are assigned, to their target's writer.
pub fn current_fact_writer_assignments(nodes: &[Node], edges: &[Edge], devices: &[DeviceSpec]) -> (assignments: Vec<FactWriterAssignment>)
    requires
        nodes_wf(nodes@),
    ensures
        assignments_view(assignments@) == expected_assignments(nodes@, device_ids(devices@), edges@),
{
    let current = current_ids(devices);
    let ghost cur = char_views(current@);
    let mut host_nodes: Vec<NodeId> = Vec::new();
    let mut device_nodes: Vec<NodeId> = Vec::new();
    let mut i: usize = 0;
    while i < nodes.len()
        invariant
            cur == char_views(current@),
            nodes_wf(nodes@),
            i <= nodes@.len(),
            host_nodes@ == owned_nodes(nodes@.take(i as int), cur, HOST_FACT_WRITER),
            device_nodes@ == owned_nodes(nodes@.take(i as int), cur, DEVICE_FACT_WRITER),
        decreases nodes@.len() - i,
    {
        assert(nodes@.take(i + 1).drop_last() =~= nodes@.take(i as int));
        match expected_writer_of(&nodes[i], &current) {
            Some(w) => {
                if w == DEVICE_FACT_WRITER {
                    device_nodes.push(nodes[i].id);
                } else {
                    host_nodes.push(nodes[i].id);
                }
            },
            None => {},
        }
        i = i + 1;
    }
    assert(nodes@.take(i as int) =~= nodes@);
    let mut host_edges: Vec<FactEdge> = Vec::new();
    let mut device_edges: Vec<FactEdge> = Vec::new();
    let mut j: usize = 0;
    while j < edges.len()
        invariant
            cur == char_views(current@),
            nodes_wf(nodes@),
            j <= edges@.len(),
            host_edges@ == owned_edges(nodes@, cur, edges@.take(j as int), HOST_FACT_WRITER),
            device_edges@ == owned_edges(nodes@, cur, edges@.take(j as int), DEVICE_FACT_WRITER),
        decreases edges@.len() - j,
    {
        assert(edges@.take(j + 1).drop_last() =~= edges@.take(j as int));
        let e = &edges[j];
        if e.kind == EdgeKind::Contains {
            match writer_of_node(nodes, &current, e.to) {
                Some(w) => {
                    let fact = FactEdge { from: e.from, to: e.to, kind: e.kind };
                    if w == DEVICE_FACT_WRITER {
                        device_edges.push(fact);
                    } else if w == HOST_FACT_WRITER {
                        host_edges.push(fact);
                    }
                },
                None => {},
            }
        }
        j = j + 1;
    }
    assert(edges@.take(j as int) =~= edges@);
    let mut assignments: Vec<FactWriterAssignment> = Vec::new();
    let ghost want = expected_assignments(nodes@, cur, edges@);
    if host_nodes.len() > 0 || host_edges.len() > 0 {
        assignments.push(FactWriterAssignment { writer: HOST_FACT_WRITER, nodes: host_nodes, edges: host_edges });
    }
    if device_nodes.len() > 0 || device_edges.len() > 0 {
        assignments.push(FactWriterAssignment { writer: DEVICE_FACT_WRITER, nodes: device_nodes, edges: device_edges });
    }
    assert(assignments_view(assignments@) =~= want);
    assignments
}

fn node_owner(owners: &[(NodeId, u64)], key: NodeId) -> (w: Option<u64>)
    ensures
        w == recorded_owner(owners@, key),
{
    let mut i: usize = 0;
    assert(owners@.subrange(0, owners@.len() as int) =~= owners@);
    while i < owners.len()
        invariant
            i <= owners@.len(),
            recorded_owner(owners@, key) == recorded_owner(owners@.subrange(i as int, owners@.len() as int), key),
        decreases owners@.len() - i,
    {
        assert(owners@.subrange(i as int, owners@.len() as int).drop_first() =~= owners@.subrange(i + 1, owners@.len() as int));
        if owners[i].0 == key {
            return Some(owners[i].1);
        }
        i = i + 1;
    }
    None
}

fn edge_owner(owners: &[(FactEdge, u64)], key: FactEdge) -> (w: Option<u64>)
    ensures
        w == recorded_owner(owners@, key),
{
    let mut i: usize = 0;
    assert(owners@.subrange(0, owners@.len() as int) =~= owners@);
    while i < owners.len()
        invariant
            i <= owners@.len(),
            recorded_owner(owners@, key) == recorded_owner(owners@.subrange(i as int, owners@.len() as int), key),
        decreases owners@.len() - i,
    {
        assert(owners@.subrange(i as int, owners@.len() as int).drop_first() =~= owners@.subrange(i + 1, owners@.len() as int));
        if owners[i].0 == key {
            return Some(owners[i].1);
        }
        i = i + 1;
    }
    None
}

fn binding_of(recorded: &[(NodeId, CapacityDimension, ClaimBinding)], node: NodeId, dimension: CapacityDimension) -> (b: Option<ClaimBinding>)
    ensures
        b == recorded_binding(recorded@, node, dimension),
{
    let mut i: usize = 0;
    assert(recorded@.subrange(0, recorded@.len() as int) =~= recorded@);
    while i < recorded.len()
        invariant
            i <= recorded@.len(),
            recorded_binding(recorded@, node, dimension) == recorded_binding(recorded@.subrange(i as int, recorded@.len() as int), node, dimension),
        decreases recorded@.len() - i,
    {
        assert(recorded@.subrange(i as int, recorded@.len() as int).drop_first() =~= recorded@.subrange(i + 1, recorded@.len() as int));
        if recorded[i].0 == node && recorded[i].1 == dimension {
            return Some(recorded[i].2);
        }
        i = i + 1;
    }
    None
}

fn unowned_nodes(nodes: &Vec<NodeId>, owners: &[(NodeId, u64)], writer: u64) -> (r: Result<Vec<NodeId>, OwnershipConflict>)
    ensures
        unowned_node_ids(nodes@, owners@, writer) == match r {
            Ok(v) => Ok(v@),
            Err(c) => Err(c),
        },
{
    let mut kept: Vec<NodeId> = Vec::new();
    let mut conflict: Option<OwnershipConflict> = None;
    let mut i: usize = 0;
    while i < nodes.len()
        invariant
            i <= nodes@.len(),
            unowned_node_ids(nodes@.take(i as int), owners@, writer) == match conflict {
                Some(c) => Err(c),
                None => Ok(kept@),
            },
        decreases nodes@.len() - i,
    {
        assert(nodes@.take(i + 1).drop_last() =~= nodes@.take(i as int));
        if conflict.is_none() {
            let id = nodes[i];
            match node_owner(owners, id) {
                None => kept.push(id),
                Some(w) => {
                    if w != writer {
                        conflict = Some(OwnershipConflict::Node { node: id, owner: w, expected: writer });
                    }
                },
            }
        }
        i = i + 1;
    }
    assert(nodes@.take(i as int) =~= nodes@);
    match conflict {
        Some(c) => Err(c),
        None => Ok(kept),
    }
}

fn unowned_edges(edges: &Vec<FactEdge>, owners: &[(FactEdge, u64)], writer: u64) -> (r: Result<Vec<FactEdge>, OwnershipConflict>)
    ensures
        unowned_edge_facts(edges@, owners@, writer) == match r {
            Ok(v) => Ok(v@),
            Err(c) => Err(c),
        },
{
    let mut kept: Vec<FactEdge> = Vec::new();
    let mut conflict: Option<OwnershipConflict> = None;
    let mut i: usize = 0;
    while i < edges.len()
        invariant
            i <= edges@.len(),
            unowned_edge_facts(edges@.take(i as int), owners@, writer) == match conflict {
                Some(c) => Err(c),
                None => Ok(kept@),
            },
        decreases edges@.len() - i,
    {
        assert(edges@.take(i + 1).drop_last() =~= edges@.take(i as int));
        if conflict.is_none() {
            let e = edges[i];
            match edge_owner(owners, e) {
                None => kept.push(e),
                Some(w) => {
                    if w != writer {
                        conflict = Some(OwnershipConflict::Edge { edge: e, owner: w, expected: writer });
                    }
                },
            }
        }
        i = i + 1;
    }
    assert(edges@.take(i as int) =~= edges@);
    match conflict {
        Some(c) => Err(c),
        None => Ok(kept),
    }
}

/// The part of the returning machine's expected facts that no writer owns
/// yet, per writer in the order of `current_fact_writer_assignments`, with
/// writers left out whose facts are all theirs already. `node_owners` and
/// `edge_owners` are the writers the graph records. A fact recorded under
/// another writer than expected is refused as a conflict: the first such
/// node or edge, host writer first, nodes before edges.
pub fn missing_fact_writer_assignments(
    nodes: &[Node],
    edges: &[Edge],
    devices: &[DeviceSpec],
    node_owners: &[(NodeId, u64)],
    edge_owners: &[(FactEdge, u64)],
) -> (r: Result<Vec<FactWriterAssignment>, OwnershipConflict>)
    requires
        nodes_wf(nodes@),
    ensures
        missing_assignments(expected_assignments(nodes@, device_ids(devices@), edges@), node_owners@, edge_owners@)
            == match r {
            Ok(v) => Ok(assignments_view(v@)),
            Err(c) => Err(c),
        },
{
    let expected = current_fact_writer_assignments(nodes, edges, devices);
    let ghost ev = assignments_view(expected@);
    let mut missing: Vec<FactWriterAssignment> = Vec::new();
    let mut conflict: Option<OwnershipConflict> = None;
    let mut i: usize = 0;
    assert(assignments_view(missing@) =~= Seq::empty());
    assert(ev.take(0) =~= Seq::empty());
    while i < expected.len()
        invariant
            ev == assignments_view(expected@),
            i <= expected@.len(),
            missing_assignments(ev.take(i as int), node_owners@, edge_owners@) == match conflict {
                Some(c) => Err(c),
                None => Ok(assignments_view(missing@)),
            },
        decreases expected@.len() - i,
    {
        assert(ev.take(i + 1).drop_last() =~= ev.take(i as int));
        assert(ev.take(i + 1).last() == assignment_view(expected@[i as int]));
        if conflict.is_none() {
            let a = &expected[i];
            match unowned_nodes(&a.nodes, node_owners, a.writer) {
                Err(c) => conflict = Some(c),
                Ok(ns) => match unowned_edges(&a.edges, edge_owners, a.writer) {
                    Err(c) => conflict = Some(c),
                    Ok(es) => {
                        if ns.len() > 0 || es.len() > 0 {
                            let ghost before = missing@;
                            let part = FactWriterAssignment { writer: a.writer, nodes: ns, edges: es };
                            let ghost pv = assignment_view(part);
                            missing.push(part);
                            assert(assignments_view(missing@) =~= assignments_view(before).push(pv));
                        }
                    },
                },
            }
        }
        i = i + 1;
    }
    assert(ev.take(i as int) =~= ev);
    match conflict {
        Some(c) => Err(c),
        None => Ok(missing),
    }
}

/// The claim contracts of the nodes the returning machine still reports
/// (its devices by their stable ids, every other node) that no binding is
/// recorded for, in node order. `recorded` holds the bindings the graph
/// records per node and dimension. A contract recorded with another binding
/// is refused as a conflict: the first such one.
pub fn missing_claim_contracts(
    nodes: &[Node],
    devices: &[DeviceSpec],
    recorded: &[(NodeId, CapacityDimension, ClaimBinding)],
) -> (r: Result<Vec<ClaimBindingUpdate>, OwnershipConflict>)
    requires
        nodes_wf(nodes@),
    ensures
        missing_claims(claim_updates(current_nodes(nodes@, device_ids(devices@))), recorded@) == match r {
            Ok(v) => Ok(v@),
            Err(c) => Err(c),
        },
{
    let current = current_ids(devices);
    let ghost cur = char_views(current@);
    let mut missing: Vec<ClaimBindingUpdate> = Vec::new();
    let mut conflict: Option<OwnershipConflict> = None;
    let mut i: usize = 0;
    while i < nodes.len()
        invariant
            cur == char_views(current@),
            nodes_wf(nodes@),
            i <= nodes@.len(),
            missing_claims(claim_updates(current_nodes(nodes@.take(i as int), cur)), recorded@) == match conflict {
                Some(c) => Err(c),
                None => Ok(missing@),
            },
        decreases nodes@.len() - i,
    {
        assert(nodes@.take(i + 1).drop_last() =~= nodes@.take(i as int));
        let ghost prev_nodes = current_nodes(nodes@.take(i as int), cur);
        if expected_writer_of(&nodes[i], &current).is_some() {
            assert(current_nodes(nodes@.take(i + 1), cur) == prev_nodes.push(nodes@[i as int]));
            assert(prev_nodes.push(nodes@[i as int]).drop_last() =~= prev_nodes);
            if let Some(u) = node_claim(&nodes[i]) {
                let ghost prev_updates = claim_updates(prev_nodes);
                assert(claim_updates(prev_nodes.push(nodes@[i as int])) == prev_updates.push(u));
                assert(prev_updates.push(u).drop_last() =~= prev_updates);
                if conflict.is_none() {
                    match binding_of(recorded, u.node, u.dimension) {
                        None => missing.push(u),
                        Some(b) => {
                            let reported = u.binding.unwrap();
                            if !(b == reported) {
                                conflict = Some(OwnershipConflict::Claim { node: u.node, dimension: u.dimension, recorded: b, reported });
                            }
                        },
                    }
                }
            }
        }
        i = i + 1;
    }
    assert(nodes@.take(i as int) =~= nodes@);
    match conflict {
        Some(c) => Err(c),
        None => Ok(missing),
    }
}

pub open spec fn ids_distinct(nodes: Seq<Node>) -> bool {
    forall|i: int, j: int| 0 <= i < j < nodes.len() ==> nodes[i].id != nodes[j].id
}

proof fn lemma_owned_node_has_writer(nodes: Seq<Node>, current: Seq<Seq<char>>, writer: u64, id: NodeId)
    requires
        owned_nodes(nodes, current, writer).contains(id),
    ensures
        exists|i: int| 0 <= i < nodes.len() && #[trigger] nodes[i].id == id && expected_writer(nodes[i], current) == Some(writer),
    decreases nodes.len(),
{
    let prev = owned_nodes(nodes.drop_last(), current, writer);
    if prev.contains(id) {
        lemma_owned_node_has_writer(nodes.drop_last(), current, writer, id);
        let i = choose|i: int| 0 <= i < nodes.drop_last().len() && #[trigger] nodes.drop_last()[i].id == id && expected_writer(nodes.drop_last()[i], current) == Some(writer);
        assert(nodes[i] == nodes.drop_last()[i]);
    } else {
        assert(nodes[nodes.len() - 1].id == id);
    }
}

proof fn lemma_writer_of_id_has_node(nodes: Seq<Node>, current: Seq<Seq<char>>, id: NodeId)
    requires
        writer_of_id(nodes, current, id) is Some,
    ensures
        exists|i: int| 0 <= i < nodes.len() && #[trigger] nodes[i].id == id && expected_writer(nodes[i], current) == writer_of_id(nodes, current, id),
    decreases nodes.len(),
{
    if nodes.last().id == id && expected_writer(nodes.last(), current) is Some {
        assert(nodes[nodes.len() - 1].id == id);
    } else {
        lemma_writer_of_id_has_node(nodes.drop_last(), current, id);
        let i = choose|i: int| 0 <= i < nodes.drop_last().len() && #[trigger] nodes.drop_last()[i].id == id && expected_writer(nodes.drop_last()[i], current) == writer_of_id(nodes.drop_last(), current, id);
        assert(nodes[i] == nodes.drop_last()[i]);
    }
}

proof fn lemma_owned_edge_has_writer(nodes: Seq<Node>, current: Seq<Seq<char>>, edges: Seq<Edge>, writer: u64, e: FactEdge)
    requires
        owned_edges(nodes, current, edges, writer).contains(e),
    ensures
        writer_of_id(nodes, current, e.to) == Some(writer),
    decreases edges.len(),
{
    let prev = owned_edges(nodes, current, edges.drop_last(), writer);
    if prev.contains(e) {
        lemma_owned_edge_has_writer(nodes, current, edges.drop_last(), writer, e);
    } else {
        let last = owned_edges(nodes, current, edges, writer).len() - 1;
        assert(owned_edges(nodes, current, edges, writer)[last] == fact_of(edges.last()));
    }
}

proof fn lemma_current_node_reported(nodes: Seq<Node>, current: Seq<Seq<char>>, n: Node)
    requires
        current_nodes(nodes, current).contains(n),
    ensures
        exists|i: int| 0 <= i < nodes.len() && #[trigger] nodes[i] == n && expected_writer(n, current) is Some,
    decreases nodes.len(),
{
    let prev = current_nodes(nodes.drop_last(), current);
    if prev.contains(n) {
        lemma_current_node_reported(nodes.drop_last(), current, n);
        let i = choose|i: int| 0 <= i < nodes.drop_last().len() && #[trigger] nodes.drop_last()[i] == n && expected_writer(n, current) is Some;
        assert(nodes[i] == nodes.drop_last()[i]);
    } else {
        assert(nodes[nodes.len() - 1] == n);
    }
}

proof fn lemma_claim_has_node(nodes: Seq<Node>, u: ClaimBindingUpdate)
    requires
        claim_updates(nodes).contains(u),
    ensures
        exists|i: int| 0 <= i < nodes.len() && #[trigger] nodes[i].id == u.node,
    decreases nodes.len(),
{
    let prev = claim_updates(nodes.drop_last());
    if prev.contains(u) {
        lemma_claim_has_node(nodes.drop_last(), u);
        let i = choose|i: int| 0 <= i < nodes.drop_last().len() && #[trigger] nodes.drop_last()[i].id == u.node;
        assert(nodes[i] == nodes.drop_last()[i]);
    } else {
        assert(claim_update(nodes.last()) == Some(u));
        assert(nodes[nodes.len() - 1].id == u.node);
    }
}

/// Host topology and device inventory have distinct writers: no node is
/// assigned to both, and every assigned node is the host writer's exactly
/// when it is not a device.
pub proof fn lemma_writers_partition_nodes(nodes: Seq<Node>, devices: Seq<DeviceSpec>, id: NodeId)
    requires
        ids_distinct(nodes),
    ensures
        !(owned_nodes(nodes, device_ids(devices), HOST_FACT_WRITER).contains(id)
            && owned_nodes(nodes, device_ids(devices), DEVICE_FACT_WRITER).contains(id)),
        owned_nodes(nodes, device_ids(devices), HOST_FACT_WRITER).contains(id)
            ==> exists|i: int| 0 <= i < nodes.len() && #[trigger] nodes[i].id == id && !nodes[i].kind.is_device_class(),
        owned_nodes(nodes, device_ids(devices), DEVICE_FACT_WRITER).contains(id)
            ==> exists|i: int| 0 <= i < nodes.len() && #[trigger] nodes[i].id == id && nodes[i].kind.is_device_class(),
{
    let cur = device_ids(devices);
    if owned_nodes(nodes, cur, HOST_FACT_WRITER).contains(id) {
        lemma_owned_node_has_writer(nodes, cur, HOST_FACT_WRITER, id);
    }
    if owned_nodes(nodes, cur, DEVICE_FACT_WRITER).contains(id) {
        lemma_owned_node_has_writer(nodes, cur, DEVICE_FACT_WRITER, id);
    }
    if owned_nodes(nodes, cur, HOST_FACT_WRITER).contains(id) && owned_nodes(nodes, cur, DEVICE_FACT_WRITER).contains(id) {
        let i = choose|i: int| 0 <= i < nodes.len() && #[trigger] nodes[i].id == id && expected_writer(nodes[i], cur) == Some(HOST_FACT_WRITER);
        let j = choose|j: int| 0 <= j < nodes.len() && #[trigger] nodes[j].id == id && expected_writer(nodes[j], cur) == Some(DEVICE_FACT_WRITER);
        if i < j {
            assert(nodes[i].id != nodes[j].id);
        } else if j < i {
            assert(nodes[j].id != nodes[i].id);
        }
    }
}

/// A device whose stable id the agent no longer reports is owned by no
/// writer, no containment edge into it is assigned, and no claim contract
/// is offered for it, though its node stays recorded under the machine.
pub proof fn lemma_omitted_device_stays_unowned(nodes: Seq<Node>, edges: Seq<Edge>, devices: Seq<DeviceSpec>, k: int, writer: u64)
    requires
        ids_distinct(nodes),
        0 <= k < nodes.len(),
        nodes[k].kind.is_device_class(),
        !(nodes[k].attrs@.contains_key("id"@) && device_ids(devices).contains(nodes[k].attrs@["id"@])),
    ensures
        !owned_nodes(nodes, device_ids(devices), writer).contains(nodes[k].id),
        forall|e: FactEdge| #[trigger] owned_edges(nodes, device_ids(devices), edges, writer).contains(e) ==> e.to != nodes[k].id,
        forall|u: ClaimBindingUpdate| #[trigger] claim_updates(current_nodes(nodes, device_ids(devices))).contains(u) ==> u.node != nodes[k].id,
{
    let cur = device_ids(devices);
    let id = nodes[k].id;
    if owned_nodes(nodes, cur, writer).contains(id) {
        lemma_owned_node_has_writer(nodes, cur, writer, id);
        let i = choose|i: int| 0 <= i < nodes.len() && #[trigger] nodes[i].id == id && expected_writer(nodes[i], cur) == Some(writer);
        assert(i == k);
    }
    assert forall|e: FactEdge| #[trigger] owned_edges(nodes, cur, edges, writer).contains(e) implies e.to != id by {
        lemma_owned_edge_has_writer(nodes, cur, edges, writer, e);
        if e.to == id {
            lemma_writer_of_id_has_node(nodes, cur, id);
            let i = choose|i: int| 0 <= i < nodes.len() && #[trigger] nodes[i].id == id && expected_writer(nodes[i], cur) == writer_of_id(nodes, cur, id);
            assert(i == k);
        }
    }
    assert forall|u: ClaimBindingUpdate| #[trigger] claim_updates(current_nodes(nodes, cur)).contains(u) implies u.node != id by {
        if u.node == id {
            let cn = current_nodes(nodes, cur);
            lemma_claim_has_node(cn, u);
            let j = choose|j: int| 0 <= j < cn.len() && #[trigger] cn[j].id == u.node;
            assert(cn.contains(cn[j]));
            lemma_current_node_reported(nodes, cur, cn[j]);
            let i = choose|i: int| 0 <= i < nodes.len() && #[trigger] nodes[i] == cn[j] && expected_writer(cn[j], cur) is Some;
            assert(nodes[i].id == id);
            assert(i == k);
        }
    }
}

pub open spec fn dimension_word(d: CapacityDimension) -> Seq<char> {
    match d {
        CapacityDimension::Count => "count"@,
        CapacityDimension::Bytes => "bytes"@,
    }
}

pub open spec fn provider_word(p: ProviderId) -> Seq<char> {
    match p {
        ProviderId::Enforce => "enforce"@,
        ProviderId::External(n) => decimal(n as nat),
    }
}

pub open spec fn scope_word(s: BindingScope) -> Seq<char> {
    match s {
        BindingScope::Exclusive => "exclusive"@,
        BindingScope::IndependentShare => "independent-share"@,
    }
}

/// The refusal a conflict is reported with.
pub open spec fn conflict_message(c: OwnershipConflict) -> Seq<char> {
    match c {
        OwnershipConflict::Node { node, owner, expected } => "resource node "@ + decimal(node.0 as nat)
            + " already belongs to discovery writer "@ + decimal(owner as nat) + "; returning agent expects "@
            + decimal(expected as nat),
        OwnershipConflict::Edge { edge, owner, expected } => "resource edge "@ + decimal(edge.from.0 as nat) + " -> "@
            + decimal(edge.to.0 as nat) + " Contains already belongs to discovery writer "@ + decimal(owner as nat)
            + "; returning agent expects "@ + decimal(expected as nat),
        OwnershipConflict::Claim { node, dimension, recorded, reported } => "resource "@ + decimal(node.0 as nat)
            + " dimension "@ + dimension_word(dimension) + " already belongs to provider "@ + provider_word(recorded.provider)
            + " with "@ + scope_word(recorded.scope) + " scope; returning agent reports provider "@
            + provider_word(reported.provider) + " with "@ + scope_word(reported.scope) + " scope"@,
    }
}

fn dimension_text(d: CapacityDimension) -> (s: String)
    ensures
        s@ == dimension_word(d),
{
    match d {
        CapacityDimension::Count => String::from_str("count"),
        CapacityDimension::Bytes => String::from_str("bytes"),
    }
}

fn provider_text(p: ProviderId) -> (s: String)
    ensures
        s@ == provider_word(p),
{
    match p {
        ProviderId::Enforce => String::from_str("enforce"),
        ProviderId::External(n) => decimal_string(n),
    }
}

fn scope_text(s: BindingScope) -> (t: String)
    ensures
        t@ == scope_word(s),
{
    match s {
        BindingScope::Exclusive => String::from_str("exclusive"),
        BindingScope::IndependentShare => String::from_str("independent-share"),
    }
}

impl OwnershipConflict {
    /// The refusal this conflict is reported with.
    pub fn explanation(&self) -> (m: String)
        ensures
            m@ == conflict_message(*self),
    {
        match *self {
            OwnershipConflict::Node { node, owner, expected } => String::from_str("resource node ")
                .concat(decimal_string(node.0).as_str())
                .concat(" already belongs to discovery writer ")
                .concat(decimal_string(owner).as_str())
                .concat("; returning agent expects ")
                .concat(decimal_string(expected).as_str()),
            OwnershipConflict::Edge { edge, owner, expected } => String::from_str("resource edge ")
                .concat(decimal_string(edge.from.0).as_str())
                .concat(" -> ")
                .concat(decimal_string(edge.to.0).as_str())
                .concat(" Contains already belongs to discovery writer ")
                .concat(decimal_string(owner).as_str())
                .concat("; returning agent expects ")
                .concat(decimal_string(expected).as_str()),
            OwnershipConflict::Claim { node, dimension, recorded, reported } => String::from_str("resource ")
                .concat(decimal_string(node.0).as_str())
                .concat(" dimension ")
                .concat(dimension_text(dimension).as_str())
                .concat(" already belongs to provider ")
                .concat(provider_text(recorded.provider).as_str())
                .concat(" with ")
                .concat(scope_text(recorded.scope).as_str())
                .concat(" scope; returning agent reports provider ")
                .concat(provider_text(reported.provider).as_str())
                .concat(" with ")
                .concat(scope_text(reported.scope).as_str())
                .concat(" scope"),
        }
    }
}

} // verus!
