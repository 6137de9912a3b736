//! The resource-graph fragment of one machine: node ids handed out in a
//! fixed order, the containment edges between them, and the split of the
//! fragment between the host and device fact writers.
use vstd::prelude::*;

use crate::discover::{
    containment_error, containment_errors, description_error, device_errors, find_host, host_ids, host_totals, views_of,
    DeviceView, HostNodeSpec, HostView, MachineDescription,
};
use crate::model::{
    qty, spec_qty, Attrs, CapacityDimension, Edge, EdgeKind, EdgeView, Node, NodeId, NodeView,
    Quantity, ResourceClass,
};
use crate::protocol::BindingScope;
use crate::text::{char_views, chars_eq, chars_of};

verus! {

// ---------------------------------------------------------------------------
// Ordering host ids as `str` orders them.
// ---------------------------------------------------------------------------

/// `a` sorts strictly before `b`: the first differing character decides,
/// and a proper prefix comes first.
pub open spec fn id_less(a: Seq<char>, b: Seq<char>) -> bool
    decreases a.len(),
{
    if b.len() == 0 {
        false
    } else if a.len() == 0 {
        true
    } else if a[0] != b[0] {
        (a[0] as int) < (b[0] as int)
    } else {
        id_less(a.drop_first(), b.drop_first())
    }
}

/// No id sorts before itself.
pub proof fn lemma_id_less_irreflexive(a: Seq<char>)
    ensures
        !id_less(a, a),
    decreases a.len(),
{
    if a.len() > 0 {
        lemma_id_less_irreflexive(a.drop_first());
    }
}

/// The id order is transitive.
pub proof fn lemma_id_less_transitive(a: Seq<char>, b: Seq<char>, c: Seq<char>)
    requires
        id_less(a, b),
        id_less(b, c),
    ensures
        id_less(a, c),
    decreases a.len(),
{
    if a.len() > 0 && b.len() > 0 && c.len() > 0 && a[0] == b[0] && b[0] == c[0] {
        lemma_id_less_transitive(a.drop_first(), b.drop_first(), c.drop_first());
    }
}

/// Of two different ids, one sorts before the other.
pub proof fn lemma_id_less_total(a: Seq<char>, b: Seq<char>)
    requires
        a != b,
    ensures
        id_less(a, b) || id_less(b, a),
    decreases a.len(),
{
    if a.len() > 0 && b.len() > 0 && a[0] == b[0] {
        if a.drop_first() == b.drop_first() {
            assert(a =~= seq![a[0]] + a.drop_first());
            assert(b =~= seq![b[0]] + b.drop_first());
        }
        lemma_id_less_total(a.drop_first(), b.drop_first());
    } else if a.len() > 0 && b.len() > 0 {
        assert((a[0] as int) != (b[0] as int));
    } else if a.len() == 0 && b.len() == 0 {
        assert(a =~= b);
    }
}

/// Whether `a` sorts strictly before `b`.
pub fn id_less_exec(a: &[char], b: &[char]) -> (r: bool)
    ensures
        r == id_less(a@, b@),
{
    let mut i: usize = 0;
    assert(a@.skip(0) =~= a@ && b@.skip(0) =~= b@);
    while i < a.len() && i < b.len()
        invariant
            i <= a@.len(),
            i <= b@.len(),
            id_less(a@, b@) == id_less(a@.skip(i as int), b@.skip(i as int)),
        decreases a@.len() - i,
    {
        let x = a[i];
        let y = b[i];
        if x != y {
            proof {
                assert(a@.skip(i as int)[0] == x && b@.skip(i as int)[0] == y);
            }
            return x < y;
        }
        proof {
            assert(a@.skip(i as int).drop_first() =~= a@.skip(i + 1));
            assert(b@.skip(i as int).drop_first() =~= b@.skip(i + 1));
        }
        i = i + 1;
    }
    i < b.len()
}

/// No two hosts share an id.
pub open spec fn distinct_ids(ids: Seq<Seq<char>>) -> bool {
    forall|i: int, j: int| 0 <= i < j < ids.len() ==> ids[i] != ids[j]
}

/// `order` lists every index of `ids` once, by increasing id.
pub open spec fn sorted_order(ids: Seq<Seq<char>>, order: Seq<usize>) -> bool {
    &&& order.len() == ids.len()
    &&& forall|p: int| 0 <= p < order.len() ==> (order[p] as int) < ids.len()
    &&& forall|p: int, q: int| 0 <= p < q < order.len() ==> id_less(ids[order[p] as int], ids[order[q] as int])
}

/// Indices of `ids` by increasing id (insertion sort).
pub fn sorted_indices(ids: &Vec<Vec<char>>) -> (order: Vec<usize>)
    requires
        distinct_ids(char_views(ids@)),
    ensures
        sorted_order(char_views(ids@), order@),
        order@.no_duplicates(),
        forall|i: usize| i < ids@.len() ==> #[trigger] order@.contains(i),
{
    let ghost v = char_views(ids@);
    let mut order: Vec<usize> = Vec::new();
    let mut k: usize = 0;
    while k < ids.len()
        invariant
            v == char_views(ids@),
            distinct_ids(v),
            k <= ids@.len(),
            order@.len() == k,
            forall|p: int| 0 <= p < order@.len() ==> (order@[p] as int) < k,
            forall|p: int, q: int| 0 <= p < q < order@.len() ==> id_less(v[order@[p] as int], v[order@[q] as int]),
            order@.no_duplicates(),
            forall|i: usize| i < k ==> #[trigger] order@.contains(i),
        decreases ids@.len() - k,
    {
        let mut pos: usize = 0;
        while pos < order.len() && !id_less_exec(ids[k].as_slice(), ids[order[pos]].as_slice())
            invariant
                v == char_views(ids@),
                distinct_ids(v),
                k < ids@.len(),
                order@.len() == k,
                pos <= order@.len(),
                forall|p: int| 0 <= p < order@.len() ==> (order@[p] as int) < k,
                forall|p: int| 0 <= p < pos ==> id_less(v[order@[p] as int], v[k as int]),
            decreases order@.len() - pos,
        {
            proof {
                let o = order@[pos as int] as int;
                assert(v[o] == ids@[o]@);
                assert(v[k as int] == ids@[k as int]@);
                assert(v[o] != v[k as int]);
                lemma_id_less_total(v[o], v[k as int]);
            }
            pos = pos + 1;
        }
        let ghost before = order@;
        proof {
            if pos < before.len() {
                assert(v[before[pos as int] as int] == ids@[before[pos as int] as int]@);
                assert(v[k as int] == ids@[k as int]@);
                assert forall|q: int| pos <= q < before.len() implies id_less(v[k as int], v[before[q] as int]) by {
                    if q > pos {
                        lemma_id_less_transitive(v[k as int], v[before[pos as int] as int], v[before[q] as int]);
                    }
                }
            }
        }
        order.insert(pos, k);
        proof {
            let after = order@;
            assert(after =~= before.insert(pos as int, k));
            assert forall|p: int, q: int| 0 <= p < q < after.len() implies id_less(v[after[p] as int], v[after[q] as int]) by {
                if q < pos {
                    assert(after[p] == before[p] && after[q] == before[q]);
                } else if q == pos {
                    assert(after[p] == before[p]);
                } else if p < pos {
                    assert(after[p] == before[p] && after[q] == before[q - 1]);
                    lemma_id_less_transitive(v[before[p] as int], v[k as int], v[before[q - 1] as int]);
                } else if p == pos {
                    assert(after[q] == before[q - 1]);
                } else {
                    assert(after[p] == before[p - 1] && after[q] == before[q - 1]);
                }
            }
            assert forall|i: usize| i <= k implies #[trigger] after.contains(i) by {
                if i < k {
                    assert(before.contains(i));
                    let q = choose|q: int| 0 <= q < before.len() && before[q] == i;
                    if q < pos {
                        assert(after[q] == i);
                    } else {
                        assert(after[q + 1] == i);
                    }
                } else {
                    assert(after[pos as int] == k);
                }
            }
            assert forall|p: int, q: int| 0 <= p < after.len() && 0 <= q < after.len() && p != q implies after[p] != after[q] by {
                if p < q {
                    lemma_id_less_irreflexive(v[after[p] as int]);
                } else {
                    lemma_id_less_irreflexive(v[after[q] as int]);
                }
            }
        }
        k = k + 1;
    }
    order
}


// ---------------------------------------------------------------------------
// The graph fragment of one machine description.
// ---------------------------------------------------------------------------

/// The ids a machine's graph fragment was given.
pub struct LocalMachine {
    pub machine: NodeId,
    pub cpus: Vec<NodeId>,
    pub memory: Vec<NodeId>,
}

/// A lowercase hexadecimal digit.
pub open spec fn hex_digit(d: int) -> char {
    if d < 10 { ('0' as int + d) as char } else { ('a' as int + d - 10) as char }
}

/// How `serde_json` writes one character inside a string: a quote and a
/// backslash are escaped, backspace, tab, line feed, form feed and carriage
/// return get their short escapes, other control characters below 0x20 a
/// `\u00XX` escape, and every other character stands as it is.
pub open spec fn json_char(c: char) -> Seq<char> {
    let n = c as int;
    if c == '"' {
        seq!['\\', '"']
    } else if c == '\\' {
        seq!['\\', '\\']
    } else if n == 8 {
        seq!['\\', 'b']
    } else if n == 9 {
        seq!['\\', 't']
    } else if n == 10 {
        seq!['\\', 'n']
    } else if n == 12 {
        seq!['\\', 'f']
    } else if n == 13 {
        seq!['\\', 'r']
    } else if n < 32 {
        seq!['\\', 'u', '0', '0', hex_digit(n / 16), hex_digit(n % 16)]
    } else {
        seq![c]
    }
}

/// The escaped characters of a string.
pub open spec fn json_chars(s: Seq<char>) -> Seq<char>
    decreases s.len(),
{
    if s.len() == 0 {
        Seq::empty()
    } else {
        json_chars(s.drop_last()) + json_char(s.last())
    }
}

/// A string as `serde_json` writes it: quoted and escaped.
pub open spec fn json_string(s: Seq<char>) -> Seq<char> {
    seq!['"'] + json_chars(s) + seq!['"']
}

/// The strings of a list, each written as a JSON string, separated by commas.
pub open spec fn json_items(items: Seq<Seq<char>>) -> Seq<char>
    decreases items.len(),
{
    if items.len() == 0 {
        Seq::empty()
    } else if items.len() == 1 {
        json_string(items[0])
    } else {
        json_items(items.drop_last()) + seq![','] + json_string(items.last())
    }
}

/// The compact text `serde_json` writes for a list of strings: the items
/// between square brackets, with no whitespace.
pub open spec fn json_list_text(items: Seq<Seq<char>>) -> Seq<char> {
    seq!['['] + json_items(items) + seq![']']
}

/// `serde_json::to_string` on a list of strings: the compact JSON array of
/// the strings, escaped as `json_char` says. Writing strings into memory
/// cannot fail, so the error arm is never taken.
#[verifier::external_body]
pub(crate) fn to_json_list(items: &Vec<String>) -> (text: String)
    ensures
        text@ == json_list_text(views_of(items@)),
{
    serde_json::to_string(items).unwrap_or_default()
}

/// The node id `first + offset`.
pub open spec fn id_at(first: u64, offset: int) -> NodeId {
    NodeId((first + offset) as u64)
}

/// Host nodes between the machine node and the first device: one memory
/// node and one node per CPU in the flat shape, else the host inventory.
pub open spec fn host_span(d: MachineDescription) -> int {
    if d.host_nodes@.len() == 0 {
        d.cpus + 1
    } else {
        d.host_nodes@.len() as int
    }
}

/// Ids the fragment hands out after `first`.
pub open spec fn ids_needed(d: MachineDescription) -> int {
    1 + host_span(d) + d.devices@.len()
}

/// Every parent a host or device names is a host of the inventory, and no
/// two hosts share an id.
pub open spec fn references_resolve(d: MachineDescription) -> bool {
    let ids = host_ids(d.hosts());
    &&& distinct_ids(ids)
    &&& forall|i: int| 0 <= i < d.hosts().len() && (#[trigger] d.hosts()[i]).parent is Some
        ==> ids.contains(d.hosts()[i].parent->0)
    &&& forall|k: int| 0 <= k < d.device_views().len() && (#[trigger] d.device_views()[k]).host_parent is Some
        ==> ids.contains(d.device_views()[k].host_parent->0)
}

proof fn lemma_totals_distinct(hs: Seq<HostView>)
    requires
        host_totals(hs) is Ok,
    ensures
        distinct_ids(host_ids(hs)),
    decreases hs.len(),
{
    if hs.len() > 0 {
        let prev = hs.drop_last();
        lemma_totals_distinct(prev);
        assert(host_ids(prev) =~= host_ids(hs).drop_last());
        assert forall|i: int, j: int| 0 <= i < j < host_ids(hs).len() implies host_ids(hs)[i] != host_ids(hs)[j] by {
            if j == hs.len() - 1 {
                assert(host_ids(prev)[i] == host_ids(hs)[i]);
                assert(host_ids(prev).contains(host_ids(hs)[i]));
            } else {
                assert(host_ids(prev)[i] == host_ids(hs)[i]);
                assert(host_ids(prev)[j] == host_ids(hs)[j]);
            }
        }
    }
}

proof fn lemma_found_host_listed(hs: Seq<HostView>, id: Seq<char>)
    requires
        find_host(hs, id) is Some,
    ensures
        host_ids(hs).contains(id),
    decreases hs.len(),
{
    if hs[0].id == id {
        assert(host_ids(hs)[0] == id);
    } else {
        lemma_found_host_listed(hs.drop_first(), id);
        let k = choose|k: int| 0 <= k < host_ids(hs.drop_first()).len() && host_ids(hs.drop_first())[k] == id;
        assert(host_ids(hs)[k + 1] == id);
    }
}

proof fn lemma_containment_parents_listed(hs: Seq<HostView>, checked: Seq<HostView>, i: int)
    requires
        containment_errors(hs, checked) is Ok,
        0 <= i < checked.len(),
        checked[i].parent is Some,
    ensures
        host_ids(hs).contains(checked[i].parent->0),
    decreases checked.len(),
{
    if i < checked.len() - 1 {
        assert(checked.drop_last()[i] == checked[i]);
        lemma_containment_parents_listed(hs, checked.drop_last(), i);
    } else {
        assert(containment_error(hs, checked.last()) is None);
        lemma_found_host_listed(hs, checked[i].parent->0);
    }
}

proof fn lemma_device_parents_listed(hs: Seq<HostView>, ds: Seq<DeviceView>, k: int)
    requires
        device_errors(hs, ds) is Ok,
        0 <= k < ds.len(),
        ds[k].host_parent is Some,
    ensures
        host_ids(hs).contains(ds[k].host_parent->0),
    decreases ds.len(),
{
    if k < ds.len() - 1 {
        assert(ds.drop_last()[k] == ds[k]);
        lemma_device_parents_listed(hs, ds.drop_last(), k);
    } else {
        lemma_found_host_listed(hs, ds[k].host_parent->0);
    }
}

/// A description that validates can be built: its host ids are distinct
/// and every host and device parent it names is one of its hosts.
pub proof fn lemma_validated_references_resolve(d: MachineDescription)
    requires
        description_error(d) is Ok,
    ensures
        references_resolve(d),
{
    let hs = d.hosts();
    lemma_totals_distinct(hs);
    assert forall|i: int| 0 <= i < hs.len() && (#[trigger] hs[i]).parent is Some implies host_ids(hs).contains(hs[i].parent->0) by {
        lemma_containment_parents_listed(hs, hs, i);
    }
    assert forall|k: int| 0 <= k < d.device_views().len() && (#[trigger] d.device_views()[k]).host_parent is Some
        implies host_ids(hs).contains(d.device_views()[k].host_parent->0) by {
        lemma_device_parents_listed(hs, d.device_views(), k);
    }
}

/// Where the host with id `id` stands in the sorted order.
pub open spec fn host_position(hosts: Seq<HostView>, order: Seq<usize>, id: Seq<char>) -> int {
    choose|q: int| 0 <= q < order.len() && hosts[order[q] as int].id == id
}

/// The node a host or device is attached under.
pub open spec fn parent_id(d: MachineDescription, first: u64, order: Seq<usize>, parent: Option<Seq<char>>) -> NodeId {
    match parent {
        None => id_at(first, 1),
        Some(p) => id_at(first, 2 + host_position(d.hosts(), order, p)),
    }
}

pub open spec fn machine_attrs(d: MachineDescription) -> Map<Seq<char>, Seq<char>> {
    Map::<Seq<char>, Seq<char>>::empty().insert("name"@, d.name@).insert("agent_id"@, d.instance_id@)
}

/// A device node's attributes: the provider's, plus its stable id, path,
/// extra access paths (as a JSON list, when there are any) and host parent.
pub open spec fn device_attrs(dv: DeviceView) -> Map<Seq<char>, Seq<char>> {
    let base = dv.attrs.insert("id"@, dv.id).insert("dev"@, dv.dev);
    let with_access = if dv.access.len() > 0 { base.insert("access"@, json_list_text(dv.access)) } else { base };
    match dv.host_parent {
        Some(p) => with_access.insert("archon.host-parent"@, p),
        None => with_access,
    }
}

pub open spec fn empty_quantity() -> Quantity {
    Quantity { count: None, bytes: None }
}

/// Node `i` of the fragment: the machine, then the host nodes, then one
/// node per device.
pub open spec fn expected_node(d: MachineDescription, first: u64, order: Seq<usize>, i: int) -> NodeView {
    let span = host_span(d);
    if i == 0 {
        NodeView { id: id_at(first, 1), kind: ResourceClass::Machine, attrs: machine_attrs(d), capacity: empty_quantity() }
    } else if i <= span {
        if d.host_nodes@.len() == 0 {
            if i == 1 {
                NodeView {
                    id: id_at(first, 2 + d.cpus),
                    kind: ResourceClass::Memory,
                    attrs: Map::empty(),
                    capacity: spec_qty(CapacityDimension::Bytes, d.memory_bytes),
                }
            } else {
                NodeView { id: id_at(first, i), kind: ResourceClass::Cpu, attrs: Map::empty(), capacity: spec_qty(CapacityDimension::Count, 1) }
            }
        } else {
            let h = d.hosts()[order[i - 1] as int];
            NodeView { id: id_at(first, i + 1), kind: h.kind, attrs: h.attrs.insert("archon.host-id"@, h.id), capacity: h.capacity }
        }
    } else {
        let k = i - 1 - span;
        let dv = d.device_views()[k];
        NodeView { id: id_at(first, 2 + span + k), kind: dv.kind, attrs: device_attrs(dv), capacity: spec_qty(CapacityDimension::Count, 1) }
    }
}

/// Edge `j` of the fragment: one containment edge into every node but the
/// machine, in node order.
pub open spec fn expected_edge(d: MachineDescription, first: u64, order: Seq<usize>, j: int) -> EdgeView {
    let span = host_span(d);
    if j < span {
        if d.host_nodes@.len() == 0 {
            if j == 0 {
                contains_edge_view(id_at(first, 1), id_at(first, 2 + d.cpus))
            } else {
                contains_edge_view(id_at(first, 1), id_at(first, 1 + j))
            }
        } else {
            let h = d.hosts()[order[j] as int];
            contains_edge_view(parent_id(d, first, order, h.parent), id_at(first, 2 + j))
        }
    } else {
        let k = j - span;
        contains_edge_view(parent_id(d, first, order, d.device_views()[k].host_parent), id_at(first, 2 + span + k))
    }
}

pub open spec fn contains_edge_view(from: NodeId, to: NodeId) -> EdgeView {
    crate::model::contains_edge(from, to)
}

/// Ids of the hosts of `kind` among the first `n` in sorted order.
pub open spec fn kind_ids(hosts: Seq<HostView>, order: Seq<usize>, kind: ResourceClass, first: u64, n: int) -> Seq<NodeId>
    decreases n,
{
    if n <= 0 {
        Seq::empty()
    } else {
        let prev = kind_ids(hosts, order, kind, first, n - 1);
        if hosts[order[n - 1] as int].kind == kind {
            prev.push(id_at(first, 2 + (n - 1)))
        } else {
            prev
        }
    }
}

/// The nodes and edges are exactly those of `d`'s fragment, the hosts taken
/// in `order`.
pub open spec fn fragment_of(d: MachineDescription, first: u64, order: Seq<usize>, nodes: Seq<Node>, edges: Seq<Edge>) -> bool {
    &&& nodes.len() == 1 + host_span(d) + d.devices@.len()
    &&& forall|i: int| 0 <= i < nodes.len() ==> (#[trigger] nodes[i]).wf() && nodes[i]@ == expected_node(d, first, order, i)
    &&& edges.len() == host_span(d) + d.devices@.len()
    &&& forall|j: int| 0 <= j < edges.len() ==> (#[trigger] edges[j]).wf() && edges[j]@ == expected_edge(d, first, order, j)
}

/// The CPU and memory ids are those of the fragment.
pub open spec fn local_ids_of(d: MachineDescription, first: u64, order: Seq<usize>, local: LocalMachine) -> bool {
    &&& local.machine == id_at(first, 1)
    &&& if d.host_nodes@.len() == 0 {
        &&& local.cpus@ == Seq::new(d.cpus as nat, |c: int| id_at(first, 2 + c))
        &&& local.memory@ == seq![id_at(first, 2 + d.cpus)]
    } else {
        &&& local.cpus@ == kind_ids(d.hosts(), order, ResourceClass::Cpu, first, d.host_nodes@.len() as int)
        &&& local.memory@ == kind_ids(d.hosts(), order, ResourceClass::Memory, first, d.host_nodes@.len() as int)
    }
}

fn machine_node(d: &MachineDescription, first_id: u64) -> (n: Node)
    requires
        first_id + 1 <= u64::MAX,
    ensures
        n.wf(),
        n@ == expected_node(*d, first_id, Seq::empty(), 0),
{
    let mut name = Attrs::new();
    name.insert(String::from_str("name"), d.name.clone());
    name.insert(String::from_str("agent_id"), d.instance_id.clone());
    Node { id: NodeId(first_id + 1), kind: ResourceClass::Machine, attrs: name, capacity: Quantity::new() }
}

/// The flat shape: one memory node, then one exclusive node per CPU.
fn push_flat_hosts(d: &MachineDescription, first_id: u64, nodes: &mut Vec<Node>, edges: &mut Vec<Edge>) -> (ids: (Vec<NodeId>, Vec<NodeId>))
    requires
        d.host_nodes@.len() == 0,
        first_id + ids_needed(*d) <= u64::MAX,
        old(nodes)@.len() == 1,
        old(nodes)@[0].wf(),
        old(nodes)@[0]@ == expected_node(*d, first_id, Seq::empty(), 0),
        old(edges)@.len() == 0,
    ensures
        final(nodes)@.len() == 1 + host_span(*d),
        forall|i: int| 0 <= i < final(nodes)@.len() ==> (#[trigger] final(nodes)@[i]).wf() && final(nodes)@[i]@ == expected_node(*d, first_id, Seq::empty(), i),
        final(edges)@.len() == host_span(*d),
        forall|j: int| 0 <= j < final(edges)@.len() ==> (#[trigger] final(edges)@[j]).wf() && final(edges)@[j]@ == expected_edge(*d, first_id, Seq::empty(), j),
        ids.0@ == Seq::new(d.cpus as nat, |c: int| id_at(first_id, 2 + c)),
        ids.1@ == seq![id_at(first_id, 2 + d.cpus)],
{
    let ghost order = Seq::<usize>::empty();
    let machine = NodeId(first_id + 1);
    let memory = NodeId(first_id + 2 + d.cpus);
    nodes.push(Node { id: memory, kind: ResourceClass::Memory, attrs: Attrs::new(), capacity: qty(CapacityDimension::Bytes, d.memory_bytes) });
    edges.push(Edge { from: machine, to: memory, kind: EdgeKind::Contains, attrs: Attrs::new() });
    let mut cpus: Vec<NodeId> = Vec::new();
    let mut c: u64 = 0;
    while c < d.cpus
        invariant
            d.host_nodes@.len() == 0,
            first_id + ids_needed(*d) <= u64::MAX,
            c <= d.cpus,
            machine == id_at(first_id, 1),
            nodes@.len() == 2 + c,
            forall|i: int| 0 <= i < nodes@.len() ==> (#[trigger] nodes@[i]).wf() && nodes@[i]@ == expected_node(*d, first_id, order, i),
            edges@.len() == 1 + c,
            forall|j: int| 0 <= j < edges@.len() ==> (#[trigger] edges@[j]).wf() && edges@[j]@ == expected_edge(*d, first_id, order, j),
            cpus@ == Seq::new(c as nat, |x: int| id_at(first_id, 2 + x)),
        decreases d.cpus - c,
    {
        let cpu = NodeId(first_id + 2 + c);
        nodes.push(Node { id: cpu, kind: ResourceClass::Cpu, attrs: Attrs::new(), capacity: qty(CapacityDimension::Count, 1) });
        edges.push(Edge { from: machine, to: cpu, kind: EdgeKind::Contains, attrs: Attrs::new() });
        cpus.push(cpu);
        c = c + 1;
        assert(cpus@ =~= Seq::new(c as nat, |x: int| id_at(first_id, 2 + x)));
    }
    let mut memory_ids: Vec<NodeId> = Vec::new();
    memory_ids.push(memory);
    assert(memory_ids@ =~= seq![id_at(first_id, 2 + d.cpus)]);
    (cpus, memory_ids)
}


/// The host ids, as characters.
fn host_chars(hosts: &Vec<HostNodeSpec>) -> (ids: Vec<Vec<char>>)
    ensures
        char_views(ids@) == host_ids(hosts@.map_values(|h: HostNodeSpec| h.view())),
{
    let ghost want = host_ids(hosts@.map_values(|h: HostNodeSpec| h.view()));
    let mut ids: Vec<Vec<char>> = Vec::new();
    let mut i: usize = 0;
    while i < hosts.len()
        invariant
            want == host_ids(hosts@.map_values(|h: HostNodeSpec| h.view())),
            i <= hosts@.len(),
            char_views(ids@) == want.take(i as int),
        decreases hosts@.len() - i,
    {
        let c = chars_of(hosts[i].id.as_str());
        assert(want[i as int] == hosts@[i as int].view().id);
        assert(c@ == want[i as int]);
        let ghost before = ids@;
        ids.push(c);
        assert(ids@ == before.push(c));
        assert(char_views(ids@) =~= char_views(before).push(c@));
        i = i + 1;
        assert(char_views(ids@) =~= want.take(i as int));
    }
    assert(want.take(i as int) =~= want);
    ids
}

/// The sorted position of the host whose id is `id`.
fn position_of(ids: &Vec<Vec<char>>, order: &Vec<usize>, id: &[char]) -> (p: usize)
    requires
        sorted_order(char_views(ids@), order@),
        forall|i: usize| i < ids@.len() ==> #[trigger] order@.contains(i),
        char_views(ids@).contains(id@),
    ensures
        p < order@.len(),
        char_views(ids@)[order@[p as int] as int] == id@,
{
    let ghost v = char_views(ids@);
    let mut q: usize = 0;
    while q < order.len()
        invariant
            v == char_views(ids@),
            sorted_order(v, order@),
            q <= order@.len(),
            forall|r: int| 0 <= r < q ==> v[order@[r] as int] != id@,
        decreases order@.len() - q,
    {
        if chars_eq(ids[order[q]].as_slice(), id) {
            return q;
        }
        q = q + 1;
    }
    proof {
        let i = choose|i: int| 0 <= i < v.len() && v[i] == id@;
        assert(order@.contains(i as usize));
        let r = choose|r: int| 0 <= r < order@.len() && order@[r] == i as usize;
        assert(v[order@[r] as int] == id@);
    }
    0
}

/// Only one sorted position holds a given id.
proof fn lemma_position_unique(hosts: Seq<HostView>, order: Seq<usize>, id: Seq<char>, p: int)
    requires
        sorted_order(host_ids(hosts), order),
        0 <= p < order.len(),
        hosts[order[p] as int].id == id,
    ensures
        host_position(hosts, order, id) == p,
{
    let ids = host_ids(hosts);
    assert(ids[order[p] as int] == id);
    let q = host_position(hosts, order, id);
    assert(ids[order[q] as int] == id);
    lemma_id_less_irreflexive(id);
}

/// The normalized shape: host nodes by increasing id, each attached under
/// its parent host or the machine.
fn push_host_inventory(
    d: &MachineDescription,
    first_id: u64,
    ids: &Vec<Vec<char>>,
    order: &Vec<usize>,
    nodes: &mut Vec<Node>,
    edges: &mut Vec<Edge>,
) -> (kinds: (Vec<NodeId>, Vec<NodeId>))
    requires
        d.wf(),
        references_resolve(*d),
        d.host_nodes@.len() > 0,
        first_id + ids_needed(*d) <= u64::MAX,
        char_views(ids@) == host_ids(d.hosts()),
        sorted_order(char_views(ids@), order@),
        forall|i: usize| i < ids@.len() ==> #[trigger] order@.contains(i),
        old(nodes)@.len() == 1,
        old(nodes)@[0].wf(),
        old(nodes)@[0]@ == expected_node(*d, first_id, order@, 0),
        old(edges)@.len() == 0,
    ensures
        final(nodes)@.len() == 1 + host_span(*d),
        forall|i: int| 0 <= i < final(nodes)@.len() ==> (#[trigger] final(nodes)@[i]).wf() && final(nodes)@[i]@ == expected_node(*d, first_id, order@, i),
        final(edges)@.len() == host_span(*d),
        forall|j: int| 0 <= j < final(edges)@.len() ==> (#[trigger] final(edges)@[j]).wf() && final(edges)@[j]@ == expected_edge(*d, first_id, order@, j),
        kinds.0@ == kind_ids(d.hosts(), order@, ResourceClass::Cpu, first_id, d.host_nodes@.len() as int),
        kinds.1@ == kind_ids(d.hosts(), order@, ResourceClass::Memory, first_id, d.host_nodes@.len() as int),
{
    let n = d.host_nodes.len();
    let mut cpus: Vec<NodeId> = Vec::new();
    let mut memory: Vec<NodeId> = Vec::new();
    let mut p: usize = 0;
    while p < n
        invariant
            d.wf(),
            n == d.host_nodes@.len(),
            first_id + ids_needed(*d) <= u64::MAX,
            order@.len() == n,
            forall|x: int| 0 <= x < n ==> (order@[x] as int) < n,
            p <= n,
            nodes@.len() == 1 + p,
            forall|i: int| 0 <= i < nodes@.len() ==> (#[trigger] nodes@[i]).wf() && nodes@[i]@ == expected_node(*d, first_id, order@, i),
            cpus@ == kind_ids(d.hosts(), order@, ResourceClass::Cpu, first_id, p as int),
            memory@ == kind_ids(d.hosts(), order@, ResourceClass::Memory, first_id, p as int),
        decreases n - p,
    {
        let h = &d.host_nodes[order[p]];
        assert(h.wf());
        let mut attrs = h.attrs.copied();
        attrs.insert(String::from_str("archon.host-id"), h.id.clone());
        let id = NodeId(first_id + 2 + p as u64);
        nodes.push(Node { id, kind: h.kind, attrs, capacity: h.capacity });
        if h.kind == ResourceClass::Cpu {
            cpus.push(id);
        }
        if h.kind == ResourceClass::Memory {
            memory.push(id);
        }
        p = p + 1;
    }
    let mut p: usize = 0;
    while p < n
        invariant
            d.wf(),
            references_resolve(*d),
            n == d.host_nodes@.len(),
            first_id + ids_needed(*d) <= u64::MAX,
            char_views(ids@) == host_ids(d.hosts()),
            sorted_order(char_views(ids@), order@),
            forall|i: usize| i < ids@.len() ==> #[trigger] order@.contains(i),
            p <= n,
            edges@.len() == p,
            forall|j: int| 0 <= j < edges@.len() ==> (#[trigger] edges@[j]).wf() && edges@[j]@ == expected_edge(*d, first_id, order@, j),
        decreases n - p,
    {
        let h = &d.host_nodes[order[p]];
        let ghost hv = d.hosts()[order@[p as int] as int];
        assert(hv == h.view());
        let parent = match &h.parent {
            None => NodeId(first_id + 1),
            Some(pid) => {
                let pc = chars_of(pid.as_str());
                assert(hv.parent == Some(pid@));
                assert(d.hosts()[order@[p as int] as int].parent is Some);
                let q = position_of(ids, order, pc.as_slice());
                proof {
                    lemma_position_unique(d.hosts(), order@, pid@, q as int);
                }
                NodeId(first_id + 2 + q as u64)
            },
        };
        edges.push(Edge { from: parent, to: NodeId(first_id + 2 + p as u64), kind: EdgeKind::Contains, attrs: Attrs::new() });
        p = p + 1;
    }
    (cpus, memory)
}


/// One node per device, attached under its declared host or the machine.
fn push_devices(
    d: &MachineDescription,
    first_id: u64,
    ids: &Vec<Vec<char>>,
    order: &Vec<usize>,
    nodes: &mut Vec<Node>,
    edges: &mut Vec<Edge>,
)
    requires
        d.wf(),
        references_resolve(*d),
        first_id + ids_needed(*d) <= u64::MAX,
        char_views(ids@) == host_ids(d.hosts()),
        sorted_order(char_views(ids@), order@),
        forall|i: usize| i < ids@.len() ==> #[trigger] order@.contains(i),
        old(nodes)@.len() == 1 + host_span(*d),
        forall|i: int| 0 <= i < old(nodes)@.len() ==> (#[trigger] old(nodes)@[i]).wf() && old(nodes)@[i]@ == expected_node(*d, first_id, order@, i),
        old(edges)@.len() == host_span(*d),
        forall|j: int| 0 <= j < old(edges)@.len() ==> (#[trigger] old(edges)@[j]).wf() && old(edges)@[j]@ == expected_edge(*d, first_id, order@, j),
    ensures
        fragment_of(*d, first_id, order@, final(nodes)@, final(edges)@),
{
    let span: u64 = if d.host_nodes.len() == 0 { d.cpus + 1 } else { d.host_nodes.len() as u64 };
    let mut k: usize = 0;
    while k < d.devices.len()
        invariant
            d.wf(),
            references_resolve(*d),
            span == host_span(*d),
            first_id + ids_needed(*d) <= u64::MAX,
            char_views(ids@) == host_ids(d.hosts()),
            sorted_order(char_views(ids@), order@),
            forall|i: usize| i < ids@.len() ==> #[trigger] order@.contains(i),
            k <= d.devices@.len(),
            nodes@.len() == 1 + span + k,
            forall|i: int| 0 <= i < nodes@.len() ==> (#[trigger] nodes@[i]).wf() && nodes@[i]@ == expected_node(*d, first_id, order@, i),
            edges@.len() == span + k,
            forall|j: int| 0 <= j < edges@.len() ==> (#[trigger] edges@[j]).wf() && edges@[j]@ == expected_edge(*d, first_id, order@, j),
        decreases d.devices@.len() - k,
    {
        let dev = &d.devices[k];
        let ghost dv = d.device_views()[k as int];
        assert(dv == dev.view());
        assert(dev.wf());
        let mut attrs = dev.attrs.copied();
        attrs.insert(String::from_str("id"), dev.id.clone());
        attrs.insert(String::from_str("dev"), dev.dev.clone());
        if dev.access.len() > 0 {
            attrs.insert(String::from_str("access"), to_json_list(&dev.access));
        }
        let parent = match &dev.host_parent {
            None => NodeId(first_id + 1),
            Some(pid) => {
                attrs.insert(String::from_str("archon.host-parent"), pid.clone());
                let pc = chars_of(pid.as_str());
                assert(dv.host_parent == Some(pid@));
                assert(d.device_views()[k as int].host_parent is Some);
                let q = position_of(ids, order, pc.as_slice());
                proof {
                    lemma_position_unique(d.hosts(), order@, pid@, q as int);
                }
                NodeId(first_id + 2 + q as u64)
            },
        };
        let id = NodeId(first_id + 2 + span + k as u64);
        nodes.push(Node { id, kind: dev.kind, attrs, capacity: qty(CapacityDimension::Count, 1) });
        edges.push(Edge { from: parent, to: id, kind: EdgeKind::Contains, attrs: Attrs::new() });
        k = k + 1;
    }
}

/// The graph fragment of a validated machine description, its ids handed
/// out from `first_id + 1`: the machine, then the host nodes, then one node
/// per device. Without a host inventory the hosts are one memory node and
/// one exclusive node per CPU; with one, they are its nodes by increasing
/// id, each under its parent. A device hangs under its declared host, or
/// under the machine.
pub fn build_graph(description: &MachineDescription, first_id: u64) -> (r: (LocalMachine, Vec<Node>, Vec<Edge>))
    requires
        description.wf(),
        references_resolve(*description),
        first_id + ids_needed(*description) <= u64::MAX,
    ensures
        exists|order: Seq<usize>|
            #[trigger] sorted_order(host_ids(description.hosts()), order)
            && fragment_of(*description, first_id, order, r.1@, r.2@)
            && local_ids_of(*description, first_id, order, r.0),
{
    let ids = host_chars(&description.host_nodes);
    let order = sorted_indices(&ids);
    let mut nodes: Vec<Node> = Vec::new();
    nodes.push(machine_node(description, first_id));
    let mut edges: Vec<Edge> = Vec::new();
    let kinds = if description.host_nodes.len() == 0 {
        assert(order@ =~= Seq::<usize>::empty());
        push_flat_hosts(description, first_id, &mut nodes, &mut edges)
    } else {
        push_host_inventory(description, first_id, &ids, &order, &mut nodes, &mut edges)
    };
    push_devices(description, first_id, &ids, &order, &mut nodes, &mut edges);
    let (cpus, memory) = kinds;
    let local = LocalMachine { machine: NodeId(first_id + 1), cpus, memory };
    proof {
        assert(sorted_order(host_ids(description.hosts()), order@));
        assert(local_ids_of(*description, first_id, order@, local));
    }
    (local, nodes, edges)
}


// ---------------------------------------------------------------------------
// Claim contracts and fact ownership.
// ---------------------------------------------------------------------------

/// The provider that binds and fences a claim.
#[derive(Clone, Copy, Debug, PartialEq, Eq, Structural)]
pub enum ProviderId {
    /// This node's own enforcement (cgroups and device filters).
    Enforce,
    /// Another registered provider.
    External(u64),
}

#[derive(Clone, Copy, Debug, PartialEq, Eq, Structural)]
pub struct ClaimBinding {
    pub provider: ProviderId,
    pub scope: BindingScope,
}

/// The claim contract of one node's capacity dimension.
#[derive(Clone, Copy, Debug, PartialEq, Eq, Structural)]
pub struct ClaimBindingUpdate {
    pub node: NodeId,
    pub dimension: CapacityDimension,
    pub binding: Option<ClaimBinding>,
}

/// The dimension and scope this node can bind for a kind of resource;
/// None leaves the kind placement-only.
pub open spec fn claim_contract(kind: ResourceClass) -> Option<(CapacityDimension, BindingScope)> {
    match kind {
        ResourceClass::Cpu => Some((CapacityDimension::Count, BindingScope::Exclusive)),
        ResourceClass::Memory => Some((CapacityDimension::Bytes, BindingScope::IndependentShare)),
        ResourceClass::Gpu | ResourceClass::Nic | ResourceClass::Nvme => Some((CapacityDimension::Count, BindingScope::Exclusive)),
        _ => None,
    }
}

/// The claim contract declared for `n`: only for a kind with a contract and
/// capacity in its dimension.
pub open spec fn claim_update(n: Node) -> Option<ClaimBindingUpdate> {
    match claim_contract(n.kind) {
        Some((dimension, scope)) => if n.capacity.amount(dimension) > 0 {
            Some(ClaimBindingUpdate { node: n.id, dimension, binding: Some(ClaimBinding { provider: ProviderId::Enforce, scope }) })
        } else {
            None
        },
        None => None,
    }
}

pub open spec fn claim_updates(nodes: Seq<Node>) -> Seq<ClaimBindingUpdate>
    decreases nodes.len(),
{
    if nodes.len() == 0 {
        Seq::empty()
    } else {
        let prev = claim_updates(nodes.drop_last());
        match claim_update(nodes.last()) {
            Some(u) => prev.push(u),
            None => prev,
        }
    }
}

/// The claim contract this node's enforcement offers for one node.
pub(crate) fn node_claim(n: &Node) -> (u: Option<ClaimBindingUpdate>)
    ensures
        u == claim_update(*n),
{
    let contract = match n.kind {
        ResourceClass::Cpu => Some((CapacityDimension::Count, BindingScope::Exclusive)),
        ResourceClass::Memory => Some((CapacityDimension::Bytes, BindingScope::IndependentShare)),
        ResourceClass::Gpu | ResourceClass::Nic | ResourceClass::Nvme => Some((CapacityDimension::Count, BindingScope::Exclusive)),
        _ => None,
    };
    if let Some((dimension, scope)) = contract {
        if n.capacity.get(dimension) > 0 {
            return Some(ClaimBindingUpdate {
                node: n.id,
                dimension,
                binding: Some(ClaimBinding { provider: ProviderId::Enforce, scope }),
            });
        }
    }
    None
}

/// The claim contracts this node's enforcement offers for `nodes`, in order:
/// CPUs exclusively by count, memory as independent byte shares, devices
/// exclusively by count, each only where the node has such capacity.
pub fn claim_bindings(nodes: &[Node]) -> (updates: Vec<ClaimBindingUpdate>)
    ensures
        updates@ == claim_updates(nodes@),
{
    let mut updates: Vec<ClaimBindingUpdate> = Vec::new();
    let mut i: usize = 0;
    while i < nodes.len()
        invariant
            i <= nodes@.len(),
            updates@ == claim_updates(nodes@.take(i as int)),
        decreases nodes@.len() - i,
    {
        assert(nodes@.take(i + 1).drop_last() =~= nodes@.take(i as int));
        if let Some(u) = node_claim(&nodes[i]) {
            updates.push(u);
        }
        i = i + 1;
    }
    assert(nodes@.take(i as int) =~= nodes@);
    updates
}

/// Fact writer of the host topology.
pub const HOST_FACT_WRITER: u64 = 1;
/// Fact writer of the device inventory.
pub const DEVICE_FACT_WRITER: u64 = 2;

/// One writer's share of a machine's graph facts.
pub struct ProviderFactBatch {
    pub writer: u64,
    pub nodes: Vec<Node>,
    pub edges: Vec<Edge>,
}

pub open spec fn kind_writer(kind: ResourceClass) -> u64 {
    if kind.is_device_class() { DEVICE_FACT_WRITER } else { HOST_FACT_WRITER }
}

/// The writer owning node id `id`: that of the last node carrying the id,
/// the host writer when none does.
pub open spec fn writer_for(nodes: Seq<Node>, id: NodeId) -> u64
    decreases nodes.len(),
{
    if nodes.len() == 0 {
        HOST_FACT_WRITER
    } else if nodes.last().id == id {
        kind_writer(nodes.last().kind)
    } else {
        writer_for(nodes.drop_last(), id)
    }
}

/// The nodes of `rest` whose id `writer` owns, in order.
pub open spec fn nodes_of_writer(all: Seq<Node>, rest: Seq<Node>, writer: u64) -> Seq<Node>
    decreases rest.len(),
{
    if rest.len() == 0 {
        Seq::empty()
    } else {
        let prev = nodes_of_writer(all, rest.drop_last(), writer);
        if writer_for(all, rest.last().id) == writer { prev.push(rest.last()) } else { prev }
    }
}

/// The edges of `rest` whose target `writer` owns, in order.
pub open spec fn edges_of_writer(all: Seq<Node>, rest: Seq<Edge>, writer: u64) -> Seq<Edge>
    decreases rest.len(),
{
    if rest.len() == 0 {
        Seq::empty()
    } else {
        let prev = edges_of_writer(all, rest.drop_last(), writer);
        if writer_for(all, rest.last().to) == writer { prev.push(rest.last()) } else { prev }
    }
}

/// The batches: the host writer's, then the device writer's, each only when
/// it holds a node or an edge.
pub open spec fn fact_batches(nodes: Seq<Node>, edges: Seq<Edge>) -> Seq<(u64, Seq<Node>, Seq<Edge>)> {
    let host = (HOST_FACT_WRITER, nodes_of_writer(nodes, nodes, HOST_FACT_WRITER), edges_of_writer(nodes, edges, HOST_FACT_WRITER));
    let device = (DEVICE_FACT_WRITER, nodes_of_writer(nodes, nodes, DEVICE_FACT_WRITER), edges_of_writer(nodes, edges, DEVICE_FACT_WRITER));
    let first = if host.1.len() > 0 || host.2.len() > 0 { seq![host] } else { Seq::empty() };
    if device.1.len() > 0 || device.2.len() > 0 { first.push(device) } else { first }
}

pub open spec fn batch_view(b: ProviderFactBatch) -> (u64, Seq<Node>, Seq<Edge>) {
    (b.writer, b.nodes@, b.edges@)
}

proof fn lemma_writer_values(nodes: Seq<Node>, id: NodeId)
    ensures
        writer_for(nodes, id) == HOST_FACT_WRITER || writer_for(nodes, id) == DEVICE_FACT_WRITER,
    decreases nodes.len(),
{
    if nodes.len() > 0 {
        lemma_writer_values(nodes.drop_last(), id);
    }
}

fn writer_of(nodes: &Vec<Node>, id: NodeId) -> (w: u64)
    ensures
        w == writer_for(nodes@, id),
{
    let mut i: usize = nodes.len();
    assert(nodes@.take(i as int) =~= nodes@);
    while i > 0
        invariant
            i <= nodes@.len(),
            writer_for(nodes@, id) == writer_for(nodes@.take(i as int), id),
        decreases i,
    {
        assert(nodes@.take(i as int).drop_last() =~= nodes@.take(i - 1));
        if nodes[i - 1].id == id {
            return if nodes[i - 1].kind.is_device() { DEVICE_FACT_WRITER } else { HOST_FACT_WRITER };
        }
        i = i - 1;
    }
    HOST_FACT_WRITER
}

/// Split one machine's graph between its two fact writers: device nodes
/// (GPU, NIC, NVMe) and the edges into them go to the device writer, the
/// rest to the host writer; order is kept and empty batches are dropped.
pub fn provider_fact_batches(nodes: Vec<Node>, edges: Vec<Edge>) -> (batches: Vec<ProviderFactBatch>)
    ensures
        batches@.map_values(|b: ProviderFactBatch| batch_view(b)) == fact_batches(nodes@, edges@),
{
    let ghost all = nodes@;
    let ghost all_edges = edges@;
    let mut edge_writers: Vec<u64> = Vec::new();
    let mut j: usize = 0;
    while j < edges.len()
        invariant
            j <= edges@.len(),
            edge_writers@.len() == j,
            forall|x: int| 0 <= x < j ==> edge_writers@[x] == writer_for(nodes@, #[trigger] edges@[x].to),
        decreases edges@.len() - j,
    {
        edge_writers.push(writer_of(&nodes, edges[j].to));
        j = j + 1;
    }
    let mut node_writers: Vec<u64> = Vec::new();
    let mut i: usize = 0;
    while i < nodes.len()
        invariant
            i <= nodes@.len(),
            node_writers@.len() == i,
            forall|x: int| 0 <= x < i ==> node_writers@[x] == writer_for(nodes@, #[trigger] nodes@[x].id),
        decreases nodes@.len() - i,
    {
        node_writers.push(writer_of(&nodes, nodes[i].id));
        i = i + 1;
    }
    let mut host = ProviderFactBatch { writer: HOST_FACT_WRITER, nodes: Vec::new(), edges: Vec::new() };
    let mut device = ProviderFactBatch { writer: DEVICE_FACT_WRITER, nodes: Vec::new(), edges: Vec::new() };
    let mut nodes = nodes;
    let node_count = nodes.len();
    let mut k: usize = 0;
    while nodes.len() > 0
        invariant
            all.len() == node_count,
            k <= all.len(),
            nodes@ == all.skip(k as int),
            node_writers@.len() == all.len(),
            forall|x: int| 0 <= x < all.len() ==> node_writers@[x] == writer_for(all, #[trigger] all[x].id),
            host.writer == HOST_FACT_WRITER,
            device.writer == DEVICE_FACT_WRITER,
            host.nodes@ == nodes_of_writer(all, all.take(k as int), HOST_FACT_WRITER),
            device.nodes@ == nodes_of_writer(all, all.take(k as int), DEVICE_FACT_WRITER),
            host.edges@.len() == 0,
            device.edges@.len() == 0,
        decreases nodes@.len(),
    {
        let n = nodes.remove(0);
        assert(all[k as int] == n);
        proof {
            lemma_writer_values(all, n.id);
        }
        assert(all.take(k + 1).drop_last() =~= all.take(k as int));
        assert(nodes@ =~= all.skip(k + 1));
        if node_writers[k] == DEVICE_FACT_WRITER {
            device.nodes.push(n);
        } else {
            host.nodes.push(n);
        }
        k = k + 1;
    }
    assert(all.take(k as int) =~= all);
    let mut edges = edges;
    let edge_count = edges.len();
    let mut k: usize = 0;
    while edges.len() > 0
        invariant
            all_edges.len() == edge_count,
            k <= all_edges.len(),
            edges@ == all_edges.skip(k as int),
            edge_writers@.len() == all_edges.len(),
            forall|x: int| 0 <= x < all_edges.len() ==> edge_writers@[x] == writer_for(all, #[trigger] all_edges[x].to),
            host.writer == HOST_FACT_WRITER,
            device.writer == DEVICE_FACT_WRITER,
            host.nodes@ == nodes_of_writer(all, all, HOST_FACT_WRITER),
            device.nodes@ == nodes_of_writer(all, all, DEVICE_FACT_WRITER),
            host.edges@ == edges_of_writer(all, all_edges.take(k as int), HOST_FACT_WRITER),
            device.edges@ == edges_of_writer(all, all_edges.take(k as int), DEVICE_FACT_WRITER),
        decreases edges@.len(),
    {
        let e = edges.remove(0);
        assert(all_edges[k as int] == e);
        proof {
            lemma_writer_values(all, e.to);
        }
        assert(all_edges.take(k + 1).drop_last() =~= all_edges.take(k as int));
        assert(edges@ =~= all_edges.skip(k + 1));
        if edge_writers[k] == DEVICE_FACT_WRITER {
            device.edges.push(e);
        } else {
            host.edges.push(e);
        }
        k = k + 1;
    }
    assert(all_edges.take(k as int) =~= all_edges);
    let mut batches: Vec<ProviderFactBatch> = Vec::new();
    let ghost want = fact_batches(all, all_edges);
    if host.nodes.len() > 0 || host.edges.len() > 0 {
        batches.push(host);
    }
    if device.nodes.len() > 0 || device.edges.len() > 0 {
        batches.push(device);
    }
    assert(batches@.map_values(|b: ProviderFactBatch| batch_view(b)) =~= want);
    batches
}

/// Every node of a fragment gets its own id, between `first + 1` and
/// `first` plus the number of ids the description needs.
pub proof fn lemma_fragment_ids_distinct(d: MachineDescription, first: u64, order: Seq<usize>, i: int, j: int)
    requires
        first + ids_needed(d) <= u64::MAX,
        0 <= i < 1 + host_span(d) + d.devices@.len(),
        0 <= j < 1 + host_span(d) + d.devices@.len(),
        i != j,
    ensures
        expected_node(d, first, order, i).id != expected_node(d, first, order, j).id,
        first < expected_node(d, first, order, i).id.0 <= first + ids_needed(d),
{
    let span = host_span(d);
    let off_i: int = if i == 0 { 1 } else if d.host_nodes@.len() == 0 {
        if i == 1 { 2 + d.cpus } else if i <= span { i } else { i + 1 }
    } else {
        i + 1
    };
    let off_j: int = if j == 0 { 1 } else if d.host_nodes@.len() == 0 {
        if j == 1 { 2 + d.cpus } else if j <= span { j } else { j + 1 }
    } else {
        j + 1
    };
    assert(expected_node(d, first, order, i).id == id_at(first, off_i));
    assert(expected_node(d, first, order, j).id == id_at(first, off_j));
    assert(off_i != off_j);
    assert(1 <= off_i <= ids_needed(d));
    assert(1 <= off_j <= ids_needed(d));
}

proof fn lemma_writer_split_nodes(all: Seq<Node>, rest: Seq<Node>)
    ensures
        nodes_of_writer(all, rest, HOST_FACT_WRITER).len() + nodes_of_writer(all, rest, DEVICE_FACT_WRITER).len() == rest.len(),
    decreases rest.len(),
{
    if rest.len() > 0 {
        lemma_writer_split_nodes(all, rest.drop_last());
        lemma_writer_values(all, rest.last().id);
    }
}

proof fn lemma_writer_split_edges(all: Seq<Node>, rest: Seq<Edge>)
    ensures
        edges_of_writer(all, rest, HOST_FACT_WRITER).len() + edges_of_writer(all, rest, DEVICE_FACT_WRITER).len() == rest.len(),
    decreases rest.len(),
{
    if rest.len() > 0 {
        lemma_writer_split_edges(all, rest.drop_last());
        lemma_writer_values(all, rest.last().to);
    }
}

/// Splitting a machine's facts between the two writers loses and repeats
/// nothing: the batches hold as many nodes and edges as were given.
pub proof fn lemma_fact_batches_partition(nodes: Seq<Node>, edges: Seq<Edge>)
    ensures
        nodes_of_writer(nodes, nodes, HOST_FACT_WRITER).len() + nodes_of_writer(nodes, nodes, DEVICE_FACT_WRITER).len() == nodes.len(),
        edges_of_writer(nodes, edges, HOST_FACT_WRITER).len() + edges_of_writer(nodes, edges, DEVICE_FACT_WRITER).len() == edges.len(),
{
    lemma_writer_split_nodes(nodes, nodes);
    lemma_writer_split_edges(nodes, edges);
}

} // verus!
