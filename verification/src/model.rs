//! The resource-graph vocabulary the node logic reads: resource classes,
//! capacity quantities, attribute maps and node identities, held as plain
//! values.
use vstd::prelude::*;

use crate::text::{chars_eq, chars_of};

verus! {

/// Identity of one resource-graph node.
#[derive(Clone, Copy, Debug, PartialEq, Eq, PartialOrd, Ord, Hash, Structural)]
pub struct NodeId(pub u64);

/// What a resource-graph node is.
#[derive(Clone, Copy, Debug, PartialEq, Eq, PartialOrd, Ord, Hash, Structural)]
pub enum ResourceClass {
    Machine,
    Socket,
    Numa,
    PcieRoot,
    Cpu,
    Memory,
    Gpu,
    Nic,
    Nvme,
}

impl ResourceClass {
    /// Devices a provider discovers and enforces as whole units.
    pub open spec fn is_device_class(self) -> bool {
        self == ResourceClass::Gpu || self == ResourceClass::Nic || self == ResourceClass::Nvme
    }

    pub fn is_device(&self) -> (r: bool)
        ensures
            r == self.is_device_class(),
    {
        matches!(self, ResourceClass::Gpu | ResourceClass::Nic | ResourceClass::Nvme)
    }

    /// The variant's name, as `{:?}` prints it.
    pub open spec fn debug_name(self) -> Seq<char> {
        match self {
            ResourceClass::Machine => "Machine"@,
            ResourceClass::Socket => "Socket"@,
            ResourceClass::Numa => "Numa"@,
            ResourceClass::PcieRoot => "PcieRoot"@,
            ResourceClass::Cpu => "Cpu"@,
            ResourceClass::Memory => "Memory"@,
            ResourceClass::Gpu => "Gpu"@,
            ResourceClass::Nic => "Nic"@,
            ResourceClass::Nvme => "Nvme"@,
        }
    }

    /// The class's name as written in inventories and messages.
    pub open spec fn display_name(self) -> Seq<char> {
        match self {
            ResourceClass::Machine => "machine"@,
            ResourceClass::Socket => "socket"@,
            ResourceClass::Numa => "numa"@,
            ResourceClass::PcieRoot => "pcie-root"@,
            ResourceClass::Cpu => "cpu"@,
            ResourceClass::Memory => "memory"@,
            ResourceClass::Gpu => "gpu"@,
            ResourceClass::Nic => "nic"@,
            ResourceClass::Nvme => "nvme"@,
        }
    }

    pub fn debug_string(&self) -> (s: String)
        ensures
            s@ == self.debug_name(),
    {
        match self {
            ResourceClass::Machine => String::from_str("Machine"),
            ResourceClass::Socket => String::from_str("Socket"),
            ResourceClass::Numa => String::from_str("Numa"),
            ResourceClass::PcieRoot => String::from_str("PcieRoot"),
            ResourceClass::Cpu => String::from_str("Cpu"),
            ResourceClass::Memory => String::from_str("Memory"),
            ResourceClass::Gpu => String::from_str("Gpu"),
            ResourceClass::Nic => String::from_str("Nic"),
            ResourceClass::Nvme => String::from_str("Nvme"),
        }
    }

    pub fn display_string(&self) -> (s: String)
        ensures
            s@ == self.display_name(),
    {
        match self {
            ResourceClass::Machine => String::from_str("machine"),
            ResourceClass::Socket => String::from_str("socket"),
            ResourceClass::Numa => String::from_str("numa"),
            ResourceClass::PcieRoot => String::from_str("pcie-root"),
            ResourceClass::Cpu => String::from_str("cpu"),
            ResourceClass::Memory => String::from_str("memory"),
            ResourceClass::Gpu => String::from_str("gpu"),
            ResourceClass::Nic => String::from_str("nic"),
            ResourceClass::Nvme => String::from_str("nvme"),
        }
    }
}

/// A capacity dimension.
#[derive(Clone, Copy, Debug, PartialEq, Eq, PartialOrd, Ord, Hash, Structural)]
pub enum CapacityDimension {
    Count,
    Bytes,
}

/// Advertised or claimed capacity per dimension; an absent dimension holds none.
#[derive(Clone, Copy, Debug, PartialEq, Eq, Structural)]
pub struct Quantity {
    pub count: Option<u64>,
    pub bytes: Option<u64>,
}

impl Quantity {
    /// The empty quantity.
    pub fn new() -> (q: Quantity)
        ensures
            q == (Quantity { count: None, bytes: None }),
    {
        Quantity { count: None, bytes: None }
    }

    pub open spec fn empty(self) -> bool {
        self.count is None && self.bytes is None
    }

    pub fn is_empty(&self) -> (r: bool)
        ensures
            r == self.empty(),
    {
        self.count.is_none() && self.bytes.is_none()
    }

    /// The amount in one dimension; zero when absent.
    pub open spec fn amount(self, dimension: CapacityDimension) -> u64 {
        let value = match dimension {
            CapacityDimension::Count => self.count,
            CapacityDimension::Bytes => self.bytes,
        };
        match value {
            Some(v) => v,
            None => 0,
        }
    }

    pub fn get(&self, dimension: CapacityDimension) -> (v: u64)
        ensures
            v == self.amount(dimension),
    {
        let value = match dimension {
            CapacityDimension::Count => self.count,
            CapacityDimension::Bytes => self.bytes,
        };
        match value {
            Some(v) => v,
            None => 0,
        }
    }
}

pub open spec fn spec_qty(dimension: CapacityDimension, amount: u64) -> Quantity {
    match dimension {
        CapacityDimension::Count => Quantity { count: Some(amount), bytes: None },
        CapacityDimension::Bytes => Quantity { count: None, bytes: Some(amount) },
    }
}

/// A quantity holding `amount` of one dimension.
pub fn qty(dimension: CapacityDimension, amount: u64) -> (q: Quantity)
    ensures
        q == spec_qty(dimension, amount),
{
    match dimension {
        CapacityDimension::Count => Quantity { count: Some(amount), bytes: None },
        CapacityDimension::Bytes => Quantity { count: None, bytes: Some(amount) },
    }
}

/// Kinds of graph edges the node logic creates.
#[derive(Clone, Copy, Debug, PartialEq, Eq, PartialOrd, Ord, Hash, Structural)]
pub enum EdgeKind {
    /// The `from` node physically contains the `to` node.
    Contains,
}

/// One resource-graph node.
#[derive(Clone, Debug)]
pub struct Node {
    pub id: NodeId,
    pub kind: ResourceClass,
    pub attrs: Attrs,
    pub capacity: Quantity,
}

/// One resource-graph edge.
#[derive(Clone, Debug)]
pub struct Edge {
    pub from: NodeId,
    pub to: NodeId,
    pub kind: EdgeKind,
    pub attrs: Attrs,
}

pub struct NodeView {
    pub id: NodeId,
    pub kind: ResourceClass,
    pub attrs: Map<Seq<char>, Seq<char>>,
    pub capacity: Quantity,
}

pub struct EdgeView {
    pub from: NodeId,
    pub to: NodeId,
    pub kind: EdgeKind,
    pub attrs: Map<Seq<char>, Seq<char>>,
}

impl Node {
    pub open spec fn view(self) -> NodeView {
        NodeView { id: self.id, kind: self.kind, attrs: self.attrs.view(), capacity: self.capacity }
    }

    pub open spec fn wf(self) -> bool {
        self.attrs.wf()
    }
}

impl Edge {
    pub open spec fn view(self) -> EdgeView {
        EdgeView { from: self.from, to: self.to, kind: self.kind, attrs: self.attrs.view() }
    }

    pub open spec fn wf(self) -> bool {
        self.attrs.wf()
    }
}

/// A `Contains` edge with no attributes.
pub open spec fn contains_edge(from: NodeId, to: NodeId) -> EdgeView {
    EdgeView { from, to, kind: EdgeKind::Contains, attrs: Map::empty() }
}

pub fn new_contains_edge(from: NodeId, to: NodeId) -> (e: Edge)
    ensures
        e.wf(),
        e.view() == contains_edge(from, to),
{
    Edge { from, to, kind: EdgeKind::Contains, attrs: Attrs::new() }
}

/// A node's string attributes: at most one value per key.
#[derive(Clone, Debug)]
pub struct Attrs {
    entries: Vec<(String, String)>,
}

/// The key/value pairs of `entries` as character sequences.
pub open spec fn entry_view(entries: Seq<(String, String)>) -> Seq<(Seq<char>, Seq<char>)> {
    entries.map_values(|e: (String, String)| (e.0@, e.1@))
}

/// The map a list of distinct-keyed pairs denotes.
pub open spec fn map_of(entries: Seq<(Seq<char>, Seq<char>)>) -> Map<Seq<char>, Seq<char>>
    decreases entries.len(),
{
    if entries.len() == 0 {
        Map::empty()
    } else {
        map_of(entries.drop_last()).insert(entries.last().0, entries.last().1)
    }
}

pub open spec fn keys_unique(entries: Seq<(Seq<char>, Seq<char>)>) -> bool {
    forall|i: int, j: int| 0 <= i < j < entries.len() ==> (#[trigger] entries[i]).0 != (#[trigger] entries[j]).0
}

proof fn lemma_map_of(entries: Seq<(Seq<char>, Seq<char>)>)
    requires
        keys_unique(entries),
    ensures
        forall|k: Seq<char>| #[trigger] map_of(entries).contains_key(k) <==> exists|i: int| 0 <= i < entries.len() && entries[i].0 == k,
        forall|i: int| 0 <= i < entries.len() ==> map_of(entries)[#[trigger] entries[i].0] == entries[i].1,
        map_of(entries).dom().finite(),
        map_of(entries).dom().len() == entries.len(),
    decreases entries.len(),
{
    if entries.len() > 0 {
        let prev = entries.drop_last();
        assert(keys_unique(prev));
        lemma_map_of(prev);
        let last = entries.last();
        assert(!map_of(prev).contains_key(last.0));
        assert forall|k: Seq<char>| #[trigger] map_of(entries).contains_key(k) <==> exists|i: int| 0 <= i < entries.len() && entries[i].0 == k by {
            if map_of(entries).contains_key(k) && k != last.0 {
                let i = choose|i: int| 0 <= i < prev.len() && prev[i].0 == k;
                assert(entries[i] == prev[i]);
            }
            if exists|i: int| 0 <= i < entries.len() && entries[i].0 == k {
                let i = choose|i: int| 0 <= i < entries.len() && entries[i].0 == k;
                if i < entries.len() - 1 {
                    assert(prev[i] == entries[i]);
                }
            }
        }
        assert forall|i: int| 0 <= i < entries.len() implies map_of(entries)[#[trigger] entries[i].0] == entries[i].1 by {
            if i < entries.len() - 1 {
                assert(prev[i] == entries[i]);
            }
        }
    }
}

proof fn lemma_map_of_update(before: Seq<(Seq<char>, Seq<char>)>, i: int, e: (Seq<char>, Seq<char>))
    requires
        keys_unique(before),
        0 <= i < before.len(),
        before[i].0 == e.0,
    ensures
        keys_unique(before.update(i, e)),
        map_of(before.update(i, e)) == map_of(before).insert(e.0, e.1),
{
    let after = before.update(i, e);
    assert forall|a: int, b: int| 0 <= a < b < after.len() implies (#[trigger] after[a]).0 != (#[trigger] after[b]).0 by {
        assert(after[a].0 == before[a].0);
        assert(after[b].0 == before[b].0);
    }
    lemma_map_of(before);
    lemma_map_of(after);
    let target = map_of(before).insert(e.0, e.1);
    assert forall|x: Seq<char>| #[trigger] map_of(after).contains_key(x) == target.contains_key(x) by {
        if map_of(after).contains_key(x) {
            let j = choose|j: int| 0 <= j < after.len() && after[j].0 == x;
            if j != i {
                assert(before[j].0 == x);
                assert(map_of(before).contains_key(before[j].0));
            }
        }
        if target.contains_key(x) {
            if x == e.0 {
                assert(after[i].0 == x);
                assert(map_of(after).contains_key(after[i].0));
            } else {
                assert(map_of(before).contains_key(x));
                let j = choose|j: int| 0 <= j < before.len() && before[j].0 == x;
                assert(after[j].0 == x);
                assert(map_of(after).contains_key(after[j].0));
            }
        }
    }
    assert forall|x: Seq<char>| #[trigger] map_of(after).contains_key(x) implies map_of(after)[x] == target[x] by {
        let j = choose|j: int| 0 <= j < after.len() && after[j].0 == x;
        assert(map_of(after)[after[j].0] == after[j].1);
        if j != i {
            assert(before[j] == after[j]);
            assert(map_of(before)[before[j].0] == before[j].1);
        }
    }
    assert(map_of(after) =~= target);
}

proof fn lemma_map_of_remove(before: Seq<(Seq<char>, Seq<char>)>, i: int)
    requires
        keys_unique(before),
        0 <= i < before.len(),
    ensures
        keys_unique(before.remove(i)),
        map_of(before.remove(i)) == map_of(before).remove(before[i].0),
{
    let after = before.remove(i);
    let key = before[i].0;
    assert forall|a: int, b: int| 0 <= a < b < after.len() implies (#[trigger] after[a]).0 != (#[trigger] after[b]).0 by {
        let a2 = if a < i { a } else { a + 1 };
        let b2 = if b < i { b } else { b + 1 };
        assert(after[a] == before[a2]);
        assert(after[b] == before[b2]);
    }
    lemma_map_of(before);
    lemma_map_of(after);
    let target = map_of(before).remove(key);
    assert forall|x: Seq<char>| #[trigger] map_of(after).contains_key(x) == target.contains_key(x) by {
        if map_of(after).contains_key(x) {
            let j = choose|j: int| 0 <= j < after.len() && after[j].0 == x;
            let j2 = if j < i { j } else { j + 1 };
            assert(after[j] == before[j2]);
            assert(j2 != i);
            assert(map_of(before).contains_key(before[j2].0));
        }
        if target.contains_key(x) {
            assert(map_of(before).contains_key(x));
            let j = choose|j: int| 0 <= j < before.len() && before[j].0 == x;
            assert(j != i);
            let j2 = if j < i { j } else { j - 1 };
            assert(after[j2] == before[j]);
            assert(map_of(after).contains_key(after[j2].0));
        }
    }
    assert forall|x: Seq<char>| #[trigger] map_of(after).contains_key(x) implies map_of(after)[x] == target[x] by {
        let j = choose|j: int| 0 <= j < after.len() && after[j].0 == x;
        let j2 = if j < i { j } else { j + 1 };
        assert(after[j] == before[j2]);
        assert(map_of(after)[after[j].0] == after[j].1);
        assert(map_of(before)[before[j2].0] == before[j2].1);
    }
    assert(map_of(after) =~= target);
}

impl Attrs {
    pub closed spec fn wf(self) -> bool {
        keys_unique(entry_view(self.entries@))
    }

    /// The attributes as a map.
    pub closed spec fn view(self) -> Map<Seq<char>, Seq<char>> {
        map_of(entry_view(self.entries@))
    }

    pub fn new() -> (a: Attrs)
        ensures
            a.wf(),
            a.view() == Map::<Seq<char>, Seq<char>>::empty(),
    {
        Attrs { entries: Vec::new() }
    }

    /// An independent copy holding the same attributes.
    pub fn copied(&self) -> (a: Attrs)
        requires
            self.wf(),
        ensures
            a.wf(),
            a.view() == self.view(),
    {
        let mut entries: Vec<(String, String)> = Vec::new();
        let mut i: usize = 0;
        while i < self.entries.len()
            invariant
                i <= self.entries@.len(),
                entry_view(entries@) == entry_view(self.entries@).take(i as int),
            decreases self.entries@.len() - i,
        {
            let k = self.entries[i].0.clone();
            let v = self.entries[i].1.clone();
            let ghost before = entries@;
            entries.push((k, v));
            assert(entry_view(entries@) =~= entry_view(before).push((k@, v@)));
            assert(entry_view(self.entries@)[i as int] == (k@, v@));
            i = i + 1;
            assert(entry_view(entries@) =~= entry_view(self.entries@).take(i as int));
        }
        assert(entry_view(self.entries@).take(i as int) =~= entry_view(self.entries@));
        Attrs { entries }
    }

    /// The key/value pairs, each key once.
    pub fn entries(&self) -> (pairs: Vec<(String, String)>)
        requires
            self.wf(),
        ensures
            keys_unique(entry_view(pairs@)),
            map_of(entry_view(pairs@)) == self.view(),
    {
        let c = self.copied();
        c.entries
    }

    /// Whether both hold the same attributes.
    pub fn same_as(&self, other: &Attrs) -> (r: bool)
        requires
            self.wf(),
            other.wf(),
        ensures
            r == (self.view() == other.view()),
    {
        proof {
            lemma_map_of(entry_view(self.entries@));
            lemma_map_of(entry_view(other.entries@));
        }
        if self.entries.len() != other.entries.len() {
            return false;
        }
        let mut i: usize = 0;
        while i < self.entries.len()
            invariant
                self.wf(),
                other.wf(),
                i <= self.entries@.len(),
                forall|j: int| 0 <= j < i ==> other.view().contains_key(#[trigger] entry_view(self.entries@)[j].0)
                    && other.view()[entry_view(self.entries@)[j].0] == entry_view(self.entries@)[j].1,
            decreases self.entries@.len() - i,
        {
            proof {
                lemma_map_of(entry_view(self.entries@));
            }
            let ghost ev = entry_view(self.entries@);
            assert(ev[i as int] == (self.entries@[i as int].0@, self.entries@[i as int].1@));
            match other.get(self.entries[i].0.as_str()) {
                Some(v) => {
                    if !crate::text::str_eq(v.as_str(), self.entries[i].1.as_str()) {
                        assert(self.view()[ev[i as int].0] == ev[i as int].1);
                        return false;
                    }
                },
                None => {
                    assert(self.view().contains_key(ev[i as int].0));
                    return false;
                },
            }
            i = i + 1;
        }
        proof {
            let ev = entry_view(self.entries@);
            let a = self.view();
            let b = other.view();
            assert forall|k: Seq<char>| a.contains_key(k) implies b.contains_key(k) && b[k] == a[k] by {
                let j = choose|j: int| 0 <= j < ev.len() && ev[j].0 == k;
                assert(b.contains_key(ev[j].0));
            }
            vstd::set_lib::lemma_subset_equality(a.dom(), b.dom());
            assert(a =~= b);
        }
        true
    }

    fn position(&self, key: &[char]) -> (r: Option<usize>)
        requires
            self.wf(),
        ensures
            match r {
                Some(i) => i < self.entries@.len() && self.entries@[i as int].0@ == key@,
                None => !self.view().contains_key(key@),
            },
    {
        proof {
            lemma_map_of(entry_view(self.entries@));
        }
        let mut i: usize = 0;
        while i < self.entries.len()
            invariant
                i <= self.entries@.len(),
                forall|j: int| 0 <= j < i ==> self.entries@[j].0@ != key@,
            decreases self.entries@.len() - i,
        {
            let k = chars_of(self.entries[i].0.as_str());
            if chars_eq(k.as_slice(), key) {
                return Some(i);
            }
            i = i + 1;
        }
        proof {
            let ev = entry_view(self.entries@);
            if self.view().contains_key(key@) {
                let j = choose|j: int| 0 <= j < ev.len() && ev[j].0 == key@;
                assert(ev[j].0 == self.entries@[j].0@);
            }
        }
        None
    }

    /// The value under `key`.
    pub fn get(&self, key: &str) -> (v: Option<String>)
        requires
            self.wf(),
        ensures
            match v {
                Some(s) => self.view().contains_key(key@) && self.view()[key@] == s@,
                None => !self.view().contains_key(key@),
            },
    {
        let k = chars_of(key);
        match self.position(k.as_slice()) {
            Some(i) => {
                proof {
                    lemma_map_of(entry_view(self.entries@));
                    assert(entry_view(self.entries@)[i as int].0 == key@);
                }
                Some(self.entries[i].1.clone())
            },
            None => None,
        }
    }

    pub fn contains_key(&self, key: &str) -> (r: bool)
        requires
            self.wf(),
        ensures
            r == self.view().contains_key(key@),
    {
        let k = chars_of(key);
        match self.position(k.as_slice()) {
            Some(i) => {
                proof {
                    lemma_map_of(entry_view(self.entries@));
                    assert(entry_view(self.entries@)[i as int].0 == key@);
                }
                true
            },
            None => false,
        }
    }

    /// Set `key` to `value`, replacing any previous value.
    pub fn insert(&mut self, key: String, value: String)
        requires
            old(self).wf(),
        ensures
            final(self).wf(),
            final(self).view() == old(self).view().insert(key@, value@),
    {
        let k = chars_of(key.as_str());
        let ghost before = entry_view(self.entries@);
        proof {
            lemma_map_of(before);
        }
        match self.position(k.as_slice()) {
            Some(i) => {
                self.entries.set(i, (key, value));
                proof {
                    let after = entry_view(self.entries@);
                    assert(after =~= before.update(i as int, (k@, value@)));
                    lemma_map_of_update(before, i as int, (k@, value@));
                }
            },
            None => {
                self.entries.push((key, value));
                proof {
                    let after = entry_view(self.entries@);
                    assert(after =~= before.push((k@, value@)));
                    assert(after.drop_last() =~= before);
                    assert forall|a: int, b: int| 0 <= a < b < after.len() implies (#[trigger] after[a]).0 != (#[trigger] after[b]).0 by {
                        if b == after.len() - 1 {
                            assert(before[a] == after[a]);
                        } else {
                            assert(before[a] == after[a] && before[b] == after[b]);
                        }
                    }
                }
            },
        }
    }

    /// Drop `key` and its value.
    pub fn remove(&mut self, key: &str)
        requires
            old(self).wf(),
        ensures
            final(self).wf(),
            final(self).view() == old(self).view().remove(key@),
    {
        let k = chars_of(key);
        let ghost before = entry_view(self.entries@);
        proof {
            lemma_map_of(before);
        }
        match self.position(k.as_slice()) {
            Some(i) => {
                self.entries.remove(i);
                proof {
                    let after = entry_view(self.entries@);
                    assert(after =~= before.remove(i as int));
                    lemma_map_of_remove(before, i as int);
                }
            },
            None => {
                assert(map_of(before) =~= map_of(before).remove(key@));
            },
        }
    }
}

} // verus!
