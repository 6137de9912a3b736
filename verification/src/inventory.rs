//! The host inventory read from Linux sysfs and procfs: what a NUMA node's
//! meminfo and `/proc/meminfo` say, the host nodes of one NUMA node, the
//! PCI locality of a device, and the summary a description carries.
use vstd::prelude::*;

use crate::discover::{HostNodeSpec, HostView};
use crate::model::{spec_qty, qty, Attrs, CapacityDimension, Quantity, ResourceClass};
use crate::text::{
    char_views, chars_eq, chars_eq_str, chars_of, decimal, decimal_string, find_char, lines, lines_of, parse_unsigned,
    parse_unsigned_chars, slice_range, string_of, trim, trim_chars, words, words_of,
};

verus! {

// ---------------------------------------------------------------------------
// Memory sizes.

/// A NUMA meminfo line `Node <n> MemTotal: <kib> kB`: the label and metric
/// fields are matched, not positions in the text.
pub open spec fn node_line_kib(line: Seq<char>) -> Option<int> {
    let w = words(line);
    if w.len() >= 4 && w[0] == "Node"@ && w[2] == "MemTotal:"@ {
        parse_unsigned(w[3], u64::MAX as int)
    } else {
        None
    }
}

/// The first line that reports MemTotal.
pub open spec fn first_node_kib(ls: Seq<Seq<char>>) -> Option<int>
    decreases ls.len(),
{
    if ls.len() == 0 {
        None
    } else {
        match node_line_kib(ls[0]) {
            Some(v) => Some(v),
            None => first_node_kib(ls.drop_first()),
        }
    }
}

/// The MemTotal, in KiB, of a NUMA node's meminfo text.
pub fn node_meminfo_kib(text: &str) -> (kib: Option<u64>)
    ensures
        match kib {
            Some(v) => first_node_kib(lines(text@)) == Some(v as int),
            None => first_node_kib(lines(text@)) is None,
        },
{
    let ls = lines_of(chars_of(text).as_slice());
    let ghost lv = char_views(ls@);
    assert(lv.skip(0) =~= lv);
    let node_word = chars_of("Node");
    let metric_word = chars_of("MemTotal:");
    let mut i: usize = 0;
    while i < ls.len()
        invariant
            lv == char_views(ls@),
            lv == lines(text@),
            node_word@ == "Node"@,
            metric_word@ == "MemTotal:"@,
            i <= ls@.len(),
            first_node_kib(lv) == first_node_kib(lv.skip(i as int)),
        decreases ls@.len() - i,
    {
        assert(lv.skip(i as int).drop_first() =~= lv.skip(i + 1));
        assert(lv.skip(i as int)[0] == ls@[i as int]@);
        let w = words_of(ls[i].as_slice());
        assert(char_views(w@) == words(ls@[i as int]@));
        if w.len() >= 4 && chars_eq(w[0].as_slice(), node_word.as_slice()) && chars_eq(w[2].as_slice(), metric_word.as_slice()) {
            assert(char_views(w@)[3] == w@[3]@);
            match parse_unsigned_chars(w[3].as_slice(), u64::MAX) {
                Some(v) => {
                    return Some(v);
                },
                None => {},
            }
        }
        i = i + 1;
    }
    None
}

/// `s` without every trailing ` kB`.
pub open spec fn strip_kb(s: Seq<char>) -> Seq<char>
    decreases s.len(),
{
    if s.len() >= 3 && s.subrange(s.len() - 3, s.len() as int) == " kB"@ {
        strip_kb(s.take(s.len() - 3))
    } else {
        s
    }
}

/// The first `/proc/meminfo` line starting `MemTotal:`, without the label.
pub open spec fn memtotal_rest(ls: Seq<Seq<char>>) -> Option<Seq<char>>
    decreases ls.len(),
{
    if ls.len() == 0 {
        None
    } else if ls[0].len() >= 9 && ls[0].take(9) == "MemTotal:"@ {
        Some(ls[0].skip(9))
    } else {
        memtotal_rest(ls.drop_first())
    }
}

/// Total memory from `/proc/meminfo`: the first MemTotal line's number of
/// KiB, in bytes. None when there is no such line, its number does not
/// parse, or the bytes overflow.
pub open spec fn proc_memory_bytes(text: Seq<char>) -> Option<int> {
    match memtotal_rest(lines(text)) {
        Some(rest) => match parse_unsigned(trim(strip_kb(trim(rest))), u64::MAX as int) {
            Some(kib) => if kib * 1024 <= u64::MAX { Some(kib * 1024) } else { None },
            None => None,
        },
        None => None,
    }
}

fn strip_kb_chars(s: &[char]) -> (r: Vec<char>)
    ensures
        r@ == strip_kb(s@),
{
    let mut end: usize = s.len();
    assert(s@.take(end as int) =~= s@);
    while end >= 3 && s[end - 3] == ' ' && s[end - 2] == 'k' && s[end - 1] == 'B'
        invariant
            end <= s@.len(),
            strip_kb(s@) == strip_kb(s@.take(end as int)),
        decreases end,
    {
        proof {
            reveal_strlit(" kB");
            let t = s@.take(end as int);
            assert(t.subrange(t.len() - 3, t.len() as int) =~= " kB"@);
            assert(t.take(t.len() - 3) =~= s@.take(end - 3));
        }
        end = end - 3;
    }
    proof {
        reveal_strlit(" kB");
        let t = s@.take(end as int);
        if t.len() >= 3 && t.subrange(t.len() - 3, t.len() as int) == " kB"@ {
            assert(t.subrange(t.len() - 3, t.len() as int)[0] == s@[end - 3]);
            assert(t.subrange(t.len() - 3, t.len() as int)[1] == s@[end - 2]);
            assert(t.subrange(t.len() - 3, t.len() as int)[2] == s@[end - 1]);
        }
    }
    slice_range(s, 0, end)
}

/// The machine's memory in bytes, from `/proc/meminfo` text.
pub fn proc_meminfo_bytes(text: &str) -> (bytes: Option<u64>)
    ensures
        match bytes {
            Some(v) => proc_memory_bytes(text@) == Some(v as int),
            None => proc_memory_bytes(text@) is None,
        },
{
    let ls = lines_of(chars_of(text).as_slice());
    let ghost lv = char_views(ls@);
    assert(lv.skip(0) =~= lv);
    let label = chars_of("MemTotal:");
    let mut i: usize = 0;
    while i < ls.len()
        invariant
            lv == char_views(ls@),
            lv == lines(text@),
            label@ == "MemTotal:"@,
            i <= ls@.len(),
            memtotal_rest(lv) == memtotal_rest(lv.skip(i as int)),
        decreases ls@.len() - i,
    {
        assert(lv.skip(i as int).drop_first() =~= lv.skip(i + 1));
        assert(lv.skip(i as int)[0] == ls@[i as int]@);
        let line = &ls[i];
        if line.len() >= 9 {
            let head = slice_range(line.as_slice(), 0, 9);
            if chars_eq(head.as_slice(), label.as_slice()) {
                assert(head@ =~= line@.take(9));
                let rest = slice_range(line.as_slice(), 9, line.len());
                assert(rest@ =~= line@.skip(9));
                let body = trim_chars(strip_kb_chars(trim_chars(rest.as_slice()).as_slice()).as_slice());
                return match parse_unsigned_chars(body.as_slice(), u64::MAX) {
                    Some(kib) => if kib <= u64::MAX / 1024 { Some(kib * 1024) } else { None },
                    None => None,
                };
            } else {
                assert(head@ =~= line@.take(9));
            }
        }
        i = i + 1;
    }
    None
}

// ---------------------------------------------------------------------------
// The host nodes of one NUMA node.

pub open spec fn meminfo_path(node: Seq<char>) -> Seq<char> {
    "/sys/devices/system/node/node"@ + node + "/meminfo"@
}

pub open spec fn plain_host(id: Seq<char>, kind: ResourceClass, parent: Option<Seq<char>>, capacity: Quantity) -> HostView {
    HostView { id, kind, parent, attrs: Map::empty(), capacity }
}

pub open spec fn cpu_hosts(id: Seq<char>, cpus: Seq<u32>) -> Seq<HostView> {
    cpus.map_values(|c: u32| plain_host(id + "/cpu/"@ + decimal(c as nat), ResourceClass::Cpu, Some(id), spec_qty(CapacityDimension::Count, 1)))
}

/// A NUMA node's host nodes: the node itself, its memory (the meminfo
/// MemTotal in bytes) and one unit node per CPU, all under it.
pub open spec fn numa_hosts(id: Seq<char>, node: Seq<char>, cpus: Seq<u32>, meminfo: Seq<char>) -> Result<Seq<HostView>, Seq<char>> {
    match first_node_kib(lines(meminfo)) {
        None => Err("parse "@ + meminfo_path(node) + " MemTotal"@),
        Some(kib) => if kib * 1024 > u64::MAX {
            Err(meminfo_path(node) + " MemTotal overflows"@)
        } else {
            Ok(seq![
                plain_host(id, ResourceClass::Numa, None, Quantity { count: None, bytes: None }),
                plain_host(id + "/memory"@, ResourceClass::Memory, Some(id), spec_qty(CapacityDimension::Bytes, (kib * 1024) as u64)),
            ] + cpu_hosts(id, cpus))
        },
    }
}

pub open spec fn specs_view(v: Seq<HostNodeSpec>) -> Seq<HostView> {
    v.map_values(|h: HostNodeSpec| h.view())
}

/// The host nodes of the NUMA node `id` (sysfs node number `node`), from
/// its CPU list and meminfo text (see `numa_hosts`).
pub fn numa_node_specs(id: &str, node: &str, cpus: &[u32], meminfo: &str) -> (r: Result<Vec<HostNodeSpec>, String>)
    ensures
        match r {
            Ok(specs) => numa_hosts(id@, node@, cpus@, meminfo@) == Ok::<Seq<HostView>, Seq<char>>(specs_view(specs@))
                && forall|k: int| 0 <= k < specs@.len() ==> (#[trigger] specs@[k]).wf(),
            Err(e) => numa_hosts(id@, node@, cpus@, meminfo@) == Err::<Seq<HostView>, Seq<char>>(e@),
        },
{
    let path = String::from_str("/sys/devices/system/node/node").concat(node).concat("/meminfo");
    let kib = match node_meminfo_kib(meminfo) {
        Some(kib) => kib,
        None => return Err(String::from_str("parse ").concat(path.as_str()).concat(" MemTotal")),
    };
    if kib > u64::MAX / 1024 {
        return Err(path.concat(" MemTotal overflows"));
    }
    let mut specs: Vec<HostNodeSpec> = Vec::new();
    specs.push(HostNodeSpec { id: String::from_str(id), kind: ResourceClass::Numa, parent: None, attrs: Attrs::new(), capacity: Quantity::new() });
    specs.push(HostNodeSpec {
        id: String::from_str(id).concat("/memory"),
        kind: ResourceClass::Memory,
        parent: Some(String::from_str(id)),
        attrs: Attrs::new(),
        capacity: qty(CapacityDimension::Bytes, kib * 1024),
    });
    let ghost head = specs_view(specs@);
    assert(head =~= seq![
        plain_host(id@, ResourceClass::Numa, None, Quantity { count: None, bytes: None }),
        plain_host(id@ + "/memory"@, ResourceClass::Memory, Some(id@), spec_qty(CapacityDimension::Bytes, (kib * 1024) as u64)),
    ]);
    assert(cpus@.take(0) =~= Seq::<u32>::empty());
    assert(cpu_hosts(id@, cpus@.take(0)) =~= Seq::<HostView>::empty());
    assert(head + cpu_hosts(id@, cpus@.take(0)) =~= head);
    let mut i: usize = 0;
    while i < cpus.len()
        invariant
            i <= cpus@.len(),
            specs_view(specs@) == head + cpu_hosts(id@, cpus@.take(i as int)),
            forall|k: int| 0 <= k < specs@.len() ==> (#[trigger] specs@[k]).wf(),
        decreases cpus@.len() - i,
    {
        let name = String::from_str(id).concat("/cpu/").concat(decimal_string(cpus[i] as u64).as_str());
        let ghost before = specs@;
        specs.push(HostNodeSpec {
            id: name,
            kind: ResourceClass::Cpu,
            parent: Some(String::from_str(id)),
            attrs: Attrs::new(),
            capacity: qty(CapacityDimension::Count, 1),
        });
        assert(specs_view(specs@) =~= specs_view(before).push(specs@.last().view()));
        assert(cpu_hosts(id@, cpus@.take(i + 1)) =~= cpu_hosts(id@, cpus@.take(i as int)).push(specs@.last().view()));
        i = i + 1;
    }
    assert(cpus@.take(i as int) =~= cpus@);
    Ok(specs)
}

// ---------------------------------------------------------------------------
// PCI locality.

pub open spec fn starts_with(s: Seq<char>, p: Seq<char>) -> bool {
    s.len() >= p.len() && s.take(p.len() as int) == p
}

/// The locality attributes of a PCI device: its NUMA node when sysfs names
/// one (not empty, not -1), and its root port when the device's parent
/// directory is a PCI address (`0000:` and a dot).
pub open spec fn pci_locality(numa_node: Option<Seq<char>>, parent_dir: Option<Seq<char>>) -> Map<Seq<char>, Seq<char>> {
    let numa = match numa_node {
        Some(text) => {
            let v = trim(text);
            if v.len() > 0 && v != "-1"@ { Map::empty().insert("numa_node"@, v) } else { Map::empty() }
        },
        None => Map::empty(),
    };
    match parent_dir {
        Some(p) => if starts_with(p, "0000:"@) && find_char(p, '.') is Some { numa.insert("pci_root"@, p) } else { numa },
        None => numa,
    }
}

/// The locality attributes of a PCI device from its sysfs `numa_node`
/// text and the name of its parent directory (see `pci_locality`).
pub fn pci_attrs_from(numa_node: Option<&str>, parent_dir: Option<&str>) -> (attrs: Attrs)
    ensures
        attrs.wf(),
        attrs.view() == pci_locality(
            match numa_node { Some(t) => Some(t@), None => None },
            match parent_dir { Some(t) => Some(t@), None => None },
        ),
{
    let ghost numa_view = match numa_node { Some(t) => Some(t@), None => None };
    let ghost parent_view = match parent_dir { Some(t) => Some(t@), None => None };
    let mut attrs = Attrs::new();
    match numa_node {
        Some(text) => {
            let v = trim_chars(chars_of(text).as_slice());
            if v.len() > 0 && !chars_eq_str(v.as_slice(), "-1") {
                attrs.insert(String::from_str("numa_node"), string_of(v.as_slice()));
            }
        },
        None => {},
    }
    let ghost after_numa = attrs.view();
    assert(after_numa =~= pci_locality(numa_view, None));
    match parent_dir {
        Some(p) => {
            let pc = chars_of(p);
            assert(pc@.skip(0) =~= p@);
            proof {
                reveal_strlit("0000:");
            }
            let prefixed = if pc.len() >= 5 {
                let head = slice_range(pc.as_slice(), 0, 5);
                assert(head@ =~= p@.take(5));
                chars_eq_str(head.as_slice(), "0000:")
            } else {
                false
            };
            let dotted = crate::text::find_char_from(pc.as_slice(), '.', 0).is_some();
            if prefixed && dotted {
                attrs.insert(String::from_str("pci_root"), String::from_str(p));
            }
            assert(attrs.view() =~= pci_locality(numa_view, parent_view));
        },
        None => {},
    }
    attrs
}

// ---------------------------------------------------------------------------
// A description's summary.

pub open spec fn summary_of(hosts: Seq<HostView>) -> (int, int)
    decreases hosts.len(),
{
    if hosts.len() == 0 {
        (0, 0)
    } else {
        let prev = summary_of(hosts.drop_last());
        let h = hosts.last();
        (
            prev.0 + (if h.kind == ResourceClass::Cpu { 1int } else { 0int }),
            prev.1 + (if h.kind == ResourceClass::Memory { h.capacity.amount(CapacityDimension::Bytes) as int } else { 0int }),
        )
    }
}

proof fn lemma_summary_grows(hosts: Seq<HostView>, k: int)
    requires
        0 <= k <= hosts.len(),
    ensures
        0 <= summary_of(hosts.take(k)).0 <= summary_of(hosts).0,
        0 <= summary_of(hosts.take(k)).1 <= summary_of(hosts).1,
        summary_of(hosts).0 <= hosts.len(),
    decreases hosts.len(),
{
    if hosts.len() > 0 {
        if k < hosts.len() {
            assert(hosts.drop_last().take(k) =~= hosts.take(k));
            lemma_summary_grows(hosts.drop_last(), k);
        } else {
            assert(hosts.take(k) =~= hosts);
            lemma_summary_grows(hosts.drop_last(), k - 1);
        }
    } else {
        assert(hosts.take(k) =~= hosts);
    }
}

/// The CPU count and memory bytes a normalized inventory advertises: its
/// CPU nodes, and the bytes of its memory nodes.
pub fn host_summary(hosts: &[HostNodeSpec]) -> (summary: (u64, u64))
    requires
        summary_of(specs_view(hosts@)).1 <= u64::MAX,
    ensures
        summary.0 == summary_of(specs_view(hosts@)).0,
        summary.1 == summary_of(specs_view(hosts@)).1,
{
    let ghost hv = specs_view(hosts@);
    let mut cpus: u64 = 0;
    let mut bytes: u64 = 0;
    let mut i: usize = 0;
    while i < hosts.len()
        invariant
            hv == specs_view(hosts@),
            summary_of(hv).1 <= u64::MAX,
            i <= hosts@.len(),
            cpus == summary_of(hv.take(i as int)).0,
            bytes == summary_of(hv.take(i as int)).1,
        decreases hosts@.len() - i,
    {
        assert(hv.take(i + 1).drop_last() =~= hv.take(i as int));
        proof {
            lemma_summary_grows(hv, i + 1);
            lemma_summary_grows(hv.take(i + 1), i + 1);
        }
        if hosts[i].kind == ResourceClass::Cpu {
            cpus = cpus + 1;
        }
        if hosts[i].kind == ResourceClass::Memory {
            bytes = bytes + hosts[i].capacity.get(CapacityDimension::Bytes);
        }
        i = i + 1;
    }
    assert(hv.take(i as int) =~= hv);
    (cpus, bytes)
}

} // verus!
