//! Machine inventories: how an agent describes its machine, how such a
//! description is checked before it becomes authoritative, and how it
//! becomes the resource-graph fragment the controller applies.
use vstd::prelude::*;

use crate::model::{spec_qty, qty, Attrs, CapacityDimension, Quantity, ResourceClass};
use crate::text::{
    char_views,    decimal, decimal_string, lines, lines_of,
    ascii_lower, ascii_lower_chars, chars_eq_str, chars_of, debug_chars, debug_quoted, is_hex_digit,
    parse_unsigned, parse_unsigned_chars, slice_range, split_chars, split_on, split_once, split_once_chars, string_of,
    trim, trim_chars,
};

verus! {

/// A machine as the agent reports it; the controller builds the graph.
#[derive(Clone, Debug)]
pub struct MachineDescription {
    /// Stable identity across reconnects; empty for local discovery.
    pub instance_id: String,
    pub name: String,
    pub cpus: u64,
    pub memory_bytes: u64,
    /// Provider-normalized host resources/topology. Empty keeps the flat
    /// Machine -> CPU/Memory shape.
    pub host_nodes: Vec<HostNodeSpec>,
    /// Devices this machine exposes.
    pub devices: Vec<DeviceSpec>,
}

/// One provider-normalized host resource or topology node. `id` is stable
/// within this machine inventory and is used only to compose containment.
#[derive(Clone, Debug)]
pub struct HostNodeSpec {
    pub id: String,
    pub kind: ResourceClass,
    /// Parent host-node id; None attaches directly to the Machine.
    pub parent: Option<String>,
    pub attrs: Attrs,
    pub capacity: Quantity,
}

/// One declared device: a stable `id` that survives re-registration and
/// access-path changes, plus the current host path it is reachable through.
#[derive(Clone, Debug)]
pub struct DeviceSpec {
    pub kind: ResourceClass,
    pub id: String,
    pub dev: String,
    /// Host node that contains this device; None makes no locality claim.
    pub host_parent: Option<String>,
    /// Additional host device paths required to use this logical resource.
    pub access: Vec<String>,
    /// Provider-owned facts and capabilities.
    pub attrs: Attrs,
}


// ---------------------------------------------------------------------------
// sysfs CPU lists: "0-3,8,10-11".

/// The CPUs `a..=b`.
pub open spec fn cpu_range(a: u32, b: u32) -> Seq<u32> {
    Seq::new((b - a + 1) as nat, |i: int| (a + i) as u32)
}

/// One non-empty list element: `n` or `a-b`, each bound trimmed and parsed as u32.
pub open spec fn cpu_list_part(part: Seq<char>) -> Result<Seq<u32>, Seq<char>> {
    let (start, end) = match split_once(part, '-') {
        Some((a, b)) => (a, b),
        None => (part, part),
    };
    let invalid = "invalid CPU range "@ + debug_quoted(part);
    match (parse_unsigned(trim(start), u32::MAX as int), parse_unsigned(trim(end), u32::MAX as int)) {
        (Some(a), Some(b)) => if b < a {
            Err("inverted CPU range "@ + debug_quoted(part))
        } else {
            Ok(cpu_range(a as u32, b as u32))
        },
        _ => Err(invalid),
    }
}

/// The list's elements, left to right; empty elements are skipped and the
/// first bad element refuses the whole list.
pub open spec fn cpu_list_parts(parts: Seq<Seq<char>>) -> Result<Seq<u32>, Seq<char>>
    decreases parts.len(),
{
    if parts.len() == 0 {
        Ok(Seq::empty())
    } else {
        match cpu_list_parts(parts.drop_last()) {
            Err(e) => Err(e),
            Ok(cpus) => if parts.last().len() == 0 {
                Ok(cpus)
            } else {
                match cpu_list_part(parts.last()) {
                    Ok(more) => Ok(cpus + more),
                    Err(e) => Err(e),
                }
            },
        }
    }
}

pub open spec fn cpu_list(list: Seq<char>) -> Result<Seq<u32>, Seq<char>> {
    cpu_list_parts(split_on(list, ','))
}

/// A parse that keeps its first error: once a prefix fails, every longer
/// prefix fails with the same error.
pub proof fn lemma_first_error_sticks<A, T>(f: spec_fn(Seq<A>) -> Result<T, Seq<char>>, parts: Seq<A>, k: int)
    requires
        0 < k <= parts.len(),
        forall|p: Seq<A>| p.len() > 0 && #[trigger] f(p.drop_last()) is Err ==> f(p) == f(p.drop_last()),
        f(parts.take(k)) is Err,
    ensures
        f(parts) == f(parts.take(k)),
    decreases parts.len() - k,
{
    if k < parts.len() {
        assert(parts.take(k + 1).drop_last() =~= parts.take(k));
        lemma_first_error_sticks(f, parts, k + 1);
    } else {
        assert(parts.take(k) =~= parts);
    }
}

/// Expand a sysfs cpulist ("0-3,8,10-11") into individual CPU numbers.
pub fn parse_cpu_list(list: &str) -> (result: Result<Vec<u32>, String>)
    ensures
        match result {
            Ok(cpus) => cpu_list(list@) == Ok::<Seq<u32>, Seq<char>>(cpus@),
            Err(message) => cpu_list(list@) == Err::<Seq<u32>, Seq<char>>(message@),
        },
{
    let text = chars_of(list);
    let parts = split_chars(text.as_slice(), ',');
    let ghost pv = parts@.map_values(|p: Vec<char>| p@);
    let mut cpus: Vec<u32> = Vec::new();
    let mut i: usize = 0;
    while i < parts.len()
        invariant
            i <= parts@.len(),
            pv == parts@.map_values(|p: Vec<char>| p@),
            pv == split_on(list@, ','),
            cpu_list_parts(pv.take(i as int)) == Ok::<Seq<u32>, Seq<char>>(cpus@),
        decreases parts@.len() - i,
    {
        assert(pv.take(i + 1).drop_last() =~= pv.take(i as int));
        assert(pv.take(i + 1).last() == parts@[i as int]@);
        let part = &parts[i];
        if part.len() > 0 {
            let (start, end) = match split_once_chars(part.as_slice(), '-') {
                Some((a, b)) => (a, b),
                None => (part.clone(), part.clone()),
            };
            let a = parse_unsigned_chars(trim_chars(start.as_slice()).as_slice(), 0xffff_ffff);
            let b = parse_unsigned_chars(trim_chars(end.as_slice()).as_slice(), 0xffff_ffff);
            match (a, b) {
                (Some(a), Some(b)) => {
                    if b < a {
                        let message = String::from_str("inverted CPU range ").concat(debug_chars(part.as_slice()).as_str());
                        proof {
                            lemma_cpu_list_error(pv, i as int);
                        }
                        return Err(message);
                    }
                    let ghost before = cpus@;
                    let mut c: u64 = a;
                    while c <= b
                        invariant
                            a <= b <= u32::MAX,
                            a <= c <= b + 1,
                            cpus@ == before + cpu_range(a as u32, b as u32).take(c - a),
                        decreases b + 1 - c,
                    {
                        cpus.push(c as u32);
                        c = c + 1;
                        assert(cpus@ =~= before + cpu_range(a as u32, b as u32).take(c - a));
                    }
                    assert(cpu_range(a as u32, b as u32).take(b + 1 - a) =~= cpu_range(a as u32, b as u32));
                },
                _ => {
                    let message = String::from_str("invalid CPU range ").concat(debug_chars(part.as_slice()).as_str());
                    proof {
                        lemma_cpu_list_error(pv, i as int);
                    }
                    return Err(message);
                },
            }
        }
        i = i + 1;
    }
    assert(pv.take(parts@.len() as int) =~= pv);
    Ok(cpus)
}

proof fn lemma_cpu_list_error(parts: Seq<Seq<char>>, i: int)
    requires
        0 <= i < parts.len(),
        cpu_list_parts(parts.take(i)) is Ok,
        parts[i].len() > 0,
        cpu_list_part(parts[i]) is Err,
    ensures
        cpu_list_parts(parts) == cpu_list_part(parts[i]),
{
    assert(parts.take(i + 1).drop_last() =~= parts.take(i));
    assert(parts.take(i + 1).last() == parts[i]);
    let f = |p: Seq<Seq<char>>| cpu_list_parts(p);
    lemma_first_error_sticks(f, parts, i + 1);
}

// ---------------------------------------------------------------------------
// PCI bus ids.

/// nvidia-smi reports an 8-digit PCI domain ("00000000:01:00.0"); sysfs uses
/// 4 digits. Anything else is kept as it is.
pub open spec fn normalized_pci_bus_id(value: Seq<char>) -> Seq<char> {
    match split_once(value, ':') {
        Some((domain, _)) => if domain.len() == 8 && forall|i: int| 0 <= i < 8 ==> is_hex_digit(#[trigger] domain[i]) {
            value.skip(4)
        } else {
            value
        },
        None => value,
    }
}

pub fn normalize_pci_bus_id(value: &[char]) -> (r: Vec<char>)
    ensures
        r@ == normalized_pci_bus_id(value@),
{
    match split_once_chars(value, ':') {
        Some((domain, _rest)) => {
            if domain.len() == 8 {
                let mut k: usize = 0;
                while k < 8
                    invariant
                        domain@.len() == 8,
                        split_once(value@, ':') == Some((domain@, _rest@)),
                        k <= 8,
                        forall|j: int| 0 <= j < k ==> is_hex_digit(#[trigger] domain@[j]),
                    decreases 8 - k,
                {
                    let c = domain[k];
                    if !(('0' <= c && c <= '9') || ('a' <= c && c <= 'f') || ('A' <= c && c <= 'F')) {
                        let r = slice_range(value, 0, value.len());
                        assert(!is_hex_digit(domain@[k as int]));
                        assert(!(forall|i: int| 0 <= i < 8 ==> is_hex_digit(#[trigger] domain@[i])));
                        assert(r@ =~= value@);
                        assert(normalized_pci_bus_id(value@) == value@);
                        return r;
                    }
                    k = k + 1;
                }
                proof {
                    crate::text::lemma_find_char(value@, ':');
                }
                let r = slice_range(value, 4, value.len());
                assert(r@ =~= value@.skip(4));
                r
            } else {
                let r = slice_range(value, 0, value.len());
                assert(r@ =~= value@);
                r
            }
        },
        None => {
            let r = slice_range(value, 0, value.len());
            assert(r@ =~= value@);
            r
        },
    }
}


// ---------------------------------------------------------------------------
// Explicit device declarations: `kind:path` or `kind=id:path`, comma-separated.

/// The (kind, id, path) an entry declares, or the refusal of its shape.
pub open spec fn entry_fields(entry: Seq<char>) -> Result<(Seq<char>, Seq<char>, Seq<char>), Seq<char>> {
    match split_once(entry, '=') {
        Some((kind, rest)) => match split_once(rest, ':') {
            Some((id, dev)) => Ok((kind, id, dev)),
            None => Err("invalid ARCHON_DEVICES entry "@ + debug_quoted(entry) + ": expected kind=id:path"@),
        },
        None => match split_once(entry, ':') {
            Some((kind, dev)) => Ok((kind, dev, dev)),
            None => Err("invalid ARCHON_DEVICES entry "@ + debug_quoted(entry) + ": expected kind:path"@),
        },
    }
}

/// The device class a (trimmed, lower-cased) kind names.
pub open spec fn device_kind(kind: Seq<char>) -> Option<ResourceClass> {
    if kind == "gpu"@ {
        Some(ResourceClass::Gpu)
    } else if kind == "nic"@ {
        Some(ResourceClass::Nic)
    } else if kind == "nvme"@ {
        Some(ResourceClass::Nvme)
    } else {
        None
    }
}

/// Why one trimmed, non-empty entry is refused, if it is.
pub open spec fn entry_error(entry: Seq<char>) -> Option<Seq<char>> {
    match entry_fields(entry) {
        Err(message) => Some(message),
        Ok((kind, id, dev)) => if trim(id).len() == 0 || trim(dev).len() == 0 {
            Some("invalid ARCHON_DEVICES entry "@ + debug_quoted(entry) + ": empty id or path"@)
        } else {
            let k = ascii_lower(trim(kind));
            if device_kind(k) is Some {
                None
            } else {
                Some("invalid ARCHON_DEVICES device kind "@ + debug_quoted(k))
            }
        },
    }
}

/// The first refusal among the entries, skipping blank ones.
pub open spec fn declarations_error(pieces: Seq<Seq<char>>) -> Result<(), Seq<char>>
    decreases pieces.len(),
{
    if pieces.len() == 0 {
        Ok(())
    } else {
        match declarations_error(pieces.drop_last()) {
            Err(e) => Err(e),
            Ok(()) => {
                let entry = trim(pieces.last());
                if entry.len() == 0 {
                    Ok(())
                } else {
                    match entry_error(entry) {
                        Some(e) => Err(e),
                        None => Ok(()),
                    }
                }
            },
        }
    }
}

fn kind_of(kind: &[char]) -> (r: Option<ResourceClass>)
    ensures
        r == device_kind(kind@),
{
    if chars_eq_str(kind, "gpu") {
        Some(ResourceClass::Gpu)
    } else if chars_eq_str(kind, "nic") {
        Some(ResourceClass::Nic)
    } else if chars_eq_str(kind, "nvme") {
        Some(ResourceClass::Nvme)
    } else {
        None
    }
}

fn check_entry(entry: &[char]) -> (r: Option<String>)
    ensures
        match r {
            Some(m) => entry_error(entry@) == Some(m@),
            None => entry_error(entry@) is None,
        },
{
    let (kind, id, dev) = match split_once_chars(entry, '=') {
        Some((kind, rest)) => match split_once_chars(rest.as_slice(), ':') {
            Some((id, dev)) => (kind, id, dev),
            None => {
                return Some(String::from_str("invalid ARCHON_DEVICES entry ").concat(debug_chars(entry).as_str()).concat(": expected kind=id:path"));
            },
        },
        None => match split_once_chars(entry, ':') {
            Some((kind, dev)) => (kind, dev.clone(), dev),
            None => {
                return Some(String::from_str("invalid ARCHON_DEVICES entry ").concat(debug_chars(entry).as_str()).concat(": expected kind:path"));
            },
        },
    };
    assert(entry_fields(entry@) == Ok::<(Seq<char>, Seq<char>, Seq<char>), Seq<char>>((kind@, id@, dev@)));
    if trim_chars(id.as_slice()).len() == 0 || trim_chars(dev.as_slice()).len() == 0 {
        return Some(String::from_str("invalid ARCHON_DEVICES entry ").concat(debug_chars(entry).as_str()).concat(": empty id or path"));
    }
    let k = ascii_lower_chars(trim_chars(kind.as_slice()).as_slice());
    match kind_of(k.as_slice()) {
        Some(_) => None,
        None => Some(String::from_str("invalid ARCHON_DEVICES device kind ").concat(debug_chars(k.as_slice()).as_str())),
    }
}

/// The refusal of a declaration list (see `declarations_error`), checked
/// before any entry is used so a partial inventory never passes as complete.
pub fn validate_declared_devices(spec: &str) -> (r: Result<(), String>)
    ensures
        match r {
            Ok(()) => declarations_error(split_on(spec@, ',')) == Ok::<(), Seq<char>>(()),
            Err(m) => declarations_error(split_on(spec@, ',')) == Err::<(), Seq<char>>(m@),
        },
{
    let text = chars_of(spec);
    let pieces = split_chars(text.as_slice(), ',');
    let ghost pv = pieces@.map_values(|p: Vec<char>| p@);
    let mut i: usize = 0;
    while i < pieces.len()
        invariant
            i <= pieces@.len(),
            pv == pieces@.map_values(|p: Vec<char>| p@),
            pv == split_on(spec@, ','),
            declarations_error(pv.take(i as int)) == Ok::<(), Seq<char>>(()),
        decreases pieces@.len() - i,
    {
        assert(pv.take(i + 1).drop_last() =~= pv.take(i as int));
        assert(pv.take(i + 1).last() == pieces@[i as int]@);
        let entry = trim_chars(pieces[i].as_slice());
        if entry.len() > 0 {
            if let Some(message) = check_entry(entry.as_slice()) {
                proof {
                    let f = |p: Seq<Seq<char>>| declarations_error(p);
                    lemma_first_error_sticks(f, pv, i + 1);
                }
                return Err(message);
            }
        }
        i = i + 1;
    }
    assert(pv.take(pieces@.len() as int) =~= pv);
    Ok(())
}

/// The spec a declaration entry (untrimmed) yields, if it is well-formed:
/// kind trimmed and lower-cased, id trimmed, path kept as written.
pub open spec fn declared_entry(entry: Seq<char>) -> Option<(ResourceClass, Seq<char>, Seq<char>)> {
    match entry_fields(entry) {
        Ok((kind, id, dev)) => match device_kind(ascii_lower(trim(kind))) {
            Some(class) => Some((class, trim(id), dev)),
            None => None,
        },
        Err(_) => None,
    }
}

/// The declared devices, in order, skipping blank and malformed entries.
pub open spec fn declared_entries(pieces: Seq<Seq<char>>) -> Seq<(ResourceClass, Seq<char>, Seq<char>)>
    decreases pieces.len(),
{
    if pieces.len() == 0 {
        Seq::empty()
    } else {
        let prev = declared_entries(pieces.drop_last());
        if trim(pieces.last()).len() == 0 {
            prev
        } else {
            match declared_entry(pieces.last()) {
                Some(d) => prev.push(d),
                None => prev,
            }
        }
    }
}

/// A declared device as (class, id, path), with no host parent, support
/// paths or attributes.
pub open spec fn declared_view(d: DeviceSpec) -> (ResourceClass, Seq<char>, Seq<char>) {
    (d.kind, d.id@, d.dev@)
}

/// Parse device declarations into device specs; malformed entries are skipped.
pub fn parse_declared_devices(spec: &str) -> (devices: Vec<DeviceSpec>)
    ensures
        devices@.map_values(|d: DeviceSpec| declared_view(d)) == declared_entries(split_on(spec@, ',')),
        forall|i: int| 0 <= i < devices@.len() ==> {
            &&& (#[trigger] devices@[i]).host_parent is None
            &&& devices@[i].access@.len() == 0
            &&& devices@[i].attrs.wf()
            &&& devices@[i].attrs.view() == Map::<Seq<char>, Seq<char>>::empty()
        },
{
    let text = chars_of(spec);
    let pieces = split_chars(text.as_slice(), ',');
    let ghost pv = pieces@.map_values(|p: Vec<char>| p@);
    let mut devices: Vec<DeviceSpec> = Vec::new();
    let mut i: usize = 0;
    while i < pieces.len()
        invariant
            i <= pieces@.len(),
            pv == pieces@.map_values(|p: Vec<char>| p@),
            pv == split_on(spec@, ','),
            devices@.map_values(|d: DeviceSpec| declared_view(d)) == declared_entries(pv.take(i as int)),
            forall|j: int| 0 <= j < devices@.len() ==> {
                &&& (#[trigger] devices@[j]).host_parent is None
                &&& devices@[j].access@.len() == 0
                &&& devices@[j].attrs.wf()
                &&& devices@[j].attrs.view() == Map::<Seq<char>, Seq<char>>::empty()
            },
        decreases pieces@.len() - i,
    {
        assert(pv.take(i + 1).drop_last() =~= pv.take(i as int));
        assert(pv.take(i + 1).last() == pieces@[i as int]@);
        let piece = &pieces[i];
        if trim_chars(piece.as_slice()).len() > 0 {
            let fields = match split_once_chars(piece.as_slice(), '=') {
                Some((kind, rest)) => match split_once_chars(rest.as_slice(), ':') {
                    Some((id, dev)) => Some((kind, id, dev)),
                    None => None,
                },
                None => match split_once_chars(piece.as_slice(), ':') {
                    Some((kind, dev)) => Some((kind, dev.clone(), dev)),
                    None => None,
                },
            };
            if let Some((kind, id, dev)) = fields {
                let k = ascii_lower_chars(trim_chars(kind.as_slice()).as_slice());
                if let Some(class) = kind_of(k.as_slice()) {
                    let device = DeviceSpec {
                        kind: class,
                        id: string_of(trim_chars(id.as_slice()).as_slice()),
                        dev: string_of(dev.as_slice()),
                        host_parent: None,
                        access: Vec::new(),
                        attrs: Attrs::new(),
                    };
                    let ghost before = devices@;
                    devices.push(device);
                    assert(devices@.map_values(|d: DeviceSpec| declared_view(d)) =~= before.map_values(|d: DeviceSpec| declared_view(d)).push(declared_view(device)));
                }
            }
        }
        i = i + 1;
    }
    assert(pv.take(pieces@.len() as int) =~= pv);
    devices
}


// ---------------------------------------------------------------------------
// NVIDIA inventory from `nvidia-smi --query-gpu=index,uuid,name,pci.bus_id,
// memory.total,compute_cap,driver_version --format=csv,noheader,nounits`.

/// One complete nvidia-smi row.
#[derive(Clone, Debug)]
pub struct NvidiaRow {
    pub index: u32,
    pub uuid: String,
    pub model: String,
    pub pci_bus_id: String,
    pub memory_mib: u64,
    pub compute_capability: String,
    pub driver_version: String,
}

pub struct NvidiaRowView {
    pub index: u32,
    pub uuid: Seq<char>,
    pub model: Seq<char>,
    pub pci_bus_id: Seq<char>,
    pub memory_mib: u64,
    pub compute_capability: Seq<char>,
    pub driver_version: Seq<char>,
}

impl NvidiaRow {
    pub open spec fn view(self) -> NvidiaRowView {
        NvidiaRowView {
            index: self.index,
            uuid: self.uuid@,
            model: self.model@,
            pci_bus_id: self.pci_bus_id@,
            memory_mib: self.memory_mib,
            compute_capability: self.compute_capability@,
            driver_version: self.driver_version@,
        }
    }
}

/// The comma-separated fields of a row, each trimmed.
pub open spec fn row_fields(line: Seq<char>) -> Seq<Seq<char>> {
    split_on(line, ',').map_values(|f: Seq<char>| trim(f))
}

/// A row with exactly seven fields, a u32 index, a u64 memory size and a
/// non-empty uuid, model and (normalized) bus id; None for anything else.
pub open spec fn nvidia_row(line: Seq<char>) -> Option<NvidiaRowView> {
    let f = row_fields(line);
    if f.len() != 7 {
        None
    } else {
        match (parse_unsigned(f[0], u32::MAX as int), parse_unsigned(f[4], u64::MAX as int)) {
            (Some(index), Some(mib)) => {
                let pci = normalized_pci_bus_id(f[3]);
                if f[1].len() == 0 || f[2].len() == 0 || pci.len() == 0 {
                    None
                } else {
                    Some(NvidiaRowView {
                        index: index as u32,
                        uuid: f[1],
                        model: f[2],
                        pci_bus_id: pci,
                        memory_mib: mib as u64,
                        compute_capability: f[5],
                        driver_version: f[6],
                    })
                }
            },
            _ => None,
        }
    }
}

/// The complete rows among the lines, in order.
pub open spec fn nvidia_rows(ls: Seq<Seq<char>>) -> Seq<NvidiaRowView>
    decreases ls.len(),
{
    if ls.len() == 0 {
        Seq::empty()
    } else {
        let prev = nvidia_rows(ls.drop_last());
        match nvidia_row(ls.last()) {
            Some(r) => prev.push(r),
            None => prev,
        }
    }
}

/// How many lines hold anything but whitespace.
pub open spec fn nonblank_count(ls: Seq<Seq<char>>) -> nat
    decreases ls.len(),
{
    if ls.len() == 0 {
        0
    } else {
        nonblank_count(ls.drop_last()) + if trim(ls.last()).len() > 0 { 1nat } else { 0nat }
    }
}

fn nvidia_row_of(line: &[char]) -> (r: Option<NvidiaRow>)
    ensures
        match r {
            Some(row) => nvidia_row(line@) == Some(row.view()),
            None => nvidia_row(line@) is None,
        },
{
    let parts = split_chars(line, ',');
    let ghost pv = parts@.map_values(|p: Vec<char>| p@);
    let mut fields: Vec<Vec<char>> = Vec::new();
    let mut i: usize = 0;
    while i < parts.len()
        invariant
            i <= parts@.len(),
            pv == parts@.map_values(|p: Vec<char>| p@),
            fields@.map_values(|p: Vec<char>| p@) == pv.take(i as int).map_values(|f: Seq<char>| trim(f)),
        decreases parts@.len() - i,
    {
        let ghost before = fields@;
        let t = trim_chars(parts[i].as_slice());
        assert(t@ == trim(pv[i as int]));
        fields.push(t);
        assert(pv.take(i + 1) =~= pv.take(i as int).push(pv[i as int]));
        assert(fields@.map_values(|p: Vec<char>| p@) =~= before.map_values(|p: Vec<char>| p@).push(t@));
        i = i + 1;
        assert(fields@.map_values(|p: Vec<char>| p@) =~= pv.take(i as int).map_values(|f: Seq<char>| trim(f)));
    }
    assert(pv.take(parts@.len() as int) =~= pv);
    let ghost fv = fields@.map_values(|p: Vec<char>| p@);
    assert(fv == row_fields(line@));
    if fields.len() != 7 {
        return None;
    }
    assert(fv[0] == fields@[0]@ && fv[1] == fields@[1]@ && fv[2] == fields@[2]@ && fv[3] == fields@[3]@);
    assert(fv[4] == fields@[4]@ && fv[5] == fields@[5]@ && fv[6] == fields@[6]@);
    let index = match parse_unsigned_chars(fields[0].as_slice(), 0xffff_ffff) {
        Some(v) => v,
        None => return None,
    };
    let memory_mib = match parse_unsigned_chars(fields[4].as_slice(), 0xffff_ffff_ffff_ffff) {
        Some(v) => v,
        None => return None,
    };
    let pci = normalize_pci_bus_id(fields[3].as_slice());
    if fields[1].len() == 0 || fields[2].len() == 0 || pci.len() == 0 {
        return None;
    }
    let row = NvidiaRow {
        index: index as u32,
        uuid: string_of(fields[1].as_slice()),
        model: string_of(fields[2].as_slice()),
        pci_bus_id: string_of(pci.as_slice()),
        memory_mib,
        compute_capability: string_of(fields[5].as_slice()),
        driver_version: string_of(fields[6].as_slice()),
    };
    Some(row)
}

/// The complete rows of an nvidia-smi answer; malformed rows are skipped.
pub fn nvidia_rows_of(output: &str) -> (rows: Vec<NvidiaRow>)
    ensures
        rows@.map_values(|r: NvidiaRow| r.view()) == nvidia_rows(lines(output@)),
{
    let text = chars_of(output);
    let ls = lines_of(text.as_slice());
    let ghost lv = ls@.map_values(|p: Vec<char>| p@);
    let mut rows: Vec<NvidiaRow> = Vec::new();
    let mut i: usize = 0;
    while i < ls.len()
        invariant
            i <= ls@.len(),
            lv == ls@.map_values(|p: Vec<char>| p@),
            lv == lines(output@),
            rows@.map_values(|r: NvidiaRow| r.view()) == nvidia_rows(lv.take(i as int)),
        decreases ls@.len() - i,
    {
        assert(lv.take(i + 1).drop_last() =~= lv.take(i as int));
        assert(lv.take(i + 1).last() == ls@[i as int]@);
        if let Some(row) = nvidia_row_of(ls[i].as_slice()) {
            let ghost before = rows@;
            rows.push(row);
            assert(rows@.map_values(|r: NvidiaRow| r.view()) =~= before.map_values(|r: NvidiaRow| r.view()).push(row.view()));
        }
        i = i + 1;
    }
    assert(lv.take(ls@.len() as int) =~= lv);
    rows
}

/// The answer of an nvidia-smi query: a failed query is uncertainty, never
/// an empty inventory, and so is one with rows that do not parse.
pub open spec fn nvidia_query(success: bool, stdout: Seq<char>, stderr: Seq<char>) -> Result<Seq<NvidiaRowView>, Seq<char>> {
    if !success {
        let detail = if trim(stderr).len() == 0 { trim(stdout) } else { trim(stderr) };
        Err(if detail.len() == 0 {
            "nvidia-smi discovery failed"@
        } else {
            "nvidia-smi discovery failed: "@ + detail
        })
    } else {
        let rows = nonblank_count(lines(stdout));
        let devices = nvidia_rows(lines(stdout));
        if devices.len() != rows {
            Err("nvidia-smi returned an incomplete GPU inventory: parsed "@ + decimal(devices.len()) + " of "@
                + decimal(rows) + " rows"@)
        } else {
            Ok(devices)
        }
    }
}

/// Interpret one nvidia-smi run (see `nvidia_query`).
pub fn interpret_nvidia_query(success: bool, stdout: &str, stderr: &str) -> (r: Result<Vec<NvidiaRow>, String>)
    ensures
        match r {
            Ok(rows) => nvidia_query(success, stdout@, stderr@) == Ok::<Seq<NvidiaRowView>, Seq<char>>(rows@.map_values(|r: NvidiaRow| r.view())),
            Err(m) => nvidia_query(success, stdout@, stderr@) == Err::<Seq<NvidiaRowView>, Seq<char>>(m@),
        },
{
    let out = chars_of(stdout);
    if !success {
        let err = chars_of(stderr);
        let trimmed_err = trim_chars(err.as_slice());
        let detail = if trimmed_err.len() == 0 { trim_chars(out.as_slice()) } else { trimmed_err };
        if detail.len() == 0 {
            return Err(String::from_str("nvidia-smi discovery failed"));
        }
        return Err(String::from_str("nvidia-smi discovery failed: ").concat(string_of(detail.as_slice()).as_str()));
    }
    let ls = lines_of(out.as_slice());
    let ghost lv = ls@.map_values(|p: Vec<char>| p@);
    let mut count: usize = 0;
    let mut i: usize = 0;
    while i < ls.len()
        invariant
            i <= ls@.len(),
            lv == ls@.map_values(|p: Vec<char>| p@),
            count == nonblank_count(lv.take(i as int)),
            count <= i,
        decreases ls@.len() - i,
    {
        assert(lv.take(i + 1).drop_last() =~= lv.take(i as int));
        assert(lv.take(i + 1).last() == ls@[i as int]@);
        if trim_chars(ls[i].as_slice()).len() > 0 {
            count = count + 1;
        }
        i = i + 1;
    }
    assert(lv.take(ls@.len() as int) =~= lv);
    let rows = nvidia_rows_of(stdout);
    if rows.len() != count {
        let message = String::from_str("nvidia-smi returned an incomplete GPU inventory: parsed ")
            .concat(decimal_string(rows.len() as u64).as_str())
            .concat(" of ")
            .concat(decimal_string(count as u64).as_str())
            .concat(" rows");
        return Err(message);
    }
    Ok(rows)
}

/// Support devices a process needs beside `/dev/nvidiaN`, kept when present.
pub fn nvidia_support_paths() -> (paths: Vec<String>)
    ensures
        views_of(paths@) == seq!["/dev/nvidiactl"@, "/dev/nvidia-uvm"@, "/dev/nvidia-uvm-tools"@, "/dev/nvidia-modeset"@],
{
    let mut paths: Vec<String> = Vec::new();
    paths.push(String::from_str("/dev/nvidiactl"));
    paths.push(String::from_str("/dev/nvidia-uvm"));
    paths.push(String::from_str("/dev/nvidia-uvm-tools"));
    paths.push(String::from_str("/dev/nvidia-modeset"));
    assert(views_of(paths@) =~= seq!["/dev/nvidiactl"@, "/dev/nvidia-uvm"@, "/dev/nvidia-uvm-tools"@, "/dev/nvidia-modeset"@]);
    paths
}

pub open spec fn views_of(v: Seq<String>) -> Seq<Seq<char>> {
    v.map_values(|s: String| s@)
}

/// The attributes an NVIDIA GPU is registered with, on top of the PCI
/// locality facts `pci` found in sysfs.
pub open spec fn nvidia_attrs(row: NvidiaRowView, pci: Map<Seq<char>, Seq<char>>) -> Map<Seq<char>, Seq<char>> {
    let base = pci.insert("provider"@, "nvidia"@).insert("vendor"@, "nvidia"@).insert("model"@, row.model).insert(
        "uuid"@,
        row.uuid,
    ).insert("pci_bus_id"@, row.pci_bus_id).insert("memory_bytes"@, decimal((row.memory_mib * 1048576) as nat)).insert(
        "compute_capability"@,
        row.compute_capability,
    );
    let with_driver = if row.driver_version.len() > 0 {
        base.insert("driver_version"@, row.driver_version)
    } else {
        base
    };
    with_driver.insert("whole_device"@, "true"@).insert("enforcement"@, "linux-cgroup-device,oci-device"@).insert(
        "cdi"@,
        "nvidia.com/gpu="@ + row.uuid,
    )
}

/// The device spec of one NVIDIA GPU row: its uuid is the stable id and
/// `/dev/nvidia<index>` its primary node; `access` lists the support paths
/// present on the host and `pci` the row's PCI locality attributes.
pub fn nvidia_device(row: &NvidiaRow, access: Vec<String>, pci: Attrs) -> (device: DeviceSpec)
    requires
        pci.wf(),
        row.memory_mib <= u64::MAX / 1048576,
    ensures
        device.kind == ResourceClass::Gpu,
        device.id@ == row.uuid@,
        device.dev@ == "/dev/nvidia"@ + decimal(row.index as nat),
        device.host_parent is None,
        device.access@ == access@,
        device.attrs.wf(),
        device.attrs.view() == nvidia_attrs(row.view(), pci.view()),
{
    let mut attrs = pci;
    attrs.insert(String::from_str("provider"), String::from_str("nvidia"));
    attrs.insert(String::from_str("vendor"), String::from_str("nvidia"));
    attrs.insert(String::from_str("model"), row.model.clone());
    attrs.insert(String::from_str("uuid"), row.uuid.clone());
    attrs.insert(String::from_str("pci_bus_id"), row.pci_bus_id.clone());
    attrs.insert(String::from_str("memory_bytes"), decimal_string(row.memory_mib * 1048576));
    attrs.insert(String::from_str("compute_capability"), row.compute_capability.clone());
    if !row.driver_version.as_str().is_empty() {
        attrs.insert(String::from_str("driver_version"), row.driver_version.clone());
    }
    attrs.insert(String::from_str("whole_device"), String::from_str("true"));
    attrs.insert(String::from_str("enforcement"), String::from_str("linux-cgroup-device,oci-device"));
    attrs.insert(String::from_str("cdi"), String::from_str("nvidia.com/gpu=").concat(row.uuid.as_str()));
    DeviceSpec {
        kind: ResourceClass::Gpu,
        id: row.uuid.clone(),
        dev: String::from_str("/dev/nvidia").concat(decimal_string(row.index as u64).as_str()),
        host_parent: None,
        access,
        attrs,
    }
}


// ---------------------------------------------------------------------------
// Validating a machine description before it becomes authoritative.

/// Attribute naming a node's provider-local host id.
pub const HOST_ID_ATTR: &'static str = "archon.host-id";
/// Attribute naming a device's declared host parent.
pub const DEVICE_HOST_PARENT_ATTR: &'static str = "archon.host-parent";

pub struct HostView {
    pub id: Seq<char>,
    pub kind: ResourceClass,
    pub parent: Option<Seq<char>>,
    pub attrs: Map<Seq<char>, Seq<char>>,
    pub capacity: Quantity,
}

pub struct DeviceView {
    pub kind: ResourceClass,
    pub id: Seq<char>,
    pub dev: Seq<char>,
    pub host_parent: Option<Seq<char>>,
    pub access: Seq<Seq<char>>,
    pub attrs: Map<Seq<char>, Seq<char>>,
}

pub open spec fn opt_view(o: Option<String>) -> Option<Seq<char>> {
    match o {
        Some(s) => Some(s@),
        None => None,
    }
}

impl HostNodeSpec {
    pub open spec fn view(self) -> HostView {
        HostView { id: self.id@, kind: self.kind, parent: opt_view(self.parent), attrs: self.attrs.view(), capacity: self.capacity }
    }

    pub open spec fn wf(self) -> bool {
        self.attrs.wf()
    }
}

impl DeviceSpec {
    pub open spec fn view(self) -> DeviceView {
        DeviceView {
            kind: self.kind,
            id: self.id@,
            dev: self.dev@,
            host_parent: opt_view(self.host_parent),
            access: views_of(self.access@),
            attrs: self.attrs.view(),
        }
    }

    pub open spec fn wf(self) -> bool {
        self.attrs.wf()
    }
}

impl MachineDescription {
    pub open spec fn hosts(self) -> Seq<HostView> {
        self.host_nodes@.map_values(|h: HostNodeSpec| h.view())
    }

    pub open spec fn device_views(self) -> Seq<DeviceView> {
        self.devices@.map_values(|d: DeviceSpec| d.view())
    }

    /// Every attribute map is well formed.
    pub open spec fn wf(self) -> bool {
        &&& forall|i: int| 0 <= i < self.host_nodes@.len() ==> (#[trigger] self.host_nodes@[i]).wf()
        &&& forall|i: int| 0 <= i < self.devices@.len() ==> (#[trigger] self.devices@[i]).wf()
    }
}

pub open spec fn reserved(attrs: Map<Seq<char>, Seq<char>>) -> bool {
    attrs.contains_key("archon.host-id"@) || attrs.contains_key("archon.host-parent"@)
}

pub open spec fn host_ids(hs: Seq<HostView>) -> Seq<Seq<char>> {
    hs.map_values(|h: HostView| h.id)
}

/// Per-node checks of the host inventory in order, with the running totals
/// (logical CPUs, memory bytes, memory nodes) of the nodes that passed.
pub open spec fn host_totals(hs: Seq<HostView>) -> Result<(nat, nat, nat), Seq<char>>
    decreases hs.len(),
{
    if hs.len() == 0 {
        Ok((0, 0, 0))
    } else {
        match host_totals(hs.drop_last()) {
            Err(e) => Err(e),
            Ok((c, m, n)) => {
                let h = hs.last();
                let q = debug_quoted(h.id);
                if trim(h.id).len() == 0 {
                    Err("host node id must be non-empty"@)
                } else if reserved(h.attrs) {
                    Err("host node "@ + q + " uses a reserved Archon attribute"@)
                } else if host_ids(hs.drop_last()).contains(h.id) {
                    Err("duplicate host node id "@ + q)
                } else {
                    match h.kind {
                        ResourceClass::Socket | ResourceClass::Numa | ResourceClass::PcieRoot => {
                            if !h.capacity.empty() {
                                Err("structural host node "@ + q + " must not advertise claimable capacity"@)
                            } else {
                                Ok((c, m, n))
                            }
                        },
                        ResourceClass::Cpu => {
                            if h.capacity != spec_qty(CapacityDimension::Count, 1) {
                                Err("logical CPU "@ + q
                                    + " must advertise exactly count=1 under the exclusive v0 binding model"@)
                            } else {
                                Ok((c + 1, m, n))
                            }
                        },
                        ResourceClass::Memory => {
                            if h.capacity.count is Some {
                                Err("memory resource "@ + q + " must advertise only byte capacity"@)
                            } else if m + h.capacity.amount(CapacityDimension::Bytes) > u64::MAX {
                                Err("host memory total overflows"@)
                            } else {
                                Ok((c, (m + h.capacity.amount(CapacityDimension::Bytes)) as nat, n + 1))
                            }
                        },
                        other => Err("resource class "@ + other.display_name() + " is not valid in the host inventory"@),
                    }
                }
            },
        }
    }
}

/// The host node with this id (the first, should ids repeat).
pub open spec fn find_host(hs: Seq<HostView>, id: Seq<char>) -> Option<HostView>
    decreases hs.len(),
{
    if hs.len() == 0 {
        None
    } else if hs[0].id == id {
        Some(hs[0])
    } else {
        find_host(hs.drop_first(), id)
    }
}

pub open spec fn parent_of(hs: Seq<HostView>, id: Seq<char>) -> Option<Seq<char>> {
    match find_host(hs, id) {
        Some(h) => h.parent,
        None => None,
    }
}

/// Follow parent links from `cur`; the first id met twice, if any.
pub open spec fn walk(hs: Seq<HostView>, cur: Option<Seq<char>>, seen: Seq<Seq<char>>, fuel: nat) -> Option<Seq<char>>
    decreases fuel,
{
    if fuel == 0 {
        None
    } else {
        match cur {
            None => None,
            Some(x) => if seen.contains(x) {
                Some(x)
            } else {
                walk(hs, parent_of(hs, x), seen.push(x), (fuel - 1) as nat)
            },
        }
    }
}

pub open spec fn is_claimable_leaf(kind: ResourceClass) -> bool {
    kind == ResourceClass::Cpu || kind == ResourceClass::Memory
}

/// Why node `h`'s containment is unacceptable: an unknown parent, a
/// claimable leaf as parent, or a cycle on its way to the machine.
pub open spec fn containment_error(hs: Seq<HostView>, h: HostView) -> Option<Seq<char>> {
    let cycle = match walk(hs, Some(h.id), Seq::empty(), (hs.len() + 1) as nat) {
        Some(x) => Some("host containment cycle through "@ + debug_quoted(x)),
        None => None,
    };
    match h.parent {
        Some(p) => match find_host(hs, p) {
            None => Some("host node "@ + debug_quoted(h.id) + " references unknown parent "@ + debug_quoted(p)),
            Some(ph) => if is_claimable_leaf(ph.kind) {
                Some("host node "@ + debug_quoted(h.id) + " cannot be contained by claimable leaf "@ + debug_quoted(p))
            } else {
                cycle
            },
        },
        None => cycle,
    }
}

/// The first containment refusal among `checked` (nodes of `hs`).
pub open spec fn containment_errors(hs: Seq<HostView>, checked: Seq<HostView>) -> Result<(), Seq<char>>
    decreases checked.len(),
{
    if checked.len() == 0 {
        Ok(())
    } else {
        match containment_errors(hs, checked.drop_last()) {
            Err(e) => Err(e),
            Ok(()) => match containment_error(hs, checked.last()) {
                Some(e) => Err(e),
                None => Ok(()),
            },
        }
    }
}

pub open spec fn device_ids(ds: Seq<DeviceView>) -> Seq<Seq<char>> {
    ds.map_values(|d: DeviceView| d.id)
}

/// The first refusal among the devices, in order.
pub open spec fn device_errors(hs: Seq<HostView>, ds: Seq<DeviceView>) -> Result<(), Seq<char>>
    decreases ds.len(),
{
    if ds.len() == 0 {
        Ok(())
    } else {
        match device_errors(hs, ds.drop_last()) {
            Err(e) => Err(e),
            Ok(()) => {
                let d = ds.last();
                let q = debug_quoted(d.id);
                if trim(d.id).len() == 0 || trim(d.dev).len() == 0 {
                    Err("device stable id and path must be non-empty"@)
                } else if !d.kind.is_device_class() {
                    Err("resource class "@ + d.kind.debug_name() + " is not valid in a device inventory"@)
                } else if device_ids(ds.drop_last()).contains(d.id) {
                    Err("provider reported duplicate stable device id "@ + q)
                } else if reserved(d.attrs) {
                    Err("device "@ + q + " uses a reserved Archon attribute"@)
                } else {
                    match d.host_parent {
                        Some(p) => match find_host(hs, p) {
                            None => Err("device "@ + q + " references unknown host parent "@ + debug_quoted(p)),
                            Some(ph) => if is_claimable_leaf(ph.kind) {
                                Err("device "@ + q + " cannot be contained by claimable host leaf "@ + debug_quoted(p))
                            } else {
                                Ok(())
                            },
                        },
                        None => Ok(()),
                    }
                }
            },
        }
    }
}

/// A normalized host inventory must agree with the machine summary.
pub open spec fn summary_error(hs: Seq<HostView>, cpus: u64, memory_bytes: u64, c: nat, m: nat, n: nat) -> Option<Seq<char>> {
    if hs.len() == 0 {
        None
    } else if c != cpus {
        Some("host inventory reports "@ + decimal(c) + " logical CPUs but machine summary reports "@ + decimal(cpus as nat))
    } else if n == 0 || m != memory_bytes {
        Some("host inventory reports "@ + decimal(m) + " memory bytes across "@ + decimal(n) + " nodes but machine summary reports "@
            + decimal(memory_bytes as nat))
    } else {
        None
    }
}

/// Why a machine description cannot become authoritative, if it cannot:
/// host nodes first, then containment, then the summary, then devices.
pub open spec fn description_error(d: MachineDescription) -> Result<(), Seq<char>> {
    let hs = d.hosts();
    match host_totals(hs) {
        Err(e) => Err(e),
        Ok((c, m, n)) => match containment_errors(hs, hs) {
            Err(e) => Err(e),
            Ok(()) => match summary_error(hs, d.cpus, d.memory_bytes, c, m, n) {
                Some(e) => Err(e),
                None => device_errors(hs, d.device_views()),
            },
        },
    }
}


/// The index of the first host node with id `id`.
fn host_index(hosts: &Vec<HostNodeSpec>, id: &[char]) -> (r: Option<usize>)
    ensures
        match r {
            Some(j) => j < hosts@.len() && hosts@[j as int].id@ == id@
                && find_host(hosts@.map_values(|h: HostNodeSpec| h.view()), id@) == Some(hosts@[j as int].view()),
            None => find_host(hosts@.map_values(|h: HostNodeSpec| h.view()), id@) is None,
        },
{
    let ghost hv = hosts@.map_values(|h: HostNodeSpec| h.view());
    let mut j: usize = 0;
    assert(hv.skip(0) =~= hv);
    while j < hosts.len()
        invariant
            j <= hosts@.len(),
            hv == hosts@.map_values(|h: HostNodeSpec| h.view()),
            find_host(hv, id@) == find_host(hv.skip(j as int), id@),
        decreases hosts@.len() - j,
    {
        let k = chars_of(hosts[j].id.as_str());
        assert(hv.skip(j as int)[0] == hosts@[j as int].view());
        assert(hv.skip(j as int).drop_first() =~= hv.skip(j + 1));
        if crate::text::chars_eq(k.as_slice(), id) {
            return Some(j);
        }
        j = j + 1;
    }
    assert(hv.skip(j as int).len() == 0);
    None
}

/// Whether an earlier host node (index below `upto`) has id `id`.
fn id_before(hosts: &Vec<HostNodeSpec>, upto: usize, id: &[char]) -> (r: bool)
    requires
        upto <= hosts@.len(),
    ensures
        r == host_ids(hosts@.map_values(|h: HostNodeSpec| h.view()).take(upto as int)).contains(id@),
{
    let ghost ids = host_ids(hosts@.map_values(|h: HostNodeSpec| h.view()).take(upto as int));
    let mut j: usize = 0;
    while j < upto
        invariant
            j <= upto <= hosts@.len(),
            ids == host_ids(hosts@.map_values(|h: HostNodeSpec| h.view()).take(upto as int)),
            forall|k: int| 0 <= k < j ==> ids[k] != id@,
        decreases upto - j,
    {
        let k = chars_of(hosts[j].id.as_str());
        assert(ids[j as int] == hosts@[j as int].id@);
        if crate::text::chars_eq(k.as_slice(), id) {
            return true;
        }
        j = j + 1;
    }
    false
}

/// Distinct ids, all among the host ids, are no more than the host nodes.
proof fn lemma_distinct_ids_bounded(seen: Seq<Seq<char>>, hs: Seq<HostView>)
    requires
        seen.no_duplicates(),
        forall|i: int| 0 <= i < seen.len() ==> host_ids(hs).contains(#[trigger] seen[i]),
    ensures
        seen.len() <= hs.len(),
{
    seen.unique_seq_to_set();
    host_ids(hs).lemma_cardinality_of_set();
    vstd::seq_lib::seq_to_set_is_finite(host_ids(hs));
    assert(seen.to_set().subset_of(host_ids(hs).to_set()));
    vstd::set_lib::lemma_len_subset(seen.to_set(), host_ids(hs).to_set());
}

proof fn lemma_find_host_is_id(hs: Seq<HostView>, id: Seq<char>)
    requires
        find_host(hs, id) is Some,
    ensures
        host_ids(hs).contains(id),
        find_host(hs, id)->0.id == id,
    decreases hs.len(),
{
    if hs[0].id != id {
        lemma_find_host_is_id(hs.drop_first(), id);
        let k = choose|k: int| 0 <= k < host_ids(hs.drop_first()).len() && host_ids(hs.drop_first())[k] == id;
        assert(host_ids(hs)[k + 1] == id);
    } else {
        assert(host_ids(hs)[0] == id);
    }
}

/// The cycle the parent walk from `start` runs into, if any.
fn containment_cycle(hosts: &Vec<HostNodeSpec>, start: &[char]) -> (r: Option<Vec<char>>)
    ensures
        match r {
            Some(x) => walk(hosts@.map_values(|h: HostNodeSpec| h.view()), Some(start@), Seq::empty(), (hosts@.len() + 1) as nat) == Some(x@),
            None => walk(hosts@.map_values(|h: HostNodeSpec| h.view()), Some(start@), Seq::empty(), (hosts@.len() + 1) as nat) is None,
        },
{
    let ghost hv = hosts@.map_values(|h: HostNodeSpec| h.view());
    let ghost total = walk(hv, Some(start@), Seq::empty(), (hosts@.len() + 1) as nat);
    let n = hosts.len();
    let mut seen: Vec<Vec<char>> = Vec::new();
    let mut cur: Option<Vec<char>> = Some(slice_range(start, 0, start.len()));
    assert(cur->0@ =~= start@);
    assert(char_views(seen@) =~= Seq::<Seq<char>>::empty());
    loop
        invariant
            n == hosts@.len(),
            hv == hosts@.map_values(|h: HostNodeSpec| h.view()),
            seen@.len() <= n + 1,
            total == walk(hv, Some(start@), Seq::empty(), (n + 1) as nat),
            total == walk(hv, opt_chars(cur), char_views(seen@), (n + 1 - seen@.len()) as nat),
            char_views(seen@).no_duplicates(),
            cur is Some ==> forall|i: int| 0 <= i < seen@.len() ==> host_ids(hv).contains(#[trigger] char_views(seen@)[i]),
        decreases n + 1 - seen@.len(),
    {
        let ghost sv = char_views(seen@);
        match cur {
            None => {
                return None;
            },
            Some(x) => {
                proof {
                    lemma_distinct_ids_bounded(sv, hv);
                }
                if crate::text::contains_chars(&seen, x.as_slice()) {
                    return Some(x);
                }
                let next = match host_index(hosts, x.as_slice()) {
                    Some(j) => {
                        proof {
                            lemma_find_host_is_id(hv, x@);
                        }
                        match &hosts[j].parent {
                            Some(p) => Some(chars_of(p.as_str())),
                            None => None,
                        }
                    },
                    None => None,
                };
                assert(opt_chars(next) == parent_of(hv, x@));
                seen.push(x);
                proof {
                    let sv2 = char_views(seen@);
                    assert(sv2 =~= sv.push(x@));
                    assert forall|a: int, b: int| 0 <= a < b < sv2.len() implies sv2[a] != sv2[b] by {
                        if b == sv2.len() - 1 {
                            assert(sv2[a] == sv[a]);
                        } else {
                            assert(sv2[a] == sv[a] && sv2[b] == sv[b]);
                        }
                    }
                    if next is Some {
                        assert forall|i: int| 0 <= i < sv2.len() implies host_ids(hv).contains(#[trigger] sv2[i]) by {
                            if i < sv.len() {
                                assert(sv2[i] == sv[i]);
                            }
                        }
                    }
                }
                cur = next;
            },
        }
    }
}

pub open spec fn opt_chars(o: Option<Vec<char>>) -> Option<Seq<char>> {
    match o {
        Some(v) => Some(v@),
        None => None,
    }
}


fn quoted(id: &String) -> (q: String)
    ensures
        q@ == debug_quoted(id@),
{
    crate::text::debug_str(id.as_str())
}

/// Per-node checks and totals of the host inventory (see `host_totals`).
fn host_inventory_totals(hosts: &Vec<HostNodeSpec>) -> (r: Result<(u64, u64, u64), String>)
    requires
        forall|i: int| 0 <= i < hosts@.len() ==> (#[trigger] hosts@[i]).wf(),
    ensures
        match r {
            Ok((c, m, n)) => host_totals(hosts@.map_values(|h: HostNodeSpec| h.view())) == Ok::<(nat, nat, nat), Seq<char>>((c as nat, m as nat, n as nat)),
            Err(e) => host_totals(hosts@.map_values(|h: HostNodeSpec| h.view())) == Err::<(nat, nat, nat), Seq<char>>(e@),
        },
{
    let ghost hv = hosts@.map_values(|h: HostNodeSpec| h.view());
    let mut cpus: u64 = 0;
    let mut memory: u64 = 0;
    let mut memory_nodes: u64 = 0;
    let mut i: usize = 0;
    while i < hosts.len()
        invariant
            i <= hosts@.len(),
            hv == hosts@.map_values(|h: HostNodeSpec| h.view()),
            forall|j: int| 0 <= j < hosts@.len() ==> (#[trigger] hosts@[j]).wf(),
            host_totals(hv.take(i as int)) == Ok::<(nat, nat, nat), Seq<char>>((cpus as nat, memory as nat, memory_nodes as nat)),
            cpus <= i,
            memory_nodes <= i,
        decreases hosts@.len() - i,
    {
        let ghost prefix = hv.take(i + 1);
        assert(prefix.drop_last() =~= hv.take(i as int));
        assert(prefix.last() == hosts@[i as int].view());
        let h = &hosts[i];
        let id = chars_of(h.id.as_str());
        let ghost f = |p: Seq<HostView>| host_totals(p);
        let err: Option<String> = if trim_chars(id.as_slice()).len() == 0 {
            Some(String::from_str("host node id must be non-empty"))
        } else if h.attrs.contains_key("archon.host-id") || h.attrs.contains_key("archon.host-parent") {
            Some(String::from_str("host node ").concat(quoted(&h.id).as_str()).concat(" uses a reserved Archon attribute"))
        } else if id_before(hosts, i, id.as_slice()) {
            assert(host_ids(hv.take(i as int)) == host_ids(prefix.drop_last()));
            Some(String::from_str("duplicate host node id ").concat(quoted(&h.id).as_str()))
        } else {
            assert(host_ids(hv.take(i as int)) == host_ids(prefix.drop_last()));
            match h.kind {
                ResourceClass::Socket | ResourceClass::Numa | ResourceClass::PcieRoot => {
                    if !h.capacity.is_empty() {
                        Some(String::from_str("structural host node ").concat(quoted(&h.id).as_str()).concat(
                            " must not advertise claimable capacity",
                        ))
                    } else {
                        None
                    }
                },
                ResourceClass::Cpu => {
                    let one = qty(CapacityDimension::Count, 1);
                    if h.capacity != one {
                        Some(String::from_str("logical CPU ").concat(quoted(&h.id).as_str()).concat(
                            " must advertise exactly count=1 under the exclusive v0 binding model",
                        ))
                    } else {
                        cpus = cpus + 1;
                        None
                    }
                },
                ResourceClass::Memory => {
                    if h.capacity.count.is_some() {
                        Some(String::from_str("memory resource ").concat(quoted(&h.id).as_str()).concat(
                            " must advertise only byte capacity",
                        ))
                    } else {
                        match memory.checked_add(h.capacity.get(CapacityDimension::Bytes)) {
                            Some(total) => {
                                memory = total;
                                memory_nodes = memory_nodes + 1;
                                None
                            },
                            None => Some(String::from_str("host memory total overflows")),
                        }
                    }
                },
                other => Some(String::from_str("resource class ").concat(other.display_string().as_str()).concat(
                    " is not valid in the host inventory",
                )),
            }
        };
        if let Some(e) = err {
            proof {
                lemma_first_error_sticks(f, hv, i + 1);
            }
            return Err(e);
        }
        i = i + 1;
    }
    assert(hv.take(hosts@.len() as int) =~= hv);
    Ok((cpus, memory, memory_nodes))
}

/// The first containment refusal among all host nodes.
fn host_containment(hosts: &Vec<HostNodeSpec>) -> (r: Result<(), String>)
    ensures
        match r {
            Ok(()) => containment_errors(hosts@.map_values(|h: HostNodeSpec| h.view()), hosts@.map_values(|h: HostNodeSpec| h.view())) == Ok::<(), Seq<char>>(()),
            Err(e) => containment_errors(hosts@.map_values(|h: HostNodeSpec| h.view()), hosts@.map_values(|h: HostNodeSpec| h.view())) == Err::<(), Seq<char>>(e@),
        },
{
    let ghost hv = hosts@.map_values(|h: HostNodeSpec| h.view());
    let mut i: usize = 0;
    while i < hosts.len()
        invariant
            i <= hosts@.len(),
            hv == hosts@.map_values(|h: HostNodeSpec| h.view()),
            containment_errors(hv, hv.take(i as int)) == Ok::<(), Seq<char>>(()),
        decreases hosts@.len() - i,
    {
        let ghost prefix = hv.take(i + 1);
        assert(prefix.drop_last() =~= hv.take(i as int));
        assert(prefix.last() == hosts@[i as int].view());
        let ghost f = |p: Seq<HostView>| containment_errors(hv, p);
        let h = &hosts[i];
        let id = chars_of(h.id.as_str());
        let mut err: Option<String> = None;
        let mut walk_needed = true;
        if let Some(parent) = &h.parent {
            let p = chars_of(parent.as_str());
            match host_index(hosts, p.as_slice()) {
                None => {
                    err = Some(String::from_str("host node ").concat(quoted(&h.id).as_str()).concat(" references unknown parent ").concat(quoted(parent).as_str()));
                    walk_needed = false;
                },
                Some(j) => {
                    if matches!(hosts[j].kind, ResourceClass::Cpu | ResourceClass::Memory) {
                        err = Some(String::from_str("host node ").concat(quoted(&h.id).as_str()).concat(" cannot be contained by claimable leaf ").concat(quoted(parent).as_str()));
                        walk_needed = false;
                    }
                },
            }
        }
        if walk_needed {
            if let Some(x) = containment_cycle(hosts, id.as_slice()) {
                err = Some(String::from_str("host containment cycle through ").concat(debug_chars(x.as_slice()).as_str()));
            }
        }
        if let Some(e) = err {
            assert(containment_error(hv, hosts@[i as int].view()) == Some(e@));
            proof {
                lemma_first_error_sticks(f, hv, i + 1);
            }
            return Err(e);
        }
        assert(containment_error(hv, hosts@[i as int].view()) is None);
        i = i + 1;
    }
    assert(hv.take(hosts@.len() as int) =~= hv);
    Ok(())
}


/// Whether an earlier device (index below `upto`) has id `id`.
fn device_id_before(devices: &Vec<DeviceSpec>, upto: usize, id: &[char]) -> (r: bool)
    requires
        upto <= devices@.len(),
    ensures
        r == device_ids(devices@.map_values(|d: DeviceSpec| d.view()).take(upto as int)).contains(id@),
{
    let ghost ids = device_ids(devices@.map_values(|d: DeviceSpec| d.view()).take(upto as int));
    let mut j: usize = 0;
    while j < upto
        invariant
            j <= upto <= devices@.len(),
            ids == device_ids(devices@.map_values(|d: DeviceSpec| d.view()).take(upto as int)),
            forall|k: int| 0 <= k < j ==> ids[k] != id@,
        decreases upto - j,
    {
        let k = chars_of(devices[j].id.as_str());
        assert(ids[j as int] == devices@[j as int].id@);
        if crate::text::chars_eq(k.as_slice(), id) {
            return true;
        }
        j = j + 1;
    }
    false
}

/// The first refusal among the devices (see `device_errors`).
fn device_inventory(hosts: &Vec<HostNodeSpec>, devices: &Vec<DeviceSpec>) -> (r: Result<(), String>)
    requires
        forall|i: int| 0 <= i < devices@.len() ==> (#[trigger] devices@[i]).wf(),
    ensures
        match r {
            Ok(()) => device_errors(hosts@.map_values(|h: HostNodeSpec| h.view()), devices@.map_values(|d: DeviceSpec| d.view())) == Ok::<(), Seq<char>>(()),
            Err(e) => device_errors(hosts@.map_values(|h: HostNodeSpec| h.view()), devices@.map_values(|d: DeviceSpec| d.view())) == Err::<(), Seq<char>>(e@),
        },
{
    let ghost hv = hosts@.map_values(|h: HostNodeSpec| h.view());
    let ghost dv = devices@.map_values(|d: DeviceSpec| d.view());
    let mut i: usize = 0;
    while i < devices.len()
        invariant
            i <= devices@.len(),
            hv == hosts@.map_values(|h: HostNodeSpec| h.view()),
            dv == devices@.map_values(|d: DeviceSpec| d.view()),
            forall|j: int| 0 <= j < devices@.len() ==> (#[trigger] devices@[j]).wf(),
            device_errors(hv, dv.take(i as int)) == Ok::<(), Seq<char>>(()),
        decreases devices@.len() - i,
    {
        let ghost prefix = dv.take(i + 1);
        assert(prefix.drop_last() =~= dv.take(i as int));
        assert(prefix.last() == devices@[i as int].view());
        let ghost f = |p: Seq<DeviceView>| device_errors(hv, p);
        let d = &devices[i];
        let id = chars_of(d.id.as_str());
        let dev = chars_of(d.dev.as_str());
        let err: Option<String> = if trim_chars(id.as_slice()).len() == 0 || trim_chars(dev.as_slice()).len() == 0 {
            Some(String::from_str("device stable id and path must be non-empty"))
        } else if !d.kind.is_device() {
            Some(String::from_str("resource class ").concat(d.kind.debug_string().as_str()).concat(" is not valid in a device inventory"))
        } else if device_id_before(devices, i, id.as_slice()) {
            assert(device_ids(dv.take(i as int)) == device_ids(prefix.drop_last()));
            Some(String::from_str("provider reported duplicate stable device id ").concat(quoted(&d.id).as_str()))
        } else {
            assert(device_ids(dv.take(i as int)) == device_ids(prefix.drop_last()));
            if d.attrs.contains_key("archon.host-id") || d.attrs.contains_key("archon.host-parent") {
                Some(String::from_str("device ").concat(quoted(&d.id).as_str()).concat(" uses a reserved Archon attribute"))
            } else {
                match &d.host_parent {
                    Some(parent) => {
                        let p = chars_of(parent.as_str());
                        match host_index(hosts, p.as_slice()) {
                            None => Some(String::from_str("device ").concat(quoted(&d.id).as_str()).concat(" references unknown host parent ").concat(quoted(parent).as_str())),
                            Some(j) => {
                                if matches!(hosts[j].kind, ResourceClass::Cpu | ResourceClass::Memory) {
                                    Some(String::from_str("device ").concat(quoted(&d.id).as_str()).concat(" cannot be contained by claimable host leaf ").concat(quoted(parent).as_str()))
                                } else {
                                    None
                                }
                            },
                        }
                    },
                    None => None,
                }
            }
        };
        if let Some(e) = err {
            proof {
                lemma_first_error_sticks(f, dv, i + 1);
            }
            return Err(e);
        }
        i = i + 1;
    }
    assert(dv.take(devices@.len() as int) =~= dv);
    Ok(())
}

/// Validate the complete provider-normalized machine inventory before it
/// can become authoritative graph state (see `description_error`).
pub fn validate_machine_description(description: &MachineDescription) -> (r: Result<(), String>)
    requires
        description.wf(),
    ensures
        match r {
            Ok(()) => description_error(*description) == Ok::<(), Seq<char>>(()),
            Err(e) => description_error(*description) == Err::<(), Seq<char>>(e@),
        },
{
    let (cpus, memory, memory_nodes) = host_inventory_totals(&description.host_nodes)?;
    host_containment(&description.host_nodes)?;
    if description.host_nodes.len() > 0 {
        if cpus != description.cpus {
            return Err(String::from_str("host inventory reports ").concat(decimal_string(cpus).as_str()).concat(
                " logical CPUs but machine summary reports ",
            ).concat(decimal_string(description.cpus).as_str()));
        }
        if memory_nodes == 0 || memory != description.memory_bytes {
            return Err(String::from_str("host inventory reports ").concat(decimal_string(memory).as_str()).concat(
                " memory bytes across ",
            ).concat(decimal_string(memory_nodes).as_str()).concat(" nodes but machine summary reports ").concat(
                decimal_string(description.memory_bytes).as_str(),
            ));
        }
    }
    device_inventory(&description.host_nodes, &description.devices)
}

/// The logical CPUs of a host inventory: its CPU nodes.
pub open spec fn host_cpu_nodes(hs: Seq<HostView>) -> nat
    decreases hs.len(),
{
    if hs.len() == 0 {
        0
    } else {
        let one: nat = if hs.last().kind == ResourceClass::Cpu { 1 } else { 0 };
        host_cpu_nodes(hs.drop_last()) + one
    }
}

/// The memory of a host inventory: the byte capacities of its memory nodes.
pub open spec fn host_memory_sum(hs: Seq<HostView>) -> nat
    decreases hs.len(),
{
    if hs.len() == 0 {
        0
    } else {
        let bytes: nat = if hs.last().kind == ResourceClass::Memory {
            hs.last().capacity.amount(CapacityDimension::Bytes) as nat
        } else {
            0
        };
        host_memory_sum(hs.drop_last()) + bytes
    }
}

/// The memory nodes of a host inventory.
pub open spec fn host_memory_nodes(hs: Seq<HostView>) -> nat
    decreases hs.len(),
{
    if hs.len() == 0 {
        0
    } else {
        let one: nat = if hs.last().kind == ResourceClass::Memory { 1 } else { 0 };
        host_memory_nodes(hs.drop_last()) + one
    }
}

proof fn lemma_host_totals_count(hs: Seq<HostView>)
    requires
        host_totals(hs) is Ok,
    ensures
        host_totals(hs) == Ok::<(nat, nat, nat), Seq<char>>((host_cpu_nodes(hs), host_memory_sum(hs), host_memory_nodes(hs))),
    decreases hs.len(),
{
    if hs.len() > 0 {
        lemma_host_totals_count(hs.drop_last());
    }
}

/// A validated host inventory agrees with the machine summary: its CPU
/// nodes are the machine's CPUs, it has memory nodes, and their byte
/// capacities add up to the machine's memory.
pub proof fn lemma_validated_inventory_matches_summary(d: MachineDescription)
    requires
        description_error(d) is Ok,
        d.hosts().len() > 0,
    ensures
        host_cpu_nodes(d.hosts()) == d.cpus,
        host_memory_sum(d.hosts()) == d.memory_bytes,
        host_memory_nodes(d.hosts()) > 0,
{
    lemma_host_totals_count(d.hosts());
}

/// A declared kind names a device class by its name: the class a kind
/// yields is a device class written exactly as that kind, and every device
/// class's name yields it.
pub proof fn lemma_device_kind_names_class(kind: Seq<char>, class: ResourceClass)
    ensures
        device_kind(kind) == Some(class) <==> (class.is_device_class() && kind == class.display_name()),
{
    reveal_strlit("gpu");
    reveal_strlit("nic");
    reveal_strlit("nvme");
    assert("gpu"@ != "nic"@) by {
        assert("gpu"@[0] != "nic"@[0]);
    }
    assert("gpu"@ != "nvme"@) by {
        assert("gpu"@.len() != "nvme"@.len());
    }
    assert("nic"@ != "nvme"@) by {
        assert("nic"@.len() != "nvme"@.len());
    }
    if device_kind(kind) == Some(class) {
        assert(class.is_device_class() && kind == class.display_name());
    }
    if class.is_device_class() && kind == class.display_name() {
        assert(device_kind(kind) == Some(class));
    }
}

/// A well-formed declaration yields the device class its trimmed,
/// lower-cased kind names, the trimmed id and the path as written.
pub proof fn lemma_declared_entry_class(entry: Seq<char>)
    requires
        declared_entry(entry) is Some,
    ensures
        entry_fields(entry) matches Ok((kind, id, dev)) && ({
            let (class, did, ddev) = declared_entry(entry)->0;
            &&& class.is_device_class()
            &&& class.display_name() == ascii_lower(trim(kind))
            &&& did == trim(id)
            &&& ddev == dev
        }),
{
    let (kind, id, dev) = entry_fields(entry)->Ok_0;
    lemma_device_kind_names_class(ascii_lower(trim(kind)), (declared_entry(entry)->0).0);
}

} // verus!
