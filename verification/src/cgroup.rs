//! Linux cgroup v2 enforcement plans: a lease's claims become kernel limits.
//! One cgroup per lease under an Archon root; CPU and memory claims map to
//! `cpu.max` and `memory.max` (with swap forbidden), and only the controllers
//! a lease needs are enabled in the root's `cgroup.subtree_control`.
use vstd::prelude::*;

use crate::protocol::LeaseLimits;
use crate::text::{chars_of, decimal, decimal_string, words, words_of};

verus! {

/// Scheduler period for `cpu.max`, in microseconds.
pub const CPU_PERIOD_US: u64 = 100000;

/// The name of a lease's group under the root: `lease-<id>`.
pub fn lease_group_name(lease: u64) -> (name: String)
    ensures
        name@ == "lease-"@ + decimal(lease as nat),
{
    String::from_str("lease-").concat(decimal_string(lease).as_str())
}

/// The name of a capability-probe group: `.archon-probe-<pid>-<seq>`.
pub fn probe_group_name(pid: u32, seq: u64) -> (name: String)
    ensures
        name@ == ".archon-probe-"@ + decimal(pid as nat) + "-"@ + decimal(seq as nat),
{
    String::from_str(".archon-probe-")
        .concat(decimal_string(pid as u64).as_str())
        .concat("-")
        .concat(decimal_string(seq).as_str())
}

/// One limit file and the content written to it.
#[derive(Clone, Debug)]
pub struct LimitWrite {
    pub file: String,
    pub content: String,
}

pub open spec fn write_view(w: LimitWrite) -> (Seq<char>, Seq<char>) {
    (w.file@, w.content@)
}

/// The files a lease group's limits are written to, in order: `cpu.max`
/// as `<cpu_count * 100000> 100000` for a CPU claim, `memory.max` and a zero
/// `memory.swap.max` for a memory claim. A quota that overflows u64 is
/// refused with "cpu quota overflow" before anything is written.
pub open spec fn limit_plan(limits: LeaseLimits) -> Result<Seq<(Seq<char>, Seq<char>)>, Seq<char>> {
    if limits.cpu_count > 0 && limits.cpu_count * CPU_PERIOD_US > u64::MAX {
        Err("cpu quota overflow"@)
    } else {
        let cpu: Seq<(Seq<char>, Seq<char>)> = if limits.cpu_count > 0 {
            seq![("cpu.max"@, decimal((limits.cpu_count * CPU_PERIOD_US) as nat) + " 100000"@)]
        } else {
            Seq::empty()
        };
        let memory: Seq<(Seq<char>, Seq<char>)> = if limits.memory_bytes > 0 {
            seq![("memory.max"@, decimal(limits.memory_bytes as nat)), ("memory.swap.max"@, "0"@)]
        } else {
            Seq::empty()
        };
        Ok(cpu + memory)
    }
}

/// Plan the limit writes for a lease group (see `limit_plan`).
pub fn limit_writes(limits: &LeaseLimits) -> (plan: Result<Vec<LimitWrite>, String>)
    ensures
        match plan {
            Ok(writes) => limit_plan(*limits) == Ok::<Seq<(Seq<char>, Seq<char>)>, Seq<char>>(writes@.map_values(|w: LimitWrite| write_view(w))),
            Err(message) => limit_plan(*limits) == Err::<Seq<(Seq<char>, Seq<char>)>, Seq<char>>(message@),
        },
{
    let mut writes: Vec<LimitWrite> = Vec::new();
    if limits.cpu_count > 0 {
        let quota = match limits.cpu_count.checked_mul(CPU_PERIOD_US) {
            Some(q) => q,
            None => return Err(String::from_str("cpu quota overflow")),
        };
        let content = decimal_string(quota).concat(" 100000");
        writes.push(LimitWrite { file: String::from_str("cpu.max"), content });
    }
    if limits.memory_bytes > 0 {
        writes.push(LimitWrite { file: String::from_str("memory.max"), content: decimal_string(limits.memory_bytes) });
        writes.push(LimitWrite { file: String::from_str("memory.swap.max"), content: String::from_str("0") });
    }
    proof {
        let got = writes@.map_values(|w: LimitWrite| write_view(w));
        match limit_plan(*limits) {
            Ok(expected) => {
                assert(got =~= expected);
            },
            Err(_) => {},
        }
    }
    Ok(writes)
}

/// The controllers a lease group needs enabled in its parent, as
/// `cgroup.subtree_control` tokens: `+cpu` for a CPU claim, `+memory` for a
/// memory claim.
pub open spec fn required_controllers_spec(limits: LeaseLimits) -> Seq<Seq<char>> {
    (if limits.cpu_count > 0 { seq!["+cpu"@] } else { Seq::empty() })
        + (if limits.memory_bytes > 0 { seq!["+memory"@] } else { Seq::empty() })
}

pub fn required_controllers(limits: &LeaseLimits) -> (tokens: Vec<String>)
    ensures
        tokens@.map_values(|t: String| t@) == required_controllers_spec(*limits),
{
    let mut tokens: Vec<String> = Vec::new();
    if limits.cpu_count > 0 {
        tokens.push(String::from_str("+cpu"));
    }
    if limits.memory_bytes > 0 {
        tokens.push(String::from_str("+memory"));
    }
    assert(tokens@.map_values(|t: String| t@) =~= required_controllers_spec(*limits));
    tokens
}

/// The required tokens whose controller is not yet listed in the current
/// subtree control (a token `+name` is present when `name` is one of the
/// file's words).
pub open spec fn missing_controllers(required: Seq<Seq<char>>, current: Seq<char>) -> Seq<Seq<char>>
    decreases required.len(),
{
    if required.len() == 0 {
        Seq::empty()
    } else {
        let rest = missing_controllers(required.drop_last(), current);
        let token = required.last();
        if words(current).contains(token.drop_first()) {
            rest
        } else {
            rest.push(token)
        }
    }
}

/// Tokens joined by single spaces.
pub open spec fn join_spaces(tokens: Seq<Seq<char>>) -> Seq<char>
    decreases tokens.len(),
{
    if tokens.len() == 0 {
        Seq::empty()
    } else if tokens.len() == 1 {
        tokens[0]
    } else {
        join_spaces(tokens.drop_last()) + " "@ + tokens.last()
    }
}

/// What to write to `cgroup.subtree_control` so the required controllers
/// are enabled: the missing tokens joined by spaces, or None when none is
/// missing.
pub open spec fn subtree_control_update_spec(required: Seq<Seq<char>>, current: Seq<char>) -> Option<Seq<char>> {
    let missing = missing_controllers(required, current);
    if missing.len() == 0 {
        None
    } else {
        Some(join_spaces(missing))
    }
}

pub fn subtree_control_update(required: &Vec<String>, current: &str) -> (update: Option<String>)
    requires
        forall|i: int| 0 <= i < required@.len() ==> (#[trigger] required@[i])@.len() > 0,
    ensures
        match update {
            Some(text) => subtree_control_update_spec(required@.map_values(|t: String| t@), current@) == Some(text@),
            None => subtree_control_update_spec(required@.map_values(|t: String| t@), current@) is None,
        },
{
    let ghost req = required@.map_values(|t: String| t@);
    let text = chars_of(current);
    let ws = words_of(text.as_slice());
    let mut missing: Vec<Vec<char>> = Vec::new();
    let mut i: usize = 0;
    while i < required.len()
        invariant
            i <= required@.len(),
            req == required@.map_values(|t: String| t@),
            forall|j: int| 0 <= j < required@.len() ==> (#[trigger] required@[j])@.len() > 0,
            text@ == current@,
            ws@.map_values(|p: Vec<char>| p@) == words(current@),
            missing@.map_values(|p: Vec<char>| p@) == missing_controllers(req.take(i as int), current@),
        decreases required@.len() - i,
    {
        let token = chars_of(required[i].as_str());
        let mut name: Vec<char> = Vec::new();
        let mut k: usize = 1;
        while k < token.len()
            invariant
                1 <= k <= token@.len() || token@.len() == 0,
                token@.len() > 0 ==> name@ == token@.subrange(1, k as int),
                token@.len() == 0 ==> name@.len() == 0 && k == 1,
            decreases token@.len() - k,
        {
            name.push(token[k]);
            k = k + 1;
            assert(name@ =~= token@.subrange(1, k as int));
        }
        assert(req.take(i + 1).drop_last() =~= req.take(i as int));
        assert(req.take(i + 1).last() == token@);
        assert(token@.len() > 0);
        assert(name@ =~= token@.drop_first());
        if !crate::text::contains_chars(&ws, name.as_slice()) {
            let ghost before = missing@;
            missing.push(token);
            assert(missing@.map_values(|p: Vec<char>| p@) =~= before.map_values(|p: Vec<char>| p@).push(token@));
        }
        i = i + 1;
    }
    assert(req.take(required@.len() as int) =~= req);
    if missing.len() == 0 {
        return None;
    }
    let mut out: Vec<char> = Vec::new();
    let mut j: usize = 0;
    let ghost mv = missing@.map_values(|p: Vec<char>| p@);
    while j < missing.len()
        invariant
            0 < missing@.len(),
            j <= missing@.len(),
            mv == missing@.map_values(|p: Vec<char>| p@),
            j > 0 ==> out@ == join_spaces(mv.take(j as int)),
            j == 0 ==> out@.len() == 0,
        decreases missing@.len() - j,
    {
        let ghost prev = out@;
        if j > 0 {
            out.push(' ');
        }
        let piece = &missing[j];
        let mut k: usize = 0;
        let ghost with_sep = out@;
        while k < piece.len()
            invariant
                k <= piece@.len(),
                out@ == with_sep + piece@.take(k as int),
            decreases piece@.len() - k,
        {
            out.push(piece[k]);
            k = k + 1;
            assert(out@ =~= with_sep + piece@.take(k as int));
        }
        assert(piece@.take(piece@.len() as int) =~= piece@);
        assert(mv.take(j + 1).drop_last() =~= mv.take(j as int));
        if j == 0 {
            assert(mv.take(1) =~= seq![piece@]);
            assert(out@ =~= piece@);
        } else {
            proof {
                reveal_strlit(" ");
            }
            assert(with_sep =~= prev + " "@);
            assert(out@ =~= prev + " "@ + piece@);
        }
        j = j + 1;
    }
    assert(mv.take(missing@.len() as int) =~= mv);
    Some(crate::text::string_of(out.as_slice()))
}

/// `Path::join` of a relative name: a separator is added unless the base is
/// empty or already ends in one.
pub open spec fn path_join(base: Seq<char>, name: Seq<char>) -> Seq<char> {
    if base.len() == 0 || base.last() == '/' {
        base + name
    } else {
        base + "/"@ + name
    }
}

fn join_path(base: &str, name: &str) -> (joined: String)
    ensures
        joined@ == path_join(base@, name@),
{
    let chars = chars_of(base);
    if chars.len() == 0 || chars[chars.len() - 1] == '/' {
        String::from_str(base).concat(name)
    } else {
        String::from_str(base).concat("/").concat(name)
    }
}

/// One lease's cgroup directory.
pub struct CgroupGroup {
    path: String,
}

impl CgroupGroup {
    pub closed spec fn view(self) -> Seq<char> {
        self.path@
    }

    /// The group of `lease` under `root`: `<root>/lease-<id>`.
    pub fn for_lease(root: &str, lease: u64) -> (group: CgroupGroup)
        ensures
            group.view() == path_join(root@, "lease-"@ + decimal(lease as nat)),
    {
        let name = lease_group_name(lease);
        CgroupGroup { path: join_path(root, name.as_str()) }
    }

    /// A capability-probe group under `root`.
    pub fn for_probe(root: &str, pid: u32, seq: u64) -> (group: CgroupGroup)
        ensures
            group.view() == path_join(root@, ".archon-probe-"@ + decimal(pid as nat) + "-"@ + decimal(seq as nat)),
    {
        let name = probe_group_name(pid, seq);
        CgroupGroup { path: join_path(root, name.as_str()) }
    }

    /// The group's directory.
    pub fn path(&self) -> (p: &str)
        ensures
            p@ == self.view(),
    {
        self.path.as_str()
    }

    /// The path of one of the group's control files.
    pub fn file(&self, name: &str) -> (p: String)
        ensures
            p@ == path_join(self.view(), name@),
    {
        join_path(self.path.as_str(), name)
    }

    /// The limit writes that configure the group (see `limit_plan`).
    pub fn configure_limits(&self, limits: &LeaseLimits) -> (plan: Result<Vec<LimitWrite>, String>)
        ensures
            match plan {
                Ok(writes) => limit_plan(*limits) == Ok::<Seq<(Seq<char>, Seq<char>)>, Seq<char>>(writes@.map_values(|w: LimitWrite| write_view(w))),
                Err(message) => limit_plan(*limits) == Err::<Seq<(Seq<char>, Seq<char>)>, Seq<char>>(message@),
            },
    {
        limit_writes(limits)
    }

    /// The write that kills every process in the group at once: `1` into
    /// `cgroup.kill`.
    pub fn kill(&self) -> (w: LimitWrite)
        ensures
            w.file@ == "cgroup.kill"@,
            w.content@ == "1"@,
    {
        LimitWrite { file: String::from_str("cgroup.kill"), content: String::from_str("1") }
    }
}

} // verus!
