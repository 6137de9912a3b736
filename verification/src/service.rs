//! The control plane's decisions about leases that run workloads: when a
//! lease completes from its members' exits, what a recovered member proves,
//! when a keep-alive workload restarts, and which limits one machine
//! enforces. The control plane applies the outcomes to its cluster state.
use std::collections::{BTreeMap, BTreeSet};

use vstd::prelude::*;

use crate::model::{CapacityDimension, NodeId, Quantity, ResourceClass};
use crate::graph::ProviderId;
use crate::model::Attrs;
use crate::text::{decimal, decimal_string};
use crate::protocol::{AgentRequest, AgentResponse, BindingScope, DeviceAccess, ExecutionCapabilities, LeaseLimits, RuntimeCapabilities};

verus! {

// ---------------------------------------------------------------------------
// Whole-lease completion from member observations.

/// What one machine member of a lease last reported.
#[derive(Clone, Copy, Debug, PartialEq, Eq, Structural)]
pub struct MemberStatus {
    pub running: bool,
    pub exit_code: Option<i32>,
}

/// The first failed exit code among the members, in machine order.
pub open spec fn first_failure(members: Seq<Option<MemberStatus>>) -> Option<i32>
    decreases members.len(),
{
    if members.len() == 0 {
        None
    } else {
        match members[0] {
            Some(MemberStatus { exit_code: Some(code), .. }) if code != 0 => Some(code),
            _ => first_failure(members.drop_first()),
        }
    }
}

pub open spec fn all_succeeded(members: Seq<Option<MemberStatus>>) -> bool {
    forall|i: int| 0 <= i < members.len() ==> #[trigger] members[i] matches Some(MemberStatus { exit_code: Some(0), .. })
}

/// How an active lease ends, given its members' latest reports (None for
/// a member not heard from): the first failed exit code fails it; it
/// succeeds only when every member exited 0; otherwise it keeps running.
pub open spec fn lease_outcome(members: Seq<Option<MemberStatus>>) -> Option<i32> {
    if members.len() == 0 {
        None
    } else if first_failure(members) is Some {
        first_failure(members)
    } else if all_succeeded(members) {
        Some(0)
    } else {
        None
    }
}

/// The exit code the lease completes with, or None while it goes on.
pub fn resolve_observed_completion(members: &[Option<MemberStatus>]) -> (outcome: Option<i32>)
    ensures
        outcome == lease_outcome(members@),
{
    if members.len() == 0 {
        return None;
    }
    let mut i: usize = 0;
    assert(members@.skip(0) =~= members@);
    while i < members.len()
        invariant
            i <= members@.len(),
            first_failure(members@) == first_failure(members@.skip(i as int)),
        decreases members@.len() - i,
    {
        assert(members@.skip(i as int).drop_first() =~= members@.skip(i + 1));
        match members[i] {
            Some(MemberStatus { exit_code: Some(code), .. }) => {
                if code != 0 {
                    return Some(code);
                }
            },
            _ => {},
        }
        i = i + 1;
    }
    assert(members@.skip(i as int).len() == 0);
    let mut j: usize = 0;
    while j < members.len()
        invariant
            j <= members@.len(),
            members@.len() > 0,
            first_failure(members@) is None,
            forall|k: int| 0 <= k < j ==> #[trigger] members@[k] matches Some(MemberStatus { exit_code: Some(0), .. }),
        decreases members@.len() - j,
    {
        match members[j] {
            Some(MemberStatus { exit_code: Some(0), .. }) => {},
            _ => {
                assert(!all_succeeded(members@));
                return None;
            },
        }
        j = j + 1;
    }
    Some(0)
}

/// A lease completes successfully only when every member exited 0, and a
/// member that failed never lets it complete successfully.
pub proof fn lemma_success_needs_every_member(members: Seq<Option<MemberStatus>>, k: int)
    requires
        0 <= k < members.len(),
    ensures
        lease_outcome(members) == Some(0i32) ==> members[k] matches Some(MemberStatus { exit_code: Some(0), .. }),
        (members[k] matches Some(MemberStatus { exit_code: Some(code), .. }) && code != 0) ==> lease_outcome(members) is Some
            && lease_outcome(members) != Some(0i32),
    decreases members.len(),
{
    lemma_first_failure_nonzero(members);
    if members[k] matches Some(MemberStatus { exit_code: Some(code), .. }) && code != 0 {
        lemma_failure_found(members, k);
    }
}

proof fn lemma_first_failure_nonzero(members: Seq<Option<MemberStatus>>)
    ensures
        first_failure(members) matches Some(code) ==> code != 0,
    decreases members.len(),
{
    if members.len() > 0 {
        lemma_first_failure_nonzero(members.drop_first());
    }
}

proof fn lemma_failure_found(members: Seq<Option<MemberStatus>>, k: int)
    requires
        0 <= k < members.len(),
        members[k] matches Some(MemberStatus { exit_code: Some(code), .. }) && code != 0,
    ensures
        first_failure(members) is Some,
    decreases members.len(),
{
    if k > 0 {
        match members[0] {
            Some(MemberStatus { exit_code: Some(code), .. }) if code != 0 => {},
            _ => {
                assert(members.drop_first()[k - 1] == members[k]);
                lemma_failure_found(members.drop_first(), k - 1);
            },
        }
    }
}

// ---------------------------------------------------------------------------
// Members found after a controller restart.

/// What a recovered member's report proves.
#[derive(Clone, Copy, Debug, PartialEq, Eq, Structural)]
pub enum RecoveredMember {
    /// It runs or exited under this agent: adopt its endpoints without
    /// respawning.
    Adopt,
    /// Nothing proves the agent still owns it: revoke the lease.
    Revoke,
}

/// A member that runs, or exited with a code, is adopted; anything else is
/// unprovable and revoked.
pub fn recovered_member_outcome(running: bool, exit_code: Option<i32>) -> (r: RecoveredMember)
    ensures
        r == (if running || exit_code is Some { RecoveredMember::Adopt } else { RecoveredMember::Revoke }),
{
    if running || exit_code.is_some() {
        RecoveredMember::Adopt
    } else {
        RecoveredMember::Revoke
    }
}

// ---------------------------------------------------------------------------
// Restarting keep-alive workloads.

/// Restarts one workload may have.
pub const MAX_RESTARTS: u32 = 5;
/// Longest wait between restarts, in seconds.
pub const BACKOFF_CAP_SECS: u64 = 60;

/// The wait after a workload's `count`-th restart before the next one:
/// doubling from one second, the exponent capped at 6, the wait at 60
/// seconds. The first restart owes no wait.
pub open spec fn backoff_secs(count: u32) -> u64 {
    let exponent: nat = if count < 6 { count as nat } else { 6 };
    let doubled = vstd::arithmetic::power2::pow2(exponent);
    if doubled < 60 { doubled as u64 } else { 60 }
}

pub fn restart_delay(count: u32) -> (delay: u64)
    ensures
        delay == backoff_secs(count),
{
    let exponent: u32 = if count < 6 { count } else { 6 };
    let doubled: u64 = 1u64 << exponent;
    proof {
        vstd::arithmetic::power2::lemma2_to64();
        assert(doubled == vstd::arithmetic::power2::pow2(exponent as nat)) by {
            vstd::bits::lemma_u64_shl_is_mul(1, exponent as u64);
        }
    }
    if doubled < BACKOFF_CAP_SECS { doubled } else { BACKOFF_CAP_SECS }
}

/// What to do with a failed or expired keep-alive lease.
#[derive(Clone, Copy, Debug, PartialEq, Eq, Structural)]
pub enum RestartDecision {
    /// The workload used up its restarts; never restart it.
    CapExceeded,
    /// Too soon after the last restart; look again on a later tick.
    Backoff,
    /// Resubmit it now.
    Restart,
}

pub open spec fn restart_decision_spec(count: u32, last_at: u64, now: u64) -> RestartDecision {
    if count >= MAX_RESTARTS {
        RestartDecision::CapExceeded
    } else if count == 0 {
        RestartDecision::Restart
    } else if (now as int) < (if last_at + backoff_secs(count) > u64::MAX { u64::MAX as int } else { last_at + backoff_secs(count) }) {
        RestartDecision::Backoff
    } else {
        RestartDecision::Restart
    }
}

/// Decide a restart from how often the workload restarted (`count`), when
/// it last did (`last_at`, unused while it never did) and the time now, in
/// seconds. Backoff runs between attempts: a workload that never restarted
/// restarts at once.
pub fn restart_decision(count: u32, last_at: u64, now: u64) -> (d: RestartDecision)
    ensures
        d == restart_decision_spec(count, last_at, now),
{
    if count >= MAX_RESTARTS {
        return RestartDecision::CapExceeded;
    }
    if count == 0 {
        return RestartDecision::Restart;
    }
    let due = last_at.saturating_add(restart_delay(count));
    if now < due {
        RestartDecision::Backoff
    } else {
        RestartDecision::Restart
    }
}

/// The backoff never exceeds its cap and never shrinks as restarts add up,
/// no workload restarts more than the cap allows, and the first restart is
/// owed at once, whatever the clock reads.
pub proof fn lemma_backoff_bounded_monotone(a: u32, b: u32, last_at: u64, now: u64)
    ensures
        1 <= backoff_secs(a) <= BACKOFF_CAP_SECS,
        a <= b ==> backoff_secs(a) <= backoff_secs(b),
        a >= MAX_RESTARTS ==> restart_decision_spec(a, last_at, now) == RestartDecision::CapExceeded,
        restart_decision_spec(0, last_at, now) == RestartDecision::Restart,
{
    let ea: nat = if a < 6 { a as nat } else { 6 };
    let eb: nat = if b < 6 { b as nat } else { 6 };
    vstd::arithmetic::power2::lemma_pow2_pos(ea);
    if ea < eb {
        vstd::arithmetic::power2::lemma_pow2_strictly_increases(ea, eb);
    }
}

/// The restart bookkeeping as maps and sets: restart count and last
/// restart time per lineage root, the root each resubmitted request
/// descends from, the leases already handled, and the next request id.
pub struct RestartBookView {
    pub counts: Map<u64, u32>,
    pub last_at: Map<u64, u64>,
    pub roots: Map<u64, u64>,
    pub handled: Set<u64>,
    pub next_request: u64,
}

/// Restart bookkeeping of keep-alive workloads. Caps and backoff attach to
/// a lineage: the original request of a workload, whose resubmissions get
/// fresh request ids that all lead back to it.
pub struct RestartBook {
    counts: BTreeMap<u64, u32>,
    last_at: BTreeMap<u64, u64>,
    roots: BTreeMap<u64, u64>,
    handled: BTreeSet<u64>,
    next_request: u64,
}

/// The lineage root of a request: the original request it was resubmitted
/// from, or the request itself.
pub open spec fn root_of(v: RestartBookView, request: u64) -> u64 {
    if v.roots.contains_key(request) { v.roots[request] } else { request }
}

pub open spec fn count_of(v: RestartBookView, root: u64) -> u32 {
    if v.counts.contains_key(root) { v.counts[root] } else { 0 }
}

pub open spec fn last_restart_of(v: RestartBookView, root: u64) -> u64 {
    if v.last_at.contains_key(root) { v.last_at[root] } else { 0 }
}

/// One lease looked at for a restart. Only a dead lease (failed or expired)
/// not yet handled, with a known keep-alive workload (`workload` pairs its
/// request id with its keep-alive flag), is considered. Its lineage root
/// is then looked at: at the cap the lease is handled and never restarted;
/// in backoff it stays pending; otherwise the lineage counts one more
/// restart at `now`, the lease is handled, and the workload is resubmitted
/// under the next request id, which joins the lineage.
pub open spec fn restart_step(v: RestartBookView, lease: u64, dead: bool, workload: Option<(u64, bool)>, now: u64) -> (RestartBookView, Option<u64>) {
    if !dead || v.handled.contains(lease) {
        (v, None)
    } else {
        match workload {
            None => (v, None),
            Some((request, keep_alive)) => if !keep_alive {
                (v, None)
            } else {
                let root = root_of(v, request);
                let count = count_of(v, root);
                let noted = RestartBookView { counts: v.counts.insert(root, count), ..v };
                match restart_decision_spec(count, last_restart_of(v, root), now) {
                    RestartDecision::CapExceeded => (RestartBookView { handled: v.handled.insert(lease), ..noted }, None),
                    RestartDecision::Backoff => (noted, None),
                    RestartDecision::Restart => (
                        RestartBookView {
                            counts: v.counts.insert(root, (count + 1) as u32),
                            last_at: v.last_at.insert(root, now),
                            roots: v.roots.insert(v.next_request, root),
                            handled: v.handled.insert(lease),
                            next_request: (v.next_request + 1) as u64,
                        },
                        Some(v.next_request),
                    ),
                }
            },
        }
    }
}

impl RestartBook {
    pub closed spec fn view(&self) -> RestartBookView {
        RestartBookView {
            counts: self.counts@,
            last_at: self.last_at@,
            roots: self.roots@,
            handled: self.handled@,
            next_request: self.next_request,
        }
    }

    /// Nothing restarted yet; resubmissions are numbered from `next_request`.
    pub fn new(next_request: u64) -> (book: RestartBook)
        ensures
            book.view() == (RestartBookView {
                counts: Map::empty(),
                last_at: Map::empty(),
                roots: Map::empty(),
                handled: Set::empty(),
                next_request,
            }),
    {
        RestartBook { counts: BTreeMap::new(), last_at: BTreeMap::new(), roots: BTreeMap::new(), handled: BTreeSet::new(), next_request }
    }

    /// The id the next resubmission gets.
    pub fn next_request(&self) -> (id: u64)
        ensures
            id == self.view().next_request,
    {
        self.next_request
    }

    /// Look at one lease for a restart (see `restart_step`); the fresh
    /// request id to resubmit its workload under, if it restarts now.
    pub fn consider(&mut self, lease: u64, dead: bool, workload: Option<(u64, bool)>, now: u64) -> (fresh: Option<u64>)
        requires
            old(self).view().next_request < u64::MAX,
        ensures
            (final(self).view(), fresh) == restart_step(old(self).view(), lease, dead, workload, now),
    {
        proof {
            broadcast use vstd::laws_cmp::group_laws_cmp, vstd::std_specs::btree::group_btree_axioms;
        }
        if !dead || self.handled.contains(&lease) {
            return None;
        }
        let (request, keep_alive) = match workload {
            None => return None,
            Some(w) => w,
        };
        if !keep_alive {
            return None;
        }
        let root = match self.roots.get(&request) {
            Some(r) => *r,
            None => request,
        };
        let count = match self.counts.get(&root) {
            Some(c) => *c,
            None => 0,
        };
        let last = match self.last_at.get(&root) {
            Some(t) => *t,
            None => 0,
        };
        let ghost before = self.view();
        assert(root == root_of(before, request));
        assert(count == count_of(before, root));
        assert(last == last_restart_of(before, root));
        self.counts.insert(root, count);
        match restart_decision(count, last, now) {
            RestartDecision::CapExceeded => {
                self.handled.insert(lease);
                None
            },
            RestartDecision::Backoff => None,
            RestartDecision::Restart => {
                assert(count < MAX_RESTARTS);
                let next_count = count + 1;
                self.counts.insert(root, next_count);
                assert(self.counts@ =~= before.counts.insert(root, next_count));
                self.last_at.insert(root, now);
                let fresh = self.next_request;
                self.roots.insert(fresh, root);
                self.handled.insert(lease);
                self.next_request = fresh + 1;
                Some(fresh)
            },
        }
    }
}

/// One lease as a restart pass sees it (see `restart_step`).
#[derive(Clone, Copy, Debug, PartialEq, Eq)]
pub struct RestartCandidate {
    pub lease: u64,
    /// Failed or expired.
    pub dead: bool,
    /// The request id of its workload and whether that keeps alive.
    pub workload: Option<(u64, bool)>,
}

/// A pass over leases in order: the book afterwards and the leases
/// restarted with their fresh request ids.
pub open spec fn restart_pass(v: RestartBookView, leases: Seq<RestartCandidate>, now: u64) -> (RestartBookView, Seq<(u64, u64)>)
    decreases leases.len(),
{
    if leases.len() == 0 {
        (v, Seq::empty())
    } else {
        let (before, out) = restart_pass(v, leases.drop_last(), now);
        let l = leases.last();
        let (after, fresh) = restart_step(before, l.lease, l.dead, l.workload, now);
        match fresh {
            Some(f) => (after, out.push((l.lease, f))),
            None => (after, out),
        }
    }
}

impl RestartBook {
    /// Collect the restarts due at `now` among `leases` (by increasing
    /// lease id): each restarted lease with the fresh request id its
    /// workload is resubmitted under. Leases in backoff stay pending for a
    /// later pass; run-once workloads never restart.
    pub fn take_restarts(&mut self, leases: &[RestartCandidate], now: u64) -> (restarts: Vec<(u64, u64)>)
        requires
            old(self).view().next_request + leases@.len() < u64::MAX,
        ensures
            (final(self).view(), restarts@) == restart_pass(old(self).view(), leases@, now),
    {
        let ghost start = self.view();
        let mut restarts: Vec<(u64, u64)> = Vec::new();
        let mut i: usize = 0;
        while i < leases.len()
            invariant
                i <= leases@.len(),
                start.next_request + leases@.len() < u64::MAX,
                self.view().next_request <= start.next_request + i,
                (self.view(), restarts@) == restart_pass(start, leases@.take(i as int), now),
            decreases leases@.len() - i,
        {
            assert(leases@.take(i + 1).drop_last() =~= leases@.take(i as int));
            let l = leases[i];
            let fresh = self.consider(l.lease, l.dead, l.workload, now);
            if let Some(f) = fresh {
                restarts.push((l.lease, f));
            }
            i = i + 1;
        }
        assert(leases@.take(i as int) =~= leases@);
        restarts
    }
}

/// No lineage has more restarts than the cap.
pub open spec fn book_capped(v: RestartBookView) -> bool {
    forall|r: u64| #[trigger] v.counts.contains_key(r) ==> v.counts[r] <= MAX_RESTARTS
}

/// The cap survives generations: a restart resubmits the workload under a
/// fresh request id that leads back to the same lineage root, whose count
/// went up by one, so however often a workload is resubmitted its lineage
/// restarts at most `MAX_RESTARTS` times.
pub proof fn lemma_restart_cap_survives_generations(v: RestartBookView, lease: u64, dead: bool, workload: Option<(u64, bool)>, now: u64)
    requires
        book_capped(v),
    ensures
        book_capped(restart_step(v, lease, dead, workload, now).0),
        restart_step(v, lease, dead, workload, now).1 matches Some(fresh) ==> workload matches Some((request, _)) && {
            let w = restart_step(v, lease, dead, workload, now).0;
            &&& fresh == v.next_request
            &&& root_of(w, fresh) == root_of(v, request)
            &&& count_of(w, root_of(v, request)) == count_of(v, root_of(v, request)) + 1
            &&& count_of(w, root_of(v, request)) <= MAX_RESTARTS
            &&& w.handled.contains(lease)
        },
        restart_step(v, lease, dead, workload, now).1 is None ==>
            restart_step(v, lease, dead, workload, now).0.next_request == v.next_request,
{
}

// ---------------------------------------------------------------------------
// Limits one machine enforces for a lease.

/// One claim of a lease as the control plane sees it: the claimed node,
/// the machine that node belongs to, its kind, and the claimed quantity.
#[derive(Clone, Copy, Debug, PartialEq, Eq, Structural)]
pub struct ClaimView {
    pub node: NodeId,
    pub machine: Option<NodeId>,
    pub kind: Option<ResourceClass>,
    pub quantity: Quantity,
}

/// CPU count and memory bytes of the claims on `machine`.
pub open spec fn machine_limits(claims: Seq<ClaimView>, machine: NodeId) -> (int, int)
    decreases claims.len(),
{
    if claims.len() == 0 {
        (0, 0)
    } else {
        let prev = machine_limits(claims.drop_last(), machine);
        let c = claims.last();
        if c.machine != Some(machine) {
            prev
        } else {
            match c.kind {
                Some(ResourceClass::Cpu) => (prev.0 + c.quantity.amount(CapacityDimension::Count), prev.1),
                Some(ResourceClass::Memory) => (prev.0, prev.1 + c.quantity.amount(CapacityDimension::Bytes)),
                _ => prev,
            }
        }
    }
}

proof fn lemma_machine_limits_grow(claims: Seq<ClaimView>, machine: NodeId, k: int)
    requires
        0 <= k <= claims.len(),
    ensures
        0 <= machine_limits(claims.take(k), machine).0 <= machine_limits(claims, machine).0,
        0 <= machine_limits(claims.take(k), machine).1 <= machine_limits(claims, machine).1,
    decreases claims.len() - k,
{
    if k < claims.len() {
        assert(claims.drop_last().take(k) =~= claims.take(k));
        lemma_machine_limits_grow(claims.drop_last(), machine, k);
    } else {
        assert(claims.take(k) =~= claims);
        lemma_machine_limits_nonneg(claims, machine);
    }
}

proof fn lemma_machine_limits_nonneg(claims: Seq<ClaimView>, machine: NodeId)
    ensures
        machine_limits(claims, machine).0 >= 0,
        machine_limits(claims, machine).1 >= 0,
    decreases claims.len(),
{
    if claims.len() > 0 {
        lemma_machine_limits_nonneg(claims.drop_last(), machine);
    }
}

/// Limits add up claim by claim: with no claims there is no limit; a
/// memory claim on the machine adds exactly its bytes, a CPU claim on it
/// exactly its count, and any other claim changes nothing.
pub proof fn lemma_limits_add_claim_by_claim(claims: Seq<ClaimView>, machine: NodeId, c: ClaimView)
    ensures
        machine_limits(Seq::empty(), machine) == (0int, 0int),
        c.machine == Some(machine) && c.kind == Some(ResourceClass::Memory) ==> machine_limits(claims.push(c), machine) == (
            machine_limits(claims, machine).0,
            machine_limits(claims, machine).1 + c.quantity.amount(CapacityDimension::Bytes),
        ),
        c.machine == Some(machine) && c.kind == Some(ResourceClass::Cpu) ==> machine_limits(claims.push(c), machine) == (
            machine_limits(claims, machine).0 + c.quantity.amount(CapacityDimension::Count),
            machine_limits(claims, machine).1,
        ),
        !(c.machine == Some(machine) && (c.kind == Some(ResourceClass::Cpu) || c.kind == Some(ResourceClass::Memory)))
            ==> machine_limits(claims.push(c), machine) == machine_limits(claims, machine),
{
    assert(claims.push(c).drop_last() =~= claims);
}

/// Limits are additive: the limits of two claim lists together are the sums
/// of their limits, so every claim on the machine counts, once.
pub proof fn lemma_limits_additive(a: Seq<ClaimView>, b: Seq<ClaimView>, machine: NodeId)
    ensures
        machine_limits(a + b, machine) == (
            machine_limits(a, machine).0 + machine_limits(b, machine).0,
            machine_limits(a, machine).1 + machine_limits(b, machine).1,
        ),
    decreases b.len(),
{
    if b.len() == 0 {
        assert(a + b =~= a);
    } else {
        lemma_limits_additive(a, b.drop_last(), machine);
        assert((a + b).drop_last() =~= a + b.drop_last());
        assert((a + b).last() == b.last());
    }
}

/// The CPU and memory limits `machine` enforces for a lease: the sums of
/// the lease's CPU counts and memory bytes claimed on that machine. A lease
/// spanning machines never hands one machine another's budget.
pub fn lease_limits_on_machine(claims: &[ClaimView], machine: NodeId) -> (limits: LeaseLimits)
    requires
        machine_limits(claims@, machine).0 <= u64::MAX,
        machine_limits(claims@, machine).1 <= u64::MAX,
    ensures
        limits.cpu_count == machine_limits(claims@, machine).0,
        limits.memory_bytes == machine_limits(claims@, machine).1,
{
    let mut cpu_count: u64 = 0;
    let mut memory_bytes: u64 = 0;
    let mut i: usize = 0;
    while i < claims.len()
        invariant
            i <= claims@.len(),
            machine_limits(claims@, machine).0 <= u64::MAX,
            machine_limits(claims@, machine).1 <= u64::MAX,
            cpu_count == machine_limits(claims@.take(i as int), machine).0,
            memory_bytes == machine_limits(claims@.take(i as int), machine).1,
        decreases claims@.len() - i,
    {
        let c = claims[i];
        assert(claims@.take(i + 1).drop_last() =~= claims@.take(i as int));
        proof {
            lemma_machine_limits_grow(claims@, machine, i + 1);
        }
        if c.machine == Some(machine) {
            match c.kind {
                Some(ResourceClass::Cpu) => {
                    cpu_count = cpu_count + c.quantity.get(CapacityDimension::Count);
                },
                Some(ResourceClass::Memory) => {
                    memory_bytes = memory_bytes + c.quantity.get(CapacityDimension::Bytes);
                },
                _ => {},
            }
        }
        i = i + 1;
    }
    assert(claims@.take(i as int) =~= claims@);
    LeaseLimits { cpu_count, memory_bytes }
}

// ---------------------------------------------------------------------------
// Driving binding effects to agents.

/// Which lifecycle step an outstanding binding call belongs to.
#[derive(Clone, Copy, Debug, PartialEq, Eq, PartialOrd, Ord, Structural)]
pub enum EffectPhase {
    Prepare,
    Activate,
    Release,
    Fence,
}

/// What the control plane records of one resource binding.
#[derive(Clone, Copy, Debug, PartialEq, Eq, Structural)]
pub struct BindingRecord {
    pub binding: u64,
    pub lease: u64,
    pub node: u64,
    pub provider: u64,
    pub scope: BindingScope,
    pub session: u64,
    pub fence: u64,
}

pub open spec fn same_generation(
    record: BindingRecord,
    epoch: u64,
    binding: u64,
    lease: u64,
    node: u64,
    provider: u64,
    scope: BindingScope,
    session: u64,
    fence: u64,
    e: u64,
) -> bool {
    binding == record.binding && lease == record.lease && node == record.node && provider == record.provider
        && scope == record.scope && session == record.session && fence == record.fence && e == epoch
}

/// `request` is the agent call of `phase` for the binding's recorded
/// generation at `epoch`.
pub open spec fn request_for(request: AgentRequest, phase: EffectPhase, record: BindingRecord, epoch: u64) -> bool {
    match request {
        AgentRequest::Prepare { binding, lease, node, provider, scope, session, fence, epoch: e } =>
            phase == EffectPhase::Prepare && same_generation(record, epoch, binding, lease, node, provider, scope, session, fence, e),
        AgentRequest::Activate { binding, lease, node, provider, scope, session, fence, epoch: e } =>
            phase == EffectPhase::Activate && same_generation(record, epoch, binding, lease, node, provider, scope, session, fence, e),
        AgentRequest::Release { binding, lease, node, provider, scope, session, fence, epoch: e } =>
            phase == EffectPhase::Release && same_generation(record, epoch, binding, lease, node, provider, scope, session, fence, e),
        AgentRequest::Fence { binding, lease, node, provider, scope, session, fence, epoch: e } =>
            phase == EffectPhase::Fence && same_generation(record, epoch, binding, lease, node, provider, scope, session, fence, e),
        _ => false,
    }
}

/// The agent call that carries a binding effect: the phase's request with
/// the binding's recorded lease, node, provider, scope, session and fence,
/// under the cluster's current epoch.
pub fn binding_request(phase: EffectPhase, record: &BindingRecord, epoch: u64) -> (request: AgentRequest)
    ensures
        request_for(request, phase, *record, epoch),
{
    let r = *record;
    match phase {
        EffectPhase::Prepare => AgentRequest::Prepare {
            binding: r.binding, lease: r.lease, node: r.node, provider: r.provider, scope: r.scope, session: r.session, fence: r.fence, epoch,
        },
        EffectPhase::Activate => AgentRequest::Activate {
            binding: r.binding, lease: r.lease, node: r.node, provider: r.provider, scope: r.scope, session: r.session, fence: r.fence, epoch,
        },
        EffectPhase::Release => AgentRequest::Release {
            binding: r.binding, lease: r.lease, node: r.node, provider: r.provider, scope: r.scope, session: r.session, fence: r.fence, epoch,
        },
        EffectPhase::Fence => AgentRequest::Fence {
            binding: r.binding, lease: r.lease, node: r.node, provider: r.provider, scope: r.scope, session: r.session, fence: r.fence, epoch,
        },
    }
}

/// The session a binding must be moved to before its effect is driven: the
/// machine's live session, when there is one and the binding is on another.
pub fn rebind_target(recorded_session: u64, live_session: Option<u64>) -> (target: Option<u64>)
    ensures
        target == (match live_session {
            Some(s) => if s != recorded_session { Some(s) } else { None },
            None => None,
        }),
{
    match live_session {
        Some(s) => if s != recorded_session { Some(s) } else { None },
        None => None,
    }
}

/// A cluster command that re-drives a binding on a machine's new agent.
#[derive(Clone, Copy, Debug, PartialEq, Eq, Structural)]
pub enum ReconcileCommand {
    RebindSession { binding: u64, session: u64 },
    ActivateBinding { binding: u64 },
}

pub open spec fn reconcile_commands_spec(bindings: Seq<(u64, bool)>, session: u64) -> Seq<ReconcileCommand>
    decreases bindings.len(),
{
    if bindings.len() == 0 {
        Seq::empty()
    } else {
        let prev = reconcile_commands_spec(bindings.drop_last(), session);
        let (binding, active) = bindings.last();
        if active {
            prev.push(ReconcileCommand::RebindSession { binding, session }).push(ReconcileCommand::ActivateBinding { binding })
        } else {
            prev
        }
    }
}

/// Re-drive a machine's bindings onto its fresh agent session: each binding
/// of a still-active lease (flagged `true`) is moved to `session`, then
/// activated; bindings of ended leases stay as they are.
pub fn reconcile_commands(bindings: &[(u64, bool)], session: u64) -> (commands: Vec<ReconcileCommand>)
    ensures
        commands@ == reconcile_commands_spec(bindings@, session),
{
    let mut commands: Vec<ReconcileCommand> = Vec::new();
    let mut i: usize = 0;
    while i < bindings.len()
        invariant
            i <= bindings@.len(),
            commands@ == reconcile_commands_spec(bindings@.take(i as int), session),
        decreases bindings@.len() - i,
    {
        let (binding, active) = bindings[i];
        assert(bindings@.take(i + 1).drop_last() =~= bindings@.take(i as int));
        if active {
            commands.push(ReconcileCommand::RebindSession { binding, session });
            commands.push(ReconcileCommand::ActivateBinding { binding });
        }
        i = i + 1;
    }
    assert(bindings@.take(i as int) =~= bindings@);
    commands
}

// ---------------------------------------------------------------------------
// Absorbing agent answers.

/// What an agent's answer to a binding effect records.
#[derive(Clone, Debug)]
pub enum BindingOutcome {
    Prepared { handle: u64 },
    Activated,
    Released,
    Fenced,
    Failed { reason: String },
    /// An answer of another kind; nothing is recorded.
    Unexpected,
    /// The call itself failed; the binding stays as it is and deadlines,
    /// probes and reconciliation recover it.
    Dropped { reason: String },
}

/// Classify the answer to a binding effect.
pub fn binding_outcome(reply: Result<AgentResponse, String>) -> (o: BindingOutcome)
    ensures
        match reply {
            Ok(AgentResponse::Prepared { handle, .. }) => o matches BindingOutcome::Prepared { handle: h } && h == handle,
            Ok(AgentResponse::Activated { .. }) => o is Activated,
            Ok(AgentResponse::Released { .. }) => o is Released,
            Ok(AgentResponse::Fenced { .. }) => o is Fenced,
            Ok(AgentResponse::Failed { reason, .. }) => o matches BindingOutcome::Failed { reason: r } && r == reason,
            Ok(_) => o is Unexpected,
            Err(reason) => o matches BindingOutcome::Dropped { reason: r } && r == reason,
        },
{
    match reply {
        Ok(AgentResponse::Prepared { handle, .. }) => BindingOutcome::Prepared { handle },
        Ok(AgentResponse::Activated { .. }) => BindingOutcome::Activated,
        Ok(AgentResponse::Released { .. }) => BindingOutcome::Released,
        Ok(AgentResponse::Fenced { .. }) => BindingOutcome::Fenced,
        Ok(AgentResponse::Failed { reason, .. }) => BindingOutcome::Failed { reason },
        Ok(_) => BindingOutcome::Unexpected,
        Err(reason) => BindingOutcome::Dropped { reason },
    }
}

/// What an answer to a start-execution call means for the lease.
#[derive(Clone, Debug)]
pub enum StartOutcome {
    /// The answer belongs to an older session or a lease no longer active.
    Stale,
    /// The member started.
    Started,
    /// The agent reported the start failed; the lease fails.
    Failed { reason: String },
    /// The agent answered with something else; the lease fails.
    Unexpected { response: AgentResponse },
    /// The call failed, so the start is unprovable; the lease fails.
    Unprovable { reason: String },
}

/// Classify the answer to starting `lease`'s member; `current` says whether
/// the call's session is the machine's live one and the lease still active.
/// Answers about another lease count as unexpected.
pub fn start_outcome(lease: u64, current: bool, reply: Result<AgentResponse, String>) -> (o: StartOutcome)
    ensures
        !current ==> o is Stale,
        current ==> match reply {
            Ok(AgentResponse::ExecutionStarted { lease: got }) => if got == lease {
                o is Started
            } else {
                o == StartOutcome::Unexpected { response: reply->Ok_0 }
            },
            Ok(AgentResponse::ExecutionFailed { lease: got, reason }) => if got == lease {
                o matches StartOutcome::Failed { reason: r } && r == reason
            } else {
                o == StartOutcome::Unexpected { response: reply->Ok_0 }
            },
            Ok(response) => o == StartOutcome::Unexpected { response },
            Err(reason) => o matches StartOutcome::Unprovable { reason: r } && r == reason,
        },
{
    if !current {
        return StartOutcome::Stale;
    }
    match reply {
        Ok(AgentResponse::ExecutionStarted { lease: got }) => if got == lease {
            StartOutcome::Started
        } else {
            StartOutcome::Unexpected { response: AgentResponse::ExecutionStarted { lease: got } }
        },
        Ok(AgentResponse::ExecutionFailed { lease: got, reason }) => if got == lease {
            StartOutcome::Failed { reason }
        } else {
            StartOutcome::Unexpected { response: AgentResponse::ExecutionFailed { lease: got, reason } }
        },
        Ok(response) => StartOutcome::Unexpected { response },
        Err(reason) => StartOutcome::Unprovable { reason },
    }
}

/// The reason a lease fails after starting its member on `machine`, if
/// the outcome fails it. `rendered` is the unexpected answer as Rust's
/// `Debug` prints it, which the caller formats.
pub open spec fn start_failure_text(machine: NodeId, outcome: StartOutcome, rendered: Seq<char>) -> Option<Seq<char>> {
    match outcome {
        StartOutcome::Failed { reason } => Some("execution start failed on machine "@ + decimal(machine.0 as nat) + ": "@ + reason@),
        StartOutcome::Unexpected { .. } => Some("execution start on machine "@ + decimal(machine.0 as nat)
            + " returned unexpected response: "@ + rendered),
        StartOutcome::Unprovable { reason } => Some("execution start on machine "@ + decimal(machine.0 as nat)
            + " became unprovable: "@ + reason@),
        _ => None,
    }
}

/// The failure reason a start outcome gives its lease (see
/// `start_failure_text`).
pub fn start_failure_reason(machine: NodeId, outcome: &StartOutcome, rendered: &str) -> (reason: Option<String>)
    ensures
        match reason {
            Some(r) => start_failure_text(machine, *outcome, rendered@) == Some(r@),
            None => start_failure_text(machine, *outcome, rendered@) is None,
        },
{
    let m = decimal_string(machine.0);
    match outcome {
        StartOutcome::Failed { reason } => Some(
            String::from_str("execution start failed on machine ").concat(m.as_str()).concat(": ").concat(reason.as_str()),
        ),
        StartOutcome::Unexpected { .. } => Some(
            String::from_str("execution start on machine ").concat(m.as_str()).concat(" returned unexpected response: ").concat(
                rendered,
            ),
        ),
        StartOutcome::Unprovable { reason } => Some(
            String::from_str("execution start on machine ").concat(m.as_str()).concat(" became unprovable: ").concat(
                reason.as_str(),
            ),
        ),
        _ => None,
    }
}

/// What a status answer does.
#[derive(Clone, Copy, Debug, PartialEq, Eq, Structural)]
pub enum StatusOutcome {
    /// Record the member's status and resolve the lease's completion.
    Observed(MemberStatus),
    /// Decide a recovered member from what it proved.
    Recovered(MemberStatus),
    /// Nothing to do.
    Ignored,
}

/// Route a status answer: for a member being recovered after a restart,
/// anything but a proper report proves nothing (not running, no exit code);
/// otherwise only a proper report is recorded.
pub fn status_outcome(recovering: bool, reply: Result<AgentResponse, String>) -> (o: StatusOutcome)
    ensures
        match reply {
            Ok(AgentResponse::Running { running, exit_code, .. }) => o == (if recovering {
                StatusOutcome::Recovered(MemberStatus { running, exit_code })
            } else {
                StatusOutcome::Observed(MemberStatus { running, exit_code })
            }),
            _ => o == (if recovering {
                StatusOutcome::Recovered(MemberStatus { running: false, exit_code: None })
            } else {
                StatusOutcome::Ignored
            }),
        },
{
    match reply {
        Ok(AgentResponse::Running { running, exit_code, .. }) => {
            let status = MemberStatus { running, exit_code };
            if recovering { StatusOutcome::Recovered(status) } else { StatusOutcome::Observed(status) }
        },
        _ => if recovering {
            StatusOutcome::Recovered(MemberStatus { running: false, exit_code: None })
        } else {
            StatusOutcome::Ignored
        },
    }
}

// ---------------------------------------------------------------------------
// Where executable work may run.

/// What a queued workload needs: CPU, memory, devices.
pub open spec fn needs_kind(needs: Seq<ResourceClass>, pred: spec_fn(ResourceClass) -> bool) -> bool {
    exists|i: int| 0 <= i < needs.len() && #[trigger] pred(needs[i])
}

pub open spec fn is_cpu(k: ResourceClass) -> bool {
    k == ResourceClass::Cpu
}

pub open spec fn is_memory(k: ResourceClass) -> bool {
    k == ResourceClass::Memory
}

pub open spec fn is_device_kind(k: ResourceClass) -> bool {
    k.is_device_class()
}

/// A machine cannot run the work: the runtime of its execution class
/// (container or process; none reported means nothing proven) is
/// unavailable, or cannot enforce a CPU, memory or device need, or the
/// machine's CPU or memory is NUMA-normalized and the runtime cannot place
/// it.
pub open spec fn excluded(caps: Option<ExecutionCapabilities>, container: bool, needs: Seq<ResourceClass>, normalized_cpu: bool, normalized_memory: bool) -> bool {
    let mode = match caps {
        Some(c) => if container { c.container } else { c.process },
        None => RuntimeCapabilities {
            available: false,
            cpu_limit: false,
            memory_limit: false,
            device_isolation: false,
            physical_cpu_placement: false,
            numa_memory_placement: false,
        },
    };
    let needs_cpu = needs_kind(needs, |k: ResourceClass| is_cpu(k));
    let needs_memory = needs_kind(needs, |k: ResourceClass| is_memory(k));
    let needs_devices = needs_kind(needs, |k: ResourceClass| is_device_kind(k));
    ||| !mode.available
    ||| (needs_cpu && !mode.cpu_limit)
    ||| (needs_memory && !mode.memory_limit)
    ||| (needs_devices && !mode.device_isolation)
    ||| (needs_cpu && normalized_cpu && !mode.physical_cpu_placement)
    ||| (needs_memory && normalized_memory && !mode.numa_memory_placement)
}

fn needs_any(needs: &[ResourceClass], cpu: bool, memory: bool) -> (r: bool)
    ensures
        cpu ==> r == needs_kind(needs@, |k: ResourceClass| is_cpu(k)),
        !cpu && memory ==> r == needs_kind(needs@, |k: ResourceClass| is_memory(k)),
        !cpu && !memory ==> r == needs_kind(needs@, |k: ResourceClass| is_device_kind(k)),
{
    let mut i: usize = 0;
    while i < needs.len()
        invariant
            i <= needs@.len(),
            cpu ==> forall|j: int| 0 <= j < i ==> !is_cpu(#[trigger] needs@[j]),
            !cpu && memory ==> forall|j: int| 0 <= j < i ==> !is_memory(#[trigger] needs@[j]),
            !cpu && !memory ==> forall|j: int| 0 <= j < i ==> !is_device_kind(#[trigger] needs@[j]),
        decreases needs@.len() - i,
    {
        let k = needs[i];
        let hit = if cpu { k == ResourceClass::Cpu } else if memory { k == ResourceClass::Memory } else { k.is_device() };
        if hit {
            assert(cpu ==> (|k: ResourceClass| is_cpu(k))(needs@[i as int]));
            assert(!cpu && memory ==> (|k: ResourceClass| is_memory(k))(needs@[i as int]));
            assert(!cpu && !memory ==> (|k: ResourceClass| is_device_kind(k))(needs@[i as int]));
            return true;
        }
        i = i + 1;
    }
    false
}

/// Whether executable work with these needs is excluded from a machine
/// (see `excluded`); `normalized_cpu` and `normalized_memory` say whether
/// the machine's CPU and memory nodes carry provider host ids.
pub fn execution_excluded(
    caps: Option<ExecutionCapabilities>,
    container: bool,
    needs: &[ResourceClass],
    normalized_cpu: bool,
    normalized_memory: bool,
) -> (r: bool)
    ensures
        r == excluded(caps, container, needs@, normalized_cpu, normalized_memory),
{
    let mode = match caps {
        Some(c) => if container { c.container } else { c.process },
        None => RuntimeCapabilities {
            available: false,
            cpu_limit: false,
            memory_limit: false,
            device_isolation: false,
            physical_cpu_placement: false,
            numa_memory_placement: false,
        },
    };
    let needs_cpu = needs_any(needs, true, false);
    let needs_memory = needs_any(needs, false, true);
    let needs_devices = needs_any(needs, false, false);
    !mode.available || (needs_cpu && !mode.cpu_limit) || (needs_memory && !mode.memory_limit) || (needs_devices
        && !mode.device_isolation) || (needs_cpu && normalized_cpu && !mode.physical_cpu_placement) || (needs_memory
        && normalized_memory && !mode.numa_memory_placement)
}

/// Lease authority requires proven enforcement: a machine that proved no
/// execution capabilities runs no executable work, and one whose runtime
/// for the work's class cannot isolate devices, limit CPU or limit memory
/// runs no work that needs that.
pub proof fn lemma_unproven_enforcement_excludes(
    caps: Option<ExecutionCapabilities>,
    container: bool,
    needs: Seq<ResourceClass>,
    normalized_cpu: bool,
    normalized_memory: bool,
    i: int,
)
    requires
        0 <= i < needs.len(),
    ensures
        caps is None ==> excluded(caps, container, needs, normalized_cpu, normalized_memory),
        (caps matches Some(c) && needs[i].is_device_class()
            && !(if container { c.container } else { c.process }).device_isolation)
            ==> excluded(caps, container, needs, normalized_cpu, normalized_memory),
        (caps matches Some(c) && needs[i] == ResourceClass::Cpu
            && !(if container { c.container } else { c.process }).cpu_limit)
            ==> excluded(caps, container, needs, normalized_cpu, normalized_memory),
        (caps matches Some(c) && needs[i] == ResourceClass::Memory
            && !(if container { c.container } else { c.process }).memory_limit)
            ==> excluded(caps, container, needs, normalized_cpu, normalized_memory),
{
    assert((|k: ResourceClass| is_cpu(k))(needs[i]) == (needs[i] == ResourceClass::Cpu));
    assert((|k: ResourceClass| is_memory(k))(needs[i]) == (needs[i] == ResourceClass::Memory));
    assert((|k: ResourceClass| is_device_kind(k))(needs[i]) == needs[i].is_device_class());
}

/// Work admitted to a machine can be enforced and placed there: the machine
/// proved capabilities, its runtime for the work's class is available, a
/// CPU need has a CPU limit and, on NUMA-normalized CPUs, physical CPU
/// placement; a memory need has a memory limit and, on normalized memory,
/// NUMA memory placement; a device need has device isolation.
pub proof fn lemma_admitted_work_is_enforceable(
    caps: Option<ExecutionCapabilities>,
    container: bool,
    needs: Seq<ResourceClass>,
    normalized_cpu: bool,
    normalized_memory: bool,
    i: int,
)
    requires
        !excluded(caps, container, needs, normalized_cpu, normalized_memory),
        0 <= i < needs.len(),
    ensures
        caps is Some,
        ({
            let mode = if container { caps->0.container } else { caps->0.process };
            &&& mode.available
            &&& needs[i] == ResourceClass::Cpu ==> mode.cpu_limit && (normalized_cpu ==> mode.physical_cpu_placement)
            &&& needs[i] == ResourceClass::Memory ==> mode.memory_limit && (normalized_memory ==> mode.numa_memory_placement)
            &&& needs[i].is_device_class() ==> mode.device_isolation
        }),
{
    assert((|k: ResourceClass| is_cpu(k))(needs[i]) == (needs[i] == ResourceClass::Cpu));
    assert((|k: ResourceClass| is_memory(k))(needs[i]) == (needs[i] == ResourceClass::Memory));
    assert((|k: ResourceClass| is_device_kind(k))(needs[i]) == needs[i].is_device_class());
}

/// A claim can be enforced: this node's enforcement provides its binding
/// and its kind is one the agent enforces (CPU, memory or a device).
pub fn claim_enforceable(provider: ProviderId, kind: ResourceClass) -> (r: bool)
    ensures
        r == (provider == ProviderId::Enforce && (kind == ResourceClass::Cpu || kind == ResourceClass::Memory || kind.is_device_class())),
{
    provider == ProviderId::Enforce && (kind == ResourceClass::Cpu || kind == ResourceClass::Memory || kind.is_device())
}

/// One device claim of a lease: the machine its node belongs to, the
/// node's kind and attributes (None when the node is gone).
pub struct DeviceClaim {
    pub machine: Option<NodeId>,
    pub kind: Option<ResourceClass>,
    pub attrs: Option<Attrs>,
}

pub open spec fn claim_selected(c: DeviceClaim, machine: Option<NodeId>) -> bool {
    &&& (machine matches Some(m) ==> c.machine == Some(m))
    &&& (c.kind matches Some(k) && k.is_device_class())
}

pub open spec fn claim_access(c: DeviceClaim) -> Option<(Seq<char>, Seq<char>, Seq<Seq<char>>, Option<Seq<char>>)> {
    match c.attrs {
        Some(a) => DeviceAccess::from_attrs_spec(a.view()),
        None => None,
    }
}

pub open spec fn lease_device_access(claims: Seq<DeviceClaim>, machine: Option<NodeId>) -> Seq<(Seq<char>, Seq<char>, Seq<Seq<char>>, Option<Seq<char>>)>
    decreases claims.len(),
{
    if claims.len() == 0 {
        Seq::empty()
    } else {
        let prev = lease_device_access(claims.drop_last(), machine);
        let c = claims.last();
        if claim_selected(c, machine) && claim_access(c) is Some { prev.push(claim_access(c)->0) } else { prev }
    }
}

pub open spec fn access_parts(v: Seq<DeviceAccess>) -> Seq<(Seq<char>, Seq<char>, Seq<Seq<char>>, Option<Seq<char>>)> {
    v.map_values(|a: DeviceAccess| a.parts())
}

/// The devices a lease holds (on `machine`, or anywhere when None): each
/// claimed GPU, NIC or NVMe node whose attributes name a device path.
pub fn lease_devices_for_machine(claims: &[DeviceClaim], machine: Option<NodeId>) -> (devices: Vec<DeviceAccess>)
    requires
        forall|i: int| 0 <= i < claims@.len() ==> ((#[trigger] claims@[i]).attrs matches Some(a) ==> a.wf()),
    ensures
        access_parts(devices@) == lease_device_access(claims@, machine),
{
    let mut devices: Vec<DeviceAccess> = Vec::new();
    let mut i: usize = 0;
    while i < claims.len()
        invariant
            i <= claims@.len(),
            forall|x: int| 0 <= x < claims@.len() ==> ((#[trigger] claims@[x]).attrs matches Some(a) ==> a.wf()),
            access_parts(devices@) == lease_device_access(claims@.take(i as int), machine),
        decreases claims@.len() - i,
    {
        let c = &claims[i];
        assert(claims@.take(i + 1).drop_last() =~= claims@.take(i as int));
        let on_machine = match machine {
            Some(m) => c.machine == Some(m),
            None => true,
        };
        let device = match c.kind {
            Some(k) => k.is_device(),
            None => false,
        };
        if on_machine && device {
            match &c.attrs {
                Some(a) => {
                    match DeviceAccess::from_attrs(a) {
                        Some(access) => {
                            let ghost before = devices@;
                            devices.push(access);
                            assert(access_parts(devices@) =~= access_parts(before).push(access.parts()));
                        },
                        None => {},
                    }
                },
                None => {},
            }
        }
        i = i + 1;
    }
    assert(claims@.take(i as int) =~= claims@);
    devices
}

/// What the control plane knows of one machine an active lease runs on.
#[derive(Clone, Copy, Debug, PartialEq, Eq, Structural)]
pub struct MemberMachine {
    pub machine: NodeId,
    /// The machine is being recovered after a controller restart.
    pub recovering: bool,
    /// The machine's live agent session, if it has one.
    pub session: Option<u64>,
    /// Execution was already started, or a start is in flight, under
    /// that session.
    pub started: bool,
}

/// Every binding is active and its provider acknowledged the activation
/// under the binding's current session and fence.
pub open spec fn providers_ready(bindings: Seq<(bool, bool)>) -> bool {
    bindings.len() > 0 && forall|i: int| 0 <= i < bindings.len() ==> (#[trigger] bindings[i]).0 && bindings[i].1
}

/// The machines that get a start request, with the session it is sent
/// under: each with a live session, not being recovered (recovery adopts
/// running work through status proof), and not started under that session.
pub open spec fn start_targets(machines: Seq<MemberMachine>) -> Seq<(NodeId, u64)>
    decreases machines.len(),
{
    if machines.len() == 0 {
        Seq::empty()
    } else {
        let prev = start_targets(machines.drop_last());
        let m = machines.last();
        match m.session {
            Some(session) => if !m.recovering && !m.started { prev.push((m.machine, session)) } else { prev },
            None => prev,
        }
    }
}

/// Where an active lease's execution is started: nowhere unless the lease
/// is active, its workload has a program and every provider is ready
/// (`bindings` pairs each binding's activity with its provider's
/// acknowledgement); then on each machine `start_targets` picks.
pub fn execution_start_targets(lease_active: bool, has_program: bool, bindings: &[(bool, bool)], machines: &[MemberMachine]) -> (targets: Vec<(NodeId, u64)>)
    ensures
        targets@ == if lease_active && has_program && providers_ready(bindings@) {
            start_targets(machines@)
        } else {
            Seq::empty()
        },
{
    let mut targets: Vec<(NodeId, u64)> = Vec::new();
    if !lease_active || !has_program || bindings.len() == 0 {
        return targets;
    }
    let mut k: usize = 0;
    while k < bindings.len()
        invariant
            k <= bindings@.len(),
            lease_active && has_program,
            targets@ == Seq::<(NodeId, u64)>::empty(),
            forall|i: int| 0 <= i < k ==> (#[trigger] bindings@[i]).0 && bindings@[i].1,
        decreases bindings@.len() - k,
    {
        if !(bindings[k].0 && bindings[k].1) {
            assert(!(bindings@[k as int].0 && bindings@[k as int].1));
            return targets;
        }
        k = k + 1;
    }
    let mut i: usize = 0;
    while i < machines.len()
        invariant
            i <= machines@.len(),
            lease_active && has_program && providers_ready(bindings@),
            targets@ == start_targets(machines@.take(i as int)),
        decreases machines@.len() - i,
    {
        assert(machines@.take(i + 1).drop_last() =~= machines@.take(i as int));
        let m = machines[i];
        if let Some(session) = m.session {
            if !m.recovering && !m.started {
                targets.push((m.machine, session));
            }
        }
        i = i + 1;
    }
    assert(machines@.take(i as int) =~= machines@);
    targets
}

/// Recovery adopts running work through status proof and a start is sent
/// once per session: every start target is a machine with that live
/// session that is neither being recovered nor already started under it.
pub proof fn lemma_start_targets_only_fresh(machines: Seq<MemberMachine>, t: (NodeId, u64))
    requires
        start_targets(machines).contains(t),
    ensures
        exists|i: int|
            0 <= i < machines.len() && (#[trigger] machines[i]).machine == t.0 && machines[i].session == Some(t.1)
                && !machines[i].recovering && !machines[i].started,
    decreases machines.len(),
{
    let prev = start_targets(machines.drop_last());
    if prev.contains(t) {
        lemma_start_targets_only_fresh(machines.drop_last(), t);
        let i = choose|i: int|
            0 <= i < machines.drop_last().len() && (#[trigger] machines.drop_last()[i]).machine == t.0
                && machines.drop_last()[i].session == Some(t.1) && !machines.drop_last()[i].recovering
                && !machines.drop_last()[i].started;
        assert(machines[i] == machines.drop_last()[i]);
    } else {
        let last = machines.len() - 1;
        assert(machines[last] == machines.last());
    }
}

/// What the control plane knows of one lease when a machine turns
/// unhealthy: whether it already ended (failed, released, revoked or
/// expired) and the machine of each of its claims (None for a claim whose
/// node has no machine).
pub struct LeaseClaims {
    pub lease: u64,
    pub ended: bool,
    pub machines: Vec<Option<NodeId>>,
}

pub open spec fn claims_on(machines: Seq<Option<NodeId>>, machine: NodeId) -> bool {
    exists|i: int| 0 <= i < machines.len() && #[trigger] machines[i] == Some(machine)
}

/// The leases an unhealthy machine fails, in order: those still live with
/// a claim on it.
pub open spec fn failed_by_unhealthy(leases: Seq<LeaseClaims>, machine: NodeId) -> Seq<u64>
    decreases leases.len(),
{
    if leases.len() == 0 {
        Seq::empty()
    } else {
        let prev = failed_by_unhealthy(leases.drop_last(), machine);
        let l = leases.last();
        if !l.ended && claims_on(l.machines@, machine) { prev.push(l.lease) } else { prev }
    }
}

fn has_claim_on(machines: &Vec<Option<NodeId>>, machine: NodeId) -> (r: bool)
    ensures
        r == claims_on(machines@, machine),
{
    let mut i: usize = 0;
    while i < machines.len()
        invariant
            i <= machines@.len(),
            forall|j: int| 0 <= j < i ==> #[trigger] machines@[j] != Some(machine),
        decreases machines@.len() - i,
    {
        if let Some(m) = machines[i] {
            if m == machine {
                return true;
            }
        }
        i = i + 1;
    }
    false
}

/// The live leases a machine that turned unhealthy fails: every lease not
/// yet ended that holds a claim on the machine, in order.
pub fn unhealthy_machine_leases(leases: &[LeaseClaims], machine: NodeId) -> (failed: Vec<u64>)
    ensures
        failed@ == failed_by_unhealthy(leases@, machine),
{
    let mut failed: Vec<u64> = Vec::new();
    let mut i: usize = 0;
    while i < leases.len()
        invariant
            i <= leases@.len(),
            failed@ == failed_by_unhealthy(leases@.take(i as int), machine),
        decreases leases@.len() - i,
    {
        assert(leases@.take(i + 1).drop_last() =~= leases@.take(i as int));
        let l = &leases[i];
        if !l.ended && has_claim_on(&l.machines, machine) {
            failed.push(l.lease);
        }
        i = i + 1;
    }
    assert(leases@.take(i as int) =~= leases@);
    failed
}

/// What expiry reads of one lease: whether it still holds or awaits
/// authority (reserved, preparing or active) and when it expires.
#[derive(Clone, Copy, Debug, PartialEq, Eq, Structural)]
pub struct LeaseTerm {
    pub lease: u64,
    pub live: bool,
    pub expires_at: u64,
}

/// The leases due to expire at `now`, in order.
pub open spec fn due_leases(leases: Seq<LeaseTerm>, now: u64) -> Seq<u64>
    decreases leases.len(),
{
    if leases.len() == 0 {
        Seq::empty()
    } else {
        let prev = due_leases(leases.drop_last(), now);
        let l = leases.last();
        if l.live && now >= l.expires_at { prev.push(l.lease) } else { prev }
    }
}

/// The live leases whose term has run out by `now`.
pub fn expiring_leases(leases: &[LeaseTerm], now: u64) -> (due: Vec<u64>)
    ensures
        due@ == due_leases(leases@, now),
{
    let mut due: Vec<u64> = Vec::new();
    let mut i: usize = 0;
    while i < leases.len()
        invariant
            i <= leases@.len(),
            due@ == due_leases(leases@.take(i as int), now),
        decreases leases@.len() - i,
    {
        assert(leases@.take(i + 1).drop_last() =~= leases@.take(i as int));
        let l = leases[i];
        if l.live && now >= l.expires_at {
            due.push(l.lease);
        }
        i = i + 1;
    }
    assert(leases@.take(i as int) =~= leases@);
    due
}

} // verus!
