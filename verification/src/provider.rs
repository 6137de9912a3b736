//! The agent's resource-provider bookkeeping: which endpoint a binding
//! generation addresses, and the control generation (agent session and
//! cluster epoch) below which requests are stale.
use vstd::prelude::*;

use crate::protocol::BindingScope;
use crate::text::{decimal, decimal_string};

verus! {

/// The endpoint a binding generation addresses: exclusive resources by
/// (provider, node), independent shares by binding, so one share never
/// fences a sibling.
#[derive(Clone, Copy, Debug, PartialEq, Eq, Structural)]
pub enum EndpointKey {
    Exclusive { provider: u64, node: u64 },
    IndependentShare { binding: u64 },
}

/// One controller-issued generation for a resource binding endpoint.
#[derive(Clone, Copy, Debug, PartialEq, Eq, Structural)]
pub struct EndpointGeneration {
    pub binding: u64,
    pub node: u64,
    pub provider: u64,
    pub scope: BindingScope,
    pub session: u64,
    pub fence: u64,
    pub epoch: u64,
}

pub open spec fn key_of(g: EndpointGeneration) -> EndpointKey {
    match g.scope {
        BindingScope::Exclusive => EndpointKey::Exclusive { provider: g.provider, node: g.node },
        BindingScope::IndependentShare => EndpointKey::IndependentShare { binding: g.binding },
    }
}

pub fn endpoint_key(generation: EndpointGeneration) -> (key: EndpointKey)
    ensures
        key == key_of(generation),
{
    match generation.scope {
        BindingScope::Exclusive => EndpointKey::Exclusive { provider: generation.provider, node: generation.node },
        BindingScope::IndependentShare => EndpointKey::IndependentShare { binding: generation.binding },
    }
}

/// Two exclusive generations for the same provider and node address one
/// endpoint; independent shares of different bindings never do.
pub proof fn lemma_shares_never_collide(a: EndpointGeneration, b: EndpointGeneration)
    ensures
        a.scope == BindingScope::Exclusive && b.scope == BindingScope::Exclusive && a.provider == b.provider && a.node == b.node
            ==> key_of(a) == key_of(b),
        a.scope == BindingScope::IndependentShare && a.binding != b.binding ==> key_of(a) != key_of(b),
{
}

/// The endpoint operations a controller issues.
#[derive(Clone, Copy, Debug, PartialEq, Eq, Structural)]
pub enum EndpointOp {
    Prepare,
    Activate,
    Release,
    Fence,
}

/// Whether applying `op` creates the endpoint, and whether it first adopts
/// the generation as prepared: an activation nobody prepared here (a fresh
/// agent session) adopts the controller's current generation.
pub fn endpoint_admission(op: EndpointOp, exists: bool) -> (r: (bool, bool))
    ensures
        r.1 == (op == EndpointOp::Activate && !exists),
        r.0 == (r.1 || op != EndpointOp::Activate),
{
    let adopt = op == EndpointOp::Activate && !exists;
    (adopt || op != EndpointOp::Activate, adopt)
}

/// The highest agent session and cluster epoch accepted so far.
#[derive(Clone, Copy, Debug, PartialEq, Eq, Structural)]
pub struct ControlGeneration {
    pub session: u64,
    pub epoch: u64,
}

pub open spec fn stale_epoch_message(epoch: u64, current: u64) -> Seq<char> {
    "stale cluster epoch "@ + decimal(epoch as nat) + "; current "@ + decimal(current as nat)
}

pub open spec fn stale_session_message(session: u64, current: u64) -> Seq<char> {
    "stale agent session "@ + decimal(session as nat) + "; current "@ + decimal(current as nat)
}

/// A request's (session, epoch) is current: neither is older than the
/// accepted ones.
pub open spec fn admits(g: ControlGeneration, session: u64, epoch: u64) -> bool {
    epoch >= g.epoch && session >= g.session
}

/// The accepted generation after checking a request.
pub open spec fn after_check(g: ControlGeneration, session: u64, epoch: u64) -> ControlGeneration {
    if admits(g, session, epoch) { ControlGeneration { session, epoch } } else { g }
}

impl ControlGeneration {
    /// Nothing accepted yet.
    pub fn new() -> (g: ControlGeneration)
        ensures
            g.session == 0 && g.epoch == 0,
    {
        ControlGeneration { session: 0, epoch: 0 }
    }

    /// Admit a request's (session, epoch). An older epoch, then an older
    /// session, is refused and changes nothing; otherwise both become the
    /// current ones, and the result says whether the session advanced (the
    /// endpoints then handshake into it).
    pub fn check(&mut self, session: u64, epoch: u64) -> (r: Result<bool, String>)
        ensures
            *final(self) == after_check(*old(self), session, epoch),
            r is Ok <==> admits(*old(self), session, epoch),
            epoch < old(self).epoch ==> (r matches Err(e) && e@ == stale_epoch_message(epoch, old(self).epoch)),
            epoch >= old(self).epoch && session < old(self).session ==> (r matches Err(e) && e@ == stale_session_message(session, old(self).session)),
            r matches Ok(advanced) ==> advanced == (session > old(self).session),
    {
        if epoch < self.epoch {
            return Err(String::from_str("stale cluster epoch ").concat(decimal_string(epoch).as_str()).concat("; current ").concat(
                decimal_string(self.epoch).as_str(),
            ));
        }
        if session < self.session {
            return Err(String::from_str("stale agent session ").concat(decimal_string(session).as_str()).concat("; current ").concat(
                decimal_string(self.session).as_str(),
            ));
        }
        let advanced = session > self.session;
        self.epoch = epoch;
        self.session = session;
        Ok(advanced)
    }
}

/// Accepted control generations never go back: after any check the session
/// and epoch are at least what they were, and once a request is accepted
/// every later request with an older epoch or session is refused.
pub proof fn lemma_control_generation_monotone(g: ControlGeneration, session: u64, epoch: u64, later_session: u64, later_epoch: u64)
    ensures
        after_check(g, session, epoch).session >= g.session,
        after_check(g, session, epoch).epoch >= g.epoch,
        admits(g, session, epoch) && (later_epoch < epoch || later_session < session)
            ==> !admits(after_check(g, session, epoch), later_session, later_epoch),
{
}

} // verus!
