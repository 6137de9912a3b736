//! Workload execution intent and service-group cardinality above the
//! resource kernel.
use vstd::prelude::*;

verus! {

/// A host directory bound into a container.
#[derive(Clone, Debug, PartialEq, Eq)]
pub struct StorageMount {
    pub host_path: String,
    pub mount_path: String,
}

/// A container port published to the host; None lets the host choose.
#[derive(Clone, Debug, PartialEq, Eq)]
pub struct PortPublish {
    pub container_port: u16,
    pub host_port: Option<u16>,
}

/// What one workload member executes.
#[derive(Clone, Debug, PartialEq, Eq)]
pub struct ExecutionSpec {
    pub command: Vec<String>,
    pub image: Option<String>,
    pub storage: Vec<StorageMount>,
    pub ports: Vec<PortPublish>,
    pub grace_secs: u32,
}

impl ExecutionSpec {
    /// The empty execution intent: nothing to run.
    pub fn new() -> (spec: ExecutionSpec)
        ensures
            spec.command@.len() == 0,
            spec.image is None,
            spec.storage@.len() == 0,
            spec.ports@.len() == 0,
            spec.grace_secs == 0,
    {
        ExecutionSpec { command: Vec::new(), image: None, storage: Vec::new(), ports: Vec::new(), grace_secs: 0 }
    }

    /// A member executes something: a command, or a container image.
    pub open spec fn spec_has_program(&self) -> bool {
        self.command@.len() > 0 || self.image is Some
    }

    pub fn has_program(&self) -> (r: bool)
        ensures
            r == self.spec_has_program(),
    {
        !self.command.is_empty() || self.image.is_some()
    }

    /// The member runs as a container: it names a non-empty image.
    pub open spec fn spec_is_container(&self) -> bool {
        self.image matches Some(image) && image@.len() > 0
    }

    pub fn is_container(&self) -> (r: bool)
        ensures
            r == self.spec_is_container(),
    {
        match &self.image {
            Some(image) => !image.as_str().is_empty(),
            None => false,
        }
    }
}

/// How many members a group wants: fixed counts stay put, elastic bounds
/// are steered by an explicit target within [min, max], and per-machine
/// groups follow the eligible machine set.
#[derive(Clone, Copy, Debug, PartialEq, Eq, Structural)]
pub enum Cardinality {
    /// Run exactly this many members.
    Fixed(usize),
    /// Maintain `target` members, steerable within [min, max] by scaling.
    Elastic { min: usize, target: usize, max: usize },
    /// One member on each machine able to host the template.
    PerMachine,
}

/// Why a cardinality policy is malformed.
pub open spec fn cardinality_error(c: Cardinality) -> Option<Seq<char>> {
    match c {
        Cardinality::Fixed(0) => Some("fixed cardinality must be positive"@),
        Cardinality::Elastic { min, target, max } => {
            if min == 0 || min > target || target > max {
                Some("elastic cardinality needs 1 <= min <= target <= max"@)
            } else {
                None
            }
        },
        _ => None,
    }
}

impl Cardinality {
    /// The desired member count given the present number of machines.
    pub open spec fn spec_desired_count(self, machines: usize) -> usize {
        match self {
            Cardinality::Fixed(count) => count,
            Cardinality::Elastic { target, .. } => target,
            Cardinality::PerMachine => machines,
        }
    }

    /// Current desired member count given the present machine set.
    /// Per-machine groups want as many members as machines; the scheduler
    /// decides per machine whether a pinned member can actually place.
    pub fn desired_count(&self, machines: usize) -> (count: usize)
        ensures
            count == self.spec_desired_count(machines),
    {
        match *self {
            Cardinality::Fixed(count) => count,
            Cardinality::Elastic { target, .. } => target,
            Cardinality::PerMachine => machines,
        }
    }

    /// Elastic bounds must admit at least one member and hold
    /// min <= target <= max; fixed counts must be positive; per-machine
    /// groups are always well-formed.
    pub fn validate(&self) -> (r: Result<(), String>)
        ensures
            match r {
                Ok(()) => cardinality_error(*self) is None,
                Err(message) => cardinality_error(*self) == Some(message@),
            },
    {
        match *self {
            Cardinality::Fixed(0) => Err(String::from_str("fixed cardinality must be positive")),
            Cardinality::Elastic { min, target, max } => {
                if min == 0 || min > target || target > max {
                    Err(String::from_str("elastic cardinality needs 1 <= min <= target <= max"))
                } else {
                    Ok(())
                }
            },
            _ => Ok(()),
        }
    }
}

/// A well-formed group always wants at least one member, except a
/// per-machine group on an empty machine set.
pub proof fn lemma_valid_cardinality_wants_members(c: Cardinality, machines: usize)
    requires
        cardinality_error(c) is None,
    ensures
        c.spec_desired_count(machines) >= 1 || (c == Cardinality::PerMachine && machines == 0),
        c matches Cardinality::Elastic { min, target, max } ==> min <= c.spec_desired_count(machines) <= max,
{
}

/// What a group wants does not follow the machine count except for a
/// per-machine group: a fixed group wants its count and an elastic group
/// its target, on any number of machines; a per-machine group wants one
/// member per machine.
pub proof fn lemma_desired_count_by_policy(c: Cardinality, machines: usize, other: usize)
    ensures
        c matches Cardinality::Elastic { target, .. } ==> c.spec_desired_count(machines) == target,
        c matches Cardinality::Fixed(count) ==> c.spec_desired_count(machines) == count,
        c == Cardinality::PerMachine ==> c.spec_desired_count(machines) == machines,
        c != Cardinality::PerMachine ==> c.spec_desired_count(machines) == c.spec_desired_count(other),
{
}

} // verus!
