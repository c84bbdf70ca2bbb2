//! Resource ceilings, a sibling of the capability set.
use vstd::prelude::*;

verus! {

/// Resource ceilings for one invocation. Not part of the authority lattice:
/// it takes no part in `is_subset_of` or `meet`.
///
/// Policy defaults: `max_delegation_depth = 2`, `max_children = 8`,
/// `max_concurrent_instances = 32`.
#[derive(Clone, Copy, PartialEq, Eq, Structural, Debug)]
pub struct ResourceBudget {
    preempt_ticks: u32,
    wall_clock_ms: u32,
    memory_bytes: u64,
    output_bytes: u32,
    max_delegation_depth: u32,
    max_children: u32,
    max_concurrent_instances: u32,
}

/// The ceilings as plain numbers, in declaration order.
pub ghost struct Ceilings {
    pub preempt_ticks: nat,
    pub wall_clock_ms: nat,
    pub memory_bytes: nat,
    pub output_bytes: nat,
    pub max_delegation_depth: nat,
    pub max_children: nat,
    pub max_concurrent_instances: nat,
}

impl Ceilings {
    /// No ceiling of `self` is above the same ceiling of `other`.
    pub open spec fn within(self, other: Ceilings) -> bool {
        &&& self.preempt_ticks <= other.preempt_ticks
        &&& self.wall_clock_ms <= other.wall_clock_ms
        &&& self.memory_bytes <= other.memory_bytes
        &&& self.output_bytes <= other.output_bytes
        &&& self.max_delegation_depth <= other.max_delegation_depth
        &&& self.max_children <= other.max_children
        &&& self.max_concurrent_instances <= other.max_concurrent_instances
    }

    /// The lower of each pair of ceilings.
    pub open spec fn lower(self, other: Ceilings) -> Ceilings {
        Ceilings {
            preempt_ticks: lesser(self.preempt_ticks, other.preempt_ticks),
            wall_clock_ms: lesser(self.wall_clock_ms, other.wall_clock_ms),
            memory_bytes: lesser(self.memory_bytes, other.memory_bytes),
            output_bytes: lesser(self.output_bytes, other.output_bytes),
            max_delegation_depth: lesser(self.max_delegation_depth, other.max_delegation_depth),
            max_children: lesser(self.max_children, other.max_children),
            max_concurrent_instances: lesser(
                self.max_concurrent_instances,
                other.max_concurrent_instances,
            ),
        }
    }
}

/// The lesser of two numbers.
pub open spec fn lesser(a: nat, b: nat) -> nat {
    if a <= b {
        a
    } else {
        b
    }
}

impl View for ResourceBudget {
    type V = Ceilings;

    closed spec fn view(&self) -> Ceilings {
        Ceilings {
            preempt_ticks: self.preempt_ticks as nat,
            wall_clock_ms: self.wall_clock_ms as nat,
            memory_bytes: self.memory_bytes as nat,
            output_bytes: self.output_bytes as nat,
            max_delegation_depth: self.max_delegation_depth as nat,
            max_children: self.max_children as nat,
            max_concurrent_instances: self.max_concurrent_instances as nat,
        }
    }
}

fn min_u32(a: u32, b: u32) -> (r: u32)
    ensures
        r as nat == lesser(a as nat, b as nat),
{
    if a <= b {
        a
    } else {
        b
    }
}

impl ResourceBudget {
    /// Construct from components. No lattice check.
    #[must_use]
    pub fn new(
        preempt_ticks: u32,
        wall_clock_ms: u32,
        memory_bytes: u64,
        output_bytes: u32,
        max_delegation_depth: u32,
        max_children: u32,
        max_concurrent_instances: u32,
    ) -> (r: ResourceBudget)
        ensures
            r@ == (Ceilings {
                preempt_ticks: preempt_ticks as nat,
                wall_clock_ms: wall_clock_ms as nat,
                memory_bytes: memory_bytes as nat,
                output_bytes: output_bytes as nat,
                max_delegation_depth: max_delegation_depth as nat,
                max_children: max_children as nat,
                max_concurrent_instances: max_concurrent_instances as nat,
            }),
    {
        ResourceBudget {
            preempt_ticks,
            wall_clock_ms,
            memory_bytes,
            output_bytes,
            max_delegation_depth,
            max_children,
            max_concurrent_instances,
        }
    }

    /// Guest preemption deadline in milliseconds.
    #[must_use]
    pub fn preempt_ticks(&self) -> (r: u32)
        ensures
            r as nat == self@.preempt_ticks,
    {
        self.preempt_ticks
    }

    /// Hard deadline including host calls, in milliseconds.
    #[must_use]
    pub fn wall_clock_ms(&self) -> (r: u32)
        ensures
            r as nat == self@.wall_clock_ms,
    {
        self.wall_clock_ms
    }

    /// Linear memory ceiling in bytes.
    #[must_use]
    pub fn memory_bytes(&self) -> (r: u64)
        ensures
            r as nat == self@.memory_bytes,
    {
        self.memory_bytes
    }

    /// Maximum result size returned to the caller.
    #[must_use]
    pub fn output_bytes(&self) -> (r: u32)
        ensures
            r as nat == self@.output_bytes,
    {
        self.output_bytes
    }

    /// Depth counted from the root request.
    #[must_use]
    pub fn max_delegation_depth(&self) -> (r: u32)
        ensures
            r as nat == self@.max_delegation_depth,
    {
        self.max_delegation_depth
    }

    /// Fan-out per parent.
    #[must_use]
    pub fn max_children(&self) -> (r: u32)
        ensures
            r as nat == self@.max_children,
    {
        self.max_children
    }

    /// Live instances attributable to one identity on one gateway.
    #[must_use]
    pub fn max_concurrent_instances(&self) -> (r: u32)
        ensures
            r as nat == self@.max_concurrent_instances,
    {
        self.max_concurrent_instances
    }

    /// Componentwise `self[i] <= ceiling[i]` for every field.
    #[must_use]
    pub fn is_within(&self, ceiling: &ResourceBudget) -> (r: bool)
        ensures
            r == self@.within(ceiling@),
            r == {
                &&& self@.preempt_ticks <= ceiling@.preempt_ticks
                &&& self@.wall_clock_ms <= ceiling@.wall_clock_ms
                &&& self@.memory_bytes <= ceiling@.memory_bytes
                &&& self@.output_bytes <= ceiling@.output_bytes
                &&& self@.max_delegation_depth <= ceiling@.max_delegation_depth
                &&& self@.max_children <= ceiling@.max_children
                &&& self@.max_concurrent_instances <= ceiling@.max_concurrent_instances
            },
    {
        self.preempt_ticks <= ceiling.preempt_ticks && self.wall_clock_ms <= ceiling.wall_clock_ms
            && self.memory_bytes <= ceiling.memory_bytes && self.output_bytes
            <= ceiling.output_bytes && self.max_delegation_depth <= ceiling.max_delegation_depth
            && self.max_children <= ceiling.max_children && self.max_concurrent_instances
            <= ceiling.max_concurrent_instances
    }

    /// Componentwise greatest lower bound.
    #[must_use]
    pub fn min(&self, other: &ResourceBudget) -> (r: ResourceBudget)
        ensures
            r@ == self@.lower(other@),
    {
        ResourceBudget {
            preempt_ticks: min_u32(self.preempt_ticks, other.preempt_ticks),
            wall_clock_ms: min_u32(self.wall_clock_ms, other.wall_clock_ms),
            memory_bytes: if self.memory_bytes <= other.memory_bytes {
                self.memory_bytes
            } else {
                other.memory_bytes
            },
            output_bytes: min_u32(self.output_bytes, other.output_bytes),
            max_delegation_depth: min_u32(self.max_delegation_depth, other.max_delegation_depth),
            max_children: min_u32(self.max_children, other.max_children),
            max_concurrent_instances: min_u32(
                self.max_concurrent_instances,
                other.max_concurrent_instances,
            ),
        }
    }
}

/// Every budget is within itself.
pub proof fn within_is_reflexive(a: Ceilings)
    ensures
        a.within(a),
{
}

/// Being within is transitive.
pub proof fn within_is_transitive(a: Ceilings, b: Ceilings, c: Ceilings)
    requires
        a.within(b),
        b.within(c),
    ensures
        a.within(c),
{
}

/// Two budgets that are within each other are the same budget: no ceiling is
/// left out of the comparison.
pub proof fn within_is_antisymmetric(a: Ceilings, b: Ceilings)
    requires
        a.within(b),
        b.within(a),
    ensures
        a == b,
{
}

/// A budget with one ceiling above that of the other is not within it,
/// whichever ceiling it is; a budget with no ceiling above is.
pub proof fn one_ceiling_above_is_too_much(a: Ceilings, b: Ceilings)
    ensures
        a.preempt_ticks > b.preempt_ticks ==> !a.within(b),
        a.wall_clock_ms > b.wall_clock_ms ==> !a.within(b),
        a.memory_bytes > b.memory_bytes ==> !a.within(b),
        a.output_bytes > b.output_bytes ==> !a.within(b),
        a.max_delegation_depth > b.max_delegation_depth ==> !a.within(b),
        a.max_children > b.max_children ==> !a.within(b),
        a.max_concurrent_instances > b.max_concurrent_instances ==> !a.within(b),
        !a.within(b) ==> a.preempt_ticks > b.preempt_ticks || a.wall_clock_ms > b.wall_clock_ms
            || a.memory_bytes > b.memory_bytes || a.output_bytes > b.output_bytes
            || a.max_delegation_depth > b.max_delegation_depth || a.max_children > b.max_children
            || a.max_concurrent_instances > b.max_concurrent_instances,
{
}

/// `min` is the greatest budget within both.
pub proof fn min_is_greatest_lower_bound(a: Ceilings, b: Ceilings, c: Ceilings)
    ensures
        a.lower(b).within(a),
        a.lower(b).within(b),
        c.within(a) && c.within(b) ==> c.within(a.lower(b)),
{
}

} // verus!
