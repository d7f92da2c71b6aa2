//! All scenario variables are stored as a bitmask.
//! It includes all variables (new ones could be discovered later, after a
//! specific scenario has been created).
//! For instance, if the first variable has 3 possible values, the second
//! variable has 2 possible values, and so on, scenarios will be a bitmask
//! like:
//!     [0 1 1][0 1][0 0 ....]
use vstd::prelude::*;

verus! {

/// A set of scenarios, as a bitmask over the values of all variables.
#[derive(Clone, Copy, Debug, PartialEq, Eq, Structural, PartialOrd, Ord, Hash)]
pub struct Scenario(pub u64);

impl Default for Scenario {
    /// The default value is a scenario that applies to all values for all
    /// variables.
    fn default() -> (r: Self)
        ensures
            r == Scenario(u64::MAX),
    {
        Scenario(u64::MAX)
    }
}

impl Scenario {
    /// A scenario that applies to all values of all variables.
    pub open spec fn all() -> Scenario {
        Scenario(u64::MAX)
    }

    /// A scenario that never applies
    pub fn empty() -> (r: Self)
        ensures
            r == Scenario(0),
    {
        Scenario(0)
    }

    /// True if the scenario never applies for any of the variables.
    /// Note that there are cases where a scenario might not apply because one
    /// of the variable has no matching value, but this won't be detected.
    pub fn is_empty(&self) -> (r: bool)
        ensures
            r == (self.0 == 0),
    {
        self.0 == 0
    }

    /// The intersection of two scenarios: all combinations where both apply.
    pub fn and(self, rhs: Scenario) -> (r: Scenario)
        ensures
            r == Scenario(self.0 & rhs.0),
    {
        Scenario(self.0 & rhs.0)
    }

    /// The union of two scenarios.
    pub fn or(self, rhs: Scenario) -> (r: Scenario)
        ensures
            r == Scenario(self.0 | rhs.0),
    {
        Scenario(self.0 | rhs.0)
    }

    /// The complement of a scenario.
    pub fn not(self) -> (r: Scenario)
        ensures
            r == Scenario(!self.0),
    {
        Scenario(!self.0)
    }
}

/// Intersection is commutative and associative, and the scenario that
/// applies everywhere (the default one) leaves any scenario unchanged.
pub proof fn lemma_intersection_laws(a: Scenario, b: Scenario, c: Scenario)
    ensures
        Scenario(a.0 & b.0) == Scenario(b.0 & a.0),
        Scenario((a.0 & b.0) & c.0) == Scenario(a.0 & (b.0 & c.0)),
        Scenario(Scenario::all().0 & a.0) == a,
        Scenario(a.0 & Scenario::all().0) == a,
        Scenario(a.0 & a.0) == a,
{
    let x = a.0;
    let y = b.0;
    let z = c.0;
    assert(x & y == y & x) by (bit_vector);
    assert((x & y) & z == x & (y & z)) by (bit_vector);
    assert(u64::MAX & x == x) by (bit_vector);
    assert(x & u64::MAX == x) by (bit_vector);
    assert(x & x == x) by (bit_vector);
}

/// Compute the intersection of two scenarios, i.e. all combinations where both
/// apply.
impl core::ops::BitAnd<Scenario> for Scenario {
    type Output = Scenario;

    fn bitand(self, rhs: Scenario) -> (r: Scenario)
        ensures
            r == Scenario(self.0 & rhs.0),
    {
        Scenario(self.0 & rhs.0)
    }
}

impl vstd::std_specs::ops::BitAndSpecImpl<Scenario> for Scenario {
    open spec fn obeys_bitand_spec() -> bool {
        true
    }

    open spec fn bitand_req(self, rhs: Scenario) -> bool {
        true
    }

    open spec fn bitand_spec(self, rhs: Scenario) -> Scenario {
        Scenario(self.0 & rhs.0)
    }
}

/// The union of two scenarios.
impl core::ops::BitOr<Scenario> for Scenario {
    type Output = Scenario;

    fn bitor(self, rhs: Scenario) -> (r: Scenario)
        ensures
            r == Scenario(self.0 | rhs.0),
    {
        Scenario(self.0 | rhs.0)
    }
}

impl vstd::std_specs::ops::BitOrSpecImpl<Scenario> for Scenario {
    open spec fn obeys_bitor_spec() -> bool {
        true
    }

    open spec fn bitor_req(self, rhs: Scenario) -> bool {
        true
    }

    open spec fn bitor_spec(self, rhs: Scenario) -> Scenario {
        Scenario(self.0 | rhs.0)
    }
}

} // verus!
