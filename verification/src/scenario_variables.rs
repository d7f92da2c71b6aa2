//! Scenario variables: typed variables whose value comes from the
//! environment, and on which case statements depend.
use crate::scenarios::Scenario;
use crate::strings::{push_str, seq_join, str_eq, views};
use vstd::prelude::*;

verus! {

/// The union of the masks of a list of values.
pub open spec fn or_masks(v: Seq<(String, Scenario)>) -> u64
    decreases v.len(),
{
    if v.len() == 0 {
        0
    } else {
        or_masks(v.drop_last()) | v.last().1.0
    }
}

/// The names of a list of values.
pub open spec fn value_names(v: Seq<(String, Scenario)>) -> Seq<Seq<char>> {
    v.map_values(|p: (String, Scenario)| p.0@)
}

/// The names of the values whose mask intersects the scenario.
pub open spec fn names_in(v: Seq<(String, Scenario)>, s: Scenario) -> Seq<Seq<char>>
    decreases v.len(),
{
    if v.len() == 0 {
        Seq::empty()
    } else if s.0 & v.last().1.0 != 0 {
        names_in(v.drop_last(), s).push(v.last().0@)
    } else {
        names_in(v.drop_last(), s)
    }
}

/// The mask of the first value with the given name, or 0.
pub open spec fn spec_mask(v: Seq<(String, Scenario)>, value: Seq<char>) -> u64
    decreases v.len(),
{
    if v.len() == 0 {
        0
    } else if v[0].0@ == value {
        v[0].1.0
    } else {
        spec_mask(v.subrange(1, v.len() as int), value)
    }
}

/// Each value's mask is included in the union of all masks.
pub proof fn lemma_or_masks_contains(v: Seq<(String, Scenario)>, j: int)
    requires
        0 <= j < v.len(),
    ensures
        v[j].1.0 & or_masks(v) == v[j].1.0,
    decreases v.len(),
{
    let m = v[j].1.0;
    let prev = or_masks(v.drop_last());
    let last = v.last().1.0;
    if j == v.len() - 1 {
        assert(m & (prev | m) == m) by (bit_vector);
    } else {
        lemma_or_masks_contains(v.drop_last(), j);
        assert(v.drop_last()[j] == v[j]);
        assert(m & prev == m ==> m & (prev | last) == m) by (bit_vector);
    }
}

/// A scenario intersects the union of the masks if and only if it
/// intersects one of the masks.
pub proof fn lemma_or_masks_intersect(v: Seq<(String, Scenario)>, s: u64)
    ensures
        (s & or_masks(v) == 0) <==> (forall|j: int| 0 <= j < v.len() ==> s & #[trigger] v[j].1.0 == 0),
    decreases v.len(),
{
    if v.len() == 0 {
        assert(s & 0 == 0) by (bit_vector);
    } else {
        let d = v.drop_last();
        let prev = or_masks(d);
        let last = v.last().1.0;
        lemma_or_masks_intersect(d, s);
        assert((s & (prev | last) == 0) <==> (s & prev == 0 && s & last == 0)) by (bit_vector);
        assert forall|j: int| 0 <= j < d.len() implies #[trigger] d[j] == v[j] by {}
        if s & or_masks(v) == 0 {
            assert forall|j: int| 0 <= j < v.len() implies s & #[trigger] v[j].1.0 == 0 by {
                if j < v.len() - 1 {
                    assert(d[j] == v[j]);
                }
            }
        } else if s & last == 0 {
            assert(!(forall|j: int| 0 <= j < d.len() ==> s & #[trigger] d[j].1.0 == 0));
            let j = choose|j: int| !(0 <= j < d.len() ==> s & #[trigger] d[j].1.0 == 0);
            assert(d[j] == v[j]);
            assert(s & v[j].1.0 != 0);
        } else {
            assert(s & v[v.len() - 1].1.0 != 0);
        }
    }
}

/// A scenario variable and its list of valid values.
#[derive(Debug)]
pub struct ScenarioVariable {
    pub name: String,
    pub valid: Vec<(String, Scenario)>,
    /// bitmask set to 1 for all entries in valid, and all other variables
    /// unset.  This is used for case statements to resolve "others".
    pub full_mask: Scenario,
}

impl ScenarioVariable {
    /// The full mask is the union of the masks of the values.
    pub open spec fn wf(&self) -> bool {
        self.full_mask.0 == or_masks(self.valid@)
    }

    /// How the variable is displayed for a scenario: its name and the values
    /// allowed by the scenario.
    pub open spec fn description(&self, s: Scenario) -> Seq<char> {
        self.name@ + "="@ + seq_join(names_in(self.valid@, s), "|"@)
    }

    /// Create a new scenario variable and its list of valid values.
    /// The list of values must be sorted, so that we can easily compare two
    /// such lists in the future.
    pub fn new(name: String, valid: Vec<(String, Scenario)>) -> (r: Self)
        ensures
            r.wf(),
            r.name == name,
            r.valid == valid,
    {
        let mut full: u64 = 0;
        let mut i: usize = 0;
        while i < valid.len()
            invariant
                i <= valid@.len(),
                full == or_masks(valid@.take(i as int)),
            decreases valid.len() - i,
        {
            full = full | valid[i].1.0;
            i = i + 1;
            assert(valid@.take(i as int).drop_last() =~= valid@.take(i - 1));
        }
        assert(valid@.take(valid@.len() as int) =~= valid@);
        ScenarioVariable { name, valid, full_mask: Scenario(full) }
    }

    /// Check whether this variable has the exact same list of valid values.
    /// The list of values must be sorted.
    pub fn has_same_valid(&self, valid: &[String]) -> (r: bool)
        ensures
            r == (value_names(self.valid@) == views(valid@)),
    {
        if self.valid.len() != valid.len() {
            assert(value_names(self.valid@).len() != views(valid@).len());
            return false;
        }
        let mut i: usize = 0;
        while i < valid.len()
            invariant
                self.valid@.len() == valid@.len(),
                i <= valid@.len(),
                forall|j: int| 0 <= j < i ==> self.valid@[j].0@ == valid@[j]@,
            decreases valid.len() - i,
        {
            if !str_eq(self.valid[i].0.as_str(), valid[i].as_str()) {
                assert(value_names(self.valid@)[i as int] != views(valid@)[i as int]);
                return false;
            }
            i = i + 1;
        }
        assert(value_names(self.valid@) =~= views(valid@));
        true
    }

    /// The list of valid values (sorted alphabetically).
    pub fn list_valid(&self) -> (r: &[(String, Scenario)])
        ensures
            r@ == self.valid@,
    {
        self.valid.as_slice()
    }

    /// The number of valid values.
    pub fn count_valid(&self) -> (r: usize)
        ensures
            r == self.valid@.len(),
    {
        self.valid.len()
    }

    /// The name of the variable.
    pub fn name(&self) -> (r: &String)
        ensures
            *r == self.name,
    {
        &self.name
    }

    /// The mask for one specific value of the variable (empty if the value
    /// is not valid).
    pub fn mask(&self, value: &str) -> (r: Scenario)
        ensures
            r.0 == spec_mask(self.valid@, value@),
    {
        let mut i: usize = 0;
        assert(self.valid@.subrange(0, self.valid@.len() as int) =~= self.valid@);
        while i < self.valid.len()
            invariant
                i <= self.valid@.len(),
                spec_mask(self.valid@, value@) == spec_mask(
                    self.valid@.subrange(i as int, self.valid@.len() as int),
                    value@,
                ),
            decreases self.valid.len() - i,
        {
            assert(self.valid@.subrange(i as int, self.valid@.len() as int).subrange(
                1,
                self.valid@.len() - i,
            ) =~= self.valid@.subrange(i + 1, self.valid@.len() as int));
            if str_eq(self.valid[i].0.as_str(), value) {
                return self.valid[i].1;
            }
            i = i + 1;
        }
        Scenario(0)
    }

    /// The union of the masks of all valid values.
    pub fn full_mask(&self) -> (r: Scenario)
        ensures
            r == self.full_mask,
    {
        self.full_mask
    }

    /// Displays the variable for a scenario: "NAME=value1|value2".
    pub fn describe(&self, scenario: Scenario) -> (r: String)
        ensures
            r@ == self.description(scenario),
    {
        let mut names: Vec<String> = Vec::new();
        let mut i: usize = 0;
        while i < self.valid.len()
            invariant
                i <= self.valid@.len(),
                views(names@) == names_in(self.valid@.take(i as int), scenario),
            decreases self.valid.len() - i,
        {
            let ghost old_names = names@;
            assert(self.valid@.take(i + 1).drop_last() =~= self.valid@.take(i as int));
            if scenario.0 & self.valid[i].1.0 != 0 {
                names.push(self.valid[i].0.clone());
                assert(views(names@) =~= views(old_names).push(self.valid@[i as int].0@));
            }
            i = i + 1;
        }
        assert(self.valid@.take(self.valid@.len() as int) =~= self.valid@);
        let mut r = self.name.clone();
        push_str(&mut r, "=");
        let j = crate::strings::join(&names, "|");
        push_str(&mut r, j.as_str());
        r
    }
}

} // verus!
