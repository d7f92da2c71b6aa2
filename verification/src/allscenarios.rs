//! Project data can vary based on the values of one or more variables.
//! These variables (named "scenario variables") are typed (so can only take
//! a specific set of values), and can be tested in case statements.
//! When we parse project files, we evaluate all scenarios simultaneously.
use crate::errors::Error;
use crate::perscenario::PerScenario;
use crate::rawexpr::WhenClause;
use crate::scenario_variables::{names_in, or_masks, spec_mask, value_names, ScenarioVariable};
use crate::scenarios::Scenario;
use crate::simplename::StringOrOthers;
use crate::strings::{join, owned, push_str, seq_join, seq_le, str_eq, str_le, views};
use vstd::prelude::*;

verus! {

/// Whether `m` is a mask with a single bit, below the `next_bit`-th bit.
pub open spec fn valid_mask(m: u64, next_bit: u32) -> bool {
    &&& m != 0
    &&& m & ((m - 1) as u64) == 0
    &&& (next_bit >= 64 || m < (1u64 << next_bit))
}

/// Keeps the current state of a case statement.
/// This involves keeping track of what "when" clauses have been seen, so we
/// can flag when we have duplicates or missing choices.
#[derive(Debug, Clone)]
pub struct CaseStmtScenario {
    /// Name of the scenario variable (or value of the expression, when it
    /// does not depend on scenarios)
    pub var: String,
    /// A mask that covers all possible values for the variable
    pub full_mask: Scenario,
    /// The bitmask that lists all values of the variable not yet covered by
    /// a WhenClause.
    pub remaining: Scenario,
}

/// The intersection of all scenarios of a list.
pub open spec fn and_all<T>(v: Seq<(Scenario, T)>) -> u64
    decreases v.len(),
{
    if v.len() == 0 {
        u64::MAX
    } else {
        and_all(v.drop_last()) & v.last().0.0
    }
}

/// The combined mask of the values of a `when` clause, and the values that
/// remain uncovered after it.
pub open spec fn when_masks(valid: Seq<(String, Scenario)>, values: Seq<StringOrOthers>, mask: u64, remaining: u64) -> (u64, u64)
    decreases values.len(),
{
    if values.len() == 0 {
        (mask, remaining)
    } else {
        match values[0] {
            StringOrOthers::Str(v) => {
                let m = spec_mask(valid, v@);
                when_masks(valid, values.subrange(1, values.len() as int), mask | m, remaining & !m)
            },
            StringOrOthers::Others => when_masks(valid, values.subrange(1, values.len() as int), remaining, 0),
        }
    }
}

/// The values still uncovered after a `when` clause are among those
/// uncovered before it.
proof fn lemma_when_remaining_within(valid: Seq<(String, Scenario)>, values: Seq<StringOrOthers>, mask: u64, remaining: u64)
    ensures
        when_masks(valid, values, mask, remaining).1 & !remaining == 0,
    decreases values.len(),
{
    if values.len() > 0 {
        let rest = values.subrange(1, values.len() as int);
        match values[0] {
            StringOrOthers::Str(v) => {
                let m = spec_mask(valid, v@);
                lemma_when_remaining_within(valid, rest, mask | m, remaining & !m);
                let x = when_masks(valid, rest, mask | m, remaining & !m).1;
                assert(x & !(remaining & !m) == 0 ==> x & !remaining == 0) by (bit_vector);
            },
            StringOrOthers::Others => {
                lemma_when_remaining_within(valid, rest, remaining, 0);
                let x = when_masks(valid, rest, remaining, 0).1;
                assert(x & !0u64 == 0 ==> x & !remaining == 0) by (bit_vector);
            },
        }
    } else {
        assert(remaining & !remaining == 0) by (bit_vector);
    }
}

/// A value named by a `when` clause is no longer uncovered after it: a
/// later `when others` cannot select the scenarios of that value again.
pub proof fn law_when_named_not_remaining(
    valid: Seq<(String, Scenario)>,
    values: Seq<StringOrOthers>,
    mask: u64,
    remaining: u64,
    i: int,
)
    requires
        0 <= i < values.len(),
        values[i] is Str,
    ensures
        when_masks(valid, values, mask, remaining).1 & spec_mask(valid, values[i]->Str_0@) == 0,
    decreases values.len(),
{
    let rest = values.subrange(1, values.len() as int);
    let mi = spec_mask(valid, values[i]->Str_0@);
    match values[0] {
        StringOrOthers::Str(v) => {
            let m = spec_mask(valid, v@);
            if i == 0 {
                lemma_when_remaining_within(valid, rest, mask | m, remaining & !m);
                let x = when_masks(valid, rest, mask | m, remaining & !m).1;
                assert(x & !(remaining & !m) == 0 ==> x & m == 0) by (bit_vector);
            } else {
                assert(rest[i - 1] == values[i]);
                law_when_named_not_remaining(valid, rest, mask | m, remaining & !m, i - 1);
            }
        },
        StringOrOthers::Others => {
            assert(rest[i - 1] == values[i]);
            law_when_named_not_remaining(valid, rest, remaining, 0, i - 1);
        },
    }
}

/// The masks of the values named by a list of `when` values, together.
pub open spec fn named_mask(valid: Seq<(String, Scenario)>, values: Seq<StringOrOthers>) -> u64
    decreases values.len(),
{
    if values.len() == 0 {
        0
    } else {
        match values[0] {
            StringOrOthers::Str(v) => spec_mask(valid, v@) | named_mask(valid, values.subrange(1, values.len() as int)),
            StringOrOthers::Others => named_mask(valid, values.subrange(1, values.len() as int)),
        }
    }
}

/// A clause that only names values selects them all and leaves the others.
proof fn lemma_when_named_only(valid: Seq<(String, Scenario)>, values: Seq<StringOrOthers>, mask: u64, remaining: u64)
    requires
        forall|j: int| 0 <= j < values.len() ==> #[trigger] values[j] is Str,
    ensures
        when_masks(valid, values, mask, remaining) == (mask | named_mask(valid, values), remaining & !named_mask(
            valid,
            values,
        )),
    decreases values.len(),
{
    if values.len() == 0 {
        assert(mask | 0u64 == mask && remaining & !0u64 == remaining) by (bit_vector);
    } else {
        let rest = values.subrange(1, values.len() as int);
        assert(values[0] is Str);
        assert forall|j: int| 0 <= j < rest.len() implies #[trigger] rest[j] is Str by {
            assert(rest[j] == values[j + 1]);
        }
        let m = spec_mask(valid, values[0]->Str_0@);
        lemma_when_named_only(valid, rest, mask | m, remaining & !m);
        let n = named_mask(valid, rest);
        assert((mask | m) | n == mask | (m | n) && (remaining & !m) & !n == remaining & !(m | n)) by (bit_vector);
    }
}

/// A `when` clause that only names values selects exactly the scenarios it
/// leaves out of the uncovered ones: what it selects and what stays
/// uncovered split the values uncovered before it.
pub proof fn law_when_selects_what_it_removes(valid: Seq<(String, Scenario)>, values: Seq<StringOrOthers>, remaining: u64)
    requires
        forall|j: int| 0 <= j < values.len() ==> #[trigger] values[j] is Str,
    ensures
        when_masks(valid, values, 0, remaining).1 == remaining & !when_masks(valid, values, 0, remaining).0,
        forall|j: int|
            0 <= j < values.len() ==> spec_mask(valid, (#[trigger] values[j])->Str_0@) & !when_masks(
                valid,
                values,
                0,
                remaining,
            ).0 == 0,
{
    lemma_when_named_only(valid, values, 0, remaining);
    let n = named_mask(valid, values);
    assert(0u64 | n == n) by (bit_vector);
    assert forall|j: int| 0 <= j < values.len() implies spec_mask(valid, (#[trigger] values[j])->Str_0@) & !n == 0 by {
        lemma_named_mask_has(valid, values, j);
    }
}

/// Each value named contributes its mask.
proof fn lemma_named_mask_has(valid: Seq<(String, Scenario)>, values: Seq<StringOrOthers>, j: int)
    requires
        0 <= j < values.len(),
        values[j] is Str,
    ensures
        spec_mask(valid, values[j]->Str_0@) & !named_mask(valid, values) == 0,
    decreases values.len(),
{
    let rest = values.subrange(1, values.len() as int);
    let x = spec_mask(valid, values[j]->Str_0@);
    let n = named_mask(valid, rest);
    if j == 0 {
        assert(x & !(x | n) == 0) by (bit_vector);
    } else {
        assert(rest[j - 1] == values[j]);
        lemma_named_mask_has(valid, rest, j - 1);
        match values[0] {
            StringOrOthers::Str(v) => {
                let m = spec_mask(valid, v@);
                assert(x & !n == 0 ==> x & !(m | n) == 0) by (bit_vector);
            },
            StringOrOthers::Others => {},
        }
    }
}

/// A `when others` that follows a clause covers only the values that the
/// clause left uncovered: none of the values it names.
pub proof fn law_others_after_named(
    valid: Seq<(String, Scenario)>,
    first: Seq<StringOrOthers>,
    remaining: u64,
    i: int,
)
    requires
        0 <= i < first.len(),
        first[i] is Str,
    ensures
        when_masks(valid, seq![StringOrOthers::Others], 0, when_masks(valid, first, 0, remaining).1).0 & spec_mask(
            valid,
            first[i]->Str_0@,
        ) == 0,
{
    let r1 = when_masks(valid, first, 0, remaining).1;
    law_when_named_not_remaining(valid, first, 0, remaining, i);
    let o = seq![StringOrOthers::Others];
    assert(o.subrange(1, 1) =~= Seq::<StringOrOthers>::empty());
    assert(o[0] == StringOrOthers::Others);
    assert(when_masks(valid, o.subrange(1, 1), r1, 0) == (r1, 0u64));
    assert(when_masks(valid, o, 0, r1) == (r1, 0u64));
}

/// Whether a constant case expression (of value `value`) matches one of the
/// values of a `when` clause.
pub open spec fn when_matches_constant(value: Seq<char>, values: Seq<StringOrOthers>) -> bool {
    exists|i: int| 0 <= i < values.len() && match #[trigger] values[i] {
        StringOrOthers::Str(v) => v@ == value,
        StringOrOthers::Others => true,
    }
}

/// The number of values of all the variables.
pub open spec fn total_values(vars: Seq<ScenarioVariable>) -> nat
    decreases vars.len(),
{
    if vars.len() == 0 {
        0
    } else {
        total_values(vars.drop_last()) + vars.last().valid@.len()
    }
}

/// The mask of the `j`-th value of the `i`-th variable.
pub open spec fn mask_of(vars: Seq<ScenarioVariable>, i: int, j: int) -> u64 {
    vars[i].valid@[j].1.0
}

/// The variables are consistent: each value has its own bit, below
/// `next_bit`, and variables have distinct names.
pub open spec fn vars_wf(vars: Seq<ScenarioVariable>, next_bit: u32) -> bool {
    &&& next_bit <= 64
    &&& forall|i: int| 0 <= i < vars.len() ==> #[trigger] vars[i].wf()
    &&& forall|i: int, j: int|
        0 <= i < vars.len() && 0 <= j < vars[i].valid@.len() ==> valid_mask(
            #[trigger] mask_of(vars, i, j),
            next_bit,
        )
    &&& forall|i: int, j: int, k: int, l: int|
        0 <= i < vars.len() && 0 <= j < vars[i].valid@.len() && 0 <= k < vars.len() && 0 <= l
            < vars[k].valid@.len() && (i != k || j != l) ==> #[trigger] mask_of(vars, i, j)
            != #[trigger] mask_of(vars, k, l)
    &&& forall|i: int, k: int|
        0 <= i < vars.len() && 0 <= k < vars.len() && i != k ==> #[trigger] vars[i].name@
            != #[trigger] vars[k].name@
}

proof fn lemma_shl_single(a: u64)
    requires
        a < 64,
    ensures
        (1u64 << a) != 0,
        (1u64 << a) & (((1u64 << a) - 1) as u64) == 0,
{
    assert((1u64 << a) != 0) by (bit_vector)
        requires
            a < 64,
    ;
    assert((1u64 << a) & (((1u64 << a) - 1) as u64) == 0) by (bit_vector)
        requires
            a < 64,
    ;
}

proof fn lemma_shl_strict(a: u64, b: u64)
    requires
        a < b < 64,
    ensures
        (1u64 << a) < (1u64 << b),
{
    assert((1u64 << a) < (1u64 << b)) by (bit_vector)
        requires
            a < b < 64,
    ;
}

proof fn lemma_shl_mono(a: u64, b: u64)
    requires
        a <= b < 64,
    ensures
        (1u64 << a) <= (1u64 << b),
{
    if a < b {
        lemma_shl_strict(a, b);
    }
}

/// Inserting a variable whose values have fresh bits keeps the variables
/// consistent.
proof fn lemma_insert_fresh(vars: Seq<ScenarioVariable>, pos: int, var: ScenarioVariable, start: u32)
    requires
        vars_wf(vars, start),
        0 <= pos <= vars.len(),
        var.wf(),
        forall|i: int| 0 <= i < vars.len() ==> #[trigger] vars[i].name@ != var.name@,
        start + var.valid@.len() <= 64,
        forall|t: int|
            0 <= t < var.valid@.len() ==> #[trigger] var.valid@[t].1.0 == 1u64 << (start + t) as u64,
    ensures
        vars_wf(vars.insert(pos, var), (start + var.valid@.len()) as u32),
{
    let w = vars.insert(pos, var);
    let n = var.valid@.len();
    let nb = (start + n) as u32;
    // The position in the old sequence of the i-th variable of w
    assert forall|i: int| 0 <= i < w.len() implies #[trigger] w[i].wf() by {
        if i < pos {
            assert(w[i] == vars[i]);
        } else if i > pos {
            assert(w[i] == vars[i - 1]);
        }
    }
    assert forall|i: int, j: int|
        0 <= i < w.len() && 0 <= j < w[i].valid@.len() implies valid_mask(
        #[trigger] mask_of(w, i, j),
        nb,
    ) by {
        if i == pos {
            let b = (start + j) as u64;
            lemma_shl_single(b);
            if nb < 64 {
                lemma_shl_strict(b, nb as u64);
            }
        } else {
            let oi = if i < pos { i } else { i - 1 };
            assert(w[i] == vars[oi]);
            assert(valid_mask(mask_of(vars, oi, j), start));
            if nb < 64 {
                lemma_shl_mono(start as u64, nb as u64);
            }
        }
    }
    assert forall|i: int, j: int, k: int, l: int|
        0 <= i < w.len() && 0 <= j < w[i].valid@.len() && 0 <= k < w.len() && 0 <= l
            < w[k].valid@.len() && (i != k || j != l) implies #[trigger] mask_of(w, i, j)
        != #[trigger] mask_of(w, k, l) by {
        let oi = if i < pos { i } else { i - 1 };
        let ok = if k < pos { k } else { k - 1 };
        if i == pos && k == pos {
            let b1 = (start + j) as u64;
            let b2 = (start + l) as u64;
            if b1 < b2 {
                lemma_shl_strict(b1, b2);
            } else {
                lemma_shl_strict(b2, b1);
            }
        } else if i == pos {
            assert(w[k] == vars[ok]);
            assert(valid_mask(mask_of(vars, ok, l), start));
            lemma_shl_mono(start as u64, (start + j) as u64);
        } else if k == pos {
            assert(w[i] == vars[oi]);
            assert(valid_mask(mask_of(vars, oi, j), start));
            lemma_shl_mono(start as u64, (start + l) as u64);
        } else {
            assert(w[i] == vars[oi]);
            assert(w[k] == vars[ok]);
            assert(mask_of(w, i, j) == mask_of(vars, oi, j));
            assert(mask_of(w, k, l) == mask_of(vars, ok, l));
        }
    }
    assert forall|i: int, k: int|
        0 <= i < w.len() && 0 <= k < w.len() && i != k implies #[trigger] w[i].name@
        != #[trigger] w[k].name@ by {
        let oi = if i < pos { i } else { i - 1 };
        let ok = if k < pos { k } else { k - 1 };
        if i != pos {
            assert(w[i] == vars[oi]);
        }
        if k != pos {
            assert(w[k] == vars[ok]);
        }
    }
}

/// Every variable of `old` is still in `new`.
pub open spec fn vars_kept(old: Seq<ScenarioVariable>, new: Seq<ScenarioVariable>) -> bool {
    forall|i: int| 0 <= i < old.len() ==> new.contains(#[trigger] old[i])
}

pub proof fn lemma_vars_kept_refl(v: Seq<ScenarioVariable>)
    ensures
        vars_kept(v, v),
{
    assert forall|i: int| 0 <= i < v.len() implies v.contains(#[trigger] v[i]) by {
        assert(v[i] == v[i]);
    }
}

/// Keeping variables is transitive.
pub proof fn lemma_vars_kept_trans(a: Seq<ScenarioVariable>, b: Seq<ScenarioVariable>, c: Seq<ScenarioVariable>)
    requires
        vars_kept(a, b),
        vars_kept(b, c),
    ensures
        vars_kept(a, c),
{
    assert forall|i: int| 0 <= i < a.len() implies c.contains(#[trigger] a[i]) by {
        assert(b.contains(a[i]));
        let j = choose|j: int| 0 <= j < b.len() && b[j] == a[i];
        assert(c.contains(b[j]));
    }
}

/// A variable that is kept is still found.
pub proof fn lemma_vars_kept_find(a: AllScenarios, b: AllScenarios, name: Seq<char>)
    requires
        vars_kept(a.variables@, b.variables@),
        a.spec_find_var(name) is Some,
    ensures
        b.spec_find_var(name) is Some,
{
    let i = a.spec_find_var(name)->0;
    assert(b.variables@.contains(a.variables@[i]));
    let j = choose|j: int| 0 <= j < b.variables@.len() && b.variables@[j] == a.variables@[i];
    assert(b.variables@[j].name@ == name);
}

/// The collection of all scenario variables needed to analyze the project
/// tree.
#[derive(Debug, Default)]
pub struct AllScenarios {
    pub variables: Vec<ScenarioVariable>,
    /// Index of the next bit to allocate for a value.
    pub next_bit: u32,
    /// The values of the environment variables read by `external`.
    pub externals: Vec<(String, String)>,
}

impl AllScenarios {
    /// The variables are consistent: each value has its own bit.
    pub open spec fn wf(&self) -> bool {
        vars_wf(self.variables@, self.next_bit)
    }

    /// The position of the variable with that name, if any.
    pub open spec fn spec_find_var(&self, name: Seq<char>) -> Option<int> {
        if exists|i: int| 0 <= i < self.variables@.len() && #[trigger] self.variables@[i].name@ == name {
            Some(choose|i: int| 0 <= i < self.variables@.len() && #[trigger] self.variables@[i].name@ == name)
        } else {
            None
        }
    }

    /// The position of the variable with that name, if any.
    pub fn find_variable(&self, name: &str) -> (r: Option<usize>)
        ensures
            r matches Some(i) ==> i < self.variables@.len() && self.variables@[i as int].name@ == name@,
            r is None ==> self.spec_find_var(name@) is None,
    {
        let mut i: usize = 0;
        while i < self.variables.len()
            invariant
                i <= self.variables@.len(),
                forall|j: int| 0 <= j < i ==> #[trigger] self.variables@[j].name@ != name@,
            decreases self.variables.len() - i,
        {
            if str_eq(self.variables[i].name.as_str(), name) {
                return Some(i);
            }
            i = i + 1;
        }
        None
    }

    /// True if this scenario is not applicable (cannot occur in practice).
    /// This is the case if for at least one of the variables the mask is 0.
    pub open spec fn spec_never_matches(&self, s: Scenario) -> bool {
        exists|i: int| 0 <= i < self.variables@.len() && s.0 & self.variables@[i].full_mask.0 == 0
    }

    /// True if this scenario is not applicable (cannot occur in practice).
    pub fn never_matches(&self, scenario: Scenario) -> (r: bool)
        ensures
            r == self.spec_never_matches(scenario),
    {
        let mut i: usize = 0;
        while i < self.variables.len()
            invariant
                i <= self.variables@.len(),
                forall|j: int| 0 <= j < i ==> scenario.0 & self.variables@[j].full_mask.0 != 0,
            decreases self.variables.len() - i,
        {
            if scenario.0 & self.variables[i].full_mask.0 == 0 {
                return true;
            }
            i = i + 1;
        }
        false
    }

    /// The scenario that contains all combinations of values in which the
    /// value of variable `i` is not one of those allowed by `s`.
    pub open spec fn negated_var(&self, s: Scenario, i: int) -> Scenario {
        let full = self.variables@[i].full_mask.0;
        Scenario(!full | (!s.0 & full))
    }

    /// The negation of the scenario, for the first `n` variables.
    pub open spec fn spec_negate(&self, s: Scenario, n: int) -> Seq<Scenario>
        decreases n,
    {
        if n <= 0 {
            Seq::empty()
        } else {
            let prev = self.spec_negate(s, n - 1);
            if !s.0 & self.variables@[n - 1].full_mask.0 != 0 {
                prev.push(self.negated_var(s, n - 1))
            } else {
                prev
            }
        }
    }

    /// Negate the scenario: it returns a series of possibly overlapping
    /// scenarios so that they do not overlap scenario, yet the whole set
    /// covers the full space.
    /// For instance, if we have three variables E1 (with values a,b,c,d),
    /// E2 (with values e and f) and E3 (with values g and h), and we give
    /// a scenario "E1=a|b,E2=e,E3=*", the negation is
    ///    not(a|b and e) = not(a|b) or not(e) = (E1=c|d) or (E2=f)
    pub fn negate(&self, scenario: Scenario) -> (r: Vec<Scenario>)
        ensures
            r@ == self.spec_negate(scenario, self.variables@.len() as int),
    {
        let mut r: Vec<Scenario> = Vec::new();
        let mut i: usize = 0;
        while i < self.variables.len()
            invariant
                i <= self.variables@.len(),
                r@ == self.spec_negate(scenario, i as int),
            decreases self.variables.len() - i,
        {
            let full = self.variables[i].full_mask.0;
            let negate_var_only = !scenario.0 & full;
            let all_other_vars = !full;
            if negate_var_only != 0 {
                let n = Scenario(all_other_vars | negate_var_only);
                r.push(n);
            }
            i = i + 1;
        }
        r
    }

    /// A combination of values: for each variable, the position of one of
    /// its values.
    pub open spec fn is_point(&self, c: Seq<int>) -> bool {
        &&& c.len() == self.variables@.len()
        &&& forall|i: int| 0 <= i < c.len() ==> 0 <= #[trigger] c[i] < self.variables@[i].valid@.len()
    }

    /// Whether the scenario applies when each variable has the value chosen
    /// by `c`.
    pub open spec fn covers(&self, s: Scenario, c: Seq<int>) -> bool {
        forall|i: int| 0 <= i < c.len() ==> s.0 & #[trigger] mask_of(self.variables@, i, c[i]) != 0
    }

    /// The mask of a value lies within its variable's full mask, and outside
    /// the full mask of every other variable.
    proof fn lemma_mask_placement(&self, i: int, j: int, k: int)
        requires
            self.wf(),
            0 <= i < self.variables@.len(),
            0 <= j < self.variables@[i].valid@.len(),
            0 <= k < self.variables@.len(),
        ensures
            i == k ==> mask_of(self.variables@, i, j) & self.variables@[k].full_mask.0 == mask_of(self.variables@, i, j),
            i != k ==> mask_of(self.variables@, i, j) & self.variables@[k].full_mask.0 == 0,
    {
        let vars = self.variables@;
        let m = mask_of(vars, i, j);
        assert(vars[k].wf());
        if i == k {
            crate::scenario_variables::lemma_or_masks_contains(vars[i].valid@, j);
        } else {
            crate::scenario_variables::lemma_or_masks_intersect(vars[k].valid@, m);
            assert forall|l: int| 0 <= l < vars[k].valid@.len() implies m & #[trigger] vars[k].valid@[l].1.0 == 0 by {
                let m2 = mask_of(vars, k, l);
                assert(valid_mask(m, self.next_bit));
                assert(valid_mask(m2, self.next_bit));
                assert(m != m2);
                assert(m != 0 && m & ((m - 1) as u64) == 0 && m2 != 0 && m2 & ((m2 - 1) as u64) == 0 && m != m2
                    ==> m & m2 == 0) by (bit_vector);
            }
        }
    }

    /// The intersection of two scenarios applies exactly where both apply.
    pub proof fn lemma_covers_and(&self, a: Scenario, b: Scenario, c: Seq<int>)
        requires
            self.wf(),
            self.is_point(c),
        ensures
            self.covers(Scenario(a.0 & b.0), c) <==> self.covers(a, c) && self.covers(b, c),
    {
        let vars = self.variables@;
        assert forall|i: int| 0 <= i < c.len() implies ((a.0 & b.0) & #[trigger] mask_of(vars, i, c[i]) != 0)
            <==> (a.0 & mask_of(vars, i, c[i]) != 0 && b.0 & mask_of(vars, i, c[i]) != 0) by {
            let m = mask_of(vars, i, c[i]);
            let x = a.0;
            let y = b.0;
            assert(valid_mask(m, self.next_bit));
            assert(m != 0 && m & ((m - 1) as u64) == 0 ==> (((x & y) & m != 0) <==> (x & m != 0 && y & m
                != 0))) by (bit_vector);
        }
    }

    /// A scenario never matches exactly when no combination of values of
    /// the variables is in it.
    pub proof fn lemma_never_matches_exact(&self, s: Scenario)
        requires
            self.wf(),
        ensures
            self.spec_never_matches(s) <==> !(exists|c: Seq<int>| self.is_point(c) && #[trigger] self.covers(s, c)),
    {
        let vars = self.variables@;
        if self.spec_never_matches(s) {
            let i = choose|i: int| 0 <= i < vars.len() && s.0 & vars[i].full_mask.0 == 0;
            assert forall|c: Seq<int>| self.is_point(c) implies !#[trigger] self.covers(s, c) by {
                let m = mask_of(vars, i, c[i]);
                let f = vars[i].full_mask.0;
                let x = s.0;
                self.lemma_mask_placement(i, c[i], i);
                assert(m & f == m && x & f == 0 ==> x & m == 0) by (bit_vector);
            }
        } else {
            assert forall|i: int| #![trigger vars[i]] 0 <= i < vars.len() implies exists|j: int| 0 <= j < vars[i].valid@.len()
                && s.0 & #[trigger] vars[i].valid@[j].1.0 != 0 by {
                assert(vars[i].wf());
                crate::scenario_variables::lemma_or_masks_intersect(vars[i].valid@, s.0);
            }
            let c = Seq::new(vars.len(), |i: int| choose|j: int| 0 <= j < vars[i].valid@.len()
                && s.0 & #[trigger] vars[i].valid@[j].1.0 != 0);
            assert(self.is_point(c));
            assert(self.covers(s, c));
        }
    }

    /// The scenario built for variable `i` by `negate` applies to a
    /// combination of values exactly when `s` excludes the value of `i`.
    proof fn lemma_negated_var_covers(&self, s: Scenario, c: Seq<int>, i: int)
        requires
            self.wf(),
            self.is_point(c),
            0 <= i < c.len(),
        ensures
            self.covers(self.negated_var(s, i), c) <==> s.0 & mask_of(self.variables@, i, c[i]) == 0,
    {
        let vars = self.variables@;
        let f = vars[i].full_mask.0;
        let n = self.negated_var(s, i).0;
        let mi = mask_of(vars, i, c[i]);
        let x = s.0;
        assert forall|j: int| 0 <= j < c.len() && j != i implies n & #[trigger] mask_of(vars, j, c[j]) != 0 by {
            let m = mask_of(vars, j, c[j]);
            self.lemma_mask_placement(j, c[j], i);
            assert(valid_mask(m, self.next_bit));
            assert(m & f == 0 && m != 0 ==> (!f | (!x & f)) & m != 0) by (bit_vector);
        }
        self.lemma_mask_placement(i, c[i], i);
        assert(valid_mask(mi, self.next_bit));
        assert(mi & f == mi && mi != 0 && mi & ((mi - 1) as u64) == 0 ==> (((!f | (!x & f)) & mi != 0)
            <==> (x & mi == 0))) by (bit_vector);
    }

    /// The scenarios of `spec_negate(s, n)` are those built for each of the
    /// first `n` variables that `s` restricts.
    proof fn lemma_negate_members(&self, s: Scenario, n: int)
        requires
            0 <= n <= self.variables@.len(),
        ensures
            forall|k: int| 0 <= k < self.spec_negate(s, n).len() ==> exists|i: int| 0 <= i < n
                && #[trigger] self.spec_negate(s, n)[k] == self.negated_var(s, i),
            forall|i: int| 0 <= i < n && !s.0 & self.variables@[i].full_mask.0 != 0
                ==> self.spec_negate(s, n).contains(#[trigger] self.negated_var(s, i)),
        decreases n,
    {
        if n > 0 {
            self.lemma_negate_members(s, n - 1);
            let prev = self.spec_negate(s, n - 1);
            let cur = self.spec_negate(s, n);
            assert forall|k: int| 0 <= k < cur.len() implies exists|i: int| 0 <= i < n
                && #[trigger] cur[k] == self.negated_var(s, i) by {
                if k < prev.len() {
                    assert(cur[k] == prev[k]);
                    let i = choose|i: int| 0 <= i < n - 1 && #[trigger] prev[k] == self.negated_var(s, i);
                    assert(cur[k] == self.negated_var(s, i));
                } else {
                    assert(cur[k] == self.negated_var(s, n - 1));
                }
            }
            assert forall|i: int| 0 <= i < n && !s.0 & self.variables@[i].full_mask.0 != 0
                implies cur.contains(#[trigger] self.negated_var(s, i)) by {
                if i < n - 1 {
                    assert(prev.contains(self.negated_var(s, i)));
                    let k = choose|k: int| 0 <= k < prev.len() && prev[k] == self.negated_var(s, i);
                    assert(cur[k] == prev[k]);
                } else {
                    assert(cur[cur.len() - 1] == self.negated_var(s, i));
                }
            }
        }
    }

    /// `negate` gives the complement of a scenario: for every combination
    /// of values of the variables, exactly one of the scenario itself and
    /// the union of the scenarios returned by `negate` applies.
    pub proof fn lemma_negate_is_complement(&self, s: Scenario, c: Seq<int>)
        requires
            self.wf(),
            self.is_point(c),
        ensures
            self.covers(s, c) <==> !(exists|k: int| 0 <= k < self.spec_negate(s, self.variables@.len() as int).len()
                && self.covers(#[trigger] self.spec_negate(s, self.variables@.len() as int)[k], c)),
    {
        let vars = self.variables@;
        let len = vars.len() as int;
        let neg = self.spec_negate(s, len);
        self.lemma_negate_members(s, len);
        if self.covers(s, c) {
            assert forall|k: int| 0 <= k < neg.len() implies !self.covers(#[trigger] neg[k], c) by {
                let i = choose|i: int| 0 <= i < len && #[trigger] neg[k] == self.negated_var(s, i);
                self.lemma_negated_var_covers(s, c, i);
                assert(s.0 & mask_of(vars, i, c[i]) != 0);
            }
        } else {
            let i = choose|i: int| !(0 <= i < c.len() ==> s.0 & #[trigger] mask_of(vars, i, c[i]) != 0);
            let mi = mask_of(vars, i, c[i]);
            let f = vars[i].full_mask.0;
            let x = s.0;
            self.lemma_mask_placement(i, c[i], i);
            assert(valid_mask(mi, self.next_bit));
            assert(mi & f == mi && mi != 0 && x & mi == 0 ==> !x & f != 0) by (bit_vector);
            assert(neg.contains(self.negated_var(s, i)));
            let k = choose|k: int| 0 <= k < neg.len() && neg[k] == self.negated_var(s, i);
            self.lemma_negated_var_covers(s, c, i);
            assert(self.covers(neg[k], c));
        }
    }

    /// How a scenario is displayed: the variables whose values are
    /// restricted by the scenario, and their allowed values.
    pub open spec fn description_parts(&self, s: Scenario, n: int) -> Seq<Seq<char>>
        decreases n,
    {
        if n <= 0 {
            Seq::empty()
        } else {
            let prev = self.description_parts(s, n - 1);
            let v = self.variables@[n - 1];
            if s.0 & v.full_mask.0 != v.full_mask.0 {
                prev.push(v.description(s))
            } else {
                prev
            }
        }
    }

    /// How a scenario is displayed: "*" if it does not restrict any
    /// variable.
    pub open spec fn description(&self, s: Scenario) -> Seq<char> {
        let parts = self.description_parts(s, self.variables@.len() as int);
        if parts.len() == 0 {
            "*"@
        } else {
            seq_join(parts, ","@)
        }
    }

    /// Displays a scenario, for instance "E1=a|b,E2=c".  Variables are
    /// listed alphabetically.
    pub fn describe(&self, scenario: Scenario) -> (r: String)
        ensures
            r@ == self.description(scenario),
    {
        let mut parts: Vec<String> = Vec::new();
        let mut i: usize = 0;
        while i < self.variables.len()
            invariant
                i <= self.variables@.len(),
                views(parts@) == self.description_parts(scenario, i as int),
            decreases self.variables.len() - i,
        {
            let v = &self.variables[i];
            if scenario.0 & v.full_mask.0 != v.full_mask.0 {
                let ghost old_parts = parts@;
                parts.push(v.describe(scenario));
                assert(views(parts@) =~= views(old_parts).push(parts@.last()@));
            }
            i = i + 1;
        }
        if parts.len() == 0 {
            owned("*")
        } else {
            join(&parts, ",")
        }
    }

    /// The number of scenario variables.
    pub fn count_variables(&self) -> (r: usize)
        ensures
            r == self.variables@.len(),
    {
        self.variables.len()
    }

    /// The total number of values of all scenario variables (at most
    /// `usize::MAX`).
    pub fn count_values(&self) -> (r: usize)
        ensures
            r == if total_values(self.variables@) > usize::MAX {
                usize::MAX as nat
            } else {
                total_values(self.variables@)
            },
    {
        let mut total: usize = 0;
        let mut i: usize = 0;
        while i < self.variables.len()
            invariant
                i <= self.variables@.len(),
                total == if total_values(self.variables@.take(i as int)) > usize::MAX {
                    usize::MAX as nat
                } else {
                    total_values(self.variables@.take(i as int))
                },
            decreases self.variables.len() - i,
        {
            proof {
                assert(self.variables@.take(i + 1).drop_last() =~= self.variables@.take(i as int));
            }
            total = total.saturating_add(self.variables[i].valid.len());
            i = i + 1;
        }
        proof {
            assert(self.variables@.take(self.variables@.len() as int) =~= self.variables@);
        }
        total
    }

    /// Declares a new scenario variable and the list of all values it can
    /// accept.  If the variable is already declared, check that we are
    /// declaring the same set of values.  The list of values must be sorted.
    /// Returns the position of the variable.
    pub fn try_add_variable(&mut self, name: String, valid: &[String]) -> (r: Result<usize, Error>)
        requires
            old(self).wf(),
        ensures
            final(self).wf(),
            final(self).externals == old(self).externals,
            vars_kept(old(self).variables@, final(self).variables@),
            r matches Ok(i) ==> i < final(self).variables@.len() && final(self).variables@[i as int].name@
                == name@ && value_names(final(self).variables@[i as int].valid@) == views(valid@),
            old(self).spec_find_var(name@) is Some ==> final(self).variables@ == old(self).variables@
                && final(self).next_bit == old(self).next_bit && (r is Ok <==> value_names(
                old(self).variables@[old(self).spec_find_var(name@)->0].valid@) == views(valid@)),
            old(self).spec_find_var(name@) is None ==> (r is Err <==> old(self).next_bit + valid@.len() > 64),
            old(self).spec_find_var(name@) is None && r is Err ==> r matches Err(Error::TooManyScenarioVariables),
            r matches Err(e) ==> e is TooManyScenarioVariables || e is InconsistentScenarioVariable,
    {
        proof {
            lemma_vars_kept_refl(self.variables@);
        }
        match self.find_variable(name.as_str()) {
            Some(i) => {
                proof {
                    let k = self.spec_find_var(name@)->0;
                    assert(self.variables@[i as int].name@ == name@);
                    if k != i {
                        assert(self.variables@[k].name@ != self.variables@[i as int].name@);
                    }
                }
                if self.variables[i].has_same_valid(valid) {
                    return Ok(i);
                } else {
                    return Err(Error::InconsistentScenarioVariable(name));
                }
            },
            None => {},
        }
        if valid.len() > 64 || self.next_bit as usize + valid.len() > 64 {
            return Err(Error::TooManyScenarioVariables);
        }
        let ghost start = self.next_bit;
        let mut values: Vec<(String, Scenario)> = Vec::new();
        let mut k: usize = 0;
        while k < valid.len()
            invariant
                k <= valid@.len(),
                start + valid@.len() <= 64,
                self.next_bit == start + k,
                self.variables == old(self).variables,
                self.externals == old(self).externals,
                values@.len() == k,
                forall|t: int| 0 <= t < k ==> #[trigger] values@[t].0@ == valid@[t]@,
                forall|t: int| 0 <= t < k ==> #[trigger] values@[t].1.0 == 1u64 << (start + t) as u64,
            decreases valid.len() - k,
        {
            let bit = self.next_bit;
            let m: u64 = 1u64 << bit as u64;
            values.push((valid[k].clone(), Scenario(m)));
            self.next_bit = self.next_bit + 1;
            k = k + 1;
        }
        // Insert the variable so that variables are sorted alphabetically
        let mut pos: usize = 0;
        while pos < self.variables.len() && str_le(self.variables[pos].name.as_str(), name.as_str())
            invariant
                pos <= self.variables@.len(),
            decreases self.variables.len() - pos,
        {
            pos = pos + 1;
        }
        let var = ScenarioVariable::new(name, values);
        proof {
            assert(value_names(var.valid@) =~= views(valid@));
            assert forall|t: int| 0 <= t < var.valid@.len() implies #[trigger] var.valid@[t].1.0
                == 1u64 << (start + t) as u64 by {
                assert(var.valid@[t] == values@[t]);
            }
            assert forall|i: int| 0 <= i < self.variables@.len() implies #[trigger] self.variables@[i].name@ != var.name@ by {
                if self.variables@[i].name@ == var.name@ {
                    assert(old(self).spec_find_var(var.name@) is Some);
                }
            }
            lemma_insert_fresh(self.variables@, pos as int, var, start);
        }
        let ghost before = self.variables@;
        self.variables.insert(pos, var);
        proof {
            assert forall|i: int| 0 <= i < before.len() implies self.variables@.contains(#[trigger] before[i]) by {
                if i < pos {
                    assert(self.variables@[i] == before[i]);
                } else {
                    assert(self.variables@[i + 1] == before[i]);
                }
            }
        }
        Ok(pos)
    }


    /// The first variable, from position `i`, that covers all the bits that
    /// the mask does not have.
    pub open spec fn first_covering(&self, m: u64, i: int) -> Option<int>
        decreases self.variables@.len() - i,
    {
        if i < 0 || i >= self.variables@.len() {
            None
        } else if m | self.variables@[i].full_mask.0 == u64::MAX {
            Some(i)
        } else {
            self.first_covering(m, i + 1)
        }
    }

    /// The variable found covers the mask.
    pub proof fn lemma_first_covering_in(&self, m: u64, i: int)
        ensures
            self.first_covering(m, i) matches Some(k) ==> 0 <= k < self.variables@.len()
                && m | self.variables@[k].full_mask.0 == u64::MAX,
        decreases self.variables@.len() - i,
    {
        if 0 <= i < self.variables@.len() && m | self.variables@[i].full_mask.0 != u64::MAX {
            self.lemma_first_covering_in(m, i + 1);
        }
    }

    /// The case statement resulting from a value: the value itself when it
    /// does not depend on scenarios (with an empty mask), or the single
    /// scenario variable it depends on (with its full mask).
    pub open spec fn spec_case_stmt(&self, v: Seq<(Scenario, String)>) -> Option<(Seq<char>, u64)> {
        if v.len() == 0 {
            None
        } else if and_all(v) == u64::MAX {
            Some((v[0].1@, 0u64))
        } else {
            match self.first_covering(and_all(v), 0) {
                Some(i) => Some((self.variables@[i].name@, self.variables@[i].full_mask.0)),
                None => None,
            }
        }
    }

    /// Prepares the handling of a case statement, or returns None when the
    /// value depends on more than one scenario variable.
    pub fn try_prepare_case_stmt(&self, variable_values: &PerScenario<String>) -> (r: Option<CaseStmtScenario>)
        ensures
            match self.spec_case_stmt(variable_values.values@) {
                None => r is None,
                Some((var, full)) => r matches Some(c) && c.var@ == var && c.full_mask.0 == full
                    && c.remaining.0 == full,
            },
    {
        let v = &variable_values.values;
        if v.len() == 0 {
            return None;
        }
        let mut mask: u64 = u64::MAX;
        let mut i: usize = 0;
        while i < v.len()
            invariant
                i <= v@.len(),
                mask == and_all(v@.take(i as int)),
            decreases v.len() - i,
        {
            mask = mask & v[i].0.0;
            i = i + 1;
            assert(v@.take(i as int).drop_last() =~= v@.take(i - 1));
        }
        assert(v@.take(v@.len() as int) =~= v@);
        // Special case: the value is in fact independent of scenarios,
        // for instance Prj'Target
        if mask == u64::MAX {
            return Some(CaseStmtScenario {
                var: v[0].1.clone(),
                full_mask: Scenario(0),
                remaining: Scenario(0),
            });
        }
        let mut k: usize = 0;
        while k < self.variables.len()
            invariant
                k <= self.variables@.len(),
                v@ == variable_values.values@,
                v@.len() > 0,
                mask != u64::MAX,
                mask == and_all(v@),
                self.first_covering(mask, 0) == self.first_covering(mask, k as int),
            decreases self.variables.len() - k,
        {
            let full = self.variables[k].full_mask;
            if mask | full.0 == u64::MAX {
                assert(self.first_covering(mask, k as int) == Some(k as int));
                return Some(CaseStmtScenario {
                    var: self.variables[k].name.clone(),
                    full_mask: full,
                    remaining: full,
                });
            }
            k = k + 1;
        }
        None
    }

    /// Prepares the handling of a case statement in a project file.
    /// From
    ///     V : Type := external ("VAR");
    ///     case V is
    /// we need to find the declaration of V, which maps scenarios to the
    /// corresponding value of V.  Since we start with a simple external
    /// variable, each scenario will only reference a single scenario
    /// variable ("VAR" in this example).
    pub fn prepare_case_stmt(&self, variable_values: &PerScenario<String>) -> (r: CaseStmtScenario)
        requires
            self.spec_case_stmt(variable_values.values@) is Some,
        ensures
            ({
                let (var, full) = self.spec_case_stmt(variable_values.values@)->0;
                r.var@ == var && r.full_mask.0 == full && r.remaining.0 == full
            }),
    {
        match self.try_prepare_case_stmt(variable_values) {
            Some(c) => c,
            None => {
                assert(false);
                CaseStmtScenario { var: String::new(), full_mask: Scenario(0), remaining: Scenario(0) }
            },
        }
    }

    /// Combine a new when clause with the current case statement, and
    /// return the scenario in which the clause applies.
    pub fn process_when_clause(
        &self,
        context: Scenario,
        case_stmt: &mut CaseStmtScenario,
        when_clause: &WhenClause,
    ) -> (r: Scenario)
        requires
            self.wf(),
            old(case_stmt).full_mask.0 != 0 ==> self.spec_find_var(old(case_stmt).var@) is Some,
        ensures
            old(case_stmt).full_mask.0 == 0 ==> *final(case_stmt) == *old(case_stmt) && r == if when_matches_constant(
                old(case_stmt).var@,
                when_clause.values@,
            ) {
                context
            } else {
                Scenario(0)
            },
            old(case_stmt).full_mask.0 != 0 ==> ({
                let var = self.variables@[self.spec_find_var(old(case_stmt).var@)->0];
                let (mask, remaining) = when_masks(var.valid@, when_clause.values@, 0, old(case_stmt).remaining.0);
                &&& r == Scenario(!var.full_mask.0 | (context.0 & mask))
                &&& final(case_stmt).remaining.0 == remaining
                &&& final(case_stmt).var == old(case_stmt).var
                &&& final(case_stmt).full_mask == old(case_stmt).full_mask
            }),
    {
        // If the expression in Case was a constant, check whether this
        // WhenClause would be used.  In this case, case_stmt.var is the
        // actual value of the expression.
        if case_stmt.full_mask.is_empty() {
            let mut i: usize = 0;
            while i < when_clause.values.len()
                invariant
                    i <= when_clause.values@.len(),
                    *case_stmt == *old(case_stmt),
                    case_stmt.full_mask.0 == 0,
                    forall|j: int| 0 <= j < i ==> match #[trigger] when_clause.values@[j] {
                        StringOrOthers::Str(v) => v@ != case_stmt.var@,
                        StringOrOthers::Others => false,
                    },
                decreases when_clause.values.len() - i,
            {
                match &when_clause.values[i] {
                    StringOrOthers::Str(value_in_when) => {
                        if str_eq(value_in_when.as_str(), case_stmt.var.as_str()) {
                            return context;
                        }
                    },
                    StringOrOthers::Others => {
                        return context;
                    },
                }
                i = i + 1;
            }
            Scenario(0)
        } else {
            let idx = match self.find_variable(case_stmt.var.as_str()) {
                Some(idx) => idx,
                None => {
                    assert(false);
                    0
                },
            };
            proof {
                let k = self.spec_find_var(case_stmt.var@)->0;
                if k != idx {
                    assert(self.variables@[k].name@ != self.variables@[idx as int].name@);
                }
            }
            let var = &self.variables[idx];
            let all_other_vars = !var.full_mask.0;
            let mut mask: u64 = 0;
            let mut i: usize = 0;
            let ghost vals = when_clause.values@;
            assert(vals.subrange(0, vals.len() as int) =~= vals);
            while i < when_clause.values.len()
                invariant
                    i <= vals.len(),
                    vals == when_clause.values@,
                    case_stmt.var == old(case_stmt).var,
                    case_stmt.full_mask == old(case_stmt).full_mask,
                    when_masks(var.valid@, vals, 0, old(case_stmt).remaining.0) == when_masks(
                        var.valid@,
                        vals.subrange(i as int, vals.len() as int),
                        mask,
                        case_stmt.remaining.0,
                    ),
                decreases when_clause.values.len() - i,
            {
                assert(vals.subrange(i as int, vals.len() as int)[0] == vals[i as int]);
                assert(vals.subrange(i as int, vals.len() as int).subrange(1, vals.len() - i) =~= vals.subrange(i + 1, vals.len() as int));
                match &when_clause.values[i] {
                    StringOrOthers::Str(value_in_when) => {
                        let m = var.mask(value_in_when.as_str());
                        mask = mask | m.0;
                        case_stmt.remaining = Scenario(case_stmt.remaining.0 & !m.0);
                    },
                    StringOrOthers::Others => {
                        mask = case_stmt.remaining.0;
                        case_stmt.remaining = Scenario(0);
                    },
                }
                i = i + 1;
            }
            Scenario(all_other_vars | (context.0 & mask))
        }
    }

    /// The mask of a list of values of a variable, together with all values
    /// of the other variables.
    pub open spec fn single_mask(valid: Seq<(String, Scenario)>, full: u64, values: Seq<&str>) -> u64
        decreases values.len(),
    {
        if values.len() == 0 {
            !full
        } else {
            Self::single_mask(valid, full, values.drop_last()) | spec_mask(valid, values.last()@)
        }
    }

    /// The mask of a value name is that of the value with this name, or 0
    /// when the variable has no such value.
    proof fn lemma_spec_mask(valid: Seq<(String, Scenario)>, name: Seq<char>)
        ensures
            (exists|x: int| 0 <= x < valid.len() && #[trigger] valid[x].0@ == name) ==> exists|x: int|
                0 <= x < valid.len() && #[trigger] valid[x].0@ == name && spec_mask(valid, name) == valid[x].1.0,
            !(exists|x: int| 0 <= x < valid.len() && #[trigger] valid[x].0@ == name) ==> spec_mask(valid, name) == 0,
        decreases valid.len(),
    {
        if valid.len() > 0 {
            let rest = valid.subrange(1, valid.len() as int);
            Self::lemma_spec_mask(rest, name);
            assert forall|x: int| 0 <= x < rest.len() implies #[trigger] rest[x] == valid[x + 1] by {}
            if valid[0].0@ != name {
                if exists|x: int| 0 <= x < valid.len() && #[trigger] valid[x].0@ == name {
                    let x = choose|x: int| 0 <= x < valid.len() && #[trigger] valid[x].0@ == name;
                    assert(rest[x - 1].0@ == name);
                    let y = choose|y: int| 0 <= y < rest.len() && #[trigger] rest[y].0@ == name && spec_mask(rest, name)
                        == rest[y].1.0;
                    assert(valid[y + 1].0@ == name);
                } else {
                    assert forall|x: int| 0 <= x < rest.len() implies #[trigger] rest[x].0@ != name by {
                        assert(valid[x + 1].0@ != name);
                    }
                }
            }
        }
    }

    /// Inside the variable's own bits, the mask of a list of values meets a
    /// value's bit exactly when the mask of one of the names does.
    proof fn lemma_single_mask_bit(valid: Seq<(String, Scenario)>, full: u64, values: Seq<&str>, m: u64)
        requires
            m & full == m,
        ensures
            (Self::single_mask(valid, full, values) & m != 0) <==> exists|t: int| 0 <= t < values.len()
                && #[trigger] spec_mask(valid, values[t]@) & m != 0,
        decreases values.len(),
    {
        if values.len() == 0 {
            assert(m & full == m ==> !full & m == 0) by (bit_vector);
        } else {
            let d = values.drop_last();
            Self::lemma_single_mask_bit(valid, full, d, m);
            let x = Self::single_mask(valid, full, d);
            let y = spec_mask(valid, values.last()@);
            assert(((x | y) & m != 0) <==> (x & m != 0 || y & m != 0)) by (bit_vector);
            assert forall|t: int| 0 <= t < d.len() implies #[trigger] d[t] == values[t] by {}
            if exists|t: int| 0 <= t < values.len() && #[trigger] spec_mask(valid, values[t]@) & m != 0 {
                let t = choose|t: int| 0 <= t < values.len() && #[trigger] spec_mask(valid, values[t]@) & m != 0;
                if t < d.len() {
                    assert(spec_mask(valid, d[t]@) & m != 0);
                }
            }
        }
    }

    /// Outside the variable's own bits, the mask of a list of values meets
    /// every bit.
    proof fn lemma_single_mask_other(valid: Seq<(String, Scenario)>, full: u64, values: Seq<&str>, m: u64)
        requires
            m & full == 0,
            m != 0,
        ensures
            Self::single_mask(valid, full, values) & m != 0,
        decreases values.len(),
    {
        if values.len() == 0 {
            assert(m & full == 0 && m != 0 ==> !full & m != 0) by (bit_vector);
        } else {
            Self::lemma_single_mask_other(valid, full, values.drop_last(), m);
            let x = Self::single_mask(valid, full, values.drop_last());
            let y = spec_mask(valid, values.last()@);
            assert(x & m != 0 ==> (x | y) & m != 0) by (bit_vector);
        }
    }

    /// The scenario made by `create_single` for a variable (see
    /// `single_mask`) applies to a combination of values exactly when the
    /// variable's value there is one of those listed (the variable's values
    /// having distinct names).
    pub proof fn lemma_create_single_covers(&self, vi: int, values: Seq<&str>, c: Seq<int>)
        requires
            self.wf(),
            0 <= vi < self.variables@.len(),
            forall|a: int, b: int| 0 <= a < self.variables@[vi].valid@.len() && 0 <= b < self.variables@[vi].valid@.len()
                && a != b ==> #[trigger] self.variables@[vi].valid@[a].0@ != #[trigger] self.variables@[vi].valid@[b].0@,
            self.is_point(c),
        ensures
            self.covers(Scenario(Self::single_mask(self.variables@[vi].valid@, self.variables@[vi].full_mask.0, values)), c)
                <==> exists|t: int| 0 <= t < values.len() && #[trigger] values[t]@ == self.variables@[vi].valid@[c[vi]].0@,
    {
        let vars = self.variables@;
        let valid = vars[vi].valid@;
        let full = vars[vi].full_mask.0;
        let sm = Self::single_mask(valid, full, values);
        assert forall|j: int| 0 <= j < c.len() && j != vi implies sm & #[trigger] mask_of(vars, j, c[j]) != 0 by {
            self.lemma_mask_placement(j, c[j], vi);
            assert(valid_mask(mask_of(vars, j, c[j]), self.next_bit));
            Self::lemma_single_mask_other(valid, full, values, mask_of(vars, j, c[j]));
        }
        let m = mask_of(vars, vi, c[vi]);
        self.lemma_mask_placement(vi, c[vi], vi);
        Self::lemma_single_mask_bit(valid, full, values, m);
        assert(valid_mask(m, self.next_bit));
        assert forall|t: int| 0 <= t < values.len() implies (#[trigger] spec_mask(valid, values[t]@) & m != 0) <==> values[t]@
            == valid[c[vi]].0@ by {
            Self::lemma_spec_mask(valid, values[t]@);
            if exists|x: int| 0 <= x < valid.len() && #[trigger] valid[x].0@ == values[t]@ {
                let x = choose|x: int| 0 <= x < valid.len() && #[trigger] valid[x].0@ == values[t]@ && spec_mask(
                    valid,
                    values[t]@,
                ) == valid[x].1.0;
                let mx = mask_of(vars, vi, x);
                assert(valid_mask(mx, self.next_bit));
                if x == c[vi] {
                    assert(m != 0 ==> m & m != 0) by (bit_vector);
                } else {
                    assert(mx != m);
                    assert(valid[x].0@ != valid[c[vi]].0@);
                    assert(m != 0 && m & ((m - 1) as u64) == 0 && mx != 0 && mx & ((mx - 1) as u64) == 0 && m != mx
                        ==> mx & m == 0) by (bit_vector);
                }
            } else {
                assert(0u64 & m == 0) by (bit_vector);
                assert(valid[c[vi]].0@ != values[t]@);
            }
        }
        if exists|t: int| 0 <= t < values.len() && #[trigger] values[t]@ == valid[c[vi]].0@ {
            let t = choose|t: int| 0 <= t < values.len() && #[trigger] values[t]@ == valid[c[vi]].0@;
            assert(spec_mask(valid, values[t]@) & m != 0);
            assert(sm & m != 0);
            assert forall|j: int| 0 <= j < c.len() implies Scenario(sm).0 & #[trigger] mask_of(vars, j, c[j]) != 0 by {}
        } else {
            if sm & m != 0 {
                let t = choose|t: int| 0 <= t < values.len() && #[trigger] spec_mask(valid, values[t]@) & m != 0;
                assert(values[t]@ == valid[c[vi]].0@);
            }
            assert(!(Scenario(sm).0 & mask_of(vars, vi, c[vi]) != 0));
        }
    }

    /// Creates a scenario that involves a single variable, and a set of
    /// valid values for it.
    pub fn create_single(&self, varname: &str, values: &[&str]) -> (r: Scenario)
        requires
            self.spec_find_var(varname@) is Some,
        ensures
            exists|i: int| 0 <= i < self.variables@.len() && #[trigger] self.variables@[i].name@ == varname@
                && r.0 == Self::single_mask(self.variables@[i].valid@, self.variables@[i].full_mask.0, values@),
    {
        let idx = match self.find_variable(varname) {
            Some(idx) => idx,
            None => {
                assert(false);
                0
            },
        };
        let var = &self.variables[idx];
        let mut mask = !var.full_mask.0;
        let mut i: usize = 0;
        while i < values.len()
            invariant
                i <= values@.len(),
                idx < self.variables@.len(),
                *var == self.variables@[idx as int],
                mask == Self::single_mask(var.valid@, var.full_mask.0, values@.take(i as int)),
            decreases values.len() - i,
        {
            let m = var.mask(values[i]);
            mask = mask | m.0;
            i = i + 1;
            assert(values@.take(i as int).drop_last() =~= values@.take(i - 1));
        }
        assert(values@.take(values@.len() as int) =~= values@);
        Scenario(mask)
    }

    /// The value of a scenario variable, in each scenario.
    pub fn expr_from_variable(&self, name: &str) -> (r: PerScenario<String>)
        requires
            self.wf(),
            self.spec_find_var(name@) is Some,
        ensures
            r.wf(),
            ({
                let var = self.variables@[self.spec_find_var(name@)->0];
                &&& r.values@.len() == var.valid@.len()
                &&& forall|i: int|
                    0 <= i < var.valid@.len() ==> #[trigger] r.values@[i].0 == Scenario(
                        var.valid@[i].1.0 | !var.full_mask.0,
                    ) && r.values@[i].1@ == var.valid@[i].0@
            }),
    {
        let idx = match self.find_variable(name) {
            Some(idx) => idx,
            None => {
                assert(false);
                0
            },
        };
        proof {
            let k = self.spec_find_var(name@)->0;
            if k != idx {
                assert(self.variables@[k].name@ != self.variables@[idx as int].name@);
            }
        }
        let var = &self.variables[idx];
        proof {
            let f = var.full_mask.0;
            assert forall|a: int, b: int|
                0 <= a < var.valid@.len() && 0 <= b < var.valid@.len() && a != b implies #[trigger] (
                var.valid@[a].1.0 | !f) != #[trigger] (var.valid@[b].1.0 | !f) by {
                let ma = var.valid@[a].1.0;
                let mb = var.valid@[b].1.0;
                assert(self.variables@[idx as int].wf());
                crate::scenario_variables::lemma_or_masks_contains(var.valid@, a);
                crate::scenario_variables::lemma_or_masks_contains(var.valid@, b);
                assert(mask_of(self.variables@, idx as int, a) != mask_of(self.variables@, idx as int, b));
                assert(ma & f == ma && mb & f == mb && ma != mb ==> (ma | !f) != (mb | !f)) by (bit_vector);
            }
        }
        PerScenario::new_with_variable(var.full_mask, var.valid.as_slice())
    }
}

} // verus!
