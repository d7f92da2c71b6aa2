//! A lot of expressions and variables in projects will have a value that
//! differs depending on the scenario.
//! The set of values must cover the whole space of scenarios (and the functions
//! in this package ensure this is the case).  It is possible for multiple
//! scenarios to overlap.  With all methods below, this should still result in
//! consistent values for a given scenario.
use crate::allscenarios::AllScenarios;
use crate::scenarios::Scenario;
use crate::strings::{
    chars_of, decimal, join, lemma_views_push, owned, push_char, push_str, seq_join, sort_strings, sorted_seqs,
    u32_to_string, views,
};
use vstd::prelude::*;

verus! {

/// Values that can be stored per scenario: they can be copied.
pub trait ScenarioValue: Sized + View {
    /// How the value is displayed.
    spec fn shown(v: Self::V) -> Seq<char>;

    /// A copy of the value.
    fn duplicate(&self) -> (r: Self)
        ensures
            r@ == self@,
    ;

    /// Displays the value.
    fn display(&self) -> (r: String)
        ensures
            r@ == Self::shown(self@),
    ;

    /// How the value is displayed for debugging.
    spec fn debugged(v: Self::V) -> Seq<char>;

    /// Displays the value for debugging: strings are quoted and lists are
    /// bracketed.
    fn debug(&self) -> (r: String)
        ensures
            r@ == Self::debugged(self@),
    ;
}

/// A quoted string.
pub open spec fn quoted(s: Seq<char>) -> Seq<char> {
    "\""@ + s + "\""@
}

/// A bracketed list.
pub open spec fn bracketed(s: Seq<char>) -> Seq<char> {
    "["@ + s + "]"@
}

/// Quotes a string.
fn quote(s: &str) -> (r: String)
    ensures
        r@ == quoted(s@),
{
    let mut r = owned("\"");
    push_str(&mut r, s);
    push_str(&mut r, "\"");
    r
}

/// Brackets a string.
fn bracket(s: &str) -> (r: String)
    ensures
        r@ == bracketed(s@),
{
    let mut r = owned("[");
    push_str(&mut r, s);
    push_str(&mut r, "]");
    r
}

impl ScenarioValue for String {
    open spec fn shown(v: Seq<char>) -> Seq<char> {
        v
    }

    fn duplicate(&self) -> (r: Self) {
        self.clone()
    }

    fn display(&self) -> (r: String) {
        self.clone()
    }

    open spec fn debugged(v: Seq<char>) -> Seq<char> {
        quoted(v)
    }

    fn debug(&self) -> (r: String) {
        quote(self.as_str())
    }
}

impl ScenarioValue for u8 {
    open spec fn shown(v: u8) -> Seq<char> {
        decimal(v as nat)
    }

    fn duplicate(&self) -> (r: Self) {
        *self
    }

    fn display(&self) -> (r: String) {
        u32_to_string(*self as u32)
    }

    open spec fn debugged(v: u8) -> Seq<char> {
        decimal(v as nat)
    }

    fn debug(&self) -> (r: String) {
        u32_to_string(*self as u32)
    }
}

impl ScenarioValue for Vec<String> {
    open spec fn shown(v: Seq<String>) -> Seq<char> {
        seq_join(views(v), ", "@)
    }

    fn duplicate(&self) -> (r: Self) {
        crate::qnames::copy_strings(self.as_slice())
    }

    fn display(&self) -> (r: String) {
        join(self, ", ")
    }

    open spec fn debugged(v: Seq<String>) -> Seq<char> {
        bracketed(seq_join(views(v).map_values(|x: Seq<char>| quoted(x)), ", "@))
    }

    fn debug(&self) -> (r: String) {
        let mut parts: Vec<String> = Vec::new();
        let mut i: usize = 0;
        while i < self.len()
            invariant
                i <= self@.len(),
                parts@.len() == i,
                views(parts@) == views(self@).map_values(|x: Seq<char>| quoted(x)).take(i as int),
            decreases self.len() - i,
        {
            let ghost before = parts@;
            let q = quote(self[i].as_str());
            parts.push(q);
            proof {
                lemma_views_push(before, q);
                assert(views(self@).map_values(|x: Seq<char>| quoted(x)).take(i + 1) =~= views(self@).map_values(
                    |x: Seq<char>| quoted(x),
                ).take(i as int).push(quoted(self@[i as int]@)));
            }
            i = i + 1;
        }
        assert(views(self@).map_values(|x: Seq<char>| quoted(x)).take(self@.len() as int) =~= views(self@).map_values(
            |x: Seq<char>| quoted(x),
        ));
        let j = join(&parts, ", ");
        bracket(j.as_str())
    }
}

impl ScenarioValue for Vec<u8> {
    open spec fn shown(v: Seq<u8>) -> Seq<char> {
        seq_join(v.map_values(|x: u8| decimal(x as nat)), ", "@)
    }

    fn duplicate(&self) -> (r: Self) {
        let mut r: Vec<u8> = Vec::new();
        let mut i: usize = 0;
        while i < self.len()
            invariant
                i <= self@.len(),
                r@ == self@.take(i as int),
            decreases self.len() - i,
        {
            r.push(self[i]);
            i = i + 1;
            assert(r@ =~= self@.take(i as int));
        }
        assert(self@.take(self@.len() as int) =~= self@);
        r
    }

    fn display(&self) -> (r: String) {
        let mut parts: Vec<String> = Vec::new();
        let mut i: usize = 0;
        while i < self.len()
            invariant
                i <= self@.len(),
                parts@.len() == i,
                views(parts@) == self@.take(i as int).map_values(|x: u8| decimal(x as nat)),
            decreases self.len() - i,
        {
            let ghost before = parts@;
            parts.push(u32_to_string(self[i] as u32));
            i = i + 1;
            proof {
                let a = views(parts@);
                let b = self@.take(i as int).map_values(|x: u8| decimal(x as nat));
                let b0 = self@.take(i - 1).map_values(|x: u8| decimal(x as nat));
                assert(a.len() == b.len());
                assert forall|k: int| 0 <= k < i implies a[k] == b[k] by {
                    if k < i - 1 {
                        assert(parts@[k] == before[k]);
                        assert(views(before)[k] == b0[k]);
                    }
                }
                assert(a =~= b);
            }
        }
        assert(self@.take(self@.len() as int) =~= self@);
        join(&parts, ", ")
    }

    open spec fn debugged(v: Seq<u8>) -> Seq<char> {
        bracketed(Self::shown(v))
    }

    fn debug(&self) -> (r: String) {
        let d = self.display();
        bracket(d.as_str())
    }
}

/// A value for each scenario.
#[derive(Clone, Debug, PartialEq)]
pub struct PerScenario<T> {
    pub values: Vec<(Scenario, T)>,
}

/// Whether no scenario appears twice.
pub open spec fn keys_distinct<T>(v: Seq<(Scenario, T)>) -> bool {
    forall|i: int, j: int| 0 <= i < v.len() && 0 <= j < v.len() && i != j ==> v[i].0 != v[j].0
}

/// The position of a scenario in the list.
pub open spec fn key_index<T>(v: Seq<(Scenario, T)>, s: Scenario) -> int {
    choose|i: int| 0 <= i < v.len() && v[i].0 == s
}

/// Whether a scenario is in the list.
pub open spec fn has_key<T>(v: Seq<(Scenario, T)>, s: Scenario) -> bool {
    exists|i: int| 0 <= i < v.len() && v[i].0 == s
}

/// A single value that applies in all scenarios.
pub open spec fn is_single<T>(v: Seq<(Scenario, T)>) -> bool {
    v.len() == 1 && v[0].0 == Scenario::all()
}

/// Some entry applies to the combination of values `c`.
pub open spec fn covered<T>(v: Seq<(Scenario, T)>, scenars: AllScenarios, c: Seq<int>) -> bool {
    exists|i: int| 0 <= i < v.len() && #[trigger] scenars.covers(v[i].0, c)
}

/// Every combination of values of the variables has an entry.
pub open spec fn total<T>(v: Seq<(Scenario, T)>, scenars: AllScenarios) -> bool {
    forall|c: Seq<int>| scenars.is_point(c) ==> #[trigger] covered(v, scenars, c)
}

/// Some entry that applies to `c` holds a value whose view is `x`.
pub open spec fn holds_at<T: View>(v: Seq<(Scenario, T)>, scenars: AllScenarios, c: Seq<int>, x: T::V) -> bool {
    exists|i: int| 0 <= i < v.len() && #[trigger] scenars.covers(v[i].0, c) && v[i].1@ == x
}

/// `x` is the view of what `merge` gives for some value and the value of
/// the `b`-th entry of `right`.
pub open spec fn merged_with<T: View, U, F: Fn(T, &U) -> T>(right: Seq<(Scenario, U)>, b: int, x: T::V, merge: F) -> bool {
    exists|a: T, r: T| #[trigger] call_ensures(merge, (a, &right[b].1), r) && r@ == x
}

/// `c` is in the context, and one of the first `n` entries of `right`
/// applies to it.
pub open spec fn touched<U>(right: Seq<(Scenario, U)>, scenars: AllScenarios, context: Scenario, c: Seq<int>, n: int) -> bool {
    scenars.covers(context, c) && exists|b: int| 0 <= b < n && #[trigger] scenars.covers(right[b].0, c)
}

/// `x` comes from `merge` with one of the first `n` entries of `right`
/// that applies to `c`.
pub open spec fn merged_at<T: View, U, F: Fn(T, &U) -> T>(right: Seq<(Scenario, U)>, scenars: AllScenarios, c: Seq<int>, x: T::V, merge: F, n: int) -> bool {
    exists|b: int| 0 <= b < n && #[trigger] scenars.covers(right[b].0, c) && merged_with(right, b, x, merge)
}

/// After merging the first `n` entries of `right` within `context` into
/// `v0`, `x` is a correct value at `c`.
pub open spec fn point_ok<T: View, U, F: Fn(T, &U) -> T>(
    v0: Seq<(Scenario, T)>, right: Seq<(Scenario, U)>, scenars: AllScenarios, context: Scenario, merge: F,
    c: Seq<int>, x: T::V, n: int,
) -> bool {
    if touched(right, scenars, context, c, n) {
        merged_at(right, scenars, c, x, merge, n)
    } else {
        holds_at(v0, scenars, c, x)
    }
}

/// Every value of `v` is correct, after merging the first `n` entries of
/// `right` within `context` into `v0`.
pub open spec fn good_after<T: View, U, F: Fn(T, &U) -> T>(
    v0: Seq<(Scenario, T)>, right: Seq<(Scenario, U)>, scenars: AllScenarios, context: Scenario, merge: F,
    v: Seq<(Scenario, T)>, n: int,
) -> bool {
    forall|c: Seq<int>, i: int| scenars.is_point(c) && 0 <= i < v.len() && #[trigger] scenars.covers(v[i].0, c)
        ==> point_ok(v0, right, scenars, context, merge, c, v[i].1@, n)
}

/// Outside of `s`, every value of `v` is correct after merging the first `k`
/// entries of `right`.
pub open spec fn outside_ok<T: View, U, F: Fn(T, &U) -> T>(
    v0: Seq<(Scenario, T)>, right: Seq<(Scenario, U)>, scenars: AllScenarios, context: Scenario, merge: F,
    v: Seq<(Scenario, T)>, k: int, s: Scenario,
) -> bool {
    forall|c: Seq<int>, i: int| scenars.is_point(c) && 0 <= i < v.len() && #[trigger] scenars.covers(v[i].0, c)
        && !scenars.covers(s, c) ==> point_ok(v0, right, scenars, context, merge, c, v[i].1@, k)
}

/// Inside `s`, every value of `v` not in `pending` comes from `merge` with
/// the `k`-th entry of `right`.
pub open spec fn inside_ok<T: View, U, F: Fn(T, &U) -> T>(
    right: Seq<(Scenario, U)>, scenars: AllScenarios, merge: F, v: Seq<(Scenario, T)>, k: int, s: Scenario,
    pending: Seq<Scenario>,
) -> bool {
    forall|c: Seq<int>, i: int| scenars.is_point(c) && 0 <= i < v.len() && #[trigger] scenars.covers(v[i].0, c)
        && scenars.covers(s, c) && !pending.contains(v[i].0) ==> merged_with(right, k, v[i].1@, merge)
}

/// The list after setting the value of a scenario.
pub open spec fn inserted<T>(v: Seq<(Scenario, T)>, s: Scenario, x: T) -> Seq<(Scenario, T)> {
    if has_key(v, s) {
        v.update(key_index(v, s), (s, x))
    } else {
        v.push((s, x))
    }
}

/// Setting a value keeps every combination of values covered, and covers
/// those of the new scenario.
proof fn lemma_inserted<T>(v: Seq<(Scenario, T)>, s: Scenario, x: T, scenars: AllScenarios)
    ensures
        forall|c: Seq<int>| #[trigger] covered(v, scenars, c) ==> covered(inserted(v, s, x), scenars, c),
        forall|c: Seq<int>| scenars.covers(s, c) ==> #[trigger] covered(inserted(v, s, x), scenars, c),
{
    let a = inserted(v, s, x);
    if has_key(v, s) {
        let ki = key_index(v, s);
        assert(v[ki].0 == s);
        assert(a[ki].0 == s);
        assert forall|c: Seq<int>| #[trigger] covered(v, scenars, c) implies covered(a, scenars, c) by {
            let i = choose|i: int| 0 <= i < v.len() && #[trigger] scenars.covers(v[i].0, c);
            assert(a[i].0 == v[i].0);
        }
    } else {
        assert(a[v.len() as int].0 == s);
        assert forall|c: Seq<int>| #[trigger] covered(v, scenars, c) implies covered(a, scenars, c) by {
            let i = choose|i: int| 0 <= i < v.len() && #[trigger] scenars.covers(v[i].0, c);
            assert(a[i].0 == v[i].0);
        }
    }
}

/// Removing the entry of the scenario being processed keeps the values
/// correct; only that scenario's combinations may lose their value.
proof fn lemma_remove_keeps<T: View, U, F: Fn(T, &U) -> T>(
    v0: Seq<(Scenario, T)>, right: Seq<(Scenario, U)>, scenars: AllScenarios, context: Scenario, merge: F,
    before: Seq<(Scenario, T)>, ki: int, k: int, s: Scenario, pending: Seq<Scenario>, later: Seq<Scenario>,
)
    requires
        keys_distinct(before),
        0 <= ki < before.len(),
        pending.len() > 0,
        pending[0] == before[ki].0,
        later == pending.subrange(1, pending.len() as int),
        outside_ok(v0, right, scenars, context, merge, before, k, s),
        inside_ok(right, scenars, merge, before, k, s, pending),
    ensures
        outside_ok(v0, right, scenars, context, merge, before.remove(ki), k, s),
        inside_ok(right, scenars, merge, before.remove(ki), k, s, later),
        forall|c: Seq<int>| #[trigger] covered(before, scenars, c) ==> covered(before.remove(ki), scenars, c)
            || scenars.covers(before[ki].0, c),
        forall|c: Seq<int>| scenars.is_point(c) && scenars.covers(before[ki].0, c) && !scenars.covers(s, c)
            ==> #[trigger] point_ok(v0, right, scenars, context, merge, c, before[ki].1@, k),
{
    let mid = before.remove(ki);
    assert forall|i: int| 0 <= i < mid.len() implies #[trigger] mid[i] == before[if i < ki { i } else { i + 1 }] by {}
    assert forall|c: Seq<int>, i: int| scenars.is_point(c) && 0 <= i < mid.len() && #[trigger] scenars.covers(mid[i].0, c)
        && scenars.covers(s, c) && !later.contains(mid[i].0) implies merged_with(right, k, mid[i].1@, merge) by {
        let oi = if i < ki { i } else { i + 1 };
        assert(mid[i] == before[oi]);
        assert(oi != ki);
        assert(before[oi].0 != before[ki].0);
        if pending.contains(mid[i].0) {
            let y = choose|y: int| 0 <= y < pending.len() && pending[y] == mid[i].0;
            assert(y != 0);
            assert(later[y - 1] == mid[i].0);
        }
    }
    assert forall|c: Seq<int>| #[trigger] covered(before, scenars, c) implies covered(mid, scenars, c)
        || scenars.covers(before[ki].0, c) by {
        let i = choose|i: int| 0 <= i < before.len() && #[trigger] scenars.covers(before[i].0, c);
        if i < ki {
            assert(mid[i] == before[i]);
        } else if i > ki {
            assert(mid[i - 1] == before[i]);
        }
    }
}

/// Without an entry for the processed scenario, the values that are not
/// pending stay correct once it is no longer pending.
proof fn lemma_inside_later<T: View, U, F: Fn(T, &U) -> T>(
    right: Seq<(Scenario, U)>, scenars: AllScenarios, merge: F, v: Seq<(Scenario, T)>, k: int, s: Scenario,
    pending: Seq<Scenario>, later: Seq<Scenario>,
)
    requires
        pending.len() > 0,
        !has_key(v, pending[0]),
        later == pending.subrange(1, pending.len() as int),
        inside_ok(right, scenars, merge, v, k, s, pending),
    ensures
        inside_ok(right, scenars, merge, v, k, s, later),
{
    assert forall|c: Seq<int>, i: int| scenars.is_point(c) && 0 <= i < v.len() && #[trigger] scenars.covers(v[i].0, c)
        && scenars.covers(s, c) && !later.contains(v[i].0) implies merged_with(right, k, v[i].1@, merge) by {
        if pending.contains(v[i].0) {
            let y = choose|y: int| 0 <= y < pending.len() && pending[y] == v[i].0;
            assert(y != 0);
            assert(later[y - 1] == v[i].0);
        }
    }
}

/// Setting the part of a value that lies outside `s` keeps the values
/// correct.
proof fn lemma_insert_piece<T: View, U, F: Fn(T, &U) -> T>(
    v0: Seq<(Scenario, T)>, right: Seq<(Scenario, U)>, scenars: AllScenarios, context: Scenario, merge: F,
    before: Seq<(Scenario, T)>, s1: Scenario, negs: Seq<Scenario>, n: int, d: T, v1: T::V, k: int, s: Scenario,
    later: Seq<Scenario>,
)
    requires
        scenars.wf(),
        negs == scenars.spec_negate(s, scenars.variables@.len() as int),
        0 <= n < negs.len(),
        d@ == v1,
        outside_ok(v0, right, scenars, context, merge, before, k, s),
        inside_ok(right, scenars, merge, before, k, s, later),
        forall|c: Seq<int>| scenars.is_point(c) && scenars.covers(s1, c) && !scenars.covers(s, c)
            ==> #[trigger] point_ok(v0, right, scenars, context, merge, c, v1, k),
    ensures
        outside_ok(v0, right, scenars, context, merge, inserted(before, Scenario(s1.0 & negs[n].0), d), k, s),
        inside_ok(right, scenars, merge, inserted(before, Scenario(s1.0 & negs[n].0), d), k, s, later),
{
    let key = Scenario(s1.0 & negs[n].0);
    let a = inserted(before, key, d);
    let ki = if has_key(before, key) { key_index(before, key) } else { before.len() as int };
    assert(a[ki] == (key, d));
    assert forall|i: int| 0 <= i < a.len() && i != ki implies #[trigger] a[i] == before[i] by {}
    assert forall|c: Seq<int>| scenars.is_point(c) && #[trigger] scenars.covers(key, c)
        implies scenars.covers(s1, c) && !scenars.covers(s, c) by {
        scenars.lemma_covers_and(s1, negs[n], c);
        scenars.lemma_negate_is_complement(s, c);
    }
    assert forall|c: Seq<int>, i: int| scenars.is_point(c) && 0 <= i < a.len() && #[trigger] scenars.covers(a[i].0, c)
        && !scenars.covers(s, c) implies point_ok(v0, right, scenars, context, merge, c, a[i].1@, k) by {
        if i != ki {
            assert(a[i] == before[i]);
        }
    }
    assert forall|c: Seq<int>, i: int| scenars.is_point(c) && 0 <= i < a.len() && #[trigger] scenars.covers(a[i].0, c)
        && scenars.covers(s, c) && !later.contains(a[i].0) implies merged_with(right, k, a[i].1@, merge) by {
        if i != ki {
            assert(a[i] == before[i]);
        }
    }
}

/// Setting the merged value of the part of a value that lies inside `s`
/// keeps the values correct.
proof fn lemma_insert_merged<T: View, U, F: Fn(T, &U) -> T>(
    v0: Seq<(Scenario, T)>, right: Seq<(Scenario, U)>, scenars: AllScenarios, context: Scenario, merge: F,
    before: Seq<(Scenario, T)>, key: Scenario, merged: T, k: int, s: Scenario, later: Seq<Scenario>,
)
    requires
        scenars.wf(),
        exists|s1: Scenario| key == Scenario(s1.0 & s.0),
        merged_with(right, k, merged@, merge),
        outside_ok(v0, right, scenars, context, merge, before, k, s),
        inside_ok(right, scenars, merge, before, k, s, later),
    ensures
        outside_ok(v0, right, scenars, context, merge, inserted(before, key, merged), k, s),
        inside_ok(right, scenars, merge, inserted(before, key, merged), k, s, later),
{
    let a = inserted(before, key, merged);
    let s1 = choose|s1: Scenario| key == Scenario(s1.0 & s.0);
    let ki = if has_key(before, key) { key_index(before, key) } else { before.len() as int };
    assert(a[ki] == (key, merged));
    assert forall|i: int| 0 <= i < a.len() && i != ki implies #[trigger] a[i] == before[i] by {}
    assert forall|c: Seq<int>, i: int| scenars.is_point(c) && 0 <= i < a.len() && #[trigger] scenars.covers(a[i].0, c)
        && !scenars.covers(s, c) implies point_ok(v0, right, scenars, context, merge, c, a[i].1@, k) by {
        if i != ki {
            assert(a[i] == before[i]);
        } else {
            scenars.lemma_covers_and(s1, s, c);
        }
    }
    assert forall|c: Seq<int>, i: int| scenars.is_point(c) && 0 <= i < a.len() && #[trigger] scenars.covers(a[i].0, c)
        && scenars.covers(s, c) && !later.contains(a[i].0) implies merged_with(right, k, a[i].1@, merge) by {
        if i != ki {
            assert(a[i] == before[i]);
        }
    }
}

/// Once every pending scenario was processed, the values are correct after
/// merging one more entry of `right`.
proof fn lemma_pass_done<T: View, U, F: Fn(T, &U) -> T>(
    v0: Seq<(Scenario, T)>, right: Seq<(Scenario, U)>, scenars: AllScenarios, context: Scenario, merge: F,
    v: Seq<(Scenario, T)>, k: int, s: Scenario, none: Seq<Scenario>,
)
    requires
        scenars.wf(),
        0 <= k < right.len(),
        none.len() == 0,
        s == Scenario(context.0 & right[k].0.0),
        outside_ok(v0, right, scenars, context, merge, v, k, s),
        inside_ok(right, scenars, merge, v, k, s, none),
    ensures
        good_after(v0, right, scenars, context, merge, v, k + 1),
{
    assert forall|c: Seq<int>, i: int| scenars.is_point(c) && 0 <= i < v.len() && #[trigger] scenars.covers(v[i].0, c)
        implies point_ok(v0, right, scenars, context, merge, c, v[i].1@, k + 1) by {
        scenars.lemma_covers_and(context, right[k].0, c);
        let x = v[i].1@;
        if scenars.covers(s, c) {
            assert(!none.contains(v[i].0));
            assert(merged_with(right, k, x, merge));
            assert(scenars.covers(right[k].0, c));
            assert(touched(right, scenars, context, c, k + 1));
        } else {
            assert(point_ok(v0, right, scenars, context, merge, c, x, k));
            if touched(right, scenars, context, c, k) {
                let b = choose|b: int| 0 <= b < k && #[trigger] scenars.covers(right[b].0, c) && merged_with(right, b, x, merge);
                assert(touched(right, scenars, context, c, k + 1));
            } else {
                if touched(right, scenars, context, c, k + 1) {
                    let b = choose|b: int| 0 <= b < k + 1 && #[trigger] scenars.covers(right[b].0, c);
                    assert(b == k);
                }
            }
        }
    }
}

/// Negating the scenario that applies everywhere gives nothing.
proof fn lemma_negate_all(scenars: &AllScenarios, n: int)
    ensures
        scenars.spec_negate(Scenario::all(), n).len() == 0,
    decreases n,
{
    if n > 0 {
        lemma_negate_all(scenars, n - 1);
        let full = scenars.variables@[n - 1].full_mask.0;
        assert(!u64::MAX & full == 0) by (bit_vector);
    }
}

impl<T> PerScenario<T> {
    /// No scenario appears twice.
    pub open spec fn wf(&self) -> bool {
        keys_distinct(self.values@)
    }

    /// Create a new value, with a default value valid for all scenarios.
    pub fn new(default_val: T) -> (r: Self)
        ensures
            r.wf(),
            r.values@ == seq![(Scenario::all(), default_val)],
    {
        let mut m: Vec<(Scenario, T)> = Vec::new();
        m.push((Scenario(u64::MAX), default_val));
        PerScenario { values: m }
    }

    /// All the values, with the scenarios in which they apply.
    pub fn iter(&self) -> (r: &[(Scenario, T)])
        ensures
            r@ == self.values@,
    {
        self.values.as_slice()
    }

    /// The position of a scenario, if it is present.
    pub fn find(&self, s: Scenario) -> (r: Option<usize>)
        ensures
            r matches Some(i) ==> i < self.values@.len() && self.values@[i as int].0 == s,
            r is None ==> !has_key(self.values@, s),
    {
        let mut i: usize = 0;
        while i < self.values.len()
            invariant
                i <= self.values@.len(),
                forall|j: int| 0 <= j < i ==> self.values@[j].0 != s,
            decreases self.values.len() - i,
        {
            if self.values[i].0 == s {
                return Some(i);
            }
            i = i + 1;
        }
        None
    }

    /// Sets the value for a scenario (replacing any previous value).
    pub fn insert(&mut self, s: Scenario, v: T)
        requires
            old(self).wf(),
        ensures
            final(self).wf(),
            has_key(old(self).values@, s) ==> final(self).values@ == old(self).values@.update(
                key_index(old(self).values@, s),
                (s, v),
            ),
            !has_key(old(self).values@, s) ==> final(self).values@ == old(self).values@.push((s, v)),
    {
        match self.find(s) {
            Some(i) => {
                proof {
                    let k = key_index(self.values@, s);
                    assert(self.values@[k].0 == s);
                }
                self.values.set(i, (s, v));
            },
            None => {
                self.values.push((s, v));
            },
        }
    }

    /// Removes the value for a scenario, and returns it.
    pub fn remove(&mut self, s: Scenario) -> (r: Option<T>)
        requires
            old(self).wf(),
        ensures
            final(self).wf(),
            has_key(old(self).values@, s) ==> r == Some(
                old(self).values@[key_index(old(self).values@, s)].1,
            ) && final(self).values@ == old(self).values@.remove(key_index(old(self).values@, s)),
            !has_key(old(self).values@, s) ==> r is None && final(self).values@ == old(
                self,
            ).values@,
    {
        match self.find(s) {
            Some(i) => {
                proof {
                    let k = key_index(self.values@, s);
                    assert(self.values@[k].0 == s);
                }
                let (_, v) = self.values.remove(i);
                Some(v)
            },
            None => None,
        }
    }

    /// All the scenarios for which a value is known.
    pub fn scenarios(&self) -> (r: Vec<Scenario>)
        ensures
            r@ == self.values@.map_values(|p: (Scenario, T)| p.0),
    {
        let mut r: Vec<Scenario> = Vec::new();
        let mut i: usize = 0;
        while i < self.values.len()
            invariant
                i <= self.values@.len(),
                r@ == self.values@.take(i as int).map_values(|p: (Scenario, T)| p.0),
            decreases self.values.len() - i,
        {
            r.push(self.values[i].0);
            i = i + 1;
            assert(r@ =~= self.values@.take(i as int).map_values(|p: (Scenario, T)| p.0));
        }
        assert(self.values@.take(self.values@.len() as int) =~= self.values@);
        r
    }

    /// Transform the value into another value with the same scenarios.
    pub fn map<U, F: Fn(&T) -> U>(&self, transform: F) -> (r: PerScenario<U>)
        requires
            forall|x: &T| call_requires(transform, (x,)),
        ensures
            r.values@.len() == self.values@.len(),
            forall|i: int|
                0 <= i < self.values@.len() ==> r.values@[i].0 == self.values@[i].0 && call_ensures(
                    transform,
                    (&self.values@[i].1,),
                    r.values@[i].1,
                ),
            self.wf() ==> r.wf(),
    {
        let mut m: Vec<(Scenario, U)> = Vec::new();
        let mut i: usize = 0;
        while i < self.values.len()
            invariant
                i <= self.values@.len(),
                forall|x: &T| call_requires(transform, (x,)),
                m@.len() == i,
                forall|k: int|
                    0 <= k < i ==> m@[k].0 == self.values@[k].0 && call_ensures(
                        transform,
                        (&self.values@[k].1,),
                        m@[k].1,
                    ),
            decreases self.values.len() - i,
        {
            let u = transform(&self.values[i].1);
            m.push((self.values[i].0, u));
            i = i + 1;
        }
        PerScenario { values: m }
    }
}

/// Spaces.
pub open spec fn spaces(n: nat) -> Seq<char> {
    Seq::new(n, |_i: int| ' ')
}

/// Pads a text with spaces on the right, to the given width.
pub open spec fn pad(s: Seq<char>, w: nat) -> Seq<char> {
    if s.len() >= w {
        s
    } else {
        s + spaces((w - s.len()) as nat)
    }
}

/// The length of the longest text.
pub open spec fn max_len(v: Seq<Seq<char>>) -> nat
    decreases v.len(),
{
    if v.len() == 0 {
        0
    } else if v.last().len() > max_len(v.drop_last()) {
        v.last().len()
    } else {
        max_len(v.drop_last())
    }
}

/// Appends spaces until the text has the given width.
fn pad_to(line: &mut String, len: usize, width: usize)
    ensures
        final(line)@ == old(line)@ + (if len >= width { Seq::<char>::empty() } else { spaces((width - len) as nat) }),
{
    let mut n: usize = len;
    let ghost start = line@;
    while n < width
        invariant
            len <= n <= width || (n == len && len >= width),
            line@ == start + spaces((n - len) as nat),
        decreases width - n,
    {
        push_char(line, ' ');
        n = n + 1;
        assert(line@ =~= start + spaces((n - len) as nat));
    }
    if len >= width {
        assert(line@ =~= start + Seq::<char>::empty());
    }
}

impl<T: ScenarioValue> PerScenario<T> {
    /// The scenarios and the views of their values.
    pub open spec fn entries(&self) -> Seq<(Scenario, T::V)> {
        self.values@.map_values(|p: (Scenario, T)| (p.0, p.1@))
    }

    /// A copy of the value.
    pub fn duplicate(&self) -> (r: Self)
        ensures
            r.entries() == self.entries(),
            r.values@.len() == self.values@.len(),
            forall|i: int| 0 <= i < self.values@.len() ==> #[trigger] r.values@[i].0 == self.values@[i].0,
            self.wf() ==> r.wf(),
    {
        let mut m: Vec<(Scenario, T)> = Vec::new();
        let mut i: usize = 0;
        while i < self.values.len()
            invariant
                i <= self.values@.len(),
                m@.len() == i,
                forall|k: int| 0 <= k < i ==> #[trigger] m@[k].0 == self.values@[k].0 && m@[k].1@ == self.values@[k].1@,
            decreases self.values.len() - i,
        {
            let v = self.values[i].1.duplicate();
            m.push((self.values[i].0, v));
            i = i + 1;
        }
        let r = PerScenario { values: m };
        assert(r.entries() =~= self.entries());
        r
    }

    /// How the scenarios of the value are displayed.
    pub open spec fn descriptions(&self, scenarios: &AllScenarios) -> Seq<Seq<char>> {
        self.values@.map_values(|p: (Scenario, T)| scenarios.description(p.0))
    }

    /// The lines displaying the value, before they are sorted.
    pub open spec fn column_lines(&self, scenarios: &AllScenarios, indent: Seq<char>) -> Seq<Seq<char>> {
        let d = self.descriptions(scenarios);
        Seq::new(
            self.values@.len(),
            |k: int| indent + pad(d[k], max_len(d)) + " "@ + T::shown(self.values@[k].1@),
        )
    }

    /// Whether the text shows the value in two columns: the lines sorted
    /// and joined.
    pub open spec fn shown_in_columns(&self, scenarios: &AllScenarios, indent: Seq<char>, eol: Seq<char>, r: Seq<char>) -> bool {
        exists|built: Seq<String>, sorted: Seq<String>|
            views(built) == self.column_lines(scenarios, indent) && sorted.to_multiset() == built.to_multiset()
                && sorted_seqs(views(sorted)) && r == seq_join(views(sorted), eol)
    }

    /// Display the value of a variable on two columns:
    ///     <indent>scenario1 value1<eol>
    ///     <indent>scenar2   value2<eol>
    /// The lines are sorted.
    pub fn two_columns(&self, scenarios: &AllScenarios, indent: &str, eol: &str) -> (r: String)
        ensures
            self.shown_in_columns(scenarios, indent@, eol@, r@),
    {
        let ghost d = self.descriptions(scenarios);
        let mut col1: Vec<String> = Vec::new();
        let mut i: usize = 0;
        while i < self.values.len()
            invariant
                i <= self.values@.len(),
                d == self.descriptions(scenarios),
                views(col1@) == d.take(i as int),
            decreases self.values.len() - i,
        {
            let ghost before = col1@;
            let desc = scenarios.describe(self.values[i].0);
            col1.push(desc);
            proof {
                lemma_views_push(before, desc);
                assert(d.take(i + 1) =~= d.take(i as int).push(d[i as int]));
            }
            i = i + 1;
        }
        assert(d.take(d.len() as int) =~= d);
        let mut max: usize = 0;
        let mut lens: Vec<usize> = Vec::new();
        let mut j: usize = 0;
        while j < col1.len()
            invariant
                j <= col1@.len(),
                views(col1@) == d,
                lens@.len() == j,
                forall|k: int| 0 <= k < j ==> lens@[k] == d[k].len(),
                max == max_len(d.take(j as int)),
            decreases col1.len() - j,
        {
            let n = chars_of(col1[j].as_str()).len();
            lens.push(n);
            proof {
                assert(d.take(j + 1).drop_last() =~= d.take(j as int));
                assert(d.take(j + 1).last() == d[j as int]);
            }
            if n > max {
                max = n;
            }
            j = j + 1;
        }
        let mut lines: Vec<String> = Vec::new();
        let mut k: usize = 0;
        while k < self.values.len()
            invariant
                k <= self.values@.len(),
                views(col1@) == d,
                d == self.descriptions(scenarios),
                d.len() == self.values@.len(),
                lens@.len() == d.len(),
                forall|t: int| 0 <= t < d.len() ==> lens@[t] == d[t].len(),
                max == max_len(d),
                views(lines@) == self.column_lines(scenarios, indent@).take(k as int),
            decreases self.values.len() - k,
        {
            let mut line = owned(indent);
            push_str(&mut line, col1[k].as_str());
            pad_to(&mut line, lens[k], max);
            push_str(&mut line, " ");
            let shown = self.values[k].1.display();
            push_str(&mut line, shown.as_str());
            proof {
                assert(line@ =~= self.column_lines(scenarios, indent@)[k as int]);
            }
            let ghost before = lines@;
            let ghost l = line;
            lines.push(line);
            proof {
                lemma_views_push(before, l);
                assert(self.column_lines(scenarios, indent@).take(k + 1) =~= self.column_lines(
                    scenarios,
                    indent@,
                ).take(k as int).push(self.column_lines(scenarios, indent@)[k as int]));
            }
            k = k + 1;
        }
        assert(self.column_lines(scenarios, indent@).take(self.values@.len() as int) =~= self.column_lines(scenarios, indent@));
        let ghost built = lines@;
        sort_strings(&mut lines);
        let r = join(&lines, eol);
        assert(views(built) == self.column_lines(scenarios, indent@) && lines@.to_multiset() == built.to_multiset()
            && sorted_seqs(views(lines@)) && r@ == seq_join(views(lines@), eol@));
        r
    }

    /// How the value is displayed for debugging, with the entries in the
    /// given order.
    pub open spec fn debug_entries(&self, scenars: &AllScenarios, order: Seq<int>) -> Seq<char>
        decreases order.len(),
    {
        if order.len() == 0 {
            Seq::empty()
        } else {
            let k = order.last();
            self.debug_entries(scenars, order.drop_last()) + scenars.description(self.values@[k].0) + ":"@
                + T::debugged(self.values@[k].1@) + ", "@
        }
    }

    /// Displays the value for debugging, with the scenarios in increasing
    /// order: `{scenario:value, ...}`.
    pub fn format(&self, scenars: &AllScenarios) -> (r: String)
        requires
            self.wf(),
        ensures
            exists|order: Seq<int>|
                {
                    &&& order.len() == self.values@.len()
                    &&& forall|k: int| 0 <= k < order.len() ==> 0 <= #[trigger] order[k] < self.values@.len()
                    &&& forall|a: int, b: int|
                        0 <= a < b < order.len() ==> self.values@[#[trigger] order[a]].0.0 < self.values@[#[trigger] order[b]].0.0
                    &&& r@ == "{"@ + self.debug_entries(scenars, order) + "}"@
                },
    {
        // Sort the positions by scenario.
        let mut order: Vec<usize> = Vec::new();
        let mut i: usize = 0;
        while i < self.values.len()
            invariant
                self.wf(),
                i <= self.values@.len(),
                order@.len() == i,
                forall|k: int| 0 <= k < order@.len() ==> #[trigger] order@[k] < i,
                forall|a: int, b: int|
                    0 <= a < b < order@.len() ==> self.values@[#[trigger] order@[a] as int].0.0
                        < self.values@[#[trigger] order@[b] as int].0.0,
            decreases self.values.len() - i,
        {
            let key = self.values[i].0.0;
            let mut p: usize = 0;
            while p < order.len() && self.values[order[p]].0.0 < key
                invariant
                    p <= order@.len(),
                    i < self.values@.len(),
                    forall|k: int| 0 <= k < order@.len() ==> #[trigger] order@[k] < i,
                    forall|k: int| 0 <= k < p ==> self.values@[#[trigger] order@[k] as int].0.0 < key,
                decreases order.len() - p,
            {
                p = p + 1;
            }
            let ghost before = order@;
            proof {
                // Keys are distinct, so the key at p is above the new one.
                if p < order@.len() {
                    assert(order@[p as int] != i);
                    assert(self.values@[order@[p as int] as int].0 != self.values@[i as int].0);
                }
            }
            order.insert(p, i);
            proof {
                assert forall|a: int, b: int|
                    0 <= a < b < order@.len() implies self.values@[#[trigger] order@[a] as int].0.0
                    < self.values@[#[trigger] order@[b] as int].0.0 by {
                    if b < p {
                        assert(order@[a] == before[a] && order@[b] == before[b]);
                    } else if b == p {
                        assert(order@[a] == before[a]);
                    } else if a < p {
                        assert(order@[a] == before[a] && order@[b] == before[b - 1]);
                    } else if a == p {
                        assert(order@[b] == before[b - 1]);
                        if b - 1 > p {
                            assert(self.values@[before[p as int] as int].0.0 < self.values@[before[b - 1] as int].0.0);
                        }
                    } else {
                        assert(order@[a] == before[a - 1] && order@[b] == before[b - 1]);
                    }
                }
                assert forall|k: int| 0 <= k < order@.len() implies #[trigger] order@[k] < i + 1 by {
                    if k < p {
                        assert(order@[k] == before[k]);
                    } else if k > p {
                        assert(order@[k] == before[k - 1]);
                    }
                }
            }
            i = i + 1;
        }
        let ghost ord = order@.map_values(|x: usize| x as int);
        let mut res = owned("{");
        let mut k: usize = 0;
        while k < order.len()
            invariant
                k <= order@.len(),
                order@.len() == self.values@.len(),
                ord == order@.map_values(|x: usize| x as int),
                forall|t: int| 0 <= t < order@.len() ==> #[trigger] order@[t] < self.values@.len(),
                res@ == "{"@ + self.debug_entries(scenars, ord.take(k as int)),
            decreases order.len() - k,
        {
            let idx = order[k];
            proof {
                assert(ord.take(k + 1).drop_last() =~= ord.take(k as int));
                assert(ord.take(k + 1).last() == idx as int);
            }
            let d = scenars.describe(self.values[idx].0);
            push_str(&mut res, d.as_str());
            push_str(&mut res, ":");
            let v = self.values[idx].1.debug();
            push_str(&mut res, v.as_str());
            push_str(&mut res, ", ");
            k = k + 1;
            assert(res@ =~= "{"@ + self.debug_entries(scenars, ord.take(k as int)));
        }
        assert(ord.take(ord.len() as int) =~= ord);
        push_str(&mut res, "}");
        assert(forall|a: int, b: int|
            0 <= a < b < ord.len() ==> self.values@[#[trigger] ord[a]].0.0 < self.values@[#[trigger] ord[b]].0.0) by {
            assert forall|a: int, b: int| 0 <= a < b < ord.len() implies self.values@[#[trigger] ord[a]].0.0
                < self.values@[#[trigger] ord[b]].0.0 by {
                assert(ord[a] == order@[a] as int && ord[b] == order@[b] as int);
            }
        }
        assert(forall|t: int| 0 <= t < ord.len() ==> 0 <= #[trigger] ord[t] < self.values@.len()) by {
            assert forall|t: int| 0 <= t < ord.len() implies 0 <= #[trigger] ord[t] < self.values@.len() by {
                assert(ord[t] == order@[t] as int);
            }
        }
        res
    }

    /// Update self with the values of `right`, within the given context.
    /// The context represents a (nested) case statement, for instance:
    ///     case E1 is
    ///        when "a" | "b" =>
    ///           ...
    /// Values outside of this context are left unchanged.  Inside the
    /// context, the value is combined with the value of `right` by `merge`.
    pub fn update<U, F: Fn(T, &U) -> T>(
        &mut self,
        right: &PerScenario<U>,
        context: Scenario,
        scenars: &AllScenarios,
        merge: F,
    )
        requires
            old(self).wf(),
            forall|a: T, b: &U| call_requires(merge, (a, b)),
        ensures
            final(self).wf(),
            // Every combination of values still has a value.
            scenars.wf() && total(old(self).values@, *scenars) ==> total(final(self).values@, *scenars),
            // Where the context or `right` does not apply, the values are
            // those that applied before; elsewhere they come from `merge`
            // with a value of `right` that applies there.
            scenars.wf() ==> good_after(old(self).values@, right.values@, *scenars, context, merge, final(self).values@, right.values@.len() as int),
            // A value that does not depend on scenarios, combined in all
            // scenarios with another such value, gives one such value.
            is_single(old(self).values@) && is_single(right.values@) && context == Scenario::all()
                && !scenars.spec_never_matches(Scenario::all()) ==> is_single(final(self).values@)
                && call_ensures(merge, (old(self).values@[0].1, &right.values@[0].1), final(self).values@[0].1),
    {
        let ghost special = is_single(self.values@) && is_single(right.values@) && context == Scenario::all()
            && !scenars.spec_never_matches(Scenario::all());
        let ghost v0 = self.values@;
        let ghost w = scenars.wf();
        let ghost tot = w && total(v0, *scenars);
        proof {
            lemma_negate_all(scenars, scenars.variables@.len() as int);
            if w {
                assert forall|c: Seq<int>, i: int| scenars.is_point(c) && 0 <= i < v0.len() && #[trigger] scenars.covers(
                    v0[i].0,
                    c,
                ) implies point_ok(v0, right.values@, *scenars, context, merge, c, v0[i].1@, 0) by {
                    assert(holds_at(v0, *scenars, c, v0[i].1@));
                }
            }
        }
        let mut k: usize = 0;
        while k < right.values.len()
            invariant
                self.wf(),
                k <= right.values@.len(),
                forall|a: T, b: &U| call_requires(merge, (a, b)),
                w == scenars.wf(),
                tot ==> w && total(self.values@, *scenars),
                w ==> good_after(v0, right.values@, *scenars, context, merge, self.values@, k as int),
                special ==> is_single(right.values@) && context == Scenario::all()
                    && !scenars.spec_never_matches(Scenario::all()),
                special ==> scenars.spec_negate(Scenario::all(), scenars.variables@.len() as int).len() == 0,
                special && k == 0 ==> self.values@ == v0 && is_single(v0),
                special && k == 1 ==> is_single(self.values@) && call_ensures(
                    merge,
                    (v0[0].1, &right.values@[0].1),
                    self.values@[0].1,
                ),
            decreases right.values.len() - k,
        {
            let s2 = right.values[k].0;
            let v2 = &right.values[k].1;
            let s = context & s2;
            proof {
                if special {
                    assert(u64::MAX & u64::MAX == u64::MAX) by (bit_vector);
                    assert(s == Scenario::all());
                }
            }
            let mut to_replace: Vec<Scenario> = Vec::new();
            let mut i: usize = 0;
            while i < self.values.len()
                invariant
                    i <= self.values@.len(),
                    forall|x: int| 0 <= x < i && !scenars.spec_never_matches(Scenario(self.values@[x].0.0 & s.0))
                        ==> to_replace@.contains(#[trigger] self.values@[x].0),
                    special && k == 0 ==> self.values@ == v0 && is_single(v0) && s == Scenario::all()
                        && !scenars.spec_never_matches(Scenario::all())
                        && to_replace@ == (if i == 0 { Seq::<Scenario>::empty() } else { seq![Scenario::all()] }),
                decreases self.values.len() - i,
            {
                let s1 = self.values[i].0;
                let ghost tr_old = to_replace@;
                if !scenars.never_matches(s1 & s) {
                    to_replace.push(s1);
                    proof {
                        assert(to_replace@[to_replace@.len() - 1] == s1);
                        assert forall|x: Scenario| tr_old.contains(x) implies to_replace@.contains(x) by {
                            let y = choose|y: int| 0 <= y < tr_old.len() && tr_old[y] == x;
                            assert(to_replace@[y] == x);
                        }
                    }
                }
                proof {
                    if special && k == 0 {
                        assert(u64::MAX & u64::MAX == u64::MAX) by (bit_vector);
                    }
                }
                i = i + 1;
            }
            let negations = scenars.negate(s);
            proof {
                if w {
                    assert forall|c: Seq<int>, x: int| scenars.is_point(c) && 0 <= x < self.values@.len()
                        && #[trigger] scenars.covers(self.values@[x].0, c) && scenars.covers(s, c)
                        implies to_replace@.subrange(0, to_replace@.len() as int).contains(self.values@[x].0) by {
                        scenars.lemma_covers_and(self.values@[x].0, s, c);
                        scenars.lemma_never_matches_exact(Scenario(self.values@[x].0.0 & s.0));
                        assert(to_replace@.subrange(0, to_replace@.len() as int) =~= to_replace@);
                    }
                }
            }
            let mut j: usize = 0;
            while j < to_replace.len()
                invariant
                    self.wf(),
                    j <= to_replace@.len(),
                    forall|a: T, b: &U| call_requires(merge, (a, b)),
                    k < right.values@.len(),
                    v2 == right.values@[k as int].1,
                    s == Scenario(context.0 & right.values@[k as int].0.0),
                    negations@ == scenars.spec_negate(s, scenars.variables@.len() as int),
                    w == scenars.wf(),
                    tot ==> w && total(self.values@, *scenars),
                    w ==> outside_ok(v0, right.values@, *scenars, context, merge, self.values@, k as int, s),
                    w ==> inside_ok(right.values@, *scenars, merge, self.values@, k as int, s, to_replace@.subrange(j as int, to_replace@.len() as int)),
                    special && k == 0 ==> negations@.len() == 0 && s == Scenario::all() && to_replace@
                        == seq![Scenario::all()],
                    special && k == 0 && j == 0 ==> self.values@ == v0 && is_single(v0),
                    special && k == 0 && j == 1 ==> is_single(self.values@) && call_ensures(
                        merge,
                        (v0[0].1, &right.values@[0].1),
                        self.values@[0].1,
                    ),
                decreases to_replace.len() - j,
            {
                let s1 = to_replace[j];
                let ghost pending = to_replace@.subrange(j as int, to_replace@.len() as int);
                let ghost later = to_replace@.subrange(j + 1, to_replace@.len() as int);
                proof {
                    assert(pending.subrange(1, pending.len() as int) =~= later);
                    if special && k == 0 {
                        assert(v0[0].0 == s1);
                        assert(has_key(self.values@, s1));
                        assert(key_index(self.values@, s1) == 0);
                    }
                    assert forall|x: Scenario| later.contains(x) implies pending.contains(x) by {
                        let y = choose|y: int| 0 <= y < later.len() && later[y] == x;
                        assert(pending[y + 1] == x);
                    }
                }
                let ghost before_remove = self.values@;
                if let Some(v1) = self.remove(s1) {
                    let ghost mid = self.values@;
                    proof {
                        let ki = key_index(before_remove, s1);
                        assert(v1 == before_remove[ki].1);
                        if w {
                            lemma_remove_keeps(v0, right.values@, *scenars, context, merge, before_remove, ki, k as int,
                                s, pending, later);
                        }
                        if tot {
                            assert forall|c: Seq<int>| scenars.is_point(c) implies #[trigger] covered(self.values@, *scenars, c)
                                || (scenars.covers(s1, c) && forall|m: int| 0 <= m < 0 ==> !scenars.covers(#[trigger] negations@[m], c)) by {
                                assert(covered(before_remove, *scenars, c));
                            }
                        }
                    }
                    let mut n: usize = 0;
                    while n < negations.len()
                        invariant
                            self.wf(),
                            n <= negations@.len(),
                            negations@ == scenars.spec_negate(s, scenars.variables@.len() as int),
                            w == scenars.wf(),
                            tot ==> w && forall|c: Seq<int>| scenars.is_point(c) ==> #[trigger] covered(self.values@, *scenars, c)
                                || (scenars.covers(s1, c) && forall|m: int| 0 <= m < n ==> !scenars.covers(#[trigger] negations@[m], c)),
                            w ==> outside_ok(v0, right.values@, *scenars, context, merge, self.values@, k as int, s),
                            w ==> inside_ok(right.values@, *scenars, merge, self.values@, k as int, s, later),
                            w ==> forall|c: Seq<int>| scenars.is_point(c) && scenars.covers(s1, c) && !scenars.covers(s, c)
                                ==> #[trigger] point_ok(v0, right.values@, *scenars, context, merge, c, v1@, k as int),
                            special && k == 0 ==> negations@.len() == 0 && self.values@ == mid,
                        decreases negations.len() - n,
                    {
                        let s1_neg = s1 & negations[n];
                        let ghost bi = self.values@;
                        if !scenars.never_matches(s1_neg) {
                            let d = v1.duplicate();
                            self.insert(s1_neg, d);
                            proof {
                                lemma_inserted(bi, s1_neg, d, *scenars);
                                if w {
                                    lemma_insert_piece(v0, right.values@, *scenars, context, merge, bi, s1, negations@,
                                        n as int, d, v1@, k as int, s, later);
                                }
                                if tot {
                                    assert forall|c: Seq<int>| scenars.is_point(c) implies #[trigger] covered(self.values@, *scenars, c)
                                        || (scenars.covers(s1, c) && forall|m: int| 0 <= m < n + 1 ==> !scenars.covers(#[trigger] negations@[m], c)) by {
                                        assert(covered(bi, *scenars, c) || (scenars.covers(s1, c) && forall|m: int| 0 <= m < n ==> !scenars.covers(#[trigger] negations@[m], c)));
                                        scenars.lemma_covers_and(s1, negations@[n as int], c);
                                    }
                                }
                            }
                        } else {
                            proof {
                                if tot {
                                    assert forall|c: Seq<int>| scenars.is_point(c) implies #[trigger] covered(self.values@, *scenars, c)
                                        || (scenars.covers(s1, c) && forall|m: int| 0 <= m < n + 1 ==> !scenars.covers(#[trigger] negations@[m], c)) by {
                                        assert(covered(bi, *scenars, c) || (scenars.covers(s1, c) && forall|m: int| 0 <= m < n ==> !scenars.covers(#[trigger] negations@[m], c)));
                                        scenars.lemma_covers_and(s1, negations@[n as int], c);
                                        scenars.lemma_never_matches_exact(s1_neg);
                                    }
                                }
                            }
                        }
                        n = n + 1;
                    }
                    let merged = merge(v1, v2);
                    let ghost bm = self.values@;
                    proof {
                        if special && k == 0 {
                            assert(u64::MAX & u64::MAX == u64::MAX) by (bit_vector);
                            assert(self.values@.len() == 0);
                            assert(!has_key(self.values@, Scenario(s1.0 & s.0)));
                        }
                    }
                    proof {
                        assert(merged_with(right.values@, k as int, merged@, merge));
                    }
                    self.insert(s1 & s, merged);
                    proof {
                        lemma_inserted(bm, Scenario(s1.0 & s.0), merged, *scenars);
                        if w {
                            lemma_insert_merged(v0, right.values@, *scenars, context, merge, bm, Scenario(s1.0 & s.0),
                                merged, k as int, s, later);
                        }
                        if tot {
                            assert forall|c: Seq<int>| scenars.is_point(c) implies #[trigger] covered(self.values@, *scenars, c) by {
                                if !covered(bm, *scenars, c) {
                                    scenars.lemma_negate_is_complement(s, c);
                                    scenars.lemma_covers_and(s1, s, c);
                                }
                            }
                        }
                    }
                } else {
                    proof {
                        if w {
                            lemma_inside_later(right.values@, *scenars, merge, self.values@, k as int, s, pending, later);
                        }
                    }
                }
                j = j + 1;
            }
            proof {
                if w {
                    lemma_pass_done(v0, right.values@, *scenars, context, merge, self.values@, k as int, s, to_replace@.subrange(to_replace@.len() as int, to_replace@.len() as int));
                }
            }
            k = k + 1;
        }
    }

    /// The scenarios of the value.
    pub open spec fn scenario_set(&self) -> Set<Scenario> {
        self.values@.map_values(|p: (Scenario, T)| p.0).to_set()
    }

    /// All the scenarios used in the value are added to the list, each
    /// once.
    pub fn find_used_scenarios(&self, scenars: &mut Vec<Scenario>)
        ensures
            final(scenars)@.to_set() == old(scenars)@.to_set() + self.scenario_set(),
            old(scenars)@.no_duplicates() ==> final(scenars)@.no_duplicates(),
    {
        let ghost keys = self.values@.map_values(|p: (Scenario, T)| p.0);
        proof {
            assert(keys.take(0).to_set() =~= Set::<Scenario>::empty());
            assert(scenars@.to_set() =~= old(scenars)@.to_set() + keys.take(0).to_set());
        }
        let mut i: usize = 0;
        while i < self.values.len()
            invariant
                i <= self.values@.len(),
                keys == self.values@.map_values(|p: (Scenario, T)| p.0),
                scenars@.to_set() == old(scenars)@.to_set() + keys.take(i as int).to_set(),
                old(scenars)@.no_duplicates() ==> scenars@.no_duplicates(),
            decreases self.values.len() - i,
        {
            let s = self.values[i].0;
            let mut found = false;
            let mut j: usize = 0;
            while j < scenars.len()
                invariant
                    j <= scenars@.len(),
                    found <==> exists|k: int| 0 <= k < j && scenars@[k] == s,
                decreases scenars.len() - j,
            {
                if scenars[j] == s {
                    found = true;
                }
                j = j + 1;
            }
            let ghost before = scenars@;
            proof {
                assert(keys[i as int] == s);
                assert(keys.take(i + 1) =~= keys.take(i as int).push(s));
                keys.take(i as int).lemma_push_to_set_commute(s);
            }
            if !found {
                scenars.push(s);
                proof {
                    assert(scenars@ == before.push(s));
                    before.lemma_push_to_set_commute(s);
                    if before.no_duplicates() {
                        assert forall|a: int, b: int| 0 <= a < scenars@.len() && 0 <= b < scenars@.len() && a != b implies scenars@[a] != scenars@[b] by {
                            if a < before.len() && b < before.len() {
                                assert(scenars@[a] == before[a] && scenars@[b] == before[b]);
                            } else if a < before.len() {
                                assert(scenars@[a] == before[a]);
                            } else {
                                assert(scenars@[b] == before[b]);
                            }
                        }
                    }
                }
            } else {
                proof {
                    let k = choose|k: int| 0 <= k < j && scenars@[k] == s;
                    assert(scenars@.to_set().contains(s));
                    assert(scenars@.to_set() =~= before.to_set().insert(s));
                }
            }
            i = i + 1;
        }
        proof {
            assert(keys.take(self.values@.len() as int) =~= keys);
        }
    }
}

impl PerScenario<String> {
    /// Create a new value from a scenario variable: each valid value of the
    /// variable applies in the scenario where the variable has that value.
    /// Given
    ///     type On_Off is ("on", "off");
    ///     E1 : On_Off := external ("e1");
    /// the returned value is
    ///     {"e1=on": "on",  "e1=off": "off"}
    pub fn new_with_variable(full_mask: Scenario, values: &[(String, Scenario)]) -> (r: Self)
        requires
            forall|i: int, j: int|
                0 <= i < values@.len() && 0 <= j < values@.len() && i != j ==> #[trigger] (
                values@[i].1.0 | !full_mask.0) != #[trigger] (values@[j].1.0 | !full_mask.0),
        ensures
            r.wf(),
            r.values@.len() == values@.len(),
            forall|i: int|
                0 <= i < values@.len() ==> #[trigger] r.values@[i].0 == Scenario(
                    values@[i].1.0 | !full_mask.0,
                ) && r.values@[i].1@ == values@[i].0@,
    {
        let base = !full_mask.0;
        let mut m: Vec<(Scenario, String)> = Vec::new();
        let mut i: usize = 0;
        while i < values.len()
            invariant
                i <= values@.len(),
                base == !full_mask.0,
                forall|a: int, b: int|
                    0 <= a < values@.len() && 0 <= b < values@.len() && a != b ==> #[trigger] (
                    values@[a].1.0 | !full_mask.0) != #[trigger] (values@[b].1.0 | !full_mask.0),
                m@.len() == i,
                forall|k: int|
                    0 <= k < i ==> #[trigger] m@[k].0 == Scenario(values@[k].1.0 | !full_mask.0)
                        && m@[k].1@ == values@[k].0@,
            decreases values.len() - i,
        {
            m.push((Scenario(values[i].1.0 | base), values[i].0.clone()));
            i = i + 1;
        }
        proof {
            assert forall|a: int, b: int|
                0 <= a < m@.len() && 0 <= b < m@.len() && a != b implies m@[a].0 != m@[b].0 by {
                assert(m@[a].0 == Scenario(values@[a].1.0 | !full_mask.0));
                assert(m@[b].0 == Scenario(values@[b].1.0 | !full_mask.0));
            }
        }
        PerScenario { values: m }
    }
}

} // verus!
