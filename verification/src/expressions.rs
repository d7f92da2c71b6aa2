//! Values that depend on the scenario.
use crate::scenarios::Scenario;
use vstd::prelude::*;

verus! {

/// The value of a variable.
pub struct VarValue {
    pub name: String,
    /// If None, all values allowed
    pub value: Option<String>,
}

/// A value for each scenario.
pub struct Expression<T> {
    pub value: Vec<(Scenario, T)>,
}

impl<T> Expression<T> {
    /// The value in a given scenario: no value is ever recorded for a
    /// specific scenario, so the result is always `None`.
    pub fn get(&self, scenario: &Scenario) -> (r: Option<T>)
        ensures
            r is None,
    {
        None
    }
}

} // verus!
