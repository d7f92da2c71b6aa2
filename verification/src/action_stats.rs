//! Statistics about the projects and the dependency graph.
use crate::allscenarios::total_values;
use crate::environment::{gprs_scenarios, Environment};
use crate::scenarios::Scenario;
use vstd::prelude::*;

verus! {

/// Statistics about the projects and the dependency graph.
pub struct ActionStats {}

/// The numbers reported.
#[derive(Debug, Clone, Copy, PartialEq, Eq)]
pub struct Stats {
    /// Number of scenario variables
    pub scenario_vars: usize,
    /// Number of values of all scenario variables
    pub values: usize,
    /// Number of distinct scenarios used in the values of the projects
    pub distinct_scenarios: usize,
    pub nodes: usize,
    pub projects: usize,
    pub units: usize,
    pub files: usize,
    pub edges: usize,
}

impl ActionStats {
    /// The action.
    pub fn new() -> (r: Self)
        ensures
            r == (ActionStats {}),
    {
        ActionStats {}
    }

    /// Computes the statistics.
    /// The total number of scenarios that result in different values for
    /// variables is however not very useful, since some scenarios are more
    /// general than others.
    pub fn perform(&self, env: &Environment) -> (r: Stats)
        requires
            env.wf(),
        ensures
            r.scenario_vars == env.scenarios.variables@.len(),
            r.values == if total_values(env.scenarios.variables@) > usize::MAX {
                usize::MAX as nat
            } else {
                total_values(env.scenarios.variables@)
            },
            r.distinct_scenarios == gprs_scenarios(env.gprs@).len(),
            r.nodes == env.graph.nodes().len(),
            r.edges == env.graph.edges().len(),
            r.projects == env.gprs@.len(),
            r.units == env.units@.len(),
            r.files == env.files@.len(),
    {
        let mut used: Vec<Scenario> = Vec::new();
        proof {
            assert(used@.to_set() =~= Set::<Scenario>::empty());
        }
        env.find_used_scenarios(&mut used);
        proof {
            assert(used@.to_set() =~= gprs_scenarios(env.gprs@));
            used@.unique_seq_to_set();
        }
        Stats {
            scenario_vars: env.scenarios.count_variables(),
            values: env.scenarios.count_values(),
            distinct_scenarios: used.len(),
            nodes: env.graph.node_count(),
            projects: env.gprs.len(),
            units: env.units.len(),
            files: env.files.len(),
            edges: env.graph.edge_count(),
        }
    }
}

} // verus!
