//! The settings of a search, but for the discount factor, which the caller
//! keeps: what they are where none are given, and when the search stops.
use vstd::prelude::*;

verus! {

/// The settings of a search.
#[derive(Clone, Copy, Debug, PartialEq, Eq, Structural)]
pub struct MCTSArgs {
    /// The number of simulations of a planning round.
    pub budget: u32,
    /// The cap on the steps of a rollout.
    pub max_sim_step: u32,
    /// The size of the expansion pool.
    pub expansion_worker_num: usize,
    /// The size of the rollout pool.
    pub simulation_worker_num: usize,
    /// Reserved; must be off.
    pub lp_extract: bool,
    /// The cap on the e-nodes of the e-graph in a step.
    pub node_limit: usize,
    /// The cap on the seconds that a step may take.
    pub time_limit: usize,
    /// The cost at which the search has done its work.
    pub cost_threshold: usize,
}

/// The settings of a search for which none are given.
pub open spec fn default_args() -> MCTSArgs {
    MCTSArgs {
        budget: 12,
        max_sim_step: 5,
        expansion_worker_num: 1,
        simulation_worker_num: 4,
        lp_extract: false,
        node_limit: 10_000,
        time_limit: 1,
        cost_threshold: 1,
    }
}

impl Default for MCTSArgs {
    fn default() -> (args: Self)
        ensures
            args == default_args(),
    {
        MCTSArgs {
            budget: 12,
            max_sim_step: 5,
            expansion_worker_num: 1,
            simulation_worker_num: 4,
            lp_extract: false,
            node_limit: 10_000,
            time_limit: 1,
            cost_threshold: 1,
        }
    }
}

impl MCTSArgs {
    /// The settings to search with: those given, or else the defaults.
    pub fn resolve(args: Option<MCTSArgs>) -> (settings: MCTSArgs)
        ensures
            settings == match args {
                Some(given) => given,
                None => default_args(),
            },
    {
        match args {
            Some(given) => given,
            None => MCTSArgs::default(),
        }
    }

    /// Whether the settings can be searched with: extraction by linear
    /// programming is reserved.
    pub fn valid(&self) -> (ok: bool)
        ensures
            ok == !self.lp_extract,
    {
        !self.lp_extract
    }

    /// Whether the search stops after a step that ended the episode or
    /// not and left a cheapest term of cost `last_cost`: it stops at the end
    /// of the episode, and when the cost is down to the threshold.
    pub fn stops(&self, done: bool, last_cost: usize) -> (stop: bool)
        ensures
            stop == (done || last_cost <= self.cost_threshold),
    {
        done || last_cost <= self.cost_threshold
    }
}

} // verus!
