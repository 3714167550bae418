//! The environment's account of an episode: what each step of the rewriting
//! engine pays, when the episode is over, and the counters that a snapshot
//! carries. The engine itself is run by the caller, who hands in why it
//! stopped and what the cheapest term costs.
use vstd::prelude::*;

verus! {

/// Why the engine stopped after a step.
#[derive(Clone, Copy, Debug, PartialEq, Eq, Structural)]
pub enum StopKind {
    /// The rule found nothing new to rewrite.
    Saturated,
    /// The step's one iteration was made.
    IterationLimit,
    /// The e-graph outgrew the node limit.
    NodeLimit,
    /// The step outran the time limit.
    TimeLimit,
    /// Any other reason.
    Other,
}

/// The reason that the `egg` crate gives for the end of a run. Nothing of
/// its content is visible here.
#[verifier::external_type_specification]
#[verifier::external_body]
pub struct ExStopReason(egg::StopReason);

/// Tells the variants of `egg::StopReason` apart, one kind for each. The
/// contract claims nothing of the kind.
#[verifier::external_body]
fn stop_kind(reason: &egg::StopReason) -> (kind: StopKind) {
    match reason {
        egg::StopReason::Saturated => StopKind::Saturated,
        egg::StopReason::IterationLimit(_) => StopKind::IterationLimit,
        egg::StopReason::NodeLimit(_) => StopKind::NodeLimit,
        egg::StopReason::TimeLimit(_) => StopKind::TimeLimit,
        egg::StopReason::Other(_) => StopKind::Other,
    }
}

/// The counters of the environment, as a snapshot carries them beside the
/// e-graph.
#[derive(Clone, Copy, Debug, PartialEq, Eq, Structural)]
pub struct Ckpt {
    cnt: u32,
    sat_counter: usize,
    last_cost: usize,
}

/// The mathematical content of the environment's account.
pub struct EnvView {
    pub num_rules: usize,
    pub base_cost: usize,
    pub last_cost: usize,
    pub cnt: u32,
    pub sat_counter: usize,
}

impl EnvView {
    /// No more steps were saturated in a row than were taken.
    pub open spec fn wf(self) -> bool {
        self.sat_counter <= self.cnt
    }

    /// The reward of a step that brings the cost to `best_cost`: the drop
    /// of the cost, and zero where it did not drop.
    pub open spec fn reward(self, best_cost: usize) -> usize {
        if self.last_cost >= best_cost {
            (self.last_cost - best_cost) as usize
        } else {
            0
        }
    }

    /// Whether a step that stopped for `stop` ends the episode: a node or
    /// time limit does, and so does a saturated step that makes the run of
    /// saturated steps as long as there are rules.
    pub open spec fn ends(self, stop: StopKind) -> bool {
        match stop {
            StopKind::NodeLimit | StopKind::TimeLimit => true,
            StopKind::Saturated => self.sat_counter + 1 == self.num_rules,
            StopKind::IterationLimit | StopKind::Other => false,
        }
    }

    /// The account after a step that stopped for `stop` and brought the
    /// cost to `best_cost`: a saturated step lengthens the run of saturated
    /// steps, every other one ends it.
    pub open spec fn after_step(self, stop: StopKind, best_cost: usize) -> EnvView {
        EnvView {
            last_cost: best_cost,
            cnt: (self.cnt + 1) as u32,
            sat_counter: match stop {
                StopKind::Saturated => (self.sat_counter + 1) as usize,
                _ => 0,
            },
            ..self
        }
    }

    /// The account at the start of an episode.
    pub open spec fn after_reset(self) -> EnvView {
        EnvView { last_cost: self.base_cost, cnt: 0, sat_counter: 0, ..self }
    }

    /// The counters as a snapshot carries them.
    pub open spec fn snapshot(self) -> CkptView {
        CkptView { cnt: self.cnt, sat_counter: self.sat_counter, last_cost: self.last_cost }
    }

    /// The account put back to the counters of `saved`.
    pub open spec fn restored(self, saved: CkptView) -> EnvView {
        EnvView {
            last_cost: saved.last_cost,
            cnt: saved.cnt,
            sat_counter: saved.sat_counter,
            ..self
        }
    }
}

/// The mathematical content of the counters of a snapshot.
pub struct CkptView {
    pub cnt: u32,
    pub sat_counter: usize,
    pub last_cost: usize,
}

impl CkptView {
    /// No more steps were saturated in a row than were taken.
    pub open spec fn wf(self) -> bool {
        self.sat_counter <= self.cnt
    }
}

impl View for Ckpt {
    type V = CkptView;

    closed spec fn view(&self) -> CkptView {
        CkptView { cnt: self.cnt, sat_counter: self.sat_counter, last_cost: self.last_cost }
    }
}

impl Ckpt {
    /// The number of steps taken.
    pub fn cnt(&self) -> (n: u32)
        ensures
            n == self@.cnt,
    {
        self.cnt
    }

    /// The length of the run of saturated steps.
    pub fn sat_counter(&self) -> (n: usize)
        ensures
            n == self@.sat_counter,
    {
        self.sat_counter
    }

    /// The cost of the cheapest term at the root.
    pub fn last_cost(&self) -> (c: usize)
        ensures
            c == self@.last_cost,
    {
        self.last_cost
    }
}

/// The environment's account of an episode.
pub struct EgraphEnv {
    num_rules: usize,
    base_cost: usize,
    last_cost: usize,
    cnt: u32,
    sat_counter: usize,
}

impl View for EgraphEnv {
    type V = EnvView;

    closed spec fn view(&self) -> EnvView {
        EnvView {
            num_rules: self.num_rules,
            base_cost: self.base_cost,
            last_cost: self.last_cost,
            cnt: self.cnt,
            sat_counter: self.sat_counter,
        }
    }
}

impl EgraphEnv {
    /// The account at the start of an episode over `num_rules` rules, for
    /// a starting term of cost `base_cost`.
    pub fn new(num_rules: usize, base_cost: usize) -> (env: Self)
        ensures
            env@ == (EnvView { num_rules, base_cost, last_cost: base_cost, cnt: 0, sat_counter: 0 }),
            env@.wf(),
    {
        EgraphEnv { num_rules, base_cost, last_cost: base_cost, cnt: 0, sat_counter: 0 }
    }

    /// Starts an episode over: the counters are zero and the cost is that
    /// of the starting term.
    pub fn reset(&mut self)
        ensures
            final(self)@ == old(self)@.after_reset(),
            final(self)@.wf(),
    {
        self.cnt = 0;
        self.sat_counter = 0;
        self.last_cost = self.base_cost;
    }

    /// Takes account of one step of the engine, which stopped for `stop`
    /// and left a cheapest term of cost `best_cost` at the root. Returns
    /// the reward and whether the episode is over.
    pub fn settle(&mut self, stop: StopKind, best_cost: usize) -> (result: (usize, bool))
        requires
            old(self)@.wf(),
            old(self)@.cnt < u32::MAX,
        ensures
            final(self)@ == old(self)@.after_step(stop, best_cost),
            final(self)@.wf(),
            result.0 == old(self)@.reward(best_cost),
            result.1 == old(self)@.ends(stop),
    {
        let reward = if self.last_cost >= best_cost {
            self.last_cost - best_cost
        } else {
            0
        };
        let mut done = false;
        match stop {
            StopKind::NodeLimit | StopKind::TimeLimit => {
                done = true;
                self.sat_counter = 0;
            },
            StopKind::Saturated => {
                self.sat_counter = self.sat_counter + 1;
                if self.sat_counter == self.num_rules {
                    done = true;
                }
            },
            StopKind::IterationLimit | StopKind::Other => {
                self.sat_counter = 0;
            },
        }
        self.cnt = self.cnt + 1;
        self.last_cost = best_cost;
        (reward, done)
    }

    /// Takes account of one step of the engine, which gave `reason` for
    /// its stop and left a cheapest term of cost `best_cost` at the root.
    /// Returns the reward, whether the episode is over, and the kind of
    /// the stop, by which both are settled.
    pub fn step(&mut self, reason: &egg::StopReason, best_cost: usize) -> (result: (
        usize,
        bool,
        StopKind,
    ))
        requires
            old(self)@.wf(),
            old(self)@.cnt < u32::MAX,
        ensures
            final(self)@ == old(self)@.after_step(result.2, best_cost),
            final(self)@.wf(),
            result.0 == old(self)@.reward(best_cost),
            result.1 == old(self)@.ends(result.2),
    {
        let stop = stop_kind(reason);
        let (reward, done) = self.settle(stop, best_cost);
        (reward, done, stop)
    }

    /// The number of actions, which is the number of rules.
    pub fn get_action_space(&self) -> (n: usize)
        ensures
            n == self@.num_rules,
    {
        self.num_rules
    }

    /// The cost of the starting term.
    pub fn base_cost(&self) -> (c: usize)
        ensures
            c == self@.base_cost,
    {
        self.base_cost
    }

    /// The cost of the cheapest term at the root after the last step.
    pub fn last_cost(&self) -> (c: usize)
        ensures
            c == self@.last_cost,
    {
        self.last_cost
    }

    /// The number of steps taken in this episode.
    pub fn cnt(&self) -> (n: u32)
        ensures
            n == self@.cnt,
    {
        self.cnt
    }

    /// The length of the run of saturated steps that the last step ended
    /// or lengthened.
    pub fn sat_counter(&self) -> (n: usize)
        ensures
            n == self@.sat_counter,
    {
        self.sat_counter
    }

    /// The counters, for a snapshot to carry.
    pub fn checkpoint(&self) -> (saved: Ckpt)
        ensures
            saved@ == self@.snapshot(),
            self@.wf() ==> saved@.wf(),
    {
        Ckpt { cnt: self.cnt, sat_counter: self.sat_counter, last_cost: self.last_cost }
    }

    /// Puts the counters back to those of `checkpoint_data`.
    pub fn restore(&mut self, checkpoint_data: Ckpt)
        ensures
            final(self)@ == old(self)@.restored(checkpoint_data@),
            checkpoint_data@.wf() ==> final(self)@.wf(),
    {
        self.cnt = checkpoint_data.cnt;
        self.sat_counter = checkpoint_data.sat_counter;
        self.last_cost = checkpoint_data.last_cost;
    }
}

/// Restoring the counters that were just taken changes nothing: the account
/// is the one it was, and so is what every step from it pays.
pub proof fn lemma_restore_checkpoint(env: EnvView)
    ensures
        env.restored(env.snapshot()) == env,
{
}

/// Taking the counters of an account that was just restored gives back what
/// was restored.
pub proof fn lemma_checkpoint_restore(env: EnvView, saved: CkptView)
    ensures
        env.restored(saved).snapshot() == saved,
{
}

/// No step pays less than nothing, and its reward and the new cost make up
/// the old cost wherever the cost did not rise.
pub proof fn lemma_reward_is_drop(env: EnvView, best_cost: usize)
    ensures
        env.reward(best_cost) >= 0,
        best_cost <= env.last_cost ==> env.reward(best_cost) + best_cost == env.last_cost,
        best_cost > env.last_cost ==> env.reward(best_cost) == 0,
{
}

/// When every rule in turn finds nothing to rewrite, the last of these
/// steps ends the episode: after one saturated step less than there are
/// rules, the next saturated step is the end.
pub proof fn lemma_all_saturated_ends(env: EnvView)
    requires
        env.sat_counter + 1 == env.num_rules,
    ensures
        env.ends(StopKind::Saturated),
{
}

} // verus!
