//! What passes between the coordinator and its workers, and what a worker
//! decides while it serves a task. The worker's thread and its engine
//! belong to the caller.
use crate::chance::random_below;
use crate::eg_env::StopKind;
use crate::node::NodeStub;
use crate::tree::{ExpTask, SimTask};
use vstd::prelude::*;

verus! {

/// What the coordinator sends to a worker. `S` is the type of a snapshot.
pub enum Message<S> {
    /// Leave the loop.
    Exit,
    /// Wait a little and acknowledge.
    Nothing,
    /// Expand: the task, the saving index for the state that the expansion
    /// leads to, and the simulation's id.
    Expansion(ExpTask<S>, u32, u32),
    /// Roll out: the task, the state to start from, and the simulation's
    /// id.
    Simulation(SimTask, S, u32),
}

/// What a worker sends back.
pub enum Reply<S> {
    /// The acknowledgement of `Nothing`.
    OK,
    /// An expansion is made.
    DoneExpansion {
        expand_action: usize,
        reward: usize,
        done: bool,
        child_saturated: bool,
        new_checkpoint_data: Option<S>,
        saving_idx: u32,
        task_idx: u32,
    },
    /// A rollout is made: the simulation's id and the reward of each step
    /// in turn, for the coordinator to discount.
    DoneSimulation(u32, Vec<usize>),
}

/// The reply to an expansion of `expand_action` that paid `reward`, ended
/// the episode or not, and stopped for `stop`. A branch counts as saturated
/// where the root was expanded and the engine found nothing to rewrite. A
/// step that ended the episode leaves no state to go on from: `snapshot` is
/// passed on only where the episode goes on.
pub fn expansion_reply<S>(
    stub: &NodeStub,
    expand_action: usize,
    reward: usize,
    done: bool,
    stop: StopKind,
    snapshot: Option<S>,
    saving_idx: u32,
    task_idx: u32,
) -> (reply: Reply<S>)
    ensures
        reply == (Reply::DoneExpansion {
            expand_action,
            reward,
            done,
            child_saturated: stub.is_head && stop == StopKind::Saturated,
            new_checkpoint_data: if done {
                None
            } else {
                snapshot
            },
            saving_idx,
            task_idx,
        }),
{
    let child_saturated = stub.is_head && stop == StopKind::Saturated;
    let new_checkpoint_data = if done {
        None
    } else {
        snapshot
    };
    Reply::DoneExpansion {
        expand_action,
        reward,
        done,
        child_saturated,
        new_checkpoint_data,
        saving_idx,
        task_idx,
    }
}

/// A rollout under way: random steps from the state that an expansion led
/// to, until one of them ends the episode or `max_sim_step` are made.
pub struct Rollout {
    max_sim_step: u32,
    rewards: Vec<usize>,
    done: bool,
}

/// The mathematical content of a rollout.
pub struct RolloutView {
    pub max_sim_step: u32,
    pub rewards: Seq<usize>,
    pub done: bool,
}

impl RolloutView {
    /// No more steps are made than the cap allows.
    pub open spec fn wf(self) -> bool {
        self.rewards.len() <= self.max_sim_step
    }

    /// No step is left to make: the episode is over or the cap is reached.
    pub open spec fn is_over(self) -> bool {
        self.done || self.rewards.len() >= self.max_sim_step
    }

    /// The rollout after a step that paid `reward` and ended the episode
    /// or not.
    pub open spec fn after_record(self, reward: usize, done: bool) -> RolloutView {
        RolloutView { rewards: self.rewards.push(reward), done, ..self }
    }
}

impl View for Rollout {
    type V = RolloutView;

    closed spec fn view(&self) -> RolloutView {
        RolloutView { max_sim_step: self.max_sim_step, rewards: self.rewards@, done: self.done }
    }
}

impl Rollout {
    /// A rollout of at most `max_sim_step` steps, none of them made.
    pub fn new(max_sim_step: u32) -> (rollout: Self)
        ensures
            rollout@ == (RolloutView { max_sim_step, rewards: Seq::<usize>::empty(), done: false }),
            rollout@.wf(),
    {
        Rollout { max_sim_step, rewards: Vec::new(), done: false }
    }

    /// Whether no step is left to make.
    pub fn is_over(&self) -> (over: bool)
        requires
            self@.wf(),
        ensures
            over == self@.is_over(),
    {
        self.done || self.rewards.len() >= self.max_sim_step as usize
    }

    /// The action of the next step, drawn uniformly from the `action_n`
    /// actions, or nothing when no step is left to make.
    pub fn next_action(&self, action_n: usize) -> (action: Option<usize>)
        requires
            self@.wf(),
            action_n > 0,
        ensures
            self@.is_over() ==> action is None,
            !self@.is_over() ==> action is Some && action.unwrap() < action_n,
    {
        if self.is_over() {
            None
        } else {
            let mut rng = rand::thread_rng();
            Some(random_below(&mut rng, action_n))
        }
    }

    /// Takes note of a step that paid `reward` and ended the episode or
    /// not.
    pub fn record(&mut self, reward: usize, done: bool)
        requires
            old(self)@.wf(),
            !old(self)@.is_over(),
        ensures
            final(self)@ == old(self)@.after_record(reward, done),
            final(self)@.wf(),
    {
        self.rewards.push(reward);
        self.done = done;
    }

    /// The number of steps made.
    pub fn steps(&self) -> (n: usize)
        ensures
            n == self@.rewards.len(),
    {
        self.rewards.len()
    }

    /// Ends the rollout and hands out the reward of each step in turn.
    pub fn into_rewards(self) -> (rewards: Vec<usize>)
        ensures
            rewards@ == self@.rewards,
    {
        self.rewards
    }
}

} // verus!
