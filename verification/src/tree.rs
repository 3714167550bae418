//! The planner's state and the decisions of one planning round. Whoever
//! drives a round sends the tasks to the workers and brings their replies
//! back; every change to the tree, the registries, the queues and the
//! checkpoint store is made here.
use crate::chance::coin_flip;
use crate::checkpoint_manager::CheckpointerManager;
use crate::counting::total;
use crate::error::PlanError;
use crate::node::{fresh_view, lemma_counts_ordered, Node, NodeStub, NodeView, Phase};
use crate::paths::{
    after_complete_walk, after_incomplete_walk, arena_wf, finished_through, grown, keys_issued,
    lemma_arena_grow, lemma_arena_update, lemma_cursor_down, lemma_finished_children,
    lemma_frame_keys,
    lemma_frame_only_above, lemma_frame_phase, lemma_on_path_bound, lemma_on_path_step,
    lemma_recorded_path, lemma_same_complete_walk, lemma_same_finished, lemma_same_grown,
    lemma_same_incomplete_walk, lemma_same_replied, lemma_same_stepped, lemma_same_trans,
    lemma_same_weaken, lemma_walk_started, on_path, only_above, path_in_phase, path_steps,
    replied, same_but_for, step_at, stepped, unvisited_by, PathStep,
};
use crate::pool_manager::{first_idle, saturated, PoolManager, Status};
use std::collections::HashMap;
use std::collections::VecDeque;
use vstd::prelude::*;

verus! {

broadcast use {
    vstd::std_specs::hash::group_hash_axioms,
    vstd::std_specs::vecdeque::group_vec_dequeue_axioms,
};

/// What an expansion worker needs: the state to start from and what the
/// node knows of its actions.
pub struct ExpTask<S> {
    pub checkpoint_data: S,
    pub shallow_copy_node: NodeStub,
}

/// What is kept of an expansion that did not end the episode, until its
/// rollout returns.
#[derive(Debug, Clone, Copy, PartialEq, Eq, Structural)]
pub struct SimTask {
    pub action: usize,
    pub saving_idx: u32,
    pub action_applied: bool,
    pub child_saturated: bool,
}

/// An expansion to send out: the worker to send it to, the task, the
/// saving index for the state it leads to, and the simulation it is for.
pub struct ExpansionOrder<S> {
    pub worker: usize,
    pub task: ExpTask<S>,
    pub saving_idx: u32,
    pub task_id: u32,
}

/// A rollout to send out: the worker to send it to, what is known of the
/// expansion before it, the state to start from, and the simulation it is
/// for.
pub struct SimulationOrder<S> {
    pub worker: usize,
    pub task: SimTask,
    pub checkpoint_data: S,
    pub task_id: u32,
}

/// Where one step of the selection led.
pub enum Descent {
    /// The cursor went down to the child at this index.
    Child(usize),
    /// The chosen action ends the episode: the simulation is counted as
    /// done, and these are the steps it took from the last node up to the
    /// root.
    Terminal(Vec<PathStep>),
}

/// How far one step of the search has come.
#[derive(Debug, Clone, Copy, PartialEq, Eq, Structural)]
pub enum Stage {
    /// Between two simulations.
    Idle,
    /// A selection is under way.
    Selecting,
    /// The selection ended with an expansion: expansions are sent out.
    Expanding,
    /// The expansion pool is so busy that a reply is waited for.
    AwaitingExpansion,
    /// Rollouts are sent out.
    Simulating,
    /// The rollout pool is so busy that a reply is waited for.
    AwaitingSimulation,
}

/// What the driver of a round does next.
pub enum Move<S> {
    /// Nothing: ask again.
    Again,
    /// Rank the actions of the node at this index and `descend` by the
    /// ranks.
    Score(usize),
    /// Send this expansion to its worker.
    SendExpansion(ExpansionOrder<S>),
    /// Wait for the reply of an expansion worker, release the worker and
    /// apply the reply.
    CollectExpansion,
    /// Send this rollout to its worker.
    SendSimulation(SimulationOrder<S>),
    /// Wait for the reply of a rollout worker, release the worker and
    /// apply the reply.
    CollectSimulation,
    /// The budget is used up: take the best action of the root.
    Finish,
}

/// The mathematical content of the planner.
pub struct TreeView<S> {
    /// The number of simulations that a round may make.
    pub budget: u32,
    /// The nodes of the tree, the root first.
    pub nodes: Seq<NodeView>,
    /// The snapshots of the round, by saving index.
    pub store: Map<u32, S>,
    /// The status of each expansion worker.
    pub exp_pool: Seq<Status>,
    /// The status of each rollout worker.
    pub sim_pool: Seq<Status>,
    /// The saving index that the next expansion to be sent out will get.
    pub global_saving_idx: u32,
    /// The number of simulations that are counted as done.
    pub simulation_count: u32,
    /// The number of simulations that were begun.
    pub issued: u32,
    /// How far the step that is under way has come.
    pub stage: Stage,
    /// The simulation that is being selected for, and the node that it has
    /// come to.
    pub cursor: Option<(u32, usize)>,
    /// The expansions that wait for a worker, by simulation.
    pub expansion_tasks: Map<u32, ExpTask<S>>,
    /// The node of each expansion that waits or is under way.
    pub expansion_nodes: Map<u32, usize>,
    /// The saving index of each expansion that is under way.
    pub assigned: Map<u32, u32>,
    /// What is kept of each expansion whose rollout waits or is under way.
    pub simulation_tasks: Map<u32, SimTask>,
    /// The node of each rollout that waits or is under way.
    pub simulation_nodes: Map<u32, usize>,
    /// The simulations whose expansion waits for a worker, the first to be
    /// served first.
    pub pending_expansion: Seq<u32>,
    /// The simulations whose rollout waits for a worker, the first to be
    /// served first.
    pub pending_simulation: Seq<u32>,
    /// The actions that an expansion reply, once applied, has returned, each
    /// with the node that it was returned for.
    pub expanded: Set<(usize, usize)>,
}

impl<S> TreeView<S> {
    /// The branching factor of the round.
    pub open spec fn action_n(self) -> usize {
        self.nodes[0].action_n
    }

    /// The simulations that are with an expansion worker or wait for one.
    pub open spec fn expanding(self) -> Set<u32> {
        self.expansion_nodes.dom()
    }

    /// The simulations that are with a rollout worker or wait for one.
    pub open spec fn simulating(self) -> Set<u32> {
        self.simulation_nodes.dom()
    }

    /// The number of simulations that were begun and have not been counted
    /// as done.
    pub open spec fn in_flight(self) -> nat {
        self.expanding().len() + self.simulating().len() + if self.cursor is Some {
            1nat
        } else {
            0nat
        }
    }

    /// Whether the selection stops at the node under the cursor to expand
    /// it, given the toss of a coin: it does where no action of the node
    /// has a finished visit to go by, at the root while an action is
    /// untried, and below the root on heads while an action is untried.
    pub open spec fn wants_expansion(self, coin: bool) -> bool {
        let node = self.nodes[self.cursor.unwrap().1 as int];
        node.no_child_available() || (node.is_head && !node.all_child_visited()) || (
        !node.is_head && !node.all_child_visited() && coin)
    }

    /// An expansion can be sent out: one waits, a worker is idle, and a
    /// saving index is left.
    pub open spec fn expansion_ready(self) -> bool {
        &&& self.pending_expansion.len() > 0
        &&& exists|i: int| 0 <= i < self.exp_pool.len() && self.exp_pool[i] == Status::Idle
        &&& self.global_saving_idx < u32::MAX
    }

    /// A rollout can be sent out: one waits and a worker is idle.
    pub open spec fn simulation_ready(self) -> bool {
        &&& self.pending_simulation.len() > 0
        &&& exists|i: int| 0 <= i < self.sim_pool.len() && self.sim_pool[i] == Status::Idle
    }

    /// The expansion for simulation `id` was sent out and has not come
    /// back.
    pub open spec fn expansion_sent(self, id: u32) -> bool {
        self.assigned.contains_key(id)
    }

    /// The rollout for simulation `id` was sent out and has not come back.
    pub open spec fn simulation_sent(self, id: u32) -> bool {
        self.simulation_nodes.contains_key(id) && !self.pending_simulation.contains(id)
    }

    /// The phase in which the nodes hold a simulation whose rollout is in
    /// flight: its visit is counted as started when the rollout is sent
    /// out.
    pub open spec fn simulation_phase(self, id: u32) -> Phase {
        if self.pending_simulation.contains(id) {
            Phase::Recorded
        } else {
            Phase::Started
        }
    }

    /// The registries and queues name tasks and nodes that exist.
    pub open spec fn registry_wf(self) -> bool {
        &&& self.expansion_nodes.dom().finite()
        &&& self.simulation_nodes.dom().finite()
        &&& forall|id: u32| #[trigger]
            self.expansion_tasks.contains_key(id) ==> self.expansion_nodes.contains_key(id)
        &&& forall|id: u32|
            #![trigger self.assigned.contains_key(id)]
            #![trigger self.expansion_nodes.contains_key(id)]
            self.assigned.contains_key(id) <==> self.expansion_nodes.contains_key(id)
                && !self.expansion_tasks.contains_key(id)
        &&& forall|id: u32|
            #![trigger self.simulation_tasks.contains_key(id)]
            #![trigger self.simulation_nodes.contains_key(id)]
            self.simulation_tasks.contains_key(id) <==> self.simulation_nodes.contains_key(id)
        &&& forall|id: u32| #[trigger]
            self.expansion_nodes.contains_key(id) ==> !self.simulation_nodes.contains_key(id)
                && self.expansion_nodes[id] < self.nodes.len() && id < self.issued
        &&& forall|id: u32| #[trigger]
            self.simulation_nodes.contains_key(id) ==> {
                &&& self.simulation_nodes[id] < self.nodes.len()
                &&& id < self.issued
                &&& self.simulation_tasks[id].action < self.action_n()
                &&& self.store.contains_key(self.simulation_tasks[id].saving_idx)
            }
        &&& self.pending_expansion.no_duplicates()
        &&& forall|i: int|
            0 <= i < self.pending_expansion.len() ==> self.expansion_tasks.contains_key(
                #[trigger] self.pending_expansion[i],
            )
        &&& self.pending_simulation.no_duplicates()
        &&& forall|i: int|
            0 <= i < self.pending_simulation.len() ==> self.simulation_tasks.contains_key(
                #[trigger] self.pending_simulation[i],
            )
        &&& match self.cursor {
            Some((id, node)) => {
                &&& node < self.nodes.len()
                &&& id + 1 == self.issued
                &&& !self.expansion_nodes.contains_key(id)
                &&& !self.simulation_nodes.contains_key(id)
            },
            None => true,
        }
        &&& (self.stage == Stage::Selecting) == (self.cursor is Some)
    }

    /// The stage after the reply of an expansion worker was applied: the
    /// step that waited for it goes on to send out rollouts.
    pub open spec fn stage_after_expansion(self) -> Stage {
        if self.stage == Stage::AwaitingExpansion {
            Stage::Simulating
        } else {
            self.stage
        }
    }

    /// The stage after the reply of a rollout worker was applied: the step
    /// that waited for it is over.
    pub open spec fn stage_after_simulation(self) -> Stage {
        if self.stage == Stage::AwaitingSimulation {
            Stage::Idle
        } else {
            self.stage
        }
    }

    /// Every saving index in the store or with an expansion in flight was
    /// handed out, and none was handed out twice: those in flight differ
    /// from one another and from those in the store.
    pub open spec fn store_wf(self) -> bool {
        &&& forall|k: u32| #[trigger] self.store.contains_key(k) ==> k < self.global_saving_idx
        &&& forall|id: u32| #[trigger]
            self.assigned.contains_key(id) ==> self.assigned[id] < self.global_saving_idx
                && !self.store.contains_key(self.assigned[id])
        &&& forall|i: u32, j: u32|
            #![trigger self.assigned[i], self.assigned[j]]
            self.assigned.contains_key(i) && self.assigned.contains_key(j) && i != j
                ==> self.assigned[i] != self.assigned[j]
    }

    /// Every simulation that was begun is in flight or counted as done,
    /// and no more were begun than the budget allows.
    pub open spec fn accounted(self) -> bool {
        &&& self.simulation_count + self.in_flight() == self.issued
        &&& self.issued <= self.budget
    }

    /// Every simulation in flight has its steps where the walks up the
    /// tree will look for them. One that is being selected for, or whose
    /// expansion is queued or under way, has come down to its node. One
    /// whose rollout is queued has written its steps from its node up to
    /// the root, and one whose rollout is under way has its visit counted
    /// as started at each of them.
    pub open spec fn paths_wf(self) -> bool {
        &&& keys_issued(self.nodes, self.issued)
        &&& forall|id: u32| #[trigger]
            self.expansion_nodes.contains_key(id) ==> unvisited_by(
                self.nodes,
                self.expansion_nodes[id] as nat,
                id,
            )
        &&& forall|id: u32| #[trigger]
            self.simulation_nodes.contains_key(id) ==> path_in_phase(
                self.nodes,
                self.simulation_nodes[id] as nat,
                id,
                self.simulation_phase(id),
            )
        &&& match self.cursor {
            Some((id, at)) => unvisited_by(self.nodes, at as nat, id) && only_above(
                self.nodes,
                at as nat,
                id,
            ),
            None => true,
        }
    }

    /// The planner after the reply of the expansion for simulation `id` was
    /// applied, where the action ended the episode: the node holds the
    /// outcome and the step, a child that restores from `saving_idx` hangs
    /// under the action, the visit is counted as started and as finished
    /// from the node up to the root, and the simulation is counted as done.
    pub open spec fn after_final_expansion(
        self,
        id: u32,
        action: usize,
        reward: usize,
        saving_idx: u32,
        child_saturated: bool,
    ) -> TreeView<S> {
        let at = self.expansion_nodes[id];
        let told = replied(self.nodes, at as int, id, action, reward, true);
        let hung = grown(told, at as int, action, saving_idx, child_saturated);
        TreeView {
            nodes: finished_through(hung, at as nat, id),
            simulation_count: (self.simulation_count + 1) as u32,
            stage: self.stage_after_expansion(),
            expansion_nodes: self.expansion_nodes.remove(id),
            assigned: self.assigned.remove(id),
            expanded: self.expanded.insert((at, action)),
            ..self
        }
    }

    /// The planner after the reply of the expansion for simulation `id` was
    /// applied, where the episode goes on: the node holds the outcome and
    /// the step, the snapshot is written at `saving_idx`, and a rollout
    /// from it is queued under the same id.
    pub open spec fn after_open_expansion(
        self,
        id: u32,
        action: usize,
        reward: usize,
        saving_idx: u32,
        child_saturated: bool,
        snapshot: S,
    ) -> TreeView<S> {
        let at = self.expansion_nodes[id];
        TreeView {
            nodes: replied(self.nodes, at as int, id, action, reward, false),
            stage: self.stage_after_expansion(),
            store: self.store.insert(saving_idx, snapshot),
            expansion_nodes: self.expansion_nodes.remove(id),
            assigned: self.assigned.remove(id),
            simulation_tasks: self.simulation_tasks.insert(
                id,
                SimTask { action, saving_idx, action_applied: true, child_saturated },
            ),
            simulation_nodes: self.simulation_nodes.insert(id, at),
            pending_simulation: self.pending_simulation.push(id),
            expanded: self.expanded.insert((at, action)),
            ..self
        }
    }

    /// The nodes after the child that the expansion for simulation `id`
    /// led to was hung under its action.
    pub open spec fn with_child_of(self, id: u32) -> Seq<NodeView> {
        let task = self.simulation_tasks[id];
        grown(
            self.nodes,
            self.simulation_nodes[id] as int,
            task.action,
            task.saving_idx,
            task.child_saturated,
        )
    }

    /// The planner after the return of the rollout for simulation `id` was
    /// applied: the child hangs under its action, the visit is counted as
    /// finished from the node up to the root, and the simulation is counted
    /// as done.
    pub open spec fn after_simulation_reply(self, id: u32) -> TreeView<S> {
        TreeView {
            nodes: after_complete_walk(self.with_child_of(id), self.simulation_nodes[id] as nat, id),
            simulation_count: (self.simulation_count + 1) as u32,
            stage: self.stage_after_simulation(),
            simulation_tasks: self.simulation_tasks.remove(id),
            simulation_nodes: self.simulation_nodes.remove(id),
            ..self
        }
    }

    /// A rollout for `action` of node `node` is queued or under way.
    pub open spec fn rollout_in_flight(self, node: usize, action: usize) -> bool {
        exists|id: u32|
            #[trigger] self.simulation_nodes.contains_key(id) && self.simulation_nodes[id] == node
                && self.simulation_tasks[id].action == action
    }

    /// A child stands under an action only if an expansion of the node has
    /// returned the action, and it stands there once an expansion has
    /// returned the action and the rollout that follows it has come back.
    pub open spec fn expanded_wf(self) -> bool {
        &&& forall|n: int, a: int|
            0 <= n < self.nodes.len() && 0 <= a < self.action_n()
                && (#[trigger] self.nodes[n].children[a]) is Some ==> self.expanded.contains(
                (n as usize, a as usize),
            )
        &&& forall|id: u32| #[trigger]
            self.simulation_nodes.contains_key(id) ==> self.expanded.contains(
                (self.simulation_nodes[id], self.simulation_tasks[id].action),
            )
        &&& forall|n: usize, a: usize| #[trigger]
            self.expanded.contains((n, a)) ==> {
                ||| n < self.nodes.len() && a < self.action_n()
                    && self.nodes[n as int].children[a as int] is Some
                ||| self.rollout_in_flight(n, a)
            }
    }

    /// What holds of the planner at every time.
    pub open spec fn wf(self) -> bool {
        &&& arena_wf(self.nodes)
        &&& self.registry_wf()
        &&& self.store_wf()
        &&& self.accounted()
        &&& self.paths_wf()
        &&& self.expanded_wf()
    }
}

/// A change to the nodes that touches the steps of one simulation only
/// leaves every other simulation in flight where it was.
pub proof fn lemma_frame_others<S>(pre: TreeView<S>, nodes: Seq<NodeView>, id: u32)
    requires
        pre.wf(),
        same_but_for(pre.nodes, nodes, Some(id)),
        id < pre.issued,
    ensures
        keys_issued(nodes, pre.issued),
        forall|k: u32|
            k != id && #[trigger] pre.expansion_nodes.contains_key(k) ==> unvisited_by(
                nodes,
                pre.expansion_nodes[k] as nat,
                k,
            ),
        forall|k: u32|
            k != id && #[trigger] pre.simulation_nodes.contains_key(k) ==> path_in_phase(
                nodes,
                pre.simulation_nodes[k] as nat,
                k,
                pre.simulation_phase(k),
            ),
        pre.cursor is Some && pre.cursor.unwrap().0 != id ==> unvisited_by(
            nodes,
            pre.cursor.unwrap().1 as nat,
            pre.cursor.unwrap().0,
        ) && only_above(nodes, pre.cursor.unwrap().1 as nat, pre.cursor.unwrap().0),
{
    lemma_frame_keys(pre.nodes, nodes, Some(id), pre.issued);
    assert forall|k: u32| k != id && #[trigger] pre.expansion_nodes.contains_key(
        k,
    ) implies unvisited_by(nodes, pre.expansion_nodes[k] as nat, k) by {
        lemma_frame_phase(
            pre.nodes,
            nodes,
            Some(id),
            pre.expansion_nodes[k] as nat,
            k,
            Phase::Recorded,
        );
    }
    assert forall|k: u32| k != id && #[trigger] pre.simulation_nodes.contains_key(
        k,
    ) implies path_in_phase(nodes, pre.simulation_nodes[k] as nat, k, pre.simulation_phase(k)) by {
        lemma_frame_phase(
            pre.nodes,
            nodes,
            Some(id),
            pre.simulation_nodes[k] as nat,
            k,
            pre.simulation_phase(k),
        );
    }
    if pre.cursor is Some && pre.cursor.unwrap().0 != id {
        let (c, at) = pre.cursor.unwrap();
        lemma_frame_phase(pre.nodes, nodes, Some(id), at as nat, c, Phase::Recorded);
        lemma_frame_only_above(pre.nodes, nodes, Some(id), at as nat, c);
    }
}

/// Taking the head off a queue without repeats leaves a queue without
/// repeats, which holds what the queue held but for the head.
proof fn lemma_queue_pop(queue: Seq<u32>)
    requires
        queue.len() > 0,
        queue.no_duplicates(),
    ensures
        queue.subrange(1, queue.len() as int).no_duplicates(),
        !queue.subrange(1, queue.len() as int).contains(queue[0]),
        forall|k: u32|
            k != queue[0] ==> queue.subrange(1, queue.len() as int).contains(k) == queue.contains(
                k,
            ),
        forall|i: int|
            0 <= i < queue.len() - 1 ==> #[trigger] queue.subrange(1, queue.len() as int)[i]
                == queue[i + 1],
{
    let rest = queue.subrange(1, queue.len() as int);
    assert forall|i: int, j: int| 0 <= i < rest.len() && 0 <= j < rest.len() && i != j implies rest[i]
        != rest[j] by {
        assert(rest[i] == queue[i + 1]);
        assert(rest[j] == queue[j + 1]);
    }
    if rest.contains(queue[0]) {
        let i = choose|i: int| 0 <= i < rest.len() && rest[i] == queue[0];
        assert(queue[i + 1] == queue[0]);
    }
    assert forall|k: u32| k != queue[0] implies rest.contains(k) == queue.contains(k) by {
        if queue.contains(k) {
            let i = choose|i: int| 0 <= i < queue.len() && queue[i] == k;
            assert(rest[i - 1] == k);
        }
        if rest.contains(k) {
            let i = choose|i: int| 0 <= i < rest.len() && rest[i] == k;
            assert(queue[i + 1] == k);
        }
    }
}

/// Putting an id that does not wait at the end of a queue without repeats
/// leaves a queue without repeats, which holds the id and what the queue
/// held.
proof fn lemma_queue_push(queue: Seq<u32>, id: u32)
    requires
        queue.no_duplicates(),
        !queue.contains(id),
    ensures
        queue.push(id).no_duplicates(),
        queue.push(id).contains(id),
        forall|k: u32| k != id ==> queue.push(id).contains(k) == queue.contains(k),
{
    let longer = queue.push(id);
    assert forall|i: int, j: int|
        0 <= i < longer.len() && 0 <= j < longer.len() && i != j implies longer[i]
        != longer[j] by {
        if i < queue.len() {
            assert(queue.contains(queue[i]));
        }
        if j < queue.len() {
            assert(queue.contains(queue[j]));
        }
    }
    assert(longer[queue.len() as int] == id);
    assert forall|k: u32| k != id implies longer.contains(k) == queue.contains(k) by {
        if queue.contains(k) {
            let i = choose|i: int| 0 <= i < queue.len() && queue[i] == k;
            assert(longer[i] == k);
        }
        if longer.contains(k) {
            let i = choose|i: int| 0 <= i < longer.len() && longer[i] == k;
            assert(queue[i] == k);
        }
    }
}

/// A change that leaves the child links, the rollouts in flight and the
/// record of the expansions alone leaves them in step with one another.
proof fn lemma_expanded_kept<S>(pre: TreeView<S>, post: TreeView<S>)
    requires
        pre.expanded_wf(),
        post.expanded == pre.expanded,
        post.simulation_nodes == pre.simulation_nodes,
        post.simulation_tasks == pre.simulation_tasks,
        post.nodes.len() == pre.nodes.len(),
        post.nodes.len() > 0,
        post.action_n() == pre.action_n(),
        forall|n: int|
            0 <= n < pre.nodes.len() ==> (#[trigger] post.nodes[n]).children
                == pre.nodes[n].children,
    ensures
        post.expanded_wf(),
{
    assert forall|n: int, a: int|
        0 <= n < post.nodes.len() && 0 <= a < post.action_n()
            && (#[trigger] post.nodes[n].children[a]) is Some implies post.expanded.contains(
        (n as usize, a as usize),
    ) by {
        assert(pre.nodes[n].children[a] is Some);
    }
    assert forall|n: usize, a: usize| #[trigger] post.expanded.contains((n, a)) implies (n
        < post.nodes.len() && a < post.action_n() && post.nodes[n as int].children[a as int]
        is Some) || post.rollout_in_flight(n, a) by {
        assert(pre.expanded.contains((n, a)));
        if pre.rollout_in_flight(n, a) {
            let w = choose|w: u32|
                #[trigger] pre.simulation_nodes.contains_key(w) && pre.simulation_nodes[w] == n
                    && pre.simulation_tasks[w].action == a;
            assert(post.simulation_nodes.contains_key(w));
        } else {
            assert(post.nodes[n as int].children == pre.nodes[n as int].children);
        }
    }
}

/// Going from one stage that is no selection to another changes nothing
/// of what holds of the planner.
proof fn lemma_stage_change<S>(pre: TreeView<S>, post: TreeView<S>)
    requires
        pre.wf(),
        post == (TreeView { stage: post.stage, ..pre }),
        pre.stage != Stage::Selecting,
        post.stage != Stage::Selecting,
    ensures
        post.wf(),
{
    lemma_expanded_kept(pre, post);
    assert(post.registry_wf());
    assert(post.store_wf());
    assert(post.accounted());
    assert(post.paths_wf());
}

/// Applying the return of a rollout that was sent out, for an action
/// without a child, leaves the planner as it should be.
proof fn lemma_simulation_reply_wf<S>(pre: TreeView<S>, id: u32)
    requires
        pre.wf(),
        pre.simulation_sent(id),
        pre.nodes[pre.simulation_nodes[id] as int].children[pre.simulation_tasks[id].action as int]
            is None,
        arena_wf(pre.after_simulation_reply(id).nodes),
    ensures
        pre.after_simulation_reply(id).wf(),
{
    let post = pre.after_simulation_reply(id);
    let at = pre.simulation_nodes[id];
    let task = pre.simulation_tasks[id];
    let hung = pre.with_child_of(id);
    lemma_same_grown(pre.nodes, at as int, task.action, task.saving_idx, task.child_saturated);
    lemma_same_weaken(pre.nodes, hung, Some(id));
    lemma_same_complete_walk(hung, at as nat, id);
    lemma_same_trans(pre.nodes, hung, post.nodes, Some(id));
    lemma_frame_others(pre, post.nodes, id);
    assert(post.paths_wf());
    assert(post.simulating() =~= pre.simulating().remove(id));
    assert(post.accounted());
    assert forall|i: int| 0 <= i < post.pending_simulation.len() implies
        post.simulation_tasks.contains_key(#[trigger] post.pending_simulation[i]) by {
        assert(pre.simulation_tasks.contains_key(pre.pending_simulation[i]));
        assert(pre.pending_simulation.contains(pre.pending_simulation[i]));
    }
    assert(post.registry_wf());
    assert(post.store_wf());
    assert forall|n: int, a: int|
        0 <= n < post.nodes.len() && 0 <= a < post.action_n()
            && (#[trigger] post.nodes[n].children[a]) is Some implies post.expanded.contains(
        (n as usize, a as usize),
    ) by {
        if n == at && a == task.action {
            assert(pre.simulation_nodes.contains_key(id));
        } else if n < pre.nodes.len() {
            assert(pre.nodes[n].children[a] is Some);
        }
    }
    assert forall|n: usize, a: usize| #[trigger] post.expanded.contains((n, a)) implies (n
        < post.nodes.len() && a < post.action_n() && post.nodes[n as int].children[a as int]
        is Some) || post.rollout_in_flight(n, a) by {
        if pre.rollout_in_flight(n, a) {
            let w = choose|w: u32|
                #[trigger] pre.simulation_nodes.contains_key(w) && pre.simulation_nodes[w] == n
                    && pre.simulation_tasks[w].action == a;
            if w != id {
                assert(post.simulation_nodes.contains_key(w));
            }
        }
    }
    assert(post.expanded_wf());
}

/// Applying the reply of an expansion that was sent out and ended the
/// episode, for an action without a child, leaves the planner as it should
/// be.
proof fn lemma_final_expansion_wf<S>(
    pre: TreeView<S>,
    id: u32,
    action: usize,
    reward: usize,
    child_saturated: bool,
)
    requires
        pre.wf(),
        pre.expansion_sent(id),
        action < pre.action_n(),
        pre.nodes[pre.expansion_nodes[id] as int].children[action as int] is None,
        arena_wf(
            pre.after_final_expansion(id, action, reward, pre.assigned[id], child_saturated).nodes,
        ),
    ensures
        pre.after_final_expansion(id, action, reward, pre.assigned[id], child_saturated).wf(),
{
    let saving_idx = pre.assigned[id];
    let post = pre.after_final_expansion(id, action, reward, saving_idx, child_saturated);
    let at = pre.expansion_nodes[id];
    let told = replied(pre.nodes, at as int, id, action, reward, true);
    let hung = grown(told, at as int, action, saving_idx, child_saturated);
    lemma_same_replied(pre.nodes, at as int, id, action, reward, true);
    lemma_same_grown(told, at as int, action, saving_idx, child_saturated);
    lemma_same_weaken(told, hung, Some(id));
    lemma_same_trans(pre.nodes, told, hung, Some(id));
    lemma_same_finished(hung, at as nat, id);
    lemma_same_trans(pre.nodes, hung, post.nodes, Some(id));
    lemma_frame_others(pre, post.nodes, id);
    assert(post.paths_wf());
    assert(post.expanding() =~= pre.expanding().remove(id));
    assert(post.accounted());
    assert(post.registry_wf());
    assert(post.store_wf());
    lemma_finished_children(hung, at as nat, id);
    assert forall|n: int, a: int|
        0 <= n < post.nodes.len() && 0 <= a < post.action_n()
            && (#[trigger] post.nodes[n].children[a]) is Some implies post.expanded.contains(
        (n as usize, a as usize),
    ) by {
        if n == at && a == action {
        } else if n < pre.nodes.len() {
            assert(pre.nodes[n].children[a] is Some);
        }
    }
    assert forall|n: usize, a: usize| #[trigger] post.expanded.contains((n, a)) implies (n
        < post.nodes.len() && a < post.action_n() && post.nodes[n as int].children[a as int]
        is Some) || post.rollout_in_flight(n, a) by {
        if n == at && a == action {
        } else {
            assert(pre.expanded.contains((n, a)));
            if pre.rollout_in_flight(n, a) {
                let w = choose|w: u32|
                    #[trigger] pre.simulation_nodes.contains_key(w) && pre.simulation_nodes[w] == n
                        && pre.simulation_tasks[w].action == a;
                assert(post.simulation_nodes.contains_key(w));
            }
        }
    }
    assert(post.expanded_wf());
}

/// Applying the reply of an expansion that was sent out and did not end
/// the episode leaves the planner as it should be.
proof fn lemma_open_expansion_wf<S>(
    pre: TreeView<S>,
    id: u32,
    action: usize,
    reward: usize,
    child_saturated: bool,
    snapshot: S,
)
    requires
        pre.wf(),
        pre.expansion_sent(id),
        action < pre.action_n(),
        arena_wf(
            pre.after_open_expansion(
                id,
                action,
                reward,
                pre.assigned[id],
                child_saturated,
                snapshot,
            ).nodes,
        ),
    ensures
        pre.after_open_expansion(id, action, reward, pre.assigned[id], child_saturated, snapshot).wf(),
{
    let saving_idx = pre.assigned[id];
    let post = pre.after_open_expansion(id, action, reward, saving_idx, child_saturated, snapshot);
    let at = pre.expansion_nodes[id];
    let told = post.nodes;
    lemma_same_replied(pre.nodes, at as int, id, action, reward, false);
    lemma_frame_others(pre, told, id);
    lemma_recorded_path(pre.nodes, at as nat, id, told[at as int]);
    assert(!pre.simulation_nodes.contains_key(id));
    assert(!pre.simulation_tasks.contains_key(id));
    if pre.pending_simulation.contains(id) {
        let i = choose|i: int|
            0 <= i < pre.pending_simulation.len() && pre.pending_simulation[i] == id;
        assert(pre.simulation_tasks.contains_key(pre.pending_simulation[i]));
    }
    lemma_queue_push(pre.pending_simulation, id);
    assert(post.paths_wf());
    assert(post.expanding() =~= pre.expanding().remove(id));
    assert(post.simulating() =~= pre.simulating().insert(id));
    assert(post.accounted());
    assert forall|i: int| 0 <= i < post.pending_simulation.len() implies
        post.simulation_tasks.contains_key(#[trigger] post.pending_simulation[i]) by {
        if i < pre.pending_simulation.len() {
            assert(pre.simulation_tasks.contains_key(pre.pending_simulation[i]));
        }
    }
    assert(post.registry_wf());
    assert(post.store_wf());
    assert forall|n: int, a: int|
        0 <= n < post.nodes.len() && 0 <= a < post.action_n()
            && (#[trigger] post.nodes[n].children[a]) is Some implies post.expanded.contains(
        (n as usize, a as usize),
    ) by {
        assert(pre.nodes[n].children[a] is Some);
    }
    assert forall|n: usize, a: usize| #[trigger] post.expanded.contains((n, a)) implies (n
        < post.nodes.len() && a < post.action_n() && post.nodes[n as int].children[a as int]
        is Some) || post.rollout_in_flight(n, a) by {
        if n == at && a == action {
            assert(post.simulation_nodes.contains_key(id));
        } else {
            assert(pre.expanded.contains((n, a)));
            if pre.rollout_in_flight(n, a) {
                let w = choose|w: u32|
                    #[trigger] pre.simulation_nodes.contains_key(w) && pre.simulation_nodes[w] == n
                        && pre.simulation_tasks[w].action == a;
                assert(post.simulation_nodes.contains_key(w));
            }
        }
    }
    assert(post.expanded_wf());
}

/// In every round no more simulations are counted as done than were
/// begun, and no more are begun than the budget allows.
pub proof fn lemma_within_budget<S>(tree: TreeView<S>)
    requires
        tree.wf(),
    ensures
        tree.simulation_count <= tree.issued <= tree.budget,
{
}

/// Once the budget is used up and nothing is in flight, as many
/// simulations are counted as done as the budget allows.
pub proof fn lemma_round_complete<S>(tree: TreeView<S>)
    requires
        tree.wf(),
        tree.issued == tree.budget,
        tree.cursor is None,
        tree.expansion_nodes.dom().is_empty(),
        tree.simulation_nodes.dom().is_empty(),
    ensures
        tree.simulation_count == tree.budget,
{
    assert(tree.expanding() =~= Set::<u32>::empty());
    assert(tree.simulating() =~= Set::<u32>::empty());
}

/// What holds of every node holds of every node of the tree: for every
/// action, no more visits are finished than started, no more started
/// through the action than through the node, and the visits started
/// through the actions add up to those started through the node.
pub proof fn lemma_tree_counts<S>(tree: TreeView<S>, node: int, a: int)
    requires
        tree.wf(),
        0 <= node < tree.nodes.len(),
        0 <= a < tree.action_n(),
    ensures
        0 <= tree.nodes[node].complete_count[a] <= tree.nodes[node].visit_count[a]
            <= tree.nodes[node].visit_total,
        total(tree.nodes[node].visit_count) == tree.nodes[node].visit_total,
{
    assert(tree.nodes[node].wf());
    lemma_counts_ordered(tree.nodes[node], a);
}

/// Every saving index in the store is below the next one to be handed out,
/// and the index of an expansion in flight is in the store for no state
/// yet and with no other expansion: what is written to the store in a
/// round is written once, under indices that were handed out in rising
/// order.
pub proof fn lemma_saving_idx_fresh<S>(tree: TreeView<S>, id: u32, other: u32)
    requires
        tree.wf(),
        tree.expansion_sent(id),
    ensures
        tree.assigned[id] < tree.global_saving_idx,
        !tree.store.contains_key(tree.assigned[id]),
        tree.expansion_sent(other) && other != id ==> tree.assigned[other] != tree.assigned[id],
        forall|k: u32| tree.store.contains_key(k) ==> k < tree.global_saving_idx,
{
}

/// A round is over only between two simulations and once the budget is
/// used up; `advance` changes nothing when it says so.
pub proof fn lemma_finish_uses_budget<S: Clone>(
    pre: TreeView<S>,
    post: TreeView<S>,
    moved: Result<Move<S>, PlanError>,
)
    requires
        pre.wf(),
        advances(pre, post, moved),
        moved matches Ok(Move::Finish),
    ensures
        post == pre,
        pre.stage == Stage::Idle,
        pre.issued == pre.budget,
        pre.cursor is None,
{
}

/// Between two rounds nothing is in flight: a round starts with empty
/// registries and empty queues.
pub proof fn lemma_round_start_clean<S>(pre: TreeView<S>, action_n: usize, snapshot: S)
    ensures
        round_start(pre, action_n, snapshot).expansion_tasks.dom().is_empty(),
        round_start(pre, action_n, snapshot).expansion_nodes.dom().is_empty(),
        round_start(pre, action_n, snapshot).assigned.dom().is_empty(),
        round_start(pre, action_n, snapshot).simulation_tasks.dom().is_empty(),
        round_start(pre, action_n, snapshot).simulation_nodes.dom().is_empty(),
        round_start(pre, action_n, snapshot).pending_expansion.len() == 0,
        round_start(pre, action_n, snapshot).pending_simulation.len() == 0,
        round_start(pre, action_n, snapshot).in_flight() == 0,
{
    let start = round_start(pre, action_n, snapshot);
    assert(start.expansion_tasks.dom() =~= Set::<u32>::empty());
    assert(start.expansion_nodes.dom() =~= Set::<u32>::empty());
    assert(start.assigned.dom() =~= Set::<u32>::empty());
    assert(start.simulation_tasks.dom() =~= Set::<u32>::empty());
    assert(start.simulation_nodes.dom() =~= Set::<u32>::empty());
}

/// A task that waits for an expansion worker, and one that is with a
/// worker, is registered under the id of a simulation that was begun and is
/// not counted as done: no task leaves the registry but by its reply or by
/// the start of the next round.
pub proof fn lemma_expansions_registered<S>(tree: TreeView<S>, id: u32)
    requires
        tree.wf(),
        tree.expansion_tasks.contains_key(id) || tree.expansion_sent(id),
    ensures
        tree.expansion_nodes.contains_key(id),
        tree.expansion_tasks.contains_key(id) != tree.expansion_sent(id),
        id < tree.issued,
        tree.expansion_nodes[id] < tree.nodes.len(),
        !tree.simulation_nodes.contains_key(id),
        tree.cursor matches Some((c, _)) ==> c != id,
{
}

/// A child stands under an action of a node exactly when an expansion of
/// the node has returned the action and no rollout for it is still in
/// flight; while the rollout is in flight the action is returned and the
/// child not yet there.
pub proof fn lemma_child_iff_expanded<S>(tree: TreeView<S>, node: usize, a: usize)
    requires
        tree.wf(),
        node < tree.nodes.len(),
        a < tree.action_n(),
    ensures
        tree.nodes[node as int].children[a as int] is Some ==> tree.expanded.contains((node, a)),
        tree.expanded.contains((node, a)) && !tree.rollout_in_flight(node, a)
            ==> tree.nodes[node as int].children[a as int] is Some,
{
}

/// A round that has just started has no action to take from the root: the
/// search needs at least as many simulations as there are actions before
/// `best_action` has anything to choose from.
pub proof fn lemma_round_start_unselectable<S>(
    pre: TreeView<S>,
    action_n: usize,
    snapshot: S,
    a: int,
)
    ensures
        !round_start(pre, action_n, snapshot).nodes[0].selectable(a),
{
}

/// The planner of one search: the tree of the current round, the tasks in
/// flight, the checkpoint store and the status of both worker pools.
pub struct Tree<S> {
    budget: u32,
    exp_pool: PoolManager,
    sim_pool: PoolManager,
    checkpoint_data_manager: CheckpointerManager<S>,
    nodes: Vec<Node>,
    global_saving_idx: u32,
    simulation_count: u32,
    issued: u32,
    stage: Stage,
    cursor: Option<(u32, usize)>,
    expansion_tasks: HashMap<u32, ExpTask<S>>,
    expansion_nodes_copy: HashMap<u32, usize>,
    expansion_saving_idx: HashMap<u32, u32>,
    simulation_tasks: HashMap<u32, SimTask>,
    simulation_nodes_copy: HashMap<u32, usize>,
    pending_expansion_tasks: VecDeque<u32>,
    pending_simulation_tasks: VecDeque<u32>,
    expanded: Ghost<Set<(usize, usize)>>,
}

impl<S> View for Tree<S> {
    type V = TreeView<S>;

    closed spec fn view(&self) -> TreeView<S> {
        TreeView {
            budget: self.budget,
            nodes: Seq::new(self.nodes@.len(), |i: int| self.nodes@[i]@),
            store: self.checkpoint_data_manager@,
            exp_pool: self.exp_pool@,
            sim_pool: self.sim_pool@,
            global_saving_idx: self.global_saving_idx,
            simulation_count: self.simulation_count,
            issued: self.issued,
            stage: self.stage,
            cursor: self.cursor,
            expansion_tasks: self.expansion_tasks@,
            expansion_nodes: self.expansion_nodes_copy@,
            assigned: self.expansion_saving_idx@,
            simulation_tasks: self.simulation_tasks@,
            simulation_nodes: self.simulation_nodes_copy@,
            pending_expansion: self.pending_expansion_tasks@,
            pending_simulation: self.pending_simulation_tasks@,
            expanded: self.expanded@,
        }
    }
}

/// What `enqueue_expansion` does: where the store holds the snapshot that
/// the node under the cursor restores from, a copy of it and the node's
/// stub are queued under the simulation's id, the selection is over, and
/// the step goes on to send out expansions. Else nothing changes.
pub open spec fn queues_expansion<S: Clone>(
    pre: TreeView<S>,
    post: TreeView<S>,
    queued: Result<(), PlanError>,
) -> bool {
    let (id, node) = pre.cursor.unwrap();
    let key = pre.nodes[node as int].checkpoint_idx;
    if pre.store.contains_key(key) {
        let task = post.expansion_tasks[id];
        &&& queued.is_ok()
        &&& post == (TreeView {
            stage: Stage::Expanding,
            cursor: None,
            expansion_tasks: pre.expansion_tasks.insert(id, task),
            expansion_nodes: pre.expansion_nodes.insert(id, node),
            pending_expansion: pre.pending_expansion.push(id),
            ..pre
        })
        &&& cloned(pre.store[key], task.checkpoint_data)
        &&& task.shallow_copy_node.action_n == pre.nodes[node as int].action_n
        &&& task.shallow_copy_node.is_head == pre.nodes[node as int].is_head
        &&& task.shallow_copy_node.children_visit_count@ == pre.nodes[node as int].visit_count
    } else {
        queued == Err::<(), PlanError>(PlanError::MissingCheckpoint) && post == pre
    }
}

/// What `dispatch_expansion` does: where an expansion can be sent out, the
/// task at the head of the queue goes to the first idle worker with the
/// next saving index. Else nothing changes.
pub open spec fn sends_expansion<S>(
    pre: TreeView<S>,
    post: TreeView<S>,
    order: Option<ExpansionOrder<S>>,
) -> bool {
    if pre.expansion_ready() {
        let id = pre.pending_expansion[0];
        &&& order is Some
        &&& order.unwrap().task_id == id
        &&& order.unwrap().task == pre.expansion_tasks[id]
        &&& order.unwrap().saving_idx == pre.global_saving_idx
        &&& first_idle(pre.exp_pool, order.unwrap().worker as int)
        &&& post == (TreeView {
            exp_pool: pre.exp_pool.update(order.unwrap().worker as int, Status::Busy),
            global_saving_idx: (pre.global_saving_idx + 1) as u32,
            expansion_tasks: pre.expansion_tasks.remove(id),
            assigned: pre.assigned.insert(id, pre.global_saving_idx),
            pending_expansion: pre.pending_expansion.subrange(
                1,
                pre.pending_expansion.len() as int,
            ),
            ..pre
        })
    } else {
        order is None && post == pre
    }
}

/// What `dispatch_simulation` does: where a rollout can be sent out, the
/// one at the head of the queue goes to the first idle worker with a copy
/// of the snapshot to start from, and its visit is counted as started from
/// its node up to the root. Else nothing changes.
pub open spec fn sends_simulation<S: Clone>(
    pre: TreeView<S>,
    post: TreeView<S>,
    order: Option<SimulationOrder<S>>,
) -> bool {
    let id = pre.pending_simulation[0];
    let at = pre.simulation_nodes[id];
    if pre.simulation_ready() {
        &&& order matches Some(sent) && {
            &&& sent.task_id == id
            &&& sent.task == pre.simulation_tasks[id]
            &&& cloned(pre.store[sent.task.saving_idx], sent.checkpoint_data)
            &&& first_idle(pre.sim_pool, sent.worker as int)
            &&& post.sim_pool == pre.sim_pool.update(sent.worker as int, Status::Busy)
        }
        &&& post == (TreeView {
            nodes: after_incomplete_walk(pre.nodes, at as nat, id),
            sim_pool: post.sim_pool,
            pending_simulation: pre.pending_simulation.subrange(
                1,
                pre.pending_simulation.len() as int,
            ),
            ..pre
        })
    } else {
        order is None && post == pre
    }
}

/// What `advance` does, stage by stage.
///
/// Between two simulations the next one begins, or the round is over once
/// the budget is used up. In a selection the toss of a coin decides, with
/// what the node under the cursor has seen, whether the node is expanded;
/// if it is not, the driver is asked to rank its actions. After a selection
/// that ended with an expansion, the expansions that can be sent out are
/// handed over one by one; then a reply is waited for if the pool is
/// saturated. After that the same is done for the rollouts, and the step is
/// over.
pub open spec fn advances<S: Clone>(
    pre: TreeView<S>,
    post: TreeView<S>,
    moved: Result<Move<S>, PlanError>,
) -> bool {
    match pre.stage {
        Stage::Idle => if pre.issued < pre.budget {
            moved matches Ok(Move::Again) && post == (TreeView {
                issued: (pre.issued + 1) as u32,
                stage: Stage::Selecting,
                cursor: Some((pre.issued, 0usize)),
                ..pre
            })
        } else {
            moved matches Ok(Move::Finish) && post == pre
        },
        Stage::Selecting => {
            ||| {
                &&& !pre.wants_expansion(false)
                &&& post == pre
                &&& moved matches Ok(Move::Score(node)) && node == pre.cursor.unwrap().1
            }
            ||| pre.wants_expansion(true) && match moved {
                Ok(Move::Again) => queues_expansion(pre, post, Ok(())),
                Err(e) => queues_expansion(pre, post, Err(e)),
                _ => false,
            }
        },
        Stage::Expanding => if pre.expansion_ready() {
            moved matches Ok(Move::SendExpansion(order)) && sends_expansion(pre, post, Some(order))
        } else if saturated(pre.exp_pool) {
            moved matches Ok(Move::CollectExpansion) && post == (TreeView {
                stage: Stage::AwaitingExpansion,
                ..pre
            })
        } else {
            moved matches Ok(Move::Again) && post == (TreeView { stage: Stage::Simulating, ..pre })
        },
        Stage::AwaitingExpansion => moved matches Ok(Move::CollectExpansion) && post == pre,
        Stage::Simulating => if pre.simulation_ready() {
            moved matches Ok(Move::SendSimulation(order)) && sends_simulation(
                pre,
                post,
                Some(order),
            )
        } else if saturated(pre.sim_pool) {
            moved matches Ok(Move::CollectSimulation) && post == (TreeView {
                stage: Stage::AwaitingSimulation,
                ..pre
            })
        } else {
            moved matches Ok(Move::Again) && post == (TreeView { stage: Stage::Idle, ..pre })
        },
        Stage::AwaitingSimulation => moved matches Ok(Move::CollectSimulation) && post == pre,
    }
}

/// The planner at the start of a round over `action_n` actions, whose
/// starting state is `snapshot`: a lone root that restores from saving
/// index 0, nothing in flight, and the pools as they are.
pub open spec fn round_start<S>(pre: TreeView<S>, action_n: usize, snapshot: S) -> TreeView<S> {
    TreeView {
        budget: pre.budget,
        nodes: seq![fresh_view(action_n, 0, true, None)],
        store: Map::<u32, S>::empty().insert(0, snapshot),
        exp_pool: pre.exp_pool,
        sim_pool: pre.sim_pool,
        global_saving_idx: 1,
        simulation_count: 0,
        issued: 0,
        stage: Stage::Idle,
        cursor: None,
        expansion_tasks: Map::<u32, ExpTask<S>>::empty(),
        expansion_nodes: Map::<u32, usize>::empty(),
        assigned: Map::<u32, u32>::empty(),
        simulation_tasks: Map::<u32, SimTask>::empty(),
        simulation_nodes: Map::<u32, usize>::empty(),
        pending_expansion: Seq::<u32>::empty(),
        pending_simulation: Seq::<u32>::empty(),
        expanded: Set::<(usize, usize)>::empty(),
    }
}

/// Whether `id` waits in `queue`.
fn queued(queue: &VecDeque<u32>, id: u32) -> (waits: bool)
    ensures
        waits == queue@.contains(id),
{
    let mut i: usize = 0;
    while i < queue.len()
        invariant
            i <= queue@.len(),
            forall|j: int| 0 <= j < i ==> queue@[j] != id,
        decreases queue@.len() - i,
    {
        if queue[i] == id {
            return true;
        }
        i += 1;
    }
    false
}

impl<S> Tree<S> {
    /// What holds of the planner at every time.
    pub open spec fn wf(&self) -> bool {
        self@.wf()
    }

    /// A planner that allows `budget` simulations in a round and keeps the
    /// status of `expansion_worker_num` expansion workers and
    /// `simulation_worker_num` rollout workers, all idle. Until `reset`
    /// starts a round the tree is a placeholder without actions.
    pub fn new(budget: u32, expansion_worker_num: usize, simulation_worker_num: usize) -> (tree:
        Self)
        ensures
            tree.wf(),
            tree@ == (TreeView {
                budget,
                nodes: seq![fresh_view(0, 0, false, None)],
                store: Map::<u32, S>::empty(),
                exp_pool: Seq::new(expansion_worker_num as nat, |i: int| Status::Idle),
                sim_pool: Seq::new(simulation_worker_num as nat, |i: int| Status::Idle),
                global_saving_idx: 0,
                simulation_count: 0,
                issued: 0,
                stage: Stage::Idle,
                cursor: None,
                expansion_tasks: Map::<u32, ExpTask<S>>::empty(),
                expansion_nodes: Map::<u32, usize>::empty(),
                assigned: Map::<u32, u32>::empty(),
                simulation_tasks: Map::<u32, SimTask>::empty(),
                simulation_nodes: Map::<u32, usize>::empty(),
                pending_expansion: Seq::<u32>::empty(),
                pending_simulation: Seq::<u32>::empty(),
                expanded: Set::<(usize, usize)>::empty(),
            }),
    {
        let mut nodes: Vec<Node> = Vec::new();
        nodes.push(Node::dummy());
        let tree = Tree {
            budget,
            exp_pool: PoolManager::new(expansion_worker_num),
            sim_pool: PoolManager::new(simulation_worker_num),
            checkpoint_data_manager: CheckpointerManager::new(),
            nodes,
            global_saving_idx: 0,
            simulation_count: 0,
            issued: 0,
            stage: Stage::Idle,
            cursor: None,
            expansion_tasks: HashMap::new(),
            expansion_nodes_copy: HashMap::new(),
            expansion_saving_idx: HashMap::new(),
            simulation_tasks: HashMap::new(),
            simulation_nodes_copy: HashMap::new(),
            pending_expansion_tasks: VecDeque::new(),
            pending_simulation_tasks: VecDeque::new(),
            expanded: Ghost(Set::empty()),
        };
        proof {
            assert(tree@.nodes =~= seq![fresh_view(0, 0, false, None)]);
        }
        tree
    }

    /// Starts a planning round from the state in `snapshot`, over
    /// `action_n` actions: drops the tree, the tasks in flight and every
    /// snapshot of the round before, writes `snapshot` at saving index 0
    /// and makes a root that restores from it. The pools stay as they are:
    /// the caller waits for the busy workers first.
    pub fn reset(&mut self, action_n: usize, snapshot: S)
        ensures
            final(self).wf(),
            final(self)@ == round_start(old(self)@, action_n, snapshot),
    {
        self.global_saving_idx = 0;
        self.simulation_count = 0;
        self.issued = 0;
        self.stage = Stage::Idle;
        self.cursor = None;
        self.checkpoint_data_manager.clear();
        self.expansion_tasks.clear();
        self.expansion_nodes_copy.clear();
        self.expansion_saving_idx.clear();
        self.simulation_tasks.clear();
        self.simulation_nodes_copy.clear();
        self.pending_expansion_tasks.clear();
        self.pending_simulation_tasks.clear();
        self.expanded = Ghost(Set::empty());
        let written = self.checkpoint_data_manager.checkpoint_env(self.global_saving_idx, snapshot);
        let mut nodes: Vec<Node> = Vec::new();
        nodes.push(Node::new(action_n, self.global_saving_idx, true, None));
        self.nodes = nodes;
        self.global_saving_idx = 1;
        proof {
            assert(self@.nodes =~= seq![fresh_view(action_n, 0, true, None)]);
        }
    }

    /// The number of simulations that a round may make.
    pub fn budget(&self) -> (n: u32)
        ensures
            n == self@.budget,
    {
        self.budget
    }

    /// The number of simulations of this round that are counted as done.
    pub fn simulation_count(&self) -> (n: u32)
        ensures
            n == self@.simulation_count,
    {
        self.simulation_count
    }

    /// The number of simulations of this round that were begun.
    pub fn issued(&self) -> (n: u32)
        ensures
            n == self@.issued,
    {
        self.issued
    }

    /// The saving index that the next expansion to be sent out will get.
    pub fn global_saving_idx(&self) -> (idx: u32)
        ensures
            idx == self@.global_saving_idx,
    {
        self.global_saving_idx
    }

    /// The number of nodes of the tree.
    pub fn len(&self) -> (n: usize)
        ensures
            n == self@.nodes.len(),
    {
        self.nodes.len()
    }

    /// The branching factor of the round.
    pub fn action_n(&self) -> (n: usize)
        requires
            self.wf(),
        ensures
            n == self@.action_n(),
    {
        self.nodes[0].action_n()
    }

    /// The node at `index`; the root is at index 0.
    pub fn node(&self, index: usize) -> (node: &Node)
        requires
            index < self@.nodes.len(),
        ensures
            node@ == self@.nodes[index as int],
    {
        &self.nodes[index]
    }

    /// The simulation that is being selected for and the node it has come
    /// to, if a selection is under way.
    pub fn cursor(&self) -> (at: Option<(u32, usize)>)
        ensures
            at == self@.cursor,
    {
        self.cursor
    }

    /// The number of tasks that wait for an expansion worker.
    pub fn pending_expansions(&self) -> (n: usize)
        ensures
            n == self@.pending_expansion.len(),
    {
        self.pending_expansion_tasks.len()
    }

    /// The number of tasks that wait for a rollout worker.
    pub fn pending_simulations(&self) -> (n: usize)
        ensures
            n == self@.pending_simulation.len(),
    {
        self.pending_simulation_tasks.len()
    }

    /// The number of simulations that are with an expansion worker or wait
    /// for one.
    pub fn expansions_in_flight(&self) -> (n: usize)
        ensures
            n == self@.expanding().len(),
    {
        self.expansion_nodes_copy.len()
    }

    /// The number of simulations that are with a rollout worker or wait for
    /// one.
    pub fn simulations_in_flight(&self) -> (n: usize)
        ensures
            n == self@.simulating().len(),
    {
        self.simulation_nodes_copy.len()
    }

    /// Whether a snapshot was written at `saving_idx` in this round.
    pub fn has_checkpoint(&self, saving_idx: u32) -> (held: bool)
        ensures
            held == self@.store.contains_key(saving_idx),
    {
        self.checkpoint_data_manager.contains(saving_idx)
    }

    /// Whether the expansion pool is so busy that the coordinator stops to
    /// collect a reply.
    pub fn expansion_pool_saturated(&self) -> (full: bool)
        ensures
            full == saturated(self@.exp_pool),
    {
        self.exp_pool.is_saturated()
    }

    /// Whether the rollout pool is so busy that the coordinator stops to
    /// collect a reply.
    pub fn simulation_pool_saturated(&self) -> (full: bool)
        ensures
            full == saturated(self@.sim_pool),
    {
        self.sim_pool.is_saturated()
    }

    /// The number of expansion workers.
    pub fn expansion_worker_num(&self) -> (n: usize)
        ensures
            n == self@.exp_pool.len(),
    {
        self.exp_pool.work_num()
    }

    /// The number of rollout workers.
    pub fn simulation_worker_num(&self) -> (n: usize)
        ensures
            n == self@.sim_pool.len(),
    {
        self.sim_pool.work_num()
    }

    /// Whether expansion worker `id` holds a task.
    pub fn expansion_worker_busy(&self, id: usize) -> (at_work: bool)
        requires
            id < self@.exp_pool.len(),
        ensures
            at_work == (self@.exp_pool[id as int] == Status::Busy),
    {
        self.exp_pool.is_busy(id)
    }

    /// Whether rollout worker `id` holds a task.
    pub fn simulation_worker_busy(&self, id: usize) -> (at_work: bool)
        requires
            id < self@.sim_pool.len(),
        ensures
            at_work == (self@.sim_pool[id as int] == Status::Busy),
    {
        self.sim_pool.is_busy(id)
    }

    /// Marks expansion worker `id` as idle, once its reply has come in.
    pub fn release_expansion_worker(&mut self, id: usize)
        requires
            old(self).wf(),
            id < old(self)@.exp_pool.len(),
        ensures
            final(self).wf(),
            final(self)@ == (TreeView {
                exp_pool: old(self)@.exp_pool.update(id as int, Status::Idle),
                ..old(self)@
            }),
    {
        self.exp_pool.release(id);
    }

    /// Marks rollout worker `id` as idle, once its reply has come in.
    pub fn release_simulation_worker(&mut self, id: usize)
        requires
            old(self).wf(),
            id < old(self)@.sim_pool.len(),
        ensures
            final(self).wf(),
            final(self)@ == (TreeView {
                sim_pool: old(self)@.sim_pool.update(id as int, Status::Idle),
                ..old(self)@
            }),
    {
        self.sim_pool.release(id);
    }

    /// The action that a round over `action_n` actions needs no search
    /// for: with one action there is nothing to choose.
    pub fn shortcut(action_n: usize) -> (action: Option<usize>)
        ensures
            action == if action_n == 1 {
                Some(0usize)
            } else {
                None
            },
    {
        if action_n == 1 {
            Some(0)
        } else {
            None
        }
    }

    /// Begins the next simulation of the round and puts the cursor on the
    /// root. The simulations of a round are numbered from zero in the
    /// order in which they begin. Nothing begins while a selection is
    /// under way or once the budget is used up.
    pub fn begin_simulation(&mut self) -> (sim_idx: Option<u32>)
        requires
            old(self).wf(),
        ensures
            final(self).wf(),
            old(self)@.cursor is None && old(self)@.issued < old(self)@.budget ==> sim_idx
                == Some(old(self)@.issued) && final(self)@ == (TreeView {
                issued: (old(self)@.issued + 1) as u32,
                stage: Stage::Selecting,
                cursor: Some((old(self)@.issued, 0usize)),
                ..old(self)@
            }),
            !(old(self)@.cursor is None && old(self)@.issued < old(self)@.budget) ==> sim_idx
                is None && final(self)@ == old(self)@,
    {
        if self.cursor.is_some() || self.issued >= self.budget {
            return None;
        }
        let sim_idx = self.issued;
        self.stage = Stage::Selecting;
        self.cursor = Some((sim_idx, 0));
        self.issued = self.issued + 1;
        proof {
            assert(self@.nodes =~= old(self)@.nodes);
            assert(self@.paths_wf());
        }
        Some(sim_idx)
    }

    /// Whether the selection stops at the node under the cursor, given the
    /// toss of a coin.
    pub fn needs_expansion(&self, coin: bool) -> (expand: bool)
        requires
            self.wf(),
            self@.cursor is Some,
        ensures
            expand == self@.wants_expansion(coin),
    {
        let node = &self.nodes[self.cursor.unwrap().1];
        assert(node@ == self@.nodes[self.cursor.unwrap().1 as int]);
        node.no_child_available() || (node.is_head() && !node.all_child_visited()) || (
        !node.is_head() && !node.all_child_visited() && coin)
    }

    /// Tosses a coin and says whether the selection stops at the node
    /// under the cursor.
    pub fn decide_expansion(&self) -> (expand: bool)
        requires
            self.wf(),
            self@.cursor is Some,
        ensures
            expand == self@.wants_expansion(true) || expand == self@.wants_expansion(false),
    {
        let mut rng = rand::thread_rng();
        let coin = coin_flip(&mut rng);
        self.needs_expansion(coin)
    }

    /// The action to take from the root once the round is over: among the
    /// root's actions with an unsaturated child, the first of greatest
    /// score.
    pub fn best_action(&self, scores: &Vec<i64>) -> (chosen: Result<usize, PlanError>)
        requires
            self.wf(),
            scores@.len() == self@.action_n(),
        ensures
            match chosen {
                Ok(best) => self@.nodes[0].is_best(scores@, best as int) && best
                    == self@.nodes[0].best_action(scores@),
                Err(e) => e == PlanError::NoSelectableChild && forall|a: int|
                    !self@.nodes[0].selectable(a),
            },
    {
        self.nodes[0].select_uct_action(scores)
    }

    /// Counts the visit of simulation `id` as started at every node on the
    /// way from `from` up to the root.
    fn incomplete_update(&mut self, from: usize, id: u32)
        requires
            arena_wf(old(self)@.nodes),
            from < old(self)@.nodes.len(),
            path_in_phase(old(self)@.nodes, from as nat, id, Phase::Recorded),
        ensures
            arena_wf(final(self)@.nodes),
            final(self)@ == (TreeView {
                nodes: after_incomplete_walk(old(self)@.nodes, from as nat, id),
                ..old(self)@
            }),
    {
        let ghost nodes = old(self)@.nodes;
        let mut cur = from;
        proof {
            assert(self@.nodes =~= Seq::new(
                nodes.len(),
                |i: int|
                    if on_path(nodes, from as nat, i) && !on_path(nodes, cur as nat, i) {
                        nodes[i].after_incomplete(id)
                    } else {
                        nodes[i]
                    },
            ));
        }
        loop
            invariant
                arena_wf(self@.nodes),
                nodes == old(self)@.nodes,
                arena_wf(nodes),
                path_in_phase(nodes, from as nat, id, Phase::Recorded),
                cur < nodes.len(),
                on_path(nodes, from as nat, cur as int),
                self@ == (TreeView {
                    nodes: Seq::new(
                        nodes.len(),
                        |i: int|
                            if on_path(nodes, from as nat, i) && !on_path(nodes, cur as nat, i) {
                                nodes[i].after_incomplete(id)
                            } else {
                                nodes[i]
                            },
                    ),
                    ..old(self)@
                }),
            decreases cur,
        {
            let ghost before = self@;
            assert(before.nodes[cur as int] == nodes[cur as int]);
            assert(self.nodes@[cur as int]@.wf());
            let counted = self.nodes[cur].update_incomplete(id);
            proof {
                assert(self@.nodes =~= before.nodes.update(
                    cur as int,
                    nodes[cur as int].after_incomplete(id),
                ));
                lemma_arena_update(
                    before.nodes,
                    cur as int,
                    nodes[cur as int].after_incomplete(id),
                );
            }
            match self.nodes[cur].parent() {
                None => {
                    proof {
                        assert(self@.nodes =~= after_incomplete_walk(nodes, from as nat, id));
                    }
                    return ;
                },
                Some(p) => {
                    proof {
                        lemma_on_path_step(nodes, from as nat, cur as nat);
                        if on_path(nodes, p as nat, cur as int) {
                            lemma_on_path_bound(nodes, p as nat, cur as int);
                        }
                        assert forall|i: int| 0 <= i < nodes.len() && i != cur implies on_path(
                            nodes,
                            cur as nat,
                            i,
                        ) == on_path(nodes, p as nat, i) by {}
                        assert(self@.nodes =~= Seq::new(
                            nodes.len(),
                            |i: int|
                                if on_path(nodes, from as nat, i) && !on_path(nodes, p as nat, i) {
                                    nodes[i].after_incomplete(id)
                                } else {
                                    nodes[i]
                                },
                        ));
                    }
                    cur = p;
                },
            }
        }
    }

    /// Counts the visit of simulation `id` as finished at every node on the
    /// way from `from` up to the root, and returns the steps that the
    /// simulation took there, for the caller to discount along.
    fn complete_update(&mut self, from: usize, id: u32) -> (steps: Vec<PathStep>)
        requires
            arena_wf(old(self)@.nodes),
            from < old(self)@.nodes.len(),
            path_in_phase(old(self)@.nodes, from as nat, id, Phase::Started),
        ensures
            arena_wf(final(self)@.nodes),
            final(self)@ == (TreeView {
                nodes: after_complete_walk(old(self)@.nodes, from as nat, id),
                ..old(self)@
            }),
            steps@ == path_steps(old(self)@.nodes, from as nat, id),
    {
        let ghost nodes = old(self)@.nodes;
        let mut steps: Vec<PathStep> = Vec::new();
        let mut cur = from;
        proof {
            assert(self@.nodes =~= Seq::new(
                nodes.len(),
                |i: int|
                    if on_path(nodes, from as nat, i) && !on_path(nodes, cur as nat, i) {
                        nodes[i].after_complete(id)
                    } else {
                        nodes[i]
                    },
            ));
            assert(steps@ + path_steps(nodes, cur as nat, id) =~= path_steps(
                nodes,
                from as nat,
                id,
            ));
        }
        loop
            invariant
                arena_wf(self@.nodes),
                nodes == old(self)@.nodes,
                arena_wf(nodes),
                path_in_phase(nodes, from as nat, id, Phase::Started),
                cur < nodes.len(),
                on_path(nodes, from as nat, cur as int),
                steps@ + path_steps(nodes, cur as nat, id) == path_steps(nodes, from as nat, id),
                self@ == (TreeView {
                    nodes: Seq::new(
                        nodes.len(),
                        |i: int|
                            if on_path(nodes, from as nat, i) && !on_path(nodes, cur as nat, i) {
                                nodes[i].after_complete(id)
                            } else {
                                nodes[i]
                            },
                    ),
                    ..old(self)@
                }),
            decreases cur,
        {
            let ghost before = self@;
            let ghost walked = steps@;
            assert(before.nodes[cur as int] == nodes[cur as int]);
            assert(self.nodes@[cur as int]@.wf());
            let taken = self.nodes[cur].update_complete(id);
            proof {
                assert(self@.nodes =~= before.nodes.update(
                    cur as int,
                    nodes[cur as int].after_complete(id),
                ));
                lemma_arena_update(before.nodes, cur as int, nodes[cur as int].after_complete(id));
            }
            match taken {
                Ok((action, reward)) => {
                    steps.push(PathStep { node: cur, action, reward });
                },
                Err(_) => {},
            }
            assert(steps@ == walked.push(step_at(nodes, cur as nat, id)));
            match self.nodes[cur].parent() {
                None => {
                    proof {
                        assert(self@.nodes =~= after_complete_walk(nodes, from as nat, id));
                        assert(steps@ =~= walked + path_steps(nodes, cur as nat, id));
                    }
                    return steps;
                },
                Some(p) => {
                    proof {
                        lemma_on_path_step(nodes, from as nat, cur as nat);
                        if on_path(nodes, p as nat, cur as int) {
                            lemma_on_path_bound(nodes, p as nat, cur as int);
                        }
                        assert forall|i: int| 0 <= i < nodes.len() && i != cur implies on_path(
                            nodes,
                            cur as nat,
                            i,
                        ) == on_path(nodes, p as nat, i) by {}
                        assert(self@.nodes =~= Seq::new(
                            nodes.len(),
                            |i: int|
                                if on_path(nodes, from as nat, i) && !on_path(nodes, p as nat, i) {
                                    nodes[i].after_complete(id)
                                } else {
                                    nodes[i]
                                },
                        ));
                        assert(steps@ + path_steps(nodes, p as nat, id) =~= walked + path_steps(
                            nodes,
                            cur as nat,
                            id,
                        ));
                    }
                    cur = p;
                },
            }
        }
    }

    /// Ends the selection at the node under the cursor and queues its
    /// expansion: a copy of the snapshot that the node restores from and
    /// the node's stub wait, under the simulation's id, for an expansion
    /// worker. A node whose snapshot is not in the store cannot be
    /// expanded; the planner then stays as it is.
    pub fn enqueue_expansion(&mut self) -> (queued: Result<(), PlanError>) where S: Clone
        requires
            old(self).wf(),
            old(self)@.cursor is Some,
        ensures
            final(self).wf(),
            queues_expansion(old(self)@, final(self)@, queued),
    {
        let (id, at) = self.cursor.unwrap();
        assert(self.nodes@[at as int]@ == self@.nodes[at as int]);
        let checkpoint_data = match self.checkpoint_data_manager.retrieve(
            self.nodes[at].checkpoint_idx(),
        ) {
            Ok(snapshot) => snapshot,
            Err(e) => {
                return Err(e);
            },
        };
        let shallow_copy_node = self.nodes[at].shallow_clone();
        self.expansion_tasks.insert(id, ExpTask { checkpoint_data, shallow_copy_node });
        self.expansion_nodes_copy.insert(id, at);
        self.pending_expansion_tasks.push_back(id);
        self.stage = Stage::Expanding;
        self.cursor = None;
        proof {
            let pre = old(self)@;
            let post = self@;
            assert(post.nodes =~= pre.nodes);
            assert(post.expanding() =~= pre.expanding().insert(id));
            assert(!pre.expansion_tasks.contains_key(id));
            if pre.pending_expansion.contains(id) {
                let i = choose|i: int|
                    0 <= i < pre.pending_expansion.len() && pre.pending_expansion[i] == id;
                assert(pre.expansion_tasks.contains_key(pre.pending_expansion[i]));
            }
            lemma_queue_push(pre.pending_expansion, id);
        }
        Ok(())
    }

    /// Hands the task at the head of the expansion queue to the first idle
    /// expansion worker, with a fresh saving index for the state that the
    /// expansion leads to. The saving indices of a round are handed out in
    /// rising order, one apart. Nothing is handed out when the queue is
    /// empty, when every worker is busy, or when no saving index is left.
    pub fn dispatch_expansion(&mut self) -> (order: Option<ExpansionOrder<S>>)
        requires
            old(self).wf(),
        ensures
            final(self).wf(),
            sends_expansion(old(self)@, final(self)@, order),
    {
        if self.pending_expansion_tasks.len() == 0 || !self.exp_pool.has_idle_server()
            || self.global_saving_idx == u32::MAX {
            return None;
        }
        let task_id = self.pending_expansion_tasks.pop_front().unwrap();
        assert(old(self)@.expansion_tasks.contains_key(old(self)@.pending_expansion[0]));
        let task = self.expansion_tasks.remove(&task_id).unwrap();
        let worker = self.exp_pool.find_idle_worker().unwrap();
        let saving_idx = self.global_saving_idx;
        self.expansion_saving_idx.insert(task_id, saving_idx);
        self.global_saving_idx = self.global_saving_idx + 1;
        proof {
            let pre = old(self)@;
            let post = self@;
            assert(post.nodes =~= pre.nodes);
            lemma_queue_pop(pre.pending_expansion);
            assert forall|i: int| 0 <= i < post.pending_expansion.len() implies
                post.expansion_tasks.contains_key(#[trigger] post.pending_expansion[i]) by {
                assert(pre.expansion_tasks.contains_key(pre.pending_expansion[i + 1]));
            }
        }
        Some(ExpansionOrder { worker, task, saving_idx, task_id })
    }

    /// Takes one step of the selection from the node under the cursor:
    /// chooses the action of greatest score among those with an unsaturated
    /// child, and writes the step down at the node. Where the action ends
    /// the episode the simulation ends here: its visit is counted as
    /// started and as finished from this node up to the root, and it is
    /// counted as done. Else the cursor goes down to the action's child.
    /// `scores[a]` ranks action `a` of the node under the cursor. A node
    /// without an action to choose stops the selection, and the planner
    /// stays as it is.
    pub fn descend(&mut self, scores: &Vec<i64>) -> (went: Result<Descent, PlanError>)
        requires
            old(self).wf(),
            old(self)@.cursor is Some,
            scores@.len() == old(self)@.action_n(),
        ensures
            final(self).wf(),
            ({
                let pre = old(self)@;
                let post = final(self)@;
                let (id, at) = pre.cursor.unwrap();
                let node = pre.nodes[at as int];
                let best = node.best_action(scores@) as usize;
                let after = stepped(pre.nodes, at as int, id, best);
                if forall|a: int| !node.selectable(a) {
                    went matches Err(PlanError::NoSelectableChild) && post == pre
                } else if !node.dones[best as int] {
                    &&& went matches Ok(Descent::Child(c)) && Some(c) == node.children[best as int]
                    &&& post == (TreeView {
                        nodes: after,
                        cursor: Some((id, node.children[best as int].unwrap())),
                        ..pre
                    })
                } else {
                    &&& went matches Ok(Descent::Terminal(steps)) && steps@ == path_steps(
                        after_incomplete_walk(after, at as nat, id),
                        at as nat,
                        id,
                    )
                    &&& post == (TreeView {
                        nodes: finished_through(after, at as nat, id),
                        simulation_count: (pre.simulation_count + 1) as u32,
                        stage: Stage::Simulating,
                        cursor: None,
                        ..pre
                    })
                }
            }),
    {
        let (id, at) = self.cursor.unwrap();
        let ghost pre = self@;
        assert(self.nodes@[at as int]@ == pre.nodes[at as int]);
        let best = match self.nodes[at].select_uct_action(scores) {
            Ok(best) => best,
            Err(e) => {
                return Err(e);
            },
        };
        let reward = self.nodes[at].reward(best);
        let done = self.nodes[at].done(best);
        let child = self.nodes[at].child(best);
        let written = self.nodes[at].update_history(id, best, reward);
        let ghost after = stepped(pre.nodes, at as int, id, best);
        proof {
            assert(self@.nodes =~= after);
            lemma_arena_update(pre.nodes, at as int, after[at as int]);
            lemma_same_stepped(pre.nodes, at as int, id, best);
        }
        if !done {
            let child = child.unwrap();
            self.cursor = Some((id, child));
            proof {
                lemma_frame_others(pre, after, id);
                lemma_cursor_down(pre.nodes, at as nat, id, best, child);
            }
            return Ok(Descent::Child(child));
        }
        proof {
            lemma_recorded_path(pre.nodes, at as nat, id, after[at as int]);
            lemma_walk_started(after, at as nat, id);
        }
        self.incomplete_update(at, id);
        let steps = self.complete_update(at, id);
        self.simulation_count = self.simulation_count + 1;
        self.stage = Stage::Simulating;
        self.cursor = None;
        proof {
            let last = finished_through(after, at as nat, id);
            lemma_same_finished(after, at as nat, id);
            lemma_same_trans(pre.nodes, after, last, Some(id));
            lemma_frame_others(pre, last, id);
        }
        Ok(Descent::Terminal(steps))
    }

    /// Applies the reply of an expansion worker for simulation `task_idx`:
    /// from the node that the task was queued for, `expand_action` paid
    /// `reward` and led to the state that the worker saved, if it saved
    /// one, for `saving_idx`.
    ///
    /// The node gets the outcome and the step. Where the action ended the
    /// episode, a child that restores from `saving_idx` is hung under it,
    /// the visit is counted as started and as finished from the node up to
    /// the root, the simulation is counted as done, and the steps that it
    /// took on that way are returned. Else the snapshot is written at
    /// `saving_idx` and a rollout from it is queued under the same id.
    ///
    /// The reply must be for an expansion that was sent out and has not
    /// come back, and must name the saving index that it was sent out
    /// with. On an error the planner stays as it is.
    pub fn apply_expansion_reply(
        &mut self,
        expand_action: usize,
        reward: usize,
        done: bool,
        child_saturated: bool,
        new_checkpoint_data: Option<S>,
        saving_idx: u32,
        task_idx: u32,
    ) -> (applied: Result<Option<Vec<PathStep>>, PlanError>)
        requires
            old(self).wf(),
            expand_action < old(self)@.action_n(),
            done == new_checkpoint_data.is_none(),
        ensures
            final(self).wf(),
            ({
                let pre = old(self)@;
                let post = final(self)@;
                let at = pre.expansion_nodes[task_idx];
                if !pre.expansion_sent(task_idx) || pre.assigned[task_idx] != saving_idx {
                    applied matches Err(PlanError::UnknownTaskId) && post == pre
                } else if done && pre.nodes[at as int].children[expand_action as int] is Some {
                    applied matches Err(PlanError::ChildAlreadyExists) && post == pre
                } else if done {
                    &&& post == pre.after_final_expansion(
                        task_idx,
                        expand_action,
                        reward,
                        saving_idx,
                        child_saturated,
                    )
                    &&& applied matches Ok(Some(steps)) && steps@ == path_steps(
                        after_incomplete_walk(
                            grown(
                                replied(
                                    pre.nodes,
                                    at as int,
                                    task_idx,
                                    expand_action,
                                    reward,
                                    done,
                                ),
                                at as int,
                                expand_action,
                                saving_idx,
                                child_saturated,
                            ),
                            at as nat,
                            task_idx,
                        ),
                        at as nat,
                        task_idx,
                    )
                } else {
                    &&& applied matches Ok(None)
                    &&& post == pre.after_open_expansion(
                        task_idx,
                        expand_action,
                        reward,
                        saving_idx,
                        child_saturated,
                        new_checkpoint_data.unwrap(),
                    )
                }
            }),
    {
        let ghost pre = self@;
        let sent_with = match self.expansion_saving_idx.get(&task_idx) {
            Some(idx) => *idx,
            None => {
                return Err(PlanError::UnknownTaskId);
            },
        };
        if sent_with != saving_idx {
            return Err(PlanError::UnknownTaskId);
        }
        assert(pre.expansion_nodes.contains_key(task_idx));
        let at = *self.expansion_nodes_copy.get(&task_idx).unwrap();
        assert(self.nodes@[at as int]@ == pre.nodes[at as int]);
        let ghost told = replied(pre.nodes, at as int, task_idx, expand_action, reward, done);
        match new_checkpoint_data {
            None => {
                if self.nodes[at].child(expand_action).is_some() {
                    return Err(PlanError::ChildAlreadyExists);
                }
                if self.stage == Stage::AwaitingExpansion {
                    self.stage = Stage::Simulating;
                }
                self.nodes[at].set_outcome(expand_action, reward, done);
                let written = self.nodes[at].update_history(task_idx, expand_action, reward);
                let child = self.nodes.len();
                let added = self.nodes[at].add_child(expand_action, child, child_saturated);
                let ghost parent = self.nodes@[at as int]@;
                let action_n = self.nodes[at].action_n();
                self.nodes.push(Node::new(action_n, saving_idx, false, Some(at)));
                let size = self.nodes.len();
                self.expansion_nodes_copy.remove(&task_idx);
                self.expansion_saving_idx.remove(&task_idx);
                self.expanded = Ghost(self.expanded@.insert((at, expand_action)));
                self.simulation_count = self.simulation_count + 1;
                let ghost hung = grown(
                    told,
                    at as int,
                    expand_action,
                    saving_idx,
                    child_saturated,
                );
                proof {
                    lemma_arena_update(pre.nodes, at as int, told[at as int]);
                    assert(self@.nodes =~= hung);
                    lemma_arena_grow(
                        told,
                        at as int,
                        expand_action,
                        saving_idx,
                        child_saturated,
                        parent,
                    );
                    lemma_recorded_path(pre.nodes, at as nat, task_idx, told[at as int]);
                    lemma_same_grown(told, at as int, expand_action, saving_idx, child_saturated);
                    lemma_frame_phase(told, hung, None, at as nat, task_idx, Phase::Recorded);
                    lemma_walk_started(hung, at as nat, task_idx);
                }
                self.incomplete_update(at, task_idx);
                let steps = self.complete_update(at, task_idx);
                proof {
                    assert(self@ == pre.after_final_expansion(
                        task_idx,
                        expand_action,
                        reward,
                        saving_idx,
                        child_saturated,
                    ));
                    lemma_final_expansion_wf(
                        pre,
                        task_idx,
                        expand_action,
                        reward,
                        child_saturated,
                    );
                }
                Ok(Some(steps))
            },
            Some(snapshot) => {
                if self.stage == Stage::AwaitingExpansion {
                    self.stage = Stage::Simulating;
                }
                self.nodes[at].set_outcome(expand_action, reward, done);
                let written = self.nodes[at].update_history(task_idx, expand_action, reward);
                let stored = self.checkpoint_data_manager.checkpoint_env(saving_idx, snapshot);
                self.simulation_tasks.insert(
                    task_idx,
                    SimTask {
                        action: expand_action,
                        saving_idx,
                        action_applied: true,
                        child_saturated,
                    },
                );
                self.simulation_nodes_copy.insert(task_idx, at);
                self.pending_simulation_tasks.push_back(task_idx);
                self.expansion_nodes_copy.remove(&task_idx);
                self.expansion_saving_idx.remove(&task_idx);
                self.expanded = Ghost(self.expanded@.insert((at, expand_action)));
                proof {
                    assert(self@.nodes =~= told);
                    lemma_arena_update(pre.nodes, at as int, told[at as int]);
                    assert(self@ == pre.after_open_expansion(
                        task_idx,
                        expand_action,
                        reward,
                        saving_idx,
                        child_saturated,
                        snapshot,
                    ));
                    lemma_open_expansion_wf(
                        pre,
                        task_idx,
                        expand_action,
                        reward,
                        child_saturated,
                        snapshot,
                    );
                }
                Ok(None)
            },
        }
    }

    /// Hands the rollout at the head of the queue to the first idle rollout
    /// worker, with a copy of the snapshot to start from, and at once
    /// counts its visit as started from its node up to the root: the
    /// selections that follow see the rollout that is under way. Nothing is
    /// handed out when the queue is empty or every worker is busy.
    pub fn dispatch_simulation(&mut self) -> (order: Option<SimulationOrder<S>>) where S: Clone
        requires
            old(self).wf(),
        ensures
            final(self).wf(),
            sends_simulation(old(self)@, final(self)@, order),
    {
        let ghost pre = self@;
        if self.pending_simulation_tasks.len() == 0 || !self.sim_pool.has_idle_server() {
            return None;
        }
        let task_id = self.pending_simulation_tasks[0];
        assert(pre.simulation_tasks.contains_key(pre.pending_simulation[0]));
        assert(pre.simulation_nodes.contains_key(task_id));
        assert(pre.pending_simulation.contains(task_id));
        let task = *self.simulation_tasks.get(&task_id).unwrap();
        let at = *self.simulation_nodes_copy.get(&task_id).unwrap();
        let checkpoint_data = self.checkpoint_data_manager.retrieve(task.saving_idx).unwrap();
        let popped = self.pending_simulation_tasks.pop_front();
        let worker = self.sim_pool.find_idle_worker().unwrap();
        proof {
            assert(self@.nodes =~= pre.nodes);
        }
        self.incomplete_update(at, task_id);
        proof {
            let post = self@;
            lemma_same_incomplete_walk(pre.nodes, at as nat, task_id);
            lemma_frame_others(pre, post.nodes, task_id);
            lemma_walk_started(pre.nodes, at as nat, task_id);
            lemma_expanded_kept(pre, post);
            assert(post.store == pre.store);
            assert(post.assigned == pre.assigned);
            assert(post.global_saving_idx == pre.global_saving_idx);
            assert(post.store_wf());
            lemma_queue_pop(pre.pending_simulation);
            assert forall|i: int| 0 <= i < post.pending_simulation.len() implies
                post.simulation_tasks.contains_key(#[trigger] post.pending_simulation[i]) by {
                assert(pre.simulation_tasks.contains_key(pre.pending_simulation[i + 1]));
            }
            assert(post.stage == pre.stage && post.cursor == pre.cursor);
            assert(post.expansion_nodes == pre.expansion_nodes);
            assert(post.expansion_tasks == pre.expansion_tasks);
            assert(post.pending_expansion == pre.pending_expansion);
            assert(post.issued == pre.issued);
            assert(post.registry_wf());
            assert(post.paths_wf());
        }
        Some(SimulationOrder { worker, task, checkpoint_data, task_id })
    }

    /// Applies the return of the rollout for simulation `task_idx`: the
    /// child that the expansion led to is hung under its action, the visit
    /// is counted as finished from the node up to the root, and the
    /// simulation is counted as done. The steps that the simulation took on
    /// that way are returned, for the caller to discount the rollout's
    /// return along them.
    ///
    /// The rollout must have been sent out and not have come back. On an
    /// error the planner stays as it is.
    pub fn apply_simulation_reply(&mut self, task_idx: u32) -> (applied: Result<
        Vec<PathStep>,
        PlanError,
    >)
        requires
            old(self).wf(),
        ensures
            final(self).wf(),
            ({
                let pre = old(self)@;
                let post = final(self)@;
                let at = pre.simulation_nodes[task_idx];
                let task = pre.simulation_tasks[task_idx];
                if !pre.simulation_sent(task_idx) {
                    applied matches Err(PlanError::UnknownTaskId) && post == pre
                } else if pre.nodes[at as int].children[task.action as int] is Some {
                    applied matches Err(PlanError::ChildAlreadyExists) && post == pre
                } else {
                    &&& post == pre.after_simulation_reply(task_idx)
                    &&& applied matches Ok(steps) && steps@ == path_steps(
                        pre.with_child_of(task_idx),
                        at as nat,
                        task_idx,
                    )
                }
            }),
    {
        let ghost pre = self@;
        let task = match self.simulation_tasks.get(&task_idx) {
            Some(task) => *task,
            None => {
                return Err(PlanError::UnknownTaskId);
            },
        };
        if queued(&self.pending_simulation_tasks, task_idx) {
            return Err(PlanError::UnknownTaskId);
        }
        assert(pre.simulation_nodes.contains_key(task_idx));
        let at = *self.simulation_nodes_copy.get(&task_idx).unwrap();
        assert(self.nodes@[at as int]@ == pre.nodes[at as int]);
        if self.nodes[at].child(task.action).is_some() {
            return Err(PlanError::ChildAlreadyExists);
        }
        let child = self.nodes.len();
        let added = self.nodes[at].add_child(task.action, child, task.child_saturated);
        let ghost parent = self.nodes@[at as int]@;
        let action_n = self.nodes[at].action_n();
        self.nodes.push(Node::new(action_n, task.saving_idx, false, Some(at)));
        let size = self.nodes.len();
        self.simulation_tasks.remove(&task_idx);
        self.simulation_nodes_copy.remove(&task_idx);
        self.simulation_count = self.simulation_count + 1;
        if self.stage == Stage::AwaitingSimulation {
            self.stage = Stage::Idle;
        }
        let ghost hung = pre.with_child_of(task_idx);
        proof {
            assert(self@.nodes =~= hung);
            lemma_arena_grow(
                pre.nodes,
                at as int,
                task.action,
                task.saving_idx,
                task.child_saturated,
                parent,
            );
            lemma_same_grown(
                pre.nodes,
                at as int,
                task.action,
                task.saving_idx,
                task.child_saturated,
            );
            lemma_frame_phase(pre.nodes, hung, None, at as nat, task_idx, Phase::Started);
        }
        let steps = self.complete_update(at, task_idx);
        proof {
            assert(self@ == pre.after_simulation_reply(task_idx));
            lemma_simulation_reply_wf(pre, task_idx);
        }
        Ok(steps)
    }

    /// Takes the round one move further and says what its driver does
    /// next. What needs no driver is done on the way: a simulation begins,
    /// a selection ends with an expansion, a task is taken from its queue
    /// for a worker. The driver sends what it is handed, ranks the actions
    /// of a node for `descend`, and brings in the reply that is waited
    /// for, for `apply_expansion_reply` or `apply_simulation_reply`.
    pub fn advance(&mut self) -> (moved: Result<Move<S>, PlanError>) where S: Clone
        requires
            old(self).wf(),
        ensures
            final(self).wf(),
            advances(old(self)@, final(self)@, moved),
    {
        match self.stage {
            Stage::Idle => {
                match self.begin_simulation() {
                    Some(_) => Ok(Move::Again),
                    None => Ok(Move::Finish),
                }
            },
            Stage::Selecting => {
                if self.decide_expansion() {
                    match self.enqueue_expansion() {
                        Ok(()) => Ok(Move::Again),
                        Err(e) => Err(e),
                    }
                } else {
                    Ok(Move::Score(self.cursor.unwrap().1))
                }
            },
            Stage::Expanding => {
                match self.dispatch_expansion() {
                    Some(order) => Ok(Move::SendExpansion(order)),
                    None => {
                        if self.exp_pool.is_saturated() {
                            self.stage = Stage::AwaitingExpansion;
                            proof {
                                assert(self@.nodes =~= old(self)@.nodes);
                                lemma_stage_change(old(self)@, self@);
                            }
                            Ok(Move::CollectExpansion)
                        } else {
                            self.stage = Stage::Simulating;
                            proof {
                                assert(self@.nodes =~= old(self)@.nodes);
                                lemma_stage_change(old(self)@, self@);
                            }
                            Ok(Move::Again)
                        }
                    },
                }
            },
            Stage::AwaitingExpansion => Ok(Move::CollectExpansion),
            Stage::Simulating => {
                match self.dispatch_simulation() {
                    Some(order) => Ok(Move::SendSimulation(order)),
                    None => {
                        if self.sim_pool.is_saturated() {
                            self.stage = Stage::AwaitingSimulation;
                            proof {
                                assert(self@.nodes =~= old(self)@.nodes);
                                lemma_stage_change(old(self)@, self@);
                            }
                            Ok(Move::CollectSimulation)
                        } else {
                            self.stage = Stage::Idle;
                            proof {
                                assert(self@.nodes =~= old(self)@.nodes);
                                lemma_stage_change(old(self)@, self@);
                            }
                            Ok(Move::Again)
                        }
                    },
                }
            },
            Stage::AwaitingSimulation => Ok(Move::CollectSimulation),
        }
    }

    /// The stage of the step that is under way.
    pub fn stage(&self) -> (stage: Stage)
        ensures
            stage == self@.stage,
    {
        self.stage
    }
}

} // verus!
