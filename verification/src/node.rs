//! One state of the search tree: what each action led to, how often it was
//! started and finished, and which simulations passed through.
use crate::counting::{
    lemma_none_set, lemma_positives_full, lemma_positives_update, lemma_total_bounds,
    lemma_total_update, lemma_trues_bound, lemma_trues_update, lemma_zeros, positives, total,
    trues,
};
use crate::chance::random_below;
use crate::error::PlanError;
use std::collections::HashMap;
use vstd::prelude::*;
use vstd::set_lib::lemma_len_subset;

verus! {

broadcast use vstd::std_specs::hash::group_hash_axioms;

/// How far a simulation has come at one node.
#[derive(Clone, Copy, Debug, PartialEq, Eq, Structural)]
pub enum Phase {
    /// The step was written down on the way down.
    Recorded,
    /// The visit was counted as started.
    Started,
    /// The visit was counted as finished.
    Completed,
}

/// The step that one simulation took at one node.
#[derive(Clone, Copy, Debug, PartialEq, Eq, Structural)]
pub struct Visit {
    pub action: usize,
    pub reward: usize,
    pub phase: Phase,
}

/// The mathematical content of a node.
pub struct NodeView {
    /// The branching factor: the number of rewrite rules.
    pub action_n: usize,
    /// The saving index of the snapshot to restore before a step from here.
    pub checkpoint_idx: u32,
    /// The index of the node above; the root has none.
    pub parent: Option<usize>,
    /// Whether this is the root of the round.
    pub is_head: bool,
    /// The index of the child under each action, where one was added.
    pub children: Seq<Option<usize>>,
    /// What one step of each action paid when it was expanded.
    pub rewards: Seq<usize>,
    /// Whether one step of each action ended the episode.
    pub dones: Seq<bool>,
    /// The number of simulations that have started through each action.
    pub visit_count: Seq<u64>,
    /// The number of simulations that have returned through each action.
    pub complete_count: Seq<u64>,
    /// Whether the engine found nothing more to rewrite under each action.
    pub saturated: Seq<bool>,
    /// The number of simulations that have started through the node.
    pub visit_total: u64,
    /// The number of actions that a simulation has started through.
    pub visited_actions: usize,
    /// The number of actions that a simulation has returned through.
    pub updated_actions: usize,
    /// The number of saturated actions.
    pub saturated_count: usize,
    /// The step that each simulation took here.
    pub history: Map<u32, Visit>,
}

impl NodeView {
    /// The simulations that have started through `a` and not yet returned.
    pub open spec fn pending(self, a: int) -> Set<u32> {
        self.history.dom().filter(
            |id: u32| self.history[id].phase == Phase::Started && self.history[id].action == a,
        )
    }

    /// The simulations whose visit of this node has been counted.
    pub open spec fn begun(self) -> Set<u32> {
        self.history.dom().filter(|id: u32| self.history[id].phase != Phase::Recorded)
    }

    /// The per-action vectors have the length of the branching factor.
    pub open spec fn shaped(self) -> bool {
        &&& self.children.len() == self.action_n
        &&& self.rewards.len() == self.action_n
        &&& self.dones.len() == self.action_n
        &&& self.visit_count.len() == self.action_n
        &&& self.complete_count.len() == self.action_n
        &&& self.saturated.len() == self.action_n
    }

    /// What holds of every node at every time.
    pub open spec fn wf(self) -> bool {
        &&& self.shaped()
        &&& self.visit_total == total(self.visit_count)
        &&& self.visited_actions == positives(self.visit_count)
        &&& self.updated_actions == positives(self.complete_count)
        &&& self.saturated_count == trues(self.saturated)
        &&& self.history.dom().finite()
        &&& self.visit_total == self.begun().len()
        &&& forall|id: u32| #[trigger]
            self.history.contains_key(id) ==> self.history[id].action < self.action_n
        &&& forall|a: int|
            0 <= a < self.action_n ==> #[trigger] self.complete_count[a] <= self.visit_count[a]
        &&& forall|a: int|
            0 <= a < self.action_n ==> self.visit_count[a] - self.complete_count[a]
                == #[trigger] self.pending(a).len()
        &&& forall|a: int|
            0 <= a < self.action_n && #[trigger] self.saturated[a] ==> self.children[a].is_some()
    }

    /// A child stands under `a` and the engine can still rewrite below it.
    pub open spec fn selectable(self, a: int) -> bool {
        &&& 0 <= a < self.action_n
        &&& self.children[a].is_some()
        &&& !self.saturated[a]
    }

    /// Every action has been started at least once.
    pub open spec fn all_child_visited(self) -> bool {
        self.visited_actions == self.action_n
    }

    /// No action has a finished visit, or as many have one as are
    /// saturated.
    pub open spec fn no_child_available(self) -> bool {
        self.updated_actions == 0 || self.updated_actions == self.saturated_count
    }

    /// Simulation `id` has a step here, and the step is in `phase`.
    pub open spec fn in_phase(self, id: u32, phase: Phase) -> bool {
        self.history.contains_key(id) && self.history[id].phase == phase
    }

    /// Simulation `id` has written its step here and the visit is not yet
    /// counted.
    pub open spec fn awaits_start(self, id: u32) -> bool {
        self.history.contains_key(id) && self.history[id].phase == Phase::Recorded
    }

    /// The visit of simulation `id` is counted as started and not yet as
    /// finished.
    pub open spec fn awaits_finish(self, id: u32) -> bool {
        self.history.contains_key(id) && self.history[id].phase == Phase::Started
    }

    /// The node after simulation `id` wrote down that it took `action` here
    /// and was paid `reward` for it.
    pub open spec fn after_record(self, id: u32, action: usize, reward: usize) -> NodeView {
        NodeView {
            history: self.history.insert(id, Visit { action, reward, phase: Phase::Recorded }),
            ..self
        }
    }

    /// The node after the visit of simulation `id` was counted as started.
    pub open spec fn after_incomplete(self, id: u32) -> NodeView {
        let step = self.history[id];
        let a = step.action as int;
        NodeView {
            visit_count: self.visit_count.update(a, (self.visit_count[a] + 1) as u64),
            visit_total: (self.visit_total + 1) as u64,
            visited_actions: if self.visit_count[a] == 0 {
                (self.visited_actions + 1) as usize
            } else {
                self.visited_actions
            },
            history: self.history.insert(id, Visit { phase: Phase::Started, ..step }),
            ..self
        }
    }

    /// The node after the visit of simulation `id` was counted as finished.
    pub open spec fn after_complete(self, id: u32) -> NodeView {
        let step = self.history[id];
        let a = step.action as int;
        NodeView {
            complete_count: self.complete_count.update(a, (self.complete_count[a] + 1) as u64),
            updated_actions: if self.complete_count[a] == 0 {
                (self.updated_actions + 1) as usize
            } else {
                self.updated_actions
            },
            history: self.history.insert(id, Visit { phase: Phase::Completed, ..step }),
            ..self
        }
    }

    /// The node after `child` was put under `action`, marked as saturated
    /// or not.
    pub open spec fn after_add_child(self, action: usize, child: usize, saturated: bool)
        -> NodeView {
        NodeView {
            children: self.children.update(action as int, Some(child)),
            saturated: if saturated {
                self.saturated.update(action as int, true)
            } else {
                self.saturated
            },
            saturated_count: if saturated {
                (self.saturated_count + 1) as usize
            } else {
                self.saturated_count
            },
            ..self
        }
    }

    /// The node after the one-step outcome of `action` was written.
    pub open spec fn after_outcome(self, action: usize, reward: usize, done: bool) -> NodeView {
        NodeView {
            rewards: self.rewards.update(action as int, reward),
            dones: self.dones.update(action as int, done),
            ..self
        }
    }

    /// The action that `is_best` singles out, where there is one.
    pub open spec fn best_action(self, scores: Seq<i64>) -> int {
        choose|a: int| self.is_best(scores, a)
    }

    /// `best` is selectable, no selectable action has a greater score, and
    /// none before it has the same.
    pub open spec fn is_best(self, scores: Seq<i64>, best: int) -> bool {
        &&& self.selectable(best)
        &&& forall|a: int| #[trigger] self.selectable(a) ==> scores[a] <= scores[best]
        &&& forall|a: int| #[trigger] self.selectable(a) && a < best ==> scores[a] < scores[best]
    }
}

/// At every node and for every action, no more visits are finished than
/// started, and no more started through one action than through the node.
pub proof fn lemma_counts_ordered(node: NodeView, a: int)
    requires
        node.wf(),
        0 <= a < node.action_n,
    ensures
        0 <= node.complete_count[a] <= node.visit_count[a] <= node.visit_total,
{
    lemma_total_bounds(node.visit_count, a);
}

/// The visits started through the actions of a node add up to the visits
/// started through the node.
pub proof fn lemma_visits_add_up(node: NodeView)
    requires
        node.wf(),
    ensures
        total(node.visit_count) == node.visit_total,
{
}

/// The visits of an action that are started and not finished are those of
/// the simulations that are under way through it.
pub proof fn lemma_pending_visits(node: NodeView, a: int)
    requires
        node.wf(),
        0 <= a < node.action_n,
    ensures
        node.visit_count[a] - node.complete_count[a] == node.pending(a).len(),
{
}

/// Counting a visit as started adds one to the visits that the action and
/// the node have started, and nothing to those that are finished.
pub proof fn lemma_incomplete_counts(node: NodeView, id: u32)
    requires
        node.wf(),
        node.awaits_start(id),
        node.after_incomplete(id).wf(),
    ensures
        node.after_incomplete(id).visit_total == node.visit_total + 1,
        node.after_incomplete(id).visit_count[node.history[id].action as int]
            == node.visit_count[node.history[id].action as int] + 1,
        node.after_incomplete(id).complete_count == node.complete_count,
        node.after_incomplete(id).in_phase(id, Phase::Started),
{
    let after = node.after_incomplete(id);
    let a = node.history[id].action as int;
    assert(node.history.contains_key(id));
    assert(after.begun() =~= node.begun().insert(id));
    assert(after.pending(a) =~= node.pending(a).insert(id));
    assert(node.visit_count[a] - node.complete_count[a] == node.pending(a).len());
    assert(after.visit_count[a] - after.complete_count[a] == after.pending(a).len());
}

/// Counting a visit as finished adds one to the visits that the action has
/// finished, and nothing to those that it or the node has started.
pub proof fn lemma_complete_counts(node: NodeView, id: u32)
    requires
        node.wf(),
        node.awaits_finish(id),
        node.after_complete(id).wf(),
    ensures
        node.after_complete(id).complete_count[node.history[id].action as int]
            == node.complete_count[node.history[id].action as int] + 1,
        node.after_complete(id).visit_count == node.visit_count,
        node.after_complete(id).visit_total == node.visit_total,
        node.after_complete(id).in_phase(id, Phase::Completed),
{
    let after = node.after_complete(id);
    let a = node.history[id].action as int;
    assert(node.history.contains_key(id));
    assert(after.pending(a) =~= node.pending(a).remove(id));
    assert(node.pending(a).contains(id));
    assert(node.visit_count[a] - node.complete_count[a] == node.pending(a).len());
    assert(after.visit_count[a] - after.complete_count[a] == after.pending(a).len());
}

/// A node that was just made has no action to select.
pub proof fn lemma_fresh_unselectable(
    action_n: usize,
    checkpoint_idx: u32,
    is_head: bool,
    parent: Option<usize>,
    a: int,
)
    ensures
        !fresh_view(action_n, checkpoint_idx, is_head, parent).selectable(a),
{
}

/// At most one action is the best.
pub proof fn lemma_best_unique(node: NodeView, scores: Seq<i64>, a: int, b: int)
    requires
        node.is_best(scores, a),
        node.is_best(scores, b),
    ensures
        a == b,
        node.best_action(scores) == a,
{
    assert(node.selectable(a) && node.selectable(b));
    if a < b {
        assert(scores[a] < scores[b]);
        assert(scores[b] <= scores[a]);
    }
    if b < a {
        assert(scores[b] < scores[a]);
        assert(scores[a] <= scores[b]);
    }
    let c = node.best_action(scores);
    assert(node.is_best(scores, c));
    assert(node.selectable(c));
    if a < c {
        assert(scores[a] < scores[c]);
        assert(scores[c] <= scores[a]);
    }
    if c < a {
        assert(scores[c] < scores[a]);
        assert(scores[a] <= scores[c]);
    }
}

/// A fresh node has counted nothing.
pub open spec fn fresh_view(
    action_n: usize,
    checkpoint_idx: u32,
    is_head: bool,
    parent: Option<usize>,
) -> NodeView {
    NodeView {
        action_n,
        checkpoint_idx,
        parent,
        is_head,
        children: Seq::new(action_n as nat, |a: int| None::<usize>),
        rewards: Seq::new(action_n as nat, |a: int| 0usize),
        dones: Seq::new(action_n as nat, |a: int| false),
        visit_count: Seq::new(action_n as nat, |a: int| 0u64),
        complete_count: Seq::new(action_n as nat, |a: int| 0u64),
        saturated: Seq::new(action_n as nat, |a: int| false),
        visit_total: 0,
        visited_actions: 0,
        updated_actions: 0,
        saturated_count: 0,
        history: Map::<u32, Visit>::empty(),
    }
}

/// A fresh node is well formed.
pub proof fn lemma_fresh_wf(
    action_n: usize,
    checkpoint_idx: u32,
    is_head: bool,
    parent: Option<usize>,
)
    ensures
        fresh_view(action_n, checkpoint_idx, is_head, parent).wf(),
{
    let v = fresh_view(action_n, checkpoint_idx, is_head, parent);
    lemma_zeros(v.visit_count);
    lemma_zeros(v.complete_count);
    lemma_none_set(v.saturated);
    assert(v.begun() =~= Set::<u32>::empty());
    assert forall|a: int| 0 <= a < v.action_n implies v.visit_count[a] - v.complete_count[a]
        == #[trigger] v.pending(a).len() by {
        assert(v.pending(a) =~= Set::<u32>::empty());
    }
}

/// What a worker sees of a node: enough to pick an action to expand, and
/// no reference into the tree.
#[derive(Debug, Clone)]
pub struct NodeStub {
    pub action_n: usize,
    pub is_head: bool,
    pub children_visit_count: Vec<u64>,
}

/// The number of random draws after which `select_expansion_action` takes
/// what it drew last.
pub const SAMPLE_LIMIT: usize = 20;

impl NodeStub {
    /// There is one visit count for each action.
    pub open spec fn wf(&self) -> bool {
        self.children_visit_count@.len() == self.action_n
    }

    /// `draws` is a run of actions of this node.
    pub open spec fn draws_valid(&self, draws: Seq<usize>) -> bool {
        &&& draws.len() > 0
        &&& forall|i: int| 0 <= i < draws.len() ==> #[trigger] draws[i] < self.action_n
    }

    /// Draw `k` is the one to take from `draws`: every draw before it fell
    /// on an action already started, and it is the first that did not, or
    /// the last of all.
    pub open spec fn takes(&self, draws: Seq<usize>, k: int) -> bool {
        &&& 0 <= k < draws.len()
        &&& forall|i: int|
            0 <= i < k ==> self.children_visit_count@[#[trigger] draws[i] as int] > 0
        &&& self.children_visit_count@[draws[k] as int] == 0 || k == draws.len() - 1
    }

    /// The action to expand, given what was drawn: the first draw that no
    /// simulation has started through, or else the last draw.
    pub fn pick_expansion_action(&self, draws: &Vec<usize>) -> (action: usize)
        requires
            self.wf(),
            self.draws_valid(draws@),
        ensures
            action < self.action_n,
            exists|k: int| self.takes(draws@, k) && action == draws@[k],
    {
        let mut k: usize = 0;
        while k < draws.len() - 1 && self.children_visit_count[draws[k]] > 0
            invariant
                self.wf(),
                self.draws_valid(draws@),
                k < draws@.len(),
                forall|i: int|
                    0 <= i < k ==> self.children_visit_count@[#[trigger] draws@[i] as int] > 0,
            decreases draws@.len() - k,
        {
            k += 1;
        }
        assert(self.takes(draws@, k as int));
        draws[k]
    }

    /// Picks an action to expand at random, with a preference for one that
    /// no simulation has started through: draws uniformly, up to
    /// `SAMPLE_LIMIT` times, and takes the first draw that falls on such an
    /// action, or else the last draw.
    pub fn select_expansion_action(&self) -> (action: usize)
        requires
            self.wf(),
            self.action_n > 0,
        ensures
            action < self.action_n,
            exists|draws: Seq<usize>|
                #![trigger self.draws_valid(draws)]
                {
                    &&& self.draws_valid(draws)
                    &&& draws.len() <= SAMPLE_LIMIT
                    &&& self.takes(draws, draws.len() - 1)
                    &&& action == draws.last()
                    &&& self.children_visit_count@[action as int] == 0 || draws.len()
                        == SAMPLE_LIMIT
                },
    {
        let mut rng = rand::thread_rng();
        let mut action = random_below(&mut rng, self.action_n);
        let mut cnt: usize = 1;
        let ghost mut draws: Seq<usize> = seq![action];
        while cnt < SAMPLE_LIMIT && self.children_visit_count[action] > 0
            invariant
                self.wf(),
                self.action_n > 0,
                1 <= cnt <= SAMPLE_LIMIT,
                draws.len() == cnt,
                self.draws_valid(draws),
                action == draws.last(),
                forall|i: int|
                    0 <= i < cnt - 1 ==> self.children_visit_count@[#[trigger] draws[i] as int]
                        > 0,
            decreases SAMPLE_LIMIT - cnt,
        {
            action = random_below(&mut rng, self.action_n);
            cnt += 1;
            proof {
                draws = draws.push(action);
            }
        }
        assert(self.takes(draws, draws.len() - 1));
        action
    }
}

/// One state of the search tree.
pub struct Node {
    action_n: usize,
    checkpoint_idx: u32,
    parent: Option<usize>,
    is_head: bool,
    children: Vec<Option<usize>>,
    rewards: Vec<usize>,
    dones: Vec<bool>,
    children_visit_count: Vec<u64>,
    children_complete_visit_count: Vec<u64>,
    children_saturated: Vec<bool>,
    children_saturated_cnt: usize,
    visit_count: u64,
    traverse_history: HashMap<u32, Visit>,
    visited_node_count: usize,
    updated_node_count: usize,
}

impl View for Node {
    type V = NodeView;

    closed spec fn view(&self) -> NodeView {
        NodeView {
            action_n: self.action_n,
            checkpoint_idx: self.checkpoint_idx,
            parent: self.parent,
            is_head: self.is_head,
            children: self.children@,
            rewards: self.rewards@,
            dones: self.dones@,
            visit_count: self.children_visit_count@,
            complete_count: self.children_complete_visit_count@,
            saturated: self.children_saturated@,
            visit_total: self.visit_count,
            visited_actions: self.visited_node_count,
            updated_actions: self.updated_node_count,
            saturated_count: self.children_saturated_cnt,
            history: self.traverse_history@,
        }
    }
}

/// A vector of `n` copies of `value`.
fn filled<T: Copy>(value: T, n: usize) -> (v: Vec<T>)
    ensures
        v@ == Seq::new(n as nat, |a: int| value),
{
    let mut v: Vec<T> = Vec::new();
    let mut i: usize = 0;
    while i < n
        invariant
            i <= n,
            v@ == Seq::new(i as nat, |a: int| value),
        decreases n - i,
    {
        v.push(value);
        i += 1;
        assert(v@ =~= Seq::new(i as nat, |a: int| value));
    }
    v
}

impl Node {
    /// What holds of every node at every time.
    pub open spec fn wf(&self) -> bool {
        self@.wf()
    }

    /// A node with `action_n` actions, none of them tried, that restores
    /// from the snapshot at `checkpoint_idx`.
    pub fn new(action_n: usize, checkpoint_idx: u32, is_head: bool, parent: Option<usize>) -> (node:
        Self)
        ensures
            node@ == fresh_view(action_n, checkpoint_idx, is_head, parent),
            node.wf(),
    {
        proof {
            lemma_fresh_wf(action_n, checkpoint_idx, is_head, parent);
        }
        Node {
            action_n,
            checkpoint_idx,
            parent,
            is_head,
            children: filled(None, action_n),
            rewards: filled(0usize, action_n),
            dones: filled(false, action_n),
            children_visit_count: filled(0u64, action_n),
            children_complete_visit_count: filled(0u64, action_n),
            children_saturated: filled(false, action_n),
            children_saturated_cnt: 0,
            visit_count: 0,
            traverse_history: HashMap::new(),
            visited_node_count: 0,
            updated_node_count: 0,
        }
    }

    /// The placeholder that stands for a tree before its first round: a
    /// node without actions.
    pub fn dummy() -> (node: Self)
        ensures
            node@ == fresh_view(0, 0, false, None),
            node.wf(),
    {
        Node::new(0, 0, false, None)
    }

    /// Every action has been started at least once.
    pub fn all_child_visited(&self) -> (all: bool)
        requires
            self.wf(),
        ensures
            all == self@.all_child_visited(),
            all == (forall|a: int| 0 <= a < self@.action_n ==> self@.visit_count[a] > 0),
    {
        proof {
            lemma_positives_full(self@.visit_count);
        }
        self.visited_node_count == self.action_n
    }

    /// Whether simulation `idx` has written down a step at this node.
    pub fn has_visit(&self, idx: u32) -> (held: bool)
        ensures
            held == self@.history.contains_key(idx),
    {
        self.traverse_history.contains_key(&idx)
    }

    /// The step that simulation `idx` took at this node, if it took one.
    pub fn visit(&self, idx: u32) -> (step: Option<Visit>)
        ensures
            step == if self@.history.contains_key(idx) {
                Some(self@.history[idx])
            } else {
                None
            },
    {
        match self.traverse_history.get(&idx) {
            Some(step) => Some(*step),
            None => None,
        }
    }

    /// Writes down that simulation `idx` took `action_taken` at this node
    /// and was paid `reward` for it. A simulation writes one step per node:
    /// a second one is refused and changes nothing.
    pub fn update_history(&mut self, idx: u32, action_taken: usize, reward: usize) -> (written:
        Result<(), PlanError>)
        requires
            old(self).wf(),
            action_taken < old(self)@.action_n,
        ensures
            final(self).wf(),
            old(self)@.history.contains_key(idx) ==> written == Err::<(), PlanError>(
                PlanError::DuplicateTaskId,
            ) && final(self)@ == old(self)@,
            !old(self)@.history.contains_key(idx) ==> written.is_ok() && final(self)@ == old(
                self,
            )@.after_record(idx, action_taken, reward),
    {
        if self.traverse_history.contains_key(&idx) {
            return Err(PlanError::DuplicateTaskId);
        }
        self.traverse_history.insert(
            idx,
            Visit { action: action_taken, reward, phase: Phase::Recorded },
        );
        proof {
            let pre = old(self)@;
            let post = self@;
            assert(post == pre.after_record(idx, action_taken, reward));
            assert(post.begun() =~= pre.begun());
            assert forall|a: int| 0 <= a < post.action_n implies post.visit_count[a]
                - post.complete_count[a] == #[trigger] post.pending(a).len() by {
                assert(post.pending(a) =~= pre.pending(a));
            }
        }
        Ok(())
    }

    /// Counts the visit of simulation `idx` as started: the action it took
    /// here and the node as a whole have one more visit. The simulation
    /// must have written its step and not have been counted yet; else the
    /// call is refused and changes nothing.
    pub fn update_incomplete(&mut self, idx: u32) -> (counted: Result<(), PlanError>)
        requires
            old(self).wf(),
        ensures
            final(self).wf(),
            old(self)@.awaits_start(idx) ==> counted.is_ok() && final(self)@ == old(
                self,
            )@.after_incomplete(idx),
            !old(self)@.awaits_start(idx) ==> counted == Err::<(), PlanError>(
                PlanError::UnknownTaskId,
            ) && final(self)@ == old(self)@,
    {
        let step = match self.traverse_history.get(&idx) {
            Some(step) => *step,
            None => {
                return Err(PlanError::UnknownTaskId);
            },
        };
        match step.phase {
            Phase::Recorded => {},
            _ => {
                return Err(PlanError::UnknownTaskId);
            },
        }
        let action_taken = step.action;
        let recorded = self.traverse_history.len();
        proof {
            let pre = old(self)@;
            lemma_total_bounds(pre.visit_count, action_taken as int);
            assert(pre.begun().subset_of(pre.history.dom().remove(idx)));
            lemma_len_subset(pre.begun(), pre.history.dom().remove(idx));
            lemma_total_update(
                pre.visit_count,
                action_taken as int,
                (pre.visit_count[action_taken as int] + 1) as u64,
            );
            lemma_positives_update(
                pre.visit_count,
                action_taken as int,
                (pre.visit_count[action_taken as int] + 1) as u64,
            );
            lemma_positives_full(
                pre.visit_count.update(
                    action_taken as int,
                    (pre.visit_count[action_taken as int] + 1) as u64,
                ),
            );
        }
        if self.children_visit_count[action_taken] == 0 {
            self.visited_node_count += 1;
        }
        let seen = self.children_visit_count[action_taken];
        self.children_visit_count.set(action_taken, seen + 1);
        self.visit_count += 1;
        self.traverse_history.insert(idx, Visit { phase: Phase::Started, ..step });
        proof {
            let pre = old(self)@;
            let post = self@;
            assert(post == pre.after_incomplete(idx));
            assert(post.begun() =~= pre.begun().insert(idx));
            assert forall|a: int| 0 <= a < post.action_n implies post.visit_count[a]
                - post.complete_count[a] == #[trigger] post.pending(a).len() by {
                if a == action_taken {
                    assert(post.pending(a) =~= pre.pending(a).insert(idx));
                } else {
                    assert(post.pending(a) =~= pre.pending(a));
                }
            }
        }
        Ok(())
    }

    /// Counts the visit of simulation `idx` as finished and hands back the
    /// action it took here and the reward that the action paid, for the
    /// caller to discount. The visit must have been counted as started and
    /// not yet as finished; else the call is refused and changes nothing.
    pub fn update_complete(&mut self, idx: u32) -> (step: Result<(usize, usize), PlanError>)
        requires
            old(self).wf(),
        ensures
            final(self).wf(),
            old(self)@.awaits_finish(idx) ==> step == Ok::<(usize, usize), PlanError>(
                (old(self)@.history[idx].action, old(self)@.history[idx].reward),
            ) && final(self)@ == old(self)@.after_complete(idx),
            !old(self)@.awaits_finish(idx) ==> step == Err::<(usize, usize), PlanError>(
                PlanError::UnknownTaskId,
            ) && final(self)@ == old(self)@,
    {
        let step = match self.traverse_history.get(&idx) {
            Some(step) => *step,
            None => {
                return Err(PlanError::UnknownTaskId);
            },
        };
        match step.phase {
            Phase::Started => {},
            _ => {
                return Err(PlanError::UnknownTaskId);
            },
        }
        let action_taken = step.action;
        proof {
            let pre = old(self)@;
            assert(pre.pending(action_taken as int).contains(idx));
            assert(pre.pending(action_taken as int).len() > 0);
            lemma_positives_update(
                pre.complete_count,
                action_taken as int,
                (pre.complete_count[action_taken as int] + 1) as u64,
            );
            lemma_positives_full(
                pre.complete_count.update(
                    action_taken as int,
                    (pre.complete_count[action_taken as int] + 1) as u64,
                ),
            );
        }
        if self.children_complete_visit_count[action_taken] == 0 {
            self.updated_node_count += 1;
        }
        let finished = self.children_complete_visit_count[action_taken];
        self.children_complete_visit_count.set(action_taken, finished + 1);
        self.traverse_history.insert(idx, Visit { phase: Phase::Completed, ..step });
        proof {
            let pre = old(self)@;
            let post = self@;
            assert(post == pre.after_complete(idx));
            assert(post.begun() =~= pre.begun());
            assert forall|a: int| 0 <= a < post.action_n implies post.visit_count[a]
                - post.complete_count[a] == #[trigger] post.pending(a).len() by {
                if a == action_taken {
                    assert(post.pending(a) =~= pre.pending(a).remove(idx));
                } else {
                    assert(post.pending(a) =~= pre.pending(a));
                }
            }
        }
        Ok((action_taken, step.reward))
    }

    /// Puts the node at index `child` of the tree under `expand_action`,
    /// and marks the branch as saturated if the engine found nothing more to
    /// rewrite there. An action holds one child: a second one is refused and
    /// changes nothing.
    pub fn add_child(&mut self, expand_action: usize, child: usize, child_saturated: bool) -> (added:
        Result<(), PlanError>)
        requires
            old(self).wf(),
            expand_action < old(self)@.action_n,
        ensures
            final(self).wf(),
            old(self)@.children[expand_action as int].is_some() ==> added == Err::<(), PlanError>(
                PlanError::ChildAlreadyExists,
            ) && final(self)@ == old(self)@,
            old(self)@.children[expand_action as int].is_none() ==> added.is_ok() && final(self)@
                == old(self)@.after_add_child(expand_action, child, child_saturated),
    {
        if self.children[expand_action].is_some() {
            return Err(PlanError::ChildAlreadyExists);
        }
        proof {
            let pre = old(self)@;
            assert(!pre.saturated[expand_action as int]);
            lemma_trues_update(pre.saturated, expand_action as int, true);
            lemma_trues_bound(pre.saturated.update(expand_action as int, true));
        }
        if child_saturated {
            self.children_saturated.set(expand_action, true);
            self.children_saturated_cnt += 1;
        }
        self.children.set(expand_action, Some(child));
        proof {
            let pre = old(self)@;
            let post = self@;
            assert(post == pre.after_add_child(expand_action, child, child_saturated));
            assert(post.begun() =~= pre.begun());
            assert forall|a: int| 0 <= a < post.action_n implies post.visit_count[a]
                - post.complete_count[a] == #[trigger] post.pending(a).len() by {
                assert(post.pending(a) =~= pre.pending(a));
            }
        }
        Ok(())
    }

    /// Writes what one step of `action` from this state paid and whether it
    /// ended the episode.
    pub fn set_outcome(&mut self, action: usize, reward: usize, done: bool)
        requires
            old(self).wf(),
            action < old(self)@.action_n,
        ensures
            final(self).wf(),
            final(self)@ == old(self)@.after_outcome(action, reward, done),
    {
        self.rewards.set(action, reward);
        self.dones.set(action, done);
        proof {
            let pre = old(self)@;
            let post = self@;
            assert(post.begun() =~= pre.begun());
            assert forall|a: int| 0 <= a < post.action_n implies post.visit_count[a]
                - post.complete_count[a] == #[trigger] post.pending(a).len() by {
                assert(post.pending(a) =~= pre.pending(a));
            }
        }
    }

    /// The action to follow from this node: among the actions that have an
    /// unsaturated child, the one of greatest score, and of these the
    /// first. `scores[a]` ranks action `a`; the caller computes it from the
    /// value estimates, which this crate does not hold.
    pub fn select_uct_action(&self, scores: &Vec<i64>) -> (chosen: Result<usize, PlanError>)
        requires
            self.wf(),
            scores@.len() == self@.action_n,
        ensures
            match chosen {
                Ok(best) => self@.is_best(scores@, best as int) && best
                    == self@.best_action(scores@),
                Err(e) => e == PlanError::NoSelectableChild && forall|a: int|
                    !self@.selectable(a),
            },
    {
        let mut best: Option<usize> = None;
        let mut action: usize = 0;
        while action < self.action_n
            invariant
                self.wf(),
                scores@.len() == self@.action_n,
                self.action_n == self@.action_n,
                self.children@ == self@.children,
                self.children_saturated@ == self@.saturated,
                action <= self.action_n,
                match best {
                    Some(b) => {
                        &&& b < action
                        &&& self@.selectable(b as int)
                        &&& forall|a: int|
                            #[trigger] self@.selectable(a) && a < action ==> scores@[a]
                                <= scores@[b as int]
                        &&& forall|a: int|
                            #[trigger] self@.selectable(a) && a < b ==> scores@[a]
                                < scores@[b as int]
                    },
                    None => forall|a: int| #[trigger] self@.selectable(a) ==> a >= action,
                },
            decreases self.action_n - action,
        {
            if self.children[action].is_some() && !self.children_saturated[action] {
                match best {
                    Some(b) => {
                        if scores[action] > scores[b] {
                            best = Some(action);
                        }
                    },
                    None => {
                        best = Some(action);
                    },
                }
            }
            action += 1;
        }
        match best {
            Some(b) => {
                proof {
                    lemma_best_unique(self@, scores@, b as int, b as int);
                }
                Ok(b)
            },
            None => Err(PlanError::NoSelectableChild),
        }
    }

    /// The value-typed copy that is sent to a worker in place of the node.
    pub fn shallow_clone(&self) -> (stub: NodeStub)
        requires
            self.wf(),
        ensures
            stub.action_n == self@.action_n,
            stub.is_head == self@.is_head,
            stub.children_visit_count@ == self@.visit_count,
            stub.wf(),
    {
        let mut counts: Vec<u64> = Vec::new();
        let mut a: usize = 0;
        while a < self.action_n
            invariant
                self.wf(),
                self.action_n == self@.action_n,
                self.children_visit_count@ == self@.visit_count,
                a <= self.action_n,
                counts@ == self@.visit_count.take(a as int),
            decreases self.action_n - a,
        {
            counts.push(self.children_visit_count[a]);
            a += 1;
            assert(counts@ =~= self@.visit_count.take(a as int));
        }
        assert(counts@ =~= self@.visit_count);
        NodeStub { action_n: self.action_n, is_head: self.is_head, children_visit_count: counts }
    }

    /// The branching factor.
    pub fn action_n(&self) -> (n: usize)
        ensures
            n == self@.action_n,
    {
        self.action_n
    }

    /// The saving index of the snapshot to restore before stepping from
    /// this node.
    pub fn checkpoint_idx(&self) -> (idx: u32)
        ensures
            idx == self@.checkpoint_idx,
    {
        self.checkpoint_idx
    }

    /// The index of the node above, which the root does not have.
    pub fn parent(&self) -> (p: Option<usize>)
        ensures
            p == self@.parent,
    {
        self.parent
    }

    /// Whether this node is the root of the current round.
    pub fn is_head(&self) -> (head: bool)
        ensures
            head == self@.is_head,
    {
        self.is_head
    }

    /// The index of the child under `action`, if one was added.
    pub fn child(&self, action: usize) -> (c: Option<usize>)
        requires
            self.wf(),
            action < self@.action_n,
        ensures
            c == self@.children[action as int],
    {
        self.children[action]
    }

    /// What one step of `action` paid when it was expanded.
    pub fn reward(&self, action: usize) -> (r: usize)
        requires
            self.wf(),
            action < self@.action_n,
        ensures
            r == self@.rewards[action as int],
    {
        self.rewards[action]
    }

    /// Whether one step of `action` ended the episode when it was expanded.
    pub fn done(&self, action: usize) -> (d: bool)
        requires
            self.wf(),
            action < self@.action_n,
        ensures
            d == self@.dones[action as int],
    {
        self.dones[action]
    }

    /// Whether the engine found nothing more to rewrite under `action`.
    pub fn is_saturated(&self, action: usize) -> (s: bool)
        requires
            self.wf(),
            action < self@.action_n,
        ensures
            s == self@.saturated[action as int],
    {
        self.children_saturated[action]
    }

    /// The number of simulations that have started through `action`.
    pub fn visit_count(&self, action: usize) -> (n: u64)
        requires
            self.wf(),
            action < self@.action_n,
        ensures
            n == self@.visit_count[action as int],
    {
        self.children_visit_count[action]
    }

    /// The number of simulations that have returned through `action`.
    pub fn complete_count(&self, action: usize) -> (n: u64)
        requires
            self.wf(),
            action < self@.action_n,
        ensures
            n == self@.complete_count[action as int],
    {
        self.children_complete_visit_count[action]
    }

    /// The number of simulations that have started through this node.
    pub fn visit_total(&self) -> (n: u64)
        ensures
            n == self@.visit_total,
    {
        self.visit_count
    }

    /// No action has both a finished visit and room left to rewrite.
    pub fn no_child_available(&self) -> (none: bool)
        ensures
            none == self@.no_child_available(),
    {
        (self.updated_node_count == 0) || (self.updated_node_count == self.children_saturated_cnt)
    }
}

} // verus!
