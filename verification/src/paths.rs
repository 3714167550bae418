//! The shape of the search tree as a sequence of nodes, the way from a node
//! up to the root, and what walking that way does to the nodes.
use crate::node::{fresh_view, lemma_fresh_wf, NodeView, Phase};
use vstd::prelude::*;

verus! {

/// One step of the way from a node up to the root: the action that a
/// simulation took at `node` and what the action paid.
#[derive(Debug, Clone, Copy, PartialEq, Eq, Structural)]
pub struct PathStep {
    pub node: usize,
    pub action: usize,
    pub reward: usize,
}

/// The nodes form a tree rooted at index 0: each other node hangs under an
/// earlier one, and each child link leads to a node that names its parent.
pub open spec fn arena_wf(nodes: Seq<NodeView>) -> bool {
    &&& nodes.len() > 0
    &&& nodes[0].parent is None
    &&& forall|i: int|
        0 <= i < nodes.len() ==> (#[trigger] nodes[i]).wf() && nodes[i].action_n
            == nodes[0].action_n
    &&& forall|i: int|
        0 < i < nodes.len() ==> (#[trigger] nodes[i]).parent is Some && nodes[i].parent.unwrap()
            < i && !nodes[i].is_head
    &&& forall|i: int, a: int|
        0 <= i < nodes.len() && 0 <= a < nodes[i].action_n
            && (#[trigger] nodes[i].children[a]) is Some ==> {
            let c = nodes[i].children[a].unwrap();
            i < c < nodes.len() && nodes[c as int].parent == Some(i as usize)
        }
}

/// Node `i` lies on the way from node `from` up to the root.
pub open spec fn on_path(nodes: Seq<NodeView>, from: nat, i: int) -> bool
    decreases from,
{
    if from == i {
        true
    } else if from < nodes.len() && nodes[from as int].parent is Some
        && nodes[from as int].parent.unwrap() < from {
        on_path(nodes, nodes[from as int].parent.unwrap() as nat, i)
    } else {
        false
    }
}

/// The number of nodes above node `from`.
pub open spec fn depth(nodes: Seq<NodeView>, from: nat) -> nat
    decreases from,
{
    if from < nodes.len() && nodes[from as int].parent is Some
        && nodes[from as int].parent.unwrap() < from {
        1 + depth(nodes, nodes[from as int].parent.unwrap() as nat)
    } else {
        0
    }
}

/// The nodes on the way from node `from` up to the root.
pub open spec fn path_set(nodes: Seq<NodeView>, from: nat) -> Set<int> {
    Set::new(|i: int| on_path(nodes, from, i))
}

/// A node on the way up from `from` is `from` itself or lies before it.
pub proof fn lemma_on_path_bound(nodes: Seq<NodeView>, from: nat, i: int)
    requires
        on_path(nodes, from, i),
    ensures
        0 <= i <= from,
    decreases from,
{
    if from != i {
        lemma_on_path_bound(nodes, nodes[from as int].parent.unwrap() as nat, i);
    }
}

/// The way up from `from` goes on from each of its nodes to that node's
/// parent.
pub proof fn lemma_on_path_step(nodes: Seq<NodeView>, from: nat, cur: nat)
    requires
        on_path(nodes, from, cur as int),
        cur < nodes.len(),
        nodes[cur as int].parent is Some,
        nodes[cur as int].parent.unwrap() < cur,
    ensures
        on_path(nodes, from, nodes[cur as int].parent.unwrap() as int),
    decreases from,
{
    let p = nodes[cur as int].parent.unwrap();
    if from == cur {
        assert(on_path(nodes, p as nat, p as int));
    } else {
        lemma_on_path_step(nodes, nodes[from as int].parent.unwrap() as nat, cur);
    }
}

/// The way up from a node depends only on the parents of the nodes up to
/// it.
pub proof fn lemma_on_path_agree(a: Seq<NodeView>, b: Seq<NodeView>, from: nat, i: int)
    requires
        from < a.len(),
        from < b.len(),
        forall|j: int| 0 <= j <= from ==> (#[trigger] a[j]).parent == b[j].parent,
    ensures
        on_path(a, from, i) == on_path(b, from, i),
    decreases from,
{
    if from != i {
        assert(a[from as int].parent == b[from as int].parent);
        if a[from as int].parent is Some && a[from as int].parent.unwrap() < from {
            lemma_on_path_agree(a, b, a[from as int].parent.unwrap() as nat, i);
        }
    }
}

/// The way from a node up to the root has one node more than the node is
/// deep. A walk up that way therefore counts a simulation at exactly that
/// many nodes: `after_incomplete_walk` and `after_complete_walk` change the
/// nodes of `path_set`, each once, and no other.
pub proof fn lemma_path_size(nodes: Seq<NodeView>, from: nat)
    ensures
        path_set(nodes, from).finite(),
        path_set(nodes, from).len() == depth(nodes, from) + 1,
    decreases from,
{
    if from < nodes.len() && nodes[from as int].parent is Some
        && nodes[from as int].parent.unwrap() < from {
        let p = nodes[from as int].parent.unwrap() as nat;
        lemma_path_size(nodes, p);
        if path_set(nodes, p).contains(from as int) {
            lemma_on_path_bound(nodes, p, from as int);
        }
        assert(path_set(nodes, from) =~= path_set(nodes, p).insert(from as int));
    } else {
        assert(path_set(nodes, from) =~= Set::<int>::empty().insert(from as int));
    }
}

/// Every node on the way from `from` up to the root holds simulation `id`
/// in phase `phase`.
pub open spec fn path_in_phase(nodes: Seq<NodeView>, from: nat, id: u32, phase: Phase) -> bool {
    forall|i: int|
        0 <= i < nodes.len() && #[trigger] on_path(nodes, from, i) ==> nodes[i].in_phase(
            id,
            phase,
        )
}

/// Every node above `at` holds simulation `id` in phase `phase`.
pub open spec fn ancestors_in_phase(nodes: Seq<NodeView>, at: nat, id: u32, phase: Phase) -> bool {
    nodes[at as int].parent is Some ==> path_in_phase(
        nodes,
        nodes[at as int].parent.unwrap() as nat,
        id,
        phase,
    )
}

/// Simulation `id` has come down to node `at` and not yet taken a step
/// there: every node above holds its step, and `at` holds none.
pub open spec fn unvisited_by(nodes: Seq<NodeView>, at: nat, id: u32) -> bool {
    !nodes[at as int].history.contains_key(id) && ancestors_in_phase(
        nodes,
        at,
        id,
        Phase::Recorded,
    )
}

/// Simulation `id` has steps only on the way from `at` up to the root.
pub open spec fn only_above(nodes: Seq<NodeView>, at: nat, id: u32) -> bool {
    forall|i: int|
        0 <= i < nodes.len() && #[trigger] nodes[i].history.contains_key(id) ==> on_path(
            nodes,
            at,
            i,
        )
}

/// Every simulation that has a step at some node is among the first
/// `issued`.
pub open spec fn keys_issued(nodes: Seq<NodeView>, issued: u32) -> bool {
    forall|i: int, k: u32|
        0 <= i < nodes.len() && #[trigger] nodes[i].history.contains_key(k) ==> k < issued
}

/// The nodes after the visit of simulation `id` was counted as started at
/// every node on the way from `from` up to the root, and nowhere else.
pub open spec fn after_incomplete_walk(nodes: Seq<NodeView>, from: nat, id: u32) -> Seq<
    NodeView,
> {
    Seq::new(
        nodes.len(),
        |i: int|
            if on_path(nodes, from, i) {
                nodes[i].after_incomplete(id)
            } else {
                nodes[i]
            },
    )
}

/// The nodes after the visit of simulation `id` was counted as finished at
/// every node on the way from `from` up to the root, and nowhere else.
pub open spec fn after_complete_walk(nodes: Seq<NodeView>, from: nat, id: u32) -> Seq<NodeView> {
    Seq::new(
        nodes.len(),
        |i: int|
            if on_path(nodes, from, i) {
                nodes[i].after_complete(id)
            } else {
                nodes[i]
            },
    )
}

/// The nodes after the visit of simulation `id` was counted as started and
/// then as finished at every node on the way from `from` up to the root.
pub open spec fn finished_through(nodes: Seq<NodeView>, from: nat, id: u32) -> Seq<NodeView> {
    after_complete_walk(after_incomplete_walk(nodes, from, id), from, id)
}

/// The step that simulation `id` took at node `at`.
pub open spec fn step_at(nodes: Seq<NodeView>, at: nat, id: u32) -> PathStep {
    PathStep {
        node: at as usize,
        action: nodes[at as int].history[id].action,
        reward: nodes[at as int].history[id].reward,
    }
}

/// The steps that simulation `id` took on the way from `from` up to the
/// root, the step at `from` first.
pub open spec fn path_steps(nodes: Seq<NodeView>, from: nat, id: u32) -> Seq<PathStep>
    decreases from,
{
    if from < nodes.len() && nodes[from as int].parent is Some
        && nodes[from as int].parent.unwrap() < from {
        seq![step_at(nodes, from, id)] + path_steps(
            nodes,
            nodes[from as int].parent.unwrap() as nat,
            id,
        )
    } else {
        seq![step_at(nodes, from, id)]
    }
}

/// A simulation takes one step at each node on its way: one more than the
/// depth of the node it starts from.
pub proof fn lemma_path_steps_len(nodes: Seq<NodeView>, from: nat, id: u32)
    ensures
        path_steps(nodes, from, id).len() == depth(nodes, from) + 1,
    decreases from,
{
    if from < nodes.len() && nodes[from as int].parent is Some
        && nodes[from as int].parent.unwrap() < from {
        lemma_path_steps_len(nodes, nodes[from as int].parent.unwrap() as nat, id);
    }
}

/// Counting a simulation as started and then as finished along a way
/// leaves every node off the way as it was, and takes every node on it
/// through both counts, one after the other.
pub proof fn lemma_finished_through(nodes: Seq<NodeView>, from: nat, id: u32, i: int)
    requires
        from < nodes.len(),
        0 <= i < nodes.len(),
    ensures
        finished_through(nodes, from, id)[i] == if path_set(nodes, from).contains(i) {
            nodes[i].after_incomplete(id).after_complete(id)
        } else {
            nodes[i]
        },
{
    lemma_on_path_agree(after_incomplete_walk(nodes, from, id), nodes, from, i);
}

/// Counting a visit along a way changes no child link and no branching
/// factor.
pub proof fn lemma_finished_children(nodes: Seq<NodeView>, from: nat, id: u32)
    requires
        from < nodes.len(),
    ensures
        finished_through(nodes, from, id).len() == nodes.len(),
        forall|i: int|
            0 <= i < nodes.len() ==> (#[trigger] finished_through(nodes, from, id)[i]).children
                == nodes[i].children && finished_through(nodes, from, id)[i].action_n
                == nodes[i].action_n,
{
    assert forall|i: int| 0 <= i < nodes.len() implies (#[trigger] finished_through(
        nodes,
        from,
        id,
    )[i]).children == nodes[i].children && finished_through(nodes, from, id)[i].action_n
        == nodes[i].action_n by {
        lemma_finished_through(nodes, from, id, i);
    }
}

/// Once the visit of a simulation is counted as started along a way, every
/// node on the way holds it as started.
pub proof fn lemma_walk_started(nodes: Seq<NodeView>, from: nat, id: u32)
    requires
        from < nodes.len(),
    ensures
        path_in_phase(after_incomplete_walk(nodes, from, id), from, id, Phase::Started),
{
    let walked = after_incomplete_walk(nodes, from, id);
    assert forall|i: int| 0 <= i < walked.len() && #[trigger] on_path(walked, from, i) implies
        walked[i].in_phase(id, Phase::Started) by {
        lemma_on_path_agree(walked, nodes, from, i);
    }
}

/// The nodes after simulation `id` wrote down at node `at` that it took
/// `action` there, for the reward that the node holds for the action.
pub open spec fn stepped(nodes: Seq<NodeView>, at: int, id: u32, action: usize) -> Seq<NodeView> {
    nodes.update(at, nodes[at].after_record(id, action, nodes[at].rewards[action as int]))
}

/// The nodes after an expansion of node `at` came back for simulation
/// `id`: the node holds what `action` paid and whether it ended the
/// episode, and the step that the simulation took with it.
pub open spec fn replied(
    nodes: Seq<NodeView>,
    at: int,
    id: u32,
    action: usize,
    reward: usize,
    done: bool,
) -> Seq<NodeView> {
    nodes.update(at, nodes[at].after_outcome(action, reward, done).after_record(id, action, reward))
}

/// The nodes after a new node, which restores from `saving_idx`, was hung
/// under `action` of node `at`.
pub open spec fn grown(
    nodes: Seq<NodeView>,
    at: int,
    action: usize,
    saving_idx: u32,
    saturated: bool,
) -> Seq<NodeView> {
    nodes.update(at, nodes[at].after_add_child(action, nodes.len() as usize, saturated)).push(
        fresh_view(nodes[0].action_n, saving_idx, false, Some(at as usize)),
    )
}

/// Replacing a node by one with the same place in the tree, the same
/// children and the same branching factor leaves the tree a tree.
pub proof fn lemma_arena_update(nodes: Seq<NodeView>, at: int, node: NodeView)
    requires
        arena_wf(nodes),
        0 <= at < nodes.len(),
        node.wf(),
        node.action_n == nodes[at].action_n,
        node.parent == nodes[at].parent,
        node.is_head == nodes[at].is_head,
        node.children == nodes[at].children,
    ensures
        arena_wf(nodes.update(at, node)),
{
    let after = nodes.update(at, node);
    assert forall|i: int, a: int|
        0 <= i < after.len() && 0 <= a < after[i].action_n
            && (#[trigger] after[i].children[a]) is Some implies {
        let c = after[i].children[a].unwrap();
        i < c < after.len() && after[c as int].parent == Some(i as usize)
    } by {
        assert(nodes[i].children[a] is Some);
    }
}

/// Hanging a new node under an action without a child leaves the tree a
/// tree.
pub proof fn lemma_arena_grow(
    nodes: Seq<NodeView>,
    at: int,
    action: usize,
    saving_idx: u32,
    saturated: bool,
    parent: NodeView,
)
    requires
        arena_wf(nodes),
        0 <= at < nodes.len(),
        nodes.len() < usize::MAX,
        action < nodes[at].action_n,
        nodes[at].children[action as int] is None,
        parent == nodes[at].after_add_child(action, nodes.len() as usize, saturated),
        parent.wf(),
    ensures
        arena_wf(grown(nodes, at, action, saving_idx, saturated)),
{
    let after = grown(nodes, at, action, saving_idx, saturated);
    let fresh = fresh_view(nodes[0].action_n, saving_idx, false, Some(at as usize));
    lemma_fresh_wf(nodes[0].action_n, saving_idx, false, Some(at as usize));
    assert(after[nodes.len() as int] == fresh);
    assert forall|i: int| 0 <= i < after.len() implies (#[trigger] after[i]).wf()
        && after[i].action_n == after[0].action_n by {
        if i < nodes.len() && i != at {
            assert(after[i] == nodes[i]);
        }
    }
    assert forall|i: int| 0 < i < after.len() implies (#[trigger] after[i]).parent is Some
        && after[i].parent.unwrap() < i && !after[i].is_head by {
        if i < nodes.len() && i != at {
            assert(after[i] == nodes[i]);
        }
    }
    assert forall|i: int, a: int|
        0 <= i < after.len() && 0 <= a < after[i].action_n
            && (#[trigger] after[i].children[a]) is Some implies {
        let c = after[i].children[a].unwrap();
        i < c < after.len() && after[c as int].parent == Some(i as usize)
    } by {
        if i == nodes.len() {
        } else if i == at && a == action {
        } else {
            assert(nodes[i].children[a] is Some);
        }
    }
}

/// `b` hangs every node of `a` where `a` hangs it and holds of every
/// simulation, but for `except`, the steps that `a` holds; any node that
/// `b` has more has seen no simulation.
pub open spec fn same_but_for(a: Seq<NodeView>, b: Seq<NodeView>, except: Option<u32>) -> bool {
    &&& a.len() <= b.len()
    &&& forall|i: int| 0 <= i < a.len() ==> (#[trigger] b[i]).parent == a[i].parent
    &&& forall|i: int, k: u32|
        0 <= i < a.len() && except != Some(k) ==> #[trigger] b[i].history.contains_key(k)
            == a[i].history.contains_key(k)
    &&& forall|i: int, k: u32|
        0 <= i < a.len() && except != Some(k) && a[i].history.contains_key(k)
            ==> #[trigger] b[i].history[k] == a[i].history[k]
    &&& forall|i: int, k: u32|
        a.len() <= i < b.len() && except != Some(k) ==> !#[trigger] b[i].history.contains_key(k)
}

/// What one change leaves alone and the next one too, both leave alone.
pub proof fn lemma_same_trans(
    a: Seq<NodeView>,
    b: Seq<NodeView>,
    c: Seq<NodeView>,
    except: Option<u32>,
)
    requires
        same_but_for(a, b, except),
        same_but_for(b, c, except),
    ensures
        same_but_for(a, c, except),
{
    assert forall|i: int| 0 <= i < a.len() implies (#[trigger] c[i]).parent == a[i].parent by {
        assert(b[i].parent == a[i].parent);
    }
    assert forall|i: int, k: u32| 0 <= i < a.len() && except != Some(k) implies #[trigger]
        c[i].history.contains_key(k) == a[i].history.contains_key(k) by {
        assert(b[i].history.contains_key(k) == a[i].history.contains_key(k));
    }
    assert forall|i: int, k: u32|
        0 <= i < a.len() && except != Some(k) && a[i].history.contains_key(
            k,
        ) implies #[trigger] c[i].history[k] == a[i].history[k] by {
        assert(b[i].history.contains_key(k) == a[i].history.contains_key(k));
        assert(b[i].history[k] == a[i].history[k]);
    }
    assert forall|i: int, k: u32| a.len() <= i < c.len() && except != Some(k) implies !#[trigger]
    c[i].history.contains_key(k) by {
        if i < b.len() {
            assert(!b[i].history.contains_key(k));
            assert(c[i].history.contains_key(k) == b[i].history.contains_key(k));
        }
    }
}

/// What leaves every simulation alone leaves alone every one but one.
pub proof fn lemma_same_weaken(a: Seq<NodeView>, b: Seq<NodeView>, except: Option<u32>)
    requires
        same_but_for(a, b, None),
    ensures
        same_but_for(a, b, except),
{
}

/// Writing down a step of simulation `id` leaves every other simulation
/// alone.
pub proof fn lemma_same_stepped(nodes: Seq<NodeView>, at: int, id: u32, action: usize)
    requires
        0 <= at < nodes.len(),
    ensures
        same_but_for(nodes, stepped(nodes, at, id, action), Some(id)),
{
}

/// Applying the reply of an expansion for simulation `id` leaves every
/// other simulation alone.
pub proof fn lemma_same_replied(
    nodes: Seq<NodeView>,
    at: int,
    id: u32,
    action: usize,
    reward: usize,
    done: bool,
)
    requires
        0 <= at < nodes.len(),
    ensures
        same_but_for(nodes, replied(nodes, at, id, action, reward, done), Some(id)),
{
}

/// Hanging a new node into the tree leaves every simulation alone.
pub proof fn lemma_same_grown(
    nodes: Seq<NodeView>,
    at: int,
    action: usize,
    saving_idx: u32,
    saturated: bool,
)
    requires
        0 <= at < nodes.len(),
    ensures
        same_but_for(nodes, grown(nodes, at, action, saving_idx, saturated), None),
{
}

/// Counting the visit of simulation `id` as started along a way leaves
/// every other simulation alone.
pub proof fn lemma_same_incomplete_walk(nodes: Seq<NodeView>, from: nat, id: u32)
    ensures
        same_but_for(nodes, after_incomplete_walk(nodes, from, id), Some(id)),
{
}

/// Counting the visit of simulation `id` as finished along a way leaves
/// every other simulation alone.
pub proof fn lemma_same_complete_walk(nodes: Seq<NodeView>, from: nat, id: u32)
    ensures
        same_but_for(nodes, after_complete_walk(nodes, from, id), Some(id)),
{
}

/// Counting the visit of simulation `id` as started and as finished along
/// a way leaves every other simulation alone.
pub proof fn lemma_same_finished(nodes: Seq<NodeView>, from: nat, id: u32)
    ensures
        same_but_for(nodes, finished_through(nodes, from, id), Some(id)),
{
    lemma_same_incomplete_walk(nodes, from, id);
    lemma_same_complete_walk(after_incomplete_walk(nodes, from, id), from, id);
    lemma_same_trans(
        nodes,
        after_incomplete_walk(nodes, from, id),
        finished_through(nodes, from, id),
        Some(id),
    );
}

/// A change that leaves simulation `k` alone leaves alone where `k` stands
/// on every way up the tree.
pub proof fn lemma_frame_phase(
    a: Seq<NodeView>,
    b: Seq<NodeView>,
    except: Option<u32>,
    at: nat,
    k: u32,
    phase: Phase,
)
    requires
        arena_wf(a),
        same_but_for(a, b, except),
        except != Some(k),
        at < a.len(),
    ensures
        path_in_phase(b, at, k, phase) == path_in_phase(a, at, k, phase),
        ancestors_in_phase(b, at, k, phase) == ancestors_in_phase(a, at, k, phase),
        b[at as int].history.contains_key(k) == a[at as int].history.contains_key(k),
    decreases at, 1nat,
{
    if path_in_phase(a, at, k, phase) {
        assert forall|i: int| 0 <= i < b.len() && #[trigger] on_path(b, at, i) implies b[i].in_phase(
            k,
            phase,
        ) by {
            lemma_on_path_bound(b, at, i);
            lemma_on_path_agree(a, b, at, i);
            assert(a[i].in_phase(k, phase));
            assert(b[i].history.contains_key(k) == a[i].history.contains_key(k));
            assert(b[i].history[k] == a[i].history[k]);
        }
    }
    if path_in_phase(b, at, k, phase) {
        assert forall|i: int| 0 <= i < a.len() && #[trigger] on_path(a, at, i) implies a[i].in_phase(
            k,
            phase,
        ) by {
            lemma_on_path_bound(a, at, i);
            lemma_on_path_agree(a, b, at, i);
            assert(b[i].in_phase(k, phase));
            assert(b[i].history.contains_key(k) == a[i].history.contains_key(k));
            assert(b[i].history[k] == a[i].history[k]);
        }
    }
    assert(b[at as int].parent == a[at as int].parent);
    if a[at as int].parent is Some {
        assert(at > 0);
        assert(a[at as int].parent.unwrap() < at);
        lemma_frame_ancestors(a, b, except, a[at as int].parent.unwrap() as nat, k, phase);
    }
}

/// The part of `lemma_frame_phase` that goes up to the parent.
proof fn lemma_frame_ancestors(
    a: Seq<NodeView>,
    b: Seq<NodeView>,
    except: Option<u32>,
    at: nat,
    k: u32,
    phase: Phase,
)
    requires
        arena_wf(a),
        same_but_for(a, b, except),
        except != Some(k),
        at < a.len(),
    ensures
        path_in_phase(b, at, k, phase) == path_in_phase(a, at, k, phase),
    decreases at, 2nat,
{
    lemma_frame_phase(a, b, except, at, k, phase);
}

/// A change that leaves simulation `k` alone leaves its steps on the way
/// on which they were.
pub proof fn lemma_frame_only_above(
    a: Seq<NodeView>,
    b: Seq<NodeView>,
    except: Option<u32>,
    at: nat,
    k: u32,
)
    requires
        same_but_for(a, b, except),
        except != Some(k),
        at < a.len(),
        only_above(a, at, k),
    ensures
        only_above(b, at, k),
{
    assert forall|i: int| 0 <= i < b.len() && #[trigger] b[i].history.contains_key(k) implies on_path(
        b,
        at,
        i,
    ) by {
        if i < a.len() {
            assert(a[i].history.contains_key(k));
            lemma_on_path_bound(a, at, i);
            lemma_on_path_agree(a, b, at, i);
        }
    }
}

/// A change that touches the steps of one simulation that was begun, and
/// of no other, leaves every step with a simulation that was begun.
pub proof fn lemma_frame_keys(
    a: Seq<NodeView>,
    b: Seq<NodeView>,
    except: Option<u32>,
    issued: u32,
)
    requires
        same_but_for(a, b, except),
        keys_issued(a, issued),
        except matches Some(id) ==> id < issued,
    ensures
        keys_issued(b, issued),
{
    assert forall|i: int, k: u32| 0 <= i < b.len() && #[trigger] b[i].history.contains_key(
        k,
    ) implies k < issued by {
        if except != Some(k) {
            if i < a.len() {
                assert(a[i].history.contains_key(k));
            }
        }
    }
}

/// Once a simulation that has come down to a node writes its step there,
/// every node on the way up from that node holds its step.
pub proof fn lemma_recorded_path(nodes: Seq<NodeView>, at: nat, id: u32, node: NodeView)
    requires
        arena_wf(nodes),
        at < nodes.len(),
        ancestors_in_phase(nodes, at, id, Phase::Recorded),
        node.parent == nodes[at as int].parent,
        node.in_phase(id, Phase::Recorded),
    ensures
        path_in_phase(nodes.update(at as int, node), at, id, Phase::Recorded),
{
    let after = nodes.update(at as int, node);
    assert forall|i: int| 0 <= i < after.len() && #[trigger] on_path(after, at, i) implies
        after[i].in_phase(id, Phase::Recorded) by {
        if i != at {
            let p = nodes[at as int].parent.unwrap();
            assert(at > 0);
            lemma_on_path_agree(after, nodes, p as nat, i);
            lemma_on_path_bound(nodes, p as nat, i);
        }
    }
}

/// When a simulation that has come down to a node takes an action there
/// and goes on to the action's child, it has come down to the child: its
/// steps are those on the way up from the child, and the child holds none.
pub proof fn lemma_cursor_down(nodes: Seq<NodeView>, at: nat, id: u32, action: usize, child: usize)
    requires
        arena_wf(nodes),
        at < nodes.len(),
        unvisited_by(nodes, at, id),
        only_above(nodes, at, id),
        action < nodes[at as int].action_n,
        nodes[at as int].children[action as int] == Some(child),
    ensures
        unvisited_by(stepped(nodes, at as int, id, action), child as nat, id),
        only_above(stepped(nodes, at as int, id, action), child as nat, id),
{
    let after = stepped(nodes, at as int, id, action);
    assert(at < child < nodes.len() && nodes[child as int].parent == Some(at as usize));
    if nodes[child as int].history.contains_key(id) {
        lemma_on_path_bound(nodes, at, child as int);
    }
    lemma_recorded_path(nodes, at, id, after[at as int]);
    assert forall|i: int| 0 <= i < after.len() && #[trigger] after[i].history.contains_key(
        id,
    ) implies on_path(after, child as nat, i) by {
        if i == at {
            assert(on_path(after, at, at as int));
        } else {
            assert(nodes[i].history.contains_key(id));
            lemma_on_path_bound(nodes, at, i);
            lemma_on_path_agree(after, nodes, at, i);
        }
    }
}

} // verus!
