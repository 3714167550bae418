use wu_uct::error::PlanError;
use wu_uct::paths::PathStep;
use wu_uct::tree::{Descent, Move, SimTask, Stage, Tree};

/// Begins a simulation at the root, queues its expansion and sends it out.
/// Returns the simulation's id and the saving index it was sent with.
fn send_root_expansion(tree: &mut Tree<String>) -> (u32, u32) {
    let id = tree.begin_simulation().unwrap();
    assert_eq!(tree.cursor(), Some((id, 0)));
    assert_eq!(tree.enqueue_expansion(), Ok(()));
    let order = tree.dispatch_expansion().unwrap();
    assert_eq!(order.task_id, id);
    tree.release_expansion_worker(order.worker);
    (id, order.saving_idx)
}

/// Runs a full simulation through `action` of the root: expansion, rollout
/// and both replies.
fn simulate_root_action(tree: &mut Tree<String>, action: usize, reward: usize) -> u32 {
    let (id, saving_idx) = send_root_expansion(tree);
    let state = format!("state {}", saving_idx);
    assert_eq!(
        tree.apply_expansion_reply(action, reward, false, false, Some(state), saving_idx, id),
        Ok(None)
    );
    let order = tree.dispatch_simulation().unwrap();
    assert_eq!(order.task_id, id);
    tree.release_simulation_worker(order.worker);
    assert!(tree.apply_simulation_reply(id).is_ok());
    id
}

fn counts_hold(tree: &Tree<String>) {
    for n in 0..tree.len() {
        let node = tree.node(n);
        let mut sum = 0u64;
        for a in 0..node.action_n() {
            assert!(node.complete_count(a) <= node.visit_count(a));
            assert!(node.visit_count(a) <= node.visit_total());
            sum += node.visit_count(a);
        }
        assert_eq!(sum, node.visit_total());
    }
    assert!(tree.simulation_count() <= tree.issued());
    assert!(tree.issued() <= tree.budget());
}

#[test]
fn new_planner_holds_a_placeholder() {
    let tree: Tree<String> = Tree::new(12, 1, 4);
    assert_eq!(tree.budget(), 12);
    assert_eq!(tree.len(), 1);
    assert_eq!(tree.action_n(), 0);
    assert!(!tree.node(0).is_head());
    assert_eq!(tree.simulation_count(), 0);
    assert_eq!(tree.issued(), 0);
    assert_eq!(tree.global_saving_idx(), 0);
    assert_eq!(tree.cursor(), None);
    assert!(!tree.has_checkpoint(0));
    assert!(!tree.expansion_pool_saturated());
}

#[test]
fn reset_starts_a_round() {
    let mut tree: Tree<String> = Tree::new(8, 1, 1);
    simulate_root_action_after_reset(&mut tree);
    tree.reset(3, String::from("start"));
    assert_eq!(tree.len(), 1);
    assert_eq!(tree.action_n(), 3);
    assert!(tree.node(0).is_head());
    assert_eq!(tree.node(0).checkpoint_idx(), 0);
    assert_eq!(tree.node(0).parent(), None);
    assert_eq!(tree.node(0).visit_total(), 0);
    assert!(tree.has_checkpoint(0));
    assert!(!tree.has_checkpoint(1));
    assert_eq!(tree.global_saving_idx(), 1);
    assert_eq!(tree.simulation_count(), 0);
    assert_eq!(tree.issued(), 0);
    assert_eq!(tree.cursor(), None);
    assert_eq!(tree.pending_expansions(), 0);
    assert_eq!(tree.pending_simulations(), 0);
    assert_eq!(tree.expansions_in_flight(), 0);
    assert_eq!(tree.simulations_in_flight(), 0);
}

fn simulate_root_action_after_reset(tree: &mut Tree<String>) {
    tree.reset(2, String::from("earlier"));
    simulate_root_action(tree, 1, 2);
    let (_, _) = send_root_expansion(tree);
    assert_eq!(tree.expansions_in_flight(), 1);
    assert_eq!(tree.len(), 2);
}

#[test]
fn one_action_needs_no_search() {
    assert_eq!(Tree::<String>::shortcut(1), Some(0));
    assert_eq!(Tree::<String>::shortcut(0), None);
    assert_eq!(Tree::<String>::shortcut(2), None);
    assert_eq!(Tree::<String>::shortcut(5), None);
}

#[test]
fn no_budget_leaves_nothing_to_choose() {
    let mut tree: Tree<String> = Tree::new(0, 1, 1);
    tree.reset(3, String::from("start"));
    assert_eq!(tree.begin_simulation(), None);
    assert_eq!(tree.simulation_count(), 0);
    assert_eq!(tree.best_action(&vec![0, 0, 0]), Err(PlanError::NoSelectableChild));
}

#[test]
fn budget_bounds_the_simulations() {
    let mut tree: Tree<String> = Tree::new(2, 2, 2);
    tree.reset(2, String::from("start"));
    assert_eq!(tree.begin_simulation(), Some(0));
    assert_eq!(tree.begin_simulation(), None);
    assert_eq!(tree.issued(), 1);
    assert_eq!(tree.enqueue_expansion(), Ok(()));
    assert_eq!(tree.begin_simulation(), Some(1));
    assert_eq!(tree.enqueue_expansion(), Ok(()));
    assert_eq!(tree.begin_simulation(), None);
    assert_eq!(tree.issued(), 2);
    assert_eq!(tree.simulation_count(), 0);
    assert_eq!(tree.expansions_in_flight(), 2);
    counts_hold(&tree);
}

#[test]
fn simulation_count_reaches_the_budget_once_all_is_back() {
    let mut tree: Tree<String> = Tree::new(3, 1, 1);
    tree.reset(3, String::from("start"));
    for action in 0..3 {
        simulate_root_action(&mut tree, action, action);
        counts_hold(&tree);
    }
    assert_eq!(tree.begin_simulation(), None);
    assert_eq!(tree.simulation_count(), 3);
    assert_eq!(tree.expansions_in_flight(), 0);
    assert_eq!(tree.simulations_in_flight(), 0);
    assert_eq!(tree.len(), 4);
    assert_eq!(tree.best_action(&vec![1, 9, 3]), Ok(1));
}

#[test]
fn root_expands_until_every_action_is_visited() {
    let mut tree: Tree<String> = Tree::new(8, 1, 1);
    tree.reset(2, String::from("start"));
    assert_eq!(tree.begin_simulation(), Some(0));
    assert!(tree.needs_expansion(false));
    assert!(tree.needs_expansion(true));
    assert!(tree.decide_expansion());
    assert_eq!(tree.enqueue_expansion(), Ok(()));
    let order = tree.dispatch_expansion().unwrap();
    tree.release_expansion_worker(order.worker);
    assert_eq!(
        tree.apply_expansion_reply(0, 1, false, false, Some(String::from("a")), 1, 0),
        Ok(None)
    );
    let sent = tree.dispatch_simulation().unwrap();
    tree.release_simulation_worker(sent.worker);
    assert!(tree.apply_simulation_reply(0).is_ok());
    assert_eq!(tree.begin_simulation(), Some(1));
    assert!(tree.needs_expansion(false));
    assert_eq!(tree.enqueue_expansion(), Ok(()));
    let order = tree.dispatch_expansion().unwrap();
    tree.release_expansion_worker(order.worker);
    assert_eq!(
        tree.apply_expansion_reply(1, 0, false, false, Some(String::from("b")), 2, 1),
        Ok(None)
    );
    let sent = tree.dispatch_simulation().unwrap();
    tree.release_simulation_worker(sent.worker);
    assert!(tree.apply_simulation_reply(1).is_ok());
    assert_eq!(tree.begin_simulation(), Some(2));
    assert!(!tree.needs_expansion(false));
    assert!(!tree.needs_expansion(true));
    assert!(!tree.decide_expansion());
}

#[test]
fn below_the_root_the_coin_decides() {
    let mut tree: Tree<String> = Tree::new(8, 1, 1);
    tree.reset(2, String::from("start"));
    simulate_root_action(&mut tree, 0, 1);
    simulate_root_action(&mut tree, 1, 1);
    let id = tree.begin_simulation().unwrap();
    assert_eq!(tree.descend(&vec![5, 1]).map(|d| matches!(d, Descent::Child(1))), Ok(true));
    assert_eq!(tree.cursor(), Some((id, 1)));
    assert!(tree.needs_expansion(true));
    assert!(tree.needs_expansion(false));
    assert_eq!(tree.enqueue_expansion(), Ok(()));
    let order = tree.dispatch_expansion().unwrap();
    tree.release_expansion_worker(order.worker);
    assert_eq!(
        tree.apply_expansion_reply(0, 2, false, false, Some(String::from("c")), order.saving_idx, id),
        Ok(None)
    );
    let sent = tree.dispatch_simulation().unwrap();
    tree.release_simulation_worker(sent.worker);
    assert!(tree.apply_simulation_reply(id).is_ok());
    let next = tree.begin_simulation().unwrap();
    assert!(matches!(tree.descend(&vec![5, 1]), Ok(Descent::Child(1))));
    assert_eq!(tree.cursor(), Some((next, 1)));
    assert!(tree.needs_expansion(true));
    assert!(!tree.needs_expansion(false));
}

#[test]
fn expansion_is_sent_with_the_snapshot_and_a_fresh_index() {
    let mut tree: Tree<String> = Tree::new(4, 1, 1);
    tree.reset(3, String::from("start"));
    assert_eq!(tree.dispatch_expansion().is_none(), true);
    assert_eq!(tree.begin_simulation(), Some(0));
    assert_eq!(tree.enqueue_expansion(), Ok(()));
    assert_eq!(tree.cursor(), None);
    assert_eq!(tree.pending_expansions(), 1);
    let order = tree.dispatch_expansion().unwrap();
    assert_eq!(order.worker, 0);
    assert_eq!(order.task_id, 0);
    assert_eq!(order.saving_idx, 1);
    assert_eq!(order.task.checkpoint_data, "start");
    assert_eq!(order.task.shallow_copy_node.action_n, 3);
    assert!(order.task.shallow_copy_node.is_head);
    assert_eq!(order.task.shallow_copy_node.children_visit_count, vec![0, 0, 0]);
    assert_eq!(tree.global_saving_idx(), 2);
    assert_eq!(tree.pending_expansions(), 0);
    assert_eq!(tree.expansions_in_flight(), 1);
    assert!(tree.expansion_pool_saturated());
    assert!(tree.dispatch_expansion().is_none());
}

#[test]
fn saving_indices_rise_by_one() {
    let mut tree: Tree<String> = Tree::new(8, 3, 1);
    tree.reset(4, String::from("start"));
    for id in 0..3 {
        assert_eq!(tree.begin_simulation(), Some(id));
        assert_eq!(tree.enqueue_expansion(), Ok(()));
    }
    let first = tree.dispatch_expansion().unwrap();
    let second = tree.dispatch_expansion().unwrap();
    let third = tree.dispatch_expansion().unwrap();
    assert_eq!((first.task_id, first.saving_idx, first.worker), (0, 1, 0));
    assert_eq!((second.task_id, second.saving_idx, second.worker), (1, 2, 1));
    assert_eq!((third.task_id, third.saving_idx, third.worker), (2, 3, 2));
    assert_eq!(tree.global_saving_idx(), 4);
    assert_eq!(
        tree.apply_expansion_reply(2, 0, false, false, Some(String::from("z")), 3, 2),
        Ok(None)
    );
    assert_eq!(
        tree.apply_expansion_reply(0, 0, false, false, Some(String::from("x")), 1, 0),
        Ok(None)
    );
    assert!(tree.has_checkpoint(1));
    assert!(!tree.has_checkpoint(2));
    assert!(tree.has_checkpoint(3));
    assert_eq!(
        tree.apply_expansion_reply(1, 0, false, false, Some(String::from("y")), 2, 1),
        Ok(None)
    );
    assert!(tree.has_checkpoint(2));
    assert_eq!(tree.pending_simulations(), 3);
}

#[test]
fn busy_pool_holds_tasks_back() {
    let mut tree: Tree<String> = Tree::new(8, 1, 1);
    tree.reset(2, String::from("start"));
    assert_eq!(tree.begin_simulation(), Some(0));
    assert_eq!(tree.enqueue_expansion(), Ok(()));
    assert_eq!(tree.begin_simulation(), Some(1));
    assert_eq!(tree.enqueue_expansion(), Ok(()));
    let first = tree.dispatch_expansion().unwrap();
    assert_eq!(first.task_id, 0);
    assert!(tree.dispatch_expansion().is_none());
    assert_eq!(tree.pending_expansions(), 1);
    tree.release_expansion_worker(first.worker);
    assert!(!tree.expansion_pool_saturated());
    let second = tree.dispatch_expansion().unwrap();
    assert_eq!((second.task_id, second.saving_idx), (1, 2));
}

#[test]
fn rollout_counts_the_visit_when_it_is_sent() {
    let mut tree: Tree<String> = Tree::new(4, 1, 1);
    tree.reset(2, String::from("start"));
    let (id, saving_idx) = send_root_expansion(&mut tree);
    assert!(tree.dispatch_simulation().is_none());
    assert_eq!(
        tree.apply_expansion_reply(1, 3, false, true, Some(String::from("next")), saving_idx, id),
        Ok(None)
    );
    assert_eq!(tree.node(0).reward(1), 3);
    assert!(!tree.node(0).done(1));
    assert_eq!(tree.node(0).child(1), None);
    assert_eq!(tree.node(0).visit_count(1), 0);
    assert_eq!(tree.expansions_in_flight(), 0);
    assert_eq!(tree.simulations_in_flight(), 1);
    assert_eq!(tree.pending_simulations(), 1);
    assert_eq!(tree.simulation_count(), 0);
    let order = tree.dispatch_simulation().unwrap();
    assert_eq!(order.task_id, id);
    assert_eq!(order.worker, 0);
    assert_eq!(order.checkpoint_data, "next");
    assert_eq!(
        order.task,
        SimTask { action: 1, saving_idx, action_applied: true, child_saturated: true }
    );
    assert_eq!(tree.node(0).visit_count(1), 1);
    assert_eq!(tree.node(0).complete_count(1), 0);
    assert_eq!(tree.node(0).visit_total(), 1);
    assert_eq!(tree.pending_simulations(), 0);
    assert!(tree.simulation_pool_saturated());
    counts_hold(&tree);
    tree.release_simulation_worker(order.worker);
    assert_eq!(
        tree.apply_simulation_reply(id),
        Ok(vec![PathStep { node: 0, action: 1, reward: 3 }])
    );
    assert_eq!(tree.node(0).child(1), Some(1));
    assert!(tree.node(0).is_saturated(1));
    assert_eq!(tree.node(0).complete_count(1), 1);
    assert_eq!(tree.node(1).parent(), Some(0));
    assert_eq!(tree.node(1).checkpoint_idx(), saving_idx);
    assert!(!tree.node(1).is_head());
    assert_eq!(tree.node(1).action_n(), 2);
    assert_eq!(tree.simulation_count(), 1);
    assert_eq!(tree.simulations_in_flight(), 0);
    counts_hold(&tree);
}

#[test]
fn expansion_that_ends_the_episode_needs_no_rollout() {
    let mut tree: Tree<String> = Tree::new(4, 1, 1);
    tree.reset(2, String::from("start"));
    let (id, saving_idx) = send_root_expansion(&mut tree);
    assert_eq!(
        tree.apply_expansion_reply(0, 5, true, false, None, saving_idx, id),
        Ok(Some(vec![PathStep { node: 0, action: 0, reward: 5 }]))
    );
    assert_eq!(tree.node(0).reward(0), 5);
    assert!(tree.node(0).done(0));
    assert_eq!(tree.node(0).child(0), Some(1));
    assert_eq!(tree.node(0).visit_count(0), 1);
    assert_eq!(tree.node(0).complete_count(0), 1);
    assert_eq!(tree.node(1).checkpoint_idx(), saving_idx);
    assert!(!tree.has_checkpoint(saving_idx));
    assert_eq!(tree.simulation_count(), 1);
    assert_eq!(tree.pending_simulations(), 0);
    assert_eq!(tree.expansions_in_flight(), 0);
    counts_hold(&tree);
}

#[test]
fn replies_out_of_turn_are_refused() {
    let mut tree: Tree<String> = Tree::new(8, 2, 2);
    tree.reset(2, String::from("start"));
    let unknown = tree.apply_expansion_reply(0, 0, true, false, None, 1, 0);
    assert_eq!(unknown, Err(PlanError::UnknownTaskId));
    assert_eq!(tree.apply_simulation_reply(0), Err(PlanError::UnknownTaskId));
    assert_eq!(tree.begin_simulation(), Some(0));
    assert_eq!(tree.enqueue_expansion(), Ok(()));
    let queued_only = tree.apply_expansion_reply(0, 0, true, false, None, 1, 0);
    assert_eq!(queued_only, Err(PlanError::UnknownTaskId));
    let order = tree.dispatch_expansion().unwrap();
    let wrong_index = tree.apply_expansion_reply(0, 0, true, false, None, order.saving_idx + 1, 0);
    assert_eq!(wrong_index, Err(PlanError::UnknownTaskId));
    assert_eq!(tree.node(0).child(0), None);
    assert_eq!(tree.simulation_count(), 0);
    let state = Some(String::from("s"));
    assert_eq!(tree.apply_expansion_reply(0, 0, false, false, state, order.saving_idx, 0), Ok(None));
    let again = tree.apply_expansion_reply(0, 0, true, false, None, order.saving_idx, 0);
    assert_eq!(again, Err(PlanError::UnknownTaskId));
    assert_eq!(tree.apply_simulation_reply(0), Err(PlanError::UnknownTaskId));
    assert_eq!(tree.node(0).child(0), None);
    assert!(tree.dispatch_simulation().is_some());
    assert!(tree.apply_simulation_reply(0).is_ok());
    assert_eq!(tree.apply_simulation_reply(0), Err(PlanError::UnknownTaskId));
    assert_eq!(tree.simulation_count(), 1);
    counts_hold(&tree);
}

#[test]
fn an_action_expanded_twice_gets_one_child() {
    let mut tree: Tree<String> = Tree::new(8, 2, 2);
    tree.reset(2, String::from("start"));
    assert_eq!(tree.begin_simulation(), Some(0));
    assert_eq!(tree.enqueue_expansion(), Ok(()));
    assert_eq!(tree.begin_simulation(), Some(1));
    assert_eq!(tree.enqueue_expansion(), Ok(()));
    let first = tree.dispatch_expansion().unwrap();
    let second = tree.dispatch_expansion().unwrap();
    assert_eq!(
        tree.apply_expansion_reply(1, 2, true, false, None, first.saving_idx, 0),
        Ok(Some(vec![PathStep { node: 0, action: 1, reward: 2 }]))
    );
    assert_eq!(
        tree.apply_expansion_reply(1, 2, true, false, None, second.saving_idx, 1),
        Err(PlanError::ChildAlreadyExists)
    );
    assert_eq!(tree.len(), 2);
    assert_eq!(tree.simulation_count(), 1);
    assert_eq!(tree.expansions_in_flight(), 1);
    assert_eq!(tree.node(0).visit_count(1), 1);

    let mut tree: Tree<String> = Tree::new(8, 2, 2);
    tree.reset(2, String::from("start"));
    assert_eq!(tree.begin_simulation(), Some(0));
    assert_eq!(tree.enqueue_expansion(), Ok(()));
    assert_eq!(tree.begin_simulation(), Some(1));
    assert_eq!(tree.enqueue_expansion(), Ok(()));
    let first = tree.dispatch_expansion().unwrap();
    let second = tree.dispatch_expansion().unwrap();
    let a = Some(String::from("a"));
    let b = Some(String::from("b"));
    assert_eq!(tree.apply_expansion_reply(0, 1, false, false, a, first.saving_idx, 0), Ok(None));
    assert_eq!(tree.apply_expansion_reply(0, 1, false, false, b, second.saving_idx, 1), Ok(None));
    assert!(tree.dispatch_simulation().is_some());
    assert!(tree.dispatch_simulation().is_some());
    assert_eq!(tree.node(0).visit_count(0), 2);
    assert!(tree.apply_simulation_reply(1).is_ok());
    assert_eq!(tree.apply_simulation_reply(0), Err(PlanError::ChildAlreadyExists));
    assert_eq!(tree.len(), 2);
    assert_eq!(tree.node(1).checkpoint_idx(), second.saving_idx);
    assert_eq!(tree.simulation_count(), 1);
    assert_eq!(tree.simulations_in_flight(), 1);
    counts_hold(&tree);
}

#[test]
fn a_node_without_snapshot_cannot_be_expanded() {
    let mut tree: Tree<String> = Tree::new(8, 2, 2);
    tree.reset(1, String::from("start"));
    assert_eq!(tree.begin_simulation(), Some(0));
    assert_eq!(tree.enqueue_expansion(), Ok(()));
    assert_eq!(tree.begin_simulation(), Some(1));
    assert_eq!(tree.enqueue_expansion(), Ok(()));
    let first = tree.dispatch_expansion().unwrap();
    let second = tree.dispatch_expansion().unwrap();
    assert!(tree.apply_expansion_reply(0, 0, true, false, None, first.saving_idx, 0).is_ok());
    let state = Some(String::from("late"));
    assert_eq!(tree.apply_expansion_reply(0, 0, false, false, state, second.saving_idx, 1), Ok(None));
    assert!(!tree.node(0).done(0));
    assert_eq!(tree.begin_simulation(), Some(2));
    assert!(!tree.needs_expansion(false));
    assert!(matches!(tree.descend(&vec![0]), Ok(Descent::Child(1))));
    assert_eq!(tree.enqueue_expansion(), Err(PlanError::MissingCheckpoint));
    assert_eq!(tree.cursor(), Some((2, 1)));
    assert_eq!(tree.pending_expansions(), 0);
}

#[test]
fn selection_without_a_child_is_refused() {
    let mut tree: Tree<String> = Tree::new(8, 1, 1);
    tree.reset(2, String::from("start"));
    assert_eq!(tree.begin_simulation(), Some(0));
    assert!(matches!(tree.descend(&vec![3, 4]), Err(PlanError::NoSelectableChild)));
    assert_eq!(tree.cursor(), Some((0, 0)));
    assert!(!tree.node(0).has_visit(0));
}

#[test]
fn terminal_action_ends_the_simulation_in_selection() {
    let mut tree: Tree<String> = Tree::new(8, 1, 1);
    tree.reset(2, String::from("start"));
    let (id, saving_idx) = send_root_expansion(&mut tree);
    assert!(tree.apply_expansion_reply(0, 4, true, false, None, saving_idx, id).is_ok());
    simulate_root_action(&mut tree, 1, 1);
    assert_eq!(tree.simulation_count(), 2);
    let id = tree.begin_simulation().unwrap();
    assert!(!tree.needs_expansion(true));
    let went = tree.descend(&vec![7, 2]);
    match went {
        Ok(Descent::Terminal(steps)) => {
            assert_eq!(steps, vec![PathStep { node: 0, action: 0, reward: 4 }])
        }
        _ => panic!("the action ends the episode"),
    }
    assert_eq!(tree.cursor(), None);
    assert_eq!(tree.simulation_count(), 3);
    assert_eq!(tree.node(0).visit_count(0), 2);
    assert_eq!(tree.node(0).complete_count(0), 2);
    assert!(tree.node(0).has_visit(id));
    counts_hold(&tree);
}

#[test]
fn a_walk_counts_once_at_each_node_of_the_path() {
    let mut tree: Tree<String> = Tree::new(16, 1, 1);
    tree.reset(2, String::from("start"));
    simulate_root_action(&mut tree, 0, 1);
    simulate_root_action(&mut tree, 1, 1);
    // Below the first child of the root.
    let id = tree.begin_simulation().unwrap();
    assert!(matches!(tree.descend(&vec![9, 0]), Ok(Descent::Child(1))));
    assert_eq!(tree.enqueue_expansion(), Ok(()));
    let order = tree.dispatch_expansion().unwrap();
    tree.release_expansion_worker(order.worker);
    let state = Some(String::from("deep"));
    assert_eq!(tree.apply_expansion_reply(1, 6, false, false, state, order.saving_idx, id), Ok(None));
    let sent = tree.dispatch_simulation().unwrap();
    tree.release_simulation_worker(sent.worker);
    assert_eq!(tree.node(1).visit_total(), 1);
    assert_eq!(tree.node(1).visit_count(1), 1);
    assert_eq!(tree.node(0).visit_total(), 3);
    assert_eq!(tree.node(0).visit_count(0), 2);
    assert_eq!(tree.node(2).visit_total(), 0);
    assert_eq!(
        tree.apply_simulation_reply(id),
        Ok(vec![
            PathStep { node: 1, action: 1, reward: 6 },
            PathStep { node: 0, action: 0, reward: 1 },
        ])
    );
    assert_eq!(tree.node(1).complete_count(1), 1);
    assert_eq!(tree.node(0).complete_count(0), 2);
    assert_eq!(tree.node(0).complete_count(1), 1);
    assert_eq!(tree.node(2).visit_total(), 0);
    assert_eq!(tree.node(3).parent(), Some(1));
    // One level further down, ending the episode there.
    let id = tree.begin_simulation().unwrap();
    assert!(matches!(tree.descend(&vec![9, 0]), Ok(Descent::Child(1))));
    assert!(!tree.needs_expansion(false));
    assert!(matches!(tree.descend(&vec![0, 9]), Ok(Descent::Child(3))));
    assert!(tree.needs_expansion(false));
    assert_eq!(tree.enqueue_expansion(), Ok(()));
    let order = tree.dispatch_expansion().unwrap();
    tree.release_expansion_worker(order.worker);
    assert_eq!(
        tree.apply_expansion_reply(0, 2, true, false, None, order.saving_idx, id),
        Ok(Some(vec![
            PathStep { node: 3, action: 0, reward: 2 },
            PathStep { node: 1, action: 1, reward: 6 },
            PathStep { node: 0, action: 0, reward: 1 },
        ]))
    );
    assert_eq!(tree.node(3).visit_total(), 1);
    assert_eq!(tree.node(1).visit_total(), 2);
    assert_eq!(tree.node(0).visit_total(), 4);
    assert_eq!(tree.node(2).visit_total(), 0);
    assert_eq!(tree.simulation_count(), 4);
    counts_hold(&tree);
}

#[test]
fn a_child_stands_only_where_an_expansion_returned() {
    let mut tree: Tree<String> = Tree::new(8, 1, 1);
    tree.reset(3, String::from("start"));
    for a in 0..3 {
        assert_eq!(tree.node(0).child(a), None);
    }
    let (id, saving_idx) = send_root_expansion(&mut tree);
    for a in 0..3 {
        assert_eq!(tree.node(0).child(a), None);
    }
    let state = Some(String::from("s"));
    assert_eq!(tree.apply_expansion_reply(2, 0, false, false, state, saving_idx, id), Ok(None));
    assert_eq!(tree.node(0).child(2), None);
    assert!(tree.dispatch_simulation().is_some());
    assert_eq!(tree.node(0).child(2), None);
    assert!(tree.apply_simulation_reply(id).is_ok());
    assert_eq!(tree.node(0).child(0), None);
    assert_eq!(tree.node(0).child(1), None);
    assert_eq!(tree.node(0).child(2), Some(1));
}

#[test]
fn best_action_skips_saturated_branches() {
    let mut tree: Tree<String> = Tree::new(8, 1, 1);
    tree.reset(3, String::from("start"));
    let (id, saving_idx) = send_root_expansion(&mut tree);
    let state = Some(String::from("s"));
    assert_eq!(tree.apply_expansion_reply(0, 0, false, true, state, saving_idx, id), Ok(None));
    let sent = tree.dispatch_simulation().unwrap();
    tree.release_simulation_worker(sent.worker);
    assert!(tree.apply_simulation_reply(id).is_ok());
    assert!(tree.node(0).is_saturated(0));
    assert_eq!(tree.best_action(&vec![9, 9, 9]), Err(PlanError::NoSelectableChild));
    simulate_root_action(&mut tree, 2, 1);
    assert_eq!(tree.best_action(&vec![9, 9, 1]), Ok(2));
    simulate_root_action(&mut tree, 1, 1);
    assert_eq!(tree.best_action(&vec![9, 1, 1]), Ok(1));
    assert_eq!(tree.best_action(&vec![9, 1, 2]), Ok(2));
}

#[test]
fn advance_walks_through_the_stages_of_a_step() {
    let mut tree: Tree<String> = Tree::new(2, 1, 1);
    tree.reset(2, String::from("start"));
    assert_eq!(tree.stage(), Stage::Idle);
    assert!(matches!(tree.advance(), Ok(Move::Again)));
    assert_eq!(tree.stage(), Stage::Selecting);
    assert_eq!(tree.cursor(), Some((0, 0)));
    assert!(matches!(tree.advance(), Ok(Move::Again)));
    assert_eq!(tree.stage(), Stage::Expanding);
    assert_eq!(tree.pending_expansions(), 1);
    let order = match tree.advance() {
        Ok(Move::SendExpansion(order)) => order,
        _ => panic!("an expansion waits and a worker is idle"),
    };
    assert_eq!((order.task_id, order.saving_idx, order.worker), (0, 1, 0));
    assert!(matches!(tree.advance(), Ok(Move::CollectExpansion)));
    assert_eq!(tree.stage(), Stage::AwaitingExpansion);
    assert!(matches!(tree.advance(), Ok(Move::CollectExpansion)));
    tree.release_expansion_worker(order.worker);
    let state = Some(String::from("s"));
    assert_eq!(tree.apply_expansion_reply(1, 2, false, false, state, 1, 0), Ok(None));
    assert_eq!(tree.stage(), Stage::Simulating);
    let sent = match tree.advance() {
        Ok(Move::SendSimulation(sent)) => sent,
        _ => panic!("a rollout waits and a worker is idle"),
    };
    assert_eq!((sent.task_id, sent.worker), (0, 0));
    assert_eq!(tree.node(0).visit_count(1), 1);
    assert!(matches!(tree.advance(), Ok(Move::CollectSimulation)));
    assert_eq!(tree.stage(), Stage::AwaitingSimulation);
    tree.release_simulation_worker(sent.worker);
    assert!(tree.apply_simulation_reply(0).is_ok());
    assert_eq!(tree.stage(), Stage::Idle);
    assert_eq!(tree.simulation_count(), 1);

    // The second step: the other action of the root.
    assert!(matches!(tree.advance(), Ok(Move::Again)));
    assert!(matches!(tree.advance(), Ok(Move::Again)));
    let order = match tree.advance() {
        Ok(Move::SendExpansion(order)) => order,
        _ => panic!("an expansion waits and a worker is idle"),
    };
    assert_eq!(order.task.shallow_copy_node.children_visit_count, vec![0, 1]);
    assert!(matches!(tree.advance(), Ok(Move::CollectExpansion)));
    tree.release_expansion_worker(order.worker);
    assert!(tree.apply_expansion_reply(0, 0, true, false, None, 2, 1).is_ok());
    assert_eq!(tree.stage(), Stage::Simulating);
    assert!(matches!(tree.advance(), Ok(Move::Again)));
    assert_eq!(tree.stage(), Stage::Idle);
    assert_eq!(tree.simulation_count(), 2);
    assert!(matches!(tree.advance(), Ok(Move::Finish)));
    assert!(matches!(tree.advance(), Ok(Move::Finish)));
    assert_eq!(tree.stage(), Stage::Idle);
}

#[test]
fn advance_asks_for_scores_where_the_node_is_not_expanded() {
    let mut tree: Tree<String> = Tree::new(8, 1, 1);
    tree.reset(2, String::from("start"));
    simulate_root_action(&mut tree, 0, 1);
    simulate_root_action(&mut tree, 1, 1);
    assert_eq!(tree.stage(), Stage::Expanding);
    assert!(matches!(tree.advance(), Ok(Move::Again)));
    assert_eq!(tree.stage(), Stage::Simulating);
    assert!(matches!(tree.advance(), Ok(Move::Again)));
    assert_eq!(tree.stage(), Stage::Idle);
    assert!(matches!(tree.advance(), Ok(Move::Again)));
    assert!(matches!(tree.advance(), Ok(Move::Score(0))));
    assert!(matches!(tree.advance(), Ok(Move::Score(0))));
    assert_eq!(tree.stage(), Stage::Selecting);
    assert!(matches!(tree.descend(&vec![1, 2]), Ok(Descent::Child(2))));
    assert_eq!(tree.stage(), Stage::Selecting);
    assert!(matches!(tree.advance(), Ok(Move::Again)));
    assert_eq!(tree.stage(), Stage::Expanding);
}

#[test]
fn advance_skips_the_expansion_after_a_terminal_step() {
    let mut tree: Tree<String> = Tree::new(8, 1, 1);
    tree.reset(1, String::from("start"));
    let (id, saving_idx) = send_root_expansion(&mut tree);
    assert!(tree.apply_expansion_reply(0, 4, true, false, None, saving_idx, id).is_ok());
    assert!(matches!(tree.advance(), Ok(Move::Again)));
    assert!(matches!(tree.advance(), Ok(Move::Again)));
    assert_eq!(tree.stage(), Stage::Idle);
    assert!(matches!(tree.advance(), Ok(Move::Again)));
    assert_eq!(tree.stage(), Stage::Selecting);
    assert!(matches!(tree.advance(), Ok(Move::Score(0))));
    assert!(matches!(tree.descend(&vec![0]), Ok(Descent::Terminal(_))));
    assert_eq!(tree.stage(), Stage::Simulating);
    assert!(matches!(tree.advance(), Ok(Move::Again)));
    assert_eq!(tree.stage(), Stage::Idle);
    assert_eq!(tree.simulation_count(), 2);
}

#[test]
fn advance_reports_a_missing_snapshot() {
    let mut tree: Tree<String> = Tree::new(8, 2, 2);
    tree.reset(1, String::from("start"));
    assert_eq!(tree.begin_simulation(), Some(0));
    assert_eq!(tree.enqueue_expansion(), Ok(()));
    assert_eq!(tree.begin_simulation(), Some(1));
    assert_eq!(tree.enqueue_expansion(), Ok(()));
    let first = tree.dispatch_expansion().unwrap();
    let second = tree.dispatch_expansion().unwrap();
    assert!(tree.apply_expansion_reply(0, 0, true, false, None, first.saving_idx, 0).is_ok());
    let state = Some(String::from("late"));
    assert_eq!(tree.apply_expansion_reply(0, 0, false, false, state, second.saving_idx, 1), Ok(None));
    assert_eq!(tree.begin_simulation(), Some(2));
    assert!(matches!(tree.advance(), Ok(Move::Score(0))));
    assert!(matches!(tree.descend(&vec![0]), Ok(Descent::Child(1))));
    assert!(matches!(tree.advance(), Err(PlanError::MissingCheckpoint)));
    assert_eq!(tree.stage(), Stage::Selecting);
}
