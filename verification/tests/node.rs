use rand::Rng;
use wu_uct::error::PlanError;
use wu_uct::node::{Node, NodeStub, Phase, Visit, SAMPLE_LIMIT};

fn counts_hold(node: &Node) {
    let mut sum = 0u64;
    for a in 0..node.action_n() {
        assert!(node.complete_count(a) <= node.visit_count(a));
        assert!(node.visit_count(a) <= node.visit_total());
        sum += node.visit_count(a);
    }
    assert_eq!(sum, node.visit_total());
}

#[test]
fn fresh_node_has_counted_nothing() {
    let node = Node::new(3, 7, true, None);
    assert_eq!(node.action_n(), 3);
    assert_eq!(node.checkpoint_idx(), 7);
    assert_eq!(node.parent(), None);
    assert!(node.is_head());
    for a in 0..3 {
        assert_eq!(node.child(a), None);
        assert_eq!(node.reward(a), 0);
        assert!(!node.done(a));
        assert!(!node.is_saturated(a));
        assert_eq!(node.visit_count(a), 0);
        assert_eq!(node.complete_count(a), 0);
    }
    assert_eq!(node.visit_total(), 0);
    assert!(!node.all_child_visited());
    assert!(node.no_child_available());
    counts_hold(&node);
}

#[test]
fn dummy_has_no_actions() {
    let node = Node::dummy();
    assert_eq!(node.action_n(), 0);
    assert!(!node.is_head());
    assert_eq!(node.parent(), None);
    assert!(node.all_child_visited());
    assert_eq!(node.select_uct_action(&vec![]), Err(PlanError::NoSelectableChild));
}

#[test]
fn a_step_is_written_once() {
    let mut node = Node::new(2, 0, true, None);
    assert!(!node.has_visit(5));
    assert_eq!(node.visit(5), None);
    assert_eq!(node.update_history(5, 1, 4), Ok(()));
    assert_eq!(node.visit(5), Some(Visit { action: 1, reward: 4, phase: Phase::Recorded }));
    assert_eq!(node.update_history(5, 0, 9), Err(PlanError::DuplicateTaskId));
    assert_eq!(node.visit(5), Some(Visit { action: 1, reward: 4, phase: Phase::Recorded }));
    assert_eq!(node.visit_total(), 0);
}

#[test]
fn incomplete_then_complete_counts_one_visit() {
    let mut node = Node::new(3, 0, true, None);
    assert_eq!(node.update_history(0, 2, 6), Ok(()));
    assert_eq!(node.update_incomplete(0), Ok(()));
    assert_eq!(node.visit_count(2), 1);
    assert_eq!(node.complete_count(2), 0);
    assert_eq!(node.visit_total(), 1);
    assert_eq!(node.visit(0).unwrap().phase, Phase::Started);
    assert!(node.no_child_available());
    counts_hold(&node);
    assert_eq!(node.update_complete(0), Ok((2, 6)));
    assert_eq!(node.visit_count(2), 1);
    assert_eq!(node.complete_count(2), 1);
    assert_eq!(node.visit_total(), 1);
    assert_eq!(node.visit(0).unwrap().phase, Phase::Completed);
    assert!(!node.no_child_available());
    counts_hold(&node);
}

#[test]
fn updates_out_of_turn_are_refused() {
    let mut node = Node::new(2, 0, false, Some(0));
    assert_eq!(node.update_incomplete(1), Err(PlanError::UnknownTaskId));
    assert_eq!(node.update_complete(1), Err(PlanError::UnknownTaskId));
    assert_eq!(node.update_history(1, 0, 3), Ok(()));
    assert_eq!(node.update_complete(1), Err(PlanError::UnknownTaskId));
    assert_eq!(node.update_incomplete(1), Ok(()));
    assert_eq!(node.update_incomplete(1), Err(PlanError::UnknownTaskId));
    assert_eq!(node.update_complete(1), Ok((0, 3)));
    assert_eq!(node.update_complete(1), Err(PlanError::UnknownTaskId));
    assert_eq!(node.update_incomplete(1), Err(PlanError::UnknownTaskId));
    assert_eq!(node.visit_count(0), 1);
    assert_eq!(node.complete_count(0), 1);
    assert_eq!(node.visit_total(), 1);
    counts_hold(&node);
}

#[test]
fn counts_stay_ordered_under_many_simulations() {
    let mut node = Node::new(4, 0, true, None);
    for id in 0..40u32 {
        assert_eq!(node.update_history(id, (id % 4) as usize, id as usize), Ok(()));
        if id % 3 != 0 {
            assert_eq!(node.update_incomplete(id), Ok(()));
        }
        if id % 3 == 2 {
            assert_eq!(node.update_complete(id), Ok(((id % 4) as usize, id as usize)));
        }
        counts_hold(&node);
    }
    assert_eq!(node.visit_total(), 26);
    let finished: u64 = (0..4).map(|a| node.complete_count(a)).sum();
    assert_eq!(finished, 13);
    assert!(node.all_child_visited());
}

#[test]
fn all_child_visited_needs_every_action() {
    let mut node = Node::new(2, 0, true, None);
    assert_eq!(node.update_history(0, 0, 0), Ok(()));
    assert_eq!(node.update_incomplete(0), Ok(()));
    assert!(!node.all_child_visited());
    assert_eq!(node.update_history(1, 0, 0), Ok(()));
    assert_eq!(node.update_incomplete(1), Ok(()));
    assert!(!node.all_child_visited());
    assert_eq!(node.update_history(2, 1, 0), Ok(()));
    assert_eq!(node.update_incomplete(2), Ok(()));
    assert!(node.all_child_visited());
}

#[test]
fn a_second_child_is_refused() {
    let mut node = Node::new(2, 0, true, None);
    assert_eq!(node.add_child(1, 4, false), Ok(()));
    assert_eq!(node.child(1), Some(4));
    assert!(!node.is_saturated(1));
    assert_eq!(node.add_child(1, 5, true), Err(PlanError::ChildAlreadyExists));
    assert_eq!(node.child(1), Some(4));
    assert!(!node.is_saturated(1));
    assert_eq!(node.add_child(0, 6, true), Ok(()));
    assert_eq!(node.child(0), Some(6));
    assert!(node.is_saturated(0));
}

#[test]
fn no_child_available_when_only_saturated_actions_returned() {
    let mut node = Node::new(2, 0, true, None);
    assert_eq!(node.add_child(0, 1, true), Ok(()));
    assert_eq!(node.update_history(0, 0, 0), Ok(()));
    assert_eq!(node.update_incomplete(0), Ok(()));
    assert_eq!(node.update_complete(0), Ok((0, 0)));
    assert!(node.no_child_available());
    assert_eq!(node.add_child(1, 2, false), Ok(()));
    assert_eq!(node.update_history(1, 1, 3), Ok(()));
    assert_eq!(node.update_incomplete(1), Ok(()));
    assert_eq!(node.update_complete(1), Ok((1, 3)));
    assert!(!node.no_child_available());
}

#[test]
fn outcome_is_written() {
    let mut node = Node::new(3, 0, true, None);
    node.set_outcome(2, 11, true);
    assert_eq!(node.reward(2), 11);
    assert!(node.done(2));
    assert_eq!(node.reward(0), 0);
    assert!(!node.done(1));
}

#[test]
fn select_takes_first_of_greatest_score() {
    let mut node = Node::new(4, 0, true, None);
    assert_eq!(node.select_uct_action(&vec![9, 9, 9, 9]), Err(PlanError::NoSelectableChild));
    assert_eq!(node.add_child(1, 1, false), Ok(()));
    assert_eq!(node.add_child(2, 2, false), Ok(()));
    assert_eq!(node.add_child(3, 3, false), Ok(()));
    assert_eq!(node.select_uct_action(&vec![100, 5, 7, 7]), Ok(2));
    assert_eq!(node.select_uct_action(&vec![100, 7, 7, 7]), Ok(1));
    assert_eq!(node.select_uct_action(&vec![100, -3, -2, -1]), Ok(3));
    assert_eq!(node.select_uct_action(&vec![0, i64::MIN, i64::MIN, i64::MIN]), Ok(1));
}

#[test]
fn select_skips_saturated_children() {
    let mut node = Node::new(3, 0, true, None);
    assert_eq!(node.add_child(0, 1, true), Ok(()));
    assert_eq!(node.select_uct_action(&vec![5, 1, 1]), Err(PlanError::NoSelectableChild));
    assert_eq!(node.add_child(2, 2, false), Ok(()));
    assert_eq!(node.select_uct_action(&vec![5, 9, 1]), Ok(2));
}

#[test]
fn stub_copies_the_visit_counts() {
    let mut node = Node::new(3, 0, true, None);
    assert_eq!(node.update_history(0, 1, 0), Ok(()));
    assert_eq!(node.update_incomplete(0), Ok(()));
    assert_eq!(node.update_history(1, 1, 0), Ok(()));
    assert_eq!(node.update_incomplete(1), Ok(()));
    let stub = node.shallow_clone();
    assert_eq!(stub.action_n, 3);
    assert!(stub.is_head);
    assert_eq!(stub.children_visit_count, vec![0, 2, 0]);
}

#[test]
fn pick_takes_first_unvisited_draw_or_the_last() {
    let stub = NodeStub { action_n: 4, is_head: false, children_visit_count: vec![1, 0, 3, 0] };
    assert_eq!(stub.pick_expansion_action(&vec![0, 2, 3, 1]), 3);
    assert_eq!(stub.pick_expansion_action(&vec![1, 3]), 1);
    assert_eq!(stub.pick_expansion_action(&vec![0, 2, 0, 2]), 2);
    assert_eq!(stub.pick_expansion_action(&vec![2]), 2);
}

#[test]
fn random_expansion_prefers_unvisited() {
    let stub = NodeStub { action_n: 3, is_head: true, children_visit_count: vec![4, 0, 9] };
    let mut hits = 0;
    for _ in 0..200 {
        let action = stub.select_expansion_action();
        assert!(action < 3);
        if action == 1 {
            hits += 1;
        }
    }
    assert!(hits > 150);
    let full = NodeStub { action_n: 2, is_head: true, children_visit_count: vec![1, 1] };
    for _ in 0..50 {
        assert!(full.select_expansion_action() < 2);
    }
    assert_eq!(SAMPLE_LIMIT, 20);
}

#[test]
fn test_rand() {
    let mut rng = rand::thread_rng();
    for _ in 0..5 {
        println!("rand gen {} ", rng.gen_range(0..10));
    }
}
