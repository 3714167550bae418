use egg::{
    AstSize, EGraph, Extractor, Id, Pattern, RecExpr, Rewrite, Runner, SimpleScheduler, SymbolLang,
};
use std::collections::VecDeque;
use std::time::Duration;
use wu_uct::eg_env::{Ckpt, EgraphEnv, StopKind};
use wu_uct::error::PlanError;
use wu_uct::paths::PathStep;
use wu_uct::tree::{Descent, ExpansionOrder, Move, SimulationOrder, Tree};
use wu_uct::workers::{expansion_reply, Reply, Rollout};

type Graph = EGraph<SymbolLang, ()>;

#[derive(Clone)]
struct Snapshot {
    counters: Ckpt,
    egraph: Graph,
}

fn rule(name: &str, from: &str, to: &str) -> Rewrite<SymbolLang, ()> {
    let searcher: Pattern<SymbolLang> = from.parse().unwrap();
    let applier: Pattern<SymbolLang> = to.parse().unwrap();
    Rewrite::new(name, searcher, applier).unwrap()
}

fn make_rules() -> Vec<Rewrite<SymbolLang, ()>> {
    vec![
        rule("commute-add", "(+ ?a ?b)", "(+ ?b ?a)"),
        rule("commute-mul", "(* ?a ?b)", "(* ?b ?a)"),
        rule("add-0", "(+ ?a 0)", "?a"),
        rule("mul-0", "(* ?a 0)", "0"),
        rule("mul-1", "(* ?a 1)", "?a"),
    ]
}

const COMMUTE_MUL: usize = 1;
const ADD_0: usize = 2;
const MUL_0: usize = 3;

/// The rewriting engine with the library's account of the episode.
struct Engine {
    account: EgraphEnv,
    start: Graph,
    egraph: Graph,
    root: Id,
    rules: Vec<Rewrite<SymbolLang, ()>>,
}

impl Engine {
    fn new(term: &str) -> Engine {
        let expr: RecExpr<SymbolLang> = term.parse().unwrap();
        let mut egraph = Graph::default();
        let root = egraph.add_expr(&expr);
        egraph.rebuild();
        let (base_cost, _) = Extractor::new(&egraph, AstSize).find_best(root);
        let rules = make_rules();
        Engine {
            account: EgraphEnv::new(rules.len(), base_cost),
            start: egraph.clone(),
            egraph,
            root,
            rules,
        }
    }

    fn step(&mut self, action: usize) -> (usize, bool, StopKind) {
        let egraph = std::mem::take(&mut self.egraph);
        let runner: Runner<SymbolLang, ()> = Runner::default()
            .with_egraph(egraph)
            .with_iter_limit(1)
            .with_node_limit(10_000)
            .with_time_limit(Duration::from_secs(10))
            .with_scheduler(SimpleScheduler)
            .run(std::iter::once(&self.rules[action]));
        let reason = runner.stop_reason.clone().unwrap();
        self.egraph = runner.egraph;
        let (best_cost, _) = Extractor::new(&self.egraph, AstSize).find_best(self.root);
        self.account.step(&reason, best_cost)
    }

    fn reset(&mut self) {
        self.account.reset();
        self.egraph = self.start.clone();
    }

    fn best(&self) -> String {
        let (_, expr) = Extractor::new(&self.egraph, AstSize).find_best(self.root);
        expr.to_string()
    }

    fn checkpoint(&self) -> Snapshot {
        Snapshot { counters: self.account.checkpoint(), egraph: self.egraph.clone() }
    }

    fn restore(&mut self, saved: Snapshot) {
        self.account.restore(saved.counters);
        self.egraph = saved.egraph;
    }
}

/// The place of a score in the order of the scores.
fn rank(score: f32) -> i64 {
    if score.is_nan() {
        return i64::MIN;
    }
    if score == 0.0 {
        return 0;
    }
    let bits = score.to_bits() as i32;
    if bits < 0 {
        (bits ^ i32::MAX) as i64
    } else {
        bits as i64
    }
}

/// A coordinator whose workers answer on the spot: every task is served
/// when it is sent, and its reply waits in line until it is collected.
struct Search {
    tree: Tree<Snapshot>,
    gamma: f32,
    max_sim_step: u32,
    q_value: Vec<Vec<f32>>,
    worker: Engine,
    expansion_replies: VecDeque<(usize, Reply<Snapshot>)>,
    simulation_replies: VecDeque<(usize, Reply<Snapshot>)>,
}

impl Search {
    fn new(term: &str, budget: u32, expansion_workers: usize, simulation_workers: usize) -> Search {
        Search {
            tree: Tree::new(budget, expansion_workers, simulation_workers),
            gamma: 0.99,
            max_sim_step: 5,
            q_value: vec![Vec::new()],
            worker: Engine::new(term),
            expansion_replies: VecDeque::new(),
            simulation_replies: VecDeque::new(),
        }
    }

    fn scores(&self, node: usize, max: bool) -> Vec<i64> {
        let at = self.tree.node(node);
        (0..at.action_n())
            .map(|a| {
                let exploit = self.q_value[node][a] / (at.complete_count(a) as f32);
                let explore = if max {
                    0.0
                } else {
                    f32::sqrt(2.0 * f32::ln(at.visit_total() as f32) / (at.visit_count(a) as f32))
                };
                rank(exploit + 2.0 * explore)
            })
            .collect()
    }

    fn discount(&mut self, steps: &[PathStep], accu_reward: f32) {
        while self.q_value.len() < self.tree.len() {
            self.q_value.push(vec![0.0; self.tree.action_n()]);
        }
        let mut rolling = accu_reward;
        for step in steps {
            rolling = step.reward as f32 + self.gamma * rolling;
            self.q_value[step.node][step.action] += rolling;
        }
    }

    fn plan(&mut self, env: &Engine) -> Result<usize, PlanError> {
        let action_n = env.account.get_action_space();
        if let Some(action) = Tree::<Snapshot>::shortcut(action_n) {
            return Ok(action);
        }
        while let Some((worker, _)) = self.expansion_replies.pop_front() {
            self.tree.release_expansion_worker(worker);
        }
        while let Some((worker, _)) = self.simulation_replies.pop_front() {
            self.tree.release_simulation_worker(worker);
        }
        self.tree.reset(action_n, env.checkpoint());
        self.q_value = vec![vec![0.0; action_n]];
        loop {
            match self.tree.advance()? {
                Move::Again => (),
                Move::Score(node) => {
                    let scores = self.scores(node, false);
                    if let Descent::Terminal(steps) = self.tree.descend(&scores)? {
                        self.discount(&steps, 0.0);
                    }
                }
                Move::SendExpansion(order) => self.expand(order),
                Move::CollectExpansion => self.collect_expansion()?,
                Move::SendSimulation(order) => self.roll_out(order),
                Move::CollectSimulation => self.collect_simulation()?,
                Move::Finish => break,
            }
        }
        let scores = self.scores(0, true);
        self.tree.best_action(&scores)
    }

    fn expand(&mut self, order: ExpansionOrder<Snapshot>) {
        self.worker.restore(order.task.checkpoint_data);
        let stub = order.task.shallow_copy_node;
        let draws: Vec<usize> = (0..stub.action_n).collect();
        let action = stub.pick_expansion_action(&draws);
        let (reward, done, stop) = self.worker.step(action);
        let snapshot = if done { None } else { Some(self.worker.checkpoint()) };
        let reply = expansion_reply(
            &stub,
            action,
            reward,
            done,
            stop,
            snapshot,
            order.saving_idx,
            order.task_id,
        );
        self.expansion_replies.push_back((order.worker, reply));
    }

    fn collect_expansion(&mut self) -> Result<(), PlanError> {
        let (worker, reply) = self.expansion_replies.pop_front().unwrap();
        self.tree.release_expansion_worker(worker);
        if let Reply::DoneExpansion {
            expand_action,
            reward,
            done,
            child_saturated,
            new_checkpoint_data,
            saving_idx,
            task_idx,
        } = reply
        {
            let steps = self.tree.apply_expansion_reply(
                expand_action,
                reward,
                done,
                child_saturated,
                new_checkpoint_data,
                saving_idx,
                task_idx,
            )?;
            if let Some(steps) = steps {
                self.discount(&steps, 0.0);
            }
            Ok(())
        } else {
            panic!("not an expansion reply");
        }
    }

    fn roll_out(&mut self, order: SimulationOrder<Snapshot>) {
        self.worker.restore(order.checkpoint_data);
        let mut rollout = Rollout::new(self.max_sim_step);
        while let Some(action) = rollout.next_action(self.worker.account.get_action_space()) {
            let (reward, done, _) = self.worker.step(action);
            rollout.record(reward, done);
        }
        let reply = Reply::DoneSimulation(order.task_id, rollout.into_rewards());
        self.simulation_replies.push_back((order.worker, reply));
    }

    fn collect_simulation(&mut self) -> Result<(), PlanError> {
        let (worker, reply) = self.simulation_replies.pop_front().unwrap();
        self.tree.release_simulation_worker(worker);
        if let Reply::DoneSimulation(task_idx, rewards) = reply {
            let mut accu_reward = 0.0;
            let mut accu_gamma = 1.0;
            for reward in rewards {
                accu_reward += reward as f32 * accu_gamma;
                accu_gamma *= self.gamma;
            }
            let steps = self.tree.apply_simulation_reply(task_idx)?;
            self.discount(&steps, accu_reward);
            Ok(())
        } else {
            panic!("not a rollout reply");
        }
    }
}

/// Plans and steps until the cost is down to 1 or the episode is over.
/// Returns the actions taken, the sum of the rewards, and the last cost.
fn run(term: &str, budget: u32) -> (Vec<usize>, usize, usize, String) {
    let mut env = Engine::new(term);
    env.reset();
    let mut search = Search::new(term, budget, 1, 1);
    let mut actions = Vec::new();
    let mut cumulative_reward = 0;
    loop {
        let action = search.plan(&env).unwrap();
        assert_eq!(search.tree.simulation_count(), budget);
        let (reward, done, _) = env.step(action);
        actions.push(action);
        cumulative_reward += reward;
        if done || env.account.last_cost() <= 1 {
            break;
        }
        assert!(actions.len() < 20);
    }
    (actions, cumulative_reward, env.account.last_cost(), env.best())
}

#[test]
fn product_with_zero_is_rewritten_to_zero() {
    let env = Engine::new("(* 0 42)");
    assert_eq!(env.account.base_cost(), 3);
    let (actions, cumulative_reward, cost, term) = run("(* 0 42)", 16);
    assert_eq!(actions, vec![COMMUTE_MUL, MUL_0]);
    assert!(cumulative_reward >= 2);
    assert_eq!(cost, 1);
    assert_eq!(term, "0");
}

#[test]
fn sum_with_zero_is_rewritten_to_its_term() {
    let (actions, cumulative_reward, cost, term) = run("(+ a 0)", 12);
    assert_eq!(actions, vec![ADD_0]);
    assert_eq!(cumulative_reward, 2);
    assert_eq!(cost, 1);
    assert_eq!(term, "a");
}

#[test]
fn nested_term_converges_to_its_variable() {
    let env = Engine::new("(+ (* 1 a) 0)");
    assert_eq!(env.account.base_cost(), 5);
    let (actions, cumulative_reward, cost, term) = run("(+ (* 1 a) 0)", 32);
    assert!(actions.contains(&ADD_0));
    assert_eq!(cumulative_reward, 4);
    assert_eq!(cost, 1);
    assert_eq!(term, "a");
}

#[test]
fn minimal_term_saturates_every_rule() {
    let mut env = Engine::new("a");
    assert_eq!(env.account.base_cost(), 1);
    let start = env.checkpoint();
    for action in 0..4 {
        assert_eq!(env.step(action), (0, false, StopKind::Saturated));
    }
    assert_eq!(env.step(4), (0, true, StopKind::Saturated));
    assert_eq!(env.account.last_cost(), 1);
    env.restore(start);
    assert_eq!(env.account.sat_counter(), 0);

    // One simulation for each rule: every branch of the root is saturated,
    // and none is left to choose.
    let mut search = Search::new("a", 5, 1, 1);
    assert_eq!(search.plan(&env), Err(PlanError::NoSelectableChild));
    assert_eq!(search.tree.simulation_count(), 5);
    for action in 0..5 {
        assert!(search.tree.node(0).is_saturated(action));
        assert_eq!(search.tree.node(0).reward(action), 0);
        assert_eq!(search.tree.node(0).visit_count(action), 1);
        assert_eq!(search.tree.node(0).complete_count(action), 1);
    }
}

#[test]
fn restored_engine_steps_like_its_twin() {
    let mut env = Engine::new("(+ (* 1 a) 0)");
    env.step(COMMUTE_MUL);
    let saved = env.checkpoint();
    let mut twin = Engine::new("(+ (* 1 a) 0)");
    twin.restore(saved.clone());
    env.restore(saved);
    for action in [4, ADD_0, 0, MUL_0, 4, 4] {
        assert_eq!(env.step(action), twin.step(action));
        assert_eq!(env.account.checkpoint(), twin.account.checkpoint());
        assert_eq!(env.best(), twin.best());
    }
}

#[test]
fn single_rule_needs_no_planning() {
    let mut search = Search::new("(+ a 0)", 4, 1, 1);
    let mut env = Engine::new("(+ a 0)");
    env.rules.truncate(1);
    env.account = EgraphEnv::new(1, 3);
    assert_eq!(search.plan(&env), Ok(0));
    assert_eq!(search.tree.issued(), 0);
    assert_eq!(search.tree.len(), 1);
    assert!(search.expansion_replies.is_empty());
    assert!(search.simulation_replies.is_empty());
}

#[test]
fn test_add_expr_all_return_the_all_id() {
    let expr: RecExpr<SymbolLang> = "(+ (* 1 a) 0)".parse().unwrap();
    let mut first = Graph::default();
    let mut second = Graph::default();
    assert_eq!(first.add_expr(&expr), second.add_expr(&expr));
    let env = Engine::new("(+ (* 1 a) 0)");
    assert_eq!(env.root, first.add_expr(&expr));
}
