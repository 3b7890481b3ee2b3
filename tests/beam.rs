use beam_kit::beam::{best_index, ActionApplied, BSQueue, BSState, BeamSearch, EvalAfterAction, Evaluator};
use std::rc::Rc;
use std::time::{Duration, Instant};

type Node = BSState<i64, usize>;

fn turn_of(n: &Node) -> usize {
    let mut d = 0;
    let mut cur = n;
    while let Some(p) = &cur.prev_state {
        d += 1;
        cur = p;
    }
    d
}

fn score(n: &Node) -> i64 {
    n.eval.unwrap()
}

trait ShallowClone {
    fn clone_shallow(&self) -> Self;
}

impl ShallowClone for Node {
    fn clone_shallow(&self) -> Node {
        self.duplicate()
    }
}

/// Each node offers the actions of `deltas`, each adding its delta to the
/// score; a node `depth` turns deep is finished.
struct Deltas {
    deltas: Vec<i64>,
    depth: usize,
    fast: bool,
    slow_scores: bool,
}

impl Evaluator for Deltas {
    type Action = i64;
    type State = usize;

    fn finished(&self, state: Node) -> bool {
        turn_of(&state) == self.depth
    }

    fn is_finished_state(&self, state: &Node) -> bool {
        turn_of(state) == self.depth
    }

    fn action_at(&self, _state: Node, index: usize) -> Option<i64> {
        self.deltas.get(index).copied()
    }

    fn possible_actions(&self, state: &Node, index: usize) -> Option<i64> {
        self.action_at(state.clone_shallow(), index)
    }

    fn score(&self, state: Node) -> i64 {
        let parent = state.prev_state.as_ref().unwrap();
        score(parent) + state.action.unwrap()
    }

    fn evaluate(&self, state: &Node) -> i64 {
        self.score(state.clone_shallow())
    }

    fn fast(&self, state: Node, action: i64) -> Option<EvalAfterAction> {
        if self.fast {
            Some(EvalAfterAction { turn: turn_of(&state) + 1, eval: score(&state) + action })
        } else {
            None
        }
    }

    fn evaluate_after_action(&self, state: &Node, action: &i64) -> Option<EvalAfterAction> {
        self.fast(state.clone_shallow(), *action)
    }

    fn slow(&self, state: Node, action: i64) -> ActionApplied<usize> {
        let turn = turn_of(&state) + 1;
        ActionApplied {
            state: Some(turn),
            turn,
            eval: if self.slow_scores { Some(score(&state) + action) } else { None },
        }
    }

    fn apply_action(&self, state: &Node, action: &i64) -> ActionApplied<usize> {
        self.slow(state.clone_shallow(), *action)
    }
}

fn seeded(width: usize) -> BSQueue<i64, usize> {
    let mut q = BSQueue::new(width);
    q.push(BSState::root(Some(0), 0));
    q
}

fn child(parent: &Rc<Node>, delta: i64) -> Node {
    BSState {
        prev_state: Some(parent.clone()),
        action: Some(delta),
        eval: Some(score(parent) + delta),
        state: None,
    }
}

#[test]
fn worked_scenario_keeps_two_best() {
    let root = Rc::new(BSState::root(Some(0), 0));
    let mut turn_one = BSQueue::new(2);
    for d in [5, 3, 1] {
        turn_one.push(child(&root, d));
    }
    turn_one.sort_truncate();
    assert_eq!(turn_one.len(), 2);
    assert_eq!(turn_one.pop().map(|n| n.action), Some(Some(5)));
    assert_eq!(turn_one.pop().map(|n| n.action), Some(Some(3)));
    assert!(turn_one.pop().is_none());

    let e = Deltas { deltas: vec![5, 3, 1], depth: 2, fast: false, slow_scores: true };
    let mut bs = BeamSearch::new(&e, 3, 2, seeded(2));
    let best = bs.search(Duration::from_secs(5)).expect("a finished node");
    let expected: i64 = 5 + 5;
    assert_eq!(score(&best), expected);
    assert_eq!(best.actions(), vec![5, 5]);
    assert_eq!(best.state, Some(2));
}

#[test]
fn width_bound_after_truncation() {
    let root = Rc::new(BSState::root(None, 0));
    let mut q = BSQueue::new(3);
    for d in [4, 9, 1, 7, 7] {
        q.push(child(&root, d));
    }
    assert!(q.len() <= 5);
    q.sort_truncate();
    assert_eq!(q.len(), 3);
    assert!(!q.is_empty());
}

#[test]
fn full_buffer_consolidates_on_push() {
    let root = Rc::new(BSState::root(None, 0));
    let mut q = BSQueue::new(2);
    for d in [1, 2, 3, 4] {
        q.push(child(&root, d));
    }
    assert_eq!(q.len(), 2);
    q.push(child(&root, 2));
    assert_eq!(q.len(), 2);
    q.push(child(&root, 3));
    assert_eq!(q.len(), 3);
    let scores: Vec<i64> = q.to_vec().iter().map(score).collect();
    assert_eq!(scores, vec![4, 3]);
    assert_eq!(q.len(), 2);
    assert_eq!(q.pop().map(|n| score(&n)), Some(4));
}

#[test]
fn threshold_rejects_lower_scores() {
    let root = Rc::new(BSState::root(None, 0));
    let mut q = BSQueue::new(2);
    for d in [10, 20, 30] {
        q.push(child(&root, d));
    }
    q.sort_truncate();
    assert_eq!(q.len(), 2);
    q.push(child(&root, 19));
    assert_eq!(q.len(), 2);
    q.push(child(&root, 20));
    assert_eq!(q.len(), 3);
    let scores: Vec<i64> = q.to_vec().iter().map(score).collect();
    assert_eq!(scores, vec![30, 20]);
}

#[test]
fn pops_come_out_in_descending_order() {
    let root = Rc::new(BSState::root(None, 0));
    let mut q = BSQueue::new(8);
    for d in [3, -2, 11, 7, 0, 5] {
        q.push(child(&root, d));
    }
    let mut out = vec![];
    while let Some(n) = q.pop() {
        out.push(score(&n));
    }
    assert_eq!(out, vec![11, 7, 5, 3, 0, -2]);
    let next = q.prepare_next_queue();
    assert_eq!(next.width(), 8);
    assert!(next.is_empty());
}

/// Offers actions without end; nothing is ever finished.
struct Endless;

impl Evaluator for Endless {
    type Action = i64;
    type State = usize;

    fn finished(&self, _state: Node) -> bool {
        false
    }

    fn is_finished_state(&self, _state: &Node) -> bool {
        false
    }

    fn action_at(&self, _state: Node, index: usize) -> Option<i64> {
        Some(index as i64)
    }

    fn possible_actions(&self, _state: &Node, index: usize) -> Option<i64> {
        Some(index as i64)
    }

    fn score(&self, _state: Node) -> i64 {
        0
    }

    fn evaluate(&self, _state: &Node) -> i64 {
        0
    }

    fn fast(&self, _state: Node, _action: i64) -> Option<EvalAfterAction> {
        None
    }

    fn evaluate_after_action(&self, _state: &Node, _action: &i64) -> Option<EvalAfterAction> {
        None
    }

    fn slow(&self, _state: Node, action: i64) -> ActionApplied<usize> {
        ActionApplied { state: None, turn: 1, eval: Some(action) }
    }

    fn apply_action(&self, _state: &Node, action: &i64) -> ActionApplied<usize> {
        ActionApplied { state: None, turn: 1, eval: Some(*action) }
    }
}

#[test]
fn deadline_stops_endless_enumeration() {
    let e = Endless;
    let mut bs = BeamSearch::new(&e, 2, 4, seeded(4));
    let start = Instant::now();
    let r = bs.search(Duration::from_millis(50));
    assert!(r.is_none());
    assert!(start.elapsed() < Duration::from_secs(5));
}

/// Offers nothing and finishes nothing.
struct Barren;

impl Evaluator for Barren {
    type Action = i64;
    type State = usize;

    fn finished(&self, _state: Node) -> bool {
        false
    }

    fn is_finished_state(&self, _state: &Node) -> bool {
        false
    }

    fn action_at(&self, _state: Node, _index: usize) -> Option<i64> {
        None
    }

    fn possible_actions(&self, _state: &Node, _index: usize) -> Option<i64> {
        None
    }

    fn score(&self, _state: Node) -> i64 {
        0
    }

    fn evaluate(&self, _state: &Node) -> i64 {
        0
    }

    fn fast(&self, _state: Node, _action: i64) -> Option<EvalAfterAction> {
        None
    }

    fn evaluate_after_action(&self, _state: &Node, _action: &i64) -> Option<EvalAfterAction> {
        None
    }

    fn slow(&self, _state: Node, _action: i64) -> ActionApplied<usize> {
        ActionApplied { state: None, turn: 0, eval: None }
    }

    fn apply_action(&self, _state: &Node, _action: &i64) -> ActionApplied<usize> {
        ActionApplied { state: None, turn: 0, eval: None }
    }
}

#[test]
fn barren_evaluator_ends_before_deadline() {
    let e = Barren;
    let mut bs = BeamSearch::new(&e, 3, 2, seeded(2));
    let start = Instant::now();
    assert!(bs.search(Duration::from_secs(10)).is_none());
    assert!(start.elapsed() < Duration::from_secs(2));
}

#[test]
fn fast_and_slow_paths_agree() {
    let deltas = vec![2, 9, -4, 6];
    let fast = Deltas { deltas: deltas.clone(), depth: 3, fast: true, slow_scores: true };
    let slow = Deltas { deltas: deltas.clone(), depth: 3, fast: false, slow_scores: true };
    let lazy = Deltas { deltas, depth: 3, fast: false, slow_scores: false };
    let mut results = vec![];
    for e in [&fast, &slow, &lazy] {
        let mut bs = BeamSearch::new(e, 4, 3, seeded(3));
        results.push(score(&bs.search(Duration::from_secs(5)).unwrap()));
    }
    assert_eq!(results, vec![27, 27, 27]);
}

#[test]
fn replaying_the_actions_reproduces_the_score() {
    let e = Deltas { deltas: vec![1, -3, 4, 2], depth: 4, fast: true, slow_scores: true };
    let mut bs = BeamSearch::new(&e, 5, 2, seeded(2));
    let best = bs.search(Duration::from_secs(5)).unwrap();
    let actions = best.actions();
    assert_eq!(actions.len(), 4);
    let mut node = Rc::new(BSState::root(Some(0), 0));
    for a in actions {
        let applied = e.apply_action(&node, &a);
        let next = BSState { prev_state: Some(node.clone()), action: Some(a), eval: applied.eval, state: applied.state };
        node = Rc::new(next);
    }
    assert_eq!(e.evaluate(&node), score(&best));
    assert_eq!(score(&best), 16);
}

#[test]
fn best_index_prefers_first_of_equals() {
    let mk = |s: i64| Rc::new(BSState::<i64, usize>::root(None, s));
    assert_eq!(best_index(&vec![mk(3), mk(8), mk(1), mk(8)]), Some(1));
    assert_eq!(best_index::<i64, usize>(&vec![]), None);
    assert_eq!(best_index(&vec![mk(-5)]), Some(0));
}

#[test]
fn children_follow_their_path() {
    let e = Deltas { deltas: vec![5], depth: 2, fast: false, slow_scores: false };
    let root = Rc::new(BSState::root(Some(0), 0));
    let applied = e.apply_action(&root, &5);
    let (turn, c) = beam_kit::beam::child_from_applied(&root, 5, applied);
    assert_eq!(turn, 1);
    assert_eq!(c.eval, None);
    let c = beam_kit::beam::with_score(c, 41);
    assert_eq!(c.eval, Some(41));
    let (turn, f) = beam_kit::beam::child_from_fast(&root, 7, EvalAfterAction { turn: 1, eval: 12 });
    assert_eq!((turn, f.eval, f.state), (1, Some(12), None));
    assert_eq!(f.actions(), vec![7]);
    assert_eq!(root.actions(), Vec::<i64>::new());
}

#[test]
fn equal_scores_fill_the_width() {
    let root = Rc::new(BSState::root(None, 0));
    let mut q = BSQueue::new(2);
    for d in [5, 5, 5] {
        q.push(child(&root, d));
    }
    q.sort_truncate();
    assert_eq!(q.len(), 2);
    q.push(child(&root, 5));
    assert_eq!(q.len(), 3);
    let scores: Vec<i64> = q.to_vec().iter().map(score).collect();
    assert_eq!(scores, vec![5, 5]);
}

#[test]
fn width_one_keeps_only_the_best() {
    let e = Deltas { deltas: vec![1, 4, 2], depth: 3, fast: true, slow_scores: true };
    let mut bs = BeamSearch::new(&e, 4, 1, seeded(1));
    let best = bs.search(Duration::from_secs(5)).unwrap();
    assert_eq!(score(&best), 12);
    assert_eq!(best.actions(), vec![4, 4, 4]);
    assert_eq!(turn_of(&best), 3);
}

#[test]
fn children_past_the_last_turn_are_dropped() {
    let e = Deltas { deltas: vec![1], depth: 5, fast: false, slow_scores: true };
    let mut bs = BeamSearch::new(&e, 2, 2, seeded(2));
    assert!(bs.search(Duration::from_secs(5)).is_none());
}

#[test]
fn empty_queues_give_nothing() {
    let e = Deltas { deltas: vec![1, 2], depth: 1, fast: false, slow_scores: true };
    let mut bs = BeamSearch::new(&e, 3, 2, BSQueue::new(2));
    let start = Instant::now();
    assert!(bs.search(Duration::from_secs(10)).is_none());
    assert!(start.elapsed() < Duration::from_secs(2));
}

#[test]
fn to_vec_leaves_the_queue_as_it_was() {
    let root = Rc::new(BSState::root(Some(0), 0));
    let mut q = BSQueue::new(3);
    q.push(child(&root, 2));
    let copies = q.to_vec();
    assert_eq!(copies.len(), 1);
    assert_eq!(q.len(), 1);
    assert_eq!(copies[0].action, Some(2));
    assert!(Rc::ptr_eq(copies[0].prev_state.as_ref().unwrap(), &root));
    assert_eq!(q.pop().map(|n| n.action), Some(Some(2)));
    assert!(q.to_vec().is_empty());
}

#[test]
fn children_routed_backwards_or_too_far_are_dropped() {
    let root = Rc::new(BSState::root(None, 0));
    let mut next = vec![BSQueue::new(2), BSQueue::new(2), BSQueue::new(2)];
    beam_kit::beam::route_child(&mut next, 1, 0, child(&root, 1));
    beam_kit::beam::route_child(&mut next, 1, 3, child(&root, 2));
    assert!(next.iter().all(|q| q.is_empty()));
    beam_kit::beam::route_child(&mut next, 1, 2, child(&root, 3));
    beam_kit::beam::route_child(&mut next, 1, 1, child(&root, 4));
    assert_eq!(next.iter().map(|q| q.len()).collect::<Vec<_>>(), vec![0, 1, 1]);
    assert_eq!(next[2].pop().map(|n| n.action), Some(Some(3)));
}
