//! The driver: passes over the turns' queues under a time budget, and the
//! evaluator that supplies the problem.

use super::node::{score_of, BSState};
use super::queue::{lemma_pop_from_entries, lemma_push_keeps_entries, BSQueue};
use std::rc::Rc;
use std::time::{Duration, Instant};
use vstd::prelude::*;

verus! {

/// What the fast path of an evaluator reports of a child: its turn and score.
pub struct EvalAfterAction {
    pub turn: usize,
    pub eval: i64,
}

/// What the slow path of an evaluator reports of a child: its domain state,
/// if it materialised one, its turn and, if it computed one, its score.
pub struct ActionApplied<S> {
    pub state: Option<S>,
    pub turn: usize,
    pub eval: Option<i64>,
}

/// The problem-specific side of a beam search.
pub trait Evaluator {
    type Action;

    type State;

    /// Whether `state` is a complete solution.
    spec fn finished(&self, state: BSState<Self::Action, Self::State>) -> bool;

    /// Whether `state` is a complete solution; such a node is not expanded.
    fn is_finished_state(&self, state: &BSState<Self::Action, Self::State>) -> (r: bool)
        ensures
            r == self.finished(*state),
    ;

    /// The action numbered `index` among those possible from `state`, or
    /// `None` once they are exhausted.
    spec fn action_at(&self, state: BSState<Self::Action, Self::State>, index: usize) -> Option<Self::Action>;

    /// The action numbered `index` among those possible from `state`, or
    /// `None` once they are exhausted. The driver asks for the numbers in
    /// increasing order and may stop at any of them.
    fn possible_actions(&self, state: &BSState<Self::Action, Self::State>, index: usize) -> (r: Option<
        Self::Action,
    >)
        ensures
            r == self.action_at(*state, index),
    ;

    /// The score of a node whose transition did not supply one.
    spec fn score(&self, state: BSState<Self::Action, Self::State>) -> i64;

    /// Scores a node whose transition did not supply a score; the node it
    /// is handed carries none yet.
    fn evaluate(&self, state: &BSState<Self::Action, Self::State>) -> (r: i64)
        ensures
            r == self.score(*state),
    ;

    /// What the fast path reports of the child that `action` leads to.
    spec fn fast(&self, state: BSState<Self::Action, Self::State>, action: Self::Action) -> Option<
        EvalAfterAction,
    >;

    /// The fast path: the turn and score of the child that `action` leads
    /// to, without building its domain state; `None` when the problem has
    /// no fast path, and the slow path is taken.
    fn evaluate_after_action(
        &self,
        state: &BSState<Self::Action, Self::State>,
        action: &Self::Action,
    ) -> (r: Option<EvalAfterAction>)
        ensures
            r == self.fast(*state, *action),
    ;

    /// What the slow path reports of the child that `action` leads to.
    spec fn slow(&self, state: BSState<Self::Action, Self::State>, action: Self::Action) -> ActionApplied<
        Self::State,
    >;

    /// The slow path: applies `action` to `state`. A turn earlier than the
    /// parent's, or past the search's last one, drops the child.
    fn apply_action(&self, state: &BSState<Self::Action, Self::State>, action: &Self::Action) -> (r:
        ActionApplied<Self::State>)
        ensures
            r == self.slow(*state, *action),
    ;
}

/// The turn and score that the fast path assigns to a child.
pub open spec fn fast_outcome(f: EvalAfterAction) -> (usize, i64) {
    (f.turn, f.eval)
}

/// The turn and score that the slow path assigns to a child, `fallback`
/// being what `evaluate` gives when the transition carried no score.
pub open spec fn slow_outcome<S>(a: ActionApplied<S>, fallback: i64) -> (usize, i64) {
    (a.turn, match a.eval {
        Some(e) => e,
        None => fallback,
    })
}

/// The child that the fast path describes: no domain state.
pub fn child_from_fast<A, S>(parent: &Rc<BSState<A, S>>, action: A, f: EvalAfterAction) -> (r: (
    usize,
    BSState<A, S>,
))
    ensures
        (r.0, score_of(r.1)) == fast_outcome(f),
        r.1.eval is Some,
        r.1.prev_state == Some(*parent),
        r.1.action == Some(action),
        r.1.state is None,
{
    (f.turn, BSState { prev_state: Some(parent.clone()), action: Some(action), eval: Some(f.eval), state: None })
}

/// The child that the slow path describes, its score still to be computed
/// when the transition carried none.
pub fn child_from_applied<A, S>(parent: &Rc<BSState<A, S>>, action: A, a: ActionApplied<S>) -> (r: (
    usize,
    BSState<A, S>,
))
    ensures
        r.0 == a.turn,
        r.1.eval == a.eval,
        r.1.prev_state == Some(*parent),
        r.1.action == Some(action),
        r.1.state == a.state,
{
    (a.turn, BSState { prev_state: Some(parent.clone()), action: Some(action), eval: a.eval, state: a.state })
}

/// Gives `child` the score `fallback` when it has none yet.
pub fn with_score<A, S>(child: BSState<A, S>, fallback: i64) -> (r: BSState<A, S>)
    ensures
        r.eval == Some(match child.eval {
            Some(e) => e,
            None => fallback,
        }),
        r.prev_state == child.prev_state,
        r.action == child.action,
        r.state == child.state,
{
    let mut c = child;
    if c.eval.is_none() {
        c.eval = Some(fallback);
    }
    c
}

/// When an evaluator's two paths agree on an action (the same turn, and the
/// fast score equal to the slow one or, absent that, to what `evaluate`
/// gives), the child gets the same turn and score whichever path made it.
pub proof fn lemma_fast_slow_agree<S>(f: EvalAfterAction, a: ActionApplied<S>, fallback: i64)
    requires
        a.turn == f.turn,
        match a.eval {
            Some(e) => e == f.eval,
            None => fallback == f.eval,
        },
    ensures
        fast_outcome(f) == slow_outcome(a, fallback),
{
}

/// `n` is a node that `seed` picks, or a child of an unfinished node that
/// grew from one.
pub open spec fn grown_from<E: Evaluator>(
    ev: E,
    seed: spec_fn(BSState<E::Action, E::State>) -> bool,
    n: BSState<E::Action, E::State>,
) -> bool
    decreases n,
{
    seed(n) || match n.prev_state {
        Some(p) => !ev.finished(*p) && grown_from(ev, seed, *p),
        None => false,
    }
}

/// `after` is `before` once `child`, derived from a node of turn
/// `from_turn`, was offered to the queue of its turn `turn`; a child bound
/// for an earlier turn or past the last one leaves the queues as they were.
pub open spec fn route_step<A, S>(
    before: Seq<BSQueue<A, S>>,
    after: Seq<BSQueue<A, S>>,
    from_turn: usize,
    turn: usize,
    child: BSState<A, S>,
) -> bool {
    &&& after.len() == before.len()
    &&& if from_turn <= turn < before.len() {
        &&& BSQueue::pushed(before[turn as int], after[turn as int], child)
        &&& forall|i: int| 0 <= i < before.len() && i != turn ==> #[trigger] after[i] == before[i]
    } else {
        after == before
    }
}

/// `after` is `before` once each of `kids` (a turn and a child), in order,
/// was routed from turn `from_turn`.
pub open spec fn routed<A, S>(
    before: Seq<BSQueue<A, S>>,
    after: Seq<BSQueue<A, S>>,
    from_turn: usize,
    kids: Seq<(usize, BSState<A, S>)>,
) -> bool
    decreases kids.len(),
{
    if kids.len() == 0 {
        after == before
    } else {
        exists|mid: Seq<BSQueue<A, S>>|
            routed(before, mid, from_turn, kids.drop_last()) && #[trigger] route_step(
                mid,
                after,
                from_turn,
                kids.last().0,
                kids.last().1,
            )
    }
}

/// `c` without its score.
pub open spec fn unscored<A, S>(c: BSState<A, S>) -> BSState<A, S> {
    BSState { prev_state: c.prev_state, action: c.action, eval: None, state: c.state }
}

/// `c`, bound for turn `turn`, is the child that `ev` derives from `parent`
/// by `action`: through the fast path when it reports one, else through the
/// slow path, scored by `ev`'s score when the slow path gave none.
pub open spec fn derived_child<E: Evaluator>(
    ev: E,
    parent: BSState<E::Action, E::State>,
    action: E::Action,
    turn: usize,
    c: BSState<E::Action, E::State>,
) -> bool {
    &&& c.prev_state matches Some(p) && *p == parent
    &&& c.action == Some(action)
    &&& match ev.fast(parent, action) {
        Some(f) => turn == f.turn && c.eval == Some(f.eval) && c.state is None,
        None => {
            let a = ev.slow(parent, action);
            &&& turn == a.turn
            &&& c.state == a.state
            &&& c.eval == Some(
                match a.eval {
                    Some(e) => e,
                    None => ev.score(unscored(c)),
                },
            )
        },
    }
}

/// `kid` (a turn and a child) comes from the action numbered `k` that `ev`
/// offers from `parent`.
pub open spec fn child_at<E: Evaluator>(
    ev: E,
    parent: BSState<E::Action, E::State>,
    k: int,
    kid: (usize, BSState<E::Action, E::State>),
) -> bool {
    &&& ev.action_at(parent, k as usize) is Some
    &&& derived_child(ev, parent, ev.action_at(parent, k as usize)->Some_0, kid.0, kid.1)
}

/// When `ev`'s fast path, wherever it reports, agrees with its slow path,
/// a derived child gets the turn and score of the slow path whichever path
/// made it.
pub proof fn lemma_derived_child_path_free<E: Evaluator>(
    ev: E,
    parent: BSState<E::Action, E::State>,
    action: E::Action,
    turn: usize,
    c: BSState<E::Action, E::State>,
)
    requires
        derived_child(ev, parent, action, turn, c),
        ev.fast(parent, action) matches Some(f) ==> fast_outcome(f) == slow_outcome(
            ev.slow(parent, action),
            ev.score(unscored(c)),
        ),
    ensures
        (turn, score_of(c)) == slow_outcome(ev.slow(parent, action), ev.score(unscored(c))),
{
}

/// `kids` are the children that `ev` derives from `parent` by its first
/// actions, in order.
pub open spec fn children_of<E: Evaluator>(
    ev: E,
    parent: BSState<E::Action, E::State>,
    kids: Seq<(usize, BSState<E::Action, E::State>)>,
) -> bool {
    forall|k: int|
        #![trigger kids[k]]
        0 <= k < kids.len() ==> child_at(ev, parent, k, kids[k])
}

/// Pushes `child`, derived from a node of turn `from_turn`, into the queue
/// of its turn `turn` among `next`. A child routed to an earlier turn than
/// its parent's, or past the last turn, is dropped.
pub fn route_child<A, S>(next: &mut Vec<BSQueue<A, S>>, from_turn: usize, turn: usize, child: BSState<A, S>)
    requires
        child.eval is Some,
        forall|i: int| 0 <= i < old(next)@.len() ==> (#[trigger] old(next)@[i]).wf(),
    ensures
        final(next)@.len() == old(next)@.len(),
        forall|i: int| 0 <= i < final(next)@.len() ==> (#[trigger] final(next)@[i]).wf(),
        route_step(old(next)@, final(next)@, from_turn, turn, child),
{
    if from_turn <= turn && turn < next.len() {
        next[turn].push(child);
    }
}

/// The nodes of `s` that `ev` deems finished, in order.
pub open spec fn finished_of<E: Evaluator>(ev: E, s: Seq<BSState<E::Action, E::State>>) -> Seq<
    BSState<E::Action, E::State>,
>
    decreases s.len(),
{
    if s.len() == 0 {
        Seq::empty()
    } else if ev.finished(s.last()) {
        finished_of(ev, s.drop_last()).push(s.last())
    } else {
        finished_of(ev, s.drop_last())
    }
}

/// The nodes of `s` that `ev` does not deem finished, in order.
pub open spec fn unfinished_of<E: Evaluator>(ev: E, s: Seq<BSState<E::Action, E::State>>) -> Seq<
    BSState<E::Action, E::State>,
>
    decreases s.len(),
{
    if s.len() == 0 {
        Seq::empty()
    } else if ev.finished(s.last()) {
        unfinished_of(ev, s.drop_last())
    } else {
        unfinished_of(ev, s.drop_last()).push(s.last())
    }
}

/// `kids` are all the children of `parent`: `ev` offers no action past
/// them (or their count reached the largest index).
pub open spec fn complete<E: Evaluator>(
    ev: E,
    parent: BSState<E::Action, E::State>,
    kids: Seq<(usize, BSState<E::Action, E::State>)>,
) -> bool {
    ev.action_at(parent, kids.len() as usize) is None || kids.len() == usize::MAX
}

/// The position of the best-scoring node of `nodes`, the first one among
/// equals; `None` when there is none.
pub fn best_index<A, S>(nodes: &Vec<Rc<BSState<A, S>>>) -> (r: Option<usize>)
    ensures
        r is None <==> nodes@.len() == 0,
        r matches Some(i) ==> {
            &&& i < nodes@.len()
            &&& forall|j: int| 0 <= j < nodes@.len() ==> score_of(*#[trigger] nodes@[j]) <= score_of(*nodes@[i as int])
            &&& forall|j: int| 0 <= j < i ==> score_of(*#[trigger] nodes@[j]) < score_of(*nodes@[i as int])
        },
{
    if nodes.len() == 0 {
        return None;
    }
    let mut best: usize = 0;
    let mut k: usize = 1;
    while k < nodes.len()
        invariant
            0 <= best < k <= nodes@.len(),
            forall|j: int| 0 <= j < k ==> score_of(*#[trigger] nodes@[j]) <= score_of(*nodes@[best as int]),
            forall|j: int| 0 <= j < best ==> score_of(*#[trigger] nodes@[j]) < score_of(*nodes@[best as int]),
        decreases nodes@.len() - k,
    {
        if nodes[k].score_key() > nodes[best].score_key() {
            best = k;
        }
        k = k + 1;
    }
    Some(best)
}

#[verifier::external_type_specification]
#[verifier::external_body]
pub struct ExInstant(Instant);

/// Relies on `Instant::now`: a reading of the monotonic clock.
#[verifier::external_body]
fn start_timer() -> Instant {
    Instant::now()
}

/// Relies on `Instant::elapsed`: the time passed since `timer` was read.
#[verifier::external_body]
fn elapsed(timer: &Instant) -> Duration {
    timer.elapsed()
}

/// Relies on `Duration`'s `PartialOrd::ge`: whether `a` is at least as long
/// as `b`.
#[verifier::external_body]
fn at_least(a: Duration, b: Duration) -> bool {
    a >= b
}

/// How many checks go by between two readings of the clock.
pub const CHECK_INTERVAL: u64 = 1000;

/// A time budget that is checked cheaply: the clock is read on every
/// `CHECK_INTERVAL`-th check only.
struct Deadline {
    timer: Instant,
    budget: Duration,
    checks: u64,
}

impl Deadline {
    fn start(budget: Duration) -> (r: Self)
        ensures
            r.checks == 0,
    {
        Deadline { timer: start_timer(), budget, checks: 0 }
    }

    /// Whether time is left; counts one check. Once the counter is spent
    /// there is no time left.
    fn has_time(&mut self) -> (r: bool)
        ensures
            final(self).checks >= old(self).checks,
            r ==> final(self).checks == old(self).checks + 1,
            old(self).checks == 0 ==> r,
    {
        if self.checks == u64::MAX {
            return false;
        }
        self.checks = self.checks + 1;
        if self.checks % CHECK_INTERVAL == 0 {
            !at_least(elapsed(&self.timer), self.budget)
        } else {
            true
        }
    }
}

/// `q` is an empty queue of width `width`, as `BSQueue::new` makes it.
pub open spec fn is_fresh<A, S>(q: BSQueue<A, S>, width: nat) -> bool {
    &&& q.wf()
    &&& q.entries().len() == 0
    &&& q.spec_width() == width
    &&& q.threshold() is None
    &&& !q.dirty()
}

/// `after` is `before` once the children of each expansion of `list` (the
/// turn of the expanded node and its children), in order, were routed.
pub open spec fn routed_all<A, S>(
    before: Seq<BSQueue<A, S>>,
    after: Seq<BSQueue<A, S>>,
    list: Seq<(usize, Seq<(usize, BSState<A, S>)>)>,
) -> bool
    decreases list.len(),
{
    if list.len() == 0 {
        after == before
    } else {
        exists|mid: Seq<BSQueue<A, S>>|
            routed_all(before, mid, list.drop_last()) && #[trigger] routed(mid, after, list.last().0, list.last().1)
    }
}

/// `x` is one of the children of `kids`.
pub open spec fn kid_in<A, S>(kids: Seq<(usize, BSState<A, S>)>, x: BSState<A, S>) -> bool {
    exists|k: int| 0 <= k < kids.len() && (#[trigger] kids[k]).1 == x
}

/// `x` is one of the children of some expansion of `exps`.
pub open spec fn derived_in<A, S>(exps: Seq<Seq<(usize, BSState<A, S>)>>, x: BSState<A, S>) -> bool {
    exists|j: int| 0 <= j < exps.len() && kid_in(#[trigger] exps[j], x)
}

/// The expansions from position `from` on, each with the turn of its node.
pub open spec fn pass_list<A, S>(turns: Seq<usize>, exps: Seq<Seq<(usize, BSState<A, S>)>>, from: int) -> Seq<
    (usize, Seq<(usize, BSState<A, S>)>),
> {
    pass_range(turns, exps, from, exps.len() as int)
}

/// The expansions at positions `from` to `to`, each with the turn of its
/// node.
pub open spec fn pass_range<A, S>(
    turns: Seq<usize>,
    exps: Seq<Seq<(usize, BSState<A, S>)>>,
    from: int,
    to: int,
) -> Seq<(usize, Seq<(usize, BSState<A, S>)>)> {
    Seq::new((to - from) as nat, |j: int| (turns[from + j], exps[from + j]))
}

/// `qs` are `count` fresh queues of width `width` once the children of
/// `list` were routed into them.
pub open spec fn routed_from_fresh<A, S>(
    qs: Seq<BSQueue<A, S>>,
    width: nat,
    count: nat,
    list: Seq<(usize, Seq<(usize, BSState<A, S>)>)>,
) -> bool {
    exists|fresh: Seq<BSQueue<A, S>>|
        {
            &&& fresh.len() == count
            &&& forall|t: int| 0 <= t < fresh.len() ==> is_fresh(#[trigger] fresh[t], width)
            &&& #[trigger] routed_all(fresh, qs, list)
        }
}

/// `x` is pending in one of the queues `qs`.
pub open spec fn pending_in<A, S>(qs: Seq<BSQueue<A, S>>, x: BSState<A, S>) -> bool {
    exists|t: int| 0 <= t < qs.len() && (#[trigger] qs[t]).entries().contains(x)
}

/// The end, in the popped nodes, of pass `p` of `starts`.
pub open spec fn pass_end(starts: Seq<(int, int)>, p: int, popped_len: int) -> int {
    if p + 1 < starts.len() {
        starts[p + 1].0
    } else {
        popped_len
    }
}

/// What the passes of a search record: where each began in the popped
/// nodes and in the expansions, and the queues it began with. The first
/// began with `initial`; each later one with fresh queues of width `width`
/// into which the previous pass routed the children of its expansions;
/// every pass but the last popped a node, and each node a pass popped was
/// pending in one of the queues it began with.
pub open spec fn passes_ok<A, S>(
    initial: Seq<BSQueue<A, S>>,
    width: nat,
    popped: Seq<BSState<A, S>>,
    exps: Seq<Seq<(usize, BSState<A, S>)>>,
    turns: Seq<usize>,
    starts: Seq<(int, int)>,
    queues: Seq<Seq<BSQueue<A, S>>>,
) -> bool {
    &&& starts.len() == queues.len()
    &&& starts.len() > 0 ==> queues[0] == initial && starts[0] == (0int, 0int)
    &&& forall|p: int| 0 <= p < starts.len() ==> {
        &&& 0 <= (#[trigger] starts[p]).0 <= popped.len()
        &&& 0 <= starts[p].1 <= exps.len()
        &&& queues[p].len() == initial.len()
    }
    &&& forall|p: int|
        0 < p < starts.len() ==> #[trigger] starts[p].0 > starts[p - 1].0 && starts[p].1 >= starts[p - 1].1
    &&& forall|p: int|
        0 < p < starts.len() ==> routed_from_fresh(
            #[trigger] queues[p],
            width,
            initial.len(),
            pass_range(turns, exps, starts[p - 1].1, starts[p].1),
        )
    &&& forall|p: int, i: int|
        #![trigger queues[p], popped[i]]
        0 <= p < starts.len() && starts[p].0 <= i < pass_end(starts, p, popped.len() as int) ==> pending_in(queues[p], popped[i])
}

/// Recording more expansions leaves the record of the passes as it was.
proof fn lemma_passes_more_expansions<A, S>(
    initial: Seq<BSQueue<A, S>>,
    width: nat,
    popped: Seq<BSState<A, S>>,
    exps: Seq<Seq<(usize, BSState<A, S>)>>,
    turns: Seq<usize>,
    starts: Seq<(int, int)>,
    queues: Seq<Seq<BSQueue<A, S>>>,
    e: Seq<(usize, BSState<A, S>)>,
    turn: usize,
)
    requires
        passes_ok(initial, width, popped, exps, turns, starts, queues),
        turns.len() == exps.len(),
    ensures
        passes_ok(initial, width, popped, exps.push(e), turns.push(turn), starts, queues),
{
    assert forall|p: int| 0 < p < starts.len() implies routed_from_fresh(
        #[trigger] queues[p],
        width,
        initial.len(),
        pass_range(turns.push(turn), exps.push(e), starts[p - 1].1, starts[p].1),
    ) by {
        assert(pass_range(turns.push(turn), exps.push(e), starts[p - 1].1, starts[p].1) =~= pass_range(
            turns,
            exps,
            starts[p - 1].1,
            starts[p].1,
        ));
    }
}

/// Recording one more popped node, pending in one of the queues the
/// current pass began with, keeps the record of the passes.
proof fn lemma_passes_more_popped<A, S>(
    initial: Seq<BSQueue<A, S>>,
    width: nat,
    popped: Seq<BSState<A, S>>,
    exps: Seq<Seq<(usize, BSState<A, S>)>>,
    turns: Seq<usize>,
    starts: Seq<(int, int)>,
    queues: Seq<Seq<BSQueue<A, S>>>,
    x: BSState<A, S>,
    t: int,
)
    requires
        passes_ok(initial, width, popped, exps, turns, starts, queues),
        starts.len() > 0,
        0 <= t < initial.len(),
        queues.last()[t].entries().contains(x),
    ensures
        passes_ok(initial, width, popped.push(x), exps, turns, starts, queues),
{
    let np = popped.push(x);
    assert forall|p: int, i: int|
        #![trigger queues[p], np[i]]
        0 <= p < starts.len() && starts[p].0 <= i < pass_end(starts, p, np.len() as int) implies pending_in(queues[p], np[i]) by {
        if i < popped.len() {
            assert(np[i] == popped[i]);
            if p + 1 < starts.len() {
                assert(pass_end(starts, p, np.len() as int) == pass_end(starts, p, popped.len() as int));
            }
        } else {
            assert(np[i] == x);
            if p + 1 < starts.len() {
                assert(starts[p + 1].0 <= popped.len());
            }
            assert(queues[p] == queues.last());
            assert(queues[p][t].entries().contains(x));
        }
    }
}

/// Beginning a new pass with `q` keeps the record of the passes when the
/// previous pass popped a node and routed its children into fresh queues
/// that became `q` (or, for the first pass, when `q` is the initial queues).
proof fn lemma_passes_new_pass<A, S>(
    initial: Seq<BSQueue<A, S>>,
    width: nat,
    popped: Seq<BSState<A, S>>,
    exps: Seq<Seq<(usize, BSState<A, S>)>>,
    turns: Seq<usize>,
    starts: Seq<(int, int)>,
    queues: Seq<Seq<BSQueue<A, S>>>,
    q: Seq<BSQueue<A, S>>,
)
    requires
        passes_ok(initial, width, popped, exps, turns, starts, queues),
        q.len() == initial.len(),
        starts.len() == 0 ==> q == initial && popped.len() == 0 && exps.len() == 0,
        starts.len() > 0 ==> {
            &&& popped.len() > starts.last().0
            &&& routed_from_fresh(q, width, initial.len(), pass_range(turns, exps, starts.last().1, exps.len() as int))
        },
    ensures
        passes_ok(
            initial,
            width,
            popped,
            exps,
            turns,
            starts.push((popped.len() as int, exps.len() as int)),
            queues.push(q),
        ),
{
    let ns = starts.push((popped.len() as int, exps.len() as int));
    let nq = queues.push(q);
    assert forall|p: int| 0 <= p < ns.len() implies {
        &&& 0 <= (#[trigger] ns[p]).0 <= popped.len()
        &&& 0 <= ns[p].1 <= exps.len()
        &&& nq[p].len() == initial.len()
    } by {
        if p < starts.len() {
            assert(ns[p] == starts[p]);
            assert(nq[p] == queues[p]);
        }
    }
    assert forall|p: int| 0 < p < ns.len() implies #[trigger] ns[p].0 > ns[p - 1].0 && ns[p].1 >= ns[p - 1].1 by {
        if p < starts.len() {
            assert(ns[p] == starts[p]);
            assert(ns[p - 1] == starts[p - 1]);
        } else {
            assert(ns[p - 1] == starts.last());
        }
    }
    assert forall|p: int| 0 < p < ns.len() implies routed_from_fresh(
        #[trigger] nq[p],
        width,
        initial.len(),
        pass_range(turns, exps, ns[p - 1].1, ns[p].1),
    ) by {
        if p < starts.len() {
            assert(ns[p] == starts[p]);
            assert(ns[p - 1] == starts[p - 1]);
            assert(nq[p] == queues[p]);
        } else {
            assert(ns[p - 1] == starts.last());
            assert(nq[p] == q);
        }
    }
    assert forall|p: int, i: int|
        #![trigger nq[p], popped[i]]
        0 <= p < ns.len() && ns[p].0 <= i < pass_end(ns, p, popped.len() as int) implies pending_in(nq[p], popped[i]) by {
        assert(p < starts.len());
        assert(ns[p] == starts[p]);
        assert(nq[p] == queues[p]);
        if p + 1 < starts.len() {
            assert(ns[p + 1] == starts[p + 1]);
        } else {
            assert(ns[p + 1].0 == popped.len());
        }
    }
    if starts.len() > 0 {
        assert(nq[0] == queues[0]);
        assert(ns[0] == starts[0]);
    }
}

/// Routing expansions that have no children changes no queue.
proof fn lemma_routed_all_nothing<A, S>(
    before: Seq<BSQueue<A, S>>,
    after: Seq<BSQueue<A, S>>,
    list: Seq<(usize, Seq<(usize, BSState<A, S>)>)>,
)
    requires
        routed_all(before, after, list),
        forall|j: int| 0 <= j < list.len() ==> (#[trigger] list[j]).1.len() == 0,
    ensures
        after == before,
    decreases list.len(),
{
    if list.len() > 0 {
        let mid = choose|mid: Seq<BSQueue<A, S>>|
            routed_all(before, mid, list.drop_last()) && #[trigger] routed(mid, after, list.last().0, list.last().1);
        assert(list.last() == list[list.len() - 1]);
        assert forall|j: int| 0 <= j < list.drop_last().len() implies (#[trigger] list.drop_last()[j]).1.len() == 0 by {
            assert(list.drop_last()[j] == list[j]);
        }
        lemma_routed_all_nothing(before, mid, list.drop_last());
    }
}

/// When the evaluator offers no action from any node, a search runs at
/// most two passes: the one over the nodes it began with, then one over
/// empty queues, after which it stops.
pub proof fn lemma_barren_search<E: Evaluator>(
    ev: E,
    initial: Seq<BSQueue<E::Action, E::State>>,
    width: nat,
    popped: Seq<BSState<E::Action, E::State>>,
    exps: Seq<Seq<(usize, BSState<E::Action, E::State>)>>,
    turns: Seq<usize>,
    starts: Seq<(int, int)>,
    queues: Seq<Seq<BSQueue<E::Action, E::State>>>,
    expanded: Seq<BSState<E::Action, E::State>>,
)
    requires
        passes_ok(initial, width, popped, exps, turns, starts, queues),
        expanded.len() == exps.len(),
        forall|j: int| 0 <= j < exps.len() ==> children_of(ev, expanded[j], #[trigger] exps[j]),
        forall|n: BSState<E::Action, E::State>| #[trigger] ev.action_at(n, 0) is None,
    ensures
        starts.len() <= 2,
{
    if starts.len() > 2 {
        assert forall|j: int| 0 <= j < exps.len() implies (#[trigger] exps[j]).len() == 0 by {
            if exps[j].len() > 0 {
                assert(children_of(ev, expanded[j], exps[j]));
                assert(child_at(ev, expanded[j], 0, exps[j][0]));
                assert(ev.action_at(expanded[j], 0) is None);
            }
        }
        let list = pass_range(turns, exps, starts[0].1, starts[1].1);
        assert(starts[1].0 > starts[0].0 && starts[1].1 >= starts[0].1);
        assert(starts[2].0 > starts[1].0);
        assert(0 <= starts[1].1 <= exps.len() && 0 <= starts[2].0 <= popped.len());
        assert(routed_from_fresh(queues[1], width, initial.len(), list));
        let fresh = choose|fresh: Seq<BSQueue<E::Action, E::State>>|
            {
                &&& fresh.len() == initial.len()
                &&& forall|t: int| 0 <= t < fresh.len() ==> is_fresh(#[trigger] fresh[t], width)
                &&& #[trigger] routed_all(fresh, queues[1], list)
            };
        assert forall|j: int| 0 <= j < list.len() implies (#[trigger] list[j]).1.len() == 0 by {
            assert(list[j].1 == exps[starts[0].1 + j]);
        }
        lemma_routed_all_nothing(fresh, queues[1], list);
        let i = starts[1].0;
        assert(pass_end(starts, 1, popped.len() as int) == starts[2].0);
        assert(pending_in(queues[1], popped[i]));
        let t = choose|t: int| 0 <= t < queues[1].len() && (#[trigger] queues[1][t]).entries().contains(popped[i]);
        assert(is_fresh(fresh[t], width));
    }
}

/// `count` empty queues of width `width`.
fn fresh_queues<A, S>(count: usize, width: usize) -> (r: Vec<BSQueue<A, S>>)
    requires
        0 < width <= usize::MAX / 2,
    ensures
        r@.len() == count,
        forall|i: int| 0 <= i < count ==> (#[trigger] r@[i]).wf() && r@[i].entries().len() == 0,
        forall|i: int| 0 <= i < count ==> is_fresh(#[trigger] r@[i], width as nat),
{
    let mut r: Vec<BSQueue<A, S>> = Vec::new();
    while r.len() < count
        invariant
            0 < width <= usize::MAX / 2,
            r@.len() <= count,
            forall|i: int| 0 <= i < r@.len() ==> (#[trigger] r@[i]).wf() && r@[i].entries().len() == 0,
            forall|i: int| 0 <= i < r@.len() ==> is_fresh(#[trigger] r@[i], width as nat),
        decreases count - r@.len(),
    {
        r.push(BSQueue::new(width));
    }
    r
}

/// A beam search: one bounded queue per turn, expanded pass after pass
/// until the time budget runs out or a pass finds nothing to expand.
pub struct BeamSearch<'a, E: Evaluator> {
    evaluator: &'a E,
    width: usize,
    queues: Vec<BSQueue<E::Action, E::State>>,
    found: Ghost<Seq<BSState<E::Action, E::State>>>,
    popped: Ghost<Seq<BSState<E::Action, E::State>>>,
    expansions: Ghost<Seq<Seq<(usize, BSState<E::Action, E::State>)>>>,
    expansion_turns: Ghost<Seq<usize>>,
    last_pass: Ghost<int>,
    pass_starts: Ghost<Seq<(int, int)>>,
    pass_queues: Ghost<Seq<Seq<BSQueue<E::Action, E::State>>>>,
}

impl<'a, E: Evaluator> BeamSearch<'a, E> {
    /// The driver is well formed.
    pub closed spec fn wf(&self) -> bool {
        &&& self.queues@.len() > 0
        &&& 0 < self.width <= usize::MAX / 2
        &&& forall|i: int| 0 <= i < self.queues@.len() ==> (#[trigger] self.queues@[i]).wf()
    }

    /// The number of turns.
    pub closed spec fn max_turn(&self) -> nat {
        self.queues@.len()
    }

    /// The queue of turn `t`.
    pub closed spec fn queue(&self, t: int) -> BSQueue<E::Action, E::State> {
        self.queues@[t]
    }

    /// The evaluator the search consults.
    pub closed spec fn spec_evaluator(&self) -> E {
        *self.evaluator
    }

    /// The finished nodes that the last search recorded, in the order it
    /// found them.
    pub closed spec fn found(&self) -> Seq<BSState<E::Action, E::State>> {
        self.found@
    }

    /// The nodes that the last search popped, in order.
    pub closed spec fn popped(&self) -> Seq<BSState<E::Action, E::State>> {
        self.popped@
    }

    /// For each unfinished node that the last search popped, in order, the
    /// children (turn and node) that it derived and routed.
    pub closed spec fn expansions(&self) -> Seq<Seq<(usize, BSState<E::Action, E::State>)>> {
        self.expansions@
    }

    /// For each of `expansions`, the turn of the queue its node was popped
    /// from.
    pub closed spec fn expansion_turns(&self) -> Seq<usize> {
        self.expansion_turns@
    }

    /// The position in `expansions` where the last pass began.
    pub closed spec fn last_pass(&self) -> int {
        self.last_pass@
    }

    /// For each pass of the last search, where it began among the popped
    /// nodes and among the expansions.
    pub closed spec fn pass_starts(&self) -> Seq<(int, int)> {
        self.pass_starts@
    }

    /// For each pass of the last search, the queues it began with.
    pub closed spec fn pass_queues(&self) -> Seq<Seq<BSQueue<E::Action, E::State>>> {
        self.pass_queues@
    }

    /// The width of each queue.
    pub closed spec fn spec_width(&self) -> nat {
        self.width as nat
    }

    /// The queues, turn by turn.
    pub closed spec fn all_queues(&self) -> Seq<BSQueue<E::Action, E::State>> {
        self.queues@
    }

    /// The expansions of the last pass, each with the turn of its node.
    pub open spec fn last_pass_expansions(&self) -> Seq<(usize, Seq<(usize, BSState<E::Action, E::State>)>)> {
        pass_list(self.expansion_turns(), self.expansions(), self.last_pass())
    }

    /// `n` is pending in one of the queues.
    pub open spec fn seeded(&self, n: BSState<E::Action, E::State>) -> bool {
        exists|t: int| 0 <= t < self.max_turn() && (#[trigger] self.queue(t)).entries().contains(n)
    }

    /// `n` is pending in one of the queues, or descends from such a node
    /// through unfinished nodes only.
    pub open spec fn grown(&self, n: BSState<E::Action, E::State>) -> bool {
        grown_from(self.spec_evaluator(), |m: BSState<E::Action, E::State>| self.seeded(m), n)
    }

    /// A search over `max_turn` turns that keeps `width` nodes per turn,
    /// starting from the nodes of `init_queue` in turn 0.
    pub fn new(evaluator: &'a E, max_turn: usize, width: usize, init_queue: BSQueue<E::Action, E::State>) -> (r: Self)
        requires
            max_turn > 0,
            0 < width <= usize::MAX / 2,
            init_queue.wf(),
        ensures
            r.wf(),
            r.spec_evaluator() == *evaluator,
            r.found().len() == 0,
            r.max_turn() == max_turn,
            r.queue(0) == init_queue,
            forall|t: int| 0 < t < max_turn ==> (#[trigger] r.queue(t)).entries().len() == 0,
    {
        let mut queues: Vec<BSQueue<E::Action, E::State>> = Vec::new();
        queues.push(init_queue);
        while queues.len() < max_turn
            invariant
                0 < width <= usize::MAX / 2,
                0 < queues@.len() <= max_turn,
                queues@[0] == init_queue,
                forall|i: int| 0 <= i < queues@.len() ==> (#[trigger] queues@[i]).wf(),
                forall|i: int| 0 < i < queues@.len() ==> (#[trigger] queues@[i]).entries().len() == 0,
            decreases max_turn - queues@.len(),
        {
            queues.push(BSQueue::new(width));
        }
        BeamSearch {
            evaluator,
            width,
            queues,
            found: Ghost(Seq::empty()),
            popped: Ghost(Seq::empty()),
            expansions: Ghost(Seq::empty()),
            expansion_turns: Ghost(Seq::empty()),
            last_pass: Ghost(0),
            pass_starts: Ghost(Seq::empty()),
            pass_queues: Ghost(Seq::empty()),
        }
    }

    /// Expands `node`, taken from the queue of turn `from_turn`: each
    /// action it offers yields a child, which `route_child` pushes into the
    /// queue of the child's turn among `next`. Returns false when time ran
    /// out before the actions were exhausted.
    fn expand(
        &self,
        node: &Rc<BSState<E::Action, E::State>>,
        from_turn: usize,
        next: &mut Vec<BSQueue<E::Action, E::State>>,
        deadline: &mut Deadline,
    ) -> (r: (bool, Ghost<Seq<(usize, BSState<E::Action, E::State>)>>))
        requires
            forall|i: int| 0 <= i < old(next)@.len() ==> (#[trigger] old(next)@[i]).wf(),
        ensures
            children_of(*self.evaluator, **node, r.1@),
            routed(old(next)@, final(next)@, from_turn, r.1@),
            r.0 ==> self.evaluator.action_at(**node, r.1@.len() as usize) is None || r.1@.len() == usize::MAX,
            final(next)@.len() == old(next)@.len(),
            forall|i: int| 0 <= i < final(next)@.len() ==> (#[trigger] final(next)@[i]).wf(),
            forall|t: int, x: BSState<E::Action, E::State>|
                0 <= t < final(next)@.len() && #[trigger] final(next)@[t].entries().contains(x) ==> old(
                    next,
                )@[t].entries().contains(x) || (x.prev_state == Some(*node) && from_turn <= t && kid_in(r.1@, x)),
            final(deadline).checks >= old(deadline).checks,
    {
        let mut index: usize = 0;
        let ghost mut kids: Seq<(usize, BSState<E::Action, E::State>)> = Seq::empty();
        loop
            invariant
                kids.len() == index,
                children_of(*self.evaluator, **node, kids),
                routed(old(next)@, next@, from_turn, kids),
                next@.len() == old(next)@.len(),
                forall|i: int| 0 <= i < next@.len() ==> (#[trigger] next@[i]).wf(),
                forall|t: int, x: BSState<E::Action, E::State>|
                    0 <= t < next@.len() && #[trigger] next@[t].entries().contains(x) ==> old(
                        next,
                    )@[t].entries().contains(x) || (x.prev_state == Some(*node) && from_turn <= t && kid_in(kids, x)),
                deadline.checks >= old(deadline).checks,
            decreases u64::MAX - deadline.checks,
        {
            if index == usize::MAX {
                return (true, Ghost(kids));
            }
            if !deadline.has_time() {
                return (false, Ghost(kids));
            }
            let action = match self.evaluator.possible_actions(node, index) {
                Some(a) => a,
                None => {
                    return (true, Ghost(kids));
                },
            };
            let ghost act = action;
            assert(self.evaluator.action_at(**node, index) == Some(act));
            let (turn, child) = match self.evaluator.evaluate_after_action(node, &action) {
                Some(f) => child_from_fast(node, action, f),
                None => {
                    let applied = self.evaluator.apply_action(node, &action);
                    let (turn, child) = child_from_applied(node, action, applied);
                    if child.eval.is_none() {
                        let fallback = self.evaluator.evaluate(&child);
                        (turn, with_score(child, fallback))
                    } else {
                        (turn, child)
                    }
                },
            };
            let ghost before = next@;
            let ghost c = child;
            proof {
                assert(derived_child(*self.evaluator, **node, act, turn, c));
            }
            route_child(next, from_turn, turn, child);
            proof {
                let grown = kids.push((turn, c));
                assert(grown.drop_last() =~= kids);
                assert(route_step(before, next@, from_turn, grown.last().0, grown.last().1));
                assert(routed(old(next)@, next@, from_turn, grown));
                let ev = *self.evaluator;
                let parent = **node;
                assert forall|k: int| 0 <= k < grown.len() implies child_at(ev, parent, k, #[trigger] grown[k]) by {
                    if k < kids.len() {
                        assert(grown[k] == kids[k]);
                    } else {
                        assert(k as usize == index);
                        assert(grown[k] == (turn, c));
                    }
                }
                assert(children_of(ev, parent, grown));
                assert(children_of(*self.evaluator, **node, grown));
                let prev_kids = kids;
                kids = grown;
                if from_turn <= turn < before.len() {
                    lemma_push_keeps_entries(before[turn as int], next@[turn as int], c);
                }
                assert forall|t: int, x: BSState<E::Action, E::State>|
                    0 <= t < next@.len() && #[trigger] next@[t].entries().contains(x) implies old(
                        next,
                    )@[t].entries().contains(x) || (x.prev_state == Some(*node) && from_turn <= t && kid_in(kids, x)) by {
                    if t == turn && from_turn <= turn < before.len() {
                        if x != c {
                            assert(before[t].entries().contains(x));
                        } else {
                            assert(grown[grown.len() - 1].1 == x);
                        }
                    } else {
                        assert(next@[t] == before[t]);
                    }
                    if !old(next)@[t].entries().contains(x) && x != c {
                        let k = choose|k: int| 0 <= k < prev_kids.len() && (#[trigger] prev_kids[k]).1 == x;
                        assert(grown[k] == prev_kids[k]);
                    }
                }
            }
            index = index + 1;
        }
    }

    /// What a search from `start` has recorded: `finished` holds, in order,
    /// the popped nodes that the evaluator deems finished; every popped node
    /// has a score and grew from `start`'s queues; `exps` holds the children
    /// of each unfinished popped node, all of them but for the last one.
    spec fn record_ok(
        start: Self,
        finished: Seq<Rc<BSState<E::Action, E::State>>>,
        popped: Seq<BSState<E::Action, E::State>>,
        exps: Seq<Seq<(usize, BSState<E::Action, E::State>)>>,
    ) -> bool {
        let ev = start.spec_evaluator();
        &&& finished.len() == finished_of(ev, popped).len()
        &&& forall|i: int| 0 <= i < finished.len() ==> *#[trigger] finished[i] == finished_of(ev, popped)[i]
        &&& forall|i: int| 0 <= i < popped.len() ==> (#[trigger] popped[i]).eval is Some && start.grown(popped[i])
        &&& exps.len() == unfinished_of(ev, popped).len()
        &&& forall|j: int| 0 <= j < exps.len() ==> children_of(ev, unfinished_of(ev, popped)[j], #[trigger] exps[j])
        &&& forall|j: int|
            0 <= j < exps.len() - 1 ==> complete(ev, unfinished_of(ev, popped)[j], #[trigger] exps[j])
    }

    /// `x` was pending when the search from `start` began, or is a child
    /// that one of `exps` derived.
    spec fn origin(start: Self, exps: Seq<Seq<(usize, BSState<E::Action, E::State>)>>, x: BSState<E::Action, E::State>) -> bool {
        start.seeded(x) || derived_in(exps, x)
    }

    proof fn lemma_origin_grows(
        start: Self,
        exps: Seq<Seq<(usize, BSState<E::Action, E::State>)>>,
        e: Seq<(usize, BSState<E::Action, E::State>)>,
    )
        ensures
            forall|x: BSState<E::Action, E::State>| #[trigger] Self::origin(start, exps, x) ==> Self::origin(
                start,
                exps.push(e),
                x,
            ),
    {
        assert forall|x: BSState<E::Action, E::State>| #[trigger] Self::origin(start, exps, x) implies Self::origin(
            start,
            exps.push(e),
            x,
        ) by {
            if !start.seeded(x) {
                let j = choose|j: int| 0 <= j < exps.len() && kid_in(#[trigger] exps[j], x);
                assert(exps.push(e)[j] == exps[j]);
            }
        }
    }

    /// Every unfinished popped node has all its children in `exps`.
    spec fn all_complete(
        start: Self,
        popped: Seq<BSState<E::Action, E::State>>,
        exps: Seq<Seq<(usize, BSState<E::Action, E::State>)>>,
    ) -> bool {
        forall|j: int|
            0 <= j < exps.len() ==> complete(
                start.spec_evaluator(),
                unfinished_of(start.spec_evaluator(), popped)[j],
                #[trigger] exps[j],
            )
    }

    /// Every node pending at the start of a search is finished, and some
    /// node is pending.
    pub open spec fn all_pending_finished(&self) -> bool {
        &&& forall|t: int, x: BSState<E::Action, E::State>|
            0 <= t < self.max_turn() && #[trigger] self.queue(t).entries().contains(x)
                ==> self.spec_evaluator().finished(x)
        &&& exists|t: int| 0 <= t < self.max_turn() && (#[trigger] self.queue(t)).entries().len() > 0
    }

    /// Searches until `duration` has passed or a pass finds no node to
    /// expand. Each pass pops the queues from the last turn back to the
    /// first; a popped node that the evaluator deems finished is recorded in
    /// `found` and not expanded, any other is expanded into `expansions`.
    /// The result is the best-scoring recorded node, the first found among
    /// equals, or `None` when none was found.
    pub fn search(&mut self, duration: Duration) -> (r: Option<Rc<BSState<E::Action, E::State>>>)
        requires
            old(self).wf(),
        ensures
            final(self).wf(),
            final(self).max_turn() == old(self).max_turn(),
            final(self).spec_evaluator() == old(self).spec_evaluator(),
            final(self).found() == finished_of(old(self).spec_evaluator(), final(self).popped()),
            forall|i: int|
                0 <= i < final(self).popped().len() ==> (#[trigger] final(self).popped()[i]).eval is Some
                    && old(self).grown(final(self).popped()[i]),
            final(self).expansions().len() == unfinished_of(old(self).spec_evaluator(), final(self).popped()).len(),
            forall|j: int|
                0 <= j < final(self).expansions().len() ==> children_of(
                    old(self).spec_evaluator(),
                    unfinished_of(old(self).spec_evaluator(), final(self).popped())[j],
                    #[trigger] final(self).expansions()[j],
                ),
            forall|j: int|
                0 <= j < final(self).expansions().len() - 1 ==> complete(
                    old(self).spec_evaluator(),
                    unfinished_of(old(self).spec_evaluator(), final(self).popped())[j],
                    #[trigger] final(self).expansions()[j],
                ),
            r is None <==> final(self).found().len() == 0,
            forall|i: int|
                0 <= i < final(self).found().len() ==> {
                    let f = #[trigger] final(self).found()[i];
                    &&& f.eval is Some
                    &&& old(self).spec_evaluator().finished(f)
                    &&& old(self).grown(f)
                },
            r matches Some(n) ==> {
                &&& final(self).found().contains(*n)
                &&& n.eval is Some
                &&& old(self).spec_evaluator().finished(*n)
                &&& old(self).grown(*n)
                &&& forall|i: int|
                    0 <= i < final(self).found().len() ==> score_of(#[trigger] final(self).found()[i]) <= score_of(
                        *n,
                    )
            },
            forall|t: int, x: BSState<E::Action, E::State>|
                0 <= t < final(self).max_turn() && #[trigger] final(self).queue(t).entries().contains(x)
                    ==> old(self).grown(x),
            (forall|t: int| 0 <= t < old(self).max_turn() ==> (#[trigger] old(self).queue(t)).entries().len() == 0)
                ==> r is None,
            old(self).all_pending_finished() ==> r is Some,
            forall|i: int|
                0 <= i < final(self).popped().len() ==> old(self).seeded(#[trigger] final(self).popped()[i])
                    || derived_in(final(self).expansions(), final(self).popped()[i]),
            forall|t: int, x: BSState<E::Action, E::State>|
                0 <= t < final(self).max_turn() && #[trigger] final(self).queue(t).entries().contains(x)
                    ==> old(self).seeded(x) || derived_in(final(self).expansions(), x),
            final(self).spec_width() == old(self).spec_width(),
            final(self).expansion_turns().len() == final(self).expansions().len(),
            0 <= final(self).last_pass() <= final(self).expansions().len(),
            routed_from_fresh(
                final(self).all_queues(),
                old(self).spec_width(),
                old(self).max_turn(),
                final(self).last_pass_expansions(),
            ),
            passes_ok(
                old(self).all_queues(),
                old(self).spec_width(),
                final(self).popped(),
                final(self).expansions(),
                final(self).expansion_turns(),
                final(self).pass_starts(),
                final(self).pass_queues(),
            ),
            final(self).pass_starts().len() > 0,
            final(self).pass_starts().last().1 == final(self).last_pass(),
    {
        let mut deadline = Deadline::start(duration);
        let mut finished: Vec<Rc<BSState<E::Action, E::State>>> = Vec::new();
        let max_turn = self.queues.len();
        let ghost start = *old(self);
        let ghost ev = start.spec_evaluator();
        let ghost mut popped: Seq<BSState<E::Action, E::State>> = Seq::empty();
        let ghost mut exps: Seq<Seq<(usize, BSState<E::Action, E::State>)>> = Seq::empty();
        let ghost mut aborted = false;
        let ghost mut first = true;
        let ghost mut turns: Seq<usize> = Seq::empty();
        let ghost mut pass_start: int = 0;
        let ghost mut fresh0: Seq<BSQueue<E::Action, E::State>> = Seq::empty();
        let ghost mut pstarts: Seq<(int, int)> = Seq::empty();
        let ghost mut pqueues: Seq<Seq<BSQueue<E::Action, E::State>>> = Seq::empty();
        let ghost hyp = start.all_pending_finished();
        let ghost nothing_queued = forall|t: int|
            0 <= t < old(self).max_turn() ==> (#[trigger] old(self).queue(t)).entries().len() == 0;
        proof {
            assert forall|t: int, x: BSState<E::Action, E::State>|
                0 <= t < max_turn && #[trigger] self.queues@[t].entries().contains(x) implies start.grown(x) by {
                assert(start.queue(t) == self.queues@[t]);
                assert(start.seeded(x));
            }
            assert forall|t: int, x: BSState<E::Action, E::State>|
                0 <= t < max_turn && #[trigger] self.queues@[t].entries().contains(x) implies Self::origin(start, exps, x) by {
                assert(start.queue(t) == self.queues@[t]);
                assert(start.seeded(x));
            }
            if nothing_queued {
                assert forall|t: int| 0 <= t < max_turn implies (#[trigger] self.queues@[t]).entries().len() == 0 by {
                    assert(old(self).queue(t) == self.queues@[t]);
                }
            }
            assert(self.queues@ == start.queues@);
        }
        loop
            invariant_except_break
                nothing_queued ==> forall|t: int| 0 <= t < max_turn ==> (#[trigger] self.queues@[t]).entries().len() == 0,
                !aborted,
                !first ==> popped.len() > pstarts.last().0,
            invariant
                passes_ok(start.queues@, start.width as nat, popped, exps, turns, pstarts, pqueues),
                first <==> pstarts.len() == 0,
                first ==> exps.len() == 0,
                !first ==> pstarts.last().1 == pass_start,
                self.wf(),
                self.queues@.len() == max_turn,
                self.evaluator == old(self).evaluator,
                start == *old(self),
                ev == start.spec_evaluator(),
                forall|t: int, x: BSState<E::Action, E::State>|
                    0 <= t < max_turn && #[trigger] self.queues@[t].entries().contains(x) ==> start.grown(x),
                Self::record_ok(start, finished@, popped, exps),
                forall|t: int, x: BSState<E::Action, E::State>|
                    0 <= t < max_turn && #[trigger] self.queues@[t].entries().contains(x) ==> Self::origin(start, exps, x),
                forall|i: int| 0 <= i < popped.len() ==> Self::origin(start, exps, #[trigger] popped[i]),
                !aborted ==> Self::all_complete(start, popped, exps),
                nothing_queued ==> finished@.len() == 0,
                nothing_queued == forall|t: int|
                    0 <= t < old(self).max_turn() ==> (#[trigger] old(self).queue(t)).entries().len() == 0,
                hyp == start.all_pending_finished(),
                first ==> self.queues@ == start.queues@ && deadline.checks == 0 && popped.len() == 0,
                hyp ==> first || finished@.len() > 0,
                start.queues@.len() == max_turn,
                turns.len() == exps.len(),
                0 <= pass_start <= exps.len(),
                self.width == start.width,
                !first ==> {
                    &&& fresh0.len() == max_turn
                    &&& forall|t: int| 0 <= t < fresh0.len() ==> is_fresh(#[trigger] fresh0[t], start.width as nat)
                    &&& routed_all(fresh0, self.queues@, pass_list(turns, exps, pass_start))
                },
            ensures
                !first,
                hyp ==> finished@.len() > 0,
            decreases u64::MAX - deadline.checks,
        {
            if !deadline.has_time() {
                break;
            }
            let ghost at_start = deadline.checks;
            let ghost first_pass = first;
            proof {
                if !first {
                    assert(routed_all(fresh0, self.queues@, pass_range(turns, exps, pass_start, exps.len() as int)));
                    assert(routed_from_fresh(
                        self.queues@,
                        start.width as nat,
                        start.queues@.len(),
                        pass_range(turns, exps, pstarts.last().1, exps.len() as int),
                    ));
                }
                lemma_passes_new_pass(start.queues@, start.width as nat, popped, exps, turns, pstarts, pqueues, self.queues@);
                pstarts = pstarts.push((popped.len() as int, exps.len() as int));
                pqueues = pqueues.push(self.queues@);
            }
            let mut current = fresh_queues(max_turn, self.width);
            std::mem::swap(&mut current, &mut self.queues);
            let mut next = fresh_queues(max_turn, self.width);
            proof {
                pass_start = exps.len() as int;
                fresh0 = next@;
                assert(pass_list(turns, exps, pass_start) =~= Seq::empty());
            }
            let mut tried = false;
            let mut in_time = true;
            while current.len() > 0 && in_time
                invariant
                    self.evaluator == old(self).evaluator,
                    start == *old(self),
                    ev == start.spec_evaluator(),
                    current@.len() <= max_turn,
                    forall|i: int| 0 <= i < current@.len() ==> (#[trigger] current@[i]).wf(),
                    forall|t: int, x: BSState<E::Action, E::State>|
                        0 <= t < current@.len() && #[trigger] current@[t].entries().contains(x) ==> start.grown(x),
                    next@.len() == max_turn,
                    forall|i: int| 0 <= i < next@.len() ==> (#[trigger] next@[i]).wf(),
                    forall|t: int, x: BSState<E::Action, E::State>|
                        0 <= t < max_turn && #[trigger] next@[t].entries().contains(x) ==> start.grown(x),
                    deadline.checks >= at_start,
                    forall|t: int, x: BSState<E::Action, E::State>|
                        0 <= t < current@.len() && #[trigger] current@[t].entries().contains(x) ==> Self::origin(start, exps, x),
                    forall|t: int, x: BSState<E::Action, E::State>|
                        0 <= t < max_turn && #[trigger] next@[t].entries().contains(x) ==> Self::origin(start, exps, x),
                    forall|i: int| 0 <= i < popped.len() ==> Self::origin(start, exps, #[trigger] popped[i]),
                    Self::record_ok(start, finished@, popped, exps),
                    aborted == !in_time,
                    in_time ==> Self::all_complete(start, popped, exps),
                    nothing_queued ==> finished@.len() == 0 && !tried,
                    nothing_queued ==> forall|t: int| 0 <= t < current@.len() ==> (#[trigger] current@[t]).entries().len() == 0,
                    hyp == start.all_pending_finished(),
                    first_pass ==> forall|t: int| 0 <= t < current@.len() ==> #[trigger] current@[t] == start.queues@[t],
                    first_pass && hyp ==> in_time,
                    first_pass && hyp && finished@.len() == 0 ==> forall|t: int|
                        current@.len() <= t < max_turn ==> (#[trigger] start.queues@[t]).entries().len() == 0,
                    !first_pass ==> !hyp || finished@.len() > 0,
                    start.queues@.len() == max_turn,
                    passes_ok(start.queues@, start.width as nat, popped, exps, turns, pstarts, pqueues),
                    pstarts.len() > 0,
                    pstarts.last().1 == pass_start,
                    pqueues.last().len() == max_turn,
                    tried ==> popped.len() > pstarts.last().0,
                    forall|t: int| 0 <= t < current@.len() ==> #[trigger] current@[t] == pqueues.last()[t],
                    turns.len() == exps.len(),
                    0 <= pass_start <= exps.len(),
                    fresh0.len() == max_turn,
                    forall|t: int| 0 <= t < fresh0.len() ==> is_fresh(#[trigger] fresh0[t], start.width as nat),
                    routed_all(fresh0, next@, pass_list(turns, exps, pass_start)),
                    self.width == start.width,
                decreases current@.len(),
            {
                let mut q = current.pop().unwrap();
                let turn_now = current.len();
                let ghost f0 = finished@.len();
                loop
                    invariant_except_break
                        in_time,
                    invariant
                        self.evaluator == old(self).evaluator,
                        start == *old(self),
                        ev == start.spec_evaluator(),
                        q.wf(),
                        finished@.len() >= f0,
                        forall|x: BSState<E::Action, E::State>| #[trigger] q.entries().contains(x) ==> start.grown(x),
                        turn_now < max_turn,
                        turn_now == current@.len(),
                        next@.len() == max_turn,
                        forall|i: int| 0 <= i < next@.len() ==> (#[trigger] next@[i]).wf(),
                        forall|t: int, x: BSState<E::Action, E::State>|
                            0 <= t < max_turn && #[trigger] next@[t].entries().contains(x) ==> start.grown(x),
                        deadline.checks >= at_start,
                        forall|x: BSState<E::Action, E::State>| #[trigger] q.entries().contains(x) ==> Self::origin(start, exps, x),
                        forall|t: int, x: BSState<E::Action, E::State>|
                            0 <= t < current@.len() && #[trigger] current@[t].entries().contains(x) ==> Self::origin(start, exps, x),
                        forall|t: int, x: BSState<E::Action, E::State>|
                            0 <= t < max_turn && #[trigger] next@[t].entries().contains(x) ==> Self::origin(start, exps, x),
                        forall|i: int| 0 <= i < popped.len() ==> Self::origin(start, exps, #[trigger] popped[i]),
                        Self::record_ok(start, finished@, popped, exps),
                        aborted == !in_time,
                        in_time ==> Self::all_complete(start, popped, exps),
                        nothing_queued ==> finished@.len() == 0 && !tried && q.entries().len() == 0,
                        hyp == start.all_pending_finished(),
                        first_pass ==> forall|x: BSState<E::Action, E::State>|
                            #[trigger] q.entries().contains(x) ==> start.queues@[turn_now as int].entries().contains(x),
                        first_pass && hyp ==> in_time,
                        first_pass && hyp && finished@.len() == 0 ==> q.entries() == start.queues@[turn_now as int].entries(),
                        !first_pass ==> !hyp || finished@.len() > 0,
                        start.queues@.len() == max_turn,
                        passes_ok(start.queues@, start.width as nat, popped, exps, turns, pstarts, pqueues),
                        pstarts.len() > 0,
                        pstarts.last().1 == pass_start,
                        pqueues.last().len() == max_turn,
                        tried ==> popped.len() > pstarts.last().0,
                        forall|t: int| 0 <= t < current@.len() ==> #[trigger] current@[t] == pqueues.last()[t],
                        forall|x: BSState<E::Action, E::State>|
                            #[trigger] q.entries().contains(x) ==> pqueues.last()[turn_now as int].entries().contains(x),
                        turns.len() == exps.len(),
                        0 <= pass_start <= exps.len(),
                        fresh0.len() == max_turn,
                        forall|t: int| 0 <= t < fresh0.len() ==> is_fresh(#[trigger] fresh0[t], start.width as nat),
                        routed_all(fresh0, next@, pass_list(turns, exps, pass_start)),
                        self.width == start.width,
                    ensures
                        first_pass && hyp && finished@.len() == 0 ==> start.queues@[turn_now as int].entries().len()
                            == 0,
                    decreases q.entries().len(),
                {
                    let ghost q_before = q;
                    let popped_node = q.pop();
                    let ghost pv = popped_node;
                    let node = match popped_node {
                        Some(n) => Rc::new(n),
                        None => {
                            proof {
                                if first_pass && hyp && finished@.len() == 0 {
                                    assert(q_before.entries().len() == 0);
                                    assert(q.entries() =~= start.queues@[turn_now as int].entries());
                                }
                            }
                            break;
                        },
                    };
                    let ghost x = pv->Some_0;
                    proof {
                        lemma_pop_from_entries(q_before, q, x);
                        assert(*node == x);
                        assert(start.grown(x));
                        assert(start.spec_evaluator() == *self.evaluator);
                        if first_pass {
                            assert(start.queue(turn_now as int) == start.queues@[turn_now as int]);
                        }
                    }
                    tried = true;
                    proof {
                        assert(pqueues.last()[turn_now as int].entries().contains(x));
                        lemma_passes_more_popped(
                            start.queues@,
                            start.width as nat,
                            popped,
                            exps,
                            turns,
                            pstarts,
                            pqueues,
                            x,
                            turn_now as int,
                        );
                    }
                    let ghost grown_popped = popped.push(x);
                    proof {
                        assert(grown_popped.drop_last() =~= popped);
                        assert(grown_popped.last() == x);
                    }
                    if self.evaluator.is_finished_state(&node) {
                        finished.push(node);
                        proof {
                            assert(finished_of(ev, grown_popped) == finished_of(ev, popped).push(x));
                            assert(unfinished_of(ev, grown_popped) == unfinished_of(ev, popped));
                            assert forall|i: int| 0 <= i < finished@.len() implies *#[trigger] finished@[i]
                                == finished_of(ev, grown_popped)[i] by {}
                            assert forall|i: int| 0 <= i < grown_popped.len() implies (#[trigger] grown_popped[i]).eval is Some
                                && start.grown(grown_popped[i]) by {
                                if i < popped.len() {
                                    assert(grown_popped[i] == popped[i]);
                                }
                            }
                            assert forall|i: int| 0 <= i < grown_popped.len() implies Self::origin(start, exps, #[trigger] grown_popped[i]) by {
                                if i < popped.len() {
                                    assert(grown_popped[i] == popped[i]);
                                }
                            }
                            popped = grown_popped;
                        }
                    } else {
                        let ghost next_before = next@;
                        let (ok, kids) = self.expand(&node, turn_now, &mut next, &mut deadline);
                        proof {
                            assert(!start.spec_evaluator().finished(*node));
                            assert forall|t: int, x2: BSState<E::Action, E::State>|
                                0 <= t < max_turn && #[trigger] next@[t].entries().contains(x2) implies start.grown(x2) by {
                                if !next_before[t].entries().contains(x2) {
                                    assert(x2.prev_state == Some(node));
                                    assert(grown_from(
                                        start.spec_evaluator(),
                                        |m: BSState<E::Action, E::State>| start.seeded(m),
                                        x2,
                                    ));
                                }
                            }
                            let grown_exps = exps.push(kids@);
                            let grown_turns = turns.push(turn_now);
                            let old_list = pass_list(turns, exps, pass_start);
                            let new_list = pass_list(grown_turns, grown_exps, pass_start);
                            assert(new_list.drop_last() =~= old_list);
                            assert(new_list.last() == (turn_now, kids@));
                            assert(routed_all(fresh0, next_before, new_list.drop_last()));
                            assert(routed(next_before, next@, new_list.last().0, new_list.last().1));
                            assert(routed_all(fresh0, next@, new_list));
                            assert(finished_of(ev, grown_popped) == finished_of(ev, popped));
                            assert(unfinished_of(ev, grown_popped) == unfinished_of(ev, popped).push(x));
                            assert forall|i: int| 0 <= i < grown_popped.len() implies (#[trigger] grown_popped[i]).eval is Some
                                && start.grown(grown_popped[i]) by {
                                if i < popped.len() {
                                    assert(grown_popped[i] == popped[i]);
                                }
                            }
                            assert forall|j: int| 0 <= j < grown_exps.len() implies children_of(
                                ev,
                                unfinished_of(ev, grown_popped)[j],
                                #[trigger] grown_exps[j],
                            ) by {
                                if j < exps.len() {
                                    assert(grown_exps[j] == exps[j]);
                                }
                            }
                            assert forall|j: int| 0 <= j < grown_exps.len() - 1 implies complete(
                                ev,
                                unfinished_of(ev, grown_popped)[j],
                                #[trigger] grown_exps[j],
                            ) by {
                                assert(grown_exps[j] == exps[j]);
                            }
                            if ok {
                                assert forall|j: int| 0 <= j < grown_exps.len() implies complete(
                                    ev,
                                    unfinished_of(ev, grown_popped)[j],
                                    #[trigger] grown_exps[j],
                                ) by {
                                    if j < exps.len() {
                                        assert(grown_exps[j] == exps[j]);
                                    }
                                }
                            }
                            Self::lemma_origin_grows(start, exps, kids@);
                            lemma_passes_more_expansions(
                                start.queues@,
                                start.width as nat,
                                grown_popped,
                                exps,
                                turns,
                                pstarts,
                                pqueues,
                                kids@,
                                turn_now,
                            );
                            assert forall|i: int| 0 <= i < grown_popped.len() implies Self::origin(start, grown_exps, #[trigger] grown_popped[i]) by {
                                if i < popped.len() {
                                    assert(grown_popped[i] == popped[i]);
                                    assert(Self::origin(start, exps, popped[i]));
                                } else {
                                    assert(Self::origin(start, exps, x));
                                }
                            }
                            assert forall|t: int, x2: BSState<E::Action, E::State>|
                                0 <= t < max_turn && #[trigger] next@[t].entries().contains(x2) implies Self::origin(start, grown_exps, x2) by {
                                if next_before[t].entries().contains(x2) {
                                    assert(Self::origin(start, exps, x2));
                                } else {
                                    assert(grown_exps[exps.len() as int] == kids@);
                                    assert(kid_in(grown_exps[exps.len() as int], x2));
                                }
                            }
                            popped = grown_popped;
                            exps = grown_exps;
                            turns = grown_turns;
                            if !ok {
                                aborted = true;
                            }
                        }
                        if !ok {
                            in_time = false;
                            break;
                        }
                    }
                }
            }
            proof {
                if first_pass && hyp && finished@.len() == 0 {
                    let t = choose|t: int| 0 <= t < start.max_turn() && (#[trigger] start.queue(t)).entries().len() > 0;
                    assert(start.queue(t) == start.queues@[t]);
                }
                first = false;
            }
            self.queues = next;
            if !in_time || !tried {
                break;
            }
        }
        let ghost recorded = finished@.map_values(|n: Rc<BSState<E::Action, E::State>>| *n);
        proof {
            lemma_finished_of_members(ev, popped);
            assert(recorded =~= finished_of(ev, popped));
        }
        self.found = Ghost(recorded);
        self.popped = Ghost(popped);
        self.expansions = Ghost(exps);
        self.expansion_turns = Ghost(turns);
        self.last_pass = Ghost(pass_start);
        self.pass_starts = Ghost(pstarts);
        self.pass_queues = Ghost(pqueues);
        proof {
            assert(routed_all(fresh0, self.queues@, pass_list(turns, exps, pass_start)));
        }
        match best_index(&finished) {
            Some(i) => {
                let best = finished[i].clone();
                proof {
                    assert(recorded[i as int] == *best);
                }
                Some(best)
            },
            None => None,
        }
    }
}

/// Each node that `finished_of` keeps is a node of `s` that `ev` deems
/// finished.
proof fn lemma_finished_of_members<E: Evaluator>(ev: E, s: Seq<BSState<E::Action, E::State>>)
    ensures
        forall|i: int|
            0 <= i < finished_of(ev, s).len() ==> s.contains(#[trigger] finished_of(ev, s)[i]) && ev.finished(
                finished_of(ev, s)[i],
            ),
    decreases s.len(),
{
    if s.len() > 0 {
        let rest = s.drop_last();
        lemma_finished_of_members(ev, rest);
        assert forall|i: int|
            0 <= i < finished_of(ev, s).len() implies s.contains(#[trigger] finished_of(ev, s)[i]) && ev.finished(
                finished_of(ev, s)[i],
            ) by {
            if i < finished_of(ev, rest).len() {
                assert(finished_of(ev, s)[i] == finished_of(ev, rest)[i]);
                let k = choose|k: int| 0 <= k < rest.len() && rest[k] == finished_of(ev, rest)[i];
                assert(s[k] == rest[k]);
            } else {
                assert(s[s.len() - 1] == s.last());
            }
        }
    }
}

} // verus!
