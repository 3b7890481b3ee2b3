//! The bounded queue that holds the candidates of one turn.

use super::node::{score_of, BSState};
use vstd::prelude::*;

verus! {

broadcast use vstd::seq_lib::group_to_multiset_ensures;

/// The scores of `s` never decrease from front to back.
pub open spec fn ascending<A, S>(s: Seq<BSState<A, S>>) -> bool {
    forall|i: int, j: int| 0 <= i <= j < s.len() ==> score_of(#[trigger] s[i]) <= score_of(#[trigger] s[j])
}

/// Every node of `s` carries a score.
pub open spec fn all_scored<A, S>(s: Seq<BSState<A, S>>) -> bool {
    forall|i: int| 0 <= i < s.len() ==> (#[trigger] s[i]).eval is Some
}

/// `after` holds the `width` best nodes of `before` (all of them when there
/// are fewer), in ascending order of score; among equal scores any may stay.
pub open spec fn keeps_best<A, S>(before: Seq<BSState<A, S>>, after: Seq<BSState<A, S>>, width: nat) -> bool {
    &&& after.to_multiset().subset_of(before.to_multiset())
    &&& after.len() == if before.len() < width { before.len() } else { width }
    &&& ascending(after)
    &&& forall|x: BSState<A, S>, y: BSState<A, S>|
        #![trigger after.contains(x), before.to_multiset().sub(after.to_multiset()).count(y)]
        after.contains(x) && before.to_multiset().sub(after.to_multiset()).count(y) > 0
            ==> score_of(y) <= score_of(x)
}

/// Relies on `slice::sort_unstable_by_key`: the nodes are reordered so that
/// their keys ascend.
#[verifier::external_body]
fn sort_by_score<A, S>(v: &mut Vec<BSState<A, S>>)
    ensures
        final(v)@.to_multiset() == old(v)@.to_multiset(),
        ascending(final(v)@),
{
    v.sort_unstable_by_key(|n| n.score_key());
}

proof fn lemma_sub_multiset_contains<T>(a: Seq<T>, b: Seq<T>, x: T)
    requires
        a.to_multiset().subset_of(b.to_multiset()),
        a.contains(x),
    ensures
        b.contains(x),
{
    assert(a.to_multiset().count(x) > 0);
    assert(a.to_multiset().count(x) <= b.to_multiset().count(x));
}

proof fn lemma_split_keeps_best<A, S>(before: Seq<BSState<A, S>>, sorted: Seq<BSState<A, S>>, k: int, width: nat)
    requires
        sorted.to_multiset() == before.to_multiset(),
        ascending(sorted),
        0 <= k <= sorted.len(),
        k == if sorted.len() < width { 0 } else { sorted.len() - width },
    ensures
        keeps_best(before, sorted.subrange(k, sorted.len() as int), width),
{
    let n = sorted.len() as int;
    assert(before.len() == before.to_multiset().len());
    assert(sorted.len() == sorted.to_multiset().len());
    let lo = sorted.subrange(0, k);
    let hi = sorted.subrange(k, n);
    assert(sorted =~= lo + hi);
    vstd::seq_lib::lemma_multiset_commutative(lo, hi);
    assert(before.to_multiset().sub(hi.to_multiset()) =~= lo.to_multiset());
    assert(hi.to_multiset().subset_of(before.to_multiset()));
    assert forall|x: BSState<A, S>, y: BSState<A, S>|
        hi.contains(x) && before.to_multiset().sub(hi.to_multiset()).count(y) > 0 implies score_of(y) <= score_of(x) by {
        assert(lo.contains(y));
        let i = choose|i: int| 0 <= i < lo.len() && lo[i] == y;
        let j = choose|j: int| 0 <= j < hi.len() && hi[j] == x;
        assert(sorted[i] == y);
        assert(sorted[k + j] == x);
    }
    assert forall|i: int, j: int| 0 <= i <= j < hi.len() implies score_of(#[trigger] hi[i]) <= score_of(#[trigger] hi[j]) by {
        assert(hi[i] == sorted[k + i]);
        assert(hi[j] == sorted[k + j]);
    }
}

/// The candidates of one turn, at most `width` of them once consolidated.
///
/// Pushed nodes are appended; consolidation sorts them in ascending order of
/// score and keeps the `width` best, and pops take the best from the back.
pub struct BSQueue<A, S> {
    width: usize,
    buffer: Vec<BSState<A, S>>,
    min_key: Option<i64>,
    is_dirty: bool,
}

impl<A, S> BSQueue<A, S> {
    /// The most nodes the queue keeps once consolidated.
    pub closed spec fn spec_width(&self) -> nat {
        self.width as nat
    }

    /// The nodes not yet popped, in buffer order.
    pub closed spec fn entries(&self) -> Seq<BSState<A, S>> {
        self.buffer@
    }

    /// The lowest score still admitted, once the queue has been full.
    pub closed spec fn threshold(&self) -> Option<i64> {
        self.min_key
    }

    /// Whether nodes were pushed since the last consolidation.
    pub closed spec fn dirty(&self) -> bool {
        self.is_dirty
    }

    /// The queue is well formed.
    pub closed spec fn wf(&self) -> bool {
        &&& self.wf_loose()
        &&& self.buffer@.len() < 2 * self.width
    }

    /// Well formed but for a full buffer, as a push leaves it before it
    /// consolidates.
    closed spec fn wf_loose(&self) -> bool {
        &&& self.width > 0
        &&& 2 * self.width <= usize::MAX
        &&& self.buffer@.len() <= 2 * self.width
        &&& all_scored(self.buffer@)
        &&& !self.is_dirty ==> ascending(self.buffer@) && self.buffer@.len() <= self.width
        &&& self.min_key matches Some(t) ==> forall|i: int|
            0 <= i < self.buffer@.len() ==> t <= score_of(#[trigger] self.buffer@[i])
    }

    /// `new` is `old` consolidated: unchanged when nothing was pushed since
    /// the last consolidation, else cut down to its best `width` nodes, the
    /// threshold then being the weakest score kept if the queue was full.
    pub open spec fn consolidated(old: Self, new: Self) -> bool {
        &&& new.spec_width() == old.spec_width()
        &&& !new.dirty()
        &&& if old.dirty() {
            &&& keeps_best(old.entries(), new.entries(), old.spec_width())
            &&& new.threshold() == if old.entries().len() >= old.spec_width() {
                Some(score_of(new.entries()[0]))
            } else {
                old.threshold()
            }
        } else {
            new == old
        }
    }

    /// `new` is `old` after `node` was offered: a node scoring below the
    /// threshold is dropped; any other is appended, and the queue is
    /// consolidated when its buffer reaches twice the width.
    pub open spec fn pushed(old: Self, new: Self, node: BSState<A, S>) -> bool {
        &&& new.spec_width() == old.spec_width()
        &&& if old.threshold() matches Some(t) && score_of(node) < t {
            new == old
        } else if old.entries().len() + 1 < 2 * old.spec_width() {
            &&& new.entries() == old.entries().push(node)
            &&& new.dirty()
            &&& new.threshold() == old.threshold()
        } else {
            &&& !new.dirty()
            &&& keeps_best(old.entries().push(node), new.entries(), old.spec_width())
            &&& new.threshold() == Some(score_of(new.entries()[0]))
        }
    }

    /// `new` is `old` after a pop that returned `r`: the best node of the
    /// consolidated queue, which the pop removed, or nothing when it was empty.
    pub open spec fn popped(old: Self, new: Self, r: Option<BSState<A, S>>) -> bool {
        &&& new.spec_width() == old.spec_width()
        &&& !new.dirty()
        &&& match r {
            None => old.entries().len() == 0 && new.entries().len() == 0,
            Some(x) => {
                let kept = new.entries().push(x);
                &&& old.entries().len() > 0
                &&& if old.dirty() {
                    keeps_best(old.entries(), kept, old.spec_width())
                } else {
                    kept == old.entries()
                }
                &&& forall|i: int| 0 <= i < old.entries().len() ==> score_of(#[trigger] old.entries()[i]) <= score_of(x)
            },
        }
    }

    /// An empty queue that keeps at most `width` nodes.
    pub fn new(width: usize) -> (r: Self)
        requires
            0 < width <= usize::MAX / 2,
        ensures
            r.wf(),
            r.spec_width() == width,
            r.entries().len() == 0,
            r.threshold() is None,
            !r.dirty(),
    {
        BSQueue { width, buffer: Vec::with_capacity(width * 2), min_key: None, is_dirty: false }
    }

    /// An empty queue with the width of this one.
    pub fn prepare_next_queue(&self) -> (r: Self)
        requires
            self.wf(),
        ensures
            r.wf(),
            r.spec_width() == self.spec_width(),
            r.entries().len() == 0,
            r.threshold() is None,
            !r.dirty(),
    {
        Self::new(self.width)
    }

    /// The number of nodes not yet popped.
    pub fn len(&self) -> (r: usize)
        ensures
            r == self.entries().len(),
    {
        self.buffer.len()
    }

    /// Whether every node has been popped.
    pub fn is_empty(&self) -> (r: bool)
        ensures
            r == (self.entries().len() == 0),
    {
        self.buffer.len() == 0
    }

    /// The width this queue was made with.
    pub fn width(&self) -> (r: usize)
        ensures
            r == self.spec_width(),
    {
        self.width
    }

    /// Sorts the pending nodes and keeps the `width` best of them.
    pub fn sort_truncate(&mut self)
        requires
            old(self).wf(),
        ensures
            final(self).wf(),
            Self::consolidated(*old(self), *final(self)),
            final(self).entries().len() <= final(self).spec_width(),
    {
        self.consolidate();
    }

    fn consolidate(&mut self)
        requires
            old(self).wf_loose(),
        ensures
            final(self).wf(),
            Self::consolidated(*old(self), *final(self)),
            final(self).entries().len() <= final(self).spec_width(),
    {
        if !self.is_dirty {
            return;
        }
        let ghost before = self.buffer@;
        sort_by_score(&mut self.buffer);
        let ghost sorted = self.buffer@;
        let n = self.buffer.len();
        if n >= self.width {
            let kept = self.buffer.split_off(n - self.width);
            self.buffer = kept;
            self.min_key = Some(self.buffer[0].score_key());
            proof {
                lemma_split_keeps_best(before, sorted, n - self.width, self.width as nat);
            }
        } else {
            proof {
                lemma_split_keeps_best(before, sorted, 0, self.width as nat);
                assert(sorted.subrange(0, n as int) =~= sorted);
            }
        }
        self.is_dirty = false;
        proof {
            assert forall|i: int| 0 <= i < self.buffer@.len() implies (#[trigger] self.buffer@[i]).eval is Some by {
                assert(self.buffer@.contains(self.buffer@[i]));
                lemma_sub_multiset_contains(self.buffer@, before, self.buffer@[i]);
            }
            if let Some(t) = self.min_key {
                assert forall|i: int| 0 <= i < self.buffer@.len() implies t <= score_of(#[trigger] self.buffer@[i]) by {
                    if n < self.width {
                        assert(self.buffer@.contains(self.buffer@[i]));
                        lemma_sub_multiset_contains(self.buffer@, before, self.buffer@[i]);
                    } else {
                        assert(score_of(self.buffer@[0]) <= score_of(self.buffer@[i]));
                    }
                }
            }
        }
    }
}

proof fn lemma_last_is_best<A, S>(before: Seq<BSState<A, S>>, kept: Seq<BSState<A, S>>, width: nat)
    requires
        keeps_best(before, kept, width),
        kept.len() > 0,
    ensures
        forall|i: int| 0 <= i < before.len() ==> score_of(#[trigger] before[i]) <= score_of(kept.last()),
{
    let x = kept.last();
    assert(kept.contains(x));
    assert forall|i: int| 0 <= i < before.len() implies score_of(#[trigger] before[i]) <= score_of(x) by {
        let e = before[i];
        assert(before.contains(e));
        if before.to_multiset().sub(kept.to_multiset()).count(e) == 0 {
            assert(kept.to_multiset().count(e) > 0);
            assert(kept.contains(e));
            let j = choose|j: int| 0 <= j < kept.len() && kept[j] == e;
            assert(score_of(kept[j]) <= score_of(kept[kept.len() - 1]));
        }
    }
}

impl<A, S> BSQueue<A, S> {
    /// Offers `node` to the queue: it is dropped when it scores below the
    /// threshold, else appended, consolidating when the buffer fills up.
    pub fn push(&mut self, node: BSState<A, S>)
        requires
            old(self).wf(),
            node.eval is Some,
        ensures
            final(self).wf(),
            Self::pushed(*old(self), *final(self), node),
    {
        let eval = node.score_key();
        if let Some(t) = self.min_key {
            if eval < t {
                return;
            }
        }
        self.buffer.push(node);
        self.is_dirty = true;
        proof {
            assert(self.buffer@.last() == node);
            assert forall|i: int| 0 <= i < self.buffer@.len() implies (#[trigger] self.buffer@[i]).eval is Some by {
                if i < self.buffer@.len() - 1 {
                    assert(self.buffer@[i] == old(self).buffer@[i]);
                }
            }
            if let Some(t) = self.min_key {
                assert forall|i: int| 0 <= i < self.buffer@.len() implies t <= score_of(#[trigger] self.buffer@[i]) by {
                    if i < self.buffer@.len() - 1 {
                        assert(self.buffer@[i] == old(self).buffer@[i]);
                    }
                }
            }
        }
        if self.buffer.len() >= 2 * self.width {
            self.consolidate();
        }
    }

    /// Takes out the best pending node, consolidating first if nodes were
    /// pushed since the last consolidation.
    pub fn pop(&mut self) -> (r: Option<BSState<A, S>>)
        requires
            old(self).wf(),
        ensures
            final(self).wf(),
            Self::popped(*old(self), *final(self), r),
            r matches Some(x) ==> x.eval is Some,
    {
        if self.is_dirty {
            self.consolidate();
        }
        let ghost mid = self.buffer@;
        let r = self.buffer.pop();
        proof {
            if r is Some {
                assert(r->Some_0 == mid[mid.len() - 1]);
            }
            if r is Some {
                let x = r->Some_0;
                assert(self.buffer@.push(x) =~= mid);
                if old(self).is_dirty {
                    lemma_last_is_best(old(self).buffer@, mid, self.width as nat);
                } else {
                    assert forall|i: int| 0 <= i < mid.len() implies score_of(#[trigger] mid[i]) <= score_of(x) by {
                        assert(score_of(mid[i]) <= score_of(mid[mid.len() - 1]));
                    }
                }
            }
            assert forall|i: int| 0 <= i < self.buffer@.len() implies (#[trigger] self.buffer@[i]).eval is Some by {
                assert(self.buffer@[i] == mid[i]);
            }
            assert forall|i: int, j: int| 0 <= i <= j < self.buffer@.len() implies score_of(#[trigger] self.buffer@[i]) <= score_of(#[trigger] self.buffer@[j]) by {
                assert(self.buffer@[i] == mid[i]);
                assert(self.buffer@[j] == mid[j]);
            }
            if let Some(t) = self.min_key {
                assert forall|i: int| 0 <= i < self.buffer@.len() implies t <= score_of(#[trigger] self.buffer@[i]) by {
                    assert(self.buffer@[i] == mid[i]);
                }
            }
        }
        r
    }

    /// Copies of the pending nodes, best first, consolidating first if
    /// nodes were pushed since the last consolidation; the queue keeps them.
    pub fn to_vec(&mut self) -> (r: Vec<BSState<A, S>>) where A: Clone, S: Clone
        requires
            old(self).wf(),
        ensures
            final(self).wf(),
            Self::consolidated(*old(self), *final(self)),
            r@.len() == final(self).entries().len(),
            forall|i: int|
                0 <= i < r@.len() ==> final(self).entries()[r@.len() - 1 - i].copied_to(#[trigger] r@[i]),
            forall|i: int, j: int| 0 <= i <= j < r@.len() ==> score_of(#[trigger] r@[j]) <= score_of(#[trigger] r@[i]),
    {
        if self.is_dirty {
            self.consolidate();
        }
        let mut r: Vec<BSState<A, S>> = Vec::new();
        let mut k = self.buffer.len();
        while k > 0
            invariant
                k <= self.buffer@.len(),
                r@.len() + k == self.buffer@.len(),
                forall|i: int|
                    0 <= i < r@.len() ==> self.buffer@[self.buffer@.len() - 1 - i].copied_to(#[trigger] r@[i]),
            decreases k,
        {
            k = k - 1;
            r.push(self.buffer[k].duplicate());
        }
        proof {
            let n = self.buffer@.len();
            assert forall|i: int, j: int| 0 <= i <= j < r@.len() implies score_of(#[trigger] r@[j]) <= score_of(
                #[trigger] r@[i],
            ) by {
                assert(score_of(self.buffer@[n - 1 - j]) <= score_of(self.buffer@[n - 1 - i]));
            }
        }
        r
    }
}

/// No two nodes of `s` share a score.
pub open spec fn distinct_scores<A, S>(s: Seq<BSState<A, S>>) -> bool {
    forall|i: int, j: int|
        0 <= i < s.len() && 0 <= j < s.len() && i != j ==> score_of(#[trigger] s[i]) != score_of(#[trigger] s[j])
}

/// After a consolidation no more than `width` nodes are pending.
pub proof fn lemma_width_bound<A, S>(q: BSQueue<A, S>, next: BSQueue<A, S>)
    requires
        q.wf(),
        BSQueue::consolidated(q, next),
    ensures
        next.entries().len() <= next.spec_width(),
{
}

/// Once a queue has a threshold, pushing a node that scores below it leaves
/// the queue exactly as it was.
pub proof fn lemma_threshold_rejects<A, S>(q: BSQueue<A, S>, next: BSQueue<A, S>, node: BSState<A, S>)
    requires
        BSQueue::pushed(q, next, node),
        q.threshold() matches Some(t) && score_of(node) < t,
    ensures
        next == q,
        next.entries() == q.entries(),
{
}

/// Two successive pops from a queue whose pending nodes have pairwise
/// distinct scores return strictly decreasing scores.
pub proof fn lemma_pops_descend<A, S>(
    q0: BSQueue<A, S>,
    q1: BSQueue<A, S>,
    q2: BSQueue<A, S>,
    x1: BSState<A, S>,
    x2: BSState<A, S>,
)
    requires
        q0.wf(),
        distinct_scores(q0.entries()),
        BSQueue::popped(q0, q1, Some(x1)),
        BSQueue::popped(q1, q2, Some(x2)),
    ensures
        score_of(x1) > score_of(x2),
{
    let e = q0.entries();
    let k1 = q1.entries().push(x1);
    assert(q2.entries().push(x2) == q1.entries());
    let n = k1.len();
    assert(k1[n - 1] == x1);
    assert(k1[n - 2] == x2);
    assert(k1.to_multiset().subset_of(e.to_multiset())) by {
        if !q0.dirty() {
            assert(k1 == e);
        }
    }
    assert(ascending(k1));
    assert(score_of(k1[n - 2]) <= score_of(k1[n - 1]));
    assert(k1.contains(x1));
    lemma_sub_multiset_contains(k1, e, x1);
    let i = choose|i: int| 0 <= i < e.len() && e[i] == x1;
    if x1 == x2 {
        let pre = q1.entries();
        assert(pre.contains(x2));
        assert(pre.to_multiset().count(x1) > 0);
        assert(k1.to_multiset().count(x1) >= 2);
        assert(e.to_multiset().count(x1) >= 2);
        let rest = e.remove(i);
        assert(rest.to_multiset() =~= e.to_multiset().remove(x1));
        assert(rest.to_multiset().count(x1) > 0);
        assert(rest.contains(x1));
        let j = choose|j: int| 0 <= j < rest.len() && rest[j] == x1;
        if j < i {
            assert(e[j] == x1);
        } else {
            assert(e[j + 1] == x1);
        }
    } else {
        assert(k1.contains(x2));
        lemma_sub_multiset_contains(k1, e, x2);
        let j = choose|j: int| 0 <= j < e.len() && e[j] == x2;
        assert(i != j);
    }
}

/// Every node pending after a push was pending before, or is the node
/// pushed.
pub proof fn lemma_push_keeps_entries<A, S>(q: BSQueue<A, S>, next: BSQueue<A, S>, node: BSState<A, S>)
    requires
        BSQueue::pushed(q, next, node),
    ensures
        forall|x: BSState<A, S>| #[trigger] next.entries().contains(x) ==> q.entries().contains(x) || x == node,
{
    assert forall|x: BSState<A, S>| #[trigger] next.entries().contains(x) implies q.entries().contains(x) || x == node by {
        let all = q.entries().push(node);
        if !(q.threshold() matches Some(t) && score_of(node) < t) && q.entries().len() + 1 >= 2 * q.spec_width() {
            lemma_sub_multiset_contains(next.entries(), all, x);
            let i = choose|i: int| 0 <= i < all.len() && all[i] == x;
            if i < q.entries().len() {
                assert(q.entries()[i] == x);
            }
        } else if next.entries() == all {
            let i = choose|i: int| 0 <= i < all.len() && all[i] == x;
            if i < q.entries().len() {
                assert(q.entries()[i] == x);
            }
        }
    }
}

/// A pop returns a node that was pending and leaves only nodes that were
/// pending.
pub proof fn lemma_pop_from_entries<A, S>(q: BSQueue<A, S>, next: BSQueue<A, S>, x: BSState<A, S>)
    requires
        BSQueue::popped(q, next, Some(x)),
    ensures
        q.entries().contains(x),
        forall|y: BSState<A, S>| #[trigger] next.entries().contains(y) ==> q.entries().contains(y),
{
    let kept = next.entries().push(x);
    assert(kept.to_multiset().subset_of(q.entries().to_multiset())) by {
        if !q.dirty() {
            assert(kept == q.entries());
        }
    }
    assert(kept[kept.len() - 1] == x);
    lemma_sub_multiset_contains(kept, q.entries(), x);
    assert forall|y: BSState<A, S>| #[trigger] next.entries().contains(y) implies q.entries().contains(y) by {
        let i = choose|i: int| 0 <= i < next.entries().len() && next.entries()[i] == y;
        assert(kept[i] == y);
        lemma_sub_multiset_contains(kept, q.entries(), y);
    }
}

} // verus!
