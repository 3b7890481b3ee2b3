//! Search nodes: partial solutions linked to the node they were derived from.

use std::rc::Rc;
use vstd::prelude::*;

verus! {

/// One partial solution: the node it was derived from, the action that
/// derived it, its score and, when it was materialised, the domain state.
pub struct BSState<A, S> {
    pub prev_state: Option<Rc<BSState<A, S>>>,
    pub action: Option<A>,
    pub eval: Option<i64>,
    pub state: Option<S>,
}

/// The score by which a node is ranked; a node without one ranks lowest.
pub open spec fn score_of<A, S>(n: BSState<A, S>) -> i64 {
    match n.eval {
        Some(s) => s,
        None => i64::MIN,
    }
}

impl<A, S> BSState<A, S> {
    /// The score by which this node is ranked.
    pub fn score_key(&self) -> (r: i64)
        ensures
            r == score_of(*self),
    {
        match self.eval {
            Some(s) => s,
            None => i64::MIN,
        }
    }
}

impl<A, S> BSState<A, S> {
    /// A root node: no parent, no action.
    pub fn root(state: Option<S>, eval: i64) -> (r: Self)
        ensures
            r.prev_state is None,
            r.action is None,
            r.eval == Some(eval),
            r.state == state,
    {
        BSState { prev_state: None, action: None, eval: Some(eval), state }
    }

    /// `copy` is a copy of `self`: the same parent and score, and clones
    /// of its action and domain state.
    pub open spec fn copied_to(self, copy: Self) -> bool where A: Clone, S: Clone {
        &&& copy.prev_state == self.prev_state
        &&& copy.eval == self.eval
        &&& copy.action is Some <==> self.action is Some
        &&& self.action matches Some(a) ==> cloned(a, copy.action->Some_0)
        &&& copy.state is Some <==> self.state is Some
        &&& self.state matches Some(x) ==> cloned(x, copy.state->Some_0)
    }

    /// A copy of this node, sharing its parent.
    pub fn duplicate(&self) -> (r: Self) where A: Clone, S: Clone
        ensures
            self.copied_to(r),
    {
        let prev_state = match &self.prev_state {
            Some(p) => Some(p.clone()),
            None => None,
        };
        let action = match &self.action {
            Some(a) => Some(a.clone()),
            None => None,
        };
        let state = match &self.state {
            Some(x) => Some(x.clone()),
            None => None,
        };
        BSState { prev_state, action, eval: self.eval, state }
    }

    /// The number of parent links from this node up to its root.
    pub open spec fn depth(&self) -> nat
        decreases self,
    {
        match self.prev_state {
            None => 0,
            Some(p) => 1 + (*p).depth(),
        }
    }

    /// The actions taken from the root down to this node, one for each node
    /// below the root that carries one.
    pub open spec fn path(&self) -> Seq<A>
        decreases self,
    {
        match self.prev_state {
            None => Seq::empty(),
            Some(p) => match self.action {
                Some(a) => (*p).path().push(a),
                None => (*p).path(),
            },
        }
    }

    /// Walks the parent links up to the root and returns the actions taken,
    /// from the root down to this node.
    pub fn actions(&self) -> (r: Vec<A>) where A: Clone
        ensures
            r@.len() == self.path().len(),
            forall|i: int| 0 <= i < r@.len() ==> cloned(self.path()[i], #[trigger] r@[i]),
    {
        let mut rev: Vec<A> = Vec::new();
        let mut cur: &BSState<A, S> = self;
        let ghost whole = self.path();
        loop
            invariant
                rev@.len() + cur.path().len() == whole.len(),
                cur.path() == whole.subrange(0, cur.path().len() as int),
                forall|i: int| 0 <= i < rev@.len() ==> cloned(whole[whole.len() - 1 - i], #[trigger] rev@[i]),
            ensures
                rev@.len() == whole.len(),
                forall|i: int| 0 <= i < rev@.len() ==> cloned(whole[whole.len() - 1 - i], #[trigger] rev@[i]),
            decreases cur.depth(),
        {
            match &cur.prev_state {
                None => {
                    break;
                },
                Some(p) => {
                    let ghost here = cur.path();
                    if let Some(a) = &cur.action {
                        let c = a.clone();
                        proof {
                            assert(here == (**p).path().push(*a));
                            assert(whole[whole.len() - 1 - rev@.len()] == here.last());
                        }
                        rev.push(c);
                    }
                    cur = &**p;
                    proof {
                        assert(cur.path() =~= whole.subrange(0, cur.path().len() as int));
                    }
                },
            }
        }
        let mut r: Vec<A> = Vec::new();
        while rev.len() > 0
            invariant
                r@.len() + rev@.len() == whole.len(),
                forall|i: int| 0 <= i < rev@.len() ==> cloned(whole[whole.len() - 1 - i], #[trigger] rev@[i]),
                forall|i: int| 0 <= i < r@.len() ==> cloned(whole[i], #[trigger] r@[i]),
            decreases rev@.len(),
        {
            let a = rev.pop().unwrap();
            r.push(a);
        }
        r
    }
}

/// Walking up from a child that `action` derived from `parent` gives the
/// actions that lead to the parent, then `action`.
pub proof fn lemma_child_path<A, S>(parent: Rc<BSState<A, S>>, child: BSState<A, S>, action: A)
    requires
        child.prev_state == Some(parent),
        child.action == Some(action),
    ensures
        child.path() == (*parent).path().push(action),
        child.depth() == (*parent).depth() + 1,
{
}

} // verus!
