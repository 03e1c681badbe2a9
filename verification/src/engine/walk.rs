//! Hard traversal of a decision tree from its root to a leaf. The caller
//! looks nodes up and evaluates them; the walk decides what happens next and
//! stops a walk that goes round in a cycle.
use vstd::prelude::*;
use crate::error::Error;
use crate::text::push_str;

verus! {

/// Where a hard traversal stands.
#[derive(Debug)]
pub struct Walk {
    /// The node or leaf to visit next.
    pub current: String,
    /// Nodes evaluated so far.
    pub evaluated: usize,
    /// Evaluations allowed beyond the first (the number of nodes plus one).
    pub max_steps: usize,
}

/// What to do at the current id.
#[derive(Debug)]
pub enum WalkStep {
    /// The walk ended at this leaf.
    AtLeaf(String),
    /// Evaluate this node and follow its decision.
    Evaluate(String),
    /// The walk failed.
    Fail(Error),
}

impl Walk {
    /// A walk from `root` through a tree of `n_nodes` decision nodes.
    pub fn new(root: &str, n_nodes: usize) -> (w: Walk)
        requires
            n_nodes + 2 <= usize::MAX,
        ensures
            w.current@ == root@,
            w.evaluated == 0,
            w.max_steps == n_nodes + 1,
    {
        Walk { current: String::from_str(root), evaluated: 0, max_steps: n_nodes + 1 }
    }

    /// The next action, given whether the current id is a leaf and whether
    /// it is a node: past `max_steps + 1` evaluations the walk has gone round
    /// a cycle; a leaf ends it; an id that is neither dangles.
    pub fn step(&self, is_leaf: bool, is_node: bool) -> (s: WalkStep)
        ensures
            self.evaluated > self.max_steps ==> (s matches WalkStep::Fail(Error::Engine(m))
                && m@ == "traversal exceeded max steps (cycle?)"@),
            self.evaluated <= self.max_steps && is_leaf ==> (s matches WalkStep::AtLeaf(l) && l@ == self.current@),
            self.evaluated <= self.max_steps && !is_leaf && !is_node ==> (s matches WalkStep::Fail(Error::Engine(m))
                && m@ == "dangling node '"@ + self.current@ + "'"@),
            self.evaluated <= self.max_steps && !is_leaf && is_node ==> (s matches WalkStep::Evaluate(n)
                && n@ == self.current@),
    {
        if self.evaluated > self.max_steps {
            return WalkStep::Fail(Error::Engine(String::from_str("traversal exceeded max steps (cycle?)")));
        }
        if is_leaf {
            return WalkStep::AtLeaf(String::from_str(self.current.as_str()));
        }
        if !is_node {
            let mut m = String::from_str("dangling node '");
            push_str(&mut m, self.current.as_str());
            push_str(&mut m, "'");
            return WalkStep::Fail(Error::Engine(m));
        }
        WalkStep::Evaluate(String::from_str(self.current.as_str()))
    }

    /// The walk after evaluating the current node, whose decision leads to `goto`.
    pub fn follow(self, goto: String) -> (w: Walk)
        requires
            self.evaluated <= self.max_steps,
            self.max_steps < usize::MAX,
        ensures
            w.current == goto,
            w.evaluated == self.evaluated + 1,
            w.max_steps == self.max_steps,
    {
        Walk { current: goto, evaluated: self.evaluated + 1, max_steps: self.max_steps }
    }
}

} // verus!
