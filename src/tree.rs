use vstd::prelude::*;
use crate::generic_search::{clone_is_exact, searchable_space, Searchable};

verus! {

/// A rooted tree over the nodes `0 .. child_of.len()`, searched from the root `0`
/// for the node `goal`.
pub struct Tree {
    /// The parent of each node; the root is its own parent.
    pub parent_of: Vec<usize>,
    /// The children of each node, in the order they are explored.
    pub child_of: Vec<Vec<usize>>,
    pub goal: usize,
}

impl Searchable<usize> for Tree {
    open spec fn initial_spec(&self) -> usize {
        0
    }

    open spec fn is_goal_spec(&self, s: usize) -> bool {
        s == self.goal
    }

    open spec fn successors_spec(&self, s: usize) -> Seq<usize> {
        if s < self.child_of@.len() {
            self.child_of@[s as int]@
        } else {
            Seq::empty()
        }
    }

    open spec fn key_spec(&self, s: usize) -> u128 {
        s as u128
    }

    fn initial(&self) -> (r: usize) {
        0
    }

    fn is_goal(&self, s: &usize) -> (r: bool) {
        *s == self.goal
    }

    fn successors(&self, s: &usize) -> (r: Vec<usize>) {
        let mut out: Vec<usize> = Vec::new();
        if *s < self.child_of.len() {
            let children = &self.child_of[*s];
            let mut i: usize = 0;
            while i < children.len()
                invariant
                    i <= children@.len(),
                    out@ == children@.subrange(0, i as int),
                decreases children@.len() - i,
            {
                out.push(children[i]);
                assert(out@ =~= children@.subrange(0, i + 1));
                i = i + 1;
            }
            assert(out@ =~= children@);
        }
        out
    }

    fn key(&self, s: &usize) -> (r: u128) {
        *s as u128
    }
}

/// A tree meets what depth-first and breadth-first search ask of a problem.
pub proof fn lemma_tree_searchable(t: &Tree)
    ensures
        searchable_space(t),
{
    assert(clone_is_exact::<usize>());
}

} // verus!
