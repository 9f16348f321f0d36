//! A point in the search tree: a board, its cost triple, and a handle to
//! its parent in the engine's node arena.

use vstd::prelude::*;

verus! {

use crate::grid::Grid;
use crate::grid::HType;
use crate::grid::spec_successors;
use crate::grid::is_successor;
use crate::grid::lemma_successors_are_successors;
use crate::grid::spec_h_of;
use crate::state::State;
use crate::state::spec_f;

/// A search-tree node. The parent link is the arena index of the node
/// this one was expanded from; the root carries `None`.
#[derive(Clone, Debug)]
pub struct Node {
    pub grid: Grid,
    pub state: State,
    pub parent: Option<usize>,
}

/// The path cost of a child: one more than its parent's, saturating at
/// the numeric ceiling.
pub open spec fn g_inc_spec(g: u32) -> u32 {
    if g < u32::MAX {
        (g + 1) as u32
    } else {
        g
    }
}

impl Node {
    /// Builds a parentless node from a cost triple and a board.
    pub fn new(state: State, grid: Grid) -> (r: Self)
        ensures
            r.state == state,
            r.grid == grid,
            r.parent is None,
    {
        Node { state, grid, parent: None }
    }

    /// One child per legal blank-slide of this node's board, in move
    /// order, each with path cost one beyond this node's, an unevaluated
    /// heuristic, and `parent` as its parent handle.
    pub fn generate_childs(&self, parent: usize) -> (r: Vec<Node>)
        requires
            self.grid.wf(),
        ensures
            r@.len() == spec_successors(self.grid@, self.grid.spec_lines()).len(),
            forall|k: int|
                0 <= k < r@.len() ==> {
                    let c = #[trigger] r@[k];
                    &&& c.grid@ == spec_successors(self.grid@, self.grid.spec_lines())[k]
                    &&& c.grid.wf()
                    &&& c.grid.spec_lines() == self.grid.spec_lines()
                    &&& c.state.g == g_inc_spec(self.state.g)
                    &&& c.state.h == 0
                    &&& c.state.f == 0
                    &&& c.parent == Some(parent)
                    &&& is_successor(self.grid@, self.grid.spec_lines(), c.grid@)
                },
    {
        proof {
            lemma_successors_are_successors(self.grid@, self.grid.spec_lines());
        }
        let mut boards = self.grid.move_all_possible();
        let g1 = if self.state.g < u32::MAX {
            self.state.g + 1
        } else {
            self.state.g
        };
        let ghost succ = spec_successors(self.grid@, self.grid.spec_lines());
        let ghost total = boards@.len();
        let mut r: Vec<Node> = Vec::new();
        while boards.len() > 0
            invariant
                g1 == g_inc_spec(self.state.g),
                r@.len() + boards@.len() == total,
                total == succ.len(),
                forall|k: int|
                    0 <= k < boards@.len() ==> (#[trigger] boards@[k])@ == succ[r@.len() + k]
                        && boards@[k].wf() && boards@[k].spec_lines() == self.grid.spec_lines(),
                forall|k: int|
                    0 <= k < r@.len() ==> {
                        let c = #[trigger] r@[k];
                        &&& c.grid@ == succ[k]
                        &&& c.grid.wf()
                        &&& c.grid.spec_lines() == self.grid.spec_lines()
                        &&& c.state.g == g_inc_spec(self.state.g)
                        &&& c.state.h == 0
                        &&& c.state.f == 0
                        &&& c.parent == Some(parent)
                    },
            decreases boards@.len(),
        {
            let b = boards.remove(0);
            r.push(Node { grid: b, state: State::new(0, g1, 0), parent: Some(parent) });
        }
        r
    }

    /// Re-evaluates this node's heuristic against `goal` with the given
    /// weight and evaluation mode, refreshing `h` and `f`.
    pub fn update_state(&mut self, goal: &Grid, h_type: HType, weight: u32, greedy: bool, g_cap: u32)
        requires
            old(self).grid.wf(),
            goal.wf(),
            old(self).grid.spec_lines() == goal.spec_lines(),
        ensures
            final(self).grid == old(self).grid,
            final(self).parent == old(self).parent,
            final(self).state.g == old(self).state.g,
            final(self).state.h == spec_h_of(
                h_type,
                old(self).grid@,
                goal@,
                old(self).grid.spec_lines(),
            ) * weight,
            final(self).state.f == spec_f(
                final(self).state.h,
                old(self).state.g,
                greedy,
                g_cap,
            ),
    {
        match h_type {
            HType::Hamming => self.state.update_hamming(&self.grid, goal, weight, greedy, g_cap),
            HType::Manhattan => self.state.update_manhattan(
                &self.grid,
                goal,
                weight,
                greedy,
                g_cap,
            ),
            HType::LinearManhattan => self.state.update_linear_manhattan(
                &self.grid,
                goal,
                weight,
                greedy,
                g_cap,
            ),
        }
    }
}

} // verus!
