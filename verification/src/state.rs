//! The cost triple attached to a search node: heuristic estimate `h`,
//! accumulated path cost `g`, and evaluation score `f`, together with the
//! total order the open list uses.

use vstd::prelude::*;

verus! {

use crate::grid::Grid;
use crate::grid::spec_hamming;
use crate::grid::spec_manhattan;
use crate::grid::spec_linear_manhattan;

/// The cost triple of a node. `f` is derived from `h` and `g` by the
/// active evaluation mode.
#[derive(Clone, Copy, Debug, PartialEq, Eq, Structural)]
pub struct State {
    pub h: u64,
    pub g: u32,
    pub f: u64,
}

/// The evaluation score for a weighted heuristic value `h` and a path
/// cost `g`: `h` alone in greedy mode, otherwise `h` plus `g` capped at
/// the uniform-cost ceiling.
pub open spec fn spec_f(h: u64, g: u32, greedy: bool, g_cap: u32) -> int {
    h + if greedy {
        0int
    } else if g <= g_cap {
        g as int
    } else {
        g_cap as int
    }
}

/// The strict order on states used to pick the next node: lexicographic
/// by `f`, then `h`, then `g`, smallest first.
pub open spec fn spec_state_lt(a: State, b: State) -> bool {
    a.f < b.f || (a.f == b.f && (a.h < b.h || (a.h == b.h && a.g < b.g)))
}

/// The comparison the container traits expose: a state compares as
/// *greater* when it would be picked *earlier*, so that a max-first
/// container pops the smallest `(f, h, g)` triple first.
pub open spec fn spec_state_cmp(a: State, b: State) -> core::cmp::Ordering {
    if spec_state_lt(a, b) {
        core::cmp::Ordering::Greater
    } else if spec_state_lt(b, a) {
        core::cmp::Ordering::Less
    } else {
        core::cmp::Ordering::Equal
    }
}

impl Default for State {
    /// The all-zero cost triple.
    fn default() -> (r: Self)
        ensures
            r.h == 0 && r.g == 0 && r.f == 0,
    {
        State { h: 0, g: 0, f: 0 }
    }
}

impl PartialOrd for State {
    fn partial_cmp(&self, other: &Self) -> (r: Option<core::cmp::Ordering>) {
        Some(self.cmp(other))
    }
}

impl vstd::std_specs::cmp::PartialOrdSpecImpl for State {
    open spec fn obeys_partial_cmp_spec() -> bool {
        true
    }

    open spec fn partial_cmp_spec(&self, other: &State) -> Option<core::cmp::Ordering> {
        Some(spec_state_cmp(*self, *other))
    }
}

impl State {
    /// Builds the cost triple `(h, g, f)` as given.
    pub fn new(h: u64, g: u32, f: u64) -> (r: Self)
        ensures
            r.h == h && r.g == g && r.f == f,
    {
        State { h, g, f }
    }

    /// Compares two states in popping order: `Greater` means `self` is
    /// picked before `other`, i.e. `self` has the smaller `(f, h, g)`.
    pub fn cmp(&self, other: &Self) -> (r: core::cmp::Ordering)
        ensures
            r == spec_state_cmp(*self, *other),
    {
        if other.f > self.f {
            core::cmp::Ordering::Greater
        } else if other.f < self.f {
            core::cmp::Ordering::Less
        } else if (other.h > self.h) || (other.h == self.h && other.g > self.g) {
            core::cmp::Ordering::Greater
        } else if (other.h < self.h) || (other.h == self.h && other.g < self.g) {
            core::cmp::Ordering::Less
        } else {
            core::cmp::Ordering::Equal
        }
    }

    /// Recomputes `f` from `h` and `g` under the active evaluation mode.
    fn compute_f(&mut self, greedy: bool, g_cap: u32)
        requires
            old(self).h <= u64::MAX - u32::MAX,
        ensures
            final(self).h == old(self).h,
            final(self).g == old(self).g,
            final(self).f == spec_f(old(self).h, old(self).g, greedy, g_cap),
    {
        self.f = self.h;
        if !greedy {
            let capped = if self.g <= g_cap {
                self.g
            } else {
                g_cap
            };
            self.f = self.f + capped as u64;
        }
    }

    /// Sets `h` to the weighted Hamming distance from `grid` to `goal`
    /// and refreshes `f`.
    pub fn update_hamming(&mut self, grid: &Grid, goal: &Grid, weight: u32, greedy: bool, g_cap: u32)
        requires
            grid.wf(),
            goal.wf(),
            grid.spec_lines() == goal.spec_lines(),
        ensures
            final(self).g == old(self).g,
            final(self).h == spec_hamming(grid@, goal@) * weight,
            final(self).f == spec_f(final(self).h, old(self).g, greedy, g_cap),
    {
        let raw = grid.hamming(goal);
        proof {
            grid.lemma_wf();
            crate::grid::lemma_len_bound(grid@, grid.spec_lines());
            assert((raw as int) * (weight as int) <= 65025 * 4294967295int) by (nonlinear_arith)
                requires
                    0 <= raw as int <= 65025,
                    0 <= weight as int <= 4294967295int,
            {}
        }
        self.h = (raw as u64) * (weight as u64);
        self.compute_f(greedy, g_cap);
    }

    /// Sets `h` to the weighted Manhattan distance from `grid` to `goal`
    /// and refreshes `f`.
    pub fn update_manhattan(
        &mut self,
        grid: &Grid,
        goal: &Grid,
        weight: u32,
        greedy: bool,
        g_cap: u32,
    )
        requires
            grid.wf(),
            goal.wf(),
            grid.spec_lines() == goal.spec_lines(),
        ensures
            final(self).g == old(self).g,
            final(self).h == spec_manhattan(grid@, goal@, grid.spec_lines()) * weight,
            final(self).f == spec_f(final(self).h, old(self).g, greedy, g_cap),
    {
        let raw = grid.manhattan(goal);
        proof {
            grid.lemma_wf();
            assert(grid@.len() * (2 * (grid.spec_lines() as int)) <= 33162750) by (nonlinear_arith)
                requires
                    grid@.len() == (grid.spec_lines() as int) * (grid.spec_lines() as int),
                    1 <= grid.spec_lines() as int <= 255,
            {}
            assert((raw as int) * (weight as int) <= 33162750 * 4294967295int) by (nonlinear_arith)
                requires
                    0 <= raw as int <= 33162750,
                    0 <= weight as int <= 4294967295int,
            {}
        }
        self.h = (raw as u64) * (weight as u64);
        self.compute_f(greedy, g_cap);
    }

    /// Sets `h` to the weighted Manhattan-with-linear-conflict distance
    /// from `grid` to `goal` and refreshes `f`.
    pub fn update_linear_manhattan(
        &mut self,
        grid: &Grid,
        goal: &Grid,
        weight: u32,
        greedy: bool,
        g_cap: u32,
    )
        requires
            grid.wf(),
            goal.wf(),
            grid.spec_lines() == goal.spec_lines(),
        ensures
            final(self).g == old(self).g,
            final(self).h == spec_linear_manhattan(grid@, goal@, grid.spec_lines()) * weight,
            final(self).f == spec_f(final(self).h, old(self).g, greedy, g_cap),
    {
        let raw = grid.linear_manhattan(goal);
        proof {
            assert((raw as int) * (weight as int) <= 4261348350int * 4294967295int)
                by (nonlinear_arith)
                requires
                    0 <= raw as int <= 4261348350int,
                    0 <= weight as int <= 4294967295int,
            {}
        }
        self.h = (raw as u64) * (weight as u64);
        self.compute_f(greedy, g_cap);
    }
}

} // verus!
