//! The search engine: A* over open/closed bookkeeping and IDA* over an
//! explicit path stack, both working on a shared node arena. The arena
//! keeps every node ever created; parent links are arena indices, so the
//! solution path is reconstructed by an index walk.

use vstd::prelude::*;

verus! {

use crate::grid::Grid;
use crate::grid::HType;
use crate::grid::is_successor;
use crate::grid::spec_h_of;
use crate::grid::reachable_in;
use crate::grid::lemma_heuristic_zero;
use crate::grid::lemma_reachable_extend;
use crate::grid::lemma_successor_in_list;
use crate::grid::board_code;
use crate::grid::lemma_board_code_bounds;
use crate::grid::lemma_board_code_injective;
use crate::grid::spec_successors;
use crate::grid::lemma_successors_are_successors;
use crate::node::Node;
use crate::node::g_inc_spec;
use crate::state::spec_state_lt;
use crate::utils::str_eq;
use vstd::string::StringExecFns;

/// The two search algorithms the engine can run.
#[derive(Clone, Copy, Debug, PartialEq, Eq, Structural)]
pub enum AType {
    AStar,
    IDAStar,
}

impl Default for AType {
    /// The default algorithm is IDA*.
    fn default() -> (r: Self)
        ensures
            r is IDAStar,
    {
        Self::IDAStar
    }
}

impl AType {
    /// Decodes an algorithm name; a missing name selects the default,
    /// an unknown name is an error naming the offender.
    pub fn from_str_or_default(input: Option<&str>) -> (r: Result<Self, String>)
        ensures
            (match input {
                None => r matches Ok(a) && a is IDAStar,
                Some(h) => {
                    &&& h@ == "astar"@ ==> (r matches Ok(a) && a is AStar)
                    &&& h@ == "idastar"@ ==> (r matches Ok(a) && a is IDAStar)
                    &&& (h@ != "astar"@ && h@ != "idastar"@) ==> (r matches Err(m) && m@
                        == "This algorithmic function does not exist: "@ + h@)
                },
            }),
    {
        proof {
            reveal_strlit("astar");
            reveal_strlit("idastar");
            assert("astar"@.len() == 5);
            assert("idastar"@.len() == 7);
            assert("astar"@ != "idastar"@);
        }
        match input {
            None => Ok(Self::IDAStar),
            Some(h) => {
                if str_eq(h, "astar") {
                    Ok(Self::AStar)
                } else if str_eq(h, "idastar") {
                    Ok(Self::IDAStar)
                } else {
                    let mut msg = String::from_str("This algorithmic function does not exist: ");
                    msg.append(h);
                    Err(msg)
                }
            },
        }
    }
}

/// The unified search engine. It is configured once, with an algorithm,
/// a heuristic, a weight range and an evaluation mode, and then run to
/// completion with `resolve`.
pub struct Algo {
    /// The node arena; index 0 is the root node. Nodes already in the
    /// arena are never mutated, so parent links stay meaningful.
    pub nodes: Vec<Node>,
    /// Arena indices of the A* frontier, ordered by insertion; the pop
    /// picks the smallest `(f, h, g)` among them.
    pub open_list: Vec<usize>,
    /// Arena indices of the boards A* has already expanded.
    pub closed_list: Vec<usize>,
    /// The root-to-frontier path IDA* explores; on success it is the
    /// solution path.
    pub path: Vec<usize>,
    /// The arena index of the solution node, once A* has found one.
    pub solution: Option<usize>,
    /// The target arrangement.
    pub goal: Grid,
    /// The heuristic the engine evaluates.
    pub h_type: HType,
    /// The algorithm `resolve` dispatches to.
    pub a_type: AType,
    /// Time complexity: nodes popped (A*) or visited (IDA*).
    pub t_complex: u64,
    /// Space complexity: the high-water mark of live bookkeeping.
    pub s_complex: u64,
    /// The current heuristic weight; IDA* may raise it up to `max_weight`.
    pub weight: u32,
    /// The largest weight the schedule may reach.
    pub max_weight: u32,
    /// The uniform-cost ceiling: the path-cost contribution to `f` is
    /// capped at this value.
    pub g_cap: u32,
    /// Greedy mode: `f` ignores the path cost entirely.
    pub greedy: bool,
    /// Node-visit budget: a search reports failure once `t_complex`
    /// reaches this bound. Starts at the numeric maximum.
    pub node_limit: u64,
}

/// The heuristic stored in arena node `i` is truthful about the goal: a
/// stored value of zero is assigned exactly to the goal board itself.
#[verifier::opaque]
pub open spec fn node_h_ok(nodes: Seq<Node>, goal: Grid, i: int) -> bool {
    nodes[i].state.h == 0 <==> nodes[i].grid@ == goal@
}

/// The parent edge of arena node `i` is well formed: a parentless node
/// is the root; any other node points to an earlier node whose board is
/// one blank-slide before its own, with path cost one higher.
#[verifier::opaque]
pub open spec fn edge_ok(nodes: Seq<Node>, goal: Grid, i: int) -> bool {
    match nodes[i].parent {
        Some(p) => {
            &&& (p as int) < i
            &&& nodes[i].state.g == g_inc_spec(nodes[p as int].state.g)
            &&& is_successor(nodes[p as int].grid@, goal.spec_lines(), nodes[i].grid@)
        },
        None => i == 0,
    }
}

/// Structural invariant of a node arena: every node holds a well-formed
/// board of the goal's size, the root is parentless with path cost
/// zero, and every parent edge is well formed.
pub open spec fn arena_wf(nodes: Seq<Node>, goal: Grid) -> bool {
    &&& goal.wf()
    &&& nodes.len() >= 1
    &&& forall|i: int|
        0 <= i < nodes.len() ==> (#[trigger] nodes[i]).grid.wf() && nodes[i].grid.spec_lines()
            == goal.spec_lines()
    &&& nodes[0].parent is None
    &&& nodes[0].state.g == 0
    &&& forall|i: int| 0 <= i < nodes.len() ==> #[trigger] edge_ok(nodes, goal, i)
    &&& forall|i: int| 0 <= i < nodes.len() ==> #[trigger] node_h_ok(nodes, goal, i)
}

/// Appending a child whose parent is already in the arena keeps the
/// arena well formed.
proof fn lemma_arena_push(nodes: Seq<Node>, goal: Grid, c: Node)
    requires
        arena_wf(nodes, goal),
        c.grid.wf(),
        c.grid.spec_lines() == goal.spec_lines(),
        (c.state.h == 0 <==> c.grid@ == goal@),
        (match c.parent {
            Some(p) => (p as int) < nodes.len() && c.state.g == g_inc_spec(
                nodes[p as int].state.g,
            ) && is_successor(nodes[p as int].grid@, goal.spec_lines(), c.grid@),
            None => false,
        }),
    ensures
        arena_wf(nodes.push(c), goal),
{
    let post = nodes.push(c);
    assert(post[0] == nodes[0]);
    assert forall|i: int| 0 <= i < post.len() implies (#[trigger] post[i]).grid.wf()
        && post[i].grid.spec_lines() == goal.spec_lines() by {
        if i < nodes.len() {
            assert(post[i] == nodes[i]);
        } else {
            assert(post[i] == c);
        }
    }
    assert forall|i: int| 0 <= i < post.len() implies #[trigger] node_h_ok(post, goal, i) by {
        reveal(node_h_ok);
        if i < nodes.len() {
            assert(node_h_ok(nodes, goal, i));
            assert(post[i] == nodes[i]);
        } else {
            assert(post[i] == c);
        }
    }
    assert forall|i: int| 0 <= i < post.len() implies #[trigger] edge_ok(post, goal, i) by {
        reveal(edge_ok);
        if i < nodes.len() {
            assert(edge_ok(nodes, goal, i));
            assert(post[i] == nodes[i]);
            match nodes[i].parent {
                Some(p) => {
                    assert(post[p as int] == nodes[p as int]);
                },
                None => {},
            }
        } else {
            assert(post[i] == c);
            match c.parent {
                Some(p) => {
                    assert(post[p as int] == nodes[p as int]);
                },
                None => {},
            }
        }
    }
}

/// Step `k` of the explored path is a legal blank-slide with the path
/// cost counting up by one.
#[verifier::opaque]
pub open spec fn path_step_ok(nodes: Seq<Node>, goal: Grid, path: Seq<usize>, k: int) -> bool {
    &&& is_successor(
        nodes[path[k - 1] as int].grid@,
        goal.spec_lines(),
        nodes[path[k] as int].grid@,
    )
    &&& nodes[path[k] as int].state.g == g_inc_spec(nodes[path[k - 1] as int].state.g)
}

/// Path steps are untouched when the arena grows, as long as the path
/// stays within the old arena.
proof fn lemma_path_steps_stable(
    pre: Seq<Node>,
    post: Seq<Node>,
    goal: Grid,
    path: Seq<usize>,
)
    requires
        pre.is_prefix_of(post),
        forall|k: int| 0 <= k < path.len() ==> (#[trigger] path[k]) < pre.len(),
        forall|k: int| 1 <= k < path.len() ==> #[trigger] path_step_ok(pre, goal, path, k),
    ensures
        forall|k: int| 1 <= k < path.len() ==> #[trigger] path_step_ok(post, goal, path, k),
{
    lemma_lists_stable(pre, post, path);
    assert forall|k: int| 1 <= k < path.len() implies #[trigger] path_step_ok(
        post,
        goal,
        path,
        k,
    ) by {
        reveal(path_step_ok);
        assert(path_step_ok(pre, goal, path, k));
        assert(post[path[k] as int] == pre[path[k] as int]);
        assert(post[path[k - 1] as int] == pre[path[k - 1] as int]);
    }
}

/// Prefix-of is transitive.
proof fn lemma_prefix_trans(a: Seq<Node>, b: Seq<Node>, c: Seq<Node>)
    requires
        a.is_prefix_of(b),
        b.is_prefix_of(c),
    ensures
        a.is_prefix_of(c),
{
    assert(a =~= b.subrange(0, a.len() as int));
    assert(b =~= c.subrange(0, b.len() as int));
    assert(a =~= c.subrange(0, a.len() as int));
}

/// Prefix-of is transitive, for handle sequences.
proof fn lemma_prefix_trans_idx(a: Seq<usize>, b: Seq<usize>, c: Seq<usize>)
    requires
        a.is_prefix_of(b),
        b.is_prefix_of(c),
    ensures
        a.is_prefix_of(c),
{
    assert(a =~= b.subrange(0, a.len() as int));
    assert(b =~= c.subrange(0, b.len() as int));
    assert(a =~= c.subrange(0, a.len() as int));
}

/// Extending the path by one well-formed step keeps every step well
/// formed.
proof fn lemma_path_steps_push(nodes: Seq<Node>, goal: Grid, path: Seq<usize>, idx: usize)
    requires
        path.len() >= 1,
        forall|k: int| 1 <= k < path.len() ==> #[trigger] path_step_ok(nodes, goal, path, k),
        is_successor(
            nodes[path[path.len() - 1] as int].grid@,
            goal.spec_lines(),
            nodes[idx as int].grid@,
        ),
        nodes[idx as int].state.g == g_inc_spec(nodes[path[path.len() - 1] as int].state.g),
    ensures
        forall|k: int|
            1 <= k < path.push(idx).len() ==> #[trigger] path_step_ok(
                nodes,
                goal,
                path.push(idx),
                k,
            ),
{
    let p2 = path.push(idx);
    assert forall|k: int| 1 <= k < p2.len() implies #[trigger] path_step_ok(nodes, goal, p2, k) by {
        reveal(path_step_ok);
        if k < path.len() {
            assert(path_step_ok(nodes, goal, path, k));
            assert(p2[k] == path[k] && p2[k - 1] == path[k - 1]);
        } else {
            assert(p2[k] == idx && p2[k - 1] == path[path.len() - 1]);
        }
    }
}

/// Dropping the last path node keeps every remaining step well formed.
proof fn lemma_path_steps_pop(nodes: Seq<Node>, goal: Grid, path: Seq<usize>)
    requires
        path.len() >= 1,
        forall|k: int| 1 <= k < path.len() ==> #[trigger] path_step_ok(nodes, goal, path, k),
    ensures
        forall|k: int|
            1 <= k < path.drop_last().len() ==> #[trigger] path_step_ok(
                nodes,
                goal,
                path.drop_last(),
                k,
            ),
{
    let p2 = path.drop_last();
    assert forall|k: int| 1 <= k < p2.len() implies #[trigger] path_step_ok(nodes, goal, p2, k) by {
        reveal(path_step_ok);
        assert(path_step_ok(nodes, goal, path, k));
        assert(p2[k] == path[k] && p2[k - 1] == path[k - 1]);
    }
}

/// Nodes named by in-range handles are untouched when the arena grows.
proof fn lemma_lists_stable(pre: Seq<Node>, post: Seq<Node>, a: Seq<usize>)
    requires
        pre.is_prefix_of(post),
        forall|k: int| 0 <= k < a.len() ==> (#[trigger] a[k]) < pre.len(),
    ensures
        forall|k: int|
            0 <= k < a.len() ==> post[#[trigger] a[k] as int] == pre[a[k] as int],
{
    assert forall|k: int|
        0 <= k < a.len() implies post[#[trigger] a[k] as int] == pre[a[k] as int] by {
        assert(pre =~= post.subrange(0, pre.len() as int));
        assert(pre[a[k] as int] == post.subrange(0, pre.len() as int)[a[k] as int]);
    }
}

impl Algo {
    /// Every index of `s` points into the arena.
    pub open spec fn idx_ok(&self, s: Seq<usize>) -> bool {
        forall|k: int| 0 <= k < s.len() ==> (#[trigger] s[k]) < self.nodes@.len()
    }

    /// The arena invariant, on this engine's arena and goal.
    pub open spec fn nodes_wf(&self) -> bool {
        arena_wf(self.nodes@, self.goal)
    }

    /// The explored path starts at the root and advances by one legal
    /// blank-slide per step, with path costs counting up.
    pub open spec fn path_wf(&self) -> bool {
        &&& self.path@.len() >= 1
        &&& self.path@[0] == 0usize
        &&& self.idx_ok(self.path@)
        &&& forall|k: int|
            1 <= k < self.path@.len() ==> #[trigger] path_step_ok(
                self.nodes@,
                self.goal,
                self.path@,
                k,
            )
    }

    /// The closed-list dedup guarantee: the open list never holds one
    /// board twice, the closed list never holds one board twice, and no
    /// board is in both at once.
    pub open spec fn dedup_wf(&self) -> bool {
        &&& forall|k: int, l: int|
            #![trigger self.open_list@[k], self.open_list@[l]]
            0 <= k < l < self.open_list@.len() ==> self.nodes@[self.open_list@[k] as int].grid@
                != self.nodes@[self.open_list@[l] as int].grid@
        &&& forall|k: int, l: int|
            #![trigger self.closed_list@[k], self.closed_list@[l]]
            0 <= k < l < self.closed_list@.len() ==> self.nodes@[self.closed_list@[k] as int].grid@
                != self.nodes@[self.closed_list@[l] as int].grid@
        &&& forall|k: int, l: int|
            #![trigger self.open_list@[k], self.closed_list@[l]]
            0 <= k < self.open_list@.len() && 0 <= l < self.closed_list@.len()
                ==> self.nodes@[self.open_list@[k] as int].grid@
                != self.nodes@[self.closed_list@[l] as int].grid@
    }

    /// Whether some open or closed entry holds the board `b`.
    pub open spec fn board_filed(&self, b: Seq<u16>) -> bool {
        ||| exists|j: int|
            0 <= j < self.open_list@.len() && self.nodes@[#[trigger] self.open_list@[j] as int].grid@
                == b
        ||| exists|j: int|
            0 <= j < self.closed_list@.len() && self.nodes@[#[trigger] self.closed_list@[j] as int].grid@
                == b
    }

    /// Every one-slide successor of the board of closed entry `j` is
    /// filed on the open or the closed list.
    #[verifier::opaque]
    pub open spec fn entry_expanded(&self, j: int) -> bool {
        forall|si: int|
            0 <= si < spec_successors(
                self.nodes@[self.closed_list@[j] as int].grid@,
                self.goal.spec_lines(),
            ).len() ==> self.board_filed(
                #[trigger] spec_successors(
                    self.nodes@[self.closed_list@[j] as int].grid@,
                    self.goal.spec_lines(),
                )[si],
            )
    }

    /// The A* frontier bookkeeping is complete: the root board is filed,
    /// no closed board is the goal, and every closed board already has
    /// all its one-slide successors filed. A fresh engine satisfies it
    /// and a failing A* run preserves it; once the open list drains it
    /// forces the goal to be unreachable from the root.
    pub open spec fn frontier_complete(&self) -> bool {
        &&& self.board_filed(self.nodes@[0].grid@)
        &&& forall|j: int|
            0 <= j < self.closed_list@.len() ==> self.nodes@[#[trigger] self.closed_list@[j] as int].grid@
                != self.goal@
        &&& forall|j: int| 0 <= j < self.closed_list@.len() ==> #[trigger] self.entry_expanded(j)
    }

    /// The engine invariant: arena, path, and dedup structure all hold,
    /// the bookkeeping indices are in range, open and closed together
    /// never outnumber the arena, and the weight is at least one.
    pub open spec fn inv(&self) -> bool {
        &&& self.nodes_wf()
        &&& self.idx_ok(self.open_list@)
        &&& self.idx_ok(self.closed_list@)
        &&& self.path_wf()
        &&& self.dedup_wf()
        &&& self.open_list@.len() + self.closed_list@.len() <= self.nodes@.len()
        &&& (match self.solution {
            Some(i) => (i as int) < self.nodes@.len(),
            None => true,
        })
        &&& 1 <= self.weight
    }

    /// The engine's configuration, which a search run never changes.
    pub open spec fn config(&self) -> (Grid, HType, AType, u32, u32, bool, u64) {
        (self.goal, self.h_type, self.a_type, self.max_weight, self.g_cap, self.greedy,
        self.node_limit)
    }

    /// Builds an engine around a root node and a goal. The root must be
    /// parentless with path cost zero, both boards must be well formed
    /// and of one size, and the weight range must start at one or above.
    pub fn new(
        initial_node: Node,
        goal: Grid,
        h_type: HType,
        a_type: AType,
        min_weight: u32,
        max_weight: u32,
        g_cap: u32,
        greedy: bool,
    ) -> (r: Self)
        requires
            initial_node.grid.wf(),
            goal.wf(),
            initial_node.grid.spec_lines() == goal.spec_lines(),
            initial_node.parent is None,
            initial_node.state.g == 0,
            (initial_node.state.h == 0 <==> initial_node.grid@ == goal@),
            1 <= min_weight <= max_weight,
        ensures
            r.inv(),
            r.frontier_complete(),
            r.nodes@ =~= seq![initial_node],
            r.open_list@ =~= seq![0usize],
            r.closed_list@ =~= Seq::<usize>::empty(),
            r.path@ =~= seq![0usize],
            r.solution is None,
            r.goal == goal,
            r.h_type == h_type,
            r.a_type == a_type,
            r.t_complex == 0,
            r.s_complex == 0,
            r.weight == min_weight,
            r.max_weight == max_weight,
            r.g_cap == g_cap,
            r.greedy == greedy,
            r.node_limit == u64::MAX,
    {
        let mut nodes: Vec<Node> = Vec::new();
        nodes.push(initial_node);
        let mut open_list: Vec<usize> = Vec::new();
        open_list.push(0);
        let mut path: Vec<usize> = Vec::new();
        path.push(0);
        proof {
            reveal(edge_ok);
            reveal(node_h_ok);
        }
        let a = Algo {
            nodes,
            open_list,
            closed_list: Vec::new(),
            path,
            solution: None,
            goal,
            h_type,
            a_type,
            t_complex: 0,
            s_complex: 0,
            weight: min_weight,
            max_weight,
            g_cap,
            greedy,
            node_limit: u64::MAX,
        };
        proof {
            reveal(Algo::entry_expanded);
            assert(a.open_list@[0] == 0usize);
            assert(a.nodes@[a.open_list@[0] as int].grid@ == a.nodes@[0].grid@);
            assert(a.board_filed(a.nodes@[0].grid@));
        }
        a
    }

    /// The space-complexity counter: the largest number of nodes the
    /// bookkeeping held at once.
    pub fn get_s_complex(&self) -> (r: u64)
        ensures
            r == self.s_complex,
    {
        self.s_complex
    }

    /// The time-complexity counter: how many nodes the search processed.
    pub fn get_t_complex(&self) -> (r: u64)
        ensures
            r == self.t_complex,
    {
        self.t_complex
    }

    /// The heuristic weight the search last used.
    pub fn get_weight(&self) -> (r: u32)
        ensures
            r == self.weight,
    {
        self.weight
    }

    /// Caps the number of node visits a search may spend; a search
    /// reports failure once the cap is reached.
    pub fn set_node_limit(&mut self, limit: u64)
        requires
            old(self).inv(),
        ensures
            final(self).inv(),
            *final(self) == (Algo { node_limit: limit, ..*old(self) }),
    {
        self.node_limit = limit;
    }

    /// The cost of the solution A* found: the `g` of the solution node,
    /// or zero when no solution is recorded.
    pub fn get_total_cost_a_star(&self) -> (r: u32)
        requires
            self.inv(),
        ensures
            r == (match self.solution {
                Some(i) => self.nodes@[i as int].state.g,
                None => 0u32,
            }),
    {
        if let Some(sol) = self.solution {
            self.nodes[sol].state.g
        } else {
            0
        }
    }

    /// The cost of the path IDA* ended on: the `g` of the path's last
    /// node.
    pub fn get_total_cost_ida_star(&self) -> (r: u32)
        requires
            self.inv(),
        ensures
            r == self.nodes@[self.path@[self.path@.len() - 1] as int].state.g,
    {
        let last = self.path[self.path.len() - 1];
        self.nodes[last].state.g
    }

    /// The solution cost of whichever algorithm the engine is configured
    /// to run.
    pub fn get_total_cost(&self) -> (r: u32)
        requires
            self.inv(),
        ensures
            r == (match self.a_type {
                AType::AStar => (match self.solution {
                    Some(i) => self.nodes@[i as int].state.g,
                    None => 0u32,
                }),
                AType::IDAStar => self.nodes@[self.path@[self.path@.len() - 1] as int].state.g,
            }),
    {
        match self.a_type {
            AType::AStar => self.get_total_cost_a_star(),
            AType::IDAStar => self.get_total_cost_ida_star(),
        }
    }

    /// Whether some closed node holds the board `g`.
    fn closed_contains(&self, g: &Grid) -> (r: bool)
        requires
            self.idx_ok(self.closed_list@),
        ensures
            r == (exists|k: int|
                0 <= k < self.closed_list@.len() && self.nodes@[#[trigger] self.closed_list@[k] as int].grid@
                    == g@),
    {
        let mut k: usize = 0;
        while k < self.closed_list.len()
            invariant
                0 <= k <= self.closed_list@.len(),
                self.idx_ok(self.closed_list@),
                forall|j: int|
                    0 <= j < k ==> self.nodes@[#[trigger] self.closed_list@[j] as int].grid@ != g@,
            decreases self.closed_list@.len() - k,
        {
            let ci = self.closed_list[k];
            if self.nodes[ci].grid == *g {
                return true;
            }
            k += 1;
        }
        false
    }

    /// The position in the open list of the node holding board `g`, if
    /// any; among several (which the invariant rules out) the first.
    fn open_find(&self, g: &Grid) -> (r: Option<usize>)
        requires
            self.idx_ok(self.open_list@),
        ensures
            (match r {
                Some(j) => (j as int) < self.open_list@.len()
                    && self.nodes@[self.open_list@[j as int] as int].grid@ == g@,
                None => forall|k: int|
                    0 <= k < self.open_list@.len() ==> self.nodes@[#[trigger] self.open_list@[k] as int].grid@
                        != g@,
            }),
    {
        let mut k: usize = 0;
        while k < self.open_list.len()
            invariant
                0 <= k <= self.open_list@.len(),
                self.idx_ok(self.open_list@),
                forall|j: int|
                    0 <= j < k ==> self.nodes@[#[trigger] self.open_list@[j] as int].grid@ != g@,
            decreases self.open_list@.len() - k,
        {
            let oi = self.open_list[k];
            if self.nodes[oi].grid == *g {
                return Some(k);
            }
            k += 1;
        }
        None
    }

    /// Removes the best open entry (smallest `(f, h, g)`, earliest among
    /// equals) and hands back its arena index. The removed board is in
    /// neither list afterwards.
    fn pop_best_node(&mut self) -> (ni: usize)
        requires
            old(self).inv(),
            old(self).open_list@.len() > 0,
        ensures
            final(self).inv(),
            (ni as int) < final(self).nodes@.len(),
            *final(self) == (Algo { open_list: final(self).open_list, ..*old(self) }),
            final(self).open_list@.len() == old(self).open_list@.len() - 1,
            forall|k: int|
                0 <= k < final(self).open_list@.len()
                    ==> final(self).nodes@[#[trigger] final(self).open_list@[k] as int].grid@
                    != final(self).nodes@[ni as int].grid@,
            forall|k: int|
                0 <= k < final(self).closed_list@.len()
                    ==> final(self).nodes@[#[trigger] final(self).closed_list@[k] as int].grid@
                    != final(self).nodes@[ni as int].grid@,
            forall|k: int|
                0 <= k < final(self).open_list@.len() ==> !spec_state_lt(
                    final(self).nodes@[#[trigger] final(self).open_list@[k] as int].state,
                    final(self).nodes@[ni as int].state,
                ),
            (exists|bi: int|
                0 <= bi < old(self).open_list@.len() && old(self).open_list@[bi] == ni
                    && final(self).open_list@ == old(self).open_list@.remove(bi)),
    {
        let bi = self.open_best();
        let ghost open_pre = self.open_list@;
        let ni = self.open_list.remove(bi);
        proof {
            let o = self.open_list@;
            assert forall|k: int| 0 <= k < o.len() implies {
                &&& (#[trigger] o[k]) < self.nodes@.len()
                &&& self.nodes@[o[k] as int].grid@ != self.nodes@[ni as int].grid@
                &&& !spec_state_lt(self.nodes@[o[k] as int].state, self.nodes@[ni as int].state)
            } by {
                let kk = if k < bi as int { k } else { k + 1 };
                assert(o[k] == open_pre[kk]);
            }
            assert forall|k: int, l: int|
                #![trigger o[k], o[l]]
                0 <= k < l < o.len() implies self.nodes@[o[k] as int].grid@
                != self.nodes@[o[l] as int].grid@ by {
                let kk = if k < bi as int { k } else { k + 1 };
                let ll = if l < bi as int { l } else { l + 1 };
                assert(o[k] == open_pre[kk] && o[l] == open_pre[ll]);
            }
            assert forall|k: int, l: int|
                #![trigger o[k], self.closed_list@[l]]
                0 <= k < o.len() && 0 <= l < self.closed_list@.len()
                implies self.nodes@[o[k] as int].grid@
                != self.nodes@[self.closed_list@[l] as int].grid@ by {
                let kk = if k < bi as int { k } else { k + 1 };
                assert(o[k] == open_pre[kk]);
            }
            assert(0 <= (bi as int) && (bi as int) < open_pre.len() && open_pre[bi as int] == ni
                && self.open_list@ == open_pre.remove(bi as int));
        }
        ni
    }

    /// Moves the already-popped node `ni` to the closed list.
    fn close_node(&mut self, ni: usize)
        requires
            old(self).inv(),
            (ni as int) < old(self).nodes@.len(),
            old(self).open_list@.len() + old(self).closed_list@.len() + 1
                <= old(self).nodes@.len(),
            forall|k: int|
                0 <= k < old(self).open_list@.len()
                    ==> old(self).nodes@[#[trigger] old(self).open_list@[k] as int].grid@
                    != old(self).nodes@[ni as int].grid@,
            forall|k: int|
                0 <= k < old(self).closed_list@.len()
                    ==> old(self).nodes@[#[trigger] old(self).closed_list@[k] as int].grid@
                    != old(self).nodes@[ni as int].grid@,
        ensures
            final(self).inv(),
            *final(self) == (Algo {
                closed_list: final(self).closed_list,
                ..*old(self)
            }),
            final(self).closed_list@ == old(self).closed_list@.push(ni),
    {
        let ghost closed_pre = self.closed_list@;
        self.closed_list.push(ni);
        proof {
            let c = self.closed_list@;
            assert forall|k: int, l: int|
                #![trigger c[k], c[l]]
                0 <= k < l < c.len() implies self.nodes@[c[k] as int].grid@
                != self.nodes@[c[l] as int].grid@ by {
                if l == c.len() - 1 {
                    assert(c[k] == closed_pre[k] && c[l] == ni);
                } else {
                    assert(c[k] == closed_pre[k] && c[l] == closed_pre[l]);
                }
            }
            assert forall|k: int, l: int|
                #![trigger self.open_list@[k], c[l]]
                0 <= k < self.open_list@.len() && 0 <= l < c.len()
                implies self.nodes@[self.open_list@[k] as int].grid@
                != self.nodes@[c[l] as int].grid@ by {
                if l == c.len() - 1 {
                    assert(c[l] == ni);
                } else {
                    assert(c[l] == closed_pre[l]);
                }
            }
        }
    }

    /// Files one freshly generated child: drops it when its board is
    /// already closed, or already open at least as cheaply; re-queues it
    /// when it improves an open entry holding the same board; otherwise
    /// evaluates its heuristic and either recognizes it as the goal
    /// (recording it as the solution) or queues it on the open list.
    /// Unless the goal cut filing short, the child's board ends up filed
    /// on a list, and every board already on a list stays on one.
    #[verifier::rlimit(100)]
    #[verifier::spinoff_prover]
    fn file_child(&mut self, child: Node, ni: usize) -> (r: bool)
        requires
            old(self).inv(),
            (ni as int) < old(self).nodes@.len(),
            child.grid.wf(),
            child.grid.spec_lines() == old(self).goal.spec_lines(),
            child.parent == Some(ni),
            child.state.g == g_inc_spec(old(self).nodes@[ni as int].state.g),
            is_successor(
                old(self).nodes@[ni as int].grid@,
                old(self).goal.spec_lines(),
                child.grid@,
            ),
        ensures
            final(self).inv(),
            final(self).config() == old(self).config(),
            final(self).weight == old(self).weight,
            final(self).t_complex == old(self).t_complex,
            final(self).s_complex == old(self).s_complex,
            final(self).path@ == old(self).path@,
            old(self).nodes@.is_prefix_of(final(self).nodes@),
            final(self).closed_list@ == old(self).closed_list@,
            forall|j: int|
                0 <= j < final(self).closed_list@.len()
                    ==> final(self).nodes@[#[trigger] final(self).closed_list@[j] as int].grid@
                    == old(self).nodes@[old(self).closed_list@[j] as int].grid@,
            forall|j: int|
                0 <= j < old(self).open_list@.len() ==> (exists|j2: int|
                    0 <= j2 < final(self).open_list@.len()
                        && final(self).nodes@[final(self).open_list@[j2] as int].grid@
                        == old(self).nodes@[#[trigger] old(self).open_list@[j] as int].grid@),
            !r ==> final(self).board_filed(child.grid@),
            r ==> (match final(self).solution {
                Some(i) => (i as int) < final(self).nodes@.len()
                    && final(self).nodes@[i as int].grid@ == final(self).goal@,
                None => false,
            }),
            !r ==> final(self).solution == old(self).solution,
    {
        let ghost lines = self.goal.spec_lines();
        if self.closed_contains(&child.grid) {
            proof {
                assert forall|j: int|
                    0 <= j < old(self).open_list@.len() implies (exists|j2: int|
                    0 <= j2 < self.open_list@.len()
                        && self.nodes@[self.open_list@[j2] as int].grid@
                        == old(self).nodes@[#[trigger] old(self).open_list@[j] as int].grid@) by {
                    assert(self.nodes@[self.open_list@[j] as int].grid@
                        == old(self).nodes@[old(self).open_list@[j] as int].grid@);
                }
                assert(self.board_filed(child.grid@));
            }
            return false;
        }
        match self.open_find(&child.grid) {
            Some(oj) => {
                let oi = self.open_list[oj];
                if self.nodes[oi].state.g <= child.state.g {
                    proof {
                        assert forall|j: int|
                            0 <= j < old(self).open_list@.len() implies (exists|j2: int|
                            0 <= j2 < self.open_list@.len()
                                && self.nodes@[self.open_list@[j2] as int].grid@
                                == old(self).nodes@[#[trigger] old(self).open_list@[j] as int].grid@) by {
                            assert(self.nodes@[self.open_list@[j] as int].grid@
                                == old(self).nodes@[old(self).open_list@[j] as int].grid@);
                        }
                        assert(self.nodes@[self.open_list@[oj as int] as int].grid@
                            == child.grid@);
                        assert(self.board_filed(child.grid@));
                    }
                    return false;
                }
                let mut child = child;
                child.update_state(&self.goal, self.h_type, self.weight, self.greedy, self.g_cap);
                proof {
                    if child.state.h == 0 {
                        child.grid.lemma_wf();
                        self.goal.lemma_wf();
                        crate::grid::lemma_heuristic_chain(child.grid@, self.goal@, lines);
                        assert(spec_h_of(self.h_type, child.grid@, self.goal@, lines) == 0)
                            by (nonlinear_arith)
                            requires
                                child.state.h == spec_h_of(
                                    self.h_type,
                                    child.grid@,
                                    self.goal@,
                                    lines,
                                ) * self.weight,
                                child.state.h == 0,
                                self.weight >= 1,
                                spec_h_of(self.h_type, child.grid@, self.goal@, lines) >= 0,
                        {}
                        lemma_heuristic_zero(self.h_type, child.grid@, self.goal@, lines);
                    }
                    if child.grid@ == self.goal@ {
                        crate::grid::lemma_heuristics_at_goal(self.goal@, lines);
                        assert(spec_h_of(self.h_type, child.grid@, self.goal@, lines) == 0);
                        assert(child.state.h == 0) by (nonlinear_arith)
                            requires
                                child.state.h == spec_h_of(
                                    self.h_type,
                                    child.grid@,
                                    self.goal@,
                                    lines,
                                ) * self.weight,
                                spec_h_of(self.h_type, child.grid@, self.goal@, lines) == 0,
                        {}
                    }
                }
                let ghost open_pre = self.open_list@;
                let ghost nodes_pre = self.nodes@;
                self.open_list.remove(oj);
                self.nodes.push(child);
                let idx = self.nodes.len() - 1;
                self.open_list.push(idx);
                proof {
                    lemma_arena_push(nodes_pre, self.goal, child);
                    lemma_lists_stable(nodes_pre, self.nodes@, open_pre);
                    lemma_lists_stable(nodes_pre, self.nodes@, self.closed_list@);
                    lemma_path_steps_stable(nodes_pre, self.nodes@, self.goal, self.path@);
                    let o = self.open_list@;
                    assert forall|k: int| 0 <= k < o.len() implies (#[trigger] o[k])
                        < self.nodes@.len() by {
                        if k < o.len() - 1 {
                            let kk = if k < oj as int { k } else { k + 1 };
                            assert(o[k] == open_pre[kk]);
                        }
                    }
                    assert forall|k: int, l: int|
                        #![trigger o[k], o[l]]
                        0 <= k < l < o.len() implies self.nodes@[o[k] as int].grid@
                        != self.nodes@[o[l] as int].grid@ by {
                        if l == o.len() - 1 {
                            let kk = if k < oj as int { k } else { k + 1 };
                            assert(o[k] == open_pre[kk]);
                            assert(self.nodes@[o[k] as int] == nodes_pre[open_pre[kk] as int]);
                            assert(self.nodes@[o[l] as int].grid@ == child.grid@);
                            assert(child.grid@ == nodes_pre[open_pre[oj as int] as int].grid@);
                        } else {
                            let kk = if k < oj as int { k } else { k + 1 };
                            let ll = if l < oj as int { l } else { l + 1 };
                            assert(o[k] == open_pre[kk] && o[l] == open_pre[ll]);
                            assert(self.nodes@[o[k] as int] == nodes_pre[open_pre[kk] as int]);
                            assert(self.nodes@[o[l] as int] == nodes_pre[open_pre[ll] as int]);
                        }
                    }
                    assert forall|k: int, l: int|
                        #![trigger o[k], self.closed_list@[l]]
                        0 <= k < o.len() && 0 <= l < self.closed_list@.len()
                        implies self.nodes@[o[k] as int].grid@
                        != self.nodes@[self.closed_list@[l] as int].grid@ by {
                        assert(self.nodes@[self.closed_list@[l] as int]
                            == nodes_pre[self.closed_list@[l] as int]);
                        if k == o.len() - 1 {
                            assert(self.nodes@[o[k] as int].grid@ == child.grid@);
                            assert(child.grid@ == nodes_pre[open_pre[oj as int] as int].grid@);
                        } else {
                            let kk = if k < oj as int { k } else { k + 1 };
                            assert(o[k] == open_pre[kk]);
                            assert(self.nodes@[o[k] as int] == nodes_pre[open_pre[kk] as int]);
                        }
                    }
                    assert forall|j: int|
                        0 <= j < self.closed_list@.len()
                        implies self.nodes@[#[trigger] self.closed_list@[j] as int].grid@
                        == nodes_pre[self.closed_list@[j] as int].grid@ by {
                        assert(self.nodes@[self.closed_list@[j] as int]
                            == nodes_pre[self.closed_list@[j] as int]);
                    }
                    assert forall|j: int|
                        0 <= j < open_pre.len() implies (exists|j2: int|
                        0 <= j2 < o.len() && self.nodes@[o[j2] as int].grid@
                            == nodes_pre[#[trigger] open_pre[j] as int].grid@) by {
                        if j == oj as int {
                            assert(self.nodes@[o[o.len() - 1] as int].grid@ == child.grid@);
                            assert(child.grid@ == nodes_pre[open_pre[oj as int] as int].grid@);
                        } else if j < oj as int {
                            assert(o[j] == open_pre[j]);
                            assert(self.nodes@[o[j] as int] == nodes_pre[open_pre[j] as int]);
                        } else {
                            assert(o[j - 1] == open_pre[j]);
                            assert(self.nodes@[o[j - 1] as int]
                                == nodes_pre[open_pre[j] as int]);
                        }
                    }
                    assert(self.nodes@[o[o.len() - 1] as int].grid@ == child.grid@);
                    assert(self.board_filed(child.grid@));
                }
                false
            },
            None => {
                let mut child = child;
                child.update_state(&self.goal, self.h_type, self.weight, self.greedy, self.g_cap);
                let ghost open_pre = self.open_list@;
                let ghost nodes_pre = self.nodes@;
                let goal_found = child.state.h == 0;
                proof {
                    if goal_found {
                        child.grid.lemma_wf();
                        self.goal.lemma_wf();
                        crate::grid::lemma_heuristic_chain(child.grid@, self.goal@, lines);
                        assert(spec_h_of(self.h_type, child.grid@, self.goal@, lines) == 0)
                            by (nonlinear_arith)
                            requires
                                child.state.h == spec_h_of(
                                    self.h_type,
                                    child.grid@,
                                    self.goal@,
                                    lines,
                                ) * self.weight,
                                child.state.h == 0,
                                self.weight >= 1,
                                spec_h_of(self.h_type, child.grid@, self.goal@, lines) >= 0,
                        {}
                        lemma_heuristic_zero(self.h_type, child.grid@, self.goal@, lines);
                    }
                    if child.grid@ == self.goal@ {
                        crate::grid::lemma_heuristics_at_goal(self.goal@, lines);
                        assert(spec_h_of(self.h_type, child.grid@, self.goal@, lines) == 0);
                        assert(child.state.h == 0) by (nonlinear_arith)
                            requires
                                child.state.h == spec_h_of(
                                    self.h_type,
                                    child.grid@,
                                    self.goal@,
                                    lines,
                                ) * self.weight,
                                spec_h_of(self.h_type, child.grid@, self.goal@, lines) == 0,
                        {}
                    }
                }
                self.nodes.push(child);
                let idx = self.nodes.len() - 1;
                proof {
                    lemma_arena_push(nodes_pre, self.goal, child);
                    lemma_lists_stable(nodes_pre, self.nodes@, open_pre);
                    lemma_lists_stable(nodes_pre, self.nodes@, self.closed_list@);
                    lemma_path_steps_stable(nodes_pre, self.nodes@, self.goal, self.path@);
                }
                if goal_found {
                    self.solution = Some(idx);
                    proof {
                        assert forall|j: int|
                            0 <= j < self.closed_list@.len()
                            implies self.nodes@[#[trigger] self.closed_list@[j] as int].grid@
                            == nodes_pre[self.closed_list@[j] as int].grid@ by {
                            assert(self.nodes@[self.closed_list@[j] as int]
                                == nodes_pre[self.closed_list@[j] as int]);
                        }
                        assert forall|j: int|
                            0 <= j < open_pre.len() implies (exists|j2: int|
                            0 <= j2 < self.open_list@.len()
                                && self.nodes@[self.open_list@[j2] as int].grid@
                                == nodes_pre[#[trigger] open_pre[j] as int].grid@) by {
                            assert(self.open_list@[j] == open_pre[j]);
                            assert(self.nodes@[open_pre[j] as int]
                                == nodes_pre[open_pre[j] as int]);
                        }
                    }
                    return true;
                }
                self.open_list.push(idx);
                proof {
                    let o = self.open_list@;
                    assert forall|k: int, l: int|
                        #![trigger o[k], o[l]]
                        0 <= k < l < o.len() implies self.nodes@[o[k] as int].grid@
                        != self.nodes@[o[l] as int].grid@ by {
                        if l == o.len() - 1 {
                            assert(o[k] == open_pre[k]);
                            assert(self.nodes@[o[k] as int] == nodes_pre[open_pre[k] as int]);
                            assert(self.nodes@[o[l] as int].grid@ == child.grid@);
                        } else {
                            assert(o[k] == open_pre[k] && o[l] == open_pre[l]);
                            assert(self.nodes@[o[k] as int] == nodes_pre[open_pre[k] as int]);
                            assert(self.nodes@[o[l] as int] == nodes_pre[open_pre[l] as int]);
                        }
                    }
                    assert forall|k: int, l: int|
                        #![trigger o[k], self.closed_list@[l]]
                        0 <= k < o.len() && 0 <= l < self.closed_list@.len()
                        implies self.nodes@[o[k] as int].grid@
                        != self.nodes@[self.closed_list@[l] as int].grid@ by {
                        assert(self.nodes@[self.closed_list@[l] as int]
                            == nodes_pre[self.closed_list@[l] as int]);
                        if k == o.len() - 1 {
                            assert(self.nodes@[o[k] as int].grid@ == child.grid@);
                        } else {
                            assert(o[k] == open_pre[k]);
                            assert(self.nodes@[o[k] as int] == nodes_pre[open_pre[k] as int]);
                        }
                    }
                    assert forall|j: int|
                        0 <= j < self.closed_list@.len()
                        implies self.nodes@[#[trigger] self.closed_list@[j] as int].grid@
                        == nodes_pre[self.closed_list@[j] as int].grid@ by {
                        assert(self.nodes@[self.closed_list@[j] as int]
                            == nodes_pre[self.closed_list@[j] as int]);
                    }
                    assert forall|j: int|
                        0 <= j < open_pre.len() implies (exists|j2: int|
                        0 <= j2 < o.len() && self.nodes@[o[j2] as int].grid@
                            == nodes_pre[#[trigger] open_pre[j] as int].grid@) by {
                        assert(o[j] == open_pre[j]);
                        assert(self.nodes@[open_pre[j] as int]
                            == nodes_pre[open_pre[j] as int]);
                    }
                    assert(self.nodes@[o[o.len() - 1] as int].grid@ == child.grid@);
                    assert(self.board_filed(child.grid@));
                }
                false
            },
        }
    }

    /// Runs A* to completion: repeatedly pops the best open node, stops
    /// with success when it is the goal (or a generated child already
    /// is), otherwise closes it and files each child. Success pins the
    /// recorded solution node to the goal board. Failure means the open
    /// list drained or the node budget ran out — and on a fresh engine
    /// (whose frontier bookkeeping is complete) a drained open list
    /// proves the goal unreachable from the root board by any number of
    /// blank-slides. The time counter advances in step with the boards
    /// moved to the closed list, so a run cannot report budget
    /// exhaustion without having expanded that many distinct boards.
    /// The arena only ever grows, so parent chains written earlier stay
    /// valid, and no board is ever in the open and the closed list at
    /// once.
    #[verifier::rlimit(100)]
    #[verifier::spinoff_prover]
    pub fn resolve_a_star(&mut self) -> (r: bool)
        requires
            old(self).inv(),
            old(self).t_complex <= old(self).node_limit,
        ensures
            final(self).inv(),
            final(self).config() == old(self).config(),
            final(self).weight == old(self).weight,
            final(self).t_complex <= final(self).node_limit,
            final(self).s_complex >= old(self).s_complex,
            old(self).nodes@.is_prefix_of(final(self).nodes@),
            final(self).path@ == old(self).path@,
            r ==> (match final(self).solution {
                Some(i) => (i as int) < final(self).nodes@.len()
                    && final(self).nodes@[i as int].grid@ == final(self).goal@,
                None => false,
            }),
            r ==> final(self).t_complex > old(self).t_complex
                && final(self).closed_list@.len() - old(self).closed_list@.len()
                <= final(self).t_complex - old(self).t_complex
                <= final(self).closed_list@.len() - old(self).closed_list@.len() + 1,
            !r ==> final(self).solution == old(self).solution && (final(self).open_list@.len()
                == 0 || final(self).t_complex >= final(self).node_limit),
            !r ==> final(self).t_complex - old(self).t_complex == final(self).closed_list@.len()
                - old(self).closed_list@.len(),
            (!r && final(self).t_complex > old(self).t_complex) ==> final(self).s_complex
                >= final(self).open_list@.len() + final(self).closed_list@.len(),
            (!r && old(self).frontier_complete()) ==> final(self).frontier_complete(),
            (old(self).frontier_complete() && !r && final(self).open_list@.len() == 0)
                ==> (forall|k: nat|
                !reachable_in(
                    final(self).nodes@[0].grid@,
                    final(self).goal.spec_lines(),
                    final(self).goal@,
                    k,
                )),
            (old(self).frontier_complete() && !r && old(self).node_limit - old(self).t_complex
                > vstd::arithmetic::power::pow(
                old(self).goal@.len() as int,
                old(self).goal@.len(),
            )) ==> (forall|k: nat|
                !reachable_in(
                    final(self).nodes@[0].grid@,
                    final(self).goal.spec_lines(),
                    final(self).goal@,
                    k,
                )),
    {
        loop
            invariant
                self.inv(),
                self.config() == old(self).config(),
                self.weight == old(self).weight,
                self.t_complex <= self.node_limit,
                self.s_complex >= old(self).s_complex,
                self.solution == old(self).solution,
                self.t_complex >= old(self).t_complex,
                self.t_complex > old(self).t_complex ==> self.s_complex >= self.open_list@.len()
                    + self.closed_list@.len(),
                self.t_complex - old(self).t_complex == self.closed_list@.len()
                    - old(self).closed_list@.len(),
                old(self).frontier_complete() ==> self.frontier_complete(),
                old(self).nodes@.is_prefix_of(self.nodes@),
                self.path@ == old(self).path@,
            decreases self.node_limit - self.t_complex,
        {
            if self.open_list.len() == 0 {
                proof {
                    if old(self).frontier_complete() {
                        assert forall|k: nat|
                            !reachable_in(
                                self.nodes@[0].grid@,
                                self.goal.spec_lines(),
                                self.goal@,
                                k,
                            ) by {
                            lemma_drained_unreachable(self, k);
                        }
                    }
                }
                return false;
            }
            if self.t_complex >= self.node_limit {
                proof {
                    if old(self).frontier_complete() && old(self).node_limit
                        - old(self).t_complex > vstd::arithmetic::power::pow(
                        old(self).goal@.len() as int,
                        old(self).goal@.len(),
                    ) {
                        lemma_closed_bounded(self);
                        assert(false);
                    }
                }
                return false;
            }
            let ghost t_pre = self.t_complex;
            let ghost closed_pre = self.closed_list@.len();
            if self.expand_best() {
                proof {
                    assert(self.t_complex == t_pre + 1);
                    assert(closed_pre <= self.closed_list@.len() <= closed_pre + 1);
                    assert(t_pre - old(self).t_complex == closed_pre
                        - old(self).closed_list@.len());
                }
                return true;
            }
        }
    }

    /// Pops the best open node, counts the visit, and either recognizes
    /// it as the goal or moves it to the closed list.
    #[verifier::rlimit(100)]
    #[verifier::spinoff_prover]
    fn take_best(&mut self) -> (r: (usize, bool))
        requires
            old(self).inv(),
            old(self).open_list@.len() > 0,
            old(self).t_complex < old(self).node_limit,
        ensures
            final(self).inv(),
            final(self).config() == old(self).config(),
            final(self).weight == old(self).weight,
            final(self).nodes@ == old(self).nodes@,
            old(self).nodes@.is_prefix_of(final(self).nodes@),
            final(self).path@ == old(self).path@,
            final(self).s_complex == old(self).s_complex,
            final(self).t_complex == old(self).t_complex + 1,
            (r.0 as int) < final(self).nodes@.len(),
            r.1 ==> final(self).solution == Some(r.0) && final(self).nodes@[r.0 as int].grid@
                == final(self).goal@,
            r.1 ==> final(self).closed_list@ == old(self).closed_list@,
            !r.1 ==> final(self).solution == old(self).solution,
            !r.1 ==> final(self).closed_list@ == old(self).closed_list@.push(r.0),
            !r.1 ==> final(self).nodes@[r.0 as int].grid@ != final(self).goal@,
            !r.1 ==> (exists|bi: int|
                0 <= bi < old(self).open_list@.len() && old(self).open_list@[bi] == r.0
                    && final(self).open_list@ == old(self).open_list@.remove(bi)),
    {
        let ni = self.pop_best_node();
        self.t_complex = self.t_complex + 1;
        if self.nodes[ni].state.h == 0 && self.nodes[ni].grid == self.goal {
            self.solution = Some(ni);
            proof {
                assert(old(self).nodes@ =~= self.nodes@.subrange(0, old(self).nodes@.len() as int));
            }
            return (ni, true);
        }
        proof {
            assert(old(self).nodes@ =~= self.nodes@.subrange(0, old(self).nodes@.len() as int));
            reveal(node_h_ok);
            assert(node_h_ok(self.nodes@, self.goal, ni as int));
            assert(self.nodes@[ni as int].grid@ != self.goal@);
        }
        self.close_node(ni);
        (ni, false)
    }

    /// Files every child in order; reports whether one of them was the
    /// goal (filing stops there).
    #[verifier::rlimit(100)]
    #[verifier::spinoff_prover]
    fn file_children(&mut self, childs: Vec<Node>, ni: usize) -> (r: bool)
        requires
            old(self).inv(),
            (ni as int) < old(self).nodes@.len(),
            forall|k: int|
                0 <= k < childs@.len() ==> {
                    let c = #[trigger] childs@[k];
                    &&& c.grid.wf()
                    &&& c.grid.spec_lines() == old(self).goal.spec_lines()
                    &&& c.state.g == g_inc_spec(old(self).nodes@[ni as int].state.g)
                    &&& c.parent == Some(ni)
                    &&& is_successor(
                        old(self).nodes@[ni as int].grid@,
                        old(self).goal.spec_lines(),
                        c.grid@,
                    )
                },
        ensures
            final(self).inv(),
            final(self).config() == old(self).config(),
            final(self).weight == old(self).weight,
            final(self).t_complex == old(self).t_complex,
            final(self).s_complex == old(self).s_complex,
            final(self).path@ == old(self).path@,
            old(self).nodes@.is_prefix_of(final(self).nodes@),
            final(self).closed_list@ == old(self).closed_list@,
            forall|j: int|
                0 <= j < final(self).closed_list@.len()
                    ==> final(self).nodes@[#[trigger] final(self).closed_list@[j] as int].grid@
                    == old(self).nodes@[old(self).closed_list@[j] as int].grid@,
            forall|j: int|
                0 <= j < old(self).open_list@.len() ==> (exists|j2: int|
                    0 <= j2 < final(self).open_list@.len()
                        && final(self).nodes@[final(self).open_list@[j2] as int].grid@
                        == old(self).nodes@[#[trigger] old(self).open_list@[j] as int].grid@),
            !r ==> (forall|k: int|
                0 <= k < childs@.len() ==> final(self).board_filed(
                    (#[trigger] childs@[k]).grid@,
                )),
            r ==> (match final(self).solution {
                Some(i) => (i as int) < final(self).nodes@.len()
                    && final(self).nodes@[i as int].grid@ == final(self).goal@,
                None => false,
            }),
            !r ==> final(self).solution == old(self).solution,
    {
        let ghost lines = self.goal.spec_lines();
        let ghost ni_node = self.nodes@[ni as int];
        let ghost all_childs = childs@;
        let mut childs = childs;
        while childs.len() > 0
            invariant
                self.inv(),
                self.config() == old(self).config(),
                self.weight == old(self).weight,
                lines == self.goal.spec_lines(),
                self.t_complex == old(self).t_complex,
                self.s_complex == old(self).s_complex,
                self.solution == old(self).solution,
                old(self).nodes@.is_prefix_of(self.nodes@),
                self.path@ == old(self).path@,
                (ni as int) < self.nodes@.len(),
                self.nodes@[ni as int] == ni_node,
                ni_node == old(self).nodes@[ni as int],
                childs@.len() <= all_childs.len(),
                childs@ == all_childs.skip(all_childs.len() - childs@.len()),
                self.closed_list@ == old(self).closed_list@,
                forall|j: int|
                    0 <= j < self.closed_list@.len()
                        ==> self.nodes@[#[trigger] self.closed_list@[j] as int].grid@
                        == old(self).nodes@[old(self).closed_list@[j] as int].grid@,
                forall|j: int|
                    0 <= j < old(self).open_list@.len() ==> (exists|j2: int|
                        0 <= j2 < self.open_list@.len()
                            && self.nodes@[self.open_list@[j2] as int].grid@
                            == old(self).nodes@[#[trigger] old(self).open_list@[j] as int].grid@),
                forall|k: int|
                    0 <= k < all_childs.len() - childs@.len() ==> self.board_filed(
                        (#[trigger] all_childs[k]).grid@,
                    ),
                forall|k: int|
                    0 <= k < childs@.len() ==> {
                        let c = #[trigger] childs@[k];
                        &&& c.grid.wf()
                        &&& c.grid.spec_lines() == lines
                        &&& c.state.g == g_inc_spec(ni_node.state.g)
                        &&& c.parent == Some(ni)
                        &&& is_successor(ni_node.grid@, lines, c.grid@)
                    },
            decreases childs@.len(),
        {
            let ghost nodes_pre = self.nodes@;
            let ghost pre = *self;
            let ghost done = all_childs.len() - childs@.len();
            let child = childs.remove(0);
            proof {
                assert(child == all_childs[done as int]);
                assert(childs@ =~= all_childs.skip(all_childs.len() - childs@.len()));
            }
            if self.file_child(child, ni) {
                proof {
                    assert forall|j: int|
                        0 <= j < old(self).open_list@.len() implies (exists|j2: int|
                        0 <= j2 < self.open_list@.len()
                            && self.nodes@[self.open_list@[j2] as int].grid@
                            == old(self).nodes@[#[trigger] old(self).open_list@[j] as int].grid@) by {
                        let jm = choose|jm: int|
                            0 <= jm < pre.open_list@.len()
                                && pre.nodes@[pre.open_list@[jm] as int].grid@
                                == old(self).nodes@[old(self).open_list@[j] as int].grid@;
                        assert(exists|j2: int|
                            0 <= j2 < self.open_list@.len()
                                && self.nodes@[self.open_list@[j2] as int].grid@
                                == pre.nodes@[pre.open_list@[jm] as int].grid@);
                    }
                }
                return true;
            }
            proof {
                lemma_lists_stable(nodes_pre, self.nodes@, seq![ni]);
                assert(self.nodes@[ni as int] == nodes_pre[ni as int]);
                assert forall|j: int|
                    0 <= j < old(self).open_list@.len() implies (exists|j2: int|
                    0 <= j2 < self.open_list@.len()
                        && self.nodes@[self.open_list@[j2] as int].grid@
                        == old(self).nodes@[#[trigger] old(self).open_list@[j] as int].grid@) by {
                    let jm = choose|jm: int|
                        0 <= jm < pre.open_list@.len()
                            && pre.nodes@[pre.open_list@[jm] as int].grid@
                            == old(self).nodes@[old(self).open_list@[j] as int].grid@;
                    assert(exists|j2: int|
                        0 <= j2 < self.open_list@.len()
                            && self.nodes@[self.open_list@[j2] as int].grid@
                            == pre.nodes@[pre.open_list@[jm] as int].grid@);
                }
                assert forall|k: int|
                    0 <= k < all_childs.len() - childs@.len() implies self.board_filed(
                    (#[trigger] all_childs[k]).grid@,
                ) by {
                    if k < done {
                        lemma_filed_preserved(pre, *self, all_childs[k].grid@);
                    } else {
                        assert(all_childs[k] == child);
                    }
                }
            }
        }
        proof {
            assert(childs@.len() == 0);
        }
        false
    }

    /// One A* step: pops the best open node, succeeds if it (or one of
    /// its freshly evaluated children) is the goal, and otherwise closes
    /// it and files each child.
    #[verifier::rlimit(100)]
    #[verifier::spinoff_prover]
    fn expand_best(&mut self) -> (r: bool)
        requires
            old(self).inv(),
            old(self).open_list@.len() > 0,
            old(self).t_complex < old(self).node_limit,
        ensures
            final(self).inv(),
            final(self).config() == old(self).config(),
            final(self).weight == old(self).weight,
            final(self).t_complex == old(self).t_complex + 1,
            final(self).s_complex >= old(self).s_complex,
            !r ==> final(self).s_complex >= final(self).open_list@.len()
                + final(self).closed_list@.len(),
            old(self).nodes@.is_prefix_of(final(self).nodes@),
            final(self).path@ == old(self).path@,
            !r ==> final(self).closed_list@.len() == old(self).closed_list@.len() + 1,
            r ==> old(self).closed_list@.len() <= final(self).closed_list@.len()
                <= old(self).closed_list@.len() + 1,
            (!r && old(self).frontier_complete()) ==> final(self).frontier_complete(),
            r ==> (match final(self).solution {
                Some(i) => (i as int) < final(self).nodes@.len()
                    && final(self).nodes@[i as int].grid@ == final(self).goal@,
                None => false,
            }),
            !r ==> final(self).solution == old(self).solution,
    {
        let (ni, found) = self.take_best();
        if found {
            return true;
        }
        let ghost s1 = *self;
        let ghost mid = self.nodes@;
        let r = self.expand_node(ni);
        proof {
            lemma_prefix_trans(old(self).nodes@, mid, self.nodes@);
            if !r && old(self).frontier_complete() {
                let lines = self.goal.spec_lines();
                let bi = choose|bi: int|
                    0 <= bi < old(self).open_list@.len() && old(self).open_list@[bi] == ni
                        && s1.open_list@ == old(self).open_list@.remove(bi);
                lemma_filed_after_pop(*old(self), s1, ni, bi, old(self).nodes@[0].grid@);
                lemma_filed_preserved(s1, *self, old(self).nodes@[0].grid@);
                assert(self.nodes@[0] == old(self).nodes@[0]);
                assert(self.board_filed(self.nodes@[0].grid@));
                assert(s1.closed_list@ == old(self).closed_list@.push(ni));
                assert(self.closed_list@ == s1.closed_list@);
                assert forall|j: int|
                    0 <= j < self.closed_list@.len()
                    implies self.nodes@[#[trigger] self.closed_list@[j] as int].grid@
                    != self.goal@ by {
                    assert(self.nodes@[self.closed_list@[j] as int].grid@
                        == s1.nodes@[s1.closed_list@[j] as int].grid@);
                    if j < old(self).closed_list@.len() {
                        assert(s1.closed_list@[j] == old(self).closed_list@[j]);
                    } else {
                        assert(s1.closed_list@[j] == ni);
                    }
                }
                assert forall|j: int|
                    0 <= j < self.closed_list@.len() implies #[trigger] self.entry_expanded(
                    j,
                ) by {
                    reveal(Algo::entry_expanded);
                    let b = self.nodes@[self.closed_list@[j] as int].grid@;
                    assert(b == s1.nodes@[s1.closed_list@[j] as int].grid@);
                    if j < old(self).closed_list@.len() {
                        assert(s1.closed_list@[j] == old(self).closed_list@[j]);
                        assert(b == old(self).nodes@[old(self).closed_list@[j] as int].grid@);
                        assert(old(self).entry_expanded(j));
                        assert forall|si: int|
                            0 <= si < spec_successors(b, lines).len()
                            implies self.board_filed(
                            #[trigger] spec_successors(b, lines)[si],
                        ) by {
                            assert(old(self).board_filed(spec_successors(b, lines)[si]));
                            lemma_filed_after_pop(
                                *old(self),
                                s1,
                                ni,
                                bi,
                                spec_successors(b, lines)[si],
                            );
                            lemma_filed_preserved(s1, *self, spec_successors(b, lines)[si]);
                        }
                    } else {
                        assert(s1.closed_list@[j] == ni);
                        assert(b == s1.nodes@[ni as int].grid@);
                        assert forall|si: int|
                            0 <= si < spec_successors(b, lines).len()
                            implies self.board_filed(
                            #[trigger] spec_successors(b, lines)[si],
                        ) by {
                            assert(self.board_filed(spec_successors(
                                s1.nodes@[ni as int].grid@,
                                s1.goal.spec_lines(),
                            )[si]));
                        }
                    }
                }
                assert(self.frontier_complete());
            }
        }
        r
    }

    /// Expands an already-closed node: generates its children, files
    /// each, and refreshes the space high-water mark.
    #[verifier::rlimit(100)]
    #[verifier::spinoff_prover]
    fn expand_node(&mut self, ni: usize) -> (r: bool)
        requires
            old(self).inv(),
            (ni as int) < old(self).nodes@.len(),
        ensures
            final(self).inv(),
            final(self).config() == old(self).config(),
            final(self).weight == old(self).weight,
            final(self).t_complex == old(self).t_complex,
            final(self).s_complex >= old(self).s_complex,
            !r ==> final(self).s_complex >= final(self).open_list@.len()
                + final(self).closed_list@.len(),
            old(self).nodes@.is_prefix_of(final(self).nodes@),
            final(self).path@ == old(self).path@,
            final(self).closed_list@ == old(self).closed_list@,
            forall|j: int|
                0 <= j < final(self).closed_list@.len()
                    ==> final(self).nodes@[#[trigger] final(self).closed_list@[j] as int].grid@
                    == old(self).nodes@[old(self).closed_list@[j] as int].grid@,
            forall|j: int|
                0 <= j < old(self).open_list@.len() ==> (exists|j2: int|
                    0 <= j2 < final(self).open_list@.len()
                        && final(self).nodes@[final(self).open_list@[j2] as int].grid@
                        == old(self).nodes@[#[trigger] old(self).open_list@[j] as int].grid@),
            !r ==> (forall|si: int|
                0 <= si < spec_successors(
                    old(self).nodes@[ni as int].grid@,
                    old(self).goal.spec_lines(),
                ).len() ==> final(self).board_filed(
                    #[trigger] spec_successors(
                        old(self).nodes@[ni as int].grid@,
                        old(self).goal.spec_lines(),
                    )[si],
                )),
            r ==> (match final(self).solution {
                Some(i) => (i as int) < final(self).nodes@.len()
                    && final(self).nodes@[i as int].grid@ == final(self).goal@,
                None => false,
            }),
            !r ==> final(self).solution == old(self).solution,
    {
        let childs = self.nodes[ni].generate_childs(ni);
        let ghost child_seq = childs@;
        if self.file_children(childs, ni) {
            return true;
        }
        proof {
            assert forall|si: int|
                0 <= si < spec_successors(
                    old(self).nodes@[ni as int].grid@,
                    old(self).goal.spec_lines(),
                ).len() implies self.board_filed(
                #[trigger] spec_successors(
                    old(self).nodes@[ni as int].grid@,
                    old(self).goal.spec_lines(),
                )[si],
            ) by {
                assert(child_seq[si].grid@ == spec_successors(
                    old(self).nodes@[ni as int].grid@,
                    old(self).goal.spec_lines(),
                )[si]);
                assert(self.board_filed(child_seq[si].grid@));
            }
        }
        let cap = self.nodes.len();
        proof {
            assert(self.open_list@.len() + self.closed_list@.len() <= cap);
        }
        let states = self.open_list.len() + self.closed_list.len();
        if self.s_complex < states as u64 {
            self.s_complex = states as u64;
        }
        false
    }

    /// Saturating increment for a complexity counter.
    fn bump64(c: u64) -> (r: u64)
        ensures
            r == (if c < u64::MAX {
                c + 1
            } else {
                c as int
            }),
    {
        if c < u64::MAX {
            c + 1
        } else {
            c
        }
    }

    /// Saturating increment for a schedule counter.
    fn bump32(c: u32) -> (r: u32)
        ensures
            r == (if c < u32::MAX {
                c + 1
            } else {
                c as int
            }),
    {
        if c < u32::MAX {
            c + 1
        } else {
            c
        }
    }

    /// Whether some node on the explored path holds the same board as
    /// arena node `idx` (the cycle check of the depth-first probe).
    fn path_contains(&self, idx: usize) -> (r: bool)
        requires
            self.idx_ok(self.path@),
            (idx as int) < self.nodes@.len(),
        ensures
            r == (exists|k: int|
                0 <= k < self.path@.len() && self.nodes@[#[trigger] self.path@[k] as int].grid@
                    == self.nodes@[idx as int].grid@),
    {
        let mut k: usize = 0;
        while k < self.path.len()
            invariant
                0 <= k <= self.path@.len(),
                self.idx_ok(self.path@),
                (idx as int) < self.nodes@.len(),
                forall|j: int|
                    0 <= j < k ==> self.nodes@[#[trigger] self.path@[j] as int].grid@
                        != self.nodes@[idx as int].grid@,
            decreases self.path@.len() - k,
        {
            let pi = self.path[k];
            if self.nodes[pi].grid == self.nodes[idx].grid {
                return true;
            }
            k += 1;
        }
        false
    }

    /// Evaluates all children of the node on top of the path and places
    /// them in the arena, handing back their handles.
    #[verifier::rlimit(100)]
    #[verifier::spinoff_prover]
    fn place_children(&mut self, top: usize) -> (r: Vec<usize>)
        requires
            old(self).inv(),
            (top as int) < old(self).nodes@.len(),
        ensures
            final(self).inv(),
            final(self).config() == old(self).config(),
            final(self).weight == old(self).weight,
            final(self).t_complex == old(self).t_complex,
            final(self).s_complex == old(self).s_complex,
            final(self).solution == old(self).solution,
            final(self).path@ == old(self).path@,
            final(self).open_list@ == old(self).open_list@,
            final(self).closed_list@ == old(self).closed_list@,
            old(self).nodes@.is_prefix_of(final(self).nodes@),
            forall|j: int|
                0 <= j < r@.len() ==> {
                    let c = final(self).nodes@[#[trigger] r@[j] as int];
                    &&& (r@[j] as int) < final(self).nodes@.len()
                    &&& c.parent == Some(top)
                    &&& c.state.g == g_inc_spec(old(self).nodes@[top as int].state.g)
                    &&& is_successor(
                        old(self).nodes@[top as int].grid@,
                        old(self).goal.spec_lines(),
                        c.grid@,
                    )
                },
    {
        let ghost lines = self.goal.spec_lines();
        let ghost top_node = self.nodes@[top as int];
        let ghost entry_nodes = self.nodes@;
        let mut childs = self.nodes[top].generate_childs(top);
        let mut kid_idxs: Vec<usize> = Vec::new();
        while childs.len() > 0
            invariant
                self.inv(),
                self.config() == old(self).config(),
                self.weight == old(self).weight,
                lines == self.goal.spec_lines(),
                self.t_complex == old(self).t_complex,
                self.s_complex == old(self).s_complex,
                self.solution == old(self).solution,
                self.path@ == old(self).path@,
                self.open_list@ == old(self).open_list@,
                self.closed_list@ == old(self).closed_list@,
                entry_nodes == old(self).nodes@,
                entry_nodes.is_prefix_of(self.nodes@),
                (top as int) < entry_nodes.len(),
                self.nodes@[top as int] == top_node,
                top_node == entry_nodes[top as int],
                forall|k: int|
                    0 <= k < childs@.len() ==> {
                        let c = #[trigger] childs@[k];
                        &&& c.grid.wf()
                        &&& c.grid.spec_lines() == lines
                        &&& c.state.g == g_inc_spec(top_node.state.g)
                        &&& c.parent == Some(top)
                        &&& is_successor(top_node.grid@, lines, c.grid@)
                    },
                forall|j: int|
                    0 <= j < kid_idxs@.len() ==> {
                        let c = self.nodes@[#[trigger] kid_idxs@[j] as int];
                        &&& (kid_idxs@[j] as int) < self.nodes@.len()
                        &&& c.parent == Some(top)
                        &&& c.state.g == g_inc_spec(top_node.state.g)
                        &&& is_successor(top_node.grid@, lines, c.grid@)
                    },
            decreases childs@.len(),
        {
            let mut c = childs.remove(0);
            c.update_state(&self.goal, self.h_type, self.weight, self.greedy, self.g_cap);
            proof {
                if c.state.h == 0 {
                    c.grid.lemma_wf();
                    self.goal.lemma_wf();
                    crate::grid::lemma_heuristic_chain(c.grid@, self.goal@, lines);
                    assert(spec_h_of(self.h_type, c.grid@, self.goal@, lines) == 0)
                        by (nonlinear_arith)
                        requires
                            c.state.h == spec_h_of(self.h_type, c.grid@, self.goal@, lines)
                                * self.weight,
                            c.state.h == 0,
                            self.weight >= 1,
                            spec_h_of(self.h_type, c.grid@, self.goal@, lines) >= 0,
                    {}
                    lemma_heuristic_zero(self.h_type, c.grid@, self.goal@, lines);
                }
                if c.grid@ == self.goal@ {
                    crate::grid::lemma_heuristics_at_goal(self.goal@, lines);
                    assert(spec_h_of(self.h_type, c.grid@, self.goal@, lines) == 0);
                    assert(c.state.h == 0) by (nonlinear_arith)
                        requires
                            c.state.h == spec_h_of(self.h_type, c.grid@, self.goal@, lines)
                                * self.weight,
                            spec_h_of(self.h_type, c.grid@, self.goal@, lines) == 0,
                    {}
                }
            }
            let ghost nodes_pre = self.nodes@;
            self.nodes.push(c);
            let idx = self.nodes.len() - 1;
            proof {
                lemma_arena_push(nodes_pre, self.goal, c);
                lemma_lists_stable(nodes_pre, self.nodes@, self.open_list@);
                lemma_lists_stable(nodes_pre, self.nodes@, self.closed_list@);
                lemma_path_steps_stable(nodes_pre, self.nodes@, self.goal, self.path@);
                lemma_lists_stable(nodes_pre, self.nodes@, kid_idxs@);
                lemma_lists_stable(nodes_pre, self.nodes@, seq![top]);
                lemma_prefix_trans(entry_nodes, nodes_pre, self.nodes@);
            }
            kid_idxs.push(idx);
        }
        kid_idxs
    }

    /// One bounded depth-first probe of IDA*. Visits the node on top of
    /// the path, counting the visit; prunes when its score exceeds the
    /// threshold, returning the score as a candidate next threshold;
    /// succeeds when its heuristic is zero, returning 0 with the path
    /// standing on the goal — success is owed whenever the top already
    /// is the goal within threshold and budget. Otherwise it expands the
    /// children in move order and recurses into each child whose board
    /// is not already on the path (cycle avoidance along the path only),
    /// returning the smallest out-of-bound score seen — always the
    /// `f`-score of a real node above the threshold — or the failure
    /// sentinel `u64::MAX` when the whole subtree is exhausted. Returns
    /// the sentinel as well when the node-visit budget has run out; the
    /// open and the closed list are never touched.
    #[verifier::rlimit(100)]
    #[verifier::spinoff_prover]
    fn explore_node(&mut self, threshold: u64) -> (r: u64)
        requires
            old(self).inv(),
            old(self).t_complex <= old(self).node_limit,
        ensures
            final(self).inv(),
            final(self).config() == old(self).config(),
            final(self).weight == old(self).weight,
            final(self).solution == old(self).solution,
            old(self).t_complex <= final(self).t_complex <= final(self).node_limit,
            final(self).t_complex > old(self).t_complex || final(self).t_complex
                >= final(self).node_limit,
            final(self).open_list@ == old(self).open_list@,
            final(self).closed_list@ == old(self).closed_list@,
            final(self).s_complex >= old(self).s_complex,
            old(self).nodes@.is_prefix_of(final(self).nodes@),
            r == 0 || r > threshold || r == u64::MAX,
            r != 0 ==> final(self).path@ == old(self).path@,
            (r != 0 && r != u64::MAX) ==> final(self).t_complex > old(self).t_complex,
            (r != 0 && r != u64::MAX) ==> (exists|i: int|
                0 <= i < final(self).nodes@.len() && final(self).nodes@[i].state.f == r),
            r == 0 ==> old(self).path@.is_prefix_of(final(self).path@)
                && final(self).nodes@[final(self).path@[final(self).path@.len() - 1] as int].grid@
                == final(self).goal@,
            (old(self).t_complex < old(self).node_limit
                && old(self).nodes@[old(self).path@[old(self).path@.len() - 1] as int].state.h
                == 0 && old(self).nodes@[old(self).path@[old(self).path@.len()
                - 1] as int].state.f <= threshold) ==> r == 0,
        decreases old(self).node_limit - old(self).t_complex,
    {
        let ghost lines = self.goal.spec_lines();
        if self.path.len() == 0 {
            return u64::MAX;
        }
        if self.t_complex >= self.node_limit {
            return u64::MAX;
        }
        self.t_complex = self.t_complex + 1;
        let ghost t_mark = self.t_complex;
        let top = self.path[self.path.len() - 1];
        let curr_f = self.nodes[top].state.f;
        if curr_f > threshold {
            proof {
                assert(self.nodes@[top as int].state.f == curr_f);
            }
            return curr_f;
        }
        if self.nodes[top].state.h == 0 {
            proof {
                reveal(node_h_ok);
                assert(node_h_ok(self.nodes@, self.goal, top as int));
                assert(self.path@ =~= self.path@.subrange(0, self.path@.len() as int));
            }
            return 0;
        }
        let ghost entry_nodes = self.nodes@;
        let ghost entry_path = self.path@;
        let kid_idxs = self.place_children(top);
        let ghost mid_nodes = self.nodes@;
        let s_cand = (self.path.len() as u64).saturating_add(kid_idxs.len() as u64);
        if s_cand > self.s_complex {
            self.s_complex = s_cand;
        }
        let mut lowest: u64 = u64::MAX;
        let mut ci: usize = 0;
        while ci < kid_idxs.len()
            invariant
                self.inv(),
                self.config() == old(self).config(),
                self.weight == old(self).weight,
                lines == self.goal.spec_lines(),
                self.solution == old(self).solution,
                self.open_list@ == old(self).open_list@,
                self.closed_list@ == old(self).closed_list@,
                self.s_complex >= old(self).s_complex,
                t_mark <= self.t_complex <= self.node_limit,
                t_mark == old(self).t_complex + 1,
                self.path@ == entry_path,
                entry_path == old(self).path@,
                entry_path.len() >= 1,
                entry_path[entry_path.len() - 1] == top,
                (top as int) < mid_nodes.len(),
                entry_nodes.is_prefix_of(mid_nodes),
                entry_nodes == old(self).nodes@,
                mid_nodes.is_prefix_of(self.nodes@),
                lowest == u64::MAX || lowest > threshold,
                lowest == u64::MAX || (exists|i: int|
                    0 <= i < self.nodes@.len() && self.nodes@[i].state.f == lowest),
                0 <= ci <= kid_idxs@.len(),
                forall|j: int|
                    0 <= j < kid_idxs@.len() ==> {
                        let c = mid_nodes[#[trigger] kid_idxs@[j] as int];
                        &&& (kid_idxs@[j] as int) < mid_nodes.len()
                        &&& c.parent == Some(top)
                        &&& c.state.g == g_inc_spec(mid_nodes[top as int].state.g)
                        &&& is_successor(mid_nodes[top as int].grid@, lines, c.grid@)
                    },
            decreases kid_idxs@.len() - ci,
        {
            let cidx = kid_idxs[ci];
            proof {
                lemma_lists_stable(mid_nodes, self.nodes@, kid_idxs@);
                lemma_lists_stable(mid_nodes, self.nodes@, seq![top]);
            }
            if !self.path_contains(cidx) {
                let ghost pre_path = self.path@;
                let ghost pre_nodes = self.nodes@;
                self.path.push(cidx);
                proof {
                    assert(self.nodes@[cidx as int] == mid_nodes[cidx as int]);
                    assert(self.nodes@[top as int] == mid_nodes[top as int]);
                    assert(pre_path[pre_path.len() - 1] == top);
                    lemma_path_steps_push(self.nodes@, self.goal, pre_path, cidx);
                    assert(pre_path =~= self.path@.subrange(0, pre_path.len() as int));
                }
                let rec = self.explore_node(threshold);
                if rec == 0 {
                    proof {
                        lemma_prefix_trans_idx(entry_path, pre_path.push(cidx), self.path@);
                        lemma_prefix_trans(entry_nodes, mid_nodes, pre_nodes);
                        lemma_prefix_trans(entry_nodes, pre_nodes, self.nodes@);
                    }
                    return 0;
                }
                if rec < lowest {
                    lowest = rec;
                }
                proof {
                    if lowest != u64::MAX {
                        let i = choose|i: int|
                            0 <= i < pre_nodes.len() && pre_nodes[i].state.f == lowest;
                        if 0 <= i < pre_nodes.len() && pre_nodes[i].state.f == lowest {
                            assert(pre_nodes =~= self.nodes@.subrange(
                                0,
                                pre_nodes.len() as int,
                            ));
                            assert(self.nodes@[i].state.f == lowest);
                        }
                    }
                }
                self.path.pop();
                proof {
                    assert(self.path@ =~= entry_path);
                    lemma_path_steps_pop(self.nodes@, self.goal, pre_path.push(cidx));
                    assert(pre_path.push(cidx).drop_last() =~= entry_path);
                    lemma_prefix_trans(mid_nodes, pre_nodes, self.nodes@);
                }
            }
            ci += 1;
        }
        proof {
            lemma_prefix_trans(entry_nodes, mid_nodes, self.nodes@);
        }
        lowest
    }

    /// Runs IDA* to completion: repeated depth-first probes with a rising
    /// threshold, starting from the root's heuristic. After each probe
    /// that raises the threshold, a schedule may raise the heuristic
    /// weight — never beyond `max_weight`, and never at all when the
    /// weight already is at or above it. Success leaves the path
    /// standing on the goal; failure means the search space was
    /// exhausted below every threshold or the node budget ran out, and
    /// always comes after real visits: the time counter has grown or hit
    /// the budget.
    #[verifier::rlimit(100)]
    #[verifier::spinoff_prover]
    pub fn resolve_ida_star(&mut self) -> (r: bool)
        requires
            old(self).inv(),
            old(self).t_complex <= old(self).node_limit,
        ensures
            final(self).inv(),
            final(self).goal == old(self).goal,
            final(self).h_type == old(self).h_type,
            final(self).a_type == old(self).a_type,
            final(self).max_weight == old(self).max_weight,
            final(self).g_cap == old(self).g_cap,
            final(self).greedy == old(self).greedy,
            final(self).node_limit == old(self).node_limit,
            final(self).weight >= old(self).weight,
            final(self).weight == old(self).weight || (old(self).weight < old(self).max_weight
                && final(self).weight <= old(self).max_weight),
            final(self).t_complex <= final(self).node_limit,
            final(self).t_complex > old(self).t_complex || final(self).t_complex
                >= final(self).node_limit,
            final(self).s_complex >= old(self).s_complex,
            final(self).open_list@ == old(self).open_list@,
            final(self).closed_list@ == old(self).closed_list@,
            final(self).solution == old(self).solution,
            old(self).nodes@.is_prefix_of(final(self).nodes@),
            r ==> old(self).path@.is_prefix_of(final(self).path@)
                && final(self).nodes@[final(self).path@[final(self).path@.len() - 1] as int].grid@
                == final(self).goal@,
            !r ==> final(self).path@ == old(self).path@,
    {
        let last = self.path[self.path.len() - 1];
        let mut threshold: u64 = self.nodes[last].state.h;
        let mut threshold_change_count: u32 = 0;
        let mut threshold_change_max: u32 = 1;
        self.s_complex = Self::bump64(self.s_complex);
        loop
            invariant
                self.inv(),
                self.goal == old(self).goal,
                self.h_type == old(self).h_type,
                self.a_type == old(self).a_type,
                self.max_weight == old(self).max_weight,
                self.g_cap == old(self).g_cap,
                self.greedy == old(self).greedy,
                self.node_limit == old(self).node_limit,
                self.weight >= old(self).weight,
                self.weight == old(self).weight || (old(self).weight < old(self).max_weight
                    && self.weight <= old(self).max_weight),
                self.t_complex >= old(self).t_complex,
                self.t_complex <= self.node_limit,
                self.s_complex >= old(self).s_complex,
                self.open_list@ == old(self).open_list@,
                self.closed_list@ == old(self).closed_list@,
                self.solution == old(self).solution,
                old(self).nodes@.is_prefix_of(self.nodes@),
                self.path@ == old(self).path@,
            decreases self.node_limit - self.t_complex,
        {
            if self.t_complex >= self.node_limit {
                return false;
            }
            let ghost loop_nodes = self.nodes@;
            let rec = self.explore_node(threshold);
            proof {
                lemma_prefix_trans(old(self).nodes@, loop_nodes, self.nodes@);
            }
            if rec == 0 {
                proof {
                    lemma_prefix_trans_idx(old(self).path@, old(self).path@, self.path@);
                }
                return true;
            }
            if rec == u64::MAX {
                return false;
            }
            threshold = rec;
            threshold_change_count = Self::bump32(threshold_change_count);
            if threshold_change_count >= threshold_change_max && self.weight < self.max_weight {
                self.weight = self.weight + 1;
                if self.weight % 5 == 0 {
                    threshold_change_max = Self::bump32(threshold_change_max);
                }
                threshold_change_count = 0;
            }
        }
    }

    /// The steps of the found solution as boards, root first: the
    /// parent chain of A*'s solution node, or the explored path of
    /// IDA*. Empty when A* has recorded no solution. Consecutive boards
    /// are one legal blank-slide apart, starting at the initial board.
    #[verifier::rlimit(100)]
    #[verifier::spinoff_prover]
    pub fn get_steps(&self) -> (r: Vec<Grid>)
        requires
            self.inv(),
        ensures
            (self.a_type is AStar && self.solution is None) ==> r@.len() == 0,
            (self.a_type is IDAStar || self.solution is Some) ==> {
                &&& r@.len() >= 1
                &&& (r@[0])@ == self.nodes@[0].grid@
                &&& forall|k: int|
                    1 <= k < r@.len() ==> is_successor(
                        (r@[k - 1])@,
                        self.goal.spec_lines(),
                        ((#[trigger] r@[k]))@,
                    )
                &&& (match self.a_type {
                    AType::AStar => (match self.solution {
                        Some(i) => (r@[r@.len() - 1])@ == self.nodes@[i as int].grid@
                            && (self.nodes@[i as int].state.g < u32::MAX ==> r@.len()
                            == self.nodes@[i as int].state.g + 1),
                        None => true,
                    }),
                    AType::IDAStar => (r@[r@.len() - 1])@ == self.nodes@[self.path@[self.path@.len()
                        - 1] as int].grid@ && r@.len() == self.path@.len(),
                })
            },
    {
        let ghost lines = self.goal.spec_lines();
        let mut r: Vec<Grid> = Vec::new();
        match self.a_type {
            AType::AStar => {
                let sol = match self.solution {
                    None => {
                        return r;
                    },
                    Some(sol) => sol,
                };
                let mut rev: Vec<usize> = Vec::new();
                let mut cur = sol;
                loop
                    invariant_except_break
                        self.nodes@[sol as int].state.g < u32::MAX ==> (
                        self.nodes@[cur as int].state.g < u32::MAX && rev@.len()
                            + self.nodes@[cur as int].state.g
                            == self.nodes@[sol as int].state.g),
                        rev@.len() >= 1 ==> self.nodes@[rev@[rev@.len() - 1] as int].parent
                            == Some(cur),
                        rev@.len() >= 1 ==> is_successor(
                            self.nodes@[cur as int].grid@,
                            lines,
                            self.nodes@[rev@[rev@.len() - 1] as int].grid@,
                        ),
                    invariant
                        self.inv(),
                        lines == self.goal.spec_lines(),
                        (cur as int) < self.nodes@.len(),
                        (sol as int) < self.nodes@.len(),
                        rev@.len() == 0 ==> cur == sol,
                        rev@.len() >= 1 ==> rev@[0] == sol,
                        forall|j: int| 0 <= j < rev@.len() ==> (#[trigger] rev@[j] as int)
                            < self.nodes@.len(),
                        forall|j: int|
                            1 <= j < rev@.len() ==> is_successor(
                                self.nodes@[#[trigger] rev@[j] as int].grid@,
                                lines,
                                self.nodes@[rev@[j - 1] as int].grid@,
                            ),
                    ensures
                        rev@.len() >= 1,
                        rev@[0] == sol,
                        self.nodes@[rev@[rev@.len() - 1] as int].parent is None,
                        rev@[rev@.len() - 1] == 0usize,
                        self.nodes@[sol as int].state.g < u32::MAX ==> rev@.len()
                            == self.nodes@[sol as int].state.g + 1,
                        forall|j: int| 0 <= j < rev@.len() ==> (#[trigger] rev@[j] as int)
                            < self.nodes@.len(),
                        forall|j: int|
                            1 <= j < rev@.len() ==> is_successor(
                                self.nodes@[#[trigger] rev@[j] as int].grid@,
                                lines,
                                self.nodes@[rev@[j - 1] as int].grid@,
                            ),
                    decreases cur,
                {
                    rev.push(cur);
                    match self.nodes[cur].parent {
                        Some(p) => {
                            proof {
                                reveal(edge_ok);
                                assert(edge_ok(self.nodes@, self.goal, cur as int));
                            }
                            cur = p;
                        },
                        None => {
                            proof {
                                reveal(edge_ok);
                                assert(edge_ok(self.nodes@, self.goal, cur as int));
                                assert(cur == 0);
                                assert(rev@[rev@.len() - 1] == cur);
                            }
                            break;
                        },
                    }
                }
                let n = rev.len();
                let mut k: usize = 0;
                while k < n
                    invariant
                        self.inv(),
                        lines == self.goal.spec_lines(),
                        n == rev@.len(),
                        n >= 1,
                        0 <= k <= n,
                        rev@[0] == sol,
                        (sol as int) < self.nodes@.len(),
                        rev@[n - 1] == 0usize,
                        forall|j: int| 0 <= j < n ==> (#[trigger] rev@[j] as int)
                            < self.nodes@.len(),
                        forall|j: int|
                            1 <= j < n ==> is_successor(
                                self.nodes@[#[trigger] rev@[j] as int].grid@,
                                lines,
                                self.nodes@[rev@[j - 1] as int].grid@,
                            ),
                        r@.len() == k,
                        forall|j: int|
                            0 <= j < k ==> ((#[trigger] r@[j]))@ == self.nodes@[rev@[n - 1
                                - j] as int].grid@,
                    decreases n - k,
                {
                    let idx = rev[n - 1 - k];
                    proof {
                        self.nodes@[idx as int].grid.lemma_wf();
                        crate::grid::lemma_len_bound(
                            self.nodes@[idx as int].grid@,
                            self.nodes@[idx as int].grid.spec_lines(),
                        );
                    }
                    let g = Grid::new(
                        self.nodes[idx].grid.get_map(),
                        self.nodes[idx].grid.get_lines(),
                    );
                    r.push(g);
                    k += 1;
                }
                r
            },
            AType::IDAStar => {
                let n = self.path.len();
                let mut k: usize = 0;
                while k < n
                    invariant
                        self.inv(),
                        lines == self.goal.spec_lines(),
                        n == self.path@.len(),
                        n >= 1,
                        0 <= k <= n,
                        r@.len() == k,
                        forall|j: int|
                            0 <= j < k ==> ((#[trigger] r@[j]))@
                                == self.nodes@[self.path@[j] as int].grid@,
                    decreases n - k,
                {
                    let idx = self.path[k];
                    proof {
                        self.nodes@[idx as int].grid.lemma_wf();
                        crate::grid::lemma_len_bound(
                            self.nodes@[idx as int].grid@,
                            self.nodes@[idx as int].grid.spec_lines(),
                        );
                    }
                    let g = Grid::new(
                        self.nodes[idx].grid.get_map(),
                        self.nodes[idx].grid.get_lines(),
                    );
                    r.push(g);
                    k += 1;
                }
                proof {
                    reveal(path_step_ok);
                    assert forall|j: int|
                        1 <= j < r@.len() implies is_successor(
                        (r@[j - 1])@,
                        lines,
                        ((#[trigger] r@[j]))@,
                    ) by {
                        assert(path_step_ok(self.nodes@, self.goal, self.path@, j));
                    }
                }
                r
            },
        }
    }

    /// Runs the configured algorithm to completion.
    pub fn resolve(&mut self) -> (r: bool)
        requires
            old(self).inv(),
            old(self).t_complex <= old(self).node_limit,
        ensures
            final(self).inv(),
            final(self).goal == old(self).goal,
            final(self).h_type == old(self).h_type,
            final(self).a_type == old(self).a_type,
            final(self).node_limit == old(self).node_limit,
            final(self).t_complex <= final(self).node_limit,
            final(self).s_complex >= old(self).s_complex,
            old(self).nodes@.is_prefix_of(final(self).nodes@),
            (match final(self).a_type {
                AType::AStar => {
                    &&& (r ==> (match final(self).solution {
                        Some(i) => (i as int) < final(self).nodes@.len()
                            && final(self).nodes@[i as int].grid@ == final(self).goal@,
                        None => false,
                    }))
                    &&& (r ==> final(self).t_complex > old(self).t_complex)
                    &&& (!r ==> final(self).solution == old(self).solution
                        && (final(self).open_list@.len() == 0 || final(self).t_complex
                        >= final(self).node_limit))
                    &&& (!r ==> final(self).t_complex - old(self).t_complex
                        == final(self).closed_list@.len() - old(self).closed_list@.len())
                    &&& ((!r && old(self).frontier_complete())
                        ==> final(self).frontier_complete())
                    &&& ((old(self).frontier_complete() && !r && final(self).open_list@.len()
                        == 0) ==> (forall|k: nat|
                        !reachable_in(
                            final(self).nodes@[0].grid@,
                            final(self).goal.spec_lines(),
                            final(self).goal@,
                            k,
                        )))
                    &&& ((old(self).frontier_complete() && !r && old(self).node_limit
                        - old(self).t_complex > vstd::arithmetic::power::pow(
                        old(self).goal@.len() as int,
                        old(self).goal@.len(),
                    )) ==> (forall|k: nat|
                        !reachable_in(
                            final(self).nodes@[0].grid@,
                            final(self).goal.spec_lines(),
                            final(self).goal@,
                            k,
                        )))
                },
                AType::IDAStar => {
                    &&& (r ==> final(self).nodes@[final(self).path@[final(self).path@.len()
                        - 1] as int].grid@ == final(self).goal@)
                    &&& (!r ==> final(self).path@ == old(self).path@)
                    &&& final(self).t_complex > old(self).t_complex || final(self).t_complex
                        >= final(self).node_limit
                    &&& final(self).weight == old(self).weight || (old(self).weight
                        < old(self).max_weight && final(self).weight <= old(self).max_weight)
                },
            }),
    {
        match self.a_type {
            AType::AStar => self.resolve_a_star(),
            AType::IDAStar => self.resolve_ida_star(),
        }
    }

    /// The position in the open list of the best node in the `(f, h, g)`
    /// order, the earliest among equals.
    fn open_best(&self) -> (r: usize)
        requires
            self.idx_ok(self.open_list@),
            self.open_list@.len() > 0,
        ensures
            (r as int) < self.open_list@.len(),
            forall|k: int|
                0 <= k < self.open_list@.len() ==> !spec_state_lt(
                    self.nodes@[#[trigger] self.open_list@[k] as int].state,
                    self.nodes@[self.open_list@[r as int] as int].state,
                ),
    {
        let mut best: usize = 0;
        let mut k: usize = 1;
        while k < self.open_list.len()
            invariant
                0 <= best < k <= self.open_list@.len(),
                self.open_list@.len() > 0,
                self.idx_ok(self.open_list@),
                forall|j: int|
                    0 <= j < k ==> !spec_state_lt(
                        self.nodes@[#[trigger] self.open_list@[j] as int].state,
                        self.nodes@[self.open_list@[best as int] as int].state,
                    ),
            decreases self.open_list@.len() - k,
        {
            let cand = self.open_list[k];
            let cur = self.open_list[best];
            let cs = &self.nodes[cand].state;
            let bs = &self.nodes[cur].state;
            if cs.f < bs.f || (cs.f == bs.f && (cs.h < bs.h || (cs.h == bs.h && cs.g < bs.g))) {
                best = k;
            }
            k += 1;
        }
        best
    }
}


/// A filed board stays filed when the popped open entry moves to the
/// closed list.
proof fn lemma_filed_after_pop(pre: Algo, post: Algo, ni: usize, bi: int, b: Seq<u16>)
    requires
        pre.board_filed(b),
        post.nodes@ == pre.nodes@,
        post.goal == pre.goal,
        0 <= bi < pre.open_list@.len(),
        pre.open_list@[bi] == ni,
        post.open_list@ == pre.open_list@.remove(bi),
        post.closed_list@ == pre.closed_list@.push(ni),
    ensures
        post.board_filed(b),
{
    if exists|j: int|
        0 <= j < pre.open_list@.len() && pre.nodes@[#[trigger] pre.open_list@[j] as int].grid@
            == b {
        let j = choose|j: int|
            0 <= j < pre.open_list@.len() && pre.nodes@[#[trigger] pre.open_list@[j] as int].grid@
                == b;
        if j == bi {
            assert(post.closed_list@[post.closed_list@.len() - 1] == ni);
        } else if j < bi {
            assert(post.open_list@[j] == pre.open_list@[j]);
        } else {
            assert(post.open_list@[j - 1] == pre.open_list@[j]);
        }
    } else {
        let j = choose|j: int|
            0 <= j < pre.closed_list@.len()
                && pre.nodes@[#[trigger] pre.closed_list@[j] as int].grid@ == b;
        assert(post.closed_list@[j] == pre.closed_list@[j]);
    }
}

/// A filed board stays filed when the closed list keeps its boards and
/// every open board survives somewhere on the open list.
proof fn lemma_filed_preserved(pre: Algo, post: Algo, b: Seq<u16>)
    requires
        pre.board_filed(b),
        post.closed_list@.len() == pre.closed_list@.len(),
        forall|j: int|
            0 <= j < post.closed_list@.len() ==> post.nodes@[#[trigger] post.closed_list@[j] as int].grid@
                == pre.nodes@[pre.closed_list@[j] as int].grid@,
        forall|j: int|
            0 <= j < pre.open_list@.len() ==> exists|j2: int|
                0 <= j2 < post.open_list@.len()
                    && post.nodes@[post.open_list@[j2] as int].grid@
                    == pre.nodes@[#[trigger] pre.open_list@[j] as int].grid@,
    ensures
        post.board_filed(b),
{
    if exists|j: int|
        0 <= j < pre.open_list@.len() && pre.nodes@[#[trigger] pre.open_list@[j] as int].grid@
            == b {
        let j = choose|j: int|
            0 <= j < pre.open_list@.len() && pre.nodes@[#[trigger] pre.open_list@[j] as int].grid@
                == b;
        assert(exists|j2: int|
            0 <= j2 < post.open_list@.len() && post.nodes@[post.open_list@[j2] as int].grid@
                == pre.nodes@[pre.open_list@[j] as int].grid@);
    } else {
        let j = choose|j: int|
            0 <= j < pre.closed_list@.len()
                && pre.nodes@[#[trigger] pre.closed_list@[j] as int].grid@ == b;
        assert(post.nodes@[post.closed_list@[j] as int].grid@ == b);
    }
}

/// With a complete frontier and a drained open list, no filed board can
/// reach the goal in any number of blank-slides.
proof fn lemma_filed_unreachable(a: &Algo, b: Seq<u16>, k: nat)
    requires
        a.inv(),
        a.frontier_complete(),
        a.open_list@.len() == 0,
        a.board_filed(b),
    ensures
        !reachable_in(b, a.goal.spec_lines(), a.goal@, k),
    decreases k,
{
    let lines = a.goal.spec_lines();
    if reachable_in(b, lines, a.goal@, k) {
        let j = choose|j: int|
            0 <= j < a.closed_list@.len() && a.nodes@[#[trigger] a.closed_list@[j] as int].grid@
                == b;
        assert(b != a.goal@);
        assert(k > 0);
        let mid = choose|m: Seq<u16>|
            is_successor(b, lines, m) && reachable_in(m, lines, a.goal@, (k - 1) as nat);
        lemma_successor_in_list(b, lines, mid);
        let si = choose|si: int|
            0 <= si < spec_successors(b, lines).len() && spec_successors(b, lines)[si] == mid;
        assert(a.entry_expanded(j));
        reveal(Algo::entry_expanded);
        assert(a.board_filed(mid));
        lemma_filed_unreachable(a, mid, (k - 1) as nat);
        assert(false);
    }
}

/// Completeness of the A* bookkeeping: a complete frontier whose open
/// list has drained rules the goal out — it is not reachable from the
/// root board by any number of blank-slides. Together with
/// `resolve_a_star`'s failure clause this gives the meaning of a failed
/// search that was not cut short by the node budget.
pub proof fn lemma_drained_unreachable(a: &Algo, k: nat)
    requires
        a.inv(),
        a.frontier_complete(),
        a.open_list@.len() == 0,
    ensures
        !reachable_in(a.nodes@[0].grid@, a.goal.spec_lines(), a.goal@, k),
{
    lemma_filed_unreachable(a, a.nodes@[0].grid@, k);
}

/// The closed list cannot outgrow the board space: its boards are
/// distinct arrangements of `N` cells with values below `N`, of which
/// there are fewer than `N` to the power `N`. This is what lets a large
/// enough node budget never be the cause of failure.
pub proof fn lemma_closed_bounded(a: &Algo)
    requires
        a.inv(),
    ensures
        a.closed_list@.len() <= vstd::arithmetic::power::pow(
            a.goal@.len() as int,
            a.goal@.len(),
        ),
{
    let n = a.goal@.len() as int;
    let cl = a.closed_list@;
    a.goal.lemma_wf();
    assert forall|j: int| 0 <= j < cl.len() implies (a.nodes@[#[trigger] cl[j] as int].grid@.len()
        == n && (forall|i: int|
        0 <= i < n ==> (#[trigger] a.nodes@[cl[j] as int].grid@[i]) < n)) by {
        a.nodes@[cl[j] as int].grid.lemma_wf();
    }
    let codes = Seq::new(cl.len(), |j: int| board_code(a.nodes@[cl[j] as int].grid@, n));
    assert forall|k: int, l: int|
        #![trigger codes[k], codes[l]]
        0 <= k < l < codes.len() implies codes[k] != codes[l] by {
        if codes[k] == codes[l] {
            lemma_board_code_injective(
                a.nodes@[cl[k] as int].grid@,
                a.nodes@[cl[l] as int].grid@,
                n,
            );
        }
    }
    assert(codes.no_duplicates());
    codes.unique_seq_to_set();
    let range = vstd::set_lib::set_int_range(0, vstd::arithmetic::power::pow(n, n as nat));
    assert forall|x: int| codes.to_set().contains(x) implies range.contains(x) by {
        let j = choose|j: int| 0 <= j < codes.len() && codes[j] == x;
        lemma_board_code_bounds(a.nodes@[cl[j] as int].grid@, n);
    }
    vstd::arithmetic::power::lemma_pow_positive(n, n as nat);
    vstd::set_lib::lemma_int_range(0, vstd::arithmetic::power::pow(n, n as nat));
    vstd::set_lib::lemma_len_subset(codes.to_set(), range);
}

/// The closed-list dedup law: under the engine invariant — which every
/// search call preserves — no board sits in the open and the closed
/// list at once, and neither list repeats a board; since A* expands only
/// boards it moves to the closed list, no board is expanded twice.
pub proof fn lemma_closed_list_dedup(a: &Algo)
    requires
        a.inv(),
    ensures
        a.dedup_wf(),
{
}

/// Soundness of the arena: every node's board is reachable from the
/// root's board in exactly its recorded path cost many blank-slides
/// (provided the cost counter never saturated).
pub proof fn lemma_node_reachable(nodes: Seq<Node>, goal: Grid, i: int)
    requires
        arena_wf(nodes, goal),
        0 <= i < nodes.len(),
        (nodes[i].state.g as int) < u32::MAX,
    ensures
        reachable_in(nodes[0].grid@, goal.spec_lines(), nodes[i].grid@, nodes[i].state.g as nat),
    decreases nodes[i].state.g,
{
    reveal(edge_ok);
    assert(edge_ok(nodes, goal, i));
    match nodes[i].parent {
        None => {
            assert(i == 0);
        },
        Some(p) => {
            assert((p as int) < i);
            assert(nodes[i].state.g == g_inc_spec(nodes[p as int].state.g));
            assert((nodes[p as int].state.g as int) < u32::MAX);
            lemma_node_reachable(nodes, goal, p as int);
            lemma_reachable_extend(
                nodes[0].grid@,
                goal.spec_lines(),
                nodes[p as int].grid@,
                nodes[i].grid@,
                nodes[p as int].state.g as nat,
            );
        },
    }
}

/// Soundness of A*'s success report: when the engine records a solution
/// node holding the goal board, the goal is reachable from the initial
/// board in exactly the reported total cost many blank-slides.
pub proof fn lemma_solution_reachable(a: &Algo)
    requires
        a.inv(),
        (match a.solution {
            Some(i) => (i as int) < a.nodes@.len() && a.nodes@[i as int].grid@ == a.goal@
                && (a.nodes@[i as int].state.g as int) < u32::MAX,
            None => false,
        }),
    ensures
        (match a.solution {
            Some(i) => reachable_in(
                a.nodes@[0].grid@,
                a.goal.spec_lines(),
                a.goal@,
                a.nodes@[i as int].state.g as nat,
            ),
            None => false,
        }),
{
    match a.solution {
        Some(i) => {
            lemma_node_reachable(a.nodes@, a.goal, i as int);
        },
        None => {},
    }
}

/// Soundness of IDA*'s path: the board at position `k` of the explored
/// path is reachable from the root board in exactly `k` blank-slides; on
/// success the goal is therefore reached in path length minus one moves.
pub proof fn lemma_path_reachable(a: &Algo, k: int)
    requires
        a.inv(),
        0 <= k < a.path@.len(),
    ensures
        reachable_in(
            a.nodes@[a.path@[0] as int].grid@,
            a.goal.spec_lines(),
            a.nodes@[a.path@[k] as int].grid@,
            k as nat,
        ),
    decreases k,
{
    if k == 0 {
    } else {
        lemma_path_reachable(a, k - 1);
        reveal(path_step_ok);
        assert(path_step_ok(a.nodes@, a.goal, a.path@, k));
        lemma_reachable_extend(
            a.nodes@[a.path@[0] as int].grid@,
            a.goal.spec_lines(),
            a.nodes@[a.path@[k - 1] as int].grid@,
            a.nodes@[a.path@[k] as int].grid@,
            (k - 1) as nat,
        );
    }
}

} // verus!\n