//! The board model: an immutable arrangement of `n * n` tiles, the four
//! blank-slides, the heuristic distances to a goal board, and the
//! inversion-parity solvability check.

use vstd::prelude::*;

verus! {

use crate::coord::Coord;
use vstd::string::StringExecFns;

/// One of the four directions the blank cell can slide.
#[derive(Clone, Copy, Debug)]
pub enum Move {
    Up,
    Down,
    Right,
    Left,
}

/// The column/row displacement of a move: `Up` and `Down` change the row,
/// `Left` and `Right` change the column.
pub open spec fn move_delta(mov: Move) -> (int, int) {
    match mov {
        Move::Up => (0int, -1int),
        Move::Down => (0int, 1int),
        Move::Right => (1int, 0int),
        Move::Left => (-1int, 0int),
    }
}

impl Move {
    /// Decodes a move from a small integer; any value above 3 falls back
    /// to `Up`.
    pub fn from(from: u8) -> (r: Self)
        ensures
            r == (if from == 0 {
                Move::Up
            } else if from == 1 {
                Move::Down
            } else if from == 2 {
                Move::Right
            } else if from == 3 {
                Move::Left
            } else {
                Move::Up
            }),
    {
        match from {
            0 => Self::Up,
            1 => Self::Down,
            2 => Self::Right,
            3 => Self::Left,
            _ => Self::Up,
        }
    }

    /// Shifts a coordinate one cell in this direction.
    pub fn apply(&self, coord: &mut Coord)
        requires
            i16::MIN < old(coord).x < i16::MAX,
            i16::MIN < old(coord).y < i16::MAX,
        ensures
            final(coord).x == old(coord).x + move_delta(*self).0,
            final(coord).y == old(coord).y + move_delta(*self).1,
    {
        match self {
            Move::Up => coord.dec_y(),
            Move::Down => coord.inc_y(),
            Move::Right => coord.inc_x(),
            Move::Left => coord.dec_x(),
        }
    }
}

/// The heuristic family the engine can evaluate.
#[derive(Clone, Copy, Debug)]
pub enum HType {
    Hamming,
    Manhattan,
    LinearManhattan,
}

impl Default for HType {
    /// The default heuristic is Hamming distance.
    fn default() -> (r: Self)
        ensures
            r is Hamming,
    {
        Self::Hamming
    }
}

/// The index of the first blank at or after position `k`, if any.
pub open spec fn find_zero_from(s: Seq<u16>, k: int) -> Option<int>
    decreases s.len() - k,
{
    if k < 0 || k >= s.len() {
        None
    } else if s[k] == 0 {
        Some(k)
    } else {
        find_zero_from(s, k + 1)
    }
}

/// The index of the first blank in `s`, or `0` when no cell is blank
/// (mirroring a position lookup with a fallback of zero).
pub open spec fn z_of(s: Seq<u16>) -> int {
    match find_zero_from(s, 0) {
        Some(i) => i,
        None => 0,
    }
}

/// Whether `s` is a well-formed board of side length `lines`: a
/// permutation of `0 .. lines * lines`.
pub open spec fn wf_map(s: Seq<u16>, lines: u8) -> bool {
    &&& 1 <= lines
    &&& s.len() == lines as int * lines as int
    &&& forall|i: int| 0 <= i < s.len() ==> (#[trigger] s[i]) < s.len()
    &&& forall|i: int, j: int|
        #![trigger s[i], s[j]]
        0 <= i < s.len() && 0 <= j < s.len() && i != j ==> s[i] != s[j]
    &&& forall|v: u16| v < s.len() ==> #[trigger] s.contains(v)
}

/// The unique index of value `v` in a board that contains it.
pub open spec fn pos_of(s: Seq<u16>, v: u16) -> int {
    choose|i: int| 0 <= i < s.len() && s[i] == v
}

/// The board after sliding the blank of `s` in direction `mov`, or `None`
/// when that slide would leave the board.
pub open spec fn spec_move_zero(s: Seq<u16>, lines: u8, mov: Move) -> Option<Seq<u16>> {
    let n = lines as int;
    let z = pos_of(s, 0);
    let x = z % n + move_delta(mov).0;
    let y = z / n + move_delta(mov).1;
    if 0 <= x < n && 0 <= y < n {
        let z2 = y * n + x;
        Some(s.update(z, s[z2]).update(z2, 0u16))
    } else {
        None
    }
}

/// The sequence of legal successor boards of `s`, trying the moves in the
/// order Up, Down, Right, Left.
#[verifier::opaque]
pub open spec fn spec_successors(s: Seq<u16>, lines: u8) -> Seq<Seq<u16>> {
    opt_seq(spec_move_zero(s, lines, Move::Up)) + opt_seq(spec_move_zero(s, lines, Move::Down))
        + opt_seq(spec_move_zero(s, lines, Move::Right)) + opt_seq(
        spec_move_zero(s, lines, Move::Left),
    )
}

/// An option viewed as a sequence of zero or one elements.
pub open spec fn opt_seq(o: Option<Seq<u16>>) -> Seq<Seq<u16>> {
    match o {
        Some(s) => seq![s],
        None => Seq::empty(),
    }
}

/// Whether board `t` is one legal blank-slide away from board `s`.
pub open spec fn is_successor(s: Seq<u16>, lines: u8, t: Seq<u16>) -> bool {
    exists|mov: Move| spec_move_zero(s, lines, mov) == Some(t)
}

/// Whether board `t` can be reached from board `s` in exactly `k` legal
/// blank-slides.
pub open spec fn reachable_in(s: Seq<u16>, lines: u8, t: Seq<u16>, k: nat) -> bool
    decreases k,
{
    if k == 0 {
        s == t
    } else {
        exists|m: Seq<u16>| is_successor(s, lines, m) && reachable_in(m, lines, t, (k - 1) as nat)
    }
}

/// One blank-slide of reachability composes on the right: a path of `k`
/// moves followed by one more legal move is a path of `k + 1` moves.
pub proof fn lemma_reachable_extend(s: Seq<u16>, lines: u8, m: Seq<u16>, t: Seq<u16>, k: nat)
    requires
        reachable_in(s, lines, m, k),
        is_successor(m, lines, t),
    ensures
        reachable_in(s, lines, t, (k + 1) as nat),
    decreases k,
{
    if k == 0 {
        assert(s == m);
        assert(reachable_in(t, lines, t, 0));
        assert(reachable_in(s, lines, t, 1));
    } else {
        let mid = choose|mid: Seq<u16>|
            is_successor(s, lines, mid) && reachable_in(mid, lines, m, (k - 1) as nat);
        lemma_reachable_extend(mid, lines, m, t, (k - 1) as nat);
        assert(is_successor(s, lines, mid) && reachable_in(mid, lines, t, k));
        assert(reachable_in(s, lines, t, (k + 1) as nat));
    }
}

impl HType {
    /// Decodes a heuristic name; a missing name selects the default,
    /// an unknown name is an error naming the offender.
    pub fn from_str_or_default(input: Option<&str>) -> (r: Result<Self, String>)
        ensures
            (match input {
                None => r matches Ok(h) && h is Hamming,
                Some(s) => {
                    &&& s@ == "hamming"@ ==> (r matches Ok(h) && h is Hamming)
                    &&& s@ == "manhattan"@ ==> (r matches Ok(h) && h is Manhattan)
                    &&& s@ == "linear_manhattan"@ ==> (r matches Ok(h) && h is LinearManhattan)
                    &&& (s@ != "hamming"@ && s@ != "manhattan"@ && s@ != "linear_manhattan"@)
                        ==> (r matches Err(m) && m@
                        == "This heuristic function does not exist: "@ + s@)
                },
            }),
    {
        proof {
            reveal_strlit("hamming");
            reveal_strlit("manhattan");
            reveal_strlit("linear_manhattan");
            assert("hamming"@.len() == 7);
            assert("manhattan"@.len() == 9);
            assert("linear_manhattan"@.len() == 16);
            assert("hamming"@ != "manhattan"@);
            assert("hamming"@ != "linear_manhattan"@);
            assert("manhattan"@ != "linear_manhattan"@);
        }
        match input {
            None => Ok(Self::Hamming),
            Some(s) => {
                if crate::utils::str_eq(s, "hamming") {
                    Ok(Self::Hamming)
                } else if crate::utils::str_eq(s, "manhattan") {
                    Ok(Self::Manhattan)
                } else if crate::utils::str_eq(s, "linear_manhattan") {
                    Ok(Self::LinearManhattan)
                } else {
                    let mut msg = String::from_str("This heuristic function does not exist: ");
                    msg.append(s);
                    Err(msg)
                }
            },
        }
    }
}

/// A single board arrangement. The tile sequence is the identity of the
/// grid; the blank position and the side length are cached alongside it.
#[derive(Clone, Debug)]
pub struct Grid {
    map: Vec<u16>,
    z_pos: u16,
    lines: u8,
}

impl View for Grid {
    type V = Seq<u16>;

    /// A grid is abstractly its tile sequence.
    closed spec fn view(&self) -> Seq<u16> {
        self.map@
    }
}

impl PartialEq for Grid {
    /// Two grids are equal exactly when their tile sequences are equal;
    /// the cached blank position and side length are derived data.
    fn eq(&self, other: &Self) -> (r: bool) {
        if self.map.len() != other.map.len() {
            return false;
        }
        let ghost m = self.map@;
        let ghost o = other.map@;
        let mut i: usize = 0;
        while i < self.map.len()
            invariant
                0 <= i <= m.len(),
                m.len() == o.len(),
                m == self.map@,
                o == other.map@,
                forall|j: int| 0 <= j < i ==> m[j] == o[j],
            decreases m.len() - i,
        {
            if self.map[i] != other.map[i] {
                return false;
            }
            i += 1;
        }
        proof {
            assert(m =~= o);
        }
        true
    }
}

impl Eq for Grid {

}

impl vstd::std_specs::cmp::PartialEqSpecImpl for Grid {
    open spec fn obeys_eq_spec() -> bool {
        true
    }

    open spec fn eq_spec(&self, other: &Grid) -> bool {
        self@ == other@
    }
}

impl Grid {
    /// The side length of the board.
    pub closed spec fn spec_lines(&self) -> u8 {
        self.lines
    }

    /// The cached position of the blank.
    pub closed spec fn spec_z(&self) -> int {
        self.z_pos as int
    }

    /// Well-formedness: the tile sequence is a permutation of
    /// `0 .. lines * lines` and the cached blank position is the index of
    /// the blank.
    pub closed spec fn wf(&self) -> bool {
        &&& wf_map(self.map@, self.lines)
        &&& 0 <= self.z_pos < self.map@.len()
        &&& self.map@[self.z_pos as int] == 0
    }

    /// A well-formed grid has a well-formed tile sequence, and its cached
    /// blank position is the blank's index.
    pub proof fn lemma_wf(&self)
        requires
            self.wf(),
        ensures
            wf_map(self@, self.spec_lines()),
            self.spec_z() == pos_of(self@, 0),
            0 <= self.spec_z() < self@.len(),
            self@[self.spec_z()] == 0,
    {
        assert(self.map@[self.z_pos as int] == 0);
        lemma_pos_of(self.map@, self.lines, self.z_pos as int);
    }

    /// Wraps a tile sequence as a grid, caching the position of the first
    /// blank (or `0` when no blank occurs).
    pub fn new(map: Vec<u16>, lines: u8) -> (r: Self)
        requires
            map@.len() <= u16::MAX,
        ensures
            r@ == map@,
            r.spec_lines() == lines,
            r.spec_z() == z_of(map@),
            wf_map(map@, lines) ==> r.wf(),
    {
        let mut z: u16 = 0;
        let mut i: usize = 0;
        let mut found = false;
        while i < map.len()
            invariant
                0 <= i <= map@.len(),
                map@.len() <= u16::MAX,
                !found ==> forall|j: int| 0 <= j < i ==> map@[j] != 0,
                !found ==> z == 0,
                found ==> 0 <= z < i && map@[z as int] == 0 && forall|j: int|
                    0 <= j < z ==> map@[j] != 0,
            decreases map@.len() - i,
        {
            if !found && map[i] == 0 {
                z = i as u16;
                found = true;
            }
            i += 1;
        }
        proof {
            lemma_z_of_first(map@, z as int, found);
            if wf_map(map@, lines) {
                assert(1 <= (lines as int) * (lines as int)) by (nonlinear_arith)
                    requires
                        1 <= lines as int,
                {}
                assert(map@.contains(0u16));
                assert(found);
            }
        }
        Self { map, z_pos: z, lines }
    }

    /// The side length of the board.
    pub fn get_lines(&self) -> (r: u8)
        ensures
            r == self.spec_lines(),
    {
        self.lines
    }

    /// A copy of the tile sequence.
    pub fn get_map(&self) -> (r: Vec<u16>)
        ensures
            r@ == self@,
    {
        self.map.clone()
    }

    /// Slides the blank one cell in direction `mov`, returning the new
    /// grid, or `None` exactly when the slide would leave the board.
    pub fn move_zero(&self, mov: Move) -> (r: Option<Self>)
        requires
            self.wf(),
        ensures
            (match r {
                Some(g) => {
                    &&& spec_move_zero(self@, self.spec_lines(), mov) == Some(g@)
                    &&& g.wf()
                    &&& g.spec_lines() == self.spec_lines()
                },
                None => spec_move_zero(self@, self.spec_lines(), mov) is None,
            }),
    {
        proof {
            self.lemma_wf();
            assert(self.z_pos as int / (self.lines as int) < self.lines as int)
                by (nonlinear_arith)
                requires
                    (self.z_pos as int) < (self.lines as int) * (self.lines as int),
                    1 <= self.lines as int,
            {}
        }
        let mut z = Coord::from_abs(self.z_pos as u32, self.lines);
        let mut map = self.map.clone();

        mov.apply(&mut z);
        if z.is_out_of_table(self.lines) {
            return None;
        }

        proof {
            assert((z.y as int) * (self.lines as int) + (z.x as int) < (self.lines as int) * (
            self.lines as int) && (self.lines as int) * (self.lines as int) <= 65025)
                by (nonlinear_arith)
                requires
                    0 <= z.x < self.lines as int,
                    0 <= z.y < self.lines as int,
                    self.lines as int <= 255,
            {}
        }
        let z2 = z.to_abs(self.lines);
        map[self.z_pos as usize] = map[z2 as usize];
        map[z2 as usize] = 0;
        proof {
            lemma_swap_wf(self.map@, self.lines, self.z_pos as int, z2 as int);
        }
        Some(Self { map, lines: self.lines, z_pos: z2 as u16 })
    }

    /// The unique index of tile `v` in this grid.
    fn find_pos(&self, v: u16) -> (r: usize)
        requires
            self.wf(),
            v < self@.len(),
        ensures
            r == pos_of(self@, v),
            r < self@.len(),
            self@[r as int] == v,
    {
        proof {
            self.lemma_wf();
            lemma_len_bound(self@, self.spec_lines());
            assert(self@.contains(v));
            assert(exists|i: int| 0 <= i < self@.len() && self@[i] == v);
        }
        let ghost p = pos_of(self@, v);
        proof {
            assert(0 <= p < self@.len() && self@[p] == v);
        }
        let mut j: usize = 0;
        while self.map[j] != v
            invariant
                self.wf(),
                0 <= j <= p,
                p < self@.len(),
                self@.len() <= 65025,
                self@[p] == v,
                self@ == self.map@,
                forall|jj: int| 0 <= jj < j ==> self@[jj] != v,
            decreases p - j,
        {
            j += 1;
        }
        proof {
            lemma_pos_of(self@, self.lines, j as int);
        }
        j
    }

    /// The Hamming distance to `goal`: how many non-blank tiles sit on a
    /// cell whose goal tile differs.
    pub fn hamming(&self, goal: &Grid) -> (r: u32)
        requires
            self.wf(),
            goal.wf(),
            self.spec_lines() == goal.spec_lines(),
        ensures
            r == spec_hamming(self@, goal@),
            r <= self@.len(),
    {
        proof {
            self.lemma_wf();
            goal.lemma_wf();
            lemma_len_bound(self@, self.spec_lines());
        }
        let len = self.map.len();
        let mut acc: u32 = 0;
        let mut i: usize = 0;
        while i < len
            invariant
                0 <= i <= len,
                len == self@.len(),
                len == goal@.len(),
                len <= 65025,
                self@ == self.map@,
                goal@ == goal.map@,
                acc == ham_to(self@, goal@, i as int),
                acc <= i,
            decreases len - i,
        {
            if self.map[i] != 0 && self.map[i] != goal.map[i] {
                acc = acc + 1;
            }
            i += 1;
        }
        acc
    }

    /// The Manhattan distance to `goal`: the summed taxicab distance of
    /// every non-blank tile to the cell that holds the same tile in the
    /// goal.
    pub fn manhattan(&self, goal: &Grid) -> (r: u32)
        requires
            self.wf(),
            goal.wf(),
            self.spec_lines() == goal.spec_lines(),
        ensures
            r == spec_manhattan(self@, goal@, self.spec_lines()),
            r <= self@.len() * (2 * (self.spec_lines() as int)),
    {
        proof {
            self.lemma_wf();
            goal.lemma_wf();
            lemma_len_bound(self@, self.spec_lines());
        }
        let n = self.lines as usize;
        let len = self.map.len();
        let ghost nn = self.spec_lines() as int;
        let mut acc: u32 = 0;
        let mut i: usize = 0;
        while i < len
            invariant
                0 <= i <= len,
                1 <= nn <= 255,
                n == nn,
                len == self@.len(),
                len == goal@.len(),
                len == nn * nn,
                len <= 65025,
                self.wf(),
                goal.wf(),
                self.spec_lines() == goal.spec_lines(),
                nn == self.spec_lines() as int,
                self@ == self.map@,
                goal@ == goal.map@,
                acc == man_to(self@, goal@, nn, i as int),
                acc <= (i as int) * (2 * nn),
            decreases len - i,
        {
            let v = self.map[i];
            if v != 0 && v != goal.map[i] {
                let p = goal.find_pos(v);
                let xi = i % n;
                let yi = i / n;
                let xp = p % n;
                let yp = p / n;
                let dx = if xi >= xp {
                    xi - xp
                } else {
                    xp - xi
                };
                let dy = if yi >= yp {
                    yi - yp
                } else {
                    yp - yi
                };
                proof {
                    assert(yi < nn && yp < nn) by (nonlinear_arith)
                        requires
                            yi == i as int / nn,
                            yp == p as int / nn,
                            0 <= (i as int) && (i as int) < nn * nn,
                            0 <= (p as int) && (p as int) < nn * nn,
                            1 <= nn,
                    {}
                    assert(cell_dist(self@, goal@, nn, i as int) == dx + dy);
                    assert(acc + (dx + dy) <= (i as int + 1) * (2 * nn) && (i as int + 1) * (2
                        * nn) <= 33162750) by (nonlinear_arith)
                        requires
                            acc <= (i as int) * (2 * nn),
                            dx + dy <= 2 * nn,
                            0 <= (i as int) && (i as int) < nn * nn,
                            1 <= nn <= 255,
                    {}
                }
                acc = acc + (dx + dy) as u32;
            }
            proof {
                assert(acc == man_to(self@, goal@, nn, i as int + 1));
                assert((i as int) * (2 * nn) + 2 * nn == (i as int + 1) * (2 * nn))
                    by (nonlinear_arith)
                {}
            }
            i += 1;
        }
        acc
    }

    /// The misplaced non-blank tiles, each as a pair of its current and
    /// its goal coordinate, in cell order.
    pub fn check_misplaced(from: &Grid, goal: &Grid) -> (r: Vec<(Coord, Coord)>)
        requires
            from.wf(),
            goal.wf(),
            from.spec_lines() == goal.spec_lines(),
        ensures
            r@ == misplaced_to(from@, goal@, from.spec_lines() as int, from@.len() as int),
    {
        proof {
            from.lemma_wf();
            goal.lemma_wf();
            lemma_len_bound(from@, from.spec_lines());
        }
        let n = from.lines as usize;
        let len = from.map.len();
        let ghost nn = from.spec_lines() as int;
        let mut r: Vec<(Coord, Coord)> = Vec::new();
        let mut i: usize = 0;
        while i < len
            invariant
                0 <= i <= len,
                1 <= nn <= 255,
                n == nn,
                len == from@.len(),
                len == goal@.len(),
                len == nn * nn,
                from.wf(),
                goal.wf(),
                from.spec_lines() == goal.spec_lines(),
                nn == from.spec_lines() as int,
                from@ == from.map@,
                goal@ == goal.map@,
                r@ == misplaced_to(from@, goal@, nn, i as int),
            decreases len - i,
        {
            let v = from.map[i];
            if v != 0 && v != goal.map[i] {
                let p = goal.find_pos(v);
                proof {
                    assert(i as int / nn < nn && p as int / nn < nn) by (nonlinear_arith)
                        requires
                            0 <= (i as int) && (i as int) < nn * nn,
                            0 <= (p as int) && (p as int) < nn * nn,
                            1 <= nn,
                    {}
                }
                let self_cord = Coord::new((i % n) as i16, (i / n) as i16);
                let goal_cord = Coord::new((p % n) as i16, (p / n) as i16);
                r.push((self_cord, goal_cord));
                proof {
                    assert(self_cord == coord_at(i as int, nn));
                    assert(goal_cord == coord_at(pos_of(goal@, v), nn));
                }
            }
            proof {
                assert(r@ == misplaced_to(from@, goal@, nn, i as int + 1));
            }
            i += 1;
        }
        r
    }

    /// The number of linear conflicts with `goal`: pairs of tiles that
    /// share the line that is both their goal line, in reversed order.
    pub fn linear_conflict(&self, goal: &Grid) -> (r: u32)
        requires
            self.wf(),
            goal.wf(),
            self.spec_lines() == goal.spec_lines(),
        ensures
            r == spec_conflict(self@, goal@, self.spec_lines()),
            2 * (r as int) <= self@.len() * (self@.len() - 1),
    {
        proof {
            self.lemma_wf();
            goal.lemma_wf();
            lemma_len_bound(self@, self.spec_lines());
        }
        let n = self.lines as usize;
        let len = self.map.len();
        let ghost nn = self.spec_lines() as int;
        let mut l: Vec<(Coord, Coord)> = Vec::new();
        let mut i: usize = 0;
        while i < len
            invariant
                0 <= i <= len,
                1 <= nn <= 255,
                n == nn,
                len == self@.len(),
                len == goal@.len(),
                len == nn * nn,
                self.wf(),
                goal.wf(),
                self.spec_lines() == goal.spec_lines(),
                nn == self.spec_lines() as int,
                self@ == self.map@,
                goal@ == goal.map@,
                l@ == aligned_to(self@, goal@, nn, i as int),
                l@.len() <= i,
            decreases len - i,
        {
            let v = self.map[i];
            if v != 0 && v != goal.map[i] {
                let p = goal.find_pos(v);
                proof {
                    assert(i as int / nn < nn && p as int / nn < nn) by (nonlinear_arith)
                        requires
                            0 <= (i as int) && (i as int) < nn * nn,
                            0 <= (p as int) && (p as int) < nn * nn,
                            1 <= nn,
                    {}
                }
                let self_cord = Coord::new((i % n) as i16, (i / n) as i16);
                let goal_cord = Coord::new((p % n) as i16, (p / n) as i16);
                proof {
                    assert(self_cord == coord_at(i as int, nn));
                    assert(goal_cord == coord_at(pos_of(goal@, v), nn));
                }
                if self_cord.x == goal_cord.x || self_cord.y == goal_cord.y {
                    l.push((self_cord, goal_cord));
                }
            }
            proof {
                assert(l@ == aligned_to(self@, goal@, nn, i as int + 1));
            }
            i += 1;
        }
        let m = l.len();
        let ghost ll = l@;
        let mut ret: u32 = 0;
        let mut k: usize = 0;
        while k < m
            invariant
                0 <= k <= m,
                m == ll.len(),
                m <= 65025,
                l@ == ll,
                ret == conflict_to(ll, k as int),
                2 * (ret as int) <= (k as int) * (2 * (m as int) - (k as int) - 1),
            decreases m - k,
        {
            let mut j: usize = k + 1;
            proof {
                assert(ret == conflict_to(ll, k as int) + conflict_from(ll, k as int, k as int + 1)
                    - conflict_from(ll, k as int, k as int + 1));
            }
            while j < m
                invariant
                    0 <= k < m,
                    k + 1 <= j <= m,
                    m == ll.len(),
                    m <= 65025,
                    l@ == ll,
                    ret == conflict_to(ll, k as int) + conflict_from(ll, k as int, k as int + 1)
                        - conflict_from(ll, k as int, j as int),
                    2 * (ret as int) <= (k as int) * (2 * (m as int) - (k as int) - 1) + 2 * ((
                    j as int) - (k as int) - 1),
                decreases m - j,
            {
                let a = l[k];
                let b = l[j];
                proof {
                    assert(conflict_from(ll, k as int, j as int) == (if pair_conflict(
                        ll[k as int],
                        ll[j as int],
                    ) {
                        1int
                    } else {
                        0int
                    }) + conflict_from(ll, k as int, j as int + 1));
                    assert(2 * (ret as int) + 2 <= (k as int) * (2 * (m as int) - (k as int) - 1)
                        + 2 * ((j as int + 1) - (k as int) - 1));
                    assert((k as int) * (2 * (m as int) - (k as int) - 1) <= 2 * 65025 * 65025)
                        by (nonlinear_arith)
                        requires
                            0 <= (k as int) && (k as int) < m as int,
                            m <= 65025,
                    {}
                }
                if ((a.0.x == a.1.x && a.0.x == b.0.x && a.1.x == b.1.x) || (a.0.y == a.1.y && a.0.y
                    == b.0.y && a.1.y == b.1.y)) && (a.1.x > b.1.x || a.1.y > b.1.y) {
                    ret = ret + 1;
                }
                j += 1;
            }
            proof {
                assert(conflict_from(ll, k as int, m as int) == 0);
                assert(ret == conflict_to(ll, k as int + 1));
                assert((k as int) * (2 * (m as int) - (k as int) - 1) + 2 * ((m as int) - (k as int)
                    - 1) == (k as int + 1) * (2 * (m as int) - (k as int + 1) - 1))
                    by (nonlinear_arith)
                {}
            }
            k += 1;
        }
        proof {
            assert(2 * (ret as int) <= (m as int) * (2 * (m as int) - (m as int) - 1));
            assert((m as int) * ((m as int) - 1) <= (len as int) * ((len as int) - 1))
                by (nonlinear_arith)
                requires
                    0 <= (m as int) && (m as int) <= len as int,
            {}
        }
        ret
    }

    /// The Manhattan distance plus two extra moves for every linear
    /// conflict.
    pub fn linear_manhattan(&self, goal: &Grid) -> (r: u32)
        requires
            self.wf(),
            goal.wf(),
            self.spec_lines() == goal.spec_lines(),
        ensures
            r == spec_linear_manhattan(self@, goal@, self.spec_lines()),
            r <= 4261348350u32,
    {
        let m = self.manhattan(goal);
        let c = self.linear_conflict(goal);
        proof {
            self.lemma_wf();
            assert(self@.len() * (2 * (self.spec_lines() as int)) <= 33162750 && self@.len() * (
            self@.len() - 1) <= 65025 * 65024) by (nonlinear_arith)
                requires
                    self@.len() == (self.spec_lines() as int) * (self.spec_lines() as int),
                    1 <= self.spec_lines() as int <= 255,
            {}
        }
        m + 2 * c
    }

    /// Whether this board is in the same blank-slide reachability class
    /// as the canonical spiral goal, by the inversion-parity criterion.
    pub fn solvable(&self) -> (r: bool)
        requires
            self.wf(),
        ensures
            r == spec_solvable(self@, self.spec_lines()),
    {
        proof {
            self.lemma_wf();
            lemma_len_bound(self@, self.spec_lines());
        }
        let len = self.map.len();
        let mut cnt: u64 = 0;
        let mut k: usize = 0;
        while k < len
            invariant
                0 <= k <= len,
                len == self@.len(),
                len <= 65025,
                self.wf(),
                self@ == self.map@,
                cnt == inv_to(self@, k as int),
                cnt <= (k as int) * (len as int),
            decreases len - k,
        {
            let mut j: usize = k + 1;
            proof {
                assert(cnt == inv_to(self@, k as int) + inv_from(self@, k as int, k as int + 1)
                    - inv_from(self@, k as int, k as int + 1));
            }
            while j < len
                invariant
                    0 <= k < len,
                    k + 1 <= j <= len,
                    len == self@.len(),
                    len <= 65025,
                    self.wf(),
                    self@ == self.map@,
                    cnt == inv_to(self@, k as int) + inv_from(self@, k as int, k as int + 1)
                        - inv_from(self@, k as int, j as int),
                    cnt <= (k as int) * (len as int) + (j as int) - (k as int) - 1,
                decreases len - j,
            {
                let a = self.map[k];
                let b = self.map[j];
                proof {
                    assert(inv_from(self@, k as int, j as int) == (if inv_pair(
                        self@,
                        k as int,
                        j as int,
                    ) {
                        1int
                    } else {
                        0int
                    }) + inv_from(self@, k as int, j as int + 1));
                    assert((k as int) * (len as int) <= 65025 * 65025) by (nonlinear_arith)
                        requires
                            0 <= (k as int) && (k as int) <= len as int,
                            len as int <= 65025,
                    {}
                }
                if a != 0 && b != 0 && b < a {
                    cnt = cnt + 1;
                }
                j += 1;
            }
            proof {
                assert(inv_from(self@, k as int, len as int) == 0);
                assert(cnt == inv_to(self@, k as int + 1));
                assert((k as int) * (len as int) + (len as int) - (k as int) - 1 <= (k as int + 1)
                    * (len as int)) by (nonlinear_arith)
                    requires
                        0 <= (k as int) && (k as int) < len as int,
                {}
            }
            k += 1;
        }
        let row = self.z_pos / (self.lines as u16);
        proof {
            assert(row as int == pos_of(self@, 0) / (self.lines as int));
            assert((row as int) < self.lines as int) by (nonlinear_arith)
                requires
                    row as int == (self.spec_z()) / (self.lines as int),
                    0 <= self.spec_z(),
                    (self.spec_z()) < (self.lines as int) * (self.lines as int),
                    1 <= self.lines as int,
            {}
        }
        let bb = (self.lines as u64) - (row as u64);
        proof {
            assert((cnt as int) <= 65025 * 65025) by (nonlinear_arith)
                requires
                    cnt as int <= (len as int) * (len as int),
                    0 <= len as int,
                    len as int <= 65025,
            {}
        }
        if self.lines % 2 == 0 {
            (cnt + bb) % 2 == 1
        } else {
            cnt % 2 == 1
        }
    }

    /// Whether this value satisfies the board invariant; a runtime
    /// mirror of the well-formedness predicate.
    pub fn check(&self) -> (r: bool)
        ensures
            r == self.wf(),
    {
        if self.lines == 0 {
            return false;
        }
        let n = self.lines as usize;
        proof {
            assert(1 <= (self.lines as int) * (self.lines as int) <= 65025) by (nonlinear_arith)
                requires
                    1 <= self.lines as int <= 255,
            {}
        }
        let len = self.map.len();
        if len != n * n {
            return false;
        }
        let mut seen: Vec<bool> = vec![false; len];
        let mut i: usize = 0;
        while i < len
            invariant
                0 <= i <= len,
                len == self@.len(),
                len == (self.spec_lines() as int) * (self.spec_lines() as int),
                len <= 65025,
                1 <= self.spec_lines(),
                self@ == self.map@,
                seen@.len() == len,
                forall|w: int|
                    0 <= w < len ==> ((#[trigger] seen@[w]) <==> (exists|jj: int|
                        0 <= jj < i && self.map@[jj] == w)),
                forall|jj: int| 0 <= jj < i ==> (#[trigger] self.map@[jj]) < len,
                forall|j1: int, j2: int|
                    #![trigger self.map@[j1], self.map@[j2]]
                    0 <= j1 < j2 < i ==> self.map@[j1] != self.map@[j2],
            decreases len - i,
        {
            let v = self.map[i];
            if v as usize >= len {
                return false;
            }
            if seen[v as usize] {
                return false;
            }
            seen[v as usize] = true;
            proof {
                assert forall|w: int|
                    0 <= w < len implies ((#[trigger] seen@[w]) <==> (exists|jj: int|
                        0 <= jj < i + 1 && self.map@[jj] == w)) by {
                    if w == v as int {
                        assert(self.map@[i as int] == w);
                    }
                }
            }
            i += 1;
        }
        let mut v: usize = 0;
        while v < len
            invariant
                0 <= v <= len,
                len == self@.len(),
                len <= 65025,
                self@ == self.map@,
                seen@.len() == len,
                forall|w: int|
                    0 <= w < len ==> ((#[trigger] seen@[w]) <==> (exists|jj: int|
                        0 <= jj < len && self.map@[jj] == w)),
                forall|w: int| 0 <= w < v ==> #[trigger] seen@[w],
            decreases len - v,
        {
            if !seen[v] {
                proof {
                    if self.wf() {
                        assert(self.map@.contains(v as u16));
                        let jj = choose|jj: int| 0 <= jj < self.map@.len() && self.map@[jj] == v as u16;
                        assert(seen@[v as int]);
                    }
                }
                return false;
            }
            v += 1;
        }
        if self.z_pos as usize >= len {
            return false;
        }
        if self.map[self.z_pos as usize] != 0 {
            return false;
        }
        proof {
            assert forall|vv: u16| vv < self.map@.len() implies #[trigger] self.map@.contains(
                vv,
            ) by {
                assert(seen@[vv as int]);
                let jj = choose|jj: int| 0 <= jj < self@.len() && self.map@[jj] == vv as int;
                assert(0 <= jj < self.map@.len() && self.map@[jj] == vv);
            }
        }
        true
    }

    /// Appends the decimal digits of `v`.
    fn append_dec(out: &mut String, v: u16)
        decreases v,
    {
        if v >= 10 {
            Self::append_dec(out, v / 10);
        }
        let d = v % 10;
        if d == 0 {
            out.append("0");
        } else if d == 1 {
            out.append("1");
        } else if d == 2 {
            out.append("2");
        } else if d == 3 {
            out.append("3");
        } else if d == 4 {
            out.append("4");
        } else if d == 5 {
            out.append("5");
        } else if d == 6 {
            out.append("6");
        } else if d == 7 {
            out.append("7");
        } else if d == 8 {
            out.append("8");
        } else {
            out.append("9");
        }
    }

    /// A printable rendering: tab-separated tiles with an underscore for
    /// the blank and a blank line after each completed row.
    pub fn to_string(&self) -> (r: String)
        requires
            self.wf(),
    {
        proof {
            self.lemma_wf();
            lemma_len_bound(self@, self.spec_lines());
        }
        let n = self.lines as usize;
        let len = self.map.len();
        let mut out = String::new();
        let mut i: usize = 0;
        while i < len
            invariant
                0 <= i <= len,
                1 <= n,
                len == self@.len(),
                self@ == self.map@,
            decreases len - i,
        {
            out.append("\t");
            let v = self.map[i];
            if v == 0 {
                out.append("_");
            } else {
                Self::append_dec(&mut out, v);
            }
            if (i + 1) % n == 0 && i != 0 {
                out.append("\n\n");
            }
            i += 1;
        }
        out
    }

    /// Relies on rand::random_range: a uniformly drawn value from the
    /// given nonempty range; the result is always below 4.
    #[verifier::external_body]
    fn random_move_index() -> (r: u8)
        ensures
            r < 4,
    {
        rand::random_range(0..4u8)
    }

    /// A board scrambled from the spiral goal by `512 * lines` random
    /// blank-slides; it stays within the goal's reachability class.
    pub fn new_random(lines: u8) -> (r: Self)
        requires
            1 <= lines,
        ensures
            r.spec_lines() == lines,
            wf_map(crate::puzzle_gen::spec_snail_goal(lines), lines) ==> r.wf() && (exists|k: nat|
                reachable_in(crate::puzzle_gen::spec_snail_goal(lines), lines, r@, k)),
    {
        let base_map = crate::puzzle_gen::create_snail_goal(lines);
        proof {
            assert((lines as int) * (lines as int) <= 65025) by (nonlinear_arith)
                requires
                    1 <= lines as int <= 255,
            {}
        }
        let base = Self::new(base_map, lines);
        if !base.check() {
            return base;
        }
        let ghost start = base@;
        proof {
            assert(reachable_in(start, lines, base@, 0));
        }
        let mut puzzle = base;
        let total: u32 = 512 * (lines as u32);
        let mut i: u32 = 0;
        while i < total
            invariant
                0 <= i <= total,
                puzzle.wf(),
                puzzle.spec_lines() == lines,
                start == crate::puzzle_gen::spec_snail_goal(lines),
                exists|k: nat| reachable_in(start, lines, puzzle@, k),
            decreases total - i,
        {
            let m = Move::from(Self::random_move_index());
            match puzzle.move_zero(m) {
                Some(p2) => {
                    proof {
                        let k = choose|k: nat| reachable_in(start, lines, puzzle@, k);
                        assert(spec_move_zero(puzzle@, lines, m) == Some(p2@));
                        assert(is_successor(puzzle@, lines, p2@));
                        lemma_reachable_extend(start, lines, puzzle@, p2@, k);
                    }
                    puzzle = p2;
                },
                None => {},
            }
            i += 1;
        }
        puzzle
    }

    /// All boards reachable by one legal blank-slide, in the order
    /// Up, Down, Right, Left.
    pub fn move_all_possible(&self) -> (r: Vec<Self>)
        requires
            self.wf(),
        ensures
            r@.len() == spec_successors(self@, self.spec_lines()).len(),
            forall|k: int|
                0 <= k < r@.len() ==> (#[trigger] r@[k])@ == spec_successors(
                    self@,
                    self.spec_lines(),
                )[k],
            forall|k: int|
                0 <= k < r@.len() ==> (#[trigger] r@[k]).wf() && r@[k].spec_lines()
                    == self.spec_lines(),
    {
        proof {
            reveal(spec_successors);
        }
        let mut r: Vec<Self> = Vec::new();
        if let Some(g) = self.move_zero(Move::Up) {
            r.push(g);
        }
        if let Some(g) = self.move_zero(Move::Down) {
            r.push(g);
        }
        if let Some(g) = self.move_zero(Move::Right) {
            r.push(g);
        }
        if let Some(g) = self.move_zero(Move::Left) {
            r.push(g);
        }
        r
    }
}

/// The coordinate of linear index `i` on a board with `n` columns.
pub open spec fn coord_at(i: int, n: int) -> Coord {
    Coord { x: (i % n) as i16, y: (i / n) as i16 }
}

/// The absolute value of an integer.
pub open spec fn abs_i(a: int) -> int {
    if a < 0 {
        -a
    } else {
        a
    }
}

/// Number of cells among the first `k` whose non-blank tile differs from
/// the goal's tile at the same position.
pub open spec fn ham_to(s: Seq<u16>, g: Seq<u16>, k: int) -> int
    decreases k,
{
    if k <= 0 {
        0
    } else {
        ham_to(s, g, k - 1) + if s[k - 1] != 0 && s[k - 1] != g[k - 1] {
            1int
        } else {
            0int
        }
    }
}

/// The Hamming distance between two boards: the number of misplaced
/// non-blank tiles.
pub open spec fn spec_hamming(s: Seq<u16>, g: Seq<u16>) -> int {
    ham_to(s, g, s.len() as int)
}

/// The Manhattan contribution of cell `i`: the taxicab distance between
/// the tile's position and its goal position, when the tile is non-blank
/// and misplaced.
pub open spec fn cell_dist(s: Seq<u16>, g: Seq<u16>, n: int, i: int) -> int {
    if s[i] != 0 && s[i] != g[i] {
        let p = pos_of(g, s[i]);
        abs_i(i % n - p % n) + abs_i(i / n - p / n)
    } else {
        0
    }
}

/// Sum of the Manhattan contributions of the first `k` cells.
pub open spec fn man_to(s: Seq<u16>, g: Seq<u16>, n: int, k: int) -> int
    decreases k,
{
    if k <= 0 {
        0
    } else {
        man_to(s, g, n, k - 1) + cell_dist(s, g, n, k - 1)
    }
}

/// The Manhattan distance between two boards: the summed taxicab
/// distances of every non-blank tile to its goal position.
pub open spec fn spec_manhattan(s: Seq<u16>, g: Seq<u16>, lines: u8) -> int {
    man_to(s, g, lines as int, s.len() as int)
}

/// The misplaced non-blank tiles among the first `k` cells, as pairs of
/// (current coordinate, goal coordinate), in cell order.
pub open spec fn misplaced_to(s: Seq<u16>, g: Seq<u16>, n: int, k: int) -> Seq<(Coord, Coord)>
    decreases k,
{
    if k <= 0 {
        Seq::empty()
    } else {
        misplaced_to(s, g, n, k - 1) + if s[k - 1] != 0 && s[k - 1] != g[k - 1] {
            seq![(coord_at(k - 1, n), coord_at(pos_of(g, s[k - 1]), n))]
        } else {
            Seq::empty()
        }
    }
}

/// Whether a misplaced tile shares its current column or row with its
/// goal position.
pub open spec fn pair_aligned(p: (Coord, Coord)) -> bool {
    p.0.x == p.1.x || p.0.y == p.1.y
}

/// The misplaced tiles among the first `k` cells that sit in their goal
/// row or goal column, in cell order.
pub open spec fn aligned_to(s: Seq<u16>, g: Seq<u16>, n: int, k: int) -> Seq<(Coord, Coord)>
    decreases k,
{
    if k <= 0 {
        Seq::empty()
    } else {
        let p = (coord_at(k - 1, n), coord_at(pos_of(g, s[k - 1]), n));
        aligned_to(s, g, n, k - 1) + if s[k - 1] != 0 && s[k - 1] != g[k - 1] && pair_aligned(p) {
            seq![p]
        } else {
            Seq::empty()
        }
    }
}

/// Whether the two aligned tiles `a` (earlier in cell order) and `b`
/// (later) are in linear conflict: they share the line that is also both
/// their goal line, and their goal order is the reverse of their current
/// order.
pub open spec fn pair_conflict(a: (Coord, Coord), b: (Coord, Coord)) -> bool {
    ((a.0.x == a.1.x && a.0.x == b.0.x && a.1.x == b.1.x) || (a.0.y == a.1.y && a.0.y == b.0.y
        && a.1.y == b.1.y)) && (a.1.x > b.1.x || a.1.y > b.1.y)
}

/// Number of conflicts of element `k` of `l` with elements at or after
/// position `j`.
pub open spec fn conflict_from(l: Seq<(Coord, Coord)>, k: int, j: int) -> int
    decreases l.len() - j,
{
    if j < 0 || j >= l.len() {
        0
    } else {
        (if pair_conflict(l[k], l[j]) {
            1int
        } else {
            0int
        }) + conflict_from(l, k, j + 1)
    }
}

/// Number of conflicts among the first `k` elements of `l`, each paired
/// with every later element.
pub open spec fn conflict_to(l: Seq<(Coord, Coord)>, k: int) -> int
    decreases k,
{
    if k <= 0 {
        0
    } else {
        conflict_to(l, k - 1) + conflict_from(l, k - 1, k)
    }
}

/// The linear-conflict count between two boards.
pub open spec fn spec_conflict(s: Seq<u16>, g: Seq<u16>, lines: u8) -> int {
    let l = aligned_to(s, g, lines as int, s.len() as int);
    conflict_to(l, l.len() as int)
}

/// The Manhattan distance tightened by two extra moves per linear
/// conflict; still admissible.
pub open spec fn spec_linear_manhattan(s: Seq<u16>, g: Seq<u16>, lines: u8) -> int {
    spec_manhattan(s, g, lines) + 2 * spec_conflict(s, g, lines)
}

/// Whether the pair `(i, j)` with `i < j` is an inversion: both tiles
/// non-blank and the later one smaller.
pub open spec fn inv_pair(s: Seq<u16>, i: int, j: int) -> bool {
    s[i] != 0 && s[j] != 0 && s[j] < s[i]
}

/// Number of inversions of cell `i` with cells at or after position `j`.
pub open spec fn inv_from(s: Seq<u16>, i: int, j: int) -> int
    decreases s.len() - j,
{
    if j < 0 || j >= s.len() {
        0
    } else {
        (if inv_pair(s, i, j) {
            1int
        } else {
            0int
        }) + inv_from(s, i, j + 1)
    }
}

/// Number of inversions among the first `k` cells, each paired with every
/// later cell.
pub open spec fn inv_to(s: Seq<u16>, k: int) -> int
    decreases k,
{
    if k <= 0 {
        0
    } else {
        inv_to(s, k - 1) + inv_from(s, k - 1, k)
    }
}

/// The inversion count of the board, blank ignored.
pub open spec fn spec_inversions(s: Seq<u16>) -> int {
    inv_to(s, s.len() as int)
}

/// The inversion-parity solvability criterion, relative to the canonical
/// spiral goal: for odd side lengths the inversion count must be odd; for
/// even side lengths the inversion count plus the blank's row distance
/// from the bottom must be odd.
pub open spec fn spec_solvable(s: Seq<u16>, lines: u8) -> bool {
    let inv = spec_inversions(s);
    let blank_bot = lines as int - pos_of(s, 0) / (lines as int);
    if lines as int % 2 == 0 {
        (inv + blank_bot) % 2 == 1
    } else {
        inv % 2 == 1
    }
}

/// The heuristic distance selected by `h`.
pub open spec fn spec_h_of(h: HType, s: Seq<u16>, g: Seq<u16>, lines: u8) -> int {
    match h {
        HType::Hamming => spec_hamming(s, g),
        HType::Manhattan => spec_manhattan(s, g, lines),
        HType::LinearManhattan => spec_linear_manhattan(s, g, lines),
    }
}

/// Partial Hamming sums are between 0 and the number of cells counted.
proof fn lemma_ham_to_bounds(s: Seq<u16>, g: Seq<u16>, k: int)
    requires
        0 <= k,
    ensures
        0 <= ham_to(s, g, k) <= k,
    decreases k,
{
    if k > 0 {
        lemma_ham_to_bounds(s, g, k - 1);
    }
}

/// Partial Manhattan sums are non-negative.
proof fn lemma_man_to_nonneg(s: Seq<u16>, g: Seq<u16>, n: int, k: int)
    requires
        0 <= k,
    ensures
        0 <= man_to(s, g, n, k),
    decreases k,
{
    if k > 0 {
        lemma_man_to_nonneg(s, g, n, k - 1);
    }
}

/// Conflict tail counts are non-negative.
proof fn lemma_conflict_from_nonneg(l: Seq<(Coord, Coord)>, k: int, j: int)
    ensures
        0 <= conflict_from(l, k, j),
    decreases l.len() - j,
{
    if 0 <= j < l.len() {
        lemma_conflict_from_nonneg(l, k, j + 1);
    }
}

/// Conflict counts are non-negative.
proof fn lemma_conflict_to_nonneg(l: Seq<(Coord, Coord)>, k: int)
    ensures
        0 <= conflict_to(l, k),
    decreases k,
{
    if k > 0 {
        lemma_conflict_to_nonneg(l, k - 1);
        lemma_conflict_from_nonneg(l, k - 1, k);
    }
}

/// Every heuristic is non-negative, and the three heuristics stand in a
/// chain: Hamming never exceeds Manhattan, which never exceeds
/// Manhattan-with-linear-conflict. Each misplaced tile contributes 1 to
/// Hamming but at least one whole move to Manhattan, and the conflict
/// term only ever adds.
pub proof fn lemma_heuristic_chain(s: Seq<u16>, g: Seq<u16>, lines: u8)
    requires
        wf_map(s, lines),
        wf_map(g, lines),
    ensures
        0 <= spec_hamming(s, g),
        spec_hamming(s, g) <= spec_manhattan(s, g, lines),
        spec_manhattan(s, g, lines) <= spec_linear_manhattan(s, g, lines),
    decreases s.len(),
{
    lemma_ham_to_bounds(s, g, s.len() as int);
    lemma_ham_le_man(s, g, lines, s.len() as int);
    let l = aligned_to(s, g, lines as int, s.len() as int);
    lemma_conflict_to_nonneg(l, l.len() as int);
}

/// Prefix version of the Hamming-below-Manhattan inequality.
proof fn lemma_ham_le_man(s: Seq<u16>, g: Seq<u16>, lines: u8, k: int)
    requires
        wf_map(s, lines),
        wf_map(g, lines),
        0 <= k <= s.len(),
    ensures
        ham_to(s, g, k) <= man_to(s, g, lines as int, k),
    decreases k,
{
    if k > 0 {
        lemma_ham_le_man(s, g, lines, k - 1);
        let i = k - 1;
        let n = lines as int;
        if s[i] != 0 && s[i] != g[i] {
            assert(g.contains(s[i]));
            assert(exists|j: int| 0 <= j < g.len() && g[j] == s[i]);
            let p = pos_of(g, s[i]);
            assert(0 <= p < g.len() && g[p] == s[i]);
            assert(p != i);
            assert(i == n * (i / n) + i % n) by (nonlinear_arith)
                requires
                    1 <= n,
            {}
            assert(p == n * (p / n) + p % n) by (nonlinear_arith)
                requires
                    1 <= n,
            {}
            assert(cell_dist(s, g, n, i) >= 1);
        }
    }
}

/// Both heuristic distances from a board to itself are zero, and so is
/// the linear-conflict term: a board has no misplaced tiles relative to
/// itself.
pub proof fn lemma_heuristics_at_goal(g: Seq<u16>, lines: u8)
    ensures
        spec_hamming(g, g) == 0,
        spec_manhattan(g, g, lines) == 0,
        spec_conflict(g, g, lines) == 0,
        spec_linear_manhattan(g, g, lines) == 0,
{
    lemma_self_prefixes_zero(g, lines, g.len() as int);
    let l = aligned_to(g, g, lines as int, g.len() as int);
    assert(l.len() == 0);
    assert(conflict_to(l, 0) == 0);
}

/// Prefix sums of every heuristic vanish on identical boards.
proof fn lemma_self_prefixes_zero(g: Seq<u16>, lines: u8, k: int)
    requires
        0 <= k,
    ensures
        ham_to(g, g, k) == 0,
        man_to(g, g, lines as int, k) == 0,
        aligned_to(g, g, lines as int, k) == Seq::<(Coord, Coord)>::empty(),
    decreases k,
{
    if k > 0 {
        lemma_self_prefixes_zero(g, lines, k - 1);
        assert(aligned_to(g, g, lines as int, k) =~= Seq::<(Coord, Coord)>::empty());
    } else {
        assert(aligned_to(g, g, lines as int, k) =~= Seq::<(Coord, Coord)>::empty());
    }
}

/// A zero Hamming prefix sum means every counted cell matches.
proof fn lemma_ham_to_zero(s: Seq<u16>, g: Seq<u16>, k: int)
    requires
        0 <= k,
        ham_to(s, g, k) == 0,
    ensures
        forall|i: int| 0 <= i < k ==> s[i] == 0 || s[i] == #[trigger] g[i],
    decreases k,
{
    if k > 0 {
        lemma_ham_to_bounds(s, g, k - 1);
        lemma_ham_to_zero(s, g, k - 1);
    }
}

/// A heuristic value of zero pins the board to the goal: whichever of
/// the three heuristics is selected, distance zero between well-formed
/// boards of the same size forces the boards to be identical.
pub proof fn lemma_heuristic_zero(h: HType, s: Seq<u16>, g: Seq<u16>, lines: u8)
    requires
        wf_map(s, lines),
        wf_map(g, lines),
        spec_h_of(h, s, g, lines) == 0,
    ensures
        s == g,
{
    lemma_heuristic_chain(s, g, lines);
    lemma_len_bound(s, lines);
    let l = aligned_to(s, g, lines as int, s.len() as int);
    lemma_conflict_to_nonneg(l, l.len() as int);
    lemma_man_to_nonneg(s, g, lines as int, s.len() as int);
    assert(spec_hamming(s, g) == 0);
    lemma_ham_to_zero(s, g, s.len() as int);
    let zs = pos_of(s, 0);
    assert(s.contains(0u16));
    assert(exists|i: int| 0 <= i < s.len() && s[i] == 0);
    assert(0 <= zs < s.len() && s[zs] == 0);
    assert forall|i: int| 0 <= i < s.len() implies s[i] == #[trigger] g[i] by {
        if i != zs {
            assert(s[i] != 0);
        } else {
            assert(g.contains(0u16));
            assert(exists|j: int| 0 <= j < g.len() && g[j] == 0);
            let zg = pos_of(g, 0);
            assert(0 <= zg < g.len() && g[zg] == 0);
            if zg != zs {
                assert(s[zg] != 0);
                assert(s[zg] == g[zg]);
                assert(false);
            }
        }
    }
    assert(s =~= g);
}

/// Every board in the successor list is one legal blank-slide away from
/// the board it was generated from.
pub proof fn lemma_successors_are_successors(s: Seq<u16>, lines: u8)
    ensures
        forall|k: int|
            0 <= k < spec_successors(s, lines).len() ==> is_successor(
                s,
                lines,
                #[trigger] spec_successors(s, lines)[k],
            ),
{
    reveal(spec_successors);
    let up = opt_seq(spec_move_zero(s, lines, Move::Up));
    let down = opt_seq(spec_move_zero(s, lines, Move::Down));
    let right = opt_seq(spec_move_zero(s, lines, Move::Right));
    let left = opt_seq(spec_move_zero(s, lines, Move::Left));
    let all = spec_successors(s, lines);
    assert forall|k: int| 0 <= k < all.len() implies is_successor(s, lines, #[trigger] all[k]) by {
        let t = all[k];
        if k < up.len() {
            assert(t == up[k]);
            assert(spec_move_zero(s, lines, Move::Up) == Some(t));
        } else if k < up.len() + down.len() {
            assert(t == down[k - up.len()]);
            assert(spec_move_zero(s, lines, Move::Down) == Some(t));
        } else if k < up.len() + down.len() + right.len() {
            assert(t == right[k - up.len() - down.len()]);
            assert(spec_move_zero(s, lines, Move::Right) == Some(t));
        } else {
            assert(t == left[k - up.len() - down.len() - right.len()]);
            assert(spec_move_zero(s, lines, Move::Left) == Some(t));
        }
    }
}

/// The per-cell Hamming contribution.
pub open spec fn ham_cell(s: Seq<u16>, g: Seq<u16>, i: int) -> int {
    if s[i] != 0 && s[i] != g[i] {
        1int
    } else {
        0int
    }
}

/// Prefix sums over two boards that differ only at `z` and `z2` differ
/// exactly by the contributions of those two cells.
proof fn lemma_two_cell_shift(s: Seq<u16>, t: Seq<u16>, g: Seq<u16>, n: int, z: int, z2: int, k: int)
    requires
        s.len() == t.len(),
        0 <= z < s.len(),
        0 <= z2 < s.len(),
        z != z2,
        forall|i: int| 0 <= i < s.len() && i != z && i != z2 ==> #[trigger] t[i] == s[i],
        0 <= k <= s.len(),
    ensures
        ham_to(t, g, k) == ham_to(s, g, k) + (if z < k {
            ham_cell(t, g, z) - ham_cell(s, g, z)
        } else {
            0int
        }) + (if z2 < k {
            ham_cell(t, g, z2) - ham_cell(s, g, z2)
        } else {
            0int
        }),
        man_to(t, g, n, k) == man_to(s, g, n, k) + (if z < k {
            cell_dist(t, g, n, z) - cell_dist(s, g, n, z)
        } else {
            0int
        }) + (if z2 < k {
            cell_dist(t, g, n, z2) - cell_dist(s, g, n, z2)
        } else {
            0int
        }),
    decreases k,
{
    if k > 0 {
        lemma_two_cell_shift(s, t, g, n, z, z2, k - 1);
        let i = k - 1;
        if i != z && i != z2 {
            assert(t[i] == s[i]);
            assert(ham_cell(t, g, i) == ham_cell(s, g, i));
            assert(cell_dist(t, g, n, i) == cell_dist(s, g, n, i));
        }
    }
}

/// One blank-slide lowers the Hamming and the Manhattan distance to any
/// fixed goal by at most one: the board before the move is at most one
/// farther than the board after it.
pub proof fn lemma_admissible_step(s: Seq<u16>, g: Seq<u16>, lines: u8, t: Seq<u16>)
    requires
        wf_map(s, lines),
        wf_map(g, lines),
        is_successor(s, lines, t),
    ensures
        spec_hamming(s, g) <= spec_hamming(t, g) + 1,
        spec_manhattan(s, g, lines) <= spec_manhattan(t, g, lines) + 1,
{
    let n = lines as int;
    let mov = choose|mov: Move| spec_move_zero(s, lines, mov) == Some(t);
    let z = pos_of(s, 0);
    lemma_len_bound(s, lines);
    assert(s.contains(0u16));
    assert(exists|i: int| 0 <= i < s.len() && s[i] == 0);
    assert(0 <= z < s.len() && s[z] == 0);
    let x = z % n + move_delta(mov).0;
    let y = z / n + move_delta(mov).1;
    let z2 = y * n + x;
    assert(t == s.update(z, s[z2]).update(z2, 0u16));
    assert(z == n * (z / n) + z % n) by (nonlinear_arith)
        requires
            1 <= n,
    {}
    assert(0 <= z2 < s.len() && z2 % n == x && z2 / n == y) by (nonlinear_arith)
        requires
            z2 == y * n + x,
            0 <= x < n,
            0 <= y < n,
            s.len() == n * n,
    {}
    assert(z2 != z) by {
        if z2 == z {
            assert(move_delta(mov).0 == 0 && move_delta(mov).1 == 0);
        }
    }
    assert(abs_i(z2 % n - z % n) + abs_i(z2 / n - z / n) == 1);
    let v = s[z2];
    assert(v != 0);
    assert(t[z] == v && t[z2] == 0);
    assert(forall|i: int|
        0 <= i < s.len() && i != z && i != z2 ==> #[trigger] t[i] == s[i]);
    lemma_two_cell_shift(s, t, g, n, z, z2, s.len() as int);
    // Hamming: the blank's old cell contributes nothing on `s` and the
    // moved tile contributes at most one.
    assert(ham_cell(s, g, z) == 0);
    assert(ham_cell(t, g, z2) == 0);
    assert(ham_cell(s, g, z2) <= 1);
    assert(ham_cell(t, g, z) >= 0);
    // Manhattan: the moved tile's distance changes by at most one step.
    assert(cell_dist(s, g, n, z) == 0) by {
        assert(s[z] == 0);
    }
    assert(cell_dist(t, g, n, z2) == 0);
    assert(g.contains(v));
    assert(exists|i: int| 0 <= i < g.len() && g[i] == v);
    let p = pos_of(g, v);
    assert(0 <= p < g.len() && g[p] == v);
    assert(cell_dist(s, g, n, z2) <= cell_dist(t, g, n, z) + 1) by {
        if v == g[z2] {
        } else if v == g[z] {
            lemma_pos_of(g, lines, z);
            assert(p == z);
            assert(cell_dist(s, g, n, z2) == abs_i(z2 % n - z % n) + abs_i(z2 / n - z / n));
        } else {
            assert(cell_dist(s, g, n, z2) == abs_i(z2 % n - p % n) + abs_i(z2 / n - p / n));
            assert(cell_dist(t, g, n, z) == abs_i(z % n - p % n) + abs_i(z / n - p / n));
            assert(abs_i(z2 % n - p % n) <= abs_i(z % n - p % n) + abs_i(z2 % n - z % n));
            assert(abs_i(z2 / n - p / n) <= abs_i(z / n - p / n) + abs_i(z2 / n - z / n));
        }
    }
    assert(cell_dist(t, g, n, z) >= 0);
}

/// A legal blank-slide of a well-formed board gives a well-formed board.
pub proof fn lemma_successor_wf(s: Seq<u16>, lines: u8, t: Seq<u16>)
    requires
        wf_map(s, lines),
        is_successor(s, lines, t),
    ensures
        wf_map(t, lines),
{
    let n = lines as int;
    let mov = choose|mov: Move| spec_move_zero(s, lines, mov) == Some(t);
    let z = pos_of(s, 0);
    lemma_len_bound(s, lines);
    assert(s.contains(0u16));
    assert(exists|i: int| 0 <= i < s.len() && s[i] == 0);
    assert(0 <= z < s.len() && s[z] == 0);
    let x = z % n + move_delta(mov).0;
    let y = z / n + move_delta(mov).1;
    let z2 = y * n + x;
    assert(0 <= z2 < s.len()) by (nonlinear_arith)
        requires
            z2 == y * n + x,
            0 <= x < n,
            0 <= y < n,
            s.len() == n * n,
    {}
    lemma_swap_wf(s, lines, z, z2);
}

/// Admissibility: on any board from which the goal can be reached in
/// `k` blank-slides, the Hamming and the Manhattan distance to the goal
/// are at most `k` — both heuristics never overestimate the true
/// remaining cost, and with the chain lemma neither does the
/// conflict-tightened Manhattan distance overestimate it by less.
pub proof fn lemma_admissibility(s: Seq<u16>, g: Seq<u16>, lines: u8, k: nat)
    requires
        wf_map(s, lines),
        wf_map(g, lines),
        reachable_in(s, lines, g, k),
    ensures
        spec_hamming(s, g) <= k,
        spec_manhattan(s, g, lines) <= k,
    decreases k,
{
    if k == 0 {
        assert(s == g);
        lemma_heuristics_at_goal(g, lines);
    } else {
        let mid = choose|m: Seq<u16>|
            is_successor(s, lines, m) && reachable_in(m, lines, g, (k - 1) as nat);
        lemma_successor_wf(s, lines, mid);
        lemma_admissibility(mid, g, lines, (k - 1) as nat);
        lemma_admissible_step(s, g, lines, mid);
    }
}

/// A one-slide successor occurs in the successor list.
pub proof fn lemma_successor_in_list(s: Seq<u16>, lines: u8, t: Seq<u16>)
    requires
        is_successor(s, lines, t),
    ensures
        exists|si: int|
            0 <= si < spec_successors(s, lines).len() && spec_successors(s, lines)[si] == t,
{
    reveal(spec_successors);
    let mov = choose|mov: Move| spec_move_zero(s, lines, mov) == Some(t);
    let up = opt_seq(spec_move_zero(s, lines, Move::Up));
    let down = opt_seq(spec_move_zero(s, lines, Move::Down));
    let right = opt_seq(spec_move_zero(s, lines, Move::Right));
    let all = spec_successors(s, lines);
    match mov {
        Move::Up => {
            assert(all[0] == t);
        },
        Move::Down => {
            assert(all[up.len() as int] == t);
        },
        Move::Right => {
            assert(all[up.len() as int + down.len() as int] == t);
        },
        Move::Left => {
            assert(all[up.len() as int + down.len() as int + right.len() as int] == t);
        },
    }
}

/// The base-`m` numeric code of a cell sequence, most significant cell
/// last.
pub open spec fn board_code(s: Seq<u16>, m: int) -> int
    decreases s.len(),
{
    if s.len() == 0 {
        0
    } else {
        board_code(s.drop_last(), m) * m + s.last()
    }
}

/// A cell sequence with values below `m` has a code below `m ^ len`.
pub proof fn lemma_board_code_bounds(s: Seq<u16>, m: int)
    requires
        1 <= m,
        forall|i: int| 0 <= i < s.len() ==> (#[trigger] s[i]) < m,
    ensures
        0 <= board_code(s, m) < vstd::arithmetic::power::pow(m, s.len()),
    decreases s.len(),
{
    reveal(vstd::arithmetic::power::pow);
    if s.len() == 0 {
    } else {
        let head = s.drop_last();
        assert(forall|i: int| 0 <= i < head.len() ==> (#[trigger] head[i]) < m);
        lemma_board_code_bounds(head, m);
        let p = vstd::arithmetic::power::pow(m, head.len());
        assert(vstd::arithmetic::power::pow(m, s.len()) == m * p);
        assert(0 <= board_code(head, m) * m + s.last() < m * p) by (nonlinear_arith)
            requires
                0 <= board_code(head, m) < p,
                0 <= s.last() < m,
                1 <= m,
        {}
    }
}

/// Equal codes of equally long bounded cell sequences force equal
/// sequences: the code is an injection of the board space into
/// `0 .. m ^ len`.
pub proof fn lemma_board_code_injective(s: Seq<u16>, t: Seq<u16>, m: int)
    requires
        s.len() == t.len(),
        1 <= m,
        forall|i: int| 0 <= i < s.len() ==> (#[trigger] s[i]) < m,
        forall|i: int| 0 <= i < t.len() ==> (#[trigger] t[i]) < m,
        board_code(s, m) == board_code(t, m),
    ensures
        s == t,
    decreases s.len(),
{
    if s.len() == 0 {
        assert(s =~= t);
    } else {
        let hs = s.drop_last();
        let ht = t.drop_last();
        assert(forall|i: int| 0 <= i < hs.len() ==> (#[trigger] hs[i]) < m);
        assert(forall|i: int| 0 <= i < ht.len() ==> (#[trigger] ht[i]) < m);
        lemma_board_code_bounds(hs, m);
        lemma_board_code_bounds(ht, m);
        assert(s.last() == t.last() && board_code(hs, m) == board_code(ht, m))
            by (nonlinear_arith)
            requires
                board_code(hs, m) * m + s.last() == board_code(ht, m) * m + t.last(),
                0 <= s.last() < m,
                0 <= t.last() < m,
                board_code(hs, m) >= 0,
                board_code(ht, m) >= 0,
        {}
        lemma_board_code_injective(hs, ht, m);
        assert(s =~= hs.push(s.last()));
        assert(t =~= ht.push(t.last()));
        assert(s =~= t);
    }
}

/// A well-formed board has between 1 and `255 * 255` cells.
pub proof fn lemma_len_bound(s: Seq<u16>, lines: u8)
    requires
        wf_map(s, lines),
    ensures
        1 <= s.len() <= 65025,
{
    assert(1 <= (lines as int) * (lines as int) <= 65025) by (nonlinear_arith)
        requires
            1 <= lines as int <= 255,
    {}
}

/// In a well-formed board, `pos_of` of a value the board contains is its
/// unique index; in particular `pos_of(s, 0)` is the blank's index.
pub proof fn lemma_pos_of(s: Seq<u16>, lines: u8, i: int)
    requires
        wf_map(s, lines),
        0 <= i < s.len(),
    ensures
        pos_of(s, s[i]) == i,
{
    assert(0 <= i < s.len() && s[i] == s[i]);
    let j = pos_of(s, s[i]);
    assert(0 <= j < s.len() && s[j] == s[i]);
    if i != j {
        assert(false);
    }
}

/// `find_zero_from(s, k)` finds the first blank at or after `k`.
proof fn lemma_find_zero_from(s: Seq<u16>, k: int, z: int, found: bool)
    requires
        0 <= k,
        found ==> k <= z < s.len() && s[z] == 0 && forall|j: int| k <= j < z ==> s[j] != 0,
        !found ==> forall|j: int| k <= j < s.len() ==> s[j] != 0,
    ensures
        found ==> find_zero_from(s, k) == Some(z),
        !found ==> find_zero_from(s, k) is None,
    decreases s.len() - k,
{
    if k >= s.len() {
    } else if s[k] == 0 {
    } else {
        lemma_find_zero_from(s, k + 1, z, found);
    }
}

/// `z_of` picks the first index holding `0`, with fallback `0`.
proof fn lemma_z_of_first(s: Seq<u16>, z: int, found: bool)
    requires
        found ==> 0 <= z < s.len() && s[z] == 0 && forall|j: int| 0 <= j < z ==> s[j] != 0,
        !found ==> z == 0 && forall|j: int| 0 <= j < s.len() ==> s[j] != 0,
    ensures
        z_of(s) == z,
{
    lemma_find_zero_from(s, 0, z, found);
}

/// Swapping the blank with another cell keeps the board a permutation.
proof fn lemma_swap_wf(s: Seq<u16>, lines: u8, z: int, z2: int)
    requires
        wf_map(s, lines),
        0 <= z < s.len(),
        0 <= z2 < s.len(),
        s[z] == 0,
    ensures
        wf_map(s.update(z, s[z2]).update(z2, 0u16), lines),
{
    let t = s.update(z, s[z2]).update(z2, 0u16);
    assert(t.len() == s.len());
    assert forall|i: int| 0 <= i < t.len() implies (#[trigger] t[i]) < t.len() by {
        if i == z2 {
        } else if i == z {
            assert(t[i] == s[z2]);
        } else {
            assert(t[i] == s[i]);
        }
    }
    assert forall|i: int, j: int|
        #![trigger t[i], t[j]]
        0 <= i < t.len() && 0 <= j < t.len() && i != j implies t[i] != t[j] by {
        let vi = if i == z2 { 0u16 } else if i == z { s[z2] } else { s[i] };
        let vj = if j == z2 { 0u16 } else if j == z { s[z2] } else { s[j] };
        assert(t[i] == vi && t[j] == vj);
    }
    assert forall|v: u16| v < t.len() implies #[trigger] t.contains(v) by {
        assert(s.contains(v));
        let i = choose|i: int| 0 <= i < s.len() && s[i] == v;
        if i == z {
            assert(t[z2] == 0 && s[z] == 0);
            assert(t[z2] == v);
            assert(t.contains(v)) by {
                assert(0 <= z2 < t.len() && t[z2] == v);
            }
        } else if i == z2 {
            assert(t[z] == v);
            assert(t.contains(v)) by {
                assert(0 <= z < t.len() && t[z] == v);
            }
        } else {
            assert(t[i] == v);
            assert(t.contains(v)) by {
                assert(0 <= i < t.len() && t[i] == v);
            }
        }
    }
}

} // verus!
