//! Two-dimensional cell coordinates on an `n` by `n` board.
//!
//! Coordinates are zero-based and may leave the board (negative or too
//! large values) so that an illegal blank-slide can be detected after the
//! fact with [`Coord::is_out_of_table`].

use vstd::prelude::*;

verus! {

/// A cell position; `x` is the column, `y` is the row.
#[derive(Clone, Copy, Debug, PartialEq, Eq, Structural)]
pub struct Coord {
    pub x: i16,
    pub y: i16,
}

impl Coord {
    /// Builds the coordinate `(x, y)`.
    pub fn new(x: i16, y: i16) -> (r: Self)
        ensures
            r.x == x,
            r.y == y,
    {
        Self { x, y }
    }

    /// Converts a linear cell index into a coordinate on a board with
    /// `col` columns: `abs == y * col + x` with `0 <= x < col`.
    pub fn from_abs(abs: u32, col: u8) -> (r: Self)
        requires
            col > 0,
            abs / (col as u32) <= i16::MAX,
        ensures
            r.x == abs as int % col as int,
            r.y == abs as int / col as int,
    {
        let y = abs / col as u32;
        let x = abs % col as u32;
        Self::new(x as i16, y as i16)
    }

    /// Converts the coordinate back into a linear cell index.
    pub fn to_abs(&self, col: u8) -> (r: u32)
        requires
            0 <= self.x,
            0 <= self.y,
            self.y * col as int + self.x <= u32::MAX,
        ensures
            r == self.y * col as int + self.x,
    {
        self.y as u32 * col as u32 + self.x as u32
    }

    /// Moves one column to the right.
    pub fn inc_x(&mut self)
        requires
            old(self).x < i16::MAX,
        ensures
            final(self).x == old(self).x + 1,
            final(self).y == old(self).y,
    {
        self.x += 1;
    }

    /// Moves one row down.
    pub fn inc_y(&mut self)
        requires
            old(self).y < i16::MAX,
        ensures
            final(self).x == old(self).x,
            final(self).y == old(self).y + 1,
    {
        self.y += 1;
    }

    /// Moves one column to the left.
    pub fn dec_x(&mut self)
        requires
            old(self).x > i16::MIN,
        ensures
            final(self).x == old(self).x - 1,
            final(self).y == old(self).y,
    {
        self.x -= 1;
    }

    /// Moves one row up.
    pub fn dec_y(&mut self)
        requires
            old(self).y > i16::MIN,
        ensures
            final(self).x == old(self).x,
            final(self).y == old(self).y - 1,
    {
        self.y -= 1;
    }

    /// Whether the coordinate lies outside the `col` by `col` board.
    pub fn is_out_of_table(&self, col: u8) -> (r: bool)
        ensures
            r == !(0 <= self.x < col as int && 0 <= self.y < col as int),
    {
        if self.x < 0 || self.x >= col as i16 || self.y < 0 || self.y >= col as i16 {
            true
        } else {
            false
        }
    }
}

} // verus!
