//! The canonical goal arrangement: tiles counting up clockwise in a
//! spiral, with the blank on the spiral's last cell.

use vstd::prelude::*;

verus! {

use crate::utils::spec_snail;
use crate::utils::snail_sort;

/// The spiral goal board of side length `lgth`: the values
/// `1 .. lgth * lgth` followed by the blank, laid out in a clockwise
/// spiral.
pub open spec fn spec_snail_goal(lgth: u8) -> Seq<u16> {
    spec_snail(
        Seq::new(
            ((lgth as int) * (lgth as int)) as nat,
            |i: int|
                if i + 1 < (lgth as int) * (lgth as int) {
                    (i + 1) as u16
                } else {
                    0u16
                },
        ),
        lgth as int,
    )
}

/// Builds the spiral goal board of side length `lgth`.
pub fn create_snail_goal(lgth: u8) -> (r: Vec<u16>)
    requires
        1 <= lgth,
    ensures
        r@ == spec_snail_goal(lgth),
        r@.len() == (lgth as int) * (lgth as int),
{
    proof {
        assert(1 <= (lgth as int) * (lgth as int) <= 65025) by (nonlinear_arith)
            requires
                1 <= lgth as int <= 255,
        {}
    }
    let total = (lgth as usize) * (lgth as usize);
    let mut ret: Vec<u16> = Vec::new();
    let mut i: usize = 0;
    while i < total
        invariant
            0 <= i <= total,
            total == (lgth as int) * (lgth as int),
            total <= 65025,
            ret@.len() == i,
            ret@ =~= Seq::new(
                i as nat,
                |j: int|
                    if j + 1 < (lgth as int) * (lgth as int) {
                        (j + 1) as u16
                    } else {
                        0u16
                    },
            ),
        decreases total - i,
    {
        if i + 1 < total {
            ret.push((i + 1) as u16);
        } else {
            ret.push(0);
        }
        proof {
            assert(ret@ =~= Seq::new(
                (i + 1) as nat,
                |j: int|
                    if j + 1 < (lgth as int) * (lgth as int) {
                        (j + 1) as u16
                    } else {
                        0u16
                    },
            ));
        }
        i += 1;
    }
    snail_sort(&ret, lgth)
}

} // verus!
