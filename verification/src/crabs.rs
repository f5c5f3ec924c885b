//! Fuel accounting for crab-submarine alignment: under the second cost
//! model, moving a distance `d` costs the triangular number `1 + 2 + … + d`.

use vstd::prelude::*;

verus! {

/// The cost of moving `distance` steps when each further step costs one more
/// unit than the last: exactly `distance * (distance + 1) / 2`, computed
/// without overflow in two exact halves.
pub fn part2_cost_to_move(distance: i32) -> (r: i32)
    requires
        0 <= distance,
        distance * (distance + 1) <= 2 * i32::MAX,
    ensures
        2 * r == distance * (distance + 1),
{
    proof {
        assert((distance as int) < i32::MAX) by (nonlinear_arith)
            requires
                0 <= distance,
                distance * (distance + 1) <= 2 * i32::MAX,
        ;
    }
    let h = distance / 2;
    if distance % 2 == 0 {
        proof {
            assert(distance == 2 * h);
            assert(2 * ((distance + 1) * h) == distance * (distance + 1) && 0 <= (distance + 1)
                * h) by (nonlinear_arith)
                requires
                    distance == 2 * h,
                    0 <= distance,
            ;
        }
        (distance + 1) * h
    } else {
        proof {
            assert(distance == 2 * h + 1);
            assert(2 * ((distance + 1) * h + (h + 1)) == distance * (distance + 1) && 0 <= (
            distance + 1) * h && 0 <= h) by (nonlinear_arith)
                requires
                    distance == 2 * h + 1,
                    0 <= distance,
            ;
            assert((distance + 1) / 2 == h + 1);
        }
        (distance + 1) * h + (distance + 1) / 2
    }
}

} // verus!
