//! Shooting targets and meteors with catapults whose projectiles climb at
//! forty-five degrees, fly flat, then fall.

use vstd::prelude::*;

verus! {

/// The ranking score for hitting a falling meteor from the catapult at
/// height `row`: the meteor starts at `(x, y)` and falls one cell per step
/// while the projectile flies.  `None` when that catapult cannot hit it.
pub open spec fn ranking_score_spec(row: int, x: int, y: int) -> Option<int> {
    if y + row < x {
        None
    } else if y + 2 * row <= 2 * x {
        Some((row + 1) * (x - row))
    } else if x + y <= row {
        None
    } else if (x + y - row) % 3 != 0 {
        None
    } else {
        Some((row + 1) * ((x + y - row) / 3))
    }
}

/// The ranking score for hitting the meteor at `(x, y)` from the catapult
/// at height `row`, for the three catapult heights.
pub fn ranking_score_to_meteor(row: usize, x: usize, y: usize) -> (r: Option<u32>)
    requires
        row <= 2,
        x <= 0x4000_0000,
        y <= 0x4000_0000,
    ensures
        match r {
            Some(v) => ranking_score_spec(row as int, x as int, y as int) == Some(v as int),
            None => ranking_score_spec(row as int, x as int, y as int) is None,
        },
{
    if y + row < x {
        return None;
    }
    if y + 2 * row <= 2 * x {
        proof {
            assert((row + 1) * (x - row) <= 0xC000_0000) by (nonlinear_arith)
                requires
                    row <= 2,
                    row <= x <= 0x4000_0000,
            ;
        }
        return Some(((row + 1) * (x - row)) as u32);
    }
    if x + y <= row {
        return None;
    }
    if (x + y - row) % 3 != 0 {
        return None;
    }
    proof {
        vstd::arithmetic::div_mod::lemma_div_is_ordered(
            (x + y - row) as int,
            0x8000_0000,
            3,
        );
        assert((row + 1) * ((x + y - row) / 3) <= 0x8000_0000) by (nonlinear_arith)
            requires
                row <= 2,
                0 <= (x + y - row) / 3 <= 0x2AAA_AAAA,
        ;
    }
    Some(((row + 1) * ((x + y - row) / 3)) as u32)
}

} // verus!
