//! Lighting lanterns with beetle stamps of fixed brightness values.

use vstd::prelude::*;

verus! {

/// The number of beetles the greedy strategy sends: take as many of the
/// largest of the four stamps as fit, then of the next, down to the
/// smallest.
pub open spec fn greedy_spec(stamps: Seq<u32>, b: int) -> int {
    let s3 = stamps[3] as int;
    let s2 = stamps[2] as int;
    let s1 = stamps[1] as int;
    let s0 = stamps[0] as int;
    b / s3 + (b % s3) / s2 + ((b % s3) % s2) / s1 + (((b % s3) % s2) % s1) / s0
}

/// Counts the beetles the greedy strategy sends for one lantern of
/// brightness `brightness`, with the four basic stamps.
pub fn count_min_beetles_greedy(stamps: &Vec<u32>, brightness: u32) -> (r: u32)
    requires
        stamps@.len() >= 4,
        forall|i: int| 0 <= i < 4 ==> #[trigger] stamps@[i] >= 1,
    ensures
        r == greedy_spec(stamps@, brightness as int),
{
    proof {
        lemma_div_mod_shrinks(brightness as int, stamps@[3] as int);
        lemma_div_mod_shrinks(brightness as int % stamps@[3] as int, stamps@[2] as int);
        lemma_div_mod_shrinks(
            brightness as int % stamps@[3] as int % stamps@[2] as int,
            stamps@[1] as int,
        );
        lemma_div_mod_shrinks(
            brightness as int % stamps@[3] as int % stamps@[2] as int % stamps@[1] as int,
            stamps@[0] as int,
        );
    }
    let mut nb_beetles: u32 = 0;
    let mut b = brightness;
    nb_beetles = nb_beetles + b / stamps[3];
    b = b % stamps[3];
    nb_beetles = nb_beetles + b / stamps[2];
    b = b % stamps[2];
    nb_beetles = nb_beetles + b / stamps[1];
    b = b % stamps[1];
    nb_beetles = nb_beetles + b / stamps[0];
    nb_beetles
}

/// Splitting off one stamp size leaves no more work than there was: the
/// quotient plus the remainder never exceed the dividend.
proof fn lemma_div_mod_shrinks(b: int, s: int)
    requires
        b >= 0,
        s >= 1,
    ensures
        b / s + b % s <= b,
        b / s >= 0,
        0 <= b % s < s,
{
    vstd::arithmetic::div_mod::lemma_fundamental_div_mod(b, s);
    vstd::arithmetic::div_mod::lemma_mod_bound(b, s);
    vstd::arithmetic::div_mod::lemma_div_pos_is_pos(b, s);
    assert(s * (b / s) >= b / s) by (nonlinear_arith)
        requires
            s >= 1,
            b / s >= 0,
    ;
}

} // verus!
