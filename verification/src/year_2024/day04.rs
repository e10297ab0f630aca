//! Hammering nails level: every strike lowers one nail by one.

use vstd::prelude::*;

verus! {

/// The smallest nail height from position `i` on.
pub open spec fn min_from(s: Seq<i32>, i: int) -> int
    decreases s.len() - i when i >= 0
{
    if i + 1 >= s.len() {
        s[i] as int
    } else if s[i] as int <= min_from(s, i + 1) {
        s[i] as int
    } else {
        min_from(s, i + 1)
    }
}

/// The strikes to bring every nail from position `i` on down to height `m`.
pub open spec fn strike_sum(s: Seq<i32>, i: int, m: int) -> int
    decreases s.len() - i when i >= 0
{
    if i >= s.len() {
        0
    } else {
        (s[i] as int - m) + strike_sum(s, i + 1, m)
    }
}

/// The smallest height is no higher than any nail.
proof fn lemma_min_from_le(s: Seq<i32>, i: int, j: int)
    requires
        0 <= i <= j < s.len(),
    ensures
        min_from(s, i) <= s[j],
    decreases j - i,
{
    if i < j {
        lemma_min_from_le(s, i + 1, j);
    }
}

/// The smallest height is the height of one of the nails.
proof fn lemma_min_from_exists(s: Seq<i32>, i: int)
    requires
        0 <= i < s.len(),
    ensures
        exists|j: int| i <= j < s.len() && min_from(s, i) == #[trigger] s[j],
    decreases s.len() - i,
{
    if i + 1 < s.len() {
        lemma_min_from_exists(s, i + 1);
        if s[i] as int <= min_from(s, i + 1) {
            assert(min_from(s, i) == s[i]);
        }
    } else {
        assert(min_from(s, i) == s[i]);
    }
}

/// A value no higher than any nail, and reached by one of them, is the
/// smallest height.
proof fn lemma_min_is_min(s: Seq<i32>, v: int)
    requires
        s.len() > 0,
        forall|j: int| 0 <= j < s.len() ==> v <= #[trigger] s[j],
        exists|j: int| 0 <= j < s.len() && v == #[trigger] s[j],
    ensures
        min_from(s, 0) == v,
{
    lemma_min_from_exists(s, 0);
    let w = choose|w: int| 0 <= w < s.len() && v == s[w];
    lemma_min_from_le(s, 0, w);
}

/// No strike is wasted when no nail sits below the target height.
proof fn lemma_strike_sum_nonneg(s: Seq<i32>, i: int, m: int)
    requires
        0 <= i <= s.len(),
        forall|j: int| 0 <= j < s.len() ==> m <= #[trigger] s[j],
    ensures
        strike_sum(s, i, m) >= 0,
    decreases s.len() - i,
{
    if i < s.len() {
        lemma_strike_sum_nonneg(s, i + 1, m);
    }
}

/// The fewest strikes that level all nails: each nail is hammered down to
/// the smallest height.
#[verifier::loop_isolation(false)]
pub fn count_min_strikes(nails: &Vec<i32>) -> (r: i32)
    requires
        nails@.len() > 0,
        strike_sum(nails@, 0, min_from(nails@, 0)) <= i32::MAX,
    ensures
        r == strike_sum(nails@, 0, min_from(nails@, 0)),
{
    let ghost s = nails@;
    let mut min_nail = nails[0];
    let mut i: usize = 1;
    while i < nails.len()
        invariant
            1 <= i <= s.len(),
            forall|j: int| 0 <= j < i ==> min_nail <= #[trigger] s[j],
            exists|j: int| 0 <= j < i && min_nail == #[trigger] s[j],
        decreases s.len() - i,
    {
        if nails[i] < min_nail {
            min_nail = nails[i];
        }
        i = i + 1;
    }
    proof {
        lemma_min_is_min(s, min_nail as int);
    }
    let ghost m = min_from(s, 0);
    let mut total: i32 = 0;
    let mut i: usize = 0;
    while i < nails.len()
        invariant
            0 <= i <= s.len(),
            min_nail == m,
            forall|j: int| 0 <= j < s.len() ==> m <= #[trigger] s[j],
            strike_sum(s, 0, m) == total + strike_sum(s, i as int, m),
            0 <= total,
            strike_sum(s, 0, m) <= i32::MAX,
        decreases s.len() - i,
    {
        proof {
            lemma_strike_sum_nonneg(s, i + 1, m);
        }
        total = total + (nails[i] - min_nail);
        i = i + 1;
    }
    proof {
        lemma_strike_sum_nonneg(s, i as int, m);
    }
    total
}

} // verus!
