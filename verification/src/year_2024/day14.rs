//! Growing a palm tree from branch segments: each segment walks a number
//! of steps in one of six directions.

use vstd::prelude::*;

verus! {

/// A position in the growth lattice.
pub type Pos = (i32, i32, i32);

/// One branch segment: a direction letter and a step count.
pub struct Segment {
    pub direction: char,
    pub length: u32,
}

impl Segment {
    /// Reads a segment such as `U12`: the direction letter, then the
    /// decimal step count.
    pub fn new(input: &Vec<char>) -> (r: Option<Segment>)
        ensures
            match r {
                Some(s) => input@.len() >= 2 && s.direction == input@[0]
                    && crate::text::is_dec_literal(input@.subrange(1, input@.len() as int))
                    && s.length as int == crate::text::dec_value(
                    input@.subrange(1, input@.len() as int),
                ),
                None => input@.len() < 2 || !crate::text::is_dec_literal(
                    input@.subrange(1, input@.len() as int),
                ) || crate::text::dec_value(input@.subrange(1, input@.len() as int)) > u32::MAX,
            },
    {
        if input.len() < 2 {
            return None;
        }
        let digits = crate::text::subvec(input, 1, input.len());
        match crate::text::parse_u64(&digits) {
            None => None,
            Some(v) => {
                if v <= u32::MAX as u64 {
                    Some(Segment { direction: input[0], length: v as u32 })
                } else {
                    None
                }
            },
        }
    }
}

/// One step in a direction: up, down, right, left, forward or back.
pub open spec fn step_spec(p: Pos, dir: char) -> Pos {
    if dir == 'U' {
        ((p.0 + 1) as i32, p.1, p.2)
    } else if dir == 'D' {
        ((p.0 - 1) as i32, p.1, p.2)
    } else if dir == 'R' {
        (p.0, (p.1 + 1) as i32, p.2)
    } else if dir == 'L' {
        (p.0, (p.1 - 1) as i32, p.2)
    } else if dir == 'F' {
        (p.0, p.1, (p.2 + 1) as i32)
    } else if dir == 'B' {
        (p.0, p.1, (p.2 - 1) as i32)
    } else {
        p
    }
}

/// Moves one step in the named direction; an unknown letter stands still.
pub fn step(p: Pos, dir: char) -> (r: Pos)
    requires
        i32::MIN < p.0 < i32::MAX,
        i32::MIN < p.1 < i32::MAX,
        i32::MIN < p.2 < i32::MAX,
    ensures
        r == step_spec(p, dir),
{
    let (x, y, z) = p;
    match dir {
        'U' => (x + 1, y, z),
        'D' => (x - 1, y, z),
        'R' => (x, y + 1, z),
        'L' => (x, y - 1, z),
        'F' => (x, y, z + 1),
        'B' => (x, y, z - 1),
        _ => (x, y, z),
    }
}

/// The trunk height after the first `i` segments: `U` climbs, `D` descends,
/// the other directions stay level.
pub open spec fn height_after(segs: Seq<Segment>, i: int) -> int
    decreases i when i >= 0
{
    if i <= 0 {
        0
    } else {
        let s = segs[i - 1];
        height_after(segs, i - 1) + (if s.direction == 'U' {
            s.length as int
        } else if s.direction == 'D' {
            -(s.length as int)
        } else {
            0
        })
    }
}

/// The greatest trunk height reached within the first `i` segments.
pub open spec fn max_height_upto(segs: Seq<Segment>, i: int) -> int
    decreases i when i >= 0
{
    if i <= 0 {
        0
    } else {
        let h = height_after(segs, i);
        let m = max_height_upto(segs, i - 1);
        if segs[i - 1].direction == 'U' && h > m {
            h
        } else {
            m
        }
    }
}

/// The height of a branch: the greatest height its segments reach.  The
/// running height may not drop below zero nor outgrow the counter.
#[verifier::loop_isolation(false)]
pub fn get_height(segments: &Vec<Segment>) -> (r: u32)
    requires
        forall|i: int|
            0 <= i <= segments@.len() ==> 0 <= #[trigger] height_after(segments@, i) <= u32::MAX,
    ensures
        r == max_height_upto(segments@, segments@.len() as int),
{
    let mut max_height: u32 = 0;
    let mut height: u32 = 0;
    let mut i: usize = 0;
    while i < segments.len()
        invariant
            0 <= i <= segments@.len(),
            height == height_after(segments@, i as int),
            max_height == max_height_upto(segments@, i as int),
            max_height <= u32::MAX,
        decreases segments@.len() - i,
    {
        let segment = &segments[i];
        proof {
            assert(height_after(segments@, i + 1) >= 0);
            assert(height_after(segments@, i + 1) <= u32::MAX);
            assert(segments@[i as int] == *segment);
        }
        if segment.direction == 'U' {
            height = height + segment.length;
            if height > max_height {
                max_height = height;
            }
        } else if segment.direction == 'D' {
            height = height - segment.length;
        }
        i = i + 1;
    }
    max_height
}

} // verus!
