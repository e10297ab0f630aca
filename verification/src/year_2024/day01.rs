//! Scoring creatures named by letters, fought alone, in pairs, or in
//! triples; an `x` marks an empty slot.

use vstd::prelude::*;

verus! {

/// The score of one creature: `B`, `C` and `D` cost 1, 3 and 5 potions,
/// anything else is free.
pub open spec fn score_spec(c: char) -> int {
    if c == 'B' {
        1
    } else if c == 'C' {
        3
    } else if c == 'D' {
        5
    } else {
        0
    }
}

/// A pair costs each creature's score, plus 2 when both slots are filled.
pub open spec fn pair_score(a: char, b: char) -> int {
    if a == 'x' && b == 'x' {
        0
    } else if a == 'x' {
        score_spec(b)
    } else if b == 'x' {
        score_spec(a)
    } else {
        score_spec(a) + score_spec(b) + 2
    }
}

/// A triple costs each creature's score, plus 2 with two slots filled and
/// 6 with three.
pub open spec fn triple_score(a: char, b: char, c: char) -> int {
    if a == 'x' && b == 'x' && c == 'x' {
        0
    } else if a == 'x' && b == 'x' {
        score_spec(c)
    } else if a == 'x' && c == 'x' {
        score_spec(b)
    } else if b == 'x' && c == 'x' {
        score_spec(a)
    } else if a == 'x' {
        score_spec(b) + score_spec(c) + 2
    } else if b == 'x' {
        score_spec(a) + score_spec(c) + 2
    } else if c == 'x' {
        score_spec(a) + score_spec(b) + 2
    } else {
        score_spec(a) + score_spec(b) + score_spec(c) + 6
    }
}

/// The total score of the single fights from position `i` on.
pub open spec fn part1_sum(s: Seq<char>, i: int) -> int
    decreases s.len() - i when i >= 0
{
    if i >= s.len() {
        0
    } else {
        score_spec(s[i]) + part1_sum(s, i + 1)
    }
}

/// The total score of the pair fights from position `i` on.
pub open spec fn part2_sum(s: Seq<char>, i: int) -> int
    decreases s.len() - i when i >= 0
{
    if i + 1 >= s.len() {
        0
    } else {
        pair_score(s[i], s[i + 1]) + part2_sum(s, i + 2)
    }
}

/// The total score of the triple fights from position `i` on.
pub open spec fn part3_sum(s: Seq<char>, i: int) -> int
    decreases s.len() - i when i >= 0
{
    if i + 2 >= s.len() {
        0
    } else {
        triple_score(s[i], s[i + 1], s[i + 2]) + part3_sum(s, i + 3)
    }
}

/// The potion cost of one creature.
pub fn get_score(c: char) -> (r: i64)
    ensures
        r == score_spec(c),
{
    match c {
        'B' => 1,
        'C' => 3,
        'D' => 5,
        _ => 0,
    }
}

proof fn lemma_part1_bound(s: Seq<char>, i: int)
    requires
        0 <= i <= s.len(),
    ensures
        0 <= part1_sum(s, i) <= 5 * (s.len() - i),
    decreases s.len() - i,
{
    if i < s.len() {
        lemma_part1_bound(s, i + 1);
    }
}

/// The total cost of fighting the creatures one at a time.
#[verifier::loop_isolation(false)]
pub fn run_part1(input: &Vec<char>) -> (r: i64)
    requires
        5 * input@.len() <= i64::MAX,
    ensures
        r == part1_sum(input@, 0),
{
    let mut score: i64 = 0;
    let mut i: usize = 0;
    while i < input.len()
        invariant
            0 <= i <= input@.len(),
            part1_sum(input@, 0) == score + part1_sum(input@, i as int),
            0 <= score <= 5 * i,
        decreases input@.len() - i,
    {
        proof {
            lemma_part1_bound(input@, i + 1);
        }
        score = score + get_score(input[i]);
        i = i + 1;
    }
    score
}

/// The total cost of fighting the creatures two at a time.
#[verifier::loop_isolation(false)]
pub fn run_part2(input: &Vec<char>) -> (r: i64)
    requires
        6 * input@.len() <= i64::MAX,
    ensures
        r == part2_sum(input@, 0),
{
    let mut score: i64 = 0;
    let mut i: usize = 0;
    while i < input.len() && input.len() - i > 1
        invariant
            0 <= i <= input@.len() + 1,
            part2_sum(input@, 0) == score + part2_sum(input@, i as int),
            0 <= score <= 6 * i,
        decreases input@.len() - i,
    {
        let a = input[i];
        let b = input[i + 1];
        score = score + if a == 'x' && b == 'x' {
            0
        } else if a == 'x' {
            get_score(b)
        } else if b == 'x' {
            get_score(a)
        } else {
            get_score(a) + get_score(b) + 2
        };
        i = i + 2;
    }
    score
}

/// The total cost of fighting the creatures three at a time.
#[verifier::loop_isolation(false)]
pub fn run_part3(input: &Vec<char>) -> (r: i64)
    requires
        7 * input@.len() <= i64::MAX,
    ensures
        r == part3_sum(input@, 0),
{
    let mut score: i64 = 0;
    let mut i: usize = 0;
    while i < input.len() && input.len() - i > 2
        invariant
            0 <= i <= input@.len() + 2,
            part3_sum(input@, 0) == score + part3_sum(input@, i as int),
            0 <= score <= 7 * i,
        decreases input@.len() - i,
    {
        let a = input[i];
        let b = input[i + 1];
        let c = input[i + 2];
        let fight: i64 = if a == 'x' && b == 'x' && c == 'x' {
            0
        } else if a == 'x' && b == 'x' {
            get_score(c)
        } else if a == 'x' && c == 'x' {
            get_score(b)
        } else if b == 'x' && c == 'x' {
            get_score(a)
        } else if a == 'x' {
            get_score(b) + get_score(c) + 2
        } else if b == 'x' {
            get_score(a) + get_score(c) + 2
        } else if c == 'x' {
            get_score(a) + get_score(b) + 2
        } else {
            get_score(a) + get_score(b) + get_score(c) + 6
        };
        score = score + fight;
        i = i + 3;
    }
    score
}

/// Entry point: the input is the creature line, the part picks the group
/// size.
pub fn run(part: u8, input: &Vec<char>) -> (r: i64)
    requires
        1 <= part <= 3,
        7 * input@.len() <= i64::MAX,
    ensures
        part == 1 ==> r == part1_sum(input@, 0),
        part == 2 ==> r == part2_sum(input@, 0),
        part == 3 ==> r == part3_sum(input@, 0),
{
    if part == 1 {
        run_part1(input)
    } else if part == 2 {
        run_part2(input)
    } else {
        run_part3(input)
    }
}

} // verus!
