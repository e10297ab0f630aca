//! Verified solutions for a collection of grid and number puzzles, with a
//! repeated-rotation grid decryption engine at their heart.

pub mod args;
pub mod text;
pub mod year_2024;

use vstd::prelude::*;

verus! {

use crate::args::RunArgs;

/// A puzzle answer: a number or a piece of text.
pub enum Answer {
    Num(i64),
    Text(String),
}

/// The characters of a signed decimal number.
pub open spec fn int_chars(v: int) -> Seq<char> {
    if v < 0 {
        seq!['-'] + crate::text::dec_chars(-v)
    } else {
        crate::text::dec_chars(v)
    }
}

/// The answer as the text a solver would print.
pub open spec fn answer_chars(a: Answer) -> Seq<char> {
    match a {
        Answer::Num(v) => int_chars(v as int),
        Answer::Text(s) => s@,
    }
}

impl Answer {
    /// The answer as text.
    pub fn to_text(&self) -> (r: String)
        ensures
            r@ == answer_chars(*self),
    {
        match self {
            Answer::Num(v) => {
                let mut out: Vec<char> = Vec::new();
                let mag: u64 = if *v < 0 {
                    out.push('-');
                    (-(*v + 1)) as u64 + 1
                } else {
                    *v as u64
                };
                crate::text::push_decimal(&mut out, mag);
                proof {
                    assert(out@ =~= int_chars(*v as int));
                }
                crate::text::chars_to_string(&out)
            },
            Answer::Text(s) => s.clone(),
        }
    }
}

/// Why a run can fail: no solution for the selected year and day, or the
/// decryption engine rejected its input.
#[derive(Clone, Copy, Debug, PartialEq, Eq, Structural)]
pub enum RunError {
    UnknownSolution,
    Decrypt(crate::year_2024::day19::DecryptError),
}

/// Runs the solution the arguments select, on the given input text.
pub fn run_solution(args: &RunArgs, data: &Vec<char>) -> (r: Result<Answer, RunError>)
    requires
        1 <= args.part <= 3,
        7 * data@.len() <= i64::MAX,
    ensures
        args.year == 2024 && args.day == 1 ==> (r matches Ok(a) && (a matches Answer::Num(v) && v
            == if args.part == 1 {
            crate::year_2024::day01::part1_sum(data@, 0)
        } else if args.part == 2 {
            crate::year_2024::day01::part2_sum(data@, 0)
        } else {
            crate::year_2024::day01::part3_sum(data@, 0)
        })),
        args.year == 2024 && args.day == 19 ==> ({
            let lines = crate::text::spec_lines(data@);
            if !crate::year_2024::day19::input_wf(lines) {
                r == Result::<Answer, RunError>::Err(
                    RunError::Decrypt(crate::year_2024::day19::DecryptError::MalformedInput),
                )
            } else {
                let g = lines.subrange(2, lines.len() as int);
                let m = g.len();
                let n = g[0].len();
                if m * n > usize::MAX / 2 {
                    r == Result::<Answer, RunError>::Err(
                        RunError::Decrypt(crate::year_2024::day19::DecryptError::MalformedInput),
                    )
                } else {
                    let dec = crate::year_2024::day19::power_grid(
                        g,
                        crate::year_2024::day19::round_mapping_spec(m as int, n as int, lines[0]),
                        crate::year_2024::day19::rounds_for_part(args.part as int) as nat,
                    );
                    match r {
                        Ok(a) => a matches Answer::Text(s)
                            && crate::year_2024::day19::grid_has_message(dec) && s@
                            == crate::year_2024::day19::grid_message(dec),
                        Err(e) => e == RunError::Decrypt(
                            crate::year_2024::day19::DecryptError::MessageNotFound,
                        ) && !crate::year_2024::day19::grid_has_message(dec),
                    }
                }
            }
        }),
        !(args.year == 2024 && (args.day == 1 || args.day == 19)) ==> r == Result::<
            Answer,
            RunError,
        >::Err(RunError::UnknownSolution),
{
    if args.year == 2024 && args.day == 1 {
        let v = crate::year_2024::day01::run(args.part, data);
        Ok(Answer::Num(v))
    } else if args.year == 2024 && args.day == 19 {
        match crate::year_2024::day19::run(args.part, data) {
            Ok(s) => Ok(Answer::Text(s)),
            Err(e) => Err(RunError::Decrypt(e)),
        }
    } else {
        Err(RunError::UnknownSolution)
    }
}

} // verus!
