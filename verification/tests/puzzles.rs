//! Tests for the text helpers, the argument handling, and the smaller
//! puzzle routines.

use everybody_codes::args::{get_default_input, ArgError, RunArgs};
use everybody_codes::text::{parse_i64, parse_u64, push_decimal, split_lines, subvec};
use everybody_codes::year_2024::{
    day01, day02, day03, day04, day05, day08, day09, day12, day13, day14, day15, day17, day18,
};
use everybody_codes::{run_solution, Answer, RunError};
use std::collections::VecDeque;

fn chars(s: &str) -> Vec<char> {
    s.chars().collect()
}

fn grid_of(rows: &[&str]) -> Vec<Vec<char>> {
    rows.iter().map(|r| r.chars().collect()).collect()
}

#[test]
fn push_decimal_writes_plain_numbers() {
    let mut out = Vec::new();
    push_decimal(&mut out, 0);
    push_decimal(&mut out, 1234567890);
    assert_eq!(out.iter().collect::<String>(), "01234567890");
}

#[test]
fn parse_u64_reads_digit_strings() {
    assert_eq!(parse_u64(&chars("123")), Some(123));
    assert_eq!(parse_u64(&chars("0")), Some(0));
    assert_eq!(parse_u64(&chars("18446744073709551615")), Some(u64::MAX));
    assert_eq!(parse_u64(&chars("18446744073709551616")), None);
    assert_eq!(parse_u64(&chars("12a")), None);
    assert_eq!(parse_u64(&chars("")), None);
}

#[test]
fn parse_i64_reads_signed_numbers() {
    assert_eq!(parse_i64(&chars("-42")), Some(-42));
    assert_eq!(parse_i64(&chars("42")), Some(42));
    assert_eq!(parse_i64(&chars("-9223372036854775808")), Some(i64::MIN));
    assert_eq!(parse_i64(&chars("-9223372036854775809")), None);
    assert_eq!(parse_i64(&chars("-")), None);
}

#[test]
fn split_lines_matches_str_lines() {
    for text in ["a\nbc\r\nd", "a\nbc\n", "", "\n\n", "one line"] {
        let got = split_lines(&chars(text));
        let want: Vec<Vec<char>> = text.lines().map(|l| l.chars().collect()).collect();
        assert_eq!(got, want, "splitting {text:?}");
    }
}

#[test]
fn subvec_copies_a_range() {
    assert_eq!(subvec(&chars("hello"), 1, 4), chars("ell"));
}

#[test]
fn default_input_path_is_zero_padded() {
    assert_eq!(get_default_input(2024, 5, 1), "input/year_2024/day05/part1.txt");
    assert_eq!(get_default_input(2024, 19, 3), "input/year_2024/day19/part3.txt");
}

#[test]
fn parse_args_fills_defaults() {
    let a = RunArgs::parse(None, None, None, None, Some(2024), Some(19), Some(2)).unwrap();
    assert_eq!((a.year, a.day, a.part), (2024, 19, 2));
    assert_eq!(a.input_file, "input/year_2024/day19/part2.txt");
    let b = RunArgs::parse(
        Some(2024),
        Some(1),
        Some(3),
        Some("data.txt".to_string()),
        None,
        None,
        None,
    )
    .unwrap();
    assert_eq!((b.year, b.day, b.part), (2024, 1, 3));
    assert_eq!(b.input_file, "data.txt");
}

#[test]
fn parse_args_reports_each_failure() {
    assert!(matches!(
        RunArgs::parse(None, None, None, None, None, None, None),
        Err(ArgError::NoYear)
    ));
    assert!(matches!(
        RunArgs::parse(Some(2024), None, None, None, None, None, None),
        Err(ArgError::NoDay)
    ));
    assert!(matches!(
        RunArgs::parse(Some(2024), Some(1), Some(4), None, None, None, None),
        Err(ArgError::InvalidPart(4))
    ));
    assert!(matches!(
        RunArgs::parse(Some(2024), Some(1), None, None, None, None, None),
        Err(ArgError::NoPart)
    ));
}

#[test]
fn run_solution_dispatches_by_year_and_day() {
    let args = RunArgs {
        year: 2024,
        day: 1,
        part: 1,
        input_file: String::new(),
    };
    match run_solution(&args, &chars("ABC")) {
        Ok(Answer::Num(v)) => assert_eq!(v, 4),
        other => panic!("unexpected {:?}", other.map(|a| a.to_text())),
    }
    let unknown = RunArgs {
        year: 2024,
        day: 2,
        part: 1,
        input_file: String::new(),
    };
    assert!(matches!(run_solution(&unknown, &chars("x")), Err(RunError::UnknownSolution)));
    let decrypt = RunArgs {
        year: 2024,
        day: 19,
        part: 1,
        input_file: String::new(),
    };
    match run_solution(&decrypt, &chars("R\n\nm<a\n>bc\ndef\n")) {
        Ok(Answer::Text(s)) => assert_eq!(s, "m"),
        other => panic!("unexpected {:?}", other.map(|a| a.to_text())),
    }
}

#[test]
fn answers_print_as_text() {
    assert_eq!(Answer::Num(-42).to_text(), "-42");
    assert_eq!(Answer::Num(0).to_text(), "0");
    assert_eq!(Answer::Text("ok".to_string()).to_text(), "ok");
}

#[test]
fn creature_scores_add_up() {
    assert_eq!(day01::run(1, &chars("ABBCDx")), 1 + 1 + 3 + 5);
    assert_eq!(day01::run(2, &chars("AxBCDD")), 0 + (1 + 3 + 2) + (5 + 5 + 2));
    assert_eq!(day01::run(3, &chars("xBxAAAx")), 1 + (0 + 0 + 0 + 6));
    assert_eq!(day01::run(3, &chars("BCDDCB")), (1 + 3 + 5 + 6) + (5 + 3 + 1 + 6));
}

#[test]
fn runic_words_are_counted_with_overlaps() {
    let haystacks = vec![chars("ABAB"), chars("BB")];
    let needles = vec![chars("AB"), chars("B")];
    assert_eq!(day02::count_words(&haystacks, &needles), 6);
    assert_eq!(day02::count_words(&vec![chars("xyz")], &needles), 0);
}

#[test]
fn digging_needs_standing_neighbors() {
    let level: Vec<Vec<bool>> = vec![
        vec![true, true, true],
        vec![true, true, true],
        vec![true, true, true],
    ];
    assert!(day03::can_dig(&level, 1, 1));
    assert!(day03::can_dig_diagonaly(&level, 1, 1));
    assert!(!day03::can_dig(&level, 0, 1));
    let mut holed = level.clone();
    holed[0][1] = false;
    assert!(!day03::can_dig(&holed, 1, 1));
    holed[0][1] = true;
    holed[0][0] = false;
    assert!(day03::can_dig(&holed, 1, 1));
    assert!(!day03::can_dig_diagonaly(&holed, 1, 1));
}

#[test]
fn hammering_levels_all_nails() {
    assert_eq!(day04::count_min_strikes(&vec![3, 1, 2]), 3);
    assert_eq!(day04::count_min_strikes(&vec![5]), 0);
    assert_eq!(day04::count_min_strikes(&vec![-2, 4]), 6);
}

#[test]
fn the_heads_shout_together() {
    let columns: Vec<VecDeque<i64>> = vec![
        VecDeque::from(vec![3, 9]),
        VecDeque::from(vec![4]),
        VecDeque::from(vec![5]),
        VecDeque::from(vec![6]),
    ];
    assert_eq!(day05::shout_value(&columns), 3456);
    let wide: Vec<VecDeque<i64>> = vec![
        VecDeque::from(vec![42]),
        VecDeque::from(vec![1]),
        VecDeque::from(vec![2]),
        VecDeque::from(vec![3]),
    ];
    assert_eq!(day05::shout_value(&wide), 42010203);
}

#[test]
fn a_clapper_joins_the_next_column() {
    let mut columns: Vec<VecDeque<i64>> = vec![
        VecDeque::from(vec![3, 9]),
        VecDeque::from(vec![4]),
        VecDeque::from(vec![5]),
        VecDeque::from(vec![6]),
    ];
    day05::dance_a_round(&mut columns, 0);
    assert_eq!(columns[0], VecDeque::from(vec![9]));
    assert_eq!(columns[1], VecDeque::from(vec![3, 4]));
    // A clapper that walks past the column's end comes back up its far side.
    let mut walked: Vec<VecDeque<i64>> = vec![
        VecDeque::from(vec![4]),
        VecDeque::from(vec![7, 8]),
        VecDeque::from(vec![5]),
        VecDeque::from(vec![6]),
    ];
    day05::dance_a_round(&mut walked, 0);
    assert_eq!(walked[1], VecDeque::from(vec![7, 4, 8]));
}

#[test]
fn pyramid_width_times_missing_blocks() {
    // Layers use 1, 4, 9, 16, ... blocks in total.
    assert_eq!(day08::build_pyramid(13), (2 * 4 - 1) * (16 - 13));
    assert_eq!(day08::build_pyramid(1), 0);
}

#[test]
fn greedy_beetles_take_large_stamps_first() {
    let stamps = vec![1, 3, 5, 10];
    assert_eq!(day09::count_min_beetles_greedy(&stamps, 7), 3);
    assert_eq!(day09::count_min_beetles_greedy(&stamps, 10), 1);
    assert_eq!(day09::count_min_beetles_greedy(&stamps, 0), 0);
    assert_eq!(day09::count_min_beetles_greedy(&stamps, 28), 4);
}

#[test]
fn ranking_scores_for_meteors() {
    // A meteor straight above the top catapult is hit on the flat stretch.
    assert_eq!(day12::ranking_score_to_meteor(0, 5, 9), Some(5));
    // Unreachable: too high for the climb.
    assert_eq!(day12::ranking_score_to_meteor(0, 9, 5), None);
    // Falling phase: the meeting time must divide evenly.
    assert_eq!(day12::ranking_score_to_meteor(2, 3, 5), Some(6));
}

#[test]
fn platform_distances_use_the_dial() {
    assert_eq!(day13::get_height('S'), 0);
    assert_eq!(day13::get_height('7'), 7);
    assert_eq!(day13::get_dist('1', '9'), 3);
    assert_eq!(day13::get_dist('4', '6'), 3);
    assert_eq!(day13::get_dist('5', '5'), 1);
}

#[test]
fn maze_positions_and_neighbors() {
    let maze = grid_of(&["#S#", "1#2", "3E4"]);
    assert_eq!(day13::get_pos(&maze, 'E'), Some((2, 1)));
    assert_eq!(day13::get_pos(&maze, 'Z'), None);
    assert_eq!(day13::get_neighbors(&maze, 1, 0), vec![(2, 0)]);
    assert_eq!(day13::get_neighbors(&maze, 2, 1), vec![(2, 2), (2, 0)]);
}

#[test]
fn segments_parse_and_branches_measure() {
    let seg = day14::Segment::new(&chars("U12")).unwrap();
    assert_eq!((seg.direction, seg.length), ('U', 12));
    assert!(day14::Segment::new(&chars("U")).is_none());
    assert!(day14::Segment::new(&chars("Ux2")).is_none());
    assert_eq!(day14::step((0, 0, 0), 'F'), (0, 0, 1));
    assert_eq!(day14::step((3, 2, 1), 'D'), (2, 2, 1));
    let branch: Vec<day14::Segment> = vec![
        day14::Segment { direction: 'U', length: 5 },
        day14::Segment { direction: 'D', length: 2 },
        day14::Segment { direction: 'U', length: 4 },
        day14::Segment { direction: 'R', length: 9 },
    ];
    assert_eq!(day14::get_height(&branch), 7);
}

#[test]
fn herbs_fill_their_bits() {
    assert_eq!(day15::add_herb(0, 'A'), 0b000001);
    assert_eq!(day15::add_herb(0b000001, 'H'), 0b000011);
    assert_eq!(day15::add_herb(0b000011, 'L'), 0b100011);
    assert_eq!(day15::add_herb(0b000011, '.'), 0b000011);
    let map = grid_of(&["#.#", ".E~", "#.#"]);
    assert_eq!(day15::get_neighbors(&map, 1, 1), vec![(0, 1), (2, 1), (1, 0)]);
}

#[test]
fn star_distance_is_taxicab() {
    assert_eq!(day17::compute_dist((1, 5), (4, 2)), 6);
    assert_eq!(day17::compute_dist((2, 2), (2, 2)), 0);
}

#[test]
fn flooding_reads_openings_and_palms() {
    let map = grid_of(&["##.##", "#P.P#", "#..##"]);
    let (starts, palms) = day18::parse_map(&map);
    assert_eq!(starts, vec![(0, 2), (2, 1), (2, 2)]);
    assert_eq!(palms, 2);
    assert_eq!(day18::get_neighbors(&map, 1, 2), vec![(0, 2), (1, 3), (2, 2), (1, 1)]);
}
