//! Tests for the grid decryption engine.

use everybody_codes::year_2024::day19::{
    compute_cycles, compute_round_mapping, decrypt_cycle, decrypt_grid, decrypt_message,
    parse_input, rotate_grid, run, DecryptError,
};

fn grid_of(rows: &[&str]) -> Vec<Vec<char>> {
    rows.iter().map(|r| r.chars().collect()).collect()
}

fn key_of(s: &str) -> Vec<char> {
    s.chars().collect()
}

/// The decrypted grid, built from the engine's own cycle pieces.
fn decrypt_via_cycles(grid: &Vec<Vec<char>>, key: &Vec<char>, nb_rounds: u32) -> Vec<Vec<char>> {
    let mapping = compute_round_mapping(grid, key);
    let cycles = compute_cycles(&mapping);
    let mut out = vec![vec!['.'; grid[0].len()]; grid.len()];
    for cycle in &cycles {
        decrypt_cycle(grid, &mut out, cycle, nb_rounds);
    }
    out
}

/// One round simulated the slow way: every interior ring turned in place.
fn naive_round(grid: &mut Vec<Vec<char>>, key: &Vec<char>, key_index: &mut usize) {
    let m = grid.len();
    let n = grid[0].len();
    for row in 1..m - 1 {
        for col in 1..n - 1 {
            let mut positions = [
                (row - 1, col - 1),
                (row - 1, col),
                (row - 1, col + 1),
                (row, col + 1),
                (row + 1, col + 1),
                (row + 1, col),
                (row + 1, col - 1),
                (row, col - 1),
            ];
            if key[*key_index] == 'R' {
                positions.reverse();
            }
            let tmp = grid[positions[0].0][positions[0].1];
            for i in 0..7 {
                grid[positions[i].0][positions[i].1] =
                    grid[positions[i + 1].0][positions[i + 1].1];
            }
            grid[positions[7].0][positions[7].1] = tmp;
            *key_index = (*key_index + 1) % key.len();
        }
    }
}

#[test]
fn one_clockwise_rotation_moves_the_ring() {
    // One interior cell only: the whole border is its ring.
    let grid = grid_of(&["abc", "def", "ghi"]);
    let key = key_of("R");
    let out = decrypt_via_cycles(&grid, &key, 1);
    let expected = grid_of(&["dab", "gec", "hif"]);
    assert_eq!(out, expected);
}

#[test]
fn zero_rounds_returns_the_grid_unchanged() {
    let grid = grid_of(&["abcd", "efgh", "ijkl", "mnop", "qrst"]);
    let key = key_of("RLR");
    let out = decrypt_via_cycles(&grid, &key, 0);
    assert_eq!(out, grid);
}

#[test]
fn mapping_is_a_permutation() {
    // Every coordinate appears exactly once as a mapping source.
    let grid = grid_of(&["abcde", "fghij", "klmno", "pqrst", "uvwxy"]);
    let key = key_of("RL");
    let mapping = compute_round_mapping(&grid, &key);
    let mut seen = vec![vec![0u32; 5]; 5];
    for row in &mapping {
        for &(r, c) in row {
            seen[r][c] += 1;
        }
    }
    assert!(seen.iter().all(|row| row.iter().all(|&v| v == 1)));
}

#[test]
fn cycles_list_every_coordinate_exactly_once() {
    let grid = grid_of(&["abcdefg", "hijklmn", "opqrstu", "vwxyzAB", "CDEFGHI", "JKLMNOP",
        "QRSTUVW"]);
    let key = key_of("RL");
    let mapping = compute_round_mapping(&grid, &key);
    let cycles = compute_cycles(&mapping);
    let mut seen = vec![vec![0u32; 7]; 7];
    for cycle in &cycles {
        for &(r, c) in cycle {
            seen[r][c] += 1;
        }
    }
    assert!(seen.iter().all(|row| row.iter().all(|&v| v == 1)));
    assert_eq!(cycles.iter().map(|c| c.len()).sum::<usize>(), 49);
}

#[test]
fn each_cycle_is_periodic_in_the_round_count() {
    let grid = grid_of(&["abcdefg", "hijklmn", "opqrstu", "vwxyzAB", "CDEFGHI", "JKLMNOP",
        "QRSTUVW"]);
    let key = key_of("RL");
    let mapping = compute_round_mapping(&grid, &key);
    let cycles = compute_cycles(&mapping);
    for cycle in &cycles {
        let k = cycle.len() as u32;
        for n in [0u32, 1, 5] {
            let mut a = vec![vec!['.'; 7]; 7];
            let mut b = vec![vec!['.'; 7]; 7];
            decrypt_cycle(&grid, &mut a, cycle, n);
            decrypt_cycle(&grid, &mut b, cycle, n + k);
            assert_eq!(a, b);
        }
    }
}

#[test]
fn cycle_decryption_matches_naive_simulation() {
    let grid = grid_of(&["abcde", "fghij", "klmno", "pqrst", "uvwxy"]);
    let key = key_of("RLRRL");
    let mut simulated = grid.clone();
    for n in 1u32..=5 {
        let mut key_index = 0usize;
        naive_round(&mut simulated, &key, &mut key_index);
        let fast = decrypt_via_cycles(&grid, &key, n);
        assert_eq!(fast, simulated, "round {n}");
    }
}

#[test]
fn fixed_border_of_degenerate_grid_never_moves() {
    // Too narrow for any interior cell: every cell keeps its place.
    let grid = grid_of(&[">ab<c", "defgh"]);
    let key = key_of("RLRL");
    let out = decrypt_via_cycles(&grid, &key, 1048576000);
    assert_eq!(out, grid);
    assert_eq!(decrypt_message(&grid, &key, 1048576000), Ok("ab".to_string()));
}

#[test]
fn message_after_one_rotation() {
    // The marker pair assembles on the top row after one clockwise turn.
    let grid = grid_of(&["m<a", ">bc", "def"]);
    let key = key_of("R");
    assert_eq!(decrypt_message(&grid, &key, 1), Ok("m".to_string()));
}

#[test]
fn large_round_count_reduces_modulo_the_cycle_length() {
    // The single ring has length 8, and 1048576000 is a multiple of 8.
    let grid = grid_of(&[">q<", "abc", "def"]);
    let key = key_of("R");
    let big = decrypt_message(&grid, &key, 1048576000);
    let zero = decrypt_message(&grid, &key, 0);
    assert_eq!(big, zero);
    assert_eq!(big, Ok("q".to_string()));
    let big1 = decrypt_message(&grid, &key, 1048576001);
    let one = decrypt_message(&grid, &key, 1);
    assert_eq!(big1, one);
}

#[test]
fn missing_message_is_reported() {
    let grid = grid_of(&["abc", "def", "ghi"]);
    let key = key_of("L");
    assert_eq!(decrypt_message(&grid, &key, 4), Err(DecryptError::MessageNotFound));
}

#[test]
fn extraction_takes_the_latest_opening_marker() {
    let grid = grid_of(&[">a>bc<d"]);
    assert_eq!(decrypt_grid(&grid), Ok("bc".to_string()));
}

#[test]
fn extraction_skips_a_closing_marker_without_opening() {
    let grid = grid_of(&["<ab", ">x<"]);
    assert_eq!(decrypt_grid(&grid), Ok("x".to_string()));
}

#[test]
fn parse_input_accepts_a_key_and_grid() {
    let lines: Vec<Vec<char>> =
        vec!["RL".chars().collect(), "".chars().collect(), "abc".chars().collect(),
            "def".chars().collect(), "ghi".chars().collect()];
    let (key, grid) = parse_input(&lines).unwrap();
    assert_eq!(key, key_of("RL"));
    assert_eq!(grid, grid_of(&["abc", "def", "ghi"]));
}

#[test]
fn parse_input_rejects_bad_shapes() {
    let empty_key: Vec<Vec<char>> =
        vec![Vec::new(), Vec::new(), "abc".chars().collect(), "def".chars().collect(),
            "ghi".chars().collect()];
    assert_eq!(parse_input(&empty_key), Err(DecryptError::MalformedInput));
    let ragged: Vec<Vec<char>> =
        vec!["R".chars().collect(), Vec::new(), "abc".chars().collect(), "de".chars().collect(),
            "ghi".chars().collect()];
    assert_eq!(parse_input(&ragged), Err(DecryptError::MalformedInput));
    let small: Vec<Vec<char>> =
        vec!["R".chars().collect(), Vec::new(), "ab".chars().collect(), "cd".chars().collect()];
    assert_eq!(parse_input(&small), Err(DecryptError::MalformedInput));
}

#[test]
fn run_decrypts_a_full_input() {
    let text: Vec<char> = "R\n\nm<a\n>bc\ndef\n".chars().collect();
    assert_eq!(run(1, &text), Ok("m".to_string()));
    let bad: Vec<char> = "R\nabc\n".chars().collect();
    assert_eq!(run(1, &bad), Err(DecryptError::MalformedInput));
}

#[test]
fn rotate_grid_turns_the_mapping_ring() {
    let mut mapping: Vec<Vec<(usize, usize)>> = (0..3)
        .map(|r| (0..3).map(|c| (r, c)).collect())
        .collect();
    rotate_grid(&mut mapping, 1, 1, 'L');
    // Counter-clockwise: the top-left slot takes its clockwise neighbor.
    assert_eq!(mapping[0][0], (0, 1));
    assert_eq!(mapping[1][1], (1, 1));
}
