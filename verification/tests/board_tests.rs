use sudoku_solver::candidate_set::CandidateSet;
use sudoku_solver::classic_board::ClassicBoard;
use sudoku_solver::errors::{BoardError, Sector};

const REFERENCE: &str =
    "123456789456789123789123456234567891567891234891234567345678912678912345912345678";
const EASY: &str =
    "..3.2.6..9..3.5..1..18.64....81.29..7.......8..67.82....26.95..8..2.3..9..5.1.3..";
const EASY_SOLVED: &str =
    "483921657967345821251876493548132976729564138136798245372689514814253769695417382";
const HARD: &str =
    "4.....8.5.3..........7......2.....6.....8.4......1.......6.3.7.5..2.....1.4......";
const HARD_SOLVED: &str =
    "417369825632158947958724316825437169791586432346912758289643571573291684164875293";
const CLASHING: &str =
    "12.4.6.8.....891.....1.3..62.456..1..6.891.34891234...34..78.9..78912345.123456..";
const UNSOLVABLE: &str =
    "46....8.5.3..........7......2.....6.....8.4......1.......6.3.7.5..2.....1.4......";

fn text_of(board: &ClassicBoard) -> String {
    let mut out = String::new();
    for row in 0..9 {
        for col in 0..9 {
            match board.value_at(row, col) {
                Some(v) => out.push((b'0' + v) as char),
                None => out.push('.'),
            }
        }
    }
    out
}

fn cells_of(board: &ClassicBoard) -> Vec<CandidateSet> {
    let mut out = Vec::new();
    for row in 0..9 {
        for col in 0..9 {
            out.push(board.candidates(row, col));
        }
    }
    out
}

fn records_are_lone_unsolved_cells(board: &ClassicBoard) -> bool {
    let found = board.find_unit_frequencies().unwrap();
    for i in 0..found.len() {
        let ((row, col), value) = found.get(i);
        let cell = board.candidates(row, col);
        if cell.len() <= 1 || !cell.contains(value) {
            return false;
        }
        for j in 0..i {
            if found.get(j).0 == (row, col) {
                return false;
            }
        }
        let mut witnessed = false;
        for unit in 0..27 {
            let mut inside = false;
            let mut others = 0;
            for k in 0..9 {
                let pos = board.unit_position(unit, k);
                let peer = board.candidates(pos.0, pos.1);
                if pos == (row, col) {
                    inside = true;
                } else if peer.len() != 1 && peer.contains(value) {
                    others += 1;
                }
            }
            if inside && others == 0 {
                witnessed = true;
            }
        }
        if !witnessed {
            return false;
        }
    }
    true
}

fn units_are_permutations(text: &str) -> bool {
    let v: Vec<u32> = text.chars().map(|c| c as u32 - 48).collect();
    for u in 0..9 {
        let mut row = 0u32;
        let mut col = 0u32;
        let mut bx = 0u32;
        let (mut rs, mut cs, mut bs) = (0, 0, 0);
        for i in 0..9 {
            row |= 1 << v[u * 9 + i];
            col |= 1 << v[i * 9 + u];
            let cell = (u / 3 * 3 + i / 3) * 9 + (u % 3) * 3 + i % 3;
            bx |= 1 << v[cell];
            rs += v[u * 9 + i];
            cs += v[i * 9 + u];
            bs += v[cell];
        }
        if row != 0x3FE || col != 0x3FE || bx != 0x3FE || rs != 45 || cs != 45 || bs != 45 {
            return false;
        }
    }
    true
}

#[test]
fn input_of_80_characters_is_malformed() {
    let input = &REFERENCE[..80];
    assert!(matches!(ClassicBoard::new(input, false), Err(BoardError::InvalidFormat)));
}

#[test]
fn input_of_82_characters_is_malformed() {
    let input = format!("{}1", REFERENCE);
    assert!(matches!(ClassicBoard::new(&input, false), Err(BoardError::InvalidFormat)));
}

#[test]
fn empty_input_is_malformed() {
    assert!(matches!(ClassicBoard::new("", false), Err(BoardError::InvalidFormat)));
}

#[test]
fn character_outside_the_alphabet_is_malformed() {
    let input = format!("0{}", &REFERENCE[1..]);
    assert!(matches!(ClassicBoard::new(&input, false), Err(BoardError::InvalidFormat)));
    let input = format!("{}x", &REFERENCE[..80]);
    assert!(matches!(ClassicBoard::new(&input, false), Err(BoardError::InvalidFormat)));
    let input = format!("{}\u{00e9}", &REFERENCE[..80]);
    assert!(matches!(ClassicBoard::new(&input, false), Err(BoardError::InvalidFormat)));
}

#[test]
fn five_givens_are_not_enough() {
    let input = format!("12345{}", "_".repeat(76));
    assert_eq!(input.len(), 81);
    assert!(matches!(ClassicBoard::new(&input, false), Err(BoardError::NotEnoughEntries)));
}

#[test]
fn sixteen_givens_are_not_enough() {
    let mut text: Vec<char> = HARD.chars().collect();
    text[0] = '.';
    let input: String = text.into_iter().collect();
    assert!(matches!(ClassicBoard::new(&input, false), Err(BoardError::NotEnoughEntries)));
}

#[test]
fn seventeen_givens_are_enough() {
    let board = ClassicBoard::new(HARD, true).unwrap();
    assert!(board.is_verbose());
    assert_eq!(board.value_at(0, 0), Some(4));
    assert_eq!(board.value_at(0, 6), Some(8));
    assert_eq!(board.value_at(8, 2), Some(4));
}

#[test]
fn both_placeholders_are_accepted() {
    let dotted = ClassicBoard::new(EASY, false).unwrap();
    let underscored = ClassicBoard::new(&EASY.replace('.', "_"), false).unwrap();
    assert_eq!(cells_of(&dotted), cells_of(&underscored));
    assert!(!underscored.is_verbose());
}

#[test]
fn given_twice_in_a_row_is_an_invalid_assignment() {
    let input = format!("11{}", &REFERENCE[2..]);
    match ClassicBoard::new(&input, false) {
        Err(BoardError::InvalidAssignment { row, col, value }) => {
            assert_eq!((row, col, value), (0, 1, 1));
        },
        _ => panic!("the second given must be refused"),
    }
}

#[test]
fn two_cells_of_a_box_forced_to_one_value_are_an_invalid_cell() {
    let input = format!(
        "{}{}{}{}{}",
        ".12..7...", "3.4.....7", "569......", ".".repeat(45), "12345678."
    );
    assert_eq!(input.len(), 81);
    match ClassicBoard::new(&input, false) {
        Err(BoardError::InvalidCell { row, col, from }) => {
            assert_eq!((row, col), (0, 0));
            assert_eq!(from, Sector::Quadrant);
        },
        _ => panic!("the box holds two cells forced to 8"),
    }
}

#[test]
fn givens_are_eliminated_around_their_cells() {
    let board = ClassicBoard::new(HARD, false).unwrap();
    assert_eq!(board.candidates(0, 0), CandidateSet::single_value(4));
    for col in 1..9 {
        assert!(!board.candidates(0, col).contains(4));
    }
    for row in 1..9 {
        assert!(!board.candidates(row, 0).contains(4));
    }
    for row in 0..3 {
        for col in 0..3 {
            if (row, col) != (0, 0) {
                assert!(!board.candidates(row, col).contains(4));
            }
        }
    }
    for row in 0..9 {
        for col in 0..9 {
            assert!(board.candidates(row, col).has_values());
        }
    }
}

#[test]
fn reference_grid_without_its_first_given_needs_no_guess() {
    let input = format!("_{}", &REFERENCE[1..]);
    let mut board = ClassicBoard::new(&input, false).unwrap();
    assert!(board.assign_hidden_singles().is_ok());
    assert!(board.is_solved());
    assert!(board.is_valid());
    let mut trail = Vec::new();
    assert!(board.find_solution(&mut trail).is_ok());
    assert!(trail.is_empty());
    assert_eq!(board.value_at(0, 0), Some(1));
    assert_eq!(text_of(&board), REFERENCE);
    assert!(board.solve().is_ok());
    assert_eq!(text_of(&board), REFERENCE);
}

#[test]
fn complete_reference_grid_is_solved_and_valid() {
    let mut board = ClassicBoard::new(REFERENCE, false).unwrap();
    assert!(board.is_solved());
    assert!(board.is_valid());
    for unit in 0..27 {
        assert!(board.check_sector_integrity(unit));
    }
    assert!(board.find_unit_frequencies().unwrap().is_empty());
    assert_eq!(board.find_min_candidates(), ((0, 0), 9));
    assert!(board.solve().is_ok());
    assert_eq!(text_of(&board), REFERENCE);
    assert!(units_are_permutations(&text_of(&board)));
}

#[test]
fn easy_puzzle_is_solved() {
    let mut board = ClassicBoard::new(EASY, false).unwrap();
    assert!(board.solve().is_ok());
    assert!(board.is_solved());
    assert!(board.is_valid());
    assert_eq!(text_of(&board), EASY_SOLVED);
    assert!(units_are_permutations(&text_of(&board)));
}

#[test]
fn hard_puzzle_is_solved_by_guessing() {
    let mut board = ClassicBoard::new(HARD, false).unwrap();
    assert!(board.assign_hidden_singles().is_ok());
    assert!(!board.is_solved());
    assert!(board.find_unit_frequencies().unwrap().is_empty());
    let stalled = cells_of(&board);
    let (cell, count) = board.find_min_candidates();
    assert!(count >= 2);
    assert_eq!(board.candidates(cell.0, cell.1).len(), count);
    for (i, c) in stalled.iter().enumerate() {
        assert!(c.is_single() || c.len() >= count);
        if c.len() == count {
            assert!(cell.0 * 9 + cell.1 <= i);
        }
    }
    let mut trail = Vec::new();
    assert!(board.find_solution(&mut trail).is_ok());
    assert!(!trail.is_empty());
    assert_eq!(trail[0].0, cell);
    assert!(board.is_solved());
    assert!(board.is_valid());
    assert_eq!(text_of(&board), HARD_SOLVED);
    assert!(units_are_permutations(&text_of(&board)));
    for (row, col, value) in trail.iter().map(|e| (e.0 .0, e.0 .1, e.1)) {
        assert_eq!(board.value_at(row, col), Some(value));
    }
}

#[test]
fn assign_of_an_eliminated_value_changes_nothing() {
    let mut board = ClassicBoard::new(HARD, false).unwrap();
    let before = cells_of(&board);
    match board.assign(0, 1, 4) {
        Err(BoardError::InvalidAssignment { row, col, value }) => {
            assert_eq!((row, col, value), (0, 1, 4));
        },
        _ => panic!("4 is not a candidate of the cell"),
    }
    assert_eq!(cells_of(&board), before);
}

#[test]
fn assign_solves_the_cell_and_strips_its_peers() {
    let mut board = ClassicBoard::new(HARD, false).unwrap();
    let before = cells_of(&board);
    assert!(board.candidates(4, 0).contains(7));
    assert!(board.candidates(4, 0).len() > 1);
    assert!(board.assign(4, 0, 7).is_ok());
    assert_eq!(board.candidates(4, 0), CandidateSet::single_value(7));
    assert_eq!(board.value_at(4, 0), Some(7));
    let after = cells_of(&board);
    for i in 0..81 {
        let (row, col) = (i / 9, i % 9);
        for v in 1..=9u8 {
            assert!(before[i].contains(v) || !after[i].contains(v));
        }
        let peer = row == 4 || col == 0 || (row / 3 == 1 && col / 3 == 0);
        if peer && (row, col) != (4, 0) && before[i].len() > 1 {
            assert!(!after[i].contains(7));
        }
    }
}

#[test]
fn remove_candidate_sweeps_row_column_and_box() {
    let mut board = ClassicBoard::new(HARD, false).unwrap();
    let before = cells_of(&board);
    assert_eq!(board.value_at(0, 0), Some(4));
    assert!(board.remove_candidate(0, 0, 4).is_ok());
    assert_eq!(cells_of(&board), before);
}

#[test]
fn frequencies_count_unsolved_cells() {
    let board = ClassicBoard::new(HARD, false).unwrap();
    for unit in 0..27 {
        let freqs = board.count_frequencies(unit);
        assert_eq!(freqs.len(), 9);
        for v in 1..=9u8 {
            let mut expected = 0u8;
            for i in 0..9 {
                let (row, col) = board.unit_position(unit, i);
                let cell = board.candidates(row, col);
                if cell.len() != 1 && cell.contains(v) {
                    expected += 1;
                }
            }
            assert_eq!(freqs[(v - 1) as usize], expected);
        }
    }
}

#[test]
fn unit_positions() {
    let board = ClassicBoard::new(HARD, false).unwrap();
    assert_eq!(board.unit_position(0, 0), (0, 0));
    assert_eq!(board.unit_position(3, 7), (3, 7));
    assert_eq!(board.unit_position(9, 4), (4, 0));
    assert_eq!(board.unit_position(17, 2), (2, 8));
    assert_eq!(board.unit_position(18, 0), (0, 0));
    assert_eq!(board.unit_position(18, 8), (2, 2));
    assert_eq!(board.unit_position(22, 4), (4, 4));
    assert_eq!(board.unit_position(23, 5), (4, 8));
    assert_eq!(board.unit_position(26, 3), (7, 6));
}

#[test]
fn hidden_singles_are_found_in_scan_order() {
    let input = format!(
        "{}{}{}{}{}{}{}{}{}",
        ".........", "...1.....", "......1..", ".1.......", "....5...7", "....23...",
        "..1......", ".........", "234567891"
    );
    let board = ClassicBoard::new(&input, false).unwrap();
    let found = board.find_unit_frequencies().unwrap();
    assert!(!found.is_empty());
    assert_eq!(found.get(0), ((0, 0), 1));
    assert!(records_are_lone_unsolved_cells(&board));
}

#[test]
fn puzzle_without_solution_ends_in_no_solution_found() {
    let mut board = ClassicBoard::new(UNSOLVABLE, false).unwrap();
    assert!(matches!(board.solve(), Err(BoardError::NoSolutionFound)));
    assert!(!board.is_solved());
}

#[test]
fn failed_guess_leaves_the_grid_as_it_was() {
    let mut board = ClassicBoard::new(UNSOLVABLE, false).unwrap();
    assert!(board.assign_hidden_singles().is_ok());
    assert!(!board.is_solved());
    let before = cells_of(&board);
    let mut trail = vec![((9usize, 9usize), 0u8)];
    assert!(matches!(board.guess(&mut trail), Err(BoardError::NoSolutionFound)));
    assert_eq!(cells_of(&board), before);
    assert_eq!(trail, vec![((9, 9), 0)]);
    assert!(matches!(board.find_solution(&mut trail), Err(BoardError::NoSolutionFound)));
    assert_eq!(cells_of(&board), before);
    assert_eq!(trail, vec![((9, 9), 0)]);
}

#[test]
fn solved_cells_that_fail_the_checksum_are_an_invalid_board() {
    let mut board = ClassicBoard::new(CLASHING, false).unwrap();
    assert!(matches!(board.solve(), Err(BoardError::InvalidBoard)));
    assert!(board.is_solved());
    assert!(!board.is_valid());
    assert!(!units_are_permutations(&text_of(&board)));
    let mut failing = 0;
    for unit in 0..27 {
        if !board.check_sector_integrity(unit) {
            failing += 1;
        }
    }
    assert!(failing > 0);
}

#[test]
fn hidden_single_is_the_unsolved_cell_when_a_solved_one_holds_the_value() {
    let mut board = ClassicBoard::new(HARD, false).unwrap();
    let steps = [
        (3, 4, 9, true),
        (7, 7, 4, true),
        (0, 2, 2, true),
        (7, 1, 8, true),
        (4, 1, 7, true),
        (2, 5, 8, false),
        (2, 6, 1, false),
        (3, 4, 5, false),
    ];
    for (row, col, value, ok) in steps {
        assert_eq!(board.assign(row, col, value).is_ok(), ok);
    }
    assert_eq!(board.value_at(4, 5), Some(2));
    assert!(board.candidates(4, 8).len() > 1);
    assert!(board.candidates(4, 8).contains(2));
    assert_eq!(board.count_frequencies(4)[1], 1);
    let found = board.find_unit_frequencies().unwrap();
    assert!(found.contains_key((4, 8)));
    assert!(!found.contains_key((4, 5)));
    for i in 0..found.len() {
        let ((row, col), _) = found.get(i);
        assert!(board.candidates(row, col).len() > 1);
    }
    assert!(records_are_lone_unsolved_cells(&board));
}

#[test]
fn hidden_singles_of_boards_on_the_way_are_lone_unsolved_cells() {
    for input in [EASY, HARD, UNSOLVABLE, CLASHING] {
        let mut board = ClassicBoard::new(input, false).unwrap();
        assert!(records_are_lone_unsolved_cells(&board));
        let _ = board.assign_hidden_singles();
        assert!(records_are_lone_unsolved_cells(&board));
    }
}
