use sudoku_solver::board_info::{digit_of, BoardInfo};
use sudoku_solver::candidate_set::CandidateSet;
use sudoku_solver::grid::BoxRegion;
use sudoku_solver::singles::SinglesMap;

#[test]
fn full_set_holds_nine_values() {
    let s = CandidateSet::new();
    assert_eq!(s.0, 0x1FF);
    assert_eq!(s.len(), 9);
    assert!(s.has_values());
    assert!(!s.is_single());
    assert_eq!(s.value(), None);
    for v in 1..=9u8 {
        assert!(s.contains(v));
    }
}

#[test]
fn full_set_values_add_up_to_checksum() {
    let s = CandidateSet::new();
    let values = s.iter();
    assert_eq!(values, vec![1, 2, 3, 4, 5, 6, 7, 8, 9]);
    let sum: u32 = values.iter().map(|v| *v as u32).sum();
    assert_eq!(sum, 45);
    assert_eq!(CandidateSet::checksum(), 45);
}

#[test]
fn single_value_round_trip() {
    for v in 1..=9u8 {
        let s = CandidateSet::single_value(v);
        assert_eq!(s.value(), Some(v));
        assert_eq!(s.len(), 1);
        assert!(s.is_single());
        assert!(s.has_values());
        assert_eq!(s.0, 1u16 << (v - 1));
        assert_eq!(s.iter(), vec![v]);
        for w in 1..=9u8 {
            assert_eq!(s.contains(w), w == v);
        }
    }
}

#[test]
fn remove_takes_one_value_out() {
    let mut s = CandidateSet::new();
    s.remove(2);
    s.remove(4);
    s.remove(6);
    s.remove(8);
    assert_eq!(s.0, 0b1_0101_0101);
    assert_eq!(s.len(), 5);
    assert_eq!(s.iter(), vec![1, 3, 5, 7, 9]);
    assert!(!s.contains(4));
    assert!(s.contains(5));
    assert_eq!(s.value(), None);
}

#[test]
fn remove_of_absent_value_changes_nothing() {
    for bits in 0..=0x1FFu16 {
        for v in 1..=9u8 {
            let before = CandidateSet(bits);
            if !before.contains(v) {
                let mut after = before;
                after.remove(v);
                assert_eq!(after, before);
            } else {
                let mut after = before;
                after.remove(v);
                assert_eq!(after.len() + 1, before.len());
                assert!(!after.contains(v));
                let mut again = after;
                again.remove(v);
                assert_eq!(again, after);
            }
        }
    }
}

#[test]
fn removing_down_to_one_value_solves_the_cell() {
    let mut s = CandidateSet::new();
    for v in [1u8, 3, 5, 6, 7, 8, 9] {
        s.remove(v);
    }
    assert_eq!(s.iter(), vec![2, 4]);
    assert_eq!(s.value(), None);
    s.remove(2);
    assert!(s.is_single());
    assert_eq!(s.value(), Some(4));
    s.remove(4);
    assert_eq!(s.len(), 0);
    assert!(!s.has_values());
    assert!(!s.is_single());
    assert_eq!(s.value(), None);
    assert_eq!(s.iter(), Vec::<u8>::new());
}

#[test]
fn len_counts_the_values_of_every_set() {
    for bits in 0..=0x1FFu16 {
        let s = CandidateSet(bits);
        let listed = s.iter();
        assert_eq!(s.len(), listed.len());
        assert_eq!(s.len(), bits.count_ones() as usize);
        assert_eq!(s.is_single(), listed.len() == 1);
        assert_eq!(s.has_values(), !listed.is_empty());
        if listed.len() == 1 {
            assert_eq!(s.value(), Some(listed[0]));
        } else {
            assert_eq!(s.value(), None);
        }
        for w in listed.windows(2) {
            assert!(w[0] < w[1]);
        }
    }
}

#[test]
fn classic_configuration() {
    let info = BoardInfo::new_9x9();
    assert_eq!(info.side, 9);
    assert_eq!(info.box_side, 3);
    assert_eq!(info.minimum_entries, 17);
    assert_eq!(info.pattern, "_123456789.");
    assert_eq!(info.dimmension(), 81);
}

#[test]
fn alphabet_membership() {
    let info = BoardInfo::new_9x9();
    for c in "_123456789.".chars() {
        assert!(info.accepts(c));
    }
    for c in ['0', 'a', ' ', '-', 'x', '\u{00e9}'] {
        assert!(!info.accepts(c));
    }
}

#[test]
fn digits_are_read_as_numbers() {
    assert_eq!(digit_of('0'), Some(0));
    assert_eq!(digit_of('1'), Some(1));
    assert_eq!(digit_of('9'), Some(9));
    assert_eq!(digit_of('.'), None);
    assert_eq!(digit_of('_'), None);
    assert_eq!(digit_of('a'), None);
    assert_eq!(digit_of('/'), None);
    assert_eq!(digit_of(':'), None);
}

#[test]
fn box_regions() {
    assert_eq!(
        BoxRegion::locate(0, 0, 3),
        BoxRegion { row_start: 0, row_end: 3, col_start: 0, col_end: 3 }
    );
    assert_eq!(
        BoxRegion::locate(1, 2, 3),
        BoxRegion { row_start: 3, row_end: 6, col_start: 6, col_end: 9 }
    );
    assert_eq!(
        BoxRegion::locate(2, 1, 3),
        BoxRegion { row_start: 6, row_end: 9, col_start: 3, col_end: 6 }
    );
}

#[test]
fn singles_keep_the_first_entry_of_a_cell() {
    let mut m = SinglesMap::new();
    assert!(m.is_empty());
    m.insert((1, 2), 5);
    m.insert((0, 0), 7);
    m.insert((1, 2), 9);
    assert_eq!(m.len(), 2);
    assert_eq!(m.get(0), ((1, 2), 5));
    assert_eq!(m.get(1), ((0, 0), 7));
    assert!(m.contains_key((1, 2)));
    assert!(m.contains_key((0, 0)));
    assert!(!m.contains_key((2, 1)));
    assert!(!m.is_empty());
}
