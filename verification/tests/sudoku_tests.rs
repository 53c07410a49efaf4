use std::collections::HashSet;
use std::str::FromStr;

use sudoku::board::Board;
use sudoku::coords::Coords;
use sudoku::error::SudokuError;
use sudoku::solver::SolveStage;
use sudoku::square::Square;
use sudoku::text::{digit_to_char, push_decimal, to_decimal_digit};
use sudoku::units::{BoardBoxIterator, BoardColumnIterator, BoardFullIterator, BoardRowIterator};

const PUZZLE: &str = "000090500200010060050002004123000090060000000408501630005903000000000000600700008";

fn set_of(digits: &[u8]) -> HashSet<u8> {
    digits.iter().copied().collect()
}

fn candidates(digits: &[u8]) -> Square {
    Square::Candidate(set_of(digits))
}

fn value_at(board: &Board, x: u8, y: u8) -> Option<u8> {
    match &board.0[(x + 9 * y) as usize] {
        Square::Value(d) => Some(*d),
        Square::Candidate(_) => None,
    }
}

fn run(board: &mut Board) -> Result<SolveStage, SudokuError> {
    let mut stage = SolveStage::Start;
    for _ in 0..1000 {
        stage = board.advance(stage)?;
        if stage == SolveStage::Solved || stage == SolveStage::Stuck {
            break;
        }
    }
    Ok(stage)
}

#[test]
fn coords_new_and_fields() {
    let c = Coords::new(3, 7);
    assert_eq!(c.x, 3);
    assert_eq!(c.y, 7);
}

#[test]
fn coords_validity() {
    assert!(Coords::new(0, 0).is_valid());
    assert!(Coords::new(8, 8).is_valid());
    assert!(!Coords::new(9, 0).is_valid());
    assert!(!Coords::new(0, 9).is_valid());
}

#[test]
fn coords_flat_round_trip() {
    assert_eq!(Coords::new(4, 2).flat(), 22);
    assert_eq!(Coords::from_flat(22), Coords::new(4, 2));
    assert_eq!(Coords::from_flat(80), Coords::new(8, 8));
    for f in 0..81u8 {
        let c = Coords::from_flat(f);
        assert!(c.is_valid());
        assert_eq!(c.flat(), f);
    }
    assert!(!Coords::from_flat(81).is_valid());
}

#[test]
fn square_default_holds_all_digits() {
    assert_eq!(Square::default(), candidates(&[1, 2, 3, 4, 5, 6, 7, 8, 9]));
}

#[test]
fn square_new_with_value_cases() {
    assert_eq!(Square::new_with_value(0).unwrap(), Square::default());
    assert_eq!(Square::new_with_value(7).unwrap(), Square::Value(7));
    assert_eq!(
        Square::new_with_value(12),
        Err(SudokuError::ParseError("Value 12 is not 1-9".to_string()))
    );
    assert_eq!(
        Square::new_with_value(255),
        Err(SudokuError::ParseError("Value 255 is not 1-9".to_string()))
    );
}

#[test]
fn square_try_from_char() {
    assert_eq!(Square::try_from('5').unwrap(), Square::Value(5));
    assert_eq!(Square::try_from('0').unwrap(), Square::default());
    assert_eq!(Square::try_from('x'), Err(SudokuError::ParseError("Not a digit".to_string())));
    assert_eq!(Square::try_from('٣'), Err(SudokuError::ParseError("Not a digit".to_string())));
}

#[test]
fn square_candidates_change() {
    let mut s = Square::default();
    assert!(s.has_candidate(4));
    s.remove_candidate(4);
    assert!(!s.has_candidate(4));
    assert_eq!(s, candidates(&[1, 2, 3, 5, 6, 7, 8, 9]));
    let mut v = Square::Value(4);
    v.remove_candidate(4);
    assert_eq!(v, Square::Value(4));
    assert!(!v.has_candidate(4));
}

#[test]
fn square_equality() {
    assert_eq!(candidates(&[1, 2]), candidates(&[2, 1]));
    assert_ne!(candidates(&[1, 2]), candidates(&[1]));
    assert_ne!(Square::Value(1), candidates(&[1]));
    assert_ne!(Square::Value(1), Square::Value(2));
}

#[test]
fn square_render_pictures() {
    assert_eq!(Square::Value(5).render(), "▒▒▒\n▒5▒\n▒▒▒\n");
    assert_eq!(candidates(&[1, 5, 9]).render(), "1  \n 5 \n  9\n");
    assert_eq!(Square::default().render(), "123\n456\n789\n");
    assert_eq!(Square::Value(42).render(), "▒▒▒\n▒42▒\n▒▒▒\n");
}

#[test]
fn board_parse_ok() {
    let board = Board::from_str(PUZZLE).unwrap();
    assert_eq!(board.0.len(), 81);
    assert_eq!(value_at(&board, 4, 0), Some(9));
    assert_eq!(value_at(&board, 0, 3), Some(1));
    assert_eq!(board.0[0], Square::default());
}

#[test]
fn board_parse_errors() {
    let short = &PUZZLE[..80];
    assert_eq!(
        Board::from_str(short).unwrap_err(),
        SudokuError::ParseError("Digits have length 80, expected 81".to_string())
    );
    let long = format!("{}1", PUZZLE);
    assert_eq!(
        Board::from_str(&long).unwrap_err(),
        SudokuError::ParseError("Digits have length 82, expected 81".to_string())
    );
    let bad = format!("{}a", &PUZZLE[..80]);
    assert_eq!(Board::from_str(&bad).unwrap_err(), SudokuError::ParseError("Not a digit".to_string()));
    assert_eq!(Board::from_str("12a").unwrap_err(), SudokuError::ParseError("Not a digit".to_string()));
    assert_eq!(
        Board::from_str("").unwrap_err(),
        SudokuError::ParseError("Digits have length 0, expected 81".to_string())
    );
}

#[test]
fn board_default_is_blank() {
    let board = Board::default();
    assert_eq!(board.0.len(), 81);
    assert!(board.0.iter().all(|s| *s == Square::default()));
    assert!(board.verify());
    assert_eq!(board.is_complete(), Ok(false));
}

#[test]
fn rows_columns_boxes() {
    let row = Board::get_row(Coords::new(5, 3));
    assert_eq!(row, (0..9).map(|i| Coords::new(i, 3)).collect::<Vec<_>>());
    let column = Board::get_column(Coords::new(5, 3));
    assert_eq!(column, (0..9).map(|i| Coords::new(5, i)).collect::<Vec<_>>());
    let bx = Board::get_box(Coords::new(5, 3));
    let expected: Vec<Coords> = vec![
        Coords::new(3, 3), Coords::new(3, 4), Coords::new(3, 5),
        Coords::new(4, 3), Coords::new(4, 4), Coords::new(4, 5),
        Coords::new(5, 3), Coords::new(5, 4), Coords::new(5, 5),
    ];
    assert_eq!(bx, expected);
}

#[test]
fn neighbours_of_a_square() {
    let pos = Coords::new(4, 4);
    let n = Board::get_neighbours(pos.clone());
    assert_eq!(n.len(), 20);
    assert!(!n.contains(&pos));
    for c in &n {
        assert!(c.x == 4 || c.y == 4 || (c.x / 3 == 1 && c.y / 3 == 1));
    }
    let distinct: HashSet<(u8, u8)> = n.iter().map(|c| (c.x, c.y)).collect();
    assert_eq!(distinct.len(), 20);
    assert_eq!(n[0], Coords::new(4, 0));
    assert_eq!(n[1], Coords::new(0, 4));
    let corner = Board::get_neighbours(Coords::new(0, 0));
    assert_eq!(corner.len(), 20);
    assert!(corner.contains(&Coords::new(2, 2)));
    assert!(!corner.contains(&Coords::new(3, 3)));
}

#[test]
fn unit_iterators() {
    let mut boxes = BoardBoxIterator { index: 0 };
    let first = boxes.next().unwrap();
    assert_eq!(first[0], Coords::new(0, 0));
    for _ in 1..9 {
        assert!(boxes.next().is_some());
    }
    assert!(boxes.next().is_none());
    let mut rows = BoardRowIterator { index: 8 };
    assert_eq!(rows.next().unwrap()[0], Coords::new(0, 8));
    assert!(rows.next().is_none());
    let mut columns = BoardColumnIterator { index: 2 };
    assert_eq!(columns.next().unwrap()[8], Coords::new(2, 8));
    let board = Board::default();
    let mut all: BoardFullIterator = board.into_iter_full();
    let mut count = 0;
    let mut units = Vec::new();
    while let Some(u) = all.next() {
        assert_eq!(u.len(), 9);
        units.push(u);
        count += 1;
    }
    assert_eq!(count, 27);
    assert_eq!(units[4][0], Coords::new(3, 3));
    assert_eq!(units[9], Board::get_row(Coords::new(0, 0)));
    assert_eq!(units[26], Board::get_column(Coords::new(8, 0)));
    assert!(all.next().is_none());
}

#[test]
fn set_and_get_squares() {
    let mut board = Board::default();
    let c = Coords::new(2, 6);
    assert!(board.set_square(&c, Square::Value(3)));
    assert!(!board.set_square(&c, Square::Value(3)));
    assert_eq!(*board.get_square_by_coords(&c), Square::Value(3));
    assert!(board.set_square(&c, Square::default()));
    board.get_mut_square_by_coords(&c).remove_candidate(1);
    assert!(!board.get_square_by_coords(&c).has_candidate(1));
}

#[test]
fn pruning_candidates() {
    let mut board = Board::from_str(PUZZLE).unwrap();
    board.remove_visible_candidates();
    // (0, 0) sees 9, 5, 2, 1, 4 and 6 in its row, column and box.
    assert_eq!(board.0[0], candidates(&[3, 7, 8]));
    assert_eq!(value_at(&board, 4, 0), Some(9));
    let once = board.render();
    board.remove_visible_candidates();
    assert_eq!(board.render(), once);
}

#[test]
fn verify_detects_duplicates() {
    let mut text = String::from("11");
    text.push_str(&"0".repeat(79));
    let board = Board::from_str(&text).unwrap();
    assert!(!board.verify());
    assert_eq!(board.is_complete(), Err(SudokuError::InvalidState));
    let row = Board::get_row(Coords::new(0, 0));
    assert!(!board.verify_single_neighbourhood(&row));
    let column = Board::get_column(Coords::new(0, 0));
    assert!(board.verify_single_neighbourhood(&column));
    let mut odd = Board::default();
    odd.set_square(&Coords::new(0, 0), Square::Value(12));
    assert!(!odd.verify());
}

#[test]
fn digit_and_candidate_queries() {
    let board = Board::from_str(PUZZLE).unwrap();
    let row0 = Board::get_row(Coords::new(0, 0));
    assert!(board.is_digit_set_by_coords(9, &row0));
    assert!(!board.is_digit_set_by_coords(1, &row0));
    assert!(board.is_candidate_set_at_coords(1, &Coords::new(0, 0)));
    assert!(!board.is_candidate_set_at_coords(9, &Coords::new(4, 0)));
    let one_hot = board.get_candidate_one_hot(9, &row0);
    assert_eq!(one_hot, vec![true, true, true, true, false, true, false, true, true]);
}

#[test]
fn hidden_singles_in_a_group() {
    let mut board = Board::default();
    let row0 = Board::get_row(Coords::new(0, 0));
    for x in 0..8u8 {
        board.get_mut_square_by_coords(&Coords::new(x, 0)).remove_candidate(7);
    }
    let singles = board.find_hidden_singles_in_coords_list(&row0);
    assert_eq!(singles.len(), 1);
    assert_eq!(singles[0].0, Coords::new(8, 0));
    assert_eq!(singles[0].1, Square::Value(7));
    let none = Board::default().find_hidden_singles_in_coords_list(&row0);
    assert!(none.is_empty());
}

#[test]
fn naked_singles_found() {
    let mut board = Board::default();
    board.set_square(&Coords::new(1, 2), candidates(&[6]));
    board.set_square(&Coords::new(3, 3), candidates(&[2]));
    let singles = board.find_naked_singles();
    assert_eq!(singles.len(), 2);
    assert_eq!(singles[0].0, Coords::new(1, 2));
    assert_eq!(singles[0].1, Square::Value(6));
    assert_eq!(singles[1].0, Coords::new(3, 3));
    assert_eq!(singles[1].1, Square::Value(2));
}

#[test]
fn fill_values_outcomes() {
    let mut board = Board::default();
    let values = vec![(Coords::new(0, 0), Square::Value(5))];
    assert_eq!(board.fill_values_and_update_candidates(values), Ok(true));
    assert_eq!(value_at(&board, 0, 0), Some(5));
    assert!(!board.0[1].has_candidate(5));
    assert!(board.0[10].has_candidate(5) == false);
    assert!(board.0[80].has_candidate(5));
    let again = vec![(Coords::new(0, 0), Square::Value(5))];
    assert_eq!(board.fill_values_and_update_candidates(again), Ok(false));
    let clash = vec![(Coords::new(1, 0), Square::Value(5))];
    assert_eq!(board.fill_values_and_update_candidates(clash), Err(SudokuError::InvalidState));
    assert_eq!(board.fill_values_and_update_candidates(Vec::new()), Ok(false));
}

#[test]
fn fill_rounds() {
    let mut board = Board::default();
    board.set_square(&Coords::new(4, 4), candidates(&[8]));
    assert_eq!(board.fill_naked_singles(), Ok(true));
    assert_eq!(value_at(&board, 4, 4), Some(8));
    assert_eq!(board.fill_naked_singles(), Ok(false));
    assert_eq!(Board::default().fill_hidden_singles(), Ok(false));
}

#[test]
fn hidden_pairs() {
    let mut board = Board::default();
    let row0 = Board::get_row(Coords::new(0, 0));
    assert!(board.find_hidden_pairs(&row0).is_empty());
    // Digits 1 and 2 only fit in the first two squares of the row.
    for x in 2..9u8 {
        let s = board.get_mut_square_by_coords(&Coords::new(x, 0));
        s.remove_candidate(1);
        s.remove_candidate(2);
    }
    let mut pair = board.find_hidden_pairs(&row0);
    pair.sort();
    assert_eq!(pair, vec![1, 2]);
}

#[test]
fn show_coords_map() {
    let picture = Board::show_coords_on_board(vec![Coords::new(0, 0), Coords::new(8, 8)]);
    let lines: Vec<&str> = picture.split('\n').collect();
    assert_eq!(lines.len(), 10);
    assert_eq!(lines[0], "*        ");
    assert_eq!(lines[4], "         ");
    assert_eq!(lines[8], "        *");
    assert_eq!(picture.len(), 90);
}

#[test]
fn board_render_layout() {
    let board = Board::from_str(PUZZLE).unwrap();
    let text = board.render();
    let lines: Vec<&str> = text.split('\n').collect();
    assert_eq!(lines.len(), 37);
    assert_eq!(lines[0].chars().take(8).collect::<String>(), "123 123 ");
    assert_eq!(lines[1].chars().skip(16).take(4).collect::<String>(), "▒9▒ ");
    assert_eq!(lines[3], "");
}

#[test]
fn solve_sample_puzzle() {
    let mut board = Board::from_str(PUZZLE).unwrap();
    let stage = run(&mut board).unwrap();
    assert!(board.verify());
    if stage == SolveStage::Solved {
        assert_eq!(board.is_complete(), Ok(true));
    }
    assert_eq!(value_at(&board, 4, 0), Some(9));
    assert_eq!(value_at(&board, 8, 8), Some(8));
}

#[test]
fn solve_stages() {
    let mut board = Board::default();
    assert_eq!(board.advance(SolveStage::Start), Ok(SolveStage::CheckComplete));
    assert_eq!(board.advance(SolveStage::CheckComplete), Ok(SolveStage::FillHidden));
    assert_eq!(board.advance(SolveStage::FillHidden), Ok(SolveStage::FillNaked(false)));
    assert_eq!(board.advance(SolveStage::FillNaked(false)), Ok(SolveStage::Stuck));
    assert_eq!(board.advance(SolveStage::FillNaked(true)), Ok(SolveStage::CheckComplete));
    assert_eq!(board.advance(SolveStage::Stuck), Ok(SolveStage::Stuck));
    let solved = "534678912672195348198342567859761423426853791713924856961537284287419635345286179";
    let mut full = Board::from_str(solved).unwrap();
    assert_eq!(full.advance(SolveStage::CheckComplete), Ok(SolveStage::Solved));
    assert_eq!(full.is_complete(), Ok(true));
}

#[test]
fn almost_solved_board_is_finished() {
    let solved = "534678912672195348198342567859761423426853791713924856961537284287419635345286179";
    let holes = format!("0{}0", &solved[1..80]);
    let mut board = Board::from_str(&holes).unwrap();
    assert_eq!(run(&mut board), Ok(SolveStage::Solved));
    assert_eq!(value_at(&board, 0, 0), Some(5));
    assert_eq!(value_at(&board, 8, 8), Some(9));
}

fn placed(board: &Board) -> usize {
    board.0.iter().filter(|s| matches!(s, Square::Value(_))).count()
}

#[test]
fn seeing_is_symmetric() {
    for a in 0..81u8 {
        let ca = Coords::from_flat(a);
        let na = Board::get_neighbours(ca.clone());
        for b in 0..81u8 {
            let cb = Coords::from_flat(b);
            let nb = Board::get_neighbours(cb.clone());
            assert_eq!(na.contains(&cb), nb.contains(&ca));
        }
    }
}

#[test]
fn neighbours_off_the_board() {
    let n = Board::get_neighbours(Coords::new(9, 0));
    assert!(n.contains(&Coords::new(9, 1)));
    assert!(n.contains(&Coords::new(0, 0)));
    assert!(n.contains(&Coords::new(10, 2)));
    assert!(!n.contains(&Coords::new(9, 0)));
    assert_eq!(n.len(), 8 + 9 + 6);
}

#[test]
fn changed_rounds_place_more_digits() {
    let mut board = Board::from_str(PUZZLE).unwrap();
    board.remove_visible_candidates();
    let before = placed(&board);
    let given: Vec<Option<u8>> = (0..81u8).map(|f| value_at(&board, f % 9, f / 9)).collect();
    if board.fill_hidden_singles() == Ok(true) {
        assert!(placed(&board) > before);
    }
    let middle = placed(&board);
    if board.fill_naked_singles() == Ok(true) {
        assert!(placed(&board) > middle);
    }
    for f in 0..81u8 {
        if let Some(d) = given[f as usize] {
            assert_eq!(value_at(&board, f % 9, f / 9), Some(d));
        }
    }
}

#[test]
fn pruned_candidates_never_clash() {
    let mut board = Board::from_str(PUZZLE).unwrap();
    board.remove_visible_candidates();
    for i in 0..81u8 {
        if let Square::Value(v) = board.0[i as usize] {
            for c in Board::get_neighbours(Coords::from_flat(i)) {
                assert!(!board.get_square_by_coords(&c).has_candidate(v));
            }
        }
    }
}

#[test]
fn digit_to_text_helpers() {
    assert_eq!(digit_to_char(7), '7');
    assert_eq!(to_decimal_digit('3'), Some(3));
    assert_eq!(to_decimal_digit('/'), None);
    assert_eq!(to_decimal_digit(':'), None);
    let mut s = String::from("n=");
    push_decimal(&mut s, 1040);
    assert_eq!(s, "n=1040");
    let mut z = String::new();
    push_decimal(&mut z, 0);
    assert_eq!(z, "0");
}

#[test]
fn squares_and_boards_clone() {
    let s = candidates(&[2, 4, 6]);
    assert_eq!(s.clone(), s);
    assert_eq!(Square::Value(3).clone(), Square::Value(3));
    let board = Board::from_str(PUZZLE).unwrap();
    let copy = board.clone();
    assert_eq!(copy.0.len(), 81);
    for i in 0..81 {
        assert_eq!(copy.0[i], board.0[i]);
    }
}

#[test]
fn every_square_has_twenty_neighbours() {
    for f in 0..81u8 {
        assert_eq!(Board::get_neighbours(Coords::from_flat(f)).len(), 20);
    }
}

#[test]
fn every_square_lies_in_three_groups() {
    let board = Board::default();
    let mut all = board.into_iter_full();
    let mut units = Vec::new();
    while let Some(u) = all.next() {
        units.push(u);
    }
    assert_eq!(units.len(), 27);
    for u in &units {
        let distinct: HashSet<(u8, u8)> = u.iter().map(|c| (c.x, c.y)).collect();
        assert_eq!(distinct.len(), 9);
        assert!(u.iter().all(|c| c.is_valid()));
    }
    for f in 0..81u8 {
        let c = Coords::from_flat(f);
        assert_eq!(units.iter().filter(|u| u.contains(&c)).count(), 3);
    }
}
