use std::collections::HashSet;

use minesolver::cell::CellTypes;
use minesolver::grid::Board;

fn board(text: &str) -> Board {
    Board::from_string(text.to_string()).unwrap()
}

fn search_all(start: &Board) -> (Vec<Board>, Vec<(usize, usize)>) {
    Board::search(start)
}

#[test]
fn from_char_maps_every_symbol() {
    assert_eq!(CellTypes::from_char('-'), Ok(CellTypes::Value(0)));
    assert_eq!(CellTypes::from_char('?'), Ok(CellTypes::Covered));
    assert_eq!(CellTypes::from_char('X'), Ok(CellTypes::Bomb));
    assert_eq!(CellTypes::from_char('x'), Ok(CellTypes::Bomb));
    assert_eq!(CellTypes::from_char('1'), Ok(CellTypes::Value(1)));
    assert_eq!(CellTypes::from_char('8'), Ok(CellTypes::Value(8)));
    assert_eq!(CellTypes::from_char('9'), Err("Unrecognised character '9'".to_string()));
    assert_eq!(CellTypes::from_char('0'), Err("Unrecognised character '0'".to_string()));
}

#[test]
fn from_char_escapes_control_characters() {
    assert_eq!(CellTypes::from_char('\t'), Err("Unrecognised character '\\t'".to_string()));
}

#[test]
fn char_and_id_of_cells() {
    assert_eq!(CellTypes::Covered.char(), '?');
    assert_eq!(CellTypes::Bomb.char(), 'x');
    assert_eq!(CellTypes::Value(0).char(), '-');
    assert_eq!(CellTypes::Value(7).char(), '7');
    assert_eq!(CellTypes::Value(42).char(), '4');
    assert_eq!(CellTypes::Value(200).char(), '2');
    assert_eq!(CellTypes::Value(5).id(), 5);
    assert_eq!(CellTypes::Covered.id(), 9);
    assert_eq!(CellTypes::Bomb.id(), 10);
}

#[test]
fn parse_reads_rows_and_skips_blank_lines() {
    let b = board("\n?1-\n\nx2?\n");
    assert_eq!(b.width, 3);
    assert_eq!(b.height, 2);
    assert_eq!(b.board[0], vec![CellTypes::Covered, CellTypes::Value(1), CellTypes::Value(0)]);
    assert_eq!(b.board[1], vec![CellTypes::Bomb, CellTypes::Value(2), CellTypes::Covered]);
}

#[test]
fn parse_accepts_crlf_line_endings() {
    let b = board("?1?\r\n?1?\r\n");
    assert_eq!(b.width, 3);
    assert_eq!(b.height, 2);
}

#[test]
fn parse_rejects_irregular_width() {
    assert_eq!(
        Board::from_string("???\n????".to_string()).unwrap_err(),
        "Irregular line width - expected 3 found 4"
    );
}

#[test]
fn parse_rejects_unknown_character() {
    assert_eq!(Board::from_string("?a?".to_string()).unwrap_err(), "Unrecognised character 'a'");
}

#[test]
fn parse_rejects_empty_input() {
    assert_eq!(Board::from_string(String::new()).unwrap_err(), "Empty input");
    assert_eq!(Board::from_string("\n\n".to_string()).unwrap_err(), "Empty input");
}

#[test]
fn render_inverts_parse() {
    let text = "x1-\n?2?\n--1";
    assert_eq!(board(text).to_string(), text);
    let b = board("X1?");
    assert_eq!(board(&b.to_string()).board, b.board);
}

#[test]
fn validate_sums_what_numbers_still_need() {
    assert_eq!(board("?1?").validate_board(), Ok(1));
    assert_eq!(board("?2?\n???").validate_board(), Ok(2));
    assert_eq!(board("x1?").validate_board(), Ok(0));
    assert_eq!(board("---").validate_board(), Ok(0));
}

#[test]
fn validate_reports_unsatisfiable_cell() {
    assert_eq!(
        board("?3?").validate_board(),
        Err("Cell at position [1, 0] requires 3 bomb(s) however only 2 cell(s) can contain bombs".to_string())
    );
}

#[test]
fn validate_reports_over_constrained_cell() {
    assert_eq!(
        board("x1x").validate_board(),
        Err("Cell at position [1, 0] has 1 bombs more than it should have".to_string())
    );
}

#[test]
fn propagation_clears_neighbours_of_satisfied_cell() {
    let mut b = board("x1?");
    assert!(b.complete_solvable());
    assert_eq!(b.to_string(), "x1-");
    assert!(!b.complete_solvable());
}

#[test]
fn propagation_marks_forced_bombs() {
    let mut b = board("?2?");
    assert!(b.complete_solvable());
    assert_eq!(b.to_string(), "x2x");
}

#[test]
fn propagation_clears_neighbours_of_revealed_zero() {
    let mut b = board("?-?");
    assert!(b.complete_solvable());
    assert_eq!(b.to_string(), "---");
}

#[test]
fn fixed_point_driver_stops_when_nothing_changes() {
    let mut b = board("x1??\n-???");
    b.propagate_to_fixed_point();
    let before = b.to_string();
    assert!(!b.complete_solvable());
    assert_eq!(b.to_string(), before);
    let mut c = board("?2?");
    c.propagate_to_fixed_point();
    assert_eq!(c.to_string(), "x2x");
}

#[test]
fn search_runs_queue_until_empty() {
    let start = board("?2??");
    let (solved, ignore) = Board::search(&start);
    let mut texts: Vec<String> = solved.iter().map(|b| b.to_string()).collect();
    texts.sort();
    assert_eq!(texts, vec!["x2x?".to_string()]);
    assert_eq!(ignore, vec![(3, 0)]);
    for b in &solved {
        assert_eq!(b.validate_board(), Ok(0));
    }
}

#[test]
fn propagation_is_idempotent_at_fixed_point() {
    let mut b = board("?1??\n?2??\n????");
    while b.complete_solvable() {}
    let before = b.to_string();
    assert!(!b.complete_solvable());
    assert_eq!(b.to_string(), before);
}

#[test]
fn hash_depends_on_content() {
    assert_eq!(board("?1?").get_hash(), board("?1?").get_hash());
    assert_ne!(board("?1?").get_hash(), board("x1?").get_hash());
}

#[test]
fn single_number_row_has_two_completions() {
    let start = board("?1?");
    let (solved, ignore) = search_all(&start);
    let mut texts: Vec<String> = solved.iter().map(|b| b.to_string()).collect();
    texts.sort();
    assert_eq!(texts, vec!["?1x".to_string(), "x1?".to_string()]);
    assert!(ignore.is_empty());
    for b in &solved {
        assert_eq!(b.validate_board(), Ok(0));
    }
    assert_eq!(
        Board::compile_guaranteed(&start, &solved, &ignore),
        "@1?\n\nCell marked '@' is most likely to be empty with a chance of 50.00% - No cells are definitively a bomb or safe\n"
    );
}

#[test]
fn search_ignores_coordinates_without_progress() {
    let start = board("1??");
    let mut visited = HashSet::new();
    let mut ignore = Vec::new();
    let (solved, open) = start.get_possible_boards(&mut visited, &mut ignore);
    assert_eq!(solved.len(), 1);
    assert_eq!(solved[0].to_string(), "1x?");
    assert!(open.is_empty());
    assert_eq!(ignore, vec![(2, 0)]);
    assert_eq!(visited.len(), 2);
    let (again_solved, again_open) = start.get_possible_boards(&mut visited, &mut ignore);
    assert!(again_solved.is_empty());
    assert!(again_open.is_empty());
    assert_eq!(ignore, vec![(2, 0)]);
}

#[test]
fn search_enqueues_boards_that_make_progress() {
    let start = board("?2??");
    let mut visited = HashSet::new();
    let mut ignore = Vec::new();
    let (solved, open) = start.get_possible_boards(&mut visited, &mut ignore);
    assert!(solved.is_empty());
    let mut texts: Vec<String> = open.iter().map(|b| b.to_string()).collect();
    texts.sort();
    assert_eq!(texts, vec!["?2x?".to_string(), "x2??".to_string()]);
    assert_eq!(ignore, vec![(3, 0)]);
}

#[test]
fn compile_reports_guaranteed_cells() {
    let start = board("1??");
    let (solved, ignore) = search_all(&start);
    assert_eq!(
        Board::compile_guaranteed(&start, &solved, &ignore),
        "Guaranteed cells:\n1#?\n\nKey:\n\t'#' - Guaranteed bomb\n\t'O' - Guaranteed safe\n"
    );
}

#[test]
fn compile_marks_safe_and_uncertain_cells() {
    let base = board("?1??");
    let solved = vec![board("x1??"), board("x1?x")];
    assert_eq!(
        Board::compile_guaranteed(&base, &solved, &Vec::new()),
        "Guaranteed cells:\n#1O?\n\nKey:\n\t'#' - Guaranteed bomb\n\t'O' - Guaranteed safe\n"
    );
}

#[test]
fn compile_picks_first_safest_cell() {
    let base = board("?1??");
    let solved = vec![board("x1x?"), board("?1?x"), board("x1??")];
    assert_eq!(
        Board::compile_guaranteed(&base, &solved, &Vec::new()),
        "?1@?\n\nCell marked '@' is most likely to be empty with a chance of 66.67% - No cells are definitively a bomb or safe\n"
    );
}

#[test]
fn compile_keeps_known_bombs_and_ignored_cells() {
    let base = board("x1??");
    let solved = vec![board("x1?x"), board("x1??")];
    assert_eq!(
        Board::compile_guaranteed(&base, &solved, &vec![(2, 0)]),
        "x1?@\n\nCell marked '@' is most likely to be empty with a chance of 50.00% - No cells are definitively a bomb or safe\n"
    );
}
