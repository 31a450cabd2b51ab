use sudoku::board::{index_to_row_column_block, Board};
use sudoku::text::{grid_text, ParseError};

const PUZZLE: &str =
    "53..7....6..195....98....6.8...6...34..8.3..17...2...6.6....28....419..5....8..79";
const SOLUTION: &str =
    "534678912672195348198342567859761423426853791713924856961537284287419635345286179";

fn digits(s: &str) -> Vec<usize> {
    s.chars().map(|c| c.to_digit(10).unwrap() as usize).collect()
}

fn text(chars: Vec<char>) -> String {
    chars.into_iter().collect()
}

fn is_valid_grid(cells: &[usize]) -> bool {
    if cells.len() != 81 {
        return false;
    }
    for i in 0..81 {
        for j in 0..81 {
            if i == j {
                continue;
            }
            let (ri, ci, bi) = index_to_row_column_block(i);
            let (rj, cj, bj) = index_to_row_column_block(j);
            if (ri == rj || ci == cj || bi == bj) && cells[i] != 0 && cells[i] == cells[j] {
                return false;
            }
        }
    }
    true
}

#[test]
fn unit_indices() {
    assert_eq!(index_to_row_column_block(0), (0, 0, 0));
    assert_eq!(index_to_row_column_block(30), (3, 3, 4));
    assert_eq!(index_to_row_column_block(40), (4, 4, 4));
    assert_eq!(index_to_row_column_block(53), (5, 8, 5));
    assert_eq!(index_to_row_column_block(80), (8, 8, 8));
}

#[test]
fn empty_board_has_full_sets() {
    let b = Board::new();
    for kind in 0..3 {
        for unit in 0..9 {
            assert_eq!(b.unit_set(kind, unit).count(), 9);
            assert!(!b.unit_set(kind, unit).contains(0));
        }
    }
    assert_eq!(b.get_boards_seen(), 0);
    assert!(b.legal_at_index(0, 1));
    assert!(!b.legal_at_index(0, 0));
    assert!(!b.legal_at_index(0, 10));
}

#[test]
fn place_takes_digit_from_its_units() {
    let mut b = Board::new();
    b.set_at_index(30, 7);
    assert!(!b.unit_set(0, 3).contains(7));
    assert!(!b.unit_set(1, 3).contains(7));
    assert!(!b.unit_set(2, 4).contains(7));
    assert!(b.unit_set(0, 4).contains(7));
    assert!(!b.legal_at_index(35, 7));
    assert!(!b.legal_at_index(75, 7));
    assert!(!b.legal_at_index(50, 7));
    assert!(b.legal_at_index(80, 7));
    assert!(b.legal_at_index(35, 6));
}

#[test]
fn place_then_retract_restores_sets() {
    let fresh = Board::new();
    let mut b = Board::new();
    b.set_at_index(0, 5);
    b.set_at_index(10, 3);
    b.set_at_index(80, 5);
    b.clear_at_index(10);
    b.clear_at_index(0);
    b.clear_at_index(80);
    for kind in 0..3 {
        for unit in 0..9 {
            assert_eq!(b.unit_set(kind, unit), fresh.unit_set(kind, unit));
        }
    }
    assert_eq!(text(b.to_text()), text(fresh.to_text()));
}

#[test]
fn parse_accepts_separators() {
    let laid_out = "53.|.7.|...\n6..|195|...\n.98|...|.6.\n-----------\n\
                    8..|.6.|..3\n4..|8.3|..1\n7..|.2.|..6\n-----------\n\
                    .6.|...|28.\n...|419|..5\n...|.8.|.79";
    let a = Board::parse(laid_out).unwrap();
    let b = Board::parse(PUZZLE).unwrap();
    assert_eq!(text(a.to_text()), text(b.to_text()));
    assert_eq!(text(a.to_text()), laid_out);
}

#[test]
fn parse_space_is_an_empty_cell() {
    let with_spaces = PUZZLE.replace('.', " ");
    let a = Board::parse(&with_spaces).unwrap();
    let b = Board::parse(PUZZLE).unwrap();
    assert_eq!(text(a.to_text()), text(b.to_text()));
}

#[test]
fn parse_rejects_repeated_digit_in_row() {
    let input = format!("55{}", ".".repeat(79));
    assert_eq!(
        Board::parse(&input).err(),
        Some(ParseError::IllegalValue { value: 5, row: 1, column: 2 })
    );
}

#[test]
fn parse_rejects_repeated_digit_in_column_and_block() {
    let column = format!("{}{}{}", "4", ".".repeat(26), "4");
    let column = format!("{}{}", column, ".".repeat(81 - 28));
    assert_eq!(
        Board::parse(&column).err(),
        Some(ParseError::IllegalValue { value: 4, row: 4, column: 1 })
    );
    let block = format!("{}{}{}", "8", ".".repeat(9), "8");
    let block = format!("{}{}", block, ".".repeat(81 - 11));
    assert_eq!(
        Board::parse(&block).err(),
        Some(ParseError::IllegalValue { value: 8, row: 2, column: 2 })
    );
}

#[test]
fn parse_rejects_unknown_character() {
    let input = format!("12x{}", ".".repeat(79));
    assert_eq!(
        Board::parse(&input).err(),
        Some(ParseError::IllegalChar { chr: 'x', index: 2 })
    );
    let zero = format!("0{}", ".".repeat(80));
    assert_eq!(
        Board::parse(&zero).err(),
        Some(ParseError::IllegalChar { chr: '0', index: 0 })
    );
}

#[test]
fn parse_reports_first_fault() {
    let input = format!("11x{}", ".".repeat(78));
    assert_eq!(
        Board::parse(&input).err(),
        Some(ParseError::IllegalValue { value: 1, row: 1, column: 2 })
    );
}

#[test]
fn parse_rejects_wrong_cell_count() {
    assert_eq!(
        Board::parse(&".".repeat(80)).err(),
        Some(ParseError::WrongCellCount { count: 80 })
    );
    assert_eq!(
        Board::parse(&format!("{}1", ".".repeat(81))).err(),
        Some(ParseError::WrongCellCount { count: 82 })
    );
    assert_eq!(Board::parse("").err(), Some(ParseError::WrongCellCount { count: 0 }));
}

#[test]
fn unique_puzzle_has_one_solution() {
    let mut b = Board::parse(PUZZLE).unwrap();
    let before = text(b.to_text());
    let mut solutions: Vec<Vec<usize>> = Vec::new();
    b.search_solution(usize::MAX, &mut solutions);
    assert_eq!(solutions.len(), 1);
    assert_eq!(solutions[0], digits(SOLUTION));
    assert!(is_valid_grid(&solutions[0]));
    assert_eq!(b.get_boards_seen(), 52);
    assert_eq!(text(b.to_text()), before);
}

#[test]
fn search_count_is_deterministic() {
    let mut first = Board::parse(PUZZLE).unwrap();
    let mut second = Board::parse(PUZZLE).unwrap();
    let mut a: Vec<Vec<usize>> = Vec::new();
    let mut b: Vec<Vec<usize>> = Vec::new();
    first.search_solution(usize::MAX, &mut a);
    second.search_solution(usize::MAX, &mut b);
    assert_eq!(a, b);
    assert_eq!(first.get_boards_seen(), second.get_boards_seen());
}

#[test]
fn impossible_grid_has_no_solution() {
    let input = format!("12345678.........9{}", ".".repeat(63));
    let mut b = Board::parse(&input).unwrap();
    let mut solutions: Vec<Vec<usize>> = Vec::new();
    b.search_solution(usize::MAX, &mut solutions);
    assert!(solutions.is_empty());
    assert_eq!(b.get_boards_seen(), 1);
}

#[test]
fn empty_board_reaches_a_solution() {
    let mut b = Board::new();
    let mut solutions: Vec<Vec<usize>> = Vec::new();
    b.search_solution(1, &mut solutions);
    assert_eq!(solutions.len(), 1);
    assert!(is_valid_grid(&solutions[0]));
    assert!(solutions[0].iter().all(|&v| (1..=9).contains(&v)));
    assert_eq!(
        solutions[0],
        digits("123456789456789123789123456231674895875912364694538217317265948542897631968341572")
    );
    assert_eq!(b.get_boards_seen(), 82);
}

#[test]
fn search_finds_every_completion() {
    let input = format!("{}{}", ".".repeat(18), &SOLUTION[18..]);
    let mut b = Board::parse(&input).unwrap();
    let mut solutions: Vec<Vec<usize>> = Vec::new();
    b.search_solution(usize::MAX, &mut solutions);
    assert_eq!(solutions.len(), 4);
    assert!(solutions.contains(&digits(SOLUTION)));
    for s in &solutions {
        assert!(is_valid_grid(s));
        assert_eq!(&s[18..], &digits(SOLUTION)[18..]);
    }
    assert_eq!(b.get_boards_seen(), 49);
}

#[test]
fn search_stops_at_limit() {
    let input = format!("{}{}", ".".repeat(18), &SOLUTION[18..]);
    let mut b = Board::parse(&input).unwrap();
    let mut solutions: Vec<Vec<usize>> = Vec::new();
    b.search_solution(2, &mut solutions);
    assert_eq!(solutions.len(), 2);
    assert_eq!(b.get_boards_seen(), 25);
    let mut c = Board::parse(&input).unwrap();
    let mut none: Vec<Vec<usize>> = Vec::new();
    c.search_solution(0, &mut none);
    assert!(none.is_empty());
    assert_eq!(c.get_boards_seen(), 0);
}

#[test]
fn grid_text_shows_blocks() {
    let shown = text(grid_text(&digits(SOLUTION)));
    assert_eq!(
        shown,
        "534|678|912\n672|195|348\n198|342|567\n-----------\n859|761|423\n426|853|791\n713|924|856\n-----------\n961|537|284\n287|419|635\n345|286|179"
    );
    let empty = text(Board::new().to_text());
    assert!(empty.starts_with("...|...|...\n"));
    assert_eq!(empty.chars().filter(|&c| c == '.').count(), 81);
}

#[test]
fn full_board_search_is_one_step() {
    let mut b = Board::parse(SOLUTION).unwrap();
    let mut solutions: Vec<Vec<usize>> = Vec::new();
    b.search_solution(usize::MAX, &mut solutions);
    assert_eq!(solutions, vec![digits(SOLUTION)]);
    assert_eq!(b.get_boards_seen(), 1);
    b.search_solution(usize::MAX, &mut solutions);
    assert_eq!(solutions.len(), 2);
    assert_eq!(b.get_boards_seen(), 2);
}

#[test]
fn solutions_come_in_ascending_branch_order() {
    let input = format!("{}{}", ".".repeat(18), &SOLUTION[18..]);
    let mut b = Board::parse(&input).unwrap();
    let mut solutions: Vec<Vec<usize>> = Vec::new();
    b.search_solution(usize::MAX, &mut solutions);
    let mut sorted = solutions.clone();
    sorted.sort();
    sorted.dedup();
    assert_eq!(sorted.len(), solutions.len());
    let mut again = Board::parse(&input).unwrap();
    let mut second: Vec<Vec<usize>> = Vec::new();
    again.search_solution(usize::MAX, &mut second);
    assert_eq!(solutions, second);
    let mut limited = Board::parse(&input).unwrap();
    let mut first_two: Vec<Vec<usize>> = Vec::new();
    limited.search_solution(2, &mut first_two);
    assert_eq!(&solutions[..2], &first_two[..]);
}
