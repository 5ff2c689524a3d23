use sudoku::board::{Board, Value};

fn lines(rows: [&str; 9]) -> Vec<String> {
    rows.iter().map(|r| r.to_string()).collect()
}

fn cells(rows: [&str; 9]) -> Vec<Value> {
    let mut out = Vec::new();
    for row in rows.iter() {
        for token in row.split_whitespace() {
            let chars: Vec<char> = token.chars().collect();
            if chars[0] == '=' {
                out.push(Value::Fixed(chars[1]));
            } else if chars[0] == '-' {
                out.push(Value::Unset(Vec::new()));
            } else {
                out.push(Value::Unset(chars));
            }
        }
    }
    out
}

fn is_solved(brd: &Board) -> bool {
    if brd.board.len() != 81 {
        return false;
    }
    for idx in 0..81usize {
        let digit = match &brd.board[idx] {
            Value::Fixed(d) => *d,
            _ => return false,
        };
        if !('1'..='9').contains(&digit) {
            return false;
        }
        for peer in Board::get_associated_indexes(idx) {
            if brd.board[peer] == Value::Fixed(digit) {
                return false;
            }
        }
    }
    true
}

#[test]
fn search_finds_the_unique_solution_of_thirty_givens() {
    let mut brd = Board::new(lines([
            "000670912",
            "602105000",
            "090000000",
            "800700003",
            "420053000",
            "010004056",
            "060000004",
            "080019030",
            "300200070",
        ])).unwrap();
    assert!(brd.backtrace(0));
    assert_eq!(brd.board, cells([
            "=5 =3 =4 =6 =7 =8 =9 =1 =2",
            "=6 =7 =2 =1 =9 =5 =3 =4 =8",
            "=1 =9 =8 =3 =4 =2 =5 =6 =7",
            "=8 =5 =9 =7 =6 =1 =4 =2 =3",
            "=4 =2 =6 =8 =5 =3 =7 =9 =1",
            "=7 =1 =3 =9 =2 =4 =8 =5 =6",
            "=9 =6 =1 =5 =3 =7 =2 =8 =4",
            "=2 =8 =7 =4 =1 =9 =6 =3 =5",
            "=3 =4 =5 =2 =8 =6 =1 =7 =9",
        ]));
    assert!(is_solved(&brd));
}

#[test]
fn search_solves_a_sparse_grid_and_keeps_its_givens() {
    let given = lines([
            "000600000",
            "072100000",
            "100002500",
            "059000400",
            "006803000",
            "000004006",
            "900500280",
            "000000005",
            "040286079",
        ]);
    let mut brd = Board::new(given.clone()).unwrap();
    let start = brd.clone();
    assert!(brd.backtrace(0));
    assert!(is_solved(&brd));
    assert_eq!(brd.board, cells([
            "=5 =3 =4 =6 =7 =8 =9 =1 =2",
            "=6 =7 =2 =1 =9 =5 =3 =4 =8",
            "=1 =9 =8 =3 =4 =2 =5 =6 =7",
            "=8 =5 =9 =7 =6 =1 =4 =2 =3",
            "=4 =2 =6 =8 =5 =3 =7 =9 =1",
            "=7 =1 =3 =9 =2 =4 =8 =5 =6",
            "=9 =6 =1 =5 =3 =7 =2 =8 =4",
            "=2 =8 =7 =4 =1 =9 =6 =3 =5",
            "=3 =4 =5 =2 =8 =6 =1 =7 =9",
        ]));
    for idx in 0..81usize {
        if let Value::Fixed(d) = &start.board[idx] {
            assert_eq!(brd.board[idx], Value::Fixed(*d));
        }
    }
}

#[test]
fn search_leaves_a_solved_grid_as_it_is() {
    let mut brd = Board::new(lines([
            "534678912",
            "672195348",
            "198342567",
            "859761423",
            "426853791",
            "713924856",
            "961537284",
            "287419635",
            "345286179",
        ])).unwrap();
    let start = brd.clone();
    assert!(brd.backtrace(0));
    assert_eq!(brd.board, start.board);
    assert!(is_solved(&brd));
}

#[test]
fn search_fails_on_clashing_givens_and_restores_the_grid() {
    let mut brd = Board::new(lines([
            "554678912",
            "672195348",
            "198342567",
            "809761423",
            "426853791",
            "713924856",
            "961537284",
            "287419635",
            "345286179",
        ])).unwrap();
    assert_eq!(brd.board[0], Value::Fixed('5'));
    assert_eq!(brd.board[1], Value::Fixed('5'));
    assert_eq!(brd.board[28], Value::Unset(Vec::new()));
    let start = brd.clone();
    assert!(!brd.backtrace(0));
    assert_eq!(brd.board, start.board);
}

#[test]
fn search_fails_when_a_cell_has_no_digit_left() {
    let mut brd = Board::new(lines([
            "123456780",
            "000000009",
            "000000000",
            "000000000",
            "000000000",
            "000000000",
            "000000000",
            "000000000",
            "000000000",
        ])).unwrap();
    let start = brd.clone();
    assert!(!brd.backtrace(0));
    assert_eq!(brd.board, start.board);
}

#[test]
fn search_fills_the_blank_grid() {
    let mut brd = Board::new(lines([
            "000000000",
            "000000000",
            "000000000",
            "000000000",
            "000000000",
            "000000000",
            "000000000",
            "000000000",
            "000000000",
        ])).unwrap();
    assert!(brd.backtrace(0));
    assert!(is_solved(&brd));
    assert_eq!(brd.board, cells([
            "=1 =2 =3 =4 =5 =6 =7 =8 =9",
            "=4 =5 =6 =7 =8 =9 =1 =2 =3",
            "=7 =8 =9 =1 =2 =3 =4 =5 =6",
            "=2 =1 =4 =3 =6 =5 =8 =9 =7",
            "=3 =6 =5 =8 =9 =7 =2 =1 =4",
            "=8 =9 =7 =2 =1 =4 =3 =6 =5",
            "=5 =3 =1 =6 =4 =2 =9 =7 =8",
            "=6 =4 =2 =9 =7 =8 =5 =3 =1",
            "=9 =7 =8 =5 =3 =1 =6 =4 =2",
        ]));
}

#[test]
fn search_does_not_read_candidates() {
    let mut brd = Board { board: cells([
            "- - - =6 =7 - =9 =1 =2",
            "=6 - =2 =1 - =5 - - -",
            "- =9 - - - - - - -",
            "=8 - - =7 - - - - =3",
            "=4 =2 - - =5 =3 - - -",
            "- =1 - - - =4 - =5 =6",
            "- =6 - - - - - - =4",
            "- =8 - - =1 =9 - =3 -",
            "=3 - - =2 - - - =7 -",
        ]) };
    assert!(brd.backtrace(0));
    assert_eq!(brd.board, cells([
            "=5 =3 =4 =6 =7 =8 =9 =1 =2",
            "=6 =7 =2 =1 =9 =5 =3 =4 =8",
            "=1 =9 =8 =3 =4 =2 =5 =6 =7",
            "=8 =5 =9 =7 =6 =1 =4 =2 =3",
            "=4 =2 =6 =8 =5 =3 =7 =9 =1",
            "=7 =1 =3 =9 =2 =4 =8 =5 =6",
            "=9 =6 =1 =5 =3 =7 =2 =8 =4",
            "=2 =8 =7 =4 =1 =9 =6 =3 =5",
            "=3 =4 =5 =2 =8 =6 =1 =7 =9",
        ]));
}

#[test]
fn search_after_propagation_reaches_the_same_solution() {
    let mut brd = Board::new(lines([
            "000600000",
            "072100000",
            "100002500",
            "059000400",
            "006803000",
            "000004006",
            "900500280",
            "000000005",
            "040286079",
        ])).unwrap();
    assert!(brd.trim(3));
    assert_eq!(brd.board, cells([
            "358 389 3458 =6 34579 58 13789 12349 123478",
            "=6 =7 =2 =1 3459 58 389 349 348",
            "=1 389 348 34 3479 =2 =5 =6 3478",
            "238 =5 =9 =7 =6 =1 =4 23 238",
            "=4 12 =6 =8 25 =3 179 1259 127",
            "2378 1238 1378 =9 25 =4 1378 1235 =6",
            "=9 =6 13 =5 134 =7 =2 =8 134",
            "2378 1238 1378 34 134 =9 =6 134 =5",
            "35 =4 135 =2 =8 =6 13 =7 =9",
        ]));
    assert!(brd.backtrace(0));
    assert_eq!(brd.board, cells([
            "=5 =3 =4 =6 =7 =8 =9 =1 =2",
            "=6 =7 =2 =1 =9 =5 =3 =4 =8",
            "=1 =9 =8 =3 =4 =2 =5 =6 =7",
            "=8 =5 =9 =7 =6 =1 =4 =2 =3",
            "=4 =2 =6 =8 =5 =3 =7 =9 =1",
            "=7 =1 =3 =9 =2 =4 =8 =5 =6",
            "=9 =6 =1 =5 =3 =7 =2 =8 =4",
            "=2 =8 =7 =4 =1 =9 =6 =3 =5",
            "=3 =4 =5 =2 =8 =6 =1 =7 =9",
        ]));
}

#[test]
fn search_past_the_last_cell_succeeds_at_once() {
    let mut brd = Board::new(lines([
            "000600000",
            "072100000",
            "100002500",
            "059000400",
            "006803000",
            "000004006",
            "900500280",
            "000000005",
            "040286079",
        ])).unwrap();
    let start = brd.clone();
    assert!(brd.backtrace(81));
    assert_eq!(brd.board, start.board);
    assert!(brd.backtrace(1000));
    assert_eq!(brd.board, start.board);
}

#[test]
fn search_from_a_later_cell_leaves_earlier_cells_open() {
    let mut brd = Board::new(lines([
            "000670912",
            "602105000",
            "090000000",
            "800700003",
            "420053000",
            "010004056",
            "060000004",
            "080019030",
            "300200070",
        ])).unwrap();
    let start = brd.clone();
    assert!(brd.backtrace(72));
    for idx in 0..72usize {
        assert_eq!(brd.board[idx], start.board[idx]);
    }
    for idx in 72..81usize {
        assert!(matches!(brd.board[idx], Value::Fixed(_)));
    }
}
