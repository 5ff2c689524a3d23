use sudoku::board::{Board, Value};

fn lines(rows: [&str; 9]) -> Vec<String> {
    rows.iter().map(|r| r.to_string()).collect()
}

fn cells(rows: [&str; 9]) -> Vec<Value> {
    let mut out = Vec::new();
    for row in rows.iter() {
        for token in row.split_whitespace() {
            let chars: Vec<char> = token.chars().collect();
            if chars[0] == '=' {
                out.push(Value::Fixed(chars[1]));
            } else if chars[0] == '-' {
                out.push(Value::Unset(Vec::new()));
            } else {
                out.push(Value::Unset(chars));
            }
        }
    }
    out
}

fn never_grows(before: &Board, after: &Board) -> bool {
    for idx in 0..81usize {
        let fine = match (&before.board[idx], &after.board[idx]) {
            (Value::Fixed(a), Value::Fixed(b)) => a == b,
            (Value::Unset(a), Value::Fixed(b)) => a.contains(b),
            (Value::Unset(a), Value::Unset(b)) => b.iter().all(|d| a.contains(d)),
            _ => false,
        };
        if !fine {
            return false;
        }
    }
    true
}

#[test]
fn set_doubles_strikes_the_pair_from_the_rest_of_the_unit() {
    let mut brd = Board { board: cells([
            "12 12 123 123456789 123456789 123456789 123456789 123456789 123456789",
            "123456789 123456789 123456789 123456789 123456789 123456789 123456789 123456789 123456789",
            "123456789 123456789 123456789 123456789 123456789 123456789 123456789 123456789 123456789",
            "123456789 123456789 123456789 123456789 123456789 123456789 123456789 123456789 123456789",
            "123456789 123456789 123456789 123456789 123456789 123456789 123456789 123456789 123456789",
            "123456789 123456789 123456789 123456789 123456789 123456789 123456789 123456789 123456789",
            "123456789 123456789 123456789 123456789 123456789 123456789 123456789 123456789 123456789",
            "123456789 123456789 123456789 123456789 123456789 123456789 123456789 123456789 123456789",
            "123456789 123456789 123456789 123456789 123456789 123456789 123456789 123456789 123456789",
        ]) };
    let start = brd.clone();
    let row = Board::get_row_indexes(0, true);
    assert_eq!(brd.set_doubles(&row, vec!['1', '2']), true);
    assert_eq!(brd.board, cells([
            "12 12 =3 456789 456789 456789 456789 456789 456789",
            "12456789 12456789 12456789 123456789 123456789 123456789 123456789 123456789 123456789",
            "12456789 12456789 12456789 123456789 123456789 123456789 123456789 123456789 123456789",
            "123456789 123456789 12456789 123456789 123456789 123456789 123456789 123456789 123456789",
            "123456789 123456789 12456789 123456789 123456789 123456789 123456789 123456789 123456789",
            "123456789 123456789 12456789 123456789 123456789 123456789 123456789 123456789 123456789",
            "123456789 123456789 12456789 123456789 123456789 123456789 123456789 123456789 123456789",
            "123456789 123456789 12456789 123456789 123456789 123456789 123456789 123456789 123456789",
            "123456789 123456789 12456789 123456789 123456789 123456789 123456789 123456789 123456789",
        ]));
    assert!(never_grows(&start, &brd));
    for idx in row.iter() {
        if start.board[*idx] != Value::Unset(vec!['1', '2']) {
            if let Value::Unset(left) = &brd.board[*idx] {
                assert!(!left.contains(&'1') && !left.contains(&'2'));
            }
        }
    }
}

#[test]
fn set_doubles_leaves_an_earlier_single_candidate_open() {
    let mut brd = Board { board: cells([
            "12 12 123456789 123456789 123456789 7 123456789 123456789 123456789",
            "123456789 123456789 123456789 123456789 123456789 123456789 123456789 123456789 123456789",
            "123456789 123456789 123456789 123456789 123456789 123456789 123456789 123456789 123456789",
            "123456789 123456789 123456789 123456789 123456789 123456789 123456789 123456789 123456789",
            "123456789 123456789 123456789 123456789 123456789 123456789 123456789 123456789 123456789",
            "123456789 123456789 123456789 123456789 123456789 123456789 123456789 123456789 123456789",
            "123456789 123456789 123456789 123456789 123456789 123456789 123456789 123456789 123456789",
            "123456789 123456789 123456789 123456789 123456789 123456789 123456789 123456789 123456789",
            "123456789 123456789 123456789 123456789 123456789 123456789 123456789 123456789 123456789",
        ]) };
    let row = Board::get_row_indexes(0, true);
    assert_eq!(brd.set_doubles(&row, vec!['1', '2']), true);
    assert_eq!(brd.board, cells([
            "12 12 3456789 3456789 3456789 7 3456789 3456789 3456789",
            "123456789 123456789 123456789 123456789 123456789 123456789 123456789 123456789 123456789",
            "123456789 123456789 123456789 123456789 123456789 123456789 123456789 123456789 123456789",
            "123456789 123456789 123456789 123456789 123456789 123456789 123456789 123456789 123456789",
            "123456789 123456789 123456789 123456789 123456789 123456789 123456789 123456789 123456789",
            "123456789 123456789 123456789 123456789 123456789 123456789 123456789 123456789 123456789",
            "123456789 123456789 123456789 123456789 123456789 123456789 123456789 123456789 123456789",
            "123456789 123456789 123456789 123456789 123456789 123456789 123456789 123456789 123456789",
            "123456789 123456789 123456789 123456789 123456789 123456789 123456789 123456789 123456789",
        ]));
    assert_eq!(brd.board[5], Value::Unset(vec!['7']));
}

#[test]
fn set_doubles_reports_a_collapsed_cell_whose_digit_a_peer_holds() {
    let mut brd = Board { board: cells([
            "12 12 123 123456789 123456789 123456789 123456789 123456789 123456789",
            "12456789 12456789 =3 12456789 12456789 12456789 12456789 12456789 12456789",
            "12456789 12456789 12456789 123456789 123456789 123456789 123456789 123456789 123456789",
            "123456789 123456789 12456789 123456789 123456789 123456789 123456789 123456789 123456789",
            "123456789 123456789 12456789 123456789 123456789 123456789 123456789 123456789 123456789",
            "123456789 123456789 12456789 123456789 123456789 123456789 123456789 123456789 123456789",
            "123456789 123456789 12456789 123456789 123456789 123456789 123456789 123456789 123456789",
            "123456789 123456789 12456789 123456789 123456789 123456789 123456789 123456789 123456789",
            "123456789 123456789 12456789 123456789 123456789 123456789 123456789 123456789 123456789",
        ]) };
    let row = Board::get_row_indexes(0, true);
    assert_eq!(brd.set_doubles(&row, vec!['1', '2']), false);
    assert_eq!(brd.board, cells([
            "12 12 3 3456789 3456789 3456789 3456789 3456789 3456789",
            "12456789 12456789 =3 12456789 12456789 12456789 12456789 12456789 12456789",
            "12456789 12456789 12456789 123456789 123456789 123456789 123456789 123456789 123456789",
            "123456789 123456789 12456789 123456789 123456789 123456789 123456789 123456789 123456789",
            "123456789 123456789 12456789 123456789 123456789 123456789 123456789 123456789 123456789",
            "123456789 123456789 12456789 123456789 123456789 123456789 123456789 123456789 123456789",
            "123456789 123456789 12456789 123456789 123456789 123456789 123456789 123456789 123456789",
            "123456789 123456789 12456789 123456789 123456789 123456789 123456789 123456789 123456789",
            "123456789 123456789 12456789 123456789 123456789 123456789 123456789 123456789 123456789",
        ]));
}

#[test]
fn set_doubles_with_nothing_to_strike_changes_nothing() {
    let mut brd = Board::new(lines([
            "534678912",
            "672195348",
            "198342567",
            "859761423",
            "426853791",
            "713924856",
            "961537284",
            "287419635",
            "345286179",
        ])).unwrap();
    let start = brd.clone();
    let unit = Board::get_square_indexes(40);
    assert!(brd.set_doubles(&unit, vec!['4', '7']));
    assert_eq!(brd.board, start.board);
}

#[test]
fn calc_doubles_works_through_rows_columns_and_boxes() {
    let mut brd = Board { board: cells([
            "12 12 123 123456789 123456789 123456789 123456789 123456789 123456789",
            "123456789 123456789 123456789 123456789 123456789 123456789 123456789 123456789 123456789",
            "123456789 123456789 123456789 123456789 123456789 123456789 123456789 123456789 123456789",
            "123456789 123456789 123456789 123456789 123456789 123456789 123456789 123456789 123456789",
            "123456789 123456789 123456789 123456789 123456789 123456789 123456789 123456789 123456789",
            "123456789 123456789 123456789 123456789 123456789 123456789 123456789 123456789 123456789",
            "123456789 123456789 123456789 123456789 123456789 123456789 123456789 123456789 123456789",
            "123456789 123456789 123456789 123456789 123456789 123456789 123456789 123456789 123456789",
            "123456789 123456789 123456789 123456789 123456789 123456789 123456789 123456789 123456789",
        ]) };
    let start = brd.clone();
    assert_eq!(brd.calc_doubles(), true);
    assert_eq!(brd.board, cells([
            "12 12 =3 456789 456789 456789 456789 456789 456789",
            "456789 456789 456789 123456789 123456789 123456789 123456789 123456789 123456789",
            "456789 456789 456789 123456789 123456789 123456789 123456789 123456789 123456789",
            "123456789 123456789 12456789 123456789 123456789 123456789 123456789 123456789 123456789",
            "123456789 123456789 12456789 123456789 123456789 123456789 123456789 123456789 123456789",
            "123456789 123456789 12456789 123456789 123456789 123456789 123456789 123456789 123456789",
            "123456789 123456789 12456789 123456789 123456789 123456789 123456789 123456789 123456789",
            "123456789 123456789 12456789 123456789 123456789 123456789 123456789 123456789 123456789",
            "123456789 123456789 12456789 123456789 123456789 123456789 123456789 123456789 123456789",
        ]));
    assert!(never_grows(&start, &brd));
}

#[test]
fn calc_doubles_compares_candidates_in_order() {
    let mut brd = Board { board: cells([
            "12 21 123456789 123456789 123456789 123456789 123456789 123456789 123456789",
            "123456789 123456789 123456789 123456789 123456789 123456789 123456789 123456789 123456789",
            "123456789 123456789 123456789 123456789 123456789 123456789 123456789 123456789 123456789",
            "123456789 123456789 123456789 123456789 123456789 123456789 123456789 123456789 123456789",
            "123456789 123456789 123456789 123456789 123456789 123456789 123456789 123456789 123456789",
            "123456789 123456789 123456789 123456789 123456789 123456789 123456789 123456789 123456789",
            "123456789 123456789 123456789 123456789 123456789 123456789 123456789 123456789 123456789",
            "123456789 123456789 123456789 123456789 123456789 123456789 123456789 123456789 123456789",
            "123456789 123456789 123456789 123456789 123456789 123456789 123456789 123456789 123456789",
        ]) };
    assert_eq!(brd.calc_doubles(), true);
    assert_eq!(brd.board, cells([
            "12 21 123456789 123456789 123456789 123456789 123456789 123456789 123456789",
            "123456789 123456789 123456789 123456789 123456789 123456789 123456789 123456789 123456789",
            "123456789 123456789 123456789 123456789 123456789 123456789 123456789 123456789 123456789",
            "123456789 123456789 123456789 123456789 123456789 123456789 123456789 123456789 123456789",
            "123456789 123456789 123456789 123456789 123456789 123456789 123456789 123456789 123456789",
            "123456789 123456789 123456789 123456789 123456789 123456789 123456789 123456789 123456789",
            "123456789 123456789 123456789 123456789 123456789 123456789 123456789 123456789 123456789",
            "123456789 123456789 123456789 123456789 123456789 123456789 123456789 123456789 123456789",
            "123456789 123456789 123456789 123456789 123456789 123456789 123456789 123456789 123456789",
        ]));
}

#[test]
fn calc_doubles_without_pairs_changes_nothing() {
    let mut brd = Board::new(lines([
            "000000000",
            "000000000",
            "000000000",
            "000000000",
            "000000000",
            "000000000",
            "000000000",
            "000000000",
            "000000000",
        ])).unwrap();
    let start = brd.clone();
    assert!(brd.calc_doubles());
    assert_eq!(brd.board, start.board);
}

#[test]
fn calc_doubles_after_propagation() {
    let mut brd = Board::new(lines([
            "000600000",
            "072100000",
            "100002500",
            "059000400",
            "006803000",
            "000004006",
            "900500280",
            "000000005",
            "040286079",
        ])).unwrap();
    assert!(brd.trim(9));
    let settled = brd.clone();
    assert_eq!(brd.calc_doubles(), true);
    assert_eq!(brd.board, cells([
            "358 389 3458 =6 3479 58 13789 12349 123478",
            "=6 =7 =2 =1 349 58 389 349 348",
            "=1 389 348 34 3479 =2 =5 =6 3478",
            "238 =5 =9 =7 =6 =1 =4 23 238",
            "=4 12 =6 =8 25 =3 179 1259 127",
            "2378 1238 1378 =9 25 =4 1378 1235 =6",
            "=9 =6 13 =5 134 =7 =2 =8 134",
            "2378 1238 1378 34 134 =9 =6 134 =5",
            "35 =4 135 =2 =8 =6 13 =7 =9",
        ]));
    assert!(never_grows(&settled, &brd));
}
