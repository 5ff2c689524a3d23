use sudoku::board::{Board, Value};

fn lines(rows: [&str; 9]) -> Vec<String> {
    rows.iter().map(|r| r.to_string()).collect()
}

fn cells(rows: [&str; 9]) -> Vec<Value> {
    let mut out = Vec::new();
    for row in rows.iter() {
        for token in row.split_whitespace() {
            let chars: Vec<char> = token.chars().collect();
            if chars[0] == '=' {
                out.push(Value::Fixed(chars[1]));
            } else if chars[0] == '-' {
                out.push(Value::Unset(Vec::new()));
            } else {
                out.push(Value::Unset(chars));
            }
        }
    }
    out
}

fn never_grows(before: &Board, after: &Board) -> bool {
    for idx in 0..81usize {
        let fine = match (&before.board[idx], &after.board[idx]) {
            (Value::Fixed(a), Value::Fixed(b)) => a == b,
            (Value::Unset(a), Value::Fixed(b)) => a.contains(b),
            (Value::Unset(a), Value::Unset(b)) => b.iter().all(|d| a.contains(d)),
            _ => false,
        };
        if !fine {
            return false;
        }
    }
    true
}

#[test]
fn set_index_rejects_a_digit_that_a_peer_holds() {
    let mut brd = Board::new(lines([
            "023456789",
            "000000000",
            "000000000",
            "000000000",
            "000000000",
            "000000000",
            "000000000",
            "000000000",
            "000000000",
        ])).unwrap();
    let start = brd.clone();
    assert_eq!(start.board[9], Value::Unset(vec!['1', '4', '5', '6', '7', '8', '9']));
    assert!(!brd.set_index(9, '2'));
    assert_eq!(brd.board, start.board);
}

#[test]
fn set_index_places_a_candidate_and_cascades() {
    let mut brd = Board::new(lines([
            "000600000",
            "072100000",
            "100002500",
            "059000400",
            "006803000",
            "000004006",
            "900500280",
            "000000005",
            "040286079",
        ])).unwrap();
    let start = brd.clone();
    assert!(brd.set_index(0, '3'));
    assert_eq!(brd.board, cells([
            "=3 89 458 =6 4579 5789 1789 1249 12478",
            "468 =7 =2 =1 3459 589 3689 3469 348",
            "=1 689 48 3479 3479 =2 =5 3469 3478",
            "278 =5 =9 7 1267 17 =4 123 12378",
            "247 12 =6 =8 12579 =3 179 1259 127",
            "278 1238 1378 79 12579 =4 13789 12359 =6",
            "=9 136 137 =5 1347 17 =2 =8 134",
            "2678 12368 1378 3479 13479 179 136 1346 =5",
            "=5 =4 13 =2 =8 =6 13 =7 =9",
        ]));
    assert_eq!(brd.board[0], Value::Fixed('3'));
    assert!(never_grows(&start, &brd));
    for peer in Board::get_associated_indexes(0) {
        if let Value::Unset(left) = &brd.board[peer] {
            assert!(!left.contains(&'3'));
        }
    }
}

#[test]
fn set_index_places_a_digit_that_the_cell_did_not_consider() {
    let mut brd = Board { board: cells([
            "123456789 123456789 123456789 123456789 123456789 123456789 123456789 123456789 123456789",
            "123456789 123456789 123456789 123456789 123456789 123456789 123456789 123456789 123456789",
            "123456789 123456789 123456789 123456789 123456789 123456789 123456789 123456789 123456789",
            "123456789 123456789 123456789 123456789 123456789 123456789 123456789 123456789 123456789",
            "123456789 123456789 123456789 123456789 123 123456789 123456789 123456789 123456789",
            "123456789 123456789 123456789 123456789 123456789 123456789 123456789 123456789 123456789",
            "123456789 123456789 123456789 123456789 123456789 123456789 123456789 123456789 123456789",
            "123456789 123456789 123456789 123456789 123456789 123456789 123456789 123456789 123456789",
            "123456789 123456789 123456789 123456789 123456789 123456789 123456789 123456789 123456789",
        ]) };
    assert!(brd.set_index(40, '7'));
    assert_eq!(brd.board, cells([
            "123456789 123456789 123456789 123456789 12345689 123456789 123456789 123456789 123456789",
            "123456789 123456789 123456789 123456789 12345689 123456789 123456789 123456789 123456789",
            "123456789 123456789 123456789 123456789 12345689 123456789 123456789 123456789 123456789",
            "123456789 123456789 123456789 12345689 12345689 12345689 123456789 123456789 123456789",
            "12345689 12345689 12345689 12345689 =7 12345689 12345689 12345689 12345689",
            "123456789 123456789 123456789 12345689 12345689 12345689 123456789 123456789 123456789",
            "123456789 123456789 123456789 123456789 12345689 123456789 123456789 123456789 123456789",
            "123456789 123456789 123456789 123456789 12345689 123456789 123456789 123456789 123456789",
            "123456789 123456789 123456789 123456789 12345689 123456789 123456789 123456789 123456789",
        ]));
}

#[test]
fn set_index_replaces_the_digit_of_a_cell() {
    let mut brd = Board::new(lines([
            "500000000",
            "000000000",
            "000000000",
            "000000000",
            "000000000",
            "000000000",
            "000000000",
            "000000000",
            "000000000",
        ])).unwrap();
    assert!(brd.set_index(0, '6'));
    assert_eq!(brd.board, cells([
            "=6 1234789 1234789 1234789 1234789 1234789 1234789 1234789 1234789",
            "1234789 1234789 1234789 123456789 123456789 123456789 123456789 123456789 123456789",
            "1234789 1234789 1234789 123456789 123456789 123456789 123456789 123456789 123456789",
            "1234789 123456789 123456789 123456789 123456789 123456789 123456789 123456789 123456789",
            "1234789 123456789 123456789 123456789 123456789 123456789 123456789 123456789 123456789",
            "1234789 123456789 123456789 123456789 123456789 123456789 123456789 123456789 123456789",
            "1234789 123456789 123456789 123456789 123456789 123456789 123456789 123456789 123456789",
            "1234789 123456789 123456789 123456789 123456789 123456789 123456789 123456789 123456789",
            "1234789 123456789 123456789 123456789 123456789 123456789 123456789 123456789 123456789",
        ]));
}

#[test]
fn set_index_on_a_cell_with_a_digit_still_tests_the_peers() {
    let mut brd = Board::new(lines([
            "560000000",
            "000000000",
            "000000000",
            "000000000",
            "000000000",
            "000000000",
            "000000000",
            "000000000",
            "000000000",
        ])).unwrap();
    let start = brd.clone();
    assert!(!brd.set_index(0, '6'));
    assert_eq!(brd.board, start.board);
}

#[test]
fn set_index_leaves_a_collapsed_peer_open_when_its_digit_is_held() {
    let mut brd = Board { board: cells([
            "123456789 12 123456789 123456789 123456789 123456789 123456789 123456789 123456789",
            "123456789 =2 123456789 123456789 123456789 123456789 123456789 123456789 123456789",
            "123456789 123456789 123456789 123456789 123456789 123456789 123456789 123456789 123456789",
            "123456789 123456789 123456789 123456789 123456789 123456789 123456789 123456789 123456789",
            "123456789 123456789 123456789 123456789 123456789 123456789 123456789 123456789 123456789",
            "123456789 123456789 123456789 123456789 123456789 123456789 123456789 123456789 123456789",
            "123456789 123456789 123456789 123456789 123456789 123456789 123456789 123456789 123456789",
            "123456789 123456789 123456789 123456789 123456789 123456789 123456789 123456789 123456789",
            "123456789 123456789 123456789 123456789 123456789 123456789 123456789 123456789 123456789",
        ]) };
    assert_eq!(brd.set_index(0, '1'), true);
    assert_eq!(brd.board, cells([
            "=1 2 23456789 23456789 23456789 23456789 23456789 23456789 23456789",
            "23456789 =2 23456789 123456789 123456789 123456789 123456789 123456789 123456789",
            "23456789 23456789 23456789 123456789 123456789 123456789 123456789 123456789 123456789",
            "23456789 123456789 123456789 123456789 123456789 123456789 123456789 123456789 123456789",
            "23456789 123456789 123456789 123456789 123456789 123456789 123456789 123456789 123456789",
            "23456789 123456789 123456789 123456789 123456789 123456789 123456789 123456789 123456789",
            "23456789 123456789 123456789 123456789 123456789 123456789 123456789 123456789 123456789",
            "23456789 123456789 123456789 123456789 123456789 123456789 123456789 123456789 123456789",
            "23456789 123456789 123456789 123456789 123456789 123456789 123456789 123456789 123456789",
        ]));
    assert_eq!(brd.board[1], Value::Unset(vec!['2']));
}
