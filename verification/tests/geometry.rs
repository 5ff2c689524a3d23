use sudoku::board::Board;

#[test]
fn row_indexes_with_and_without_the_cell() {
    assert_eq!(Board::get_row_indexes(13, true), vec![9, 10, 11, 12, 13, 14, 15, 16, 17]);
    assert_eq!(Board::get_row_indexes(13, false), vec![9, 10, 11, 12, 14, 15, 16, 17]);
    assert_eq!(Board::get_row_indexes(0, false), vec![1, 2, 3, 4, 5, 6, 7, 8]);
    assert_eq!(Board::get_row_indexes(80, false), vec![72, 73, 74, 75, 76, 77, 78, 79]);
}

#[test]
fn col_indexes_with_and_without_the_cell() {
    assert_eq!(Board::get_col_indexes(13, true), vec![4, 13, 22, 31, 40, 49, 58, 67, 76]);
    assert_eq!(Board::get_col_indexes(13, false), vec![4, 22, 31, 40, 49, 58, 67, 76]);
    assert_eq!(Board::get_col_indexes(80, false), vec![8, 17, 26, 35, 44, 53, 62, 71]);
}

#[test]
fn square_indexes_of_corner_and_centre() {
    assert_eq!(Board::get_square_indexes(0), vec![0, 1, 2, 9, 10, 11, 18, 19, 20]);
    assert_eq!(Board::get_square_indexes(40), vec![30, 31, 32, 39, 40, 41, 48, 49, 50]);
    assert_eq!(Board::get_square_indexes(80), vec![60, 61, 62, 69, 70, 71, 78, 79, 80]);
    assert_eq!(Board::get_square_indexes(54), vec![54, 55, 56, 63, 64, 65, 72, 73, 74]);
}

#[test]
fn distinct_square_indexes_leave_out_row_and_column() {
    assert_eq!(Board::get_distinct_square_indexes(0), vec![10, 11, 19, 20]);
    assert_eq!(Board::get_distinct_square_indexes(40), vec![30, 32, 48, 50]);
    assert_eq!(Board::get_distinct_square_indexes(11), vec![0, 1, 18, 19]);
    assert_eq!(Board::get_distinct_square_indexes(69), vec![61, 62, 79, 80]);
}

#[test]
fn associated_indexes_are_the_twenty_peers() {
    assert_eq!(
        Board::get_associated_indexes(0),
        vec![1, 2, 3, 4, 5, 6, 7, 8, 9, 18, 27, 36, 45, 54, 63, 72, 10, 11, 19, 20]
    );
    assert_eq!(
        Board::get_associated_indexes(40),
        vec![36, 37, 38, 39, 41, 42, 43, 44, 4, 13, 22, 31, 49, 58, 67, 76, 30, 32, 48, 50]
    );
    for idx in 0..81usize {
        let peers = Board::get_associated_indexes(idx);
        assert_eq!(peers.len(), 20);
        for p in peers.iter() {
            assert!(*p < 81);
            assert_ne!(*p, idx);
            let same_row = p / 9 == idx / 9;
            let same_col = p % 9 == idx % 9;
            let same_box = (p / 27 == idx / 27) && ((p % 9) / 3 == (idx % 9) / 3);
            assert!(same_row || same_col || same_box);
        }
        for a in 0..20 {
            for b in (a + 1)..20 {
                assert_ne!(peers[a], peers[b]);
            }
        }
    }
}

#[test]
fn unit_indexes_go_row_column_box() {
    assert_eq!(Board::unit_indexes(0), vec![0, 1, 2, 3, 4, 5, 6, 7, 8]);
    assert_eq!(Board::unit_indexes(1), vec![0, 9, 18, 27, 36, 45, 54, 63, 72]);
    assert_eq!(Board::unit_indexes(2), vec![0, 1, 2, 9, 10, 11, 18, 19, 20]);
    assert_eq!(Board::unit_indexes(12), vec![36, 37, 38, 39, 40, 41, 42, 43, 44]);
    assert_eq!(Board::unit_indexes(13), vec![4, 13, 22, 31, 40, 49, 58, 67, 76]);
    assert_eq!(Board::unit_indexes(14), vec![30, 31, 32, 39, 40, 41, 48, 49, 50]);
    assert_eq!(Board::unit_indexes(24), vec![72, 73, 74, 75, 76, 77, 78, 79, 80]);
    assert_eq!(Board::unit_indexes(25), vec![8, 17, 26, 35, 44, 53, 62, 71, 80]);
    assert_eq!(Board::unit_indexes(26), vec![60, 61, 62, 69, 70, 71, 78, 79, 80]);
    for n in 0..27usize {
        let unit = Board::unit_indexes(n);
        let expected = match n % 3 {
            0 => Board::get_row_indexes((n / 3) * 9, true),
            1 => Board::get_col_indexes(n / 3, true),
            _ => Board::get_square_indexes(((n / 3) / 3) * 27 + ((n / 3) % 3) * 3),
        };
        assert_eq!(unit, expected);
    }
}
