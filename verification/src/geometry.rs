//! Index arithmetic of the 9×9 grid: rows, columns, boxes and peers.

use crate::board::Board;
use vstd::prelude::*;
use vstd::seq_lib::lemma_seq_contains_after_push;

verus! {

/// Row of a cell index.
pub open spec fn row_of(i: int) -> int {
    i / 9
}

/// Column of a cell index.
pub open spec fn col_of(i: int) -> int {
    i % 9
}

/// Box (3×3 block) of a cell index, numbered row-major from 0 to 8.
pub open spec fn box_of(i: int) -> int {
    ((i / 9) / 3) * 3 + (i % 9) / 3
}

/// Two distinct cells of the grid that share a row, a column or a box.
pub open spec fn is_peer(a: int, b: int) -> bool {
    &&& 0 <= a < 81
    &&& 0 <= b < 81
    &&& a != b
    &&& (row_of(a) == row_of(b) || col_of(a) == col_of(b) || box_of(a) == box_of(b))
}

/// The `n`-th number from `start` on when `gap` is left out.
pub open spec fn skip_one(start: int, gap: int, n: int) -> int {
    if start + n < gap {
        start + n
    } else {
        start + n + 1
    }
}

/// The `k`-th peer of cell `i`: first the eight others of its row, then the eight
/// others of its column, then the four cells of its box in another row and column,
/// each part in ascending order.
pub open spec fn peer_at(i: int, k: int) -> int {
    if k < 8 {
        (i / 9) * 9 + skip_one(0, i % 9, k)
    } else if k < 16 {
        skip_one(0, i / 9, k - 8) * 9 + i % 9
    } else {
        skip_one(((i / 9) / 3) * 3, i / 9, (k - 16) / 2) * 9 + skip_one(
            ((i % 9) / 3) * 3,
            i % 9,
            (k - 16) % 2,
        )
    }
}

/// The `m`-th cell of a unit: unit `3 * n` is row `n`, unit `3 * n + 1` column `n` and
/// unit `3 * n + 2` box `n`.
pub open spec fn unit_cell(unit: int, m: int) -> int {
    let n = unit / 3;
    if unit % 3 == 0 {
        n * 9 + m
    } else if unit % 3 == 1 {
        m * 9 + n
    } else {
        ((n / 3) * 3 + m / 3) * 9 + (n % 3) * 3 + m % 3
    }
}

/// The number of the row of a cell where `axis` is 0, of its column where it is 1 and of
/// its box otherwise.
pub open spec fn unit_of(axis: int, i: int) -> int {
    if axis == 0 {
        row_of(i)
    } else if axis == 1 {
        col_of(i)
    } else {
        box_of(i)
    }
}

/// The nine cells of unit `n`, in ascending order.
pub open spec fn unit_seq(n: int) -> Seq<usize> {
    Seq::new(9, |m: int| unit_cell(n, m) as usize)
}

/// A strictly ascending list of indices.
pub open spec fn ascending(s: Seq<usize>) -> bool {
    forall|a: int, b: int| 0 <= a < b < s.len() ==> s[a] < s[b]
}

/// Nine cells that are pairwise peers: a row, a column or a box.
pub open spec fn is_unit(s: Seq<usize>) -> bool {
    &&& s.len() == 9
    &&& forall|a: int, b: int| 0 <= a < b < 9 ==> is_peer(s[a] as int, s[b] as int)
}

/// The cell `j` lies in the 3×3 block whose first row and column are given.
pub open spec fn in_block(j: usize, start_row: usize, start_col: usize) -> bool {
    &&& start_row <= j / 9 < start_row + 3
    &&& start_col <= j % 9 < start_col + 3
}

proof fn lemma_in_block(j: usize, idx: usize)
    requires
        idx < 81,
    ensures
        in_block(j, (((idx / 9) / 3) * 3) as usize, (((idx % 9) / 3) * 3) as usize) <==> (j < 81
            && box_of(j as int) == box_of(idx as int)),
{
    let a = (j / 9) / 3;
    let b = (j % 9) / 3;
    let c = (idx / 9) / 3;
    let d = (idx % 9) / 3;
    assert(b < 3 && d < 3 && c < 3);
    if j < 81 {
        assert(a < 3);
        assert((a * 3 + b == c * 3 + d) <==> (a == c && b == d));
    }
}

impl Board {
    /// The cells of the row of `idx` in ascending order, with or without `idx` itself.
    pub fn get_row_indexes(idx: usize, include_index: bool) -> (out: Vec<usize>)
        requires
            idx < 81,
        ensures
            ascending(out@),
            out@.len() == if include_index { 9int } else { 8int },
            forall|j: usize|
                #[trigger] out@.contains(j) <==> (j < 81 && row_of(j as int) == row_of(idx as int) && (
                include_index || j != idx)),
            include_index ==> is_unit(out@),
            forall|a: int|
                0 <= a < out@.len() ==> #[trigger] out@[a] == (idx / 9) * 9 + (if include_index {
                    a
                } else {
                    skip_one(0, idx as int % 9, a)
                }),
    {
        let start: usize = (idx / 9) * 9;
        let mut out: Vec<usize> = Vec::new();
        let mut k: usize = 0;
        while k < 9
            invariant
                k <= 9,
                idx < 81,
                start == (idx / 9) * 9,
                out@.len() == if include_index || start + k <= idx { k as int } else { k - 1 },
                forall|a: int| 0 <= a < out@.len() ==> start <= #[trigger] out@[a] < start + k,
                forall|a: int|
                    0 <= a < out@.len() ==> #[trigger] out@[a] == start + (if include_index {
                        a
                    } else {
                        skip_one(0, idx as int % 9, a)
                    }),
                ascending(out@),
                forall|j: usize|
                    #[trigger] out@.contains(j) <==> (start <= j < start + k && (include_index || j != idx)),
            decreases 9 - k,
        {
            let cell: usize = start + k;
            if include_index || cell != idx {
                proof {
                    broadcast use lemma_seq_contains_after_push;

                }
                out.push(cell);
            }
            k += 1;
        }
        out
    }

    /// The cells of the column of `idx` in ascending order, with or without `idx` itself.
    pub fn get_col_indexes(idx: usize, include_index: bool) -> (out: Vec<usize>)
        requires
            idx < 81,
        ensures
            ascending(out@),
            out@.len() == if include_index { 9int } else { 8int },
            forall|j: usize|
                #[trigger] out@.contains(j) <==> (j < 81 && col_of(j as int) == col_of(idx as int) && (
                include_index || j != idx)),
            include_index ==> is_unit(out@),
            forall|a: int|
                0 <= a < out@.len() ==> #[trigger] out@[a] == (if include_index {
                    a
                } else {
                    skip_one(0, idx as int / 9, a)
                }) * 9 + idx % 9,
    {
        let shift: usize = idx % 9;
        let mut out: Vec<usize> = Vec::new();
        let mut k: usize = 0;
        while k < 9
            invariant
                k <= 9,
                idx < 81,
                shift == idx % 9,
                out@.len() == if include_index || k * 9 + shift <= idx { k as int } else { k - 1 },
                forall|a: int|
                    0 <= a < out@.len() ==> (#[trigger] out@[a]) % 9 == shift && out@[a] < k * 9,
                forall|a: int|
                    0 <= a < out@.len() ==> #[trigger] out@[a] == (if include_index {
                        a
                    } else {
                        skip_one(0, idx as int / 9, a)
                    }) * 9 + shift,
                ascending(out@),
                forall|j: usize|
                    #[trigger] out@.contains(j) <==> (j < k * 9 && j % 9 == shift && (include_index || j
                        != idx)),
            decreases 9 - k,
        {
            let cell: usize = k * 9 + shift;
            if include_index || cell != idx {
                proof {
                    broadcast use lemma_seq_contains_after_push;

                }
                out.push(cell);
            }
            k += 1;
        }
        out
    }

    /// The nine cells of the box of `idx` in ascending order.
    pub fn get_square_indexes(idx: usize) -> (out: Vec<usize>)
        requires
            idx < 81,
        ensures
            ascending(out@),
            is_unit(out@),
            forall|j: usize|
                #[trigger] out@.contains(j) <==> (j < 81 && box_of(j as int) == box_of(idx as int)),
            forall|a: int|
                0 <= a < 9 ==> #[trigger] out@[a] == (((idx / 9) / 3) * 3 + a / 3) * 9 + ((idx % 9)
                    / 3) * 3 + a % 3,
    {
        let start_row: usize = ((idx / 9) / 3) * 3;
        let start_col: usize = ((idx % 9) / 3) * 3;
        let mut out: Vec<usize> = Vec::new();
        let mut r: usize = 0;
        let mut c: usize = 0;
        while r < 3
            invariant
                r <= 3,
                c < 3,
                r == 3 ==> c == 0,
                idx < 81,
                start_row == ((idx / 9) / 3) * 3,
                start_col == ((idx % 9) / 3) * 3,
                out@.len() == r * 3 + c,
                forall|a: int|
                    0 <= a < out@.len() ==> #[trigger] out@[a] == (start_row + a / 3) * 9 + start_col
                        + a % 3,
                forall|a: int| 0 <= a < out@.len() ==> in_block(#[trigger] out@[a], start_row, start_col),
                forall|a: int|
                    0 <= a < out@.len() ==> #[trigger] out@[a] < (start_row + r) * 9 + start_col + c,
                ascending(out@),
                forall|j: usize|
                    #[trigger] out@.contains(j) <==> (in_block(j, start_row, start_col) && j < (start_row + r)
                        * 9 + start_col + c),
            decreases (3 - r) * 3 - c,
        {
            let cell: usize = (start_row + r) * 9 + start_col + c;
            proof {
                broadcast use lemma_seq_contains_after_push;

            }
            out.push(cell);
            c += 1;
            if c == 3 {
                c = 0;
                r += 1;
            }
        }
        proof {
            assert forall|j: usize| #[trigger]
                out@.contains(j) <==> (j < 81 && box_of(j as int) == box_of(idx as int)) by {
                lemma_in_block(j, idx);
            }
            assert forall|a: int, b: int| 0 <= a < b < 9 implies is_peer(
                out@[a] as int,
                out@[b] as int,
            ) by {
                lemma_in_block(out@[a], idx);
                lemma_in_block(out@[b], idx);
            }
        }
        out
    }

    /// The four cells of the box of `idx` that lie in another row and another column,
    /// in ascending order.
    pub fn get_distinct_square_indexes(idx: usize) -> (out: Vec<usize>)
        requires
            idx < 81,
        ensures
            ascending(out@),
            out@.len() == 4,
            forall|a: int|
                0 <= a < 4 ==> #[trigger] out@[a] == skip_one(
                    ((idx as int / 9) / 3) * 3,
                    idx as int / 9,
                    a / 2,
                ) * 9 + skip_one(((idx as int % 9) / 3) * 3, idx as int % 9, a % 2),
            forall|j: usize|
                #[trigger] out@.contains(j) <==> (j < 81 && box_of(j as int) == box_of(idx as int) && row_of(
                    j as int,
                ) != row_of(idx as int) && col_of(j as int) != col_of(idx as int)),
    {
        let actual_row: usize = idx / 9;
        let actual_col: usize = idx % 9;
        let start_row: usize = ((idx / 9) / 3) * 3;
        let start_col: usize = ((idx % 9) / 3) * 3;
        let mut out: Vec<usize> = Vec::new();
        let mut r: usize = 0;
        let mut c: usize = 0;
        while r < 3
            invariant
                r <= 3,
                c < 3,
                r == 3 ==> c == 0,
                idx < 81,
                actual_row == idx / 9,
                actual_col == idx % 9,
                start_row == ((idx / 9) / 3) * 3,
                start_col == ((idx % 9) / 3) * 3,
                out@.len() == (r - (if actual_row < start_row + r { 1int } else { 0int })) * 2 + (
                if start_row + r == actual_row {
                    0int
                } else {
                    c - (if actual_col < start_col + c { 1int } else { 0int })
                }),
                forall|a: int|
                    0 <= a < out@.len() ==> #[trigger] out@[a] < (start_row + r) * 9 + start_col + c,
                ascending(out@),
                forall|a: int|
                    0 <= a < out@.len() ==> #[trigger] out@[a] == skip_one(
                        start_row as int,
                        actual_row as int,
                        a / 2,
                    ) * 9 + skip_one(start_col as int, actual_col as int, a % 2),
                forall|j: usize|
                    #[trigger] out@.contains(j) <==> (in_block(j, start_row, start_col) && j / 9 != actual_row
                        && j % 9 != actual_col && j < (start_row + r) * 9 + start_col + c),
            decreases (3 - r) * 3 - c,
        {
            let row: usize = start_row + r;
            let col: usize = start_col + c;
            if row != actual_row && col != actual_col {
                proof {
                    broadcast use lemma_seq_contains_after_push;

                }
                out.push(row * 9 + col);
            }
            c += 1;
            if c == 3 {
                c = 0;
                r += 1;
            }
        }
        proof {
            assert forall|j: usize| #[trigger]
                out@.contains(j) <==> (j < 81 && box_of(j as int) == box_of(idx as int) && row_of(
                    j as int,
                ) != row_of(idx as int) && col_of(j as int) != col_of(idx as int)) by {
                lemma_in_block(j, idx);
            }
        }
        out
    }

    /// The cells of unit `n`: unit `3 * i` is row `i`, unit `3 * i + 1` column `i` and
    /// unit `3 * i + 2` box `i`.
    pub fn unit_indexes(n: usize) -> (out: Vec<usize>)
        requires
            n < 27,
        ensures
            out@ == unit_seq(n as int),
            is_unit(out@),
            forall|j: usize|
                #[trigger] out@.contains(j) <==> (j < 81 && unit_of(n as int % 3, j as int) == n
                    / 3),
    {
        let index: usize = n / 3;
        if n % 3 == 0 {
            let out = Board::get_row_indexes(index * 9, true);
            assert(out@ =~= unit_seq(n as int));
            out
        } else if n % 3 == 1 {
            let out = Board::get_col_indexes(index, true);
            assert(out@ =~= unit_seq(n as int));
            out
        } else {
            let square: usize = (((index / 3) * 9) * 3) + ((index % 3) * 3);
            let out = Board::get_square_indexes(square);
            proof {
                assert(square / 9 == (index / 3) * 3);
                assert(square % 9 == (index % 3) * 3);
                assert(((square / 9) / 3) * 3 == (index / 3) * 3);
                assert(((square % 9) / 3) * 3 == (index % 3) * 3);
                assert(box_of(square as int) == index);
                assert forall|m: int| 0 <= m < 9 implies out@[m] == unit_cell(n as int, m) by {
                    assert(out@[m] == (((square / 9) / 3) * 3 + m / 3) * 9 + ((square % 9) / 3) * 3
                        + m % 3);
                }
                assert(out@ =~= unit_seq(n as int));
            }
            out
        }
    }

    /// The twenty peers of `idx`: the rest of its row, the rest of its column, then the
    /// four cells of its box that lie in neither.
    pub fn get_associated_indexes(idx: usize) -> (out: Vec<usize>)
        requires
            idx < 81,
        ensures
            out@.len() == 20,
            forall|k: int| 0 <= k < 20 ==> is_peer(idx as int, #[trigger] out@[k] as int),
            forall|j: int| is_peer(idx as int, j) ==> out@.contains(j as usize),
            forall|k: int| 0 <= k < 8 ==> row_of(#[trigger] out@[k] as int) == row_of(idx as int),
            forall|k: int| 8 <= k < 16 ==> col_of(#[trigger] out@[k] as int) == col_of(idx as int),
            forall|k: int|
                16 <= k < 20 ==> row_of(#[trigger] out@[k] as int) != row_of(idx as int) && col_of(
                    out@[k] as int,
                ) != col_of(idx as int),
            ascending(out@.subrange(0, 8)),
            ascending(out@.subrange(8, 16)),
            ascending(out@.subrange(16, 20)),
            forall|k: int| 0 <= k < 20 ==> #[trigger] out@[k] == peer_at(idx as int, k),
    {
        let mut vals = Board::get_row_indexes(idx, false);
        let cols = Board::get_col_indexes(idx, false);
        let squares = Board::get_distinct_square_indexes(idx);
        let ghost row_part = vals@;
        let mut k: usize = 0;
        while k < 8
            invariant
                k <= 8,
                cols@.len() == 8,
                vals@ == row_part + cols@.take(k as int),
            decreases 8 - k,
        {
            vals.push(cols[k]);
            proof {
                assert(cols@.take(k + 1) =~= cols@.take(k as int).push(cols@[k as int]));
            }
            k += 1;
        }
        let mut k: usize = 0;
        while k < 4
            invariant
                k <= 4,
                cols@.len() == 8,
                squares@.len() == 4,
                vals@ == row_part + cols@ + squares@.take(k as int),
            decreases 4 - k,
        {
            vals.push(squares[k]);
            proof {
                assert(squares@.take(k + 1) =~= squares@.take(k as int).push(squares@[k as int]));
            }
            k += 1;
        }
        proof {
            assert(squares@.take(4) =~= squares@);
            assert(cols@.take(8) =~= cols@);
            assert(vals@ =~= row_part + cols@ + squares@);
            assert(vals@.subrange(0, 8) =~= row_part);
            assert(vals@.subrange(8, 16) =~= cols@);
            assert(vals@.subrange(16, 20) =~= squares@);
            assert forall|k: int| 0 <= k < 20 implies #[trigger] vals@[k] == peer_at(
                idx as int,
                k,
            ) by {
                if k < 8 {
                    assert(vals@[k] == row_part[k]);
                } else if k < 16 {
                    assert(vals@[k] == cols@[k - 8]);
                } else {
                    assert(vals@[k] == squares@[k - 16]);
                }
            }
            assert forall|k: int| 0 <= k < 8 implies row_of(#[trigger] vals@[k] as int) == row_of(
                idx as int,
            ) by {
                assert(vals@[k] == row_part[k]);
                assert(row_part.contains(row_part[k]));
            }
            assert forall|k: int| 8 <= k < 16 implies col_of(#[trigger] vals@[k] as int) == col_of(
                idx as int,
            ) by {
                assert(vals@[k] == cols@[k - 8]);
                assert(cols@.contains(cols@[k - 8]));
            }
            assert forall|k: int| 16 <= k < 20 implies row_of(#[trigger] vals@[k] as int) != row_of(
                idx as int,
            ) && col_of(vals@[k] as int) != col_of(idx as int) by {
                assert(vals@[k] == squares@[k - 16]);
                assert(squares@.contains(squares@[k - 16]));
            }
            assert forall|k: int| 0 <= k < 20 implies is_peer(
                idx as int,
                #[trigger] vals@[k] as int,
            ) by {
                if k < 8 {
                    assert(vals@[k] == row_part[k]);
                    assert(row_part.contains(row_part[k]));
                } else if k < 16 {
                    assert(vals@[k] == cols@[k - 8]);
                    assert(cols@.contains(cols@[k - 8]));
                } else {
                    assert(vals@[k] == squares@[k - 16]);
                    assert(squares@.contains(squares@[k - 16]));
                }
            }
            assert forall|j: int| is_peer(idx as int, j) implies vals@.contains(j as usize) by {
                let u = j as usize;
                if row_of(j) == row_of(idx as int) {
                    assert(row_part.contains(u));
                    let p = choose|p: int| 0 <= p < row_part.len() && row_part[p] == u;
                    assert(vals@[p] == u);
                } else if col_of(j) == col_of(idx as int) {
                    assert(cols@.contains(u));
                    let p = choose|p: int| 0 <= p < cols@.len() && cols@[p] == u;
                    assert(vals@[8 + p] == u);
                } else {
                    assert(squares@.contains(u));
                    let p = choose|p: int| 0 <= p < squares@.len() && squares@[p] == u;
                    assert(vals@[16 + p] == u);
                }
            }
        }
        vals
    }
}

} // verus!
