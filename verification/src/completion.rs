//! The mathematical model of the search: completions of a grid and their order.

use crate::geometry::is_peer;
use crate::grid::{Cell, cell_wf, conflicts, consistent, grid_wf, is_digit, is_fixed, solved};
use vstd::prelude::*;

verus! {

/// `g` fills the cells of `b` that are open from index `from` on: every other cell is
/// as in `b`, and each filled cell holds a digit that none of its peers holds in `g`.
pub open spec fn completes(b: Seq<Cell>, from: int, g: Seq<Cell>) -> bool {
    &&& b.len() == 81
    &&& g.len() == 81
    &&& forall|j: int| 0 <= j < 81 && (j < from || is_fixed(b[j])) ==> #[trigger] g[j] == b[j]
    &&& forall|j: int|
        from <= j < 81 && !is_fixed(b[j]) ==> match #[trigger] g[j] {
            Cell::Fixed(d) => is_digit(d) && !conflicts(g, j, d),
            _ => false,
        }
}

/// The place of a digit among `'1'` to `'9'`; 0 for an open cell.
pub open spec fn cell_rank(c: Cell) -> int {
    match c {
        Cell::Fixed(d) => if d == '1' {
            1
        } else if d == '2' {
            2
        } else if d == '3' {
            3
        } else if d == '4' {
            4
        } else if d == '5' {
            5
        } else if d == '6' {
            6
        } else if d == '7' {
            7
        } else if d == '8' {
            8
        } else {
            9
        },
        _ => 0,
    }
}

/// `g` is `h`, or holds the smaller digit in the first cell in which they differ.
pub open spec fn comes_first(g: Seq<Cell>, h: Seq<Cell>) -> bool {
    g == h || exists|j: int|
        0 <= j < 81 && (forall|i: int| 0 <= i < j ==> g[i] == h[i]) && cell_rank(#[trigger] g[j])
            < cell_rank(h[j])
}

/// `g` is the first of the completions of `b` from `from` on, cell by cell and digit by
/// digit.
pub open spec fn first_completion(b: Seq<Cell>, from: int, g: Seq<Cell>) -> bool {
    &&& completes(b, from, g)
    &&& forall|h: Seq<Cell>| #[trigger] completes(b, from, h) ==> comes_first(g, h)
}

/// Every solved grid that keeps the digits of `b` is a completion of `b`: where the
/// search finds no completion, no solved grid holds the digits of `b`.
pub proof fn lemma_solution_is_completion(b: Seq<Cell>, g: Seq<Cell>)
    requires
        b.len() == 81,
        solved(g),
        forall|i: int| 0 <= i < 81 && is_fixed(b[i]) ==> g[i] == b[i],
    ensures
        completes(b, 0, g),
{
    assert forall|j: int| 0 <= j < 81 && !is_fixed(b[j]) implies match #[trigger] g[j] {
        Cell::Fixed(d) => is_digit(d) && !conflicts(g, j, d),
        _ => false,
    } by {
        assert(is_fixed(g[j]) && cell_wf(g[j]));
        let d = g[j]->Fixed_0;
        if conflicts(g, j, d) {
            let p = choose|p: int| #[trigger] is_peer(j, p) && g[p] == Cell::Fixed(d);
            assert(is_peer(j, p));
        }
    }
}

/// A grid that the search filled from its first cell is solved and keeps every digit
/// of the grid it started from, when that grid was initialized and free of clashes.
pub proof fn lemma_completion_is_solution(b: Seq<Cell>, g: Seq<Cell>)
    requires
        grid_wf(b),
        consistent(b),
        completes(b, 0, g),
    ensures
        solved(g),
        forall|i: int| 0 <= i < 81 && is_fixed(b[i]) ==> g[i] == b[i],
{
    assert forall|i: int| 0 <= i < 81 implies is_fixed(#[trigger] g[i]) && cell_wf(g[i]) by {
        assert(cell_wf(b[i]));
    }
    assert forall|x: int, y: int| #[trigger] is_peer(x, y) && is_fixed(g[x]) implies g[x]
        != g[y] by {
        if is_fixed(b[x]) && is_fixed(b[y]) {
            assert(g[x] == b[x] && g[y] == b[y]);
        } else if !is_fixed(b[x]) {
            assert(is_peer(x, y));
        } else {
            assert(is_peer(y, x));
        }
    }
}

} // verus!
