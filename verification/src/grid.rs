//! The mathematical model of a grid: cells, digits, clashes between peers and the grid
//! that an input text stands for.

use crate::geometry::{is_peer, peer_at};
use vstd::prelude::*;
use vstd::seq_lib::lemma_seq_contains_after_push;

verus! {

/// What a cell is, as a mathematical value.
pub enum Cell {
    /// The cell holds this digit.
    Fixed(char),
    /// The cell is open; these digits are still considered for it, in order.
    Candidates(Seq<char>),
    /// The cell has not been given its candidates yet.
    Uninitialized,
}

/// One of the characters `'1'` to `'9'`.
pub open spec fn is_digit(c: char) -> bool {
    c == '1' || c == '2' || c == '3' || c == '4' || c == '5' || c == '6' || c == '7' || c == '8'
        || c == '9'
}

/// The `k`-th digit character, counted from 1.
pub open spec fn nth_digit(k: int) -> char {
    if k == 1 {
        '1'
    } else if k == 2 {
        '2'
    } else if k == 3 {
        '3'
    } else if k == 4 {
        '4'
    } else if k == 5 {
        '5'
    } else if k == 6 {
        '6'
    } else if k == 7 {
        '7'
    } else if k == 8 {
        '8'
    } else {
        '9'
    }
}

/// The cell holds a digit.
pub open spec fn is_fixed(c: Cell) -> bool {
    c is Fixed
}

/// The cell is open and still considers `d`.
pub open spec fn has_candidate(c: Cell, d: char) -> bool {
    match c {
        Cell::Candidates(s) => s.contains(d),
        _ => false,
    }
}

/// A cell of an initialized grid: a digit, or candidates that are all digits.
pub open spec fn cell_wf(c: Cell) -> bool {
    match c {
        Cell::Fixed(d) => is_digit(d),
        Cell::Candidates(s) => forall|d: char| #[trigger] s.contains(d) ==> is_digit(d),
        Cell::Uninitialized => false,
    }
}

/// An initialized grid: 81 cells, none of them uninitialized.
pub open spec fn grid_wf(g: Seq<Cell>) -> bool {
    &&& g.len() == 81
    &&& forall|i: int| 0 <= i < 81 ==> cell_wf(#[trigger] g[i])
}

/// Some peer of cell `i` holds the digit `d`.
pub open spec fn conflicts(g: Seq<Cell>, i: int, d: char) -> bool {
    exists|p: int| #[trigger] is_peer(i, p) && g[p] == Cell::Fixed(d)
}

/// The digits that the first `k` peers of cell `i` hold, each once, in the order of
/// the peers.
pub open spec fn held_by_peers(g: Seq<Cell>, i: int, k: int) -> Seq<char>
    decreases k,
{
    if k <= 0 {
        Seq::empty()
    } else {
        let before = held_by_peers(g, i, k - 1);
        match g[peer_at(i, k - 1)] {
            Cell::Fixed(d) => if before.contains(d) {
                before
            } else {
                before.push(d)
            },
            _ => before,
        }
    }
}

/// No two peers hold the same digit.
pub open spec fn consistent(g: Seq<Cell>) -> bool {
    forall|a: int, b: int| #[trigger] is_peer(a, b) && is_fixed(g[a]) ==> g[a] != g[b]
}

/// Every cell holds a digit and no two peers hold the same one.
pub open spec fn solved(g: Seq<Cell>) -> bool {
    &&& g.len() == 81
    &&& forall|i: int| 0 <= i < 81 ==> is_fixed(#[trigger] g[i]) && cell_wf(g[i])
    &&& consistent(g)
}

/// `s` without the characters that occur in `banned`, in the order of `s`.
pub open spec fn without(s: Seq<char>, banned: Seq<char>) -> Seq<char>
    decreases s.len(),
{
    if s.len() == 0 {
        s
    } else if banned.contains(s.last()) {
        without(s.drop_last(), banned)
    } else {
        without(s.drop_last(), banned).push(s.last())
    }
}

/// What `without` keeps: the members of `s` that `banned` does not hold.
pub proof fn lemma_without_members(s: Seq<char>, banned: Seq<char>)
    ensures
        forall|d: char| #[trigger]
            without(s, banned).contains(d) <==> s.contains(d) && !banned.contains(d),
    decreases s.len(),
{
    if s.len() > 0 {
        let front = s.drop_last();
        lemma_without_members(front, banned);
        assert(s =~= front.push(s.last()));
        assert forall|d: char| #[trigger]
            without(s, banned).contains(d) <==> s.contains(d) && !banned.contains(d) by {
            lemma_seq_contains_after_push(front, s.last(), d);
            lemma_seq_contains_after_push(without(front, banned), s.last(), d);
        }
    }
}

/// Nothing is struck from a list that holds none of the banned characters.
pub proof fn lemma_without_nothing(s: Seq<char>, banned: Seq<char>)
    requires
        forall|d: char| s.contains(d) ==> !banned.contains(d),
    ensures
        without(s, banned) == s,
    decreases s.len(),
{
    if s.len() > 0 {
        let front = s.drop_last();
        assert(s =~= front.push(s.last()));
        assert(s.contains(s.last())) by {
            assert(s[s.len() - 1] == s.last());
        }
        assert forall|d: char| front.contains(d) implies !banned.contains(d) by {
            lemma_seq_contains_after_push(front, s.last(), d);
        }
        lemma_without_nothing(front, banned);
    }
}

/// Nine lines of nine characters, each `'0'` (a blank) or a digit.
pub open spec fn well_formed_input(lines: Seq<Seq<char>>) -> bool {
    &&& lines.len() == 9
    &&& forall|r: int| 0 <= r < 9 ==> (#[trigger] lines[r]).len() == 9
    &&& forall|r: int, c: int|
        0 <= r < 9 && 0 <= c < 9 ==> #[trigger] lines[r][c] == '0' || is_digit(lines[r][c])
}

/// The cell that an input character stands for: a blank is left uninitialized.
pub open spec fn parsed_cell(c: char) -> Cell {
    if c == '0' {
        Cell::Uninitialized
    } else {
        Cell::Fixed(c)
    }
}

/// The grid as the input gives it, row by row.
pub open spec fn parsed(lines: Seq<Seq<char>>) -> Seq<Cell> {
    Seq::new(81, |i: int| parsed_cell(lines[i / 9][i % 9]))
}

/// The digits among the first `n` that no peer of cell `i` holds, in ascending order.
pub open spec fn open_digits(g: Seq<Cell>, i: int, n: int) -> Seq<char>
    decreases n,
{
    if n <= 0 {
        Seq::empty()
    } else if conflicts(g, i, nth_digit(n)) {
        open_digits(g, i, n - 1)
    } else {
        open_digits(g, i, n - 1).push(nth_digit(n))
    }
}

/// A cell after initialization: an uninitialized cell considers every digit that no
/// peer holds; any other cell is as it was.
pub open spec fn initial_cell(g: Seq<Cell>, i: int) -> Cell {
    match g[i] {
        Cell::Uninitialized => Cell::Candidates(open_digits(g, i, 9)),
        c => c,
    }
}

/// The grid after initialization.
pub open spec fn initialized(g: Seq<Cell>) -> Seq<Cell> {
    Seq::new(81, |i: int| initial_cell(g, i))
}

/// Initial candidates are digits that no peer holds.
pub proof fn lemma_open_digits_members(g: Seq<Cell>, i: int, n: int)
    requires
        0 <= n <= 9,
    ensures
        forall|d: char| #[trigger]
            open_digits(g, i, n).contains(d) ==> is_digit(d) && !conflicts(g, i, d),
    decreases n,
{
    if n > 0 {
        lemma_open_digits_members(g, i, n - 1);
        assert forall|d: char| #[trigger] open_digits(g, i, n).contains(d) implies is_digit(d)
            && !conflicts(g, i, d) by {
            lemma_seq_contains_after_push(open_digits(g, i, n - 1), nth_digit(n), d);
        }
    }
}

/// Initial candidates depend on the digits of the grid alone.
pub proof fn lemma_open_digits_same(a: Seq<Cell>, b: Seq<Cell>, i: int, n: int)
    requires
        a.len() == 81,
        b.len() == 81,
        forall|p: int| 0 <= p < 81 && (is_fixed(a[p]) || is_fixed(b[p])) ==> a[p] == b[p],
    ensures
        open_digits(a, i, n) == open_digits(b, i, n),
    decreases n,
{
    if n > 0 {
        lemma_open_digits_same(a, b, i, n - 1);
        let d = nth_digit(n);
        if conflicts(a, i, d) {
            let p = choose|p: int| #[trigger] is_peer(i, p) && a[p] == Cell::Fixed(d);
            assert(is_peer(i, p) && b[p] == Cell::Fixed(d));
        }
        if conflicts(b, i, d) {
            let p = choose|p: int| #[trigger] is_peer(i, p) && b[p] == Cell::Fixed(d);
            assert(is_peer(i, p) && a[p] == Cell::Fixed(d));
        }
    }
}

} // verus!
