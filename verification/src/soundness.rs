//! Propagation and search on a grid that has a solution: what the cascading
//! assignment, the sweep for single candidates and the naked-pair pass keep of it.

use crate::geometry::{is_peer, is_unit, peer_at, unit_cell, unit_of, unit_seq};
use crate::grid::{
    Cell, cell_wf, conflicts, consistent, has_candidate, initial_cell, initialized, is_digit,
    is_fixed, lemma_open_digits_members, lemma_without_members, nth_digit, open_digits, solved,
    without,
};
use crate::steps::{
    assign, collapses, first_hidden, has_twin, hidden_pass, only_in_group, open_cells,
    pair_elimination, pairs_pass, place_collapsed, rounds, singles_sweep, strike_pair,
    strike_peers, struck_cell, unit_pairs, unit_sweep,
};
use crate::completion::{cell_rank, completes, lemma_solution_is_completion};
use vstd::prelude::*;
use vstd::seq_lib::lemma_seq_contains_after_push;
use vstd::set_lib::{lemma_int_range, lemma_len_subset, set_int_range};

verus! {

/// The cell is one of an initialized grid and leaves room for the digit of `t`: it
/// holds that digit or considers it.
pub open spec fn fits(c: Cell, t: Cell) -> bool {
    cell_wf(c) && match c {
        Cell::Fixed(d) => t == Cell::Fixed(d),
        Cell::Candidates(s) => match t {
            Cell::Fixed(e) => s.contains(e),
            _ => false,
        },
        Cell::Uninitialized => false,
    }
}

/// `sol` is a solved grid that `g` leaves room for in every cell.
pub open spec fn admits(g: Seq<Cell>, sol: Seq<Cell>) -> bool {
    &&& g.len() == 81
    &&& solved(sol)
    &&& forall|i: int| 0 <= i < 81 ==> fits(#[trigger] g[i], sol[i])
}

/// Every entry of the list of peers is a peer.
pub proof fn lemma_peer_at(i: int, k: int)
    requires
        0 <= i < 81,
        0 <= k < 20,
    ensures
        is_peer(i, peer_at(i, k)),
{
}

/// A grid that admits a solution has no clash, and the solution is one of its
/// completions: the search from the first cell succeeds on it.
pub proof fn lemma_admits_solvable(g: Seq<Cell>, sol: Seq<Cell>)
    requires
        admits(g, sol),
    ensures
        consistent(g),
        completes(g, 0, sol),
{
    assert forall|a: int, b: int| #[trigger] is_peer(a, b) && is_fixed(g[a]) implies g[a]
        != g[b] by {
        assert(fits(g[a], sol[a]));
        assert(fits(g[b], sol[b]));
        assert(is_fixed(sol[a]));
    }
    assert forall|i: int| 0 <= i < 81 && is_fixed(g[i]) implies sol[i] == g[i] by {
        assert(fits(g[i], sol[i]));
    }
    lemma_solution_is_completion(g, sol);
}

/// `sol` has every digit of `g` in its place.
pub open spec fn shares_digits(g: Seq<Cell>, sol: Seq<Cell>) -> bool {
    forall|i: int| 0 <= i < 81 && is_fixed(#[trigger] g[i]) ==> sol[i] == g[i]
}

/// No peer holds the digit that the solution has for a cell.
pub proof fn lemma_solution_digit_free(g: Seq<Cell>, sol: Seq<Cell>, i: int, v: char)
    requires
        admits(g, sol),
        0 <= i < 81,
        sol[i] == Cell::Fixed(v),
    ensures
        !conflicts(g, i, v),
{
    if conflicts(g, i, v) {
        let p = choose|p: int| #[trigger] is_peer(i, p) && g[p] == Cell::Fixed(v);
        assert(fits(g[p], sol[p]));
        assert(is_peer(i, p) && is_fixed(sol[i]));
    }
}

/// Striking the digit of a cell from its peers, with the cascade, keeps the solution.
pub proof fn lemma_strike_peers_sound(g: Seq<Cell>, sol: Seq<Cell>, i: int, v: char, k: int)
    requires
        admits(g, sol),
        0 <= i < 81,
        sol[i] == Cell::Fixed(v),
    ensures
        admits(strike_peers(g, i, v, k), sol),
    decreases open_cells(g, 81), 20 - k,
{
    if 0 <= k < 20 {
        let p = peer_at(i, k);
        lemma_peer_at(i, k);
        assert(fits(g[p], sol[p]));
        match g[p] {
            Cell::Candidates(s) => {
                let e = sol[p]->Fixed_0;
                assert(is_peer(i, p) && is_fixed(sol[i]));
                assert(e != v);
                let rest = without(s, seq![v]);
                lemma_without_members(s, seq![v]);
                assert(!seq![v].contains(e)) by {
                    if seq![v].contains(e) {
                        let n = choose|n: int| 0 <= n < seq![v].len() && seq![v][n] == e;
                    }
                }
                assert(rest.contains(e));
                let mid = g.update(p, Cell::Candidates(rest));
                assert forall|j: int| 0 <= j < 81 implies fits(#[trigger] mid[j], sol[j]) by {
                    assert(fits(g[j], sol[j]));
                }
                let taken = mid.update(p, Cell::Fixed(rest[0]));
                let next = if rest.len() == 1 && !conflicts(mid, p, rest[0]) && open_cells(
                    taken,
                    81,
                ) < open_cells(g, 81) {
                    strike_peers(taken, p, rest[0], 0)
                } else {
                    mid
                };
                if rest.len() == 1 && !conflicts(mid, p, rest[0]) && open_cells(taken, 81)
                    < open_cells(g, 81) {
                    let n = choose|n: int| 0 <= n < rest.len() && rest[n] == e;
                    assert(rest[0] == e);
                    assert forall|j: int| 0 <= j < 81 implies fits(#[trigger] taken[j], sol[j]) by {
                        assert(fits(mid[j], sol[j]));
                    }
                    lemma_strike_peers_sound(taken, sol, p, e, 0);
                }
                if open_cells(next, 81) <= open_cells(g, 81) {
                    lemma_strike_peers_sound(next, sol, i, v, k + 1);
                }
            },
            _ => {
                lemma_strike_peers_sound(g, sol, i, v, k + 1);
            },
        }
    }
}

/// Assigning a cell the digit that the solution has for it succeeds and keeps the
/// solution.
pub proof fn lemma_assign_sound(g: Seq<Cell>, sol: Seq<Cell>, i: int, v: char)
    requires
        admits(g, sol),
        0 <= i < 81,
        sol[i] == Cell::Fixed(v),
    ensures
        !conflicts(g, i, v),
        admits(assign(g, i, v), sol),
{
    lemma_solution_digit_free(g, sol, i, v);
    let placed = g.update(i, Cell::Fixed(v));
    assert forall|j: int| 0 <= j < 81 implies fits(#[trigger] placed[j], sol[j]) by {
        assert(fits(g[j], sol[j]));
    }
    lemma_strike_peers_sound(placed, sol, i, v, 0);
}

/// On a grid that admits a solution the sweep for single candidates comes through and
/// leaves a grid that admits it still.
pub proof fn lemma_singles_sweep_sound(g: Seq<Cell>, sol: Seq<Cell>, k: int)
    requires
        admits(g, sol),
    ensures
        singles_sweep(g, k).1,
        admits(singles_sweep(g, k).0, sol),
    decreases 81 - k,
{
    if 0 <= k < 81 {
        assert(fits(g[k], sol[k]));
        match g[k] {
            Cell::Candidates(s) => {
                if s.len() == 1 {
                    let e = sol[k]->Fixed_0;
                    let n = choose|n: int| 0 <= n < s.len() && s[n] == e;
                    assert(s[0] == e);
                    lemma_assign_sound(g, sol, k, e);
                    lemma_singles_sweep_sound(assign(g, k, e), sol, k + 1);
                } else {
                    lemma_singles_sweep_sound(g, sol, k + 1);
                }
            },
            _ => {
                lemma_singles_sweep_sound(g, sol, k + 1);
            },
        }
    }
}

/// Where the `m`-th cell of unit `n` lies: in the grid, and in that row, column or box.
pub proof fn lemma_unit_cell(n: int, m: int)
    requires
        0 <= n < 27,
        0 <= m < 9,
    ensures
        0 <= unit_cell(n, m) < 81,
        unit_of(n % 3, unit_cell(n, m)) == n / 3,
        n % 3 == 0 ==> unit_cell(n, m) % 9 == m,
        n % 3 == 1 ==> unit_cell(n, m) / 9 == m,
        n % 3 == 2 ==> (unit_cell(n, m) / 9) % 3 == m / 3 && (unit_cell(n, m) % 9) % 3 == m % 3,
{
    let q = n / 3;
    assert(0 <= q < 9);
    if n % 3 == 2 {
        let r = (q / 3) * 3 + m / 3;
        let c = (q % 3) * 3 + m % 3;
        assert(0 <= r < 9 && 0 <= c < 9);
        assert(unit_cell(n, m) == r * 9 + c);
        assert((r * 9 + c) / 9 == r && (r * 9 + c) % 9 == c);
        assert(r / 3 == q / 3 && c / 3 == q % 3);
        assert(r % 3 == m / 3 && c % 3 == m % 3);
    }
}

/// The nine cells of every unit are pairwise peers.
pub proof fn lemma_unit_seq_is_unit(n: int)
    requires
        0 <= n < 27,
    ensures
        is_unit(unit_seq(n)),
{
    assert forall|a: int, b: int| 0 <= a < b < 9 implies is_peer(
        unit_seq(n)[a] as int,
        unit_seq(n)[b] as int,
    ) by {
        lemma_unit_cell(n, a);
        lemma_unit_cell(n, b);
        assert(unit_seq(n)[a] as int == unit_cell(n, a));
        assert(unit_seq(n)[b] as int == unit_cell(n, b));
    }
}

/// Every digit that no peer holds is among the initial candidates.
pub proof fn lemma_open_digits_complete(g: Seq<Cell>, i: int, n: int, m: int)
    requires
        1 <= m <= n <= 9,
        !conflicts(g, i, nth_digit(m)),
    ensures
        open_digits(g, i, n).contains(nth_digit(m)),
    decreases n,
{
    if m < n {
        lemma_open_digits_complete(g, i, n - 1, m);
        if !conflicts(g, i, nth_digit(n)) {
            lemma_seq_contains_after_push(open_digits(g, i, n - 1), nth_digit(n), nth_digit(m));
        }
    } else {
        lemma_seq_contains_after_push(open_digits(g, i, n - 1), nth_digit(n), nth_digit(m));
    }
}

/// The grid built from givens that a solved grid shares admits that solved grid.
pub proof fn lemma_initialized_admits(g: Seq<Cell>, sol: Seq<Cell>)
    requires
        g.len() == 81,
        solved(sol),
        forall|i: int| 0 <= i < 81 ==> !(#[trigger] g[i] is Candidates),
        shares_digits(g, sol),
    ensures
        admits(initialized(g), sol),
{
    let start = initialized(g);
    assert forall|i: int| 0 <= i < 81 implies fits(#[trigger] start[i], sol[i]) by {
        assert(start[i] == initial_cell(g, i));
        lemma_open_digits_members(g, i, 9);
        assert(is_fixed(sol[i]) && cell_wf(sol[i]));
        if !is_fixed(g[i]) {
            let e = sol[i]->Fixed_0;
            if conflicts(g, i, e) {
                let p = choose|p: int| #[trigger] is_peer(i, p) && g[p] == Cell::Fixed(e);
                assert(is_peer(i, p) && is_fixed(sol[i]));
            }
            let m = if e == '1' {
                1int
            } else if e == '2' {
                2int
            } else if e == '3' {
                3int
            } else if e == '4' {
                4int
            } else if e == '5' {
                5int
            } else if e == '6' {
                6int
            } else if e == '7' {
                7int
            } else if e == '8' {
                8int
            } else {
                9int
            };
            assert(nth_digit(m) == e);
            lemma_open_digits_complete(g, i, 9, m);
        }
    }
}

/// Striking a pair that two cells of a unit share keeps the solution: those two cells
/// take the two digits between them, so no other cell of the unit has either.
pub proof fn lemma_strike_pair_sound(
    g: Seq<Cell>,
    group: Seq<usize>,
    pair: Seq<char>,
    sol: Seq<Cell>,
    k: int,
    a: int,
    b: int,
)
    requires
        admits(g, sol),
        is_unit(group),
        pair.len() == 2,
        0 <= a < b < 9,
        g[group[a] as int] == Cell::Candidates(pair),
        g[group[b] as int] == Cell::Candidates(pair),
    ensures
        admits(strike_pair(g, group, pair, k), sol),
    decreases 9 - k,
{
    if 0 <= k < 9 {
        let pa = group[a] as int;
        let pb = group[b] as int;
        assert(is_peer(pa, pb));
        let c = group[k] as int;
        if k < a {
            assert(is_peer(c, pa));
        } else if k > a {
            assert(is_peer(pa, c));
        }
        if k < b {
            assert(is_peer(c, pb));
        } else if k > b {
            assert(is_peer(pb, c));
        }
        assert(fits(g[pa], sol[pa]) && fits(g[pb], sol[pb]) && fits(g[c], sol[c]));
        let x = sol[pa]->Fixed_0;
        let y = sol[pb]->Fixed_0;
        assert(is_fixed(sol[pa]) && sol[pa] != sol[pb]);
        let nx = choose|n: int| 0 <= n < pair.len() && pair[n] == x;
        let ny = choose|n: int| 0 <= n < pair.len() && pair[n] == y;
        let next = g.update(c, struck_cell(g[c], pair));
        assert(fits(next[c], sol[c])) by {
            match g[c] {
                Cell::Candidates(s) => {
                    if s != pair {
                        let e = sol[c]->Fixed_0;
                        lemma_without_members(s, pair);
                        if pair.contains(e) {
                            let ne = choose|n: int| 0 <= n < pair.len() && pair[n] == e;
                            assert(e == x || e == y);
                            assert(is_fixed(sol[c]));
                        }
                    }
                },
                _ => {},
            }
        }
        assert forall|j: int| 0 <= j < 81 implies fits(#[trigger] next[j], sol[j]) by {
            assert(fits(g[j], sol[j]));
        }
        lemma_strike_pair_sound(next, group, pair, sol, k + 1, a, b);
    }
}

/// On a grid that admits a solution, placing the collapsed cells comes through and
/// keeps the solution.
pub proof fn lemma_place_collapsed_sound(
    before: Seq<Cell>,
    g: Seq<Cell>,
    group: Seq<usize>,
    pair: Seq<char>,
    sol: Seq<Cell>,
    k: int,
)
    requires
        admits(g, sol),
        is_unit(group),
    ensures
        place_collapsed(before, g, group, pair, k).1,
        admits(place_collapsed(before, g, group, pair, k).0, sol),
    decreases 9 - k,
{
    if 0 <= k < 9 {
        let i = group[k] as int;
        if k == 0 {
            assert(is_peer(group[0] as int, group[1] as int));
        } else {
            assert(is_peer(group[0] as int, group[k] as int));
        }
        assert(fits(g[i], sol[i]));
        match g[i] {
            Cell::Candidates(s) => {
                if !collapses(before[i], pair) || s.len() != 1 {
                    lemma_place_collapsed_sound(before, g, group, pair, sol, k + 1);
                } else {
                    let e = sol[i]->Fixed_0;
                    let n = choose|n: int| 0 <= n < s.len() && s[n] == e;
                    assert(s[0] == e);
                    lemma_assign_sound(g, sol, i, e);
                    lemma_place_collapsed_sound(before, assign(g, i, e), group, pair, sol, k + 1);
                }
            },
            _ => {
                lemma_place_collapsed_sound(before, g, group, pair, sol, k + 1);
            },
        }
    }
}

/// On a grid that admits a solution, the naked pairs of a unit are eliminated without
/// failure and the solution is kept.
pub proof fn lemma_unit_pairs_sound(g: Seq<Cell>, group: Seq<usize>, sol: Seq<Cell>, a: int)
    requires
        admits(g, sol),
        is_unit(group),
    ensures
        unit_pairs(g, group, a).1,
        admits(unit_pairs(g, group, a).0, sol),
    decreases 9 - a,
{
    if 0 <= a < 9 {
        match g[group[a] as int] {
            Cell::Candidates(s) => {
                if s.len() == 2 && has_twin(g, group, a) {
                    let b = choose|b: int| a < b < 9 && g[#[trigger] group[b] as int] == g[group[a] as int];
                    lemma_strike_pair_sound(g, group, s, sol, 0, a, b);
                    let struck = strike_pair(g, group, s, 0);
                    lemma_place_collapsed_sound(g, struck, group, s, sol, 0);
                    let r = pair_elimination(g, group, s);
                    lemma_unit_pairs_sound(r.0, group, sol, a + 1);
                } else {
                    lemma_unit_pairs_sound(g, group, sol, a + 1);
                }
            },
            _ => {
                lemma_unit_pairs_sound(g, group, sol, a + 1);
            },
        }
    }
}

/// On a grid that admits a solution, the naked-pair pass comes through all units and
/// leaves a grid that admits it still.
pub proof fn lemma_pairs_pass_sound(g: Seq<Cell>, sol: Seq<Cell>, n: int)
    requires
        admits(g, sol),
    ensures
        pairs_pass(g, n).1,
        admits(pairs_pass(g, n).0, sol),
    decreases 27 - n,
{
    if 0 <= n < 27 {
        lemma_unit_seq_is_unit(n);
        lemma_unit_pairs_sound(g, unit_seq(n), sol, 0);
        lemma_pairs_pass_sound(unit_pairs(g, unit_seq(n), 0).0, sol, n + 1);
    }
}

/// The places among `'1'` to `'9'` of the digits that `sol` has in the first `n` cells
/// of `group`.
pub open spec fn ranks(sol: Seq<Cell>, group: Seq<usize>, n: int) -> Set<int>
    decreases n,
{
    if n <= 0 {
        Set::empty()
    } else {
        ranks(sol, group, n - 1).insert(cell_rank(sol[group[n - 1] as int]))
    }
}

proof fn lemma_ranks(sol: Seq<Cell>, group: Seq<usize>, n: int, t: int)
    requires
        solved(sol),
        is_unit(group),
        0 <= n <= 9,
        forall|m: int| 0 <= m < 9 ==> cell_rank(sol[#[trigger] group[m] as int]) != t,
    ensures
        ranks(sol, group, n).finite(),
        ranks(sol, group, n).len() == n,
        ranks(sol, group, n).subset_of(set_int_range(1, 10).remove(t)),
        forall|x: int|
            ranks(sol, group, n).contains(x) ==> exists|m: int|
                0 <= m < n && cell_rank(sol[#[trigger] group[m] as int]) == x,
    decreases n,
{
    if n > 0 {
        lemma_ranks(sol, group, n - 1, t);
        let c = group[n - 1] as int;
        let x = cell_rank(sol[c]);
        let before = ranks(sol, group, n - 1);
        if n - 1 == 0 {
            assert(is_peer(group[0] as int, group[1] as int));
        } else {
            assert(is_peer(group[0] as int, group[n - 1] as int));
        }
        assert(is_fixed(sol[c]) && cell_wf(sol[c]));
        assert(1 <= x <= 9);
        if before.contains(x) {
            let m = choose|m: int| 0 <= m < n - 1 && cell_rank(sol[#[trigger] group[m] as int]) == x;
            assert(is_peer(group[m] as int, c));
            assert(is_fixed(sol[group[m] as int]) && cell_wf(sol[group[m] as int]));
            assert(sol[group[m] as int] == sol[c]);
        }
        assert forall|y: int| ranks(sol, group, n).contains(y) implies exists|m: int|
            0 <= m < n && cell_rank(sol[#[trigger] group[m] as int]) == y by {
            if y == x {
                assert(cell_rank(sol[group[n - 1] as int]) == y);
            } else {
                let m = choose|m: int|
                    0 <= m < n - 1 && cell_rank(sol[#[trigger] group[m] as int]) == y;
                assert(0 <= m < n && cell_rank(sol[group[m] as int]) == y);
            }
        }
    }
}

/// Every unit of a solved grid holds every digit.
pub proof fn lemma_unit_holds_digit(sol: Seq<Cell>, group: Seq<usize>, d: char) -> (m: int)
    requires
        solved(sol),
        is_unit(group),
        is_digit(d),
    ensures
        0 <= m < 9,
        sol[group[m] as int] == Cell::Fixed(d),
{
    if forall|m: int| 0 <= m < 9 ==> sol[#[trigger] group[m] as int] != Cell::Fixed(d) {
        let t = cell_rank(Cell::Fixed(d));
        assert forall|m: int| 0 <= m < 9 implies cell_rank(sol[#[trigger] group[m] as int])
            != t by {
            if m == 0 {
                assert(is_peer(group[0] as int, group[1] as int));
            } else {
                assert(is_peer(group[0] as int, group[m] as int));
            }
            assert(is_fixed(sol[group[m] as int]) && cell_wf(sol[group[m] as int]));
        }
        lemma_ranks(sol, group, 9, t);
        lemma_int_range(1, 10);
        assert(set_int_range(1, 10).contains(t));
        lemma_len_subset(ranks(sol, group, 9), set_int_range(1, 10).remove(t));
        assert(false);
        0
    } else {
        choose|m: int| 0 <= m < 9 && sol[#[trigger] group[m] as int] == Cell::Fixed(d)
    }
}

/// Where `first_hidden` finds a place, the digit there is considered by that one cell
/// of the group alone.
pub proof fn lemma_first_hidden(g: Seq<Cell>, group: Seq<usize>, k: int, s: Seq<char>, c: int)
    requires
        0 <= c,
    ensures
        c <= first_hidden(g, group, k, s, c) || first_hidden(g, group, k, s, c) == s.len(),
        first_hidden(g, group, k, s, c) < s.len() ==> 0 <= first_hidden(g, group, k, s, c)
            && only_in_group(g, group, k, s[first_hidden(g, group, k, s, c)]),
    decreases s.len() - c,
{
    if c < s.len() && !only_in_group(g, group, k, s[c]) {
        lemma_first_hidden(g, group, k, s, c + 1);
    }
}

/// A hidden single that is placed is the digit of the solution: the pass over a unit
/// keeps every solution that the grid admits.
pub proof fn lemma_unit_sweep_sound(g: Seq<Cell>, group: Seq<usize>, sol: Seq<Cell>, k: int)
    requires
        admits(g, sol),
        is_unit(group),
    ensures
        admits(unit_sweep(g, group, k).0, sol),
    decreases 9 - k,
{
    if 0 <= k < 9 {
        let i = group[k] as int;
        if k == 0 {
            assert(is_peer(group[0] as int, group[1] as int));
        } else {
            assert(is_peer(group[0] as int, group[k] as int));
        }
        assert(fits(g[i], sol[i]));
        match g[i] {
            Cell::Candidates(s) => {
                let c = first_hidden(g, group, k, s, 0);
                lemma_first_hidden(g, group, k, s, 0);
                if c >= s.len() {
                    lemma_unit_sweep_sound(g, group, sol, k + 1);
                } else if !conflicts(g, i, s[c]) {
                    let d = s[c];
                    assert(s.contains(d));
                    let m = lemma_unit_holds_digit(sol, group, d);
                    if m != k {
                        let j = group[m] as int;
                        if m < k {
                            assert(is_peer(group[m] as int, group[k] as int));
                        } else {
                            assert(is_peer(group[k] as int, group[m] as int));
                        }
                        assert(is_peer(i, j));
                        assert(fits(g[j], sol[j]));
                        assert(!has_candidate(g[group[m] as int], d));
                        assert(false);
                    }
                    lemma_assign_sound(g, sol, i, d);
                    lemma_unit_sweep_sound(assign(g, i, d), group, sol, k + 1);
                }
            },
            _ => {
                lemma_unit_sweep_sound(g, group, sol, k + 1);
            },
        }
    }
}

/// The hidden-single sweep keeps every solution that the grid admits.
pub proof fn lemma_hidden_pass_sound(g: Seq<Cell>, sol: Seq<Cell>, n: int)
    requires
        admits(g, sol),
    ensures
        admits(hidden_pass(g, n).0, sol),
    decreases 27 - n,
{
    if 0 <= n < 27 {
        lemma_unit_seq_is_unit(n);
        lemma_unit_sweep_sound(g, unit_seq(n), sol, 0);
        let r = unit_sweep(g, unit_seq(n), 0);
        if r.1 {
            lemma_hidden_pass_sound(r.0, sol, n + 1);
        }
    }
}

/// Rounds of the two sweeps keep every solution that the grid admits.
pub proof fn lemma_rounds_sound(g: Seq<Cell>, sol: Seq<Cell>, n: nat)
    requires
        admits(g, sol),
    ensures
        admits(rounds(g, n).0, sol),
    decreases n,
{
    if n > 0 {
        lemma_singles_sweep_sound(g, sol, 0);
        let s = singles_sweep(g, 0);
        lemma_hidden_pass_sound(s.0, sol, 0);
        let h = hidden_pass(s.0, 0);
        if h.1 {
            lemma_rounds_sound(h.0, sol, (n - 1) as nat);
        }
    }
}

} // verus!
