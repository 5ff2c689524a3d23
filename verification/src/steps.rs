//! The mathematical model of propagation: what a step may do to a grid, and what the
//! cascading assignment, the sweeps and the naked-pair pass make of a grid.

use crate::geometry::{is_peer, is_unit, peer_at, unit_of, unit_seq};
use crate::grid::{Cell, conflicts, consistent, has_candidate, is_fixed, without};
use vstd::prelude::*;

verus! {

/// The step from `x` to `y` keeps a digit as it is and lets candidates only shrink:
/// an open cell stays open with no new candidate, or takes one of its candidates.
pub open spec fn cell_shrinks(x: Cell, y: Cell) -> bool {
    match x {
        Cell::Fixed(_) => y == x,
        Cell::Candidates(s) => match y {
            Cell::Fixed(d) => s.contains(d),
            Cell::Candidates(t) => forall|d: char| #[trigger] t.contains(d) ==> s.contains(d),
            Cell::Uninitialized => false,
        },
        Cell::Uninitialized => y == x,
    }
}

/// Every cell of `b` is the cell of `a` or a shrunk form of it.
pub open spec fn shrinks(a: Seq<Cell>, b: Seq<Cell>) -> bool {
    &&& a.len() == b.len()
    &&& forall|i: int|
        #![trigger a[i]]
        #![trigger b[i]]
        0 <= i < a.len() ==> cell_shrinks(a[i], b[i])
}

/// What every propagation step guarantees: candidates only shrink, digits stay, and a
/// grid without clashing peers stays without them.
pub open spec fn refines(a: Seq<Cell>, b: Seq<Cell>) -> bool {
    &&& shrinks(a, b)
    &&& consistent(a) ==> consistent(b)
}

/// `b` is `a`, or some cell that was open in `a` holds a digit in `b`.
pub open spec fn forced(a: Seq<Cell>, b: Seq<Cell>) -> bool {
    a == b || exists|i: int| 0 <= i < a.len() && !is_fixed(#[trigger] a[i]) && is_fixed(b[i])
}

/// The number of open cells among the first `n`.
pub open spec fn open_cells(g: Seq<Cell>, n: int) -> nat
    decreases n,
{
    if n <= 0 {
        0
    } else {
        open_cells(g, n - 1) + if is_fixed(g[n - 1]) {
            0nat
        } else {
            1nat
        }
    }
}

/// Where every digit stays in place or is replaced by a digit, no open cell is added.
pub proof fn lemma_open_cells_keep(a: Seq<Cell>, b: Seq<Cell>, n: int)
    requires
        a.len() == b.len(),
        0 <= n <= a.len(),
        forall|i: int| 0 <= i < n && is_fixed(a[i]) ==> is_fixed(#[trigger] b[i]),
    ensures
        open_cells(b, n) <= open_cells(a, n),
    decreases n,
{
    if n > 0 {
        lemma_open_cells_keep(a, b, n - 1);
        assert(is_fixed(a[n - 1]) ==> is_fixed(b[n - 1]));
    }
}

/// Where, besides that, an open cell is given a digit, fewer open cells are left.
pub proof fn lemma_open_cells_fewer(a: Seq<Cell>, b: Seq<Cell>, n: int, i: int)
    requires
        a.len() == b.len(),
        0 <= i < n <= a.len(),
        forall|j: int| 0 <= j < n && is_fixed(a[j]) ==> is_fixed(#[trigger] b[j]),
        !is_fixed(a[i]),
        is_fixed(b[i]),
    ensures
        open_cells(b, n) < open_cells(a, n),
    decreases n,
{
    if i == n - 1 {
        lemma_open_cells_keep(a, b, n - 1);
    } else {
        lemma_open_cells_fewer(a, b, n - 1, i);
        assert(is_fixed(a[n - 1]) ==> is_fixed(b[n - 1]));
    }
}

/// Shrinking never brings an open cell back.
pub proof fn lemma_open_cells_shrink(a: Seq<Cell>, b: Seq<Cell>, n: int)
    requires
        shrinks(a, b),
        0 <= n <= a.len(),
    ensures
        open_cells(b, n) <= open_cells(a, n),
    decreases n,
{
    if n > 0 {
        lemma_open_cells_shrink(a, b, n - 1);
        assert(cell_shrinks(a[n - 1], b[n - 1]));
    }
}

/// A digit that a peer holds is still held by it after any propagation step.
pub proof fn lemma_conflict_persists(a: Seq<Cell>, b: Seq<Cell>, i: int, d: char)
    requires
        a.len() == 81,
        shrinks(a, b),
        conflicts(a, i, d),
    ensures
        conflicts(b, i, d),
{
    let p = choose|p: int| #[trigger] is_peer(i, p) && a[p] == Cell::Fixed(d);
    assert(cell_shrinks(a[p], b[p]));
    assert(is_peer(i, p) && b[p] == Cell::Fixed(d));
}

/// Once a step has fixed an open cell, no later step leads back to the first grid.
pub proof fn lemma_change_persists(a: Seq<Cell>, b: Seq<Cell>, c: Seq<Cell>)
    requires
        shrinks(a, b),
        shrinks(b, c),
        forced(a, b),
        a != b,
    ensures
        c != a,
{
    let i = choose|i: int| 0 <= i < a.len() && !is_fixed(#[trigger] a[i]) && is_fixed(b[i]);
    assert(cell_shrinks(b[i], c[i]));
}

/// Across successive propagation steps a cell never gains a candidate back and a
/// digit, once placed, stays.
pub proof fn lemma_shrinks_transitive(a: Seq<Cell>, b: Seq<Cell>, c: Seq<Cell>)
    requires
        shrinks(a, b),
        shrinks(b, c),
    ensures
        shrinks(a, c),
{
    assert forall|i: int| 0 <= i < a.len() implies cell_shrinks(#[trigger] a[i], c[i]) by {
        assert(cell_shrinks(a[i], b[i]));
        assert(cell_shrinks(b[i], c[i]));
    }
}

/// Propagation steps compose.
pub proof fn lemma_refines_transitive(a: Seq<Cell>, b: Seq<Cell>, c: Seq<Cell>)
    requires
        refines(a, b),
        refines(b, c),
    ensures
        refines(a, c),
{
    lemma_shrinks_transitive(a, b, c);
}

/// Two steps that each change nothing or fix an open cell do so together.
pub proof fn lemma_forced_transitive(a: Seq<Cell>, b: Seq<Cell>, c: Seq<Cell>)
    requires
        shrinks(a, b),
        shrinks(b, c),
        forced(a, b),
        forced(b, c),
    ensures
        forced(a, c),
{
    if a != b {
        let i = choose|i: int| 0 <= i < a.len() && !is_fixed(#[trigger] a[i]) && is_fixed(b[i]);
        assert(cell_shrinks(b[i], c[i]));
        assert(!is_fixed(a[i]) && is_fixed(c[i]));
    } else if b != c {
        let i = choose|i: int| 0 <= i < b.len() && !is_fixed(#[trigger] b[i]) && is_fixed(c[i]);
        assert(!is_fixed(a[i]) && is_fixed(c[i]));
    }
}

/// The peers of `i` from the `k`-th on lose the candidate `v`, one after the other. A
/// peer left with exactly one candidate that none of its own peers holds takes it at
/// once, and its own peers are gone through in the same way before the next peer of
/// `i` is looked at.
pub open spec fn strike_peers(g: Seq<Cell>, i: int, v: char, k: int) -> Seq<Cell>
    decreases open_cells(g, 81), 20 - k,
{
    if 0 <= k < 20 {
        let p = peer_at(i, k);
        match g[p] {
            Cell::Candidates(s) => {
                let rest = without(s, seq![v]);
                let mid = g.update(p, Cell::Candidates(rest));
                let taken = mid.update(p, Cell::Fixed(rest[0]));
                let next = if rest.len() == 1 && !conflicts(mid, p, rest[0]) && open_cells(
                    taken,
                    81,
                ) < open_cells(g, 81) {
                    strike_peers(taken, p, rest[0], 0)
                } else {
                    mid
                };
                if open_cells(next, 81) <= open_cells(g, 81) {
                    strike_peers(next, i, v, k + 1)
                } else {
                    next
                }
            },
            _ => strike_peers(g, i, v, k + 1),
        }
    } else {
        g
    }
}

/// The cascading assignment of `v` to cell `i`, whatever the cell holds. Where a peer
/// holds `v` the grid stays as it is. Otherwise the cell takes `v` and its peers are
/// gone through in their order (see `strike_peers`).
pub open spec fn assign(g: Seq<Cell>, i: int, v: char) -> Seq<Cell> {
    if 0 <= i < 81 && g.len() == 81 && !conflicts(g, i, v) {
        strike_peers(g.update(i, Cell::Fixed(v)), i, v, 0)
    } else {
        g
    }
}

/// The cell is open with exactly one candidate left.
pub open spec fn is_naked_single(c: Cell) -> bool {
    match c {
        Cell::Candidates(s) => s.len() == 1,
        _ => false,
    }
}

/// Cell `i` has one candidate left and no peer holds that digit.
pub open spec fn placeable_single(g: Seq<Cell>, i: int) -> bool {
    match g[i] {
        Cell::Candidates(s) => s.len() == 1 && !conflicts(g, i, s[0]),
        _ => false,
    }
}

/// Cell `i` still considers `d` although a peer holds it.
pub open spec fn blocked(g: Seq<Cell>, i: int, d: char) -> bool {
    0 <= i < 81 && has_candidate(g[i], d) && conflicts(g, i, d)
}

/// The sweep for single candidates from cell `k` on: the grid it leaves and whether it
/// came through. A cell with one candidate is assigned it; the sweep ends with `false`
/// at the first such cell whose digit a peer holds.
pub open spec fn singles_sweep(g: Seq<Cell>, k: int) -> (Seq<Cell>, bool)
    decreases 81 - k,
{
    if 0 <= k < 81 {
        match g[k] {
            Cell::Candidates(s) => if s.len() != 1 {
                singles_sweep(g, k + 1)
            } else if conflicts(g, k, s[0]) {
                (g, false)
            } else {
                singles_sweep(assign(g, k, s[0]), k + 1)
            },
            _ => singles_sweep(g, k + 1),
        }
    } else {
        (g, true)
    }
}

/// The cell at place `k` of `group` is the only one of the group that considers `d`.
pub open spec fn only_in_group(g: Seq<Cell>, group: Seq<usize>, k: int, d: char) -> bool {
    &&& 0 <= k < group.len()
    &&& has_candidate(g[group[k] as int], d)
    &&& forall|m: int|
        0 <= m < group.len() && m != k ==> !has_candidate(g[#[trigger] group[m] as int], d)
}

/// Cell `i` considers `d`, and no other cell of its row, column or box (by `axis`) does.
pub open spec fn sole_in_unit(g: Seq<Cell>, i: int, d: char, axis: int) -> bool {
    &&& has_candidate(g[i], d)
    &&& forall|j: int|
        0 <= j < 81 && j != i && unit_of(axis, j) == unit_of(axis, i) ==> !has_candidate(
            #[trigger] g[j],
            d,
        )
}

/// Cell `i` is the only cell of its row, of its column or of its box that still
/// considers `d`.
pub open spec fn is_hidden_single(g: Seq<Cell>, i: int, d: char) -> bool {
    &&& 0 <= i < 81
    &&& (sole_in_unit(g, i, d, 0) || sole_in_unit(g, i, d, 1) || sole_in_unit(g, i, d, 2))
}

/// No cell of the grid is a hidden single.
pub open spec fn no_hidden_single(g: Seq<Cell>) -> bool {
    forall|i: int, d: char| !is_hidden_single(g, i, d)
}

/// The first place from `c` on in `s` whose digit only the cell at place `k` of `group`
/// considers; the length of `s` where there is none.
pub open spec fn first_hidden(g: Seq<Cell>, group: Seq<usize>, k: int, s: Seq<char>, c: int) -> int
    decreases s.len() - c,
{
    if c < 0 || c >= s.len() {
        s.len() as int
    } else if only_in_group(g, group, k, s[c]) {
        c
    } else {
        first_hidden(g, group, k, s, c + 1)
    }
}

/// The hidden singles of one unit from its place `k` on: the grid that is left and
/// whether the pass came through. An open cell is assigned the first of its candidates
/// that no other cell of `group` considers; the pass ends with `false` where a peer
/// holds that digit.
pub open spec fn unit_sweep(g: Seq<Cell>, group: Seq<usize>, k: int) -> (Seq<Cell>, bool)
    decreases 9 - k,
{
    if 0 <= k < 9 {
        let i = group[k] as int;
        match g[i] {
            Cell::Candidates(s) => {
                let c = first_hidden(g, group, k, s, 0);
                if c >= s.len() {
                    unit_sweep(g, group, k + 1)
                } else if conflicts(g, i, s[c]) {
                    (g, false)
                } else {
                    unit_sweep(assign(g, i, s[c]), group, k + 1)
                }
            },
            _ => unit_sweep(g, group, k + 1),
        }
    } else {
        (g, true)
    }
}

/// The hidden-single sweep from unit `n` on, through row 0, column 0, box 0, row 1 and
/// so on: the grid that is left and whether the sweep came through all units.
pub open spec fn hidden_pass(g: Seq<Cell>, n: int) -> (Seq<Cell>, bool)
    decreases 27 - n,
{
    if 0 <= n < 27 {
        let r = unit_sweep(g, unit_seq(n), 0);
        if r.1 {
            hidden_pass(r.0, n + 1)
        } else {
            r
        }
    } else {
        (g, true)
    }
}

/// `m + n` rounds are `m` rounds followed, where they came through, by `n` rounds on
/// the grid they left.
pub proof fn lemma_rounds_split(g: Seq<Cell>, m: nat, n: nat)
    ensures
        rounds(g, m + n) == if rounds(g, m).1 {
            rounds(rounds(g, m).0, n)
        } else {
            rounds(g, m)
        },
    decreases m,
{
    if m > 0 {
        let s = singles_sweep(g, 0);
        if s.1 {
            let h = hidden_pass(s.0, 0);
            if h.1 {
                lemma_rounds_split(h.0, (m - 1) as nat, n);
                assert(rounds(g, m + n) == rounds(h.0, ((m + n) - 1) as nat));
                assert((m + n) - 1 == (m - 1) + n);
            }
        }
    }
}

/// What a hidden-single sweep does to a grid: a propagation step that changes nothing
/// or fixes a cell; that changes nothing and reports success exactly where the grid has
/// no hidden single; and that reports failure only with a cell that considers a digit
/// held by a peer.
pub open spec fn hidden_sweep(a: Seq<Cell>, b: Seq<Cell>, ok: bool) -> bool {
    &&& refines(a, b)
    &&& forced(a, b)
    &&& !ok ==> exists|j: int, d: char| #[trigger] blocked(b, j, d)
    &&& no_hidden_single(a) ==> ok && b == a
    &&& ok && b == a ==> no_hidden_single(a)
}

/// A hidden-single sweep that fixes no cell has reached a fixed point: it changed
/// nothing, and a second sweep right after it leaves the same grid with the same
/// report.
pub proof fn lemma_hidden_sweep_fixed_point(
    a: Seq<Cell>,
    b: Seq<Cell>,
    c: Seq<Cell>,
    first: bool,
    second: bool,
)
    requires
        hidden_sweep(a, b, first),
        (b, first) == hidden_pass(a, 0),
        (c, second) == hidden_pass(b, 0),
        forall|i: int| 0 <= i < a.len() && is_fixed(b[i]) ==> is_fixed(#[trigger] a[i]),
    ensures
        b == a,
        c == b,
        second == first,
{
}

/// A list that holds exactly the cells of one unit: a digit is considered by one cell
/// of the list alone exactly if that cell is the only one of its unit to consider it.
pub proof fn lemma_group_is_unit(g: Seq<Cell>, group: Seq<usize>, axis: int, u: int)
    requires
        is_unit(group),
        forall|j: usize| #[trigger] group.contains(j) <==> (j < 81 && unit_of(axis, j as int) == u),
    ensures
        forall|k: int, d: char| #[trigger]
            only_in_group(g, group, k, d) ==> sole_in_unit(g, group[k] as int, d, axis),
        forall|i: int, d: char|
            0 <= i < 81 && unit_of(axis, i) == u && #[trigger] sole_in_unit(g, i, d, axis)
                ==> exists|k: int| only_in_group(g, group, k, d),
{
    assert forall|k: int, d: char| #[trigger] only_in_group(g, group, k, d) implies sole_in_unit(
        g,
        group[k] as int,
        d,
        axis,
    ) by {
        let i = group[k] as int;
        assert(group.contains(group[k]));
        assert forall|j: int|
            0 <= j < 81 && j != i && unit_of(axis, j) == unit_of(axis, i) implies !has_candidate(
            #[trigger] g[j],
            d,
        ) by {
            assert(group.contains(j as usize));
            let m = choose|m: int| 0 <= m < group.len() && group[m] == j as usize;
            assert(!has_candidate(g[group[m] as int], d));
        }
    }
    assert forall|i: int, d: char|
        0 <= i < 81 && unit_of(axis, i) == u && #[trigger] sole_in_unit(
            g,
            i,
            d,
            axis,
        ) implies exists|k: int| only_in_group(g, group, k, d) by {
        assert(group.contains(i as usize));
        let k = choose|k: int| 0 <= k < group.len() && group[k] == i as usize;
        assert forall|m: int| 0 <= m < group.len() && m != k implies !has_candidate(
            g[#[trigger] group[m] as int],
            d,
        ) by {
            assert(group.contains(group[m]));
            if m < k {
                assert(is_peer(group[m] as int, group[k] as int));
            } else {
                assert(is_peer(group[k] as int, group[m] as int));
            }
        }
        assert(only_in_group(g, group, k, d));
    }
}

/// `n` rounds of the sweep for single candidates followed by the hidden-single sweep,
/// ended by the first sweep that does not come through.
pub open spec fn rounds(g: Seq<Cell>, n: nat) -> (Seq<Cell>, bool)
    decreases n,
{
    if n == 0 {
        (g, true)
    } else {
        let s = singles_sweep(g, 0);
        if !s.1 {
            s
        } else {
            let h = hidden_pass(s.0, 0);
            if !h.1 {
                h
            } else {
                rounds(h.0, (n - 1) as nat)
            }
        }
    }
}

/// Two peers that are open with the same two candidates, in the same order.
pub open spec fn naked_pair(g: Seq<Cell>, a: int, b: int) -> bool {
    &&& is_peer(a, b)
    &&& g[a] == g[b]
    &&& match g[a] {
        Cell::Candidates(s) => s.len() == 2,
        _ => false,
    }
}

/// The cell considers neither of the two digits of `pair`.
pub open spec fn free_of_pair(c: Cell, pair: Seq<char>) -> bool {
    !has_candidate(c, pair[0]) && !has_candidate(c, pair[1])
}

/// Every cell of `group` is free of the pair or has exactly the pair as candidates:
/// the elimination has nothing to strike.
pub open spec fn pair_isolated(g: Seq<Cell>, group: Seq<usize>, pair: Seq<char>) -> bool {
    forall|k: int|
        0 <= k < 9 && g[#[trigger] group[k] as int] != Cell::Candidates(pair) ==> free_of_pair(
            g[group[k] as int],
            pair,
        )
}

/// The cell after the pair was struck from it: an open cell with other candidates than
/// exactly `pair` loses both digits; any other cell stays as it is.
pub open spec fn struck_cell(c: Cell, pair: Seq<char>) -> Cell {
    match c {
        Cell::Candidates(s) => if s == pair {
            c
        } else {
            Cell::Candidates(without(s, pair))
        },
        _ => c,
    }
}

/// The grid after the pair was struck from every cell of `group`.
pub open spec fn strike_pair(g: Seq<Cell>, group: Seq<usize>, pair: Seq<char>, k: int) -> Seq<Cell>
    decreases 9 - k,
{
    if 0 <= k < 9 {
        strike_pair(
            g.update(group[k] as int, struck_cell(g[group[k] as int], pair)),
            group,
            pair,
            k + 1,
        )
    } else {
        g
    }
}

/// Striking the pair leaves the cell with a single candidate, which it did not have
/// before.
pub open spec fn collapses(c: Cell, pair: Seq<char>) -> bool {
    match c {
        Cell::Candidates(s) => s != pair && s.len() != 1 && without(s, pair).len() == 1,
        _ => false,
    }
}

/// The second half of the elimination, from place `k` of `group` on: each cell that
/// collapsed in `before` and still has its single candidate is assigned it; the pass
/// ends with `false` where a peer holds that digit.
pub open spec fn place_collapsed(
    before: Seq<Cell>,
    g: Seq<Cell>,
    group: Seq<usize>,
    pair: Seq<char>,
    k: int,
) -> (Seq<Cell>, bool)
    decreases 9 - k,
{
    if 0 <= k < 9 {
        let i = group[k] as int;
        match g[i] {
            Cell::Candidates(s) => if !collapses(before[i], pair) || s.len() != 1 {
                place_collapsed(before, g, group, pair, k + 1)
            } else if conflicts(g, i, s[0]) {
                (g, false)
            } else {
                place_collapsed(before, assign(g, i, s[0]), group, pair, k + 1)
            },
            _ => place_collapsed(before, g, group, pair, k + 1),
        }
    } else {
        (g, true)
    }
}

/// Naked-pair elimination for one pair in one unit: the grid that is left and whether
/// the elimination came through.
pub open spec fn pair_elimination(g: Seq<Cell>, group: Seq<usize>, pair: Seq<char>) -> (
    Seq<Cell>,
    bool,
) {
    place_collapsed(g, strike_pair(g, group, pair, 0), group, pair, 0)
}

/// A later cell of `group` is the same as the cell at place `a`.
pub open spec fn has_twin(g: Seq<Cell>, group: Seq<usize>, a: int) -> bool {
    exists|b: int| a < b < 9 && g[#[trigger] group[b] as int] == g[group[a] as int]
}

/// The naked pairs of one unit from place `a` on: for each cell with two candidates
/// that has a twin later in the unit, the elimination is run; the pass ends with `false`
/// as soon as an elimination does.
pub open spec fn unit_pairs(g: Seq<Cell>, group: Seq<usize>, a: int) -> (Seq<Cell>, bool)
    decreases 9 - a,
{
    if 0 <= a < 9 {
        match g[group[a] as int] {
            Cell::Candidates(s) => if s.len() == 2 && has_twin(g, group, a) {
                let r = pair_elimination(g, group, s);
                if r.1 {
                    unit_pairs(r.0, group, a + 1)
                } else {
                    r
                }
            } else {
                unit_pairs(g, group, a + 1)
            },
            _ => unit_pairs(g, group, a + 1),
        }
    } else {
        (g, true)
    }
}

/// The naked-pair pass from unit `n` on, through row 0, column 0, box 0, row 1 and so
/// on: the grid that is left and whether the pass came through all units.
pub open spec fn pairs_pass(g: Seq<Cell>, n: int) -> (Seq<Cell>, bool)
    decreases 27 - n,
{
    if 0 <= n < 27 {
        let r = unit_pairs(g, unit_seq(n), 0);
        if r.1 {
            pairs_pass(r.0, n + 1)
        } else {
            r
        }
    } else {
        (g, true)
    }
}

} // verus!
