//! Propagation: cascading assignment, the sweep for single candidates and the sweep
//! for hidden singles.

use crate::board::{Board, Value, copy_chars, has_char, lemma_unit_in_range, strike};
use crate::geometry::{is_peer, is_unit, peer_at, unit_of};
use crate::grid::{
    Cell, cell_wf, conflicts, consistent, grid_wf, has_candidate, is_digit, is_fixed, without,
};
use crate::steps::{
    assign, blocked, cell_shrinks, first_hidden, forced, hidden_pass, hidden_sweep,
    is_hidden_single, is_naked_single, lemma_change_persists, lemma_conflict_persists,
    lemma_forced_transitive, lemma_group_is_unit, lemma_open_cells_fewer, lemma_open_cells_keep,
    lemma_open_cells_shrink, lemma_shrinks_transitive, no_hidden_single, only_in_group,
    open_cells, placeable_single, refines, rounds, shrinks, singles_sweep, sole_in_unit,
    strike_peers, unit_sweep,
};
use crate::soundness::{
    admits, lemma_hidden_pass_sound, lemma_rounds_sound, lemma_singles_sweep_sound,
};
use vstd::prelude::*;

verus! {

impl Board {
    /// The cascading assignment, for any cell and any digit. Where a peer of `idx` holds
    /// `val`, nothing changes and the result is `false`. Otherwise the cell takes `val`,
    /// whatever it held, and `val` is struck from the candidates of every peer. A peer
    /// left with one candidate is given it in the same way, unless one of its own peers
    /// holds that digit: then it keeps its one candidate.
    pub fn set_index(&mut self, idx: usize, val: char) -> (ok: bool)
        requires
            old(self).wf(),
            idx < 81,
            is_digit(val),
        ensures
            final(self).wf(),
            ok == !conflicts(old(self)@, idx as int, val),
            !ok ==> final(self)@ == old(self)@,
            ok ==> final(self)@[idx as int] == Cell::Fixed(val),
            ok ==> forall|p: int|
                is_peer(idx as int, p) ==> !has_candidate(#[trigger] final(self)@[p], val),
            ok ==> forall|p: int|
                #[trigger] is_peer(idx as int, p) ==> !placeable_single(final(self)@, p),
            forall|i: int|
                0 <= i < 81 && i != idx ==> cell_shrinks(old(self)@[i], #[trigger] final(self)@[i]),
            consistent(old(self)@) ==> consistent(final(self)@),
            final(self)@ == assign(old(self)@, idx as int, val),
            has_candidate(old(self)@[idx as int], val) ==> refines(old(self)@, final(self)@)
                && forced(old(self)@, final(self)@),
            has_candidate(old(self)@[idx as int], val) ==> forall|j: int|
                0 <= j < 81 && placeable_single(final(self)@, j) ==> placeable_single(
                    old(self)@,
                    j,
                ),
        decreases open_cells(old(self)@, 81), (if is_fixed(old(self)@[idx as int]) {
            1int
        } else {
            0int
        }),
    {
        let taken = self.get_set_associated(idx);
        if has_char(&taken, val) {
            proof {
                assert forall|i: int| 0 <= i < 81 implies cell_shrinks(
                    old(self)@[i],
                    #[trigger] self@[i],
                ) by {
                    assert(cell_wf(self@[i]));
                }
            }
            return false;
        }
        self.put(idx, Value::Fixed(val));
        let ghost placed = self@;
        proof {
            assert forall|i: int| 0 <= i < 81 implies cell_wf(#[trigger] placed[i]) by {
                if i != idx {
                    assert(cell_wf(old(self)@[i]));
                }
            }
            lemma_open_cells_keep(old(self)@, placed, 81);
            if !is_fixed(old(self)@[idx as int]) {
                lemma_open_cells_fewer(old(self)@, placed, 81, idx as int);
            }
            if has_candidate(old(self)@[idx as int], val) {
                assert forall|i: int| 0 <= i < 81 implies cell_shrinks(
                    #[trigger] old(self)@[i],
                    placed[i],
                ) by {
                    assert(cell_wf(old(self)@[i]));
                }
                assert(shrinks(old(self)@, placed));
                assert forall|j: int|
                    0 <= j < 81 && placeable_single(placed, j) implies placeable_single(
                    old(self)@,
                    j,
                ) by {
                    let c = placed[j]->Candidates_0;
                    if conflicts(old(self)@, j, c[0]) {
                        lemma_conflict_persists(old(self)@, placed, j, c[0]);
                    }
                }
            }
            if consistent(old(self)@) {
                assert forall|a: int, b: int| #[trigger]
                    is_peer(a, b) && is_fixed(placed[a]) implies placed[a] != placed[b] by {
                    if a == idx {
                        assert(is_peer(idx as int, b));
                    } else if b == idx {
                        assert(is_peer(idx as int, a));
                    }
                }
            }
        }
        let peers = Board::get_associated_indexes(idx);
        let mut banned: Vec<char> = Vec::new();
        banned.push(val);
        assert(banned@ =~= seq![val]);
        assert(banned@.contains(val)) by {
            assert(banned@[0] == val);
        }
        assert(assign(old(self)@, idx as int, val) == strike_peers(placed, idx as int, val, 0));
        let mut k: usize = 0;
        while k < 20
            invariant
                k <= 20,
                idx < 81,
                self.wf(),
                self.board@.len() == 81,
                old(self)@.len() == 81,
                grid_wf(placed),
                banned@.contains(val),
                banned@ == seq![val],
                strike_peers(self@, idx as int, val, k as int) == assign(
                    old(self)@,
                    idx as int,
                    val,
                ),
                forall|m: int| 0 <= m < 20 ==> #[trigger] peers@[m] == peer_at(idx as int, m),
                forall|i: int| 0 <= i < 81 && i != idx ==> #[trigger] placed[i] == old(self)@[i],
                has_candidate(old(self)@[idx as int], val) ==> shrinks(old(self)@, placed),
                shrinks(placed, self@),
                consistent(old(self)@) ==> consistent(self@),
                placed[idx as int] == Cell::Fixed(val),
                open_cells(placed, 81) <= open_cells(old(self)@, 81),
                !is_fixed(old(self)@[idx as int]) ==> open_cells(placed, 81) < open_cells(
                    old(self)@,
                    81,
                ),
                peers@.len() == 20,
                forall|m: int| 0 <= m < 20 ==> is_peer(idx as int, #[trigger] peers@[m] as int),
                forall|j: int| is_peer(idx as int, j) ==> peers@.contains(j as usize),
                forall|m: int| 0 <= m < k ==> !has_candidate(self@[#[trigger] peers@[m] as int], val),
                forall|m: int| 0 <= m < k ==> !placeable_single(self@, #[trigger] peers@[m] as int),
                forall|j: int|
                    0 <= j < 81 && placeable_single(self@, j) ==> placeable_single(placed, j),
                has_candidate(old(self)@[idx as int], val) ==> forall|j: int|
                    0 <= j < 81 && placeable_single(placed, j) ==> placeable_single(old(self)@, j),
            decreases 20 - k,
        {
            let i: usize = peers[k];
            assert(is_peer(idx as int, peers@[k as int] as int));
            let ghost before = self@;
            let reduced: Option<Vec<char>> = match &self.board[i] {
                Value::Unset(poss) => Some(strike(poss, &banned)),
                _ => None,
            };
            if let Some(poss) = reduced {
                let single: Option<char> = if poss.len() == 1 {
                    Some(poss[0])
                } else {
                    None
                };
                self.put(i, Value::Unset(poss));
                let ghost mid = self@;
                proof {
                    assert(cell_wf(before[i as int]));
                    assert(cell_shrinks(before[i as int], mid[i as int]));
                    assert forall|j: int| 0 <= j < 81 implies cell_wf(#[trigger] mid[j]) by {
                        if j != i {
                            assert(cell_wf(before[j]));
                        }
                    }
                    assert forall|j: int| 0 <= j < 81 implies cell_shrinks(
                        #[trigger] before[j],
                        mid[j],
                    ) by {
                        if j != i {
                            assert(cell_wf(before[j]));
                        }
                    }
                    assert(shrinks(before, mid));
                    lemma_shrinks_transitive(placed, before, mid);
                    if consistent(before) {
                        assert forall|a: int, b: int| #[trigger]
                            is_peer(a, b) && is_fixed(mid[a]) implies mid[a] != mid[b] by {
                            assert(mid[a] == before[a]);
                        }
                    }
                    lemma_open_cells_shrink(placed, mid, 81);
                    assert forall|j: int|
                        0 <= j < 81 && j != i && placeable_single(mid, j) implies placeable_single(
                        before,
                        j,
                    ) by {
                        let c = mid[j]->Candidates_0;
                        if conflicts(before, j, c[0]) {
                            lemma_conflict_persists(before, mid, j, c[0]);
                        }
                    }
                    assert(mid == before.update(
                        i as int,
                        Cell::Candidates(without(before[i as int]->Candidates_0, seq![val])),
                    ));
                }
                if let Some(d) = single {
                    proof {
                        assert(mid[i as int] == Cell::Candidates(poss@));
                        assert(poss@[0] == d);
                        assert(has_candidate(mid[i as int], d));
                        assert(cell_wf(mid[i as int]));
                        let fixed = mid.update(i as int, Cell::Fixed(d));
                        lemma_open_cells_fewer(before, fixed, 81, i as int);
                    }
                    let _ = self.set_index(i, d);
                    proof {
                        assert(self@ == assign(mid, i as int, d));
                        lemma_shrinks_transitive(placed, mid, self@);
                        lemma_shrinks_transitive(before, mid, self@);
                    }
                }
                proof {
                    assert(!placeable_single(self@, i as int));
                    assert(shrinks(mid, self@));
                    lemma_open_cells_shrink(before, self@, 81);
                    assert(strike_peers(before, idx as int, val, k as int) == strike_peers(
                        self@,
                        idx as int,
                        val,
                        k + 1,
                    ));
                    assert forall|m: int| 0 <= m < k + 1 implies !has_candidate(
                        self@[#[trigger] peers@[m] as int],
                        val,
                    ) by {
                        let j = peers@[m] as int;
                        assert(is_peer(idx as int, j));
                        assert(cell_shrinks(before[j], mid[j]));
                        assert(cell_shrinks(mid[j], self@[j]));
                    }
                    assert forall|m: int| 0 <= m < k + 1 implies !placeable_single(
                        self@,
                        #[trigger] peers@[m] as int,
                    ) by {
                        assert(is_peer(idx as int, peers@[m] as int));
                    }
                }
            } else {
                assert(!has_candidate(self@[i as int], val)) by {
                    assert(cell_wf(self@[i as int]));
                }
                assert(strike_peers(before, idx as int, val, k as int) == strike_peers(
                    self@,
                    idx as int,
                    val,
                    k + 1,
                ));
            }
            k += 1;
        }
        proof {
            assert(cell_shrinks(placed[idx as int], self@[idx as int]));
            assert forall|p: int| is_peer(idx as int, p) implies !has_candidate(
                #[trigger] self@[p],
                val,
            ) by {
                assert(peers@.contains(p as usize));
                let m = choose|m: int| 0 <= m < peers@.len() && peers@[m] == p as usize;
                assert(!has_candidate(self@[peers@[m] as int], val));
            }
            assert forall|p: int| #[trigger] is_peer(idx as int, p) implies !placeable_single(
                self@,
                p,
            ) by {
                assert(peers@.contains(p as usize));
                let m = choose|m: int| 0 <= m < peers@.len() && peers@[m] == p as usize;
                assert(!placeable_single(self@, peers@[m] as int));
            }
            assert forall|i: int| 0 <= i < 81 && i != idx implies cell_shrinks(
                old(self)@[i],
                #[trigger] self@[i],
            ) by {
                assert(cell_shrinks(placed[i], self@[i]));
            }
            if has_candidate(old(self)@[idx as int], val) {
                lemma_shrinks_transitive(old(self)@, placed, self@);
                assert forall|j: int|
                    0 <= j < 81 && placeable_single(self@, j) implies placeable_single(
                    old(self)@,
                    j,
                ) by {
                    assert(placeable_single(placed, j));
                }
            }
        }
        true
    }

    /// One sweep over the cells in index order: a cell with one candidate left is given
    /// it. The sweep stops with `false` at the first such cell whose digit a peer holds.
    /// After a sweep that returns `true` no cell is left with a single candidate that
    /// could be placed.
    pub fn set_singles(&mut self) -> (ok: bool)
        requires
            old(self).wf(),
        ensures
            final(self).wf(),
            refines(old(self)@, final(self)@),
            forced(old(self)@, final(self)@),
            ok ==> forall|j: int| 0 <= j < 81 ==> !placeable_single(final(self)@, j),
            !ok ==> exists|j: int, d: char|
                is_naked_single(final(self)@[j]) && #[trigger] blocked(final(self)@, j, d),
            (forall|j: int| 0 <= j < 81 ==> !is_naked_single(old(self)@[j])) ==> ok && final(self)@ == old(self)@,
            (final(self)@, ok) == singles_sweep(old(self)@, 0),
            forall|sol: Seq<Cell>|
                #[trigger] admits(old(self)@, sol) ==> ok && admits(final(self)@, sol),
    {
        let ok = self.sweep_singles();
        proof {
            assert forall|sol: Seq<Cell>| #[trigger] admits(old(self)@, sol) implies ok && admits(
                self@,
                sol,
            ) by {
                lemma_singles_sweep_sound(old(self)@, sol, 0);
            }
        }
        ok
    }

    /// The sweep for single candidates as a loop over the cells.
    fn sweep_singles(&mut self) -> (ok: bool)
        requires
            old(self).wf(),
        ensures
            final(self).wf(),
            refines(old(self)@, final(self)@),
            forced(old(self)@, final(self)@),
            ok ==> forall|j: int| 0 <= j < 81 ==> !placeable_single(final(self)@, j),
            !ok ==> exists|j: int, d: char|
                is_naked_single(final(self)@[j]) && #[trigger] blocked(final(self)@, j, d),
            (forall|j: int| 0 <= j < 81 ==> !is_naked_single(old(self)@[j])) ==> ok && final(self)@ == old(self)@,
            (final(self)@, ok) == singles_sweep(old(self)@, 0),
    {
        let mut idx: usize = 0;
        while idx < 81
            invariant
                idx <= 81,
                self.wf(),
                self.board@.len() == 81,
                refines(old(self)@, self@),
                forced(old(self)@, self@),
                forall|j: int| 0 <= j < idx ==> !placeable_single(self@, j),
                singles_sweep(self@, idx as int) == singles_sweep(old(self)@, 0),
                (forall|j: int| 0 <= j < 81 ==> !is_naked_single(old(self)@[j])) ==> self@ == old(self)@,
            decreases 81 - idx,
        {
            let single: Option<char> = match &self.board[idx] {
                Value::Unset(poss) => if poss.len() == 1 {
                    Some(poss[0])
                } else {
                    None
                },
                _ => None,
            };
            if let Some(d) = single {
                let ghost before = self@;
                assert(is_naked_single(before[idx as int]));
                assert(has_candidate(before[idx as int], d)) by {
                    assert(before[idx as int]->Candidates_0[0] == d);
                }
                if !self.set_index(idx, d) {
                    assert(blocked(self@, idx as int, d));
                    return false;
                }
                proof {
                    lemma_shrinks_transitive(old(self)@, before, self@);
                    lemma_forced_transitive(old(self)@, before, self@);
                }
            }
            idx += 1;
        }
        true
    }

    /// Whether no cell of `group` other than the one at place `k` considers `d`.
    fn sole_holder(&self, group: &Vec<usize>, k: usize, d: char) -> (sole: bool)
        requires
            self.board@.len() == 81,
            is_unit(group@),
            k < 9,
        ensures
            sole == forall|m: int|
                0 <= m < 9 && m != k ==> !has_candidate(self@[#[trigger] group@[m] as int], d),
    {
        let mut m: usize = 0;
        while m < 9
            invariant
                m <= 9,
                k < 9,
                self.board@.len() == 81,
                is_unit(group@),
                forall|n: int|
                    0 <= n < m && n != k ==> !has_candidate(self@[#[trigger] group@[n] as int], d),
            decreases 9 - m,
        {
            proof {
                lemma_unit_in_range(group@, m as int);
            }
            if m != k {
                if let Value::Unset(vals) = &self.board[group[m]] {
                    if has_char(vals, d) {
                        assert(has_candidate(self@[group@[m as int] as int], d));
                        return false;
                    }
                }
            }
            m += 1;
        }
        true
    }

    /// Hidden singles of one unit: going through the cells of `group` in order, a cell
    /// that is the only one of the group to consider some digit is given the first such
    /// digit among its candidates. Stops with `false` when a peer holds that digit.
    fn set_only(&mut self, group: &Vec<usize>) -> (ok: bool)
        requires
            old(self).wf(),
            is_unit(group@),
        ensures
            final(self).wf(),
            refines(old(self)@, final(self)@),
            forced(old(self)@, final(self)@),
            !ok ==> exists|j: int, d: char| #[trigger] blocked(final(self)@, j, d),
            (forall|k: int, d: char| !only_in_group(old(self)@, group@, k, d)) ==> ok && final(self)@ == old(self)@,
            ok && final(self)@ == old(self)@ ==> forall|k: int, d: char|
                !only_in_group(old(self)@, group@, k, d),
            (final(self)@, ok) == unit_sweep(old(self)@, group@, 0),
    {
        let mut k: usize = 0;
        while k < 9
            invariant
                k <= 9,
                self.wf(),
                self.board@.len() == 81,
                is_unit(group@),
                refines(old(self)@, self@),
                forced(old(self)@, self@),
                (forall|k: int, d: char| !only_in_group(old(self)@, group@, k, d)) ==> self@
                    == old(self)@,
                self@ == old(self)@ ==> forall|m: int, d: char|
                    0 <= m < k ==> !only_in_group(old(self)@, group@, m, d),
                unit_sweep(self@, group@, k as int) == unit_sweep(old(self)@, group@, 0),
            decreases 9 - k,
        {
            proof {
                lemma_unit_in_range(group@, k as int);
            }
            let idx: usize = group[k];
            let cands: Vec<char> = match &self.board[idx] {
                Value::Unset(vals) => copy_chars(vals),
                _ => Vec::new(),
            };
            let ghost at_k = self@;
            let mut c: usize = 0;
            let mut done = false;
            while c < cands.len() && !done
                invariant
                    c <= cands@.len(),
                    k < 9,
                    idx == group@[k as int],
                    idx < 81,
                    self.wf(),
                    self.board@.len() == 81,
                    is_unit(group@),
                    refines(old(self)@, at_k),
                    forced(old(self)@, at_k),
                    refines(old(self)@, self@),
                    forced(old(self)@, self@),
                    !done ==> self@ == at_k,
                    done ==> self@ != old(self)@,
                    forall|d: char| has_candidate(at_k[idx as int], d) <==> cands@.contains(d),
                    at_k[idx as int] is Candidates ==> at_k[idx as int] == Cell::Candidates(cands@),
                    !(at_k[idx as int] is Candidates) ==> cands@.len() == 0,
                    unit_sweep(at_k, group@, k as int) == unit_sweep(old(self)@, group@, 0),
                    !done ==> first_hidden(at_k, group@, k as int, cands@, c as int) == first_hidden(
                        at_k,
                        group@,
                        k as int,
                        cands@,
                        0,
                    ),
                    done ==> unit_sweep(self@, group@, k + 1) == unit_sweep(old(self)@, group@, 0),
                    !done ==> forall|n: int|
                        0 <= n < c ==> !only_in_group(at_k, group@, k as int, #[trigger] cands@[n]),
                    (forall|k: int, d: char| !only_in_group(old(self)@, group@, k, d)) ==> self@
                        == old(self)@,
                decreases cands@.len() - c, if done { 0int } else { 1int },
            {
                let d: char = cands[c];
                assert(cands@.contains(d));
                if self.sole_holder(group, k, d) {
                    assert(only_in_group(at_k, group@, k as int, d));
                    assert(first_hidden(at_k, group@, k as int, cands@, c as int) == c);
                    if !self.set_index(idx, d) {
                        assert(blocked(self@, idx as int, d));
                        return false;
                    }
                    proof {
                        lemma_shrinks_transitive(old(self)@, at_k, self@);
                        lemma_forced_transitive(old(self)@, at_k, self@);
                        assert(cell_shrinks(old(self)@[idx as int], at_k[idx as int]));
                        assert(self@ != old(self)@);
                    }
                    done = true;
                }
                c += 1;
            }
            proof {
                if !done {
                    assert(first_hidden(at_k, group@, k as int, cands@, c as int) == cands@.len());
                }
                if self@ == old(self)@ {
                    assert forall|m: int, d: char| 0 <= m < k + 1 implies !only_in_group(
                        old(self)@,
                        group@,
                        m,
                        d,
                    ) by {
                        if m == k && has_candidate(at_k[idx as int], d) {
                            let n = choose|n: int| 0 <= n < cands@.len() && cands@[n] == d;
                            assert(!only_in_group(at_k, group@, k as int, cands@[n]));
                        }
                    }
                }
            }
            k += 1;
        }
        true
    }

    /// Hidden singles of one unit, with what the pass means for the cells
    /// of that unit.
    fn sweep_unit(&mut self, group: &Vec<usize>, Ghost(axis): Ghost<int>, Ghost(u): Ghost<int>) -> (ok:
        bool)
        requires
            old(self).wf(),
            is_unit(group@),
            forall|j: usize| #[trigger]
                group@.contains(j) <==> (j < 81 && unit_of(axis, j as int) == u),
            axis == 0 || axis == 1 || axis == 2,
        ensures
            final(self).wf(),
            refines(old(self)@, final(self)@),
            forced(old(self)@, final(self)@),
            !ok ==> exists|j: int, d: char| #[trigger] blocked(final(self)@, j, d),
            no_hidden_single(old(self)@) ==> ok && final(self)@ == old(self)@,
            (final(self)@, ok) == unit_sweep(old(self)@, group@, 0),
            ok && final(self)@ == old(self)@ ==> forall|i: int, d: char|
                0 <= i < 81 && unit_of(axis, i) == u ==> !#[trigger] sole_in_unit(
                    old(self)@,
                    i,
                    d,
                    axis,
                ),
    {
        proof {
            lemma_group_is_unit(self@, group@, axis, u);
            if no_hidden_single(self@) {
                assert forall|k: int, d: char| !only_in_group(self@, group@, k, d) by {
                    if only_in_group(self@, group@, k, d) {
                        lemma_unit_in_range(group@, k);
                        assert(is_hidden_single(self@, group@[k] as int, d));
                    }
                }
            }
        }
        self.set_only(group)
    }

    /// The hidden-single sweep: row 0, column 0, box 0, row 1 and so on through the nine
    /// rows, columns and boxes. In each unit, a cell that alone considers some digit is
    /// given it. Stops with `false` when a peer holds such a digit.
    pub fn calc_only(&mut self) -> (ok: bool)
        requires
            old(self).wf(),
        ensures
            final(self).wf(),
            hidden_sweep(old(self)@, final(self)@, ok),
            (final(self)@, ok) == hidden_pass(old(self)@, 0),
            forall|sol: Seq<Cell>| #[trigger] admits(old(self)@, sol) ==> admits(final(self)@, sol),
    {
        let ok = self.sweep_hidden();
        proof {
            assert forall|sol: Seq<Cell>| #[trigger] admits(old(self)@, sol) implies admits(
                self@,
                sol,
            ) by {
                lemma_hidden_pass_sound(old(self)@, sol, 0);
            }
        }
        ok
    }

    /// The hidden-single sweep as a loop over the units.
    fn sweep_hidden(&mut self) -> (ok: bool)
        requires
            old(self).wf(),
        ensures
            final(self).wf(),
            hidden_sweep(old(self)@, final(self)@, ok),
            (final(self)@, ok) == hidden_pass(old(self)@, 0),
    {
        let mut n: usize = 0;
        while n < 27
            invariant
                n <= 27,
                self.wf(),
                refines(old(self)@, self@),
                forced(old(self)@, self@),
                no_hidden_single(old(self)@) ==> self@ == old(self)@,
                hidden_pass(self@, n as int) == hidden_pass(old(self)@, 0),
                self@ == old(self)@ ==> forall|i: int, d: char, axis: int|
                    0 <= i < 81 && 0 <= axis <= 2 && 3 * unit_of(axis, i) + axis < n
                        ==> !#[trigger] sole_in_unit(old(self)@, i, d, axis),
            decreases 27 - n,
        {
            let ghost start = self@;
            let group = Board::unit_indexes(n);
            let swept = self.sweep_unit(&group, Ghost(n as int % 3), Ghost(n as int / 3));
            proof {
                lemma_shrinks_transitive(old(self)@, start, self@);
                lemma_forced_transitive(old(self)@, start, self@);
                if self@ == old(self)@ && start != old(self)@ {
                    lemma_change_persists(old(self)@, start, self@);
                }
            }
            if !swept {
                return false;
            }
            n += 1;
        }
        proof {
            if self@ == old(self)@ {
                assert forall|i: int, d: char| !is_hidden_single(old(self)@, i, d) by {
                    if is_hidden_single(old(self)@, i, d) {
                        assert(unit_of(0, i) < 9 && unit_of(1, i) < 9 && unit_of(2, i) < 9);
                    }
                }
            }
        }
        true
    }

    /// Up to `iterations` rounds, each a sweep for single candidates followed by a
    /// sweep for hidden singles. Stops with `false` as soon as a sweep does.
    pub fn trim(&mut self, iterations: usize) -> (ok: bool)
        requires
            old(self).wf(),
        ensures
            final(self).wf(),
            refines(old(self)@, final(self)@),
            forced(old(self)@, final(self)@),
            !ok ==> exists|j: int, d: char| #[trigger] blocked(final(self)@, j, d),
            iterations == 0 ==> ok && final(self)@ == old(self)@,
            (final(self)@, ok) == rounds(old(self)@, iterations as nat),
            no_hidden_single(old(self)@) && (forall|j: int|
                0 <= j < 81 ==> !is_naked_single(old(self)@[j])) ==> ok && final(self)@ == old(self)@,
            forall|sol: Seq<Cell>| #[trigger] admits(old(self)@, sol) ==> admits(final(self)@, sol),
    {
        let ok = self.run_rounds(iterations);
        proof {
            assert forall|sol: Seq<Cell>| #[trigger] admits(old(self)@, sol) implies admits(
                self@,
                sol,
            ) by {
                lemma_rounds_sound(old(self)@, sol, iterations as nat);
            }
        }
        ok
    }

    /// The rounds as a loop.
    fn run_rounds(&mut self, iterations: usize) -> (ok: bool)
        requires
            old(self).wf(),
        ensures
            final(self).wf(),
            refines(old(self)@, final(self)@),
            forced(old(self)@, final(self)@),
            !ok ==> exists|j: int, d: char| #[trigger] blocked(final(self)@, j, d),
            iterations == 0 ==> ok && final(self)@ == old(self)@,
            (final(self)@, ok) == rounds(old(self)@, iterations as nat),
            no_hidden_single(old(self)@) && (forall|j: int|
                0 <= j < 81 ==> !is_naked_single(old(self)@[j])) ==> ok && final(self)@ == old(self)@,
    {
        let mut round: usize = 0;
        while round < iterations
            invariant
                round <= iterations,
                self.wf(),
                refines(old(self)@, self@),
                forced(old(self)@, self@),
                iterations == 0 ==> self@ == old(self)@,
                rounds(self@, (iterations - round) as nat) == rounds(old(self)@, iterations as nat),
                no_hidden_single(old(self)@) && (forall|j: int|
                    0 <= j < 81 ==> !is_naked_single(old(self)@[j])) ==> self@ == old(self)@,
            decreases iterations - round,
        {
            let ghost start = self@;
            let singles = self.set_singles();
            let ghost middle = self@;
            proof {
                lemma_shrinks_transitive(old(self)@, start, middle);
                lemma_forced_transitive(old(self)@, start, middle);
            }
            if !singles {
                return false;
            }
            let hidden = self.calc_only();
            proof {
                lemma_shrinks_transitive(old(self)@, middle, self@);
                lemma_forced_transitive(old(self)@, middle, self@);
            }
            if !hidden {
                return false;
            }
            round += 1;
        }
        true
    }
}

} // verus!
