//! Exhaustive depth-first search for a completion of the grid.

use crate::board::{Board, Value, copy_value, digit_char, has_char};
use crate::geometry::is_peer;
use crate::grid::{
    Cell, cell_wf, conflicts, consistent, grid_wf, is_digit, is_fixed, nth_digit, solved,
};
use crate::completion::{
    cell_rank, comes_first, completes, first_completion, lemma_completion_is_solution,
};
use crate::soundness::{admits, lemma_admits_solvable};
use vstd::prelude::*;

verus! {

/// Every digit is the `k`-th digit for some `k` from 1 to 9.
proof fn lemma_digit_index(d: char) -> (k: int)
    requires
        is_digit(d),
    ensures
        1 <= k <= 9,
        nth_digit(k) == d,
{
    if d == '1' {
        1
    } else if d == '2' {
        2
    } else if d == '3' {
        3
    } else if d == '4' {
        4
    } else if d == '5' {
        5
    } else if d == '6' {
        6
    } else if d == '7' {
        7
    } else if d == '8' {
        8
    } else {
        9
    }
}

impl Board {
    /// Places `val` at `idx` unless a peer holds it; nothing else changes.
    fn back_set(&mut self, idx: usize, val: char) -> (ok: bool)
        requires
            old(self).board@.len() == 81,
            idx < 81,
        ensures
            ok == !conflicts(old(self)@, idx as int, val),
            ok ==> final(self)@ == old(self)@.update(idx as int, Cell::Fixed(val)),
            !ok ==> final(self)@ == old(self)@,
            final(self).board@.len() == 81,
    {
        let taken = self.get_set_associated(idx);
        if has_char(&taken, val) {
            return false;
        }
        self.put(idx, Value::Fixed(val));
        true
    }

    /// Depth-first search over the cells from `idx` on. A cell that holds a digit is
    /// passed over; an open cell is tried with `'1'` to `'9'` in turn, each digit that no
    /// peer holds being placed before the search goes on to the next cell. On success the
    /// grid is the first completion found. On failure there is none and the grid is as
    /// it was.
    pub fn backtrace(&mut self, idx: usize) -> (found: bool)
        requires
            old(self).wf(),
        ensures
            final(self).wf(),
            found ==> first_completion(old(self)@, idx as int, final(self)@),
            found && idx == 0 && consistent(old(self)@) ==> solved(final(self)@),
            !found ==> final(self)@ == old(self)@,
            !found ==> forall|g: Seq<Cell>| !completes(old(self)@, idx as int, g),
            forall|sol: Seq<Cell>|
                idx == 0 && #[trigger] admits(old(self)@, sol) ==> found && solved(final(self)@),
    {
        let found = self.search_from(idx);
        proof {
            assert forall|sol: Seq<Cell>|
                idx == 0 && #[trigger] admits(old(self)@, sol) implies found && solved(self@) by {
                lemma_admits_solvable(old(self)@, sol);
            }
        }
        found
    }

    /// The search from `idx` on, cell by cell.
    fn search_from(&mut self, idx: usize) -> (found: bool)
        requires
            old(self).wf(),
        ensures
            final(self).wf(),
            found ==> first_completion(old(self)@, idx as int, final(self)@),
            found && idx == 0 && consistent(old(self)@) ==> solved(final(self)@),
            !found ==> final(self)@ == old(self)@,
            !found ==> forall|g: Seq<Cell>| !completes(old(self)@, idx as int, g),
        decreases 81 - idx,
    {
        if idx >= 81 {
            proof {
                assert forall|h: Seq<Cell>| #[trigger]
                    completes(old(self)@, idx as int, h) implies comes_first(self@, h) by {
                    assert(h =~= self@);
                }
            }
            return true;
        }
        let open = match &self.board[idx] {
            Value::Fixed(_) => false,
            _ => true,
        };
        if !open {
            let found = self.search_from(idx + 1);
            proof {
                if found {
                    assert forall|h: Seq<Cell>| #[trigger]
                        completes(old(self)@, idx as int, h) implies comes_first(self@, h) by {
                        assert(completes(old(self)@, idx + 1, h));
                    }
                    if idx == 0 && consistent(old(self)@) {
                        lemma_completion_is_solution(old(self)@, self@);
                    }
                }
                if !found {
                    assert forall|g: Seq<Cell>| !completes(old(self)@, idx as int, g) by {
                        if completes(old(self)@, idx as int, g) {
                            assert(completes(old(self)@, idx + 1, g));
                        }
                    }
                }
            }
            return found;
        }
        let saved = copy_value(&self.board[idx]);
        let mut k: u8 = 1;
        while k <= 9
            invariant
                1 <= k <= 10,
                idx < 81,
                old(self).wf(),
                !is_fixed(old(self)@[idx as int]),
                saved@ == old(self)@[idx as int],
                self@.len() == 81,
                self.board@.len() == 81,
                forall|j: int| 0 <= j < 81 && j != idx ==> #[trigger] self@[j] == old(self)@[j],
                is_fixed(self@[idx as int]) ==> cell_wf(self@[idx as int]),
                forall|g: Seq<Cell>, m: int|
                    1 <= m < k && #[trigger] completes(old(self)@, idx as int, g) ==> g[idx as int]
                        != Cell::Fixed(#[trigger] nth_digit(m)),
            decreases 10 - k,
        {
            let d = digit_char(k);
            let ghost before = self@;
            assert(conflicts(before, idx as int, d) == conflicts(old(self)@, idx as int, d)) by {
                if conflicts(before, idx as int, d) {
                    let p = choose|p: int| #[trigger]
                        is_peer(idx as int, p) && before[p] == Cell::Fixed(d);
                    assert(is_peer(idx as int, p) && old(self)@[p] == Cell::Fixed(d));
                }
                if conflicts(old(self)@, idx as int, d) {
                    let p = choose|p: int| #[trigger]
                        is_peer(idx as int, p) && old(self)@[p] == Cell::Fixed(d);
                    assert(is_peer(idx as int, p) && before[p] == Cell::Fixed(d));
                }
            }
            if self.back_set(idx, d) {
                let ghost trial = self@;
                assert(trial =~= old(self)@.update(idx as int, Cell::Fixed(d)));
                assert(grid_wf(trial)) by {
                    assert forall|i: int| 0 <= i < 81 implies cell_wf(#[trigger] trial[i]) by {
                        if i != idx {
                            assert(cell_wf(old(self)@[i]));
                        }
                    }
                }
                if self.search_from(idx + 1) {
                    proof {
                        let done = self@;
                        assert(done[idx as int] == trial[idx as int]);
                        assert forall|j: int|
                            0 <= j < 81 && (j < idx || is_fixed(old(self)@[j])) implies #[trigger] done[j]
                            == old(self)@[j] by {
                            assert(done[j] == trial[j]);
                        }
                        assert(!conflicts(done, idx as int, d)) by {
                            if conflicts(done, idx as int, d) {
                                let p = choose|p: int| #[trigger]
                                    is_peer(idx as int, p) && done[p] == Cell::Fixed(d);
                                if p < idx || is_fixed(old(self)@[p]) {
                                    assert(done[p] == trial[p]);
                                    assert(old(self)@[p] == Cell::Fixed(d));
                                } else {
                                    assert(!is_fixed(trial[p]));
                                    assert(is_peer(p, idx as int));
                                    assert(conflicts(done, p, d));
                                }
                            }
                        }
                        assert forall|j: int|
                            idx <= j < 81 && !is_fixed(old(self)@[j]) implies match #[trigger] done[j] {
                            Cell::Fixed(e) => is_digit(e) && !conflicts(done, j, e),
                            _ => false,
                        } by {
                            if j != idx {
                                assert(!is_fixed(trial[j]));
                            }
                        }
                        assert(completes(old(self)@, idx as int, done));
                        assert forall|h: Seq<Cell>| #[trigger]
                            completes(old(self)@, idx as int, h) implies comes_first(done, h) by {
                            if h[idx as int] == Cell::Fixed(d) {
                                assert forall|j: int|
                                    0 <= j < 81 && (j < idx + 1 || is_fixed(trial[j])) implies #[trigger] h[j]
                                    == trial[j] by {}
                                assert(completes(trial, idx + 1, h));
                            } else {
                                let e = h[idx as int]->Fixed_0;
                                let m = lemma_digit_index(e);
                                assert(h[idx as int] == Cell::Fixed(nth_digit(m)));
                                assert(m > k);
                                assert(cell_rank(done[idx as int]) == k);
                                assert(cell_rank(h[idx as int]) == m);
                                assert forall|i: int| 0 <= i < idx implies done[i] == h[i] by {
                                    assert(done[i] == old(self)@[i]);
                                    assert(h[i] == old(self)@[i]);
                                }
                            }
                        }
                        if idx == 0 && consistent(old(self)@) {
                            lemma_completion_is_solution(old(self)@, done);
                        }
                    }
                    return true;
                }
                proof {
                    assert forall|g: Seq<Cell>| #[trigger]
                        completes(old(self)@, idx as int, g) implies g[idx as int] != Cell::Fixed(
                        d,
                    ) by {
                        if g[idx as int] == Cell::Fixed(d) {
                            assert forall|j: int|
                                0 <= j < 81 && (j < idx + 1 || is_fixed(trial[j])) implies #[trigger] g[j]
                                == trial[j] by {}
                            assert(completes(trial, idx + 1, g));
                        }
                    }
                }
            } else {
                proof {
                    assert forall|g: Seq<Cell>| #[trigger]
                        completes(old(self)@, idx as int, g) implies g[idx as int] != Cell::Fixed(
                        d,
                    ) by {
                        if g[idx as int] == Cell::Fixed(d) {
                            let p = choose|p: int| #[trigger]
                                is_peer(idx as int, p) && old(self)@[p] == Cell::Fixed(d);
                            assert(g[p] == old(self)@[p]);
                            assert(conflicts(g, idx as int, d));
                        }
                    }
                }
            }
            k += 1;
        }
        self.put(idx, saved);
        proof {
            assert(self@ =~= old(self)@);
            assert forall|g: Seq<Cell>| !completes(old(self)@, idx as int, g) by {
                if completes(old(self)@, idx as int, g) {
                    match g[idx as int] {
                        Cell::Fixed(e) => {
                            let m = lemma_digit_index(e);
                            assert(g[idx as int] == Cell::Fixed(nth_digit(m)));
                        },
                        _ => {},
                    }
                }
            }
        }
        false
    }
}

} // verus!
