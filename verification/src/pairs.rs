//! Naked-pair elimination.

use crate::board::{Board, Value, lemma_unit_bounds, lemma_unit_in_range, same_chars, strike};
use crate::geometry::{is_peer, is_unit};
use crate::grid::{Cell, cell_wf, consistent, has_candidate, is_fixed, lemma_without_nothing};
use crate::steps::{
    blocked, cell_shrinks, collapses, free_of_pair, has_twin, lemma_shrinks_transitive,
    naked_pair, pair_elimination, pair_isolated, pairs_pass, place_collapsed, refines, shrinks,
    strike_pair, struck_cell, unit_pairs,
};
use crate::soundness::{admits, lemma_pairs_pass_sound};
use vstd::prelude::*;

verus! {

impl Board {
    /// Naked-pair elimination in one unit. First both digits of `pair` are struck from
    /// every open cell of `group` whose candidates are not exactly `pair`. Then each cell
    /// that the strike brought down to a single candidate is given it; the pass stops
    /// with `false` when a peer holds that digit. A cell that had a single candidate
    /// before the strike is passed over: it is left to the sweep for single candidates.
    pub fn set_doubles(&mut self, group: &Vec<usize>, pair: Vec<char>) -> (ok: bool)
        requires
            old(self).wf(),
            is_unit(group@),
            pair@.len() == 2,
        ensures
            final(self).wf(),
            refines(old(self)@, final(self)@),
            forall|k: int|
                0 <= k < 9 && old(self)@[#[trigger] group@[k] as int] != Cell::Candidates(pair@)
                    ==> free_of_pair(final(self)@[group@[k] as int], pair@),
            !ok ==> exists|j: int, d: char| #[trigger] blocked(final(self)@, j, d),
            pair_isolated(old(self)@, group@, pair@) ==> ok && final(self)@ == old(self)@,
            (final(self)@, ok) == pair_elimination(old(self)@, group@, pair@),
    {
        proof {
            lemma_unit_bounds(group@);
        }
        let mut collapsed: Vec<bool> = Vec::new();
        let mut k: usize = 0;
        while k < 9
            invariant
                k <= 9,
                self.wf(),
                self.board@.len() == 81,
                old(self).wf(),
                is_unit(group@),
                forall|m: int| 0 <= m < 9 ==> #[trigger] group@[m] < 81,
                pair@.len() == 2,
                collapsed@.len() == k,
                shrinks(old(self)@, self@),
                forall|j: int|
                    0 <= j < 81 && (is_fixed(old(self)@[j]) || is_fixed(self@[j])) ==> #[trigger] self@[j]
                        == old(self)@[j],
                forall|m: int|
                    0 <= m < k && old(self)@[#[trigger] group@[m] as int] != Cell::Candidates(pair@)
                        ==> free_of_pair(self@[group@[m] as int], pair@),
                forall|m: int|
                    k <= m < 9 ==> self@[#[trigger] group@[m] as int] == old(self)@[group@[m] as int],
                pair_isolated(old(self)@, group@, pair@) ==> self@ == old(self)@,
                pair_isolated(old(self)@, group@, pair@) ==> forall|m: int| 0 <= m < k ==> !#[trigger] collapsed@[m],
                forall|m: int|
                    0 <= m < k ==> #[trigger] collapsed@[m] == collapses(
                        old(self)@[group@[m] as int],
                        pair@,
                    ),
                strike_pair(self@, group@, pair@, k as int) == strike_pair(
                    old(self)@,
                    group@,
                    pair@,
                    0,
                ),
            decreases 9 - k,
        {
            proof {
                lemma_unit_in_range(group@, k as int);
            }
            let index: usize = group[k];
            let ghost before = self@;
            let reduced: Option<(Vec<char>, bool)> = match &self.board[index] {
                Value::Unset(nums) => if same_chars(nums, &pair) {
                    None
                } else {
                    let rest = strike(nums, &pair);
                    let fell = rest.len() == 1 && nums.len() != 1;
                    Some((rest, fell))
                },
                _ => None,
            };
            match reduced {
                Some((rest, fell)) => {
                    proof {
                        assert(pair@.contains(pair@[0]) && pair@.contains(pair@[1]));
                        assert(before[index as int] != Cell::Candidates(pair@));
                        assert(cell_wf(before[index as int]));
                        if pair_isolated(old(self)@, group@, pair@) {
                            let s = before[index as int]->Candidates_0;
                            assert(before[index as int] == old(self)@[group@[k as int] as int]);
                            assert(free_of_pair(before[index as int], pair@));
                            assert forall|d: char| s.contains(d) implies !pair@.contains(d) by {
                                if pair@.contains(d) {
                                    let n = choose|n: int| 0 <= n < 2 && pair@[n] == d;
                                }
                            }
                            lemma_without_nothing(s, pair@);
                        }
                    }
                    self.put(index, Value::Unset(rest));
                    collapsed.push(fell);
                    proof {
                        let now = self@;
                        assert(cell_shrinks(before[index as int], now[index as int]));
                        assert forall|j: int| 0 <= j < 81 implies cell_wf(#[trigger] now[j]) by {
                            if j != index {
                                assert(cell_wf(before[j]));
                            }
                        }
                        assert forall|j: int| 0 <= j < 81 implies cell_shrinks(
                            #[trigger] before[j],
                            now[j],
                        ) by {
                            if j != index {
                                assert(cell_wf(before[j]));
                            }
                        }
                        lemma_shrinks_transitive(old(self)@, before, now);
                        assert forall|m: int| 0 <= m < 9 && m != k implies #[trigger] group@[m] != index by {
                            if m < k {
                                assert(is_peer(group@[m] as int, group@[k as int] as int));
                            } else {
                                assert(is_peer(group@[k as int] as int, group@[m] as int));
                            }
                        }
                        if pair_isolated(old(self)@, group@, pair@) {
                            assert(now =~= old(self)@);
                        }
                    }
                },
                None => {
                    collapsed.push(false);
                    proof {
                        assert(pair@.contains(pair@[0]) && pair@.contains(pair@[1]));
                        assert(cell_wf(self@[index as int]));
                        assert(self@ =~= before.update(
                            index as int,
                            struck_cell(before[index as int], pair@),
                        ));
                    }
                },
            }
            proof {
                assert(before[index as int] == old(self)@[group@[k as int] as int]);
                assert(self@ == before.update(index as int, struck_cell(before[index as int], pair@)));
                assert(strike_pair(before, group@, pair@, k as int) == strike_pair(
                    self@,
                    group@,
                    pair@,
                    k + 1,
                ));
            }
            k += 1;
        }
        proof {
            if consistent(old(self)@) {
                assert forall|a: int, b: int| #[trigger]
                    is_peer(a, b) && is_fixed(self@[a]) implies self@[a] != self@[b] by {
                    assert(self@[a] == old(self)@[a]);
                }
            }
        }
        let mut k: usize = 0;
        while k < 9
            invariant
                k <= 9,
                self.wf(),
                self.board@.len() == 81,
                is_unit(group@),
                forall|m: int| 0 <= m < 9 ==> #[trigger] group@[m] < 81,
                pair@.len() == 2,
                collapsed@.len() == 9,
                refines(old(self)@, self@),
                forall|m: int|
                    0 <= m < 9 && old(self)@[#[trigger] group@[m] as int] != Cell::Candidates(pair@)
                        ==> free_of_pair(self@[group@[m] as int], pair@),
                pair_isolated(old(self)@, group@, pair@) ==> self@ == old(self)@,
                pair_isolated(old(self)@, group@, pair@) ==> forall|m: int| 0 <= m < 9 ==> !#[trigger] collapsed@[m],
                forall|m: int|
                    0 <= m < 9 ==> #[trigger] collapsed@[m] == collapses(
                        old(self)@[group@[m] as int],
                        pair@,
                    ),
                place_collapsed(old(self)@, self@, group@, pair@, k as int) == pair_elimination(
                    old(self)@,
                    group@,
                    pair@,
                ),
            decreases 9 - k,
        {
            proof {
                lemma_unit_in_range(group@, k as int);
            }
            if collapsed[k] {
                let index: usize = group[k];
                let single: Option<char> = match &self.board[index] {
                    Value::Unset(nums) => if nums.len() == 1 {
                        Some(nums[0])
                    } else {
                        None
                    },
                    _ => None,
                };
                if let Some(d) = single {
                    let ghost before = self@;
                    assert(has_candidate(before[index as int], d)) by {
                        assert(before[index as int]->Candidates_0[0] == d);
                    }
                    let placed = self.set_index(index, d);
                    proof {
                        lemma_shrinks_transitive(old(self)@, before, self@);
                        assert forall|m: int|
                            0 <= m < 9 && old(self)@[#[trigger] group@[m] as int]
                                != Cell::Candidates(pair@) implies free_of_pair(
                            self@[group@[m] as int],
                            pair@,
                        ) by {
                            lemma_unit_in_range(group@, m);
                            assert(cell_shrinks(before[group@[m] as int], self@[group@[m] as int]));
                        }
                    }
                    if !placed {
                        assert(blocked(self@, index as int, d));
                        return false;
                    }
                }
            }
            k += 1;
        }
        true
    }

    /// Looks in `group` for a cell with two candidates that a later cell of the group
    /// shares exactly, and runs the elimination for each such pair. Stops with `false`
    /// as soon as an elimination does.
    fn find_doubles(&mut self, group: &Vec<usize>) -> (ok: bool)
        requires
            old(self).wf(),
            is_unit(group@),
        ensures
            final(self).wf(),
            refines(old(self)@, final(self)@),
            !ok ==> exists|j: int, d: char| #[trigger] blocked(final(self)@, j, d),
            (forall|a: int, b: int| !naked_pair(old(self)@, a, b)) ==> ok && final(self)@ == old(self)@,
            (final(self)@, ok) == unit_pairs(old(self)@, group@, 0),
    {
        let mut first: usize = 0;
        while first < 9
            invariant
                first <= 9,
                self.wf(),
                self.board@.len() == 81,
                is_unit(group@),
                refines(old(self)@, self@),
                (forall|a: int, b: int| !naked_pair(old(self)@, a, b)) ==> self@ == old(self)@,
                unit_pairs(self@, group@, first as int) == unit_pairs(old(self)@, group@, 0),
            decreases 9 - first,
        {
            proof {
                lemma_unit_in_range(group@, first as int);
            }
            let potential: Option<Vec<char>> = match &self.board[group[first]] {
                Value::Unset(nums) => if nums.len() == 2 {
                    Some(self.board[group[first]].unwrap_unset())
                } else {
                    None
                },
                _ => None,
            };
            if let Some(pair) = potential {
                let mut second: usize = first + 1;
                let mut twin = false;
                while second < 9 && !twin
                    invariant
                        first < second <= 9,
                        self.board@.len() == 81,
                        is_unit(group@),
                        pair@.len() == 2,
                        self@[group@[first as int] as int] == Cell::Candidates(pair@),
                        !twin ==> forall|b: int|
                            first < b < second ==> self@[#[trigger] group@[b] as int]
                                != Cell::Candidates(pair@),
                        twin ==> exists|b: int|
                            first < b < 9 && self@[#[trigger] group@[b] as int]
                                == Cell::Candidates(pair@),
                    decreases 9 - second,
                {
                    proof {
                        lemma_unit_in_range(group@, second as int);
                    }
                    if let Value::Unset(other) = &self.board[group[second]] {
                        if same_chars(other, &pair) {
                            twin = true;
                        }
                    }
                    second += 1;
                }
                assert(twin == has_twin(self@, group@, first as int));
                if twin {
                    let ghost before = self@;
                    proof {
                        let b = choose|b: int|
                            first < b < 9 && before[#[trigger] group@[b] as int]
                                == Cell::Candidates(pair@);
                        assert(is_peer(group@[first as int] as int, group@[b] as int));
                        assert(naked_pair(before, group@[first as int] as int, group@[b] as int));
                    }
                    let done = self.set_doubles(group, pair);
                    proof {
                        lemma_shrinks_transitive(old(self)@, before, self@);
                    }
                    if !done {
                        return false;
                    }
                }
            }
            first += 1;
        }
        true
    }

    /// The naked-pair pass: row 0, column 0, box 0, row 1 and so on through the nine
    /// rows, columns and boxes. Stops with `false` as soon as a unit does.
    pub fn calc_doubles(&mut self) -> (ok: bool)
        requires
            old(self).wf(),
        ensures
            final(self).wf(),
            refines(old(self)@, final(self)@),
            !ok ==> exists|j: int, d: char| #[trigger] blocked(final(self)@, j, d),
            (forall|a: int, b: int| !naked_pair(old(self)@, a, b)) ==> ok && final(self)@ == old(self)@,
            (final(self)@, ok) == pairs_pass(old(self)@, 0),
            forall|sol: Seq<Cell>|
                #[trigger] admits(old(self)@, sol) ==> ok && admits(final(self)@, sol),
    {
        let ok = self.pass_doubles();
        proof {
            assert forall|sol: Seq<Cell>| #[trigger] admits(old(self)@, sol) implies ok && admits(
                self@,
                sol,
            ) by {
                lemma_pairs_pass_sound(old(self)@, sol, 0);
            }
        }
        ok
    }

    /// The naked-pair pass as a loop over the units.
    fn pass_doubles(&mut self) -> (ok: bool)
        requires
            old(self).wf(),
        ensures
            final(self).wf(),
            refines(old(self)@, final(self)@),
            !ok ==> exists|j: int, d: char| #[trigger] blocked(final(self)@, j, d),
            (forall|a: int, b: int| !naked_pair(old(self)@, a, b)) ==> ok && final(self)@ == old(self)@,
            (final(self)@, ok) == pairs_pass(old(self)@, 0),
    {
        let mut n: usize = 0;
        while n < 27
            invariant
                n <= 27,
                self.wf(),
                refines(old(self)@, self@),
                (forall|a: int, b: int| !naked_pair(old(self)@, a, b)) ==> self@ == old(self)@,
                pairs_pass(self@, n as int) == pairs_pass(old(self)@, 0),
            decreases 27 - n,
        {
            let ghost start = self@;
            let group = Board::unit_indexes(n);
            let done = self.find_doubles(&group);
            proof {
                lemma_shrinks_transitive(old(self)@, start, self@);
            }
            if !done {
                return false;
            }
            n += 1;
        }
        true
    }
}

} // verus!
