//! The grid and its cells: construction from text and the reading of peers.

use crate::geometry::{is_peer, is_unit, peer_at};
use crate::grid::{
    Cell, cell_wf, conflicts, grid_wf, held_by_peers, initial_cell, initialized, is_digit,
    is_fixed, lemma_open_digits_members, lemma_open_digits_same, lemma_without_members, nth_digit,
    open_digits, parsed, parsed_cell, solved, well_formed_input, without,
};
use crate::soundness::{admits, lemma_initialized_admits, shares_digits};
use vstd::prelude::*;
use vstd::seq_lib::lemma_seq_contains_after_push;
use vstd::string::StrSliceExecFns;

verus! {

/// The state of one cell.
#[derive(PartialEq, Debug, Clone)]
pub enum Value {
    /// A digit, given or deduced.
    Fixed(char),
    /// An open cell with the digits still considered for it.
    Unset(Vec<char>),
    /// An open cell before its candidates were computed.
    NoInit,
}

impl View for Value {
    type V = Cell;

    open spec fn view(&self) -> Cell {
        match self {
            Value::Fixed(c) => Cell::Fixed(*c),
            Value::Unset(v) => Cell::Candidates(v@),
            Value::NoInit => Cell::Uninitialized,
        }
    }
}

impl Value {
    /// The candidates of an open cell.
    pub(crate) fn unwrap_unset(&self) -> (out: Vec<char>)
        requires
            self is Unset,
        ensures
            self@ == Cell::Candidates(out@),
    {
        match self {
            Value::Unset(val) => copy_chars(val),
            _ => Vec::new(),
        }
    }
}

/// The input is not nine lines of nine characters from `'0'` to `'9'`.
#[derive(Debug, Clone, Copy, PartialEq, Eq)]
pub struct MalformedInputError;

/// The lines of an input as sequences of characters.
pub open spec fn lines_of(input: Seq<String>) -> Seq<Seq<char>> {
    Seq::new(input.len(), |r: int| input[r]@)
}

/// Whether `c` is one of `'1'` to `'9'`.
pub(crate) fn is_digit_char(c: char) -> (yes: bool)
    ensures
        yes == is_digit(c),
{
    c == '1' || c == '2' || c == '3' || c == '4' || c == '5' || c == '6' || c == '7' || c == '8'
        || c == '9'
}

/// The 81 cells of a grid, row by row.
#[derive(Clone)]
pub struct Board {
    /// Cell `row * 9 + col` is the cell in that row and column.
    pub board: Vec<Value>,
}

impl View for Board {
    type V = Seq<Cell>;

    open spec fn view(&self) -> Seq<Cell> {
        Seq::new(self.board@.len(), |i: int| self.board@[i]@)
    }
}

/// The `k`-th digit character, counted from 1.
pub(crate) fn digit_char(k: u8) -> (c: char)
    requires
        1 <= k <= 9,
    ensures
        c == nth_digit(k as int),
        is_digit(c),
{
    if k == 1 {
        '1'
    } else if k == 2 {
        '2'
    } else if k == 3 {
        '3'
    } else if k == 4 {
        '4'
    } else if k == 5 {
        '5'
    } else if k == 6 {
        '6'
    } else if k == 7 {
        '7'
    } else if k == 8 {
        '8'
    } else {
        '9'
    }
}

/// Whether `c` occurs in `v`.
pub(crate) fn has_char(v: &Vec<char>, c: char) -> (found: bool)
    ensures
        found == v@.contains(c),
{
    let mut k: usize = 0;
    while k < v.len()
        invariant
            k <= v@.len(),
            forall|m: int| 0 <= m < k ==> v@[m] != c,
        decreases v@.len() - k,
    {
        if v[k] == c {
            return true;
        }
        k += 1;
    }
    false
}

/// Whether the two lists hold the same characters in the same order.
pub(crate) fn same_chars(a: &Vec<char>, b: &Vec<char>) -> (same: bool)
    ensures
        same == (a@ == b@),
{
    if a.len() != b.len() {
        return false;
    }
    let mut k: usize = 0;
    while k < a.len()
        invariant
            k <= a@.len(),
            a@.len() == b@.len(),
            forall|m: int| 0 <= m < k ==> a@[m] == b@[m],
        decreases a@.len() - k,
    {
        if a[k] != b[k] {
            return false;
        }
        k += 1;
    }
    assert(a@ =~= b@);
    true
}

/// A copy of `v`.
pub(crate) fn copy_chars(v: &Vec<char>) -> (out: Vec<char>)
    ensures
        out@ == v@,
{
    let mut out: Vec<char> = Vec::new();
    let mut k: usize = 0;
    while k < v.len()
        invariant
            k <= v@.len(),
            out@ == v@.take(k as int),
        decreases v@.len() - k,
    {
        out.push(v[k]);
        assert(v@.take(k + 1) =~= v@.take(k as int).push(v@[k as int]));
        k += 1;
    }
    assert(v@.take(v@.len() as int) =~= v@);
    out
}

/// `v` without the characters that occur in `banned`, in the order of `v`.
pub(crate) fn strike(v: &Vec<char>, banned: &Vec<char>) -> (out: Vec<char>)
    ensures
        out@ == without(v@, banned@),
        forall|d: char| #[trigger] out@.contains(d) <==> v@.contains(d) && !banned@.contains(d),
{
    let mut out: Vec<char> = Vec::new();
    let mut k: usize = 0;
    while k < v.len()
        invariant
            k <= v@.len(),
            out@ == without(v@.take(k as int), banned@),
        decreases v@.len() - k,
    {
        proof {
            assert(v@.take(k + 1).drop_last() =~= v@.take(k as int));
            assert(v@.take(k + 1).last() == v@[k as int]);
        }
        if !has_char(banned, v[k]) {
            out.push(v[k]);
        }
        k += 1;
    }
    proof {
        assert(v@.take(v@.len() as int) =~= v@);
        lemma_without_members(v@, banned@);
    }
    out
}

/// A copy of the cell.
pub(crate) fn copy_value(v: &Value) -> (out: Value)
    ensures
        out@ == v@,
{
    match v {
        Value::Fixed(c) => Value::Fixed(*c),
        Value::Unset(s) => Value::Unset(copy_chars(s)),
        Value::NoInit => Value::NoInit,
    }
}

impl Board {
    /// The grid is initialized: 81 cells, each a digit or candidates that are digits.
    pub open spec fn wf(&self) -> bool {
        grid_wf(self@)
    }

    /// Builds the grid from nine lines of nine characters, row by row: a digit is a
    /// given, `'0'` a blank. Each blank then considers, in ascending order, the digits
    /// that none of its peers was given.
    pub fn new(input: Vec<String>) -> (res: Result<Board, MalformedInputError>)
        ensures
            res is Ok <==> well_formed_input(lines_of(input@)),
            res matches Ok(brd) ==> brd.wf() && brd@ == initialized(parsed(lines_of(input@))),
            res matches Ok(brd) ==> forall|sol: Seq<Cell>|
                solved(sol) && #[trigger] shares_digits(parsed(lines_of(input@)), sol) ==> admits(
                    brd@,
                    sol,
                ),
    {
        let ghost lines = lines_of(input@);
        if input.len() != 9 {
            return Err(MalformedInputError);
        }
        let mut cells: Vec<Value> = Vec::new();
        let mut r: usize = 0;
        while r < 9
            invariant
                r <= 9,
                input@.len() == 9,
                lines == lines_of(input@),
                cells@.len() == r * 9,
                forall|q: int| 0 <= q < r ==> (#[trigger] lines[q]).len() == 9,
                forall|q: int, c: int|
                    0 <= q < r && 0 <= c < 9 ==> #[trigger] lines[q][c] == '0' || is_digit(
                        lines[q][c],
                    ),
                forall|i: int|
                    0 <= i < r * 9 ==> (#[trigger] cells@[i])@ == parsed_cell(lines[i / 9][i % 9]),
            decreases 9 - r,
        {
            let line = input[r].as_str();
            assert(line@ == lines[r as int]);
            if line.unicode_len() != 9 {
                return Err(MalformedInputError);
            }
            let mut c: usize = 0;
            while c < 9
                invariant
                    c <= 9,
                    r < 9,
                    input@.len() == 9,
                    lines == lines_of(input@),
                    line@ == lines[r as int],
                    line@.len() == 9,
                    cells@.len() == r * 9 + c,
                    forall|e: int|
                        0 <= e < c ==> #[trigger] lines[r as int][e] == '0' || is_digit(
                            lines[r as int][e],
                        ),
                    forall|i: int|
                        0 <= i < r * 9 + c ==> (#[trigger] cells@[i])@ == parsed_cell(
                            lines[i / 9][i % 9],
                        ),
                decreases 9 - c,
            {
                let single = line.get_char(c);
                if single == '0' {
                    cells.push(Value::NoInit);
                } else if is_digit_char(single) {
                    cells.push(Value::Fixed(single));
                } else {
                    assert(!(lines[r as int][c as int] == '0' || is_digit(lines[r as int][c as int])));
                    return Err(MalformedInputError);
                }
                c += 1;
            }
            r += 1;
        }
        let mut brd = Board { board: cells };
        assert(brd@ =~= parsed(lines));
        assert forall|i: int| 0 <= i < 81 implies !(#[trigger] brd@[i] is Candidates) && (
        is_fixed(brd@[i]) ==> cell_wf(brd@[i])) by {
            assert(lines[i / 9][i % 9] == '0' || is_digit(lines[i / 9][i % 9]));
        }
        let ghost given = brd@;
        brd.init();
        proof {
            assert forall|sol: Seq<Cell>|
                solved(sol) && #[trigger] shares_digits(given, sol) implies admits(brd@, sol) by {
                lemma_initialized_admits(given, sol);
            }
        }
        Ok(brd)
    }

    /// Gives every uninitialized cell its initial candidates.
    pub(crate) fn init(&mut self)
        requires
            old(self).board@.len() == 81,
            forall|i: int|
                0 <= i < 81 ==> !(#[trigger] old(self)@[i] is Candidates) && (is_fixed(
                    old(self)@[i]) ==> cell_wf(old(self)@[i])),
        ensures
            final(self).wf(),
            final(self)@ == initialized(old(self)@),
    {
        let mut idx: usize = 0;
        while idx < 81
            invariant
                idx <= 81,
                self.board@.len() == 81,
                old(self).board@.len() == 81,
                forall|i: int| 0 <= i < idx ==> #[trigger] self@[i] == initial_cell(old(self)@, i),
                forall|i: int| idx <= i < 81 ==> #[trigger] self@[i] == old(self)@[i],
            decreases 81 - idx,
        {
            let blank = match &self.board[idx] {
                Value::NoInit => true,
                _ => false,
            };
            let ghost before = self@;
            if blank {
                proof {
                    assert forall|p: int|
                        0 <= p < 81 && (is_fixed(before[p]) || is_fixed(old(self)@[p])) implies before[p]
                        == old(self)@[p] by {
                        if p < idx {
                            assert(before[p] == initial_cell(old(self)@, p));
                        }
                    }
                    lemma_open_digits_same(before, old(self)@, idx as int, 9);
                }
                self.update_possible(idx);
            }
            proof {
                assert(before[idx as int] == old(self)@[idx as int]);
                assert(self@[idx as int] == initial_cell(old(self)@, idx as int));
                assert forall|i: int| 0 <= i < idx + 1 implies #[trigger] self@[i] == initial_cell(
                    old(self)@,
                    i,
                ) by {
                    if i < idx {
                        assert(self@[i] == before[i]);
                    }
                }
            }
            idx += 1;
        }
        proof {
            assert(self@ =~= initialized(old(self)@));
            assert forall|i: int| 0 <= i < 81 implies cell_wf(#[trigger] self@[i]) by {
                lemma_open_digits_members(old(self)@, i, 9);
                assert(self@[i] == initial_cell(old(self)@, i));
            }
        }
    }

    /// Sets cell `idx` to the digits that none of its peers holds, in ascending order.
    pub(crate) fn update_possible(&mut self, idx: usize)
        requires
            old(self).board@.len() == 81,
            idx < 81,
        ensures
            final(self).board@.len() == 81,
            final(self)@ == old(self)@.update(
                idx as int,
                Cell::Candidates(open_digits(old(self)@, idx as int, 9)),
            ),
    {
        let impossible_vals = self.get_set_associated(idx);
        let mut possible_vals: Vec<char> = Vec::new();
        let mut k: u8 = 1;
        while k <= 9
            invariant
                1 <= k <= 10,
                forall|d: char| #[trigger]
                    impossible_vals@.contains(d) <==> conflicts(self@, idx as int, d),
                possible_vals@ == open_digits(self@, idx as int, k - 1),
            decreases 10 - k,
        {
            let d = digit_char(k);
            if !has_char(&impossible_vals, d) {
                possible_vals.push(d);
            }
            k += 1;
        }
        self.put(idx, Value::Unset(possible_vals));
    }

    /// Replaces cell `idx` by `v`.
    pub(crate) fn put(&mut self, idx: usize, v: Value)
        requires
            idx < old(self).board@.len(),
        ensures
            final(self)@ == old(self)@.update(idx as int, v@),
            final(self).board@.len() == old(self).board@.len(),
    {
        self.board.set(idx, v);
        assert(self@ =~= old(self)@.update(idx as int, v@));
    }

    /// Copies of the cells at `indexes`, in their order.
    pub(crate) fn read_indexes(&self, indexes: &Vec<usize>) -> (out: Vec<Value>)
        requires
            forall|k: int| 0 <= k < indexes@.len() ==> indexes@[k] < self.board@.len(),
        ensures
            out@.len() == indexes@.len(),
            forall|k: int| 0 <= k < out@.len() ==> (#[trigger] out@[k])@ == self@[indexes@[k] as int],
    {
        let mut out: Vec<Value> = Vec::new();
        let mut k: usize = 0;
        while k < indexes.len()
            invariant
                k <= indexes@.len(),
                out@.len() == k,
                forall|m: int| 0 <= m < indexes@.len() ==> indexes@[m] < self.board@.len(),
                forall|m: int| 0 <= m < k ==> (#[trigger] out@[m])@ == self@[indexes@[m] as int],
            decreases indexes@.len() - k,
        {
            out.push(copy_value(&self.board[indexes[k]]));
            k += 1;
        }
        out
    }

    /// The digits that the peers of `idx` hold, each once, in the order in which the
    /// peers are listed.
    pub(crate) fn get_set_associated(&self, idx: usize) -> (out: Vec<char>)
        requires
            self.board@.len() == 81,
            idx < 81,
        ensures
            out@ == held_by_peers(self@, idx as int, 20),
            forall|d: char| #[trigger] out@.contains(d) <==> conflicts(self@, idx as int, d),
            out@.no_duplicates(),
    {
        let peers = Board::get_associated_indexes(idx);
        let cells = self.read_indexes(&peers);
        let mut out: Vec<char> = Vec::new();
        let mut k: usize = 0;
        while k < 20
            invariant
                k <= 20,
                idx < 81,
                self.board@.len() == 81,
                peers@.len() == 20,
                cells@.len() == 20,
                forall|m: int| 0 <= m < 20 ==> is_peer(idx as int, #[trigger] peers@[m] as int),
                forall|m: int| 0 <= m < 20 ==> (#[trigger] cells@[m])@ == self@[peers@[m] as int],
                out@.no_duplicates(),
                out@ == held_by_peers(self@, idx as int, k as int),
                forall|m: int| 0 <= m < 20 ==> #[trigger] peers@[m] == peer_at(idx as int, m),
                forall|d: char|
                    #[trigger] out@.contains(d) <==> exists|m: int|
                        0 <= m < k && self@[#[trigger] peers@[m] as int] == Cell::Fixed(d),
            decreases 20 - k,
        {
            if let Value::Fixed(num) = &cells[k] {
                let num: char = *num;
                assert(cells@[k as int]@ == Cell::Fixed(num));
                if !has_char(&out, num) {
                    proof {
                        broadcast use lemma_seq_contains_after_push;

                    }
                    out.push(num);
                }
            }
            k += 1;
        }
        proof {
            assert forall|d: char| #[trigger] out@.contains(d) <==> conflicts(
                self@,
                idx as int,
                d,
            ) by {
                if conflicts(self@, idx as int, d) {
                    let p = choose|p: int| #[trigger]
                        is_peer(idx as int, p) && self@[p] == Cell::Fixed(d);
                    assert(peers@.contains(p as usize));
                    let m = choose|m: int| 0 <= m < peers@.len() && peers@[m] == p as usize;
                    assert(self@[peers@[m] as int] == Cell::Fixed(d));
                }
                if out@.contains(d) {
                    let m = choose|m: int|
                        0 <= m < 20 && self@[#[trigger] peers@[m] as int] == Cell::Fixed(d);
                    assert(is_peer(idx as int, peers@[m] as int));
                }
            }
        }
        out
    }

}

/// Every cell of a unit lies in the grid.
pub(crate) proof fn lemma_unit_bounds(group: Seq<usize>)
    requires
        is_unit(group),
    ensures
        forall|m: int| 0 <= m < 9 ==> #[trigger] group[m] < 81,
{
    assert forall|m: int| 0 <= m < 9 implies #[trigger] group[m] < 81 by {
        lemma_unit_in_range(group, m);
    }
}

/// The cell at place `k` of a unit lies in the grid.
pub(crate) proof fn lemma_unit_in_range(group: Seq<usize>, k: int)
    requires
        is_unit(group),
        0 <= k < 9,
    ensures
        group[k] < 81,
{
    if k == 0 {
        assert(is_peer(group[0] as int, group[1] as int));
    } else {
        assert(is_peer(group[0] as int, group[k] as int));
    }
}

} // verus!
