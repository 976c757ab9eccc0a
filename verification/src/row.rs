//! Rows of the automaton: a finite window of explicit cells plus the offset
//! of the window's first cell on the conceptually infinite line. Every cell
//! left of the window holds the window's first value and every cell right of
//! it holds the window's last value, so a row always stands for a total
//! assignment of the line. The window begins and ends with three equal cells
//! (the skirt), which is what lets `next` apply a three-neighbor rule at the
//! window's edges without reading the unmaterialized fill.

use vstd::prelude::*;

use crate::rule::{rule_applies, Rule};

verus! {

/// The skirt invariant: the window holds at least six cells, its first three
/// cells are equal and its last three cells are equal.
pub open spec fn skirt_ok(w: Seq<bool>) -> bool {
    &&& w.len() >= 6
    &&& w[1] == w[0]
    &&& w[2] == w[0]
    &&& w[w.len() - 2] == w[w.len() - 1]
    &&& w[w.len() - 3] == w[w.len() - 1]
}

/// Whether every cell of the window holds one value.
pub open spec fn all_same(w: Seq<bool>) -> bool {
    forall|i: int| 0 <= i < w.len() ==> #[trigger] w[i] == w[0]
}

/// The value at coordinate `coord` of the infinite line that a window `w`
/// placed at `offset` stands for: a window lookup inside the window, the
/// window's first value left of it and its last value right of it.
pub open spec fn line_cell(offset: int, w: Seq<bool>, coord: int) -> bool {
    if coord < offset {
        w[0]
    } else if coord >= offset + w.len() {
        w[w.len() - 1]
    } else {
        w[coord - offset]
    }
}

/// A row of the automaton: `cells` is the explicit window and `offset` the
/// coordinate of `cells[0]` on the infinite line.
pub struct Row {
    pub offset: i64,
    pub cells: Vec<bool>,
}

/// The window index that the cell at position `j` of a stepped window is
/// computed from: `j - 2`, clamped to the positions where a full three-cell
/// neighborhood exists. The clamping is what replicates the leftmost and
/// rightmost new cells three times, re-establishing the skirt.
pub open spec fn step_source(len: int, j: int) -> int {
    if j <= 2 {
        0
    } else if j - 2 > len - 3 {
        len - 3
    } else {
        j - 2
    }
}

/// Cell `j` of the window obtained by stepping window `w` under rule `code`.
pub open spec fn step_cell(code: u8, w: Seq<bool>, j: int) -> bool {
    let i = step_source(w.len() as int, j);
    rule_applies(code, w[i], w[i + 1], w[i + 2])
}

/// The window obtained by stepping window `w` one generation under rule
/// `code`: two cells longer than `w`, its head and tail cells replicated
/// three times each.
pub open spec fn step_window(code: u8, w: Seq<bool>) -> Seq<bool> {
    Seq::new((w.len() + 2) as nat, |j: int| step_cell(code, w, j))
}

impl Row {
    /// The well-formedness invariant of a row, established by every
    /// constructor and preserved by `next` and `compress`.
    pub open spec fn wf(self) -> bool {
        skirt_ok(self.cells@)
    }

    /// The value of the cell at coordinate `coord` of the infinite line this
    /// row stands for: a window lookup inside the window, the constant fill
    /// outside it.
    pub open spec fn cell_at(self, coord: int) -> bool {
        line_cell(self.offset as int, self.cells@, coord)
    }

    /// The line that is `!seed` everywhere except a single `seed` cell at
    /// coordinate zero.
    pub fn new() -> (r: Row)
        ensures
            r.offset == -3,
            r.cells@ =~= seq![false, false, false, true, false, false, false],
            r.wf(),
    {
        Row::from_single(true)
    }

    /// The line that is `!a` everywhere except a single `a` cell at
    /// coordinate zero: a seven-cell window, three `!a` skirt cells on each
    /// side of the seed.
    pub fn from_single(a: bool) -> (r: Row)
        ensures
            r.offset == -3,
            r.cells@ =~= seq![!a, !a, !a, a, !a, !a, !a],
            r.wf(),
    {
        let b = !a;
        let mut cells: Vec<bool> = Vec::new();
        cells.push(b);
        cells.push(b);
        cells.push(b);
        cells.push(a);
        cells.push(b);
        cells.push(b);
        cells.push(b);
        Row { offset: -3, cells }
    }

    /// The line whose explicit cells are `state`, centered near the origin,
    /// with the first and last given cells continuing forever on their sides:
    /// three cells of `state[0]` are prepended and three of its last cell
    /// appended as the skirt, and the offset places `state[0]` at coordinate
    /// `-(len(state)/2)`.
    pub fn from_state(state: &[bool]) -> (r: Row)
        requires
            state@.len() >= 1,
            state@.len() <= 0x7fff_ffff_ffff_fff0,
        ensures
            r.offset == -3 - (state@.len() as int) / 2,
            r.cells@ =~= seq![state@[0], state@[0], state@[0]] + state@ + seq![
                state@.last(),
                state@.last(),
                state@.last(),
            ],
            r.wf(),
    {
        let left = state[0];
        let right = state[state.len() - 1];
        let mut cells: Vec<bool> = Vec::new();
        cells.push(left);
        cells.push(left);
        cells.push(left);
        let mut i: usize = 0;
        while i < state.len()
            invariant
                0 <= i <= state@.len(),
                cells@.len() == 3 + i,
                cells@ =~= seq![state@[0], state@[0], state@[0]] + state@.take(i as int),
                left == state@[0],
            decreases state@.len() - i,
        {
            cells.push(state[i]);
            i = i + 1;
        }
        cells.push(right);
        cells.push(right);
        cells.push(right);
        let half: usize = state.len() / 2;
        Row { offset: -3 - (half as i64), cells }
    }

    /// The offset and a copy of the window, in that order.
    pub fn get_state(&self) -> (r: (i64, Vec<bool>))
        ensures
            r.0 == self.offset,
            r.1@ == self.cells@,
    {
        let mut out: Vec<bool> = Vec::new();
        let mut i: usize = 0;
        while i < self.cells.len()
            invariant
                0 <= i <= self.cells@.len(),
                out@ =~= self.cells@.take(i as int),
            decreases self.cells@.len() - i,
        {
            out.push(self.cells[i]);
            i = i + 1;
        }
        assert(out@ =~= self.cells@);
        (self.offset, out)
    }

    /// Advance the row one generation under `rule`. Each window position
    /// with a full three-cell neighborhood yields one new cell; the leftmost
    /// and rightmost new cells are replicated three times to rebuild the
    /// skirt, so the window grows by two cells, and the offset decreases by
    /// two.
    pub fn next(&self, rule: &Rule) -> (r: Row)
        requires
            self.wf(),
            self.offset >= i64::MIN + 2,
        ensures
            r.offset == self.offset - 2,
            r.cells@ == step_window(rule.wolfram_code, self.cells@),
            r.cells@.len() == self.cells@.len() + 2,
            r.wf(),
    {
        let ghost w = self.cells@;
        let ghost code = rule.wolfram_code;
        let len: usize = self.cells.len();
        let mut out: Vec<bool> = Vec::new();
        let head = rule.apply(&[self.cells[0], self.cells[1], self.cells[2]]);
        out.push(head);
        out.push(head);
        out.push(head);
        assert(forall|j: int| 0 <= j < 3 ==> out@[j] == step_cell(code, w, j));
        let mut i: usize = 1;
        while i < len - 3
            invariant
                1 <= i <= len - 3,
                len == w.len(),
                len >= 6,
                code == rule.wolfram_code,
                w == self.cells@,
                out@.len() == i + 2,
                forall|j: int| 0 <= j < out@.len() ==> out@[j] == step_cell(code, w, j),
            decreases len - 3 - i,
        {
            let c = rule.apply(&[self.cells[i], self.cells[i + 1], self.cells[i + 2]]);
            assert(c == step_cell(code, w, i + 2));
            out.push(c);
            i = i + 1;
        }
        let tail = rule.apply(&[self.cells[len - 3], self.cells[len - 2], self.cells[len - 1]]);
        assert(tail == step_cell(code, w, len - 1)) by {
            assert(step_source(len as int, len - 1) == len - 3);
        }
        assert(tail == step_cell(code, w, len as int));
        assert(tail == step_cell(code, w, len + 1));
        out.push(tail);
        out.push(tail);
        out.push(tail);
        assert(out@ =~= step_window(code, w));
        Row { offset: self.offset - 2, cells: out }
    }
}

} // verus!
