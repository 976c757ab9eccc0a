//! A thin composition of the parts: one rule and the history of rows that
//! repeated stepping has produced.

use vstd::prelude::*;

use crate::row::{step_window, Row};
use crate::rule::Rule;

verus! {

/// A simulation: its rule and the rows produced so far, oldest first.
pub struct Automaton {
    pub rule: Rule,
    pub rows: Vec<Row>,
}

impl Automaton {
    /// A nonempty history of well-formed rows.
    pub open spec fn wf(self) -> bool {
        &&& self.rows@.len() >= 1
        &&& forall|i: int| 0 <= i < self.rows@.len() ==> (#[trigger] self.rows@[i]).wf()
    }

    pub fn new(wolfram_code: u8, init_row: Row) -> (a: Automaton)
        requires
            init_row.wf(),
        ensures
            a.rule.wolfram_code == wolfram_code,
            a.rows@.len() == 1,
            a.rows@[0] == init_row,
            a.wf(),
    {
        let mut rows: Vec<Row> = Vec::new();
        rows.push(init_row);
        Automaton { rule: Rule::new(wolfram_code), rows }
    }

    /// Append the successor of the latest row to the history.
    pub fn step(&mut self)
        requires
            old(self).wf(),
            old(self).rows@.last().offset >= i64::MIN + 2,
        ensures
            final(self).rule == old(self).rule,
            final(self).rows@.len() == old(self).rows@.len() + 1,
            forall|i: int|
                0 <= i < old(self).rows@.len() ==> final(self).rows@[i] == old(self).rows@[i],
            final(self).rows@.last().cells@ == step_window(
                old(self).rule.wolfram_code,
                old(self).rows@.last().cells@,
            ),
            final(self).rows@.last().offset == old(self).rows@.last().offset - 2,
            final(self).wf(),
    {
        let n: usize = self.rows.len();
        let next_row = self.rows[n - 1].next(&self.rule);
        self.rows.push(next_row);
    }
}

} // verus!
