//! Shrinking a row's window to its minimal stable extent. A long run of
//! cells equal to the window's last value is cut back to a three-cell skirt;
//! a long run equal to the first value is likewise cut, shifting the
//! remaining cells left and advancing the offset by the same amount so the
//! coordinate mapping is unchanged. The line that the row stands for is
//! proved to be exactly the same before and after.

use vstd::prelude::*;

use crate::row::{all_same, line_cell, skirt_ok, Row};

verus! {

/// Where the constant run ending the window begins, walking left from `b`:
/// the walk stops at the first `r` with `r == 0` or
/// `w[r - 1] != w[w.len() - 1]`.
pub open spec fn tail_run_walk(w: Seq<bool>, b: int) -> int
    decreases b,
{
    if b > 0 && w[b - 1] == w[w.len() - 1] {
        tail_run_walk(w, b - 1)
    } else {
        b
    }
}

/// The index where the window's final constant run begins, starting the walk
/// three cells before the end as `compress` does.
pub open spec fn tail_run_start(w: Seq<bool>) -> int {
    tail_run_walk(w, w.len() - 3)
}

/// The window with its final constant run cut back to a three-cell skirt.
pub open spec fn trim_tail(w: Seq<bool>) -> Seq<bool> {
    w.take(tail_run_start(w) + 3)
}

/// Where the constant run opening the window ends, walking right from `f`:
/// the walk stops at the first `f` with `f + 1 == w.len()` or
/// `w[f + 1] != w[0]`.
pub open spec fn head_run_walk(w: Seq<bool>, f: int) -> int
    decreases w.len() - f,
{
    if f + 1 < w.len() && w[f + 1] == w[0] {
        head_run_walk(w, f + 1)
    } else {
        f
    }
}

/// The index where the window's opening constant run ends, starting the walk
/// at the third cell as `compress` does.
pub open spec fn head_run_end(w: Seq<bool>) -> int {
    head_run_walk(w, 2)
}

/// The window with its opening constant run cut back to a three-cell skirt.
pub open spec fn trim_head(w: Seq<bool>) -> Seq<bool> {
    w.take(3) + w.skip(head_run_end(w) + 1)
}

/// The window `compress` leaves behind: the tail run trimmed, then the head
/// run trimmed.
pub open spec fn compressed_window(w: Seq<bool>) -> Seq<bool> {
    trim_head(trim_tail(w))
}

/// How far `compress` advances the offset: the number of cells the head trim
/// removes.
pub open spec fn head_shift(w: Seq<bool>) -> int {
    head_run_end(trim_tail(w)) - 2
}

proof fn lemma_tail_walk(w: Seq<bool>, b: int)
    requires
        0 <= b < w.len(),
        forall|j: int| b <= j < w.len() ==> #[trigger] w[j] == w[w.len() - 1],
    ensures
        0 <= tail_run_walk(w, b) <= b,
        forall|j: int| tail_run_walk(w, b) <= j < w.len() ==> #[trigger] w[j] == w[w.len() - 1],
        tail_run_walk(w, b) > 0 ==> w[tail_run_walk(w, b) - 1] != w[w.len() - 1],
    decreases b,
{
    if b > 0 && w[b - 1] == w[w.len() - 1] {
        lemma_tail_walk(w, b - 1);
    }
}

proof fn lemma_tail_run_start(w: Seq<bool>)
    requires
        skirt_ok(w),
        !all_same(w),
    ensures
        3 <= tail_run_start(w) <= w.len() - 3,
        forall|j: int| tail_run_start(w) <= j < w.len() ==> #[trigger] w[j] == w[w.len() - 1],
        w[tail_run_start(w) - 1] != w[w.len() - 1],
{
    lemma_tail_walk(w, w.len() - 3);
    let r = tail_run_start(w);
    if r == 0 {
        assert(w[0] == w[w.len() - 1]);
        assert(forall|i: int| 0 <= i < w.len() ==> #[trigger] w[i] == w[0]);
        assert(false);
    }
    if r <= 2 {
        assert(w[2] == w[w.len() - 1]);
        assert(w[r - 1] == w[0]);
        assert(false);
    }
}

proof fn lemma_head_walk(w: Seq<bool>, f: int)
    requires
        0 <= f < w.len(),
        forall|j: int| 0 <= j <= f ==> #[trigger] w[j] == w[0],
    ensures
        f <= head_run_walk(w, f) < w.len(),
        forall|j: int| 0 <= j <= head_run_walk(w, f) ==> #[trigger] w[j] == w[0],
        head_run_walk(w, f) + 1 < w.len() ==> w[head_run_walk(w, f) + 1] != w[0],
    decreases w.len() - f,
{
    if f + 1 < w.len() && w[f + 1] == w[0] {
        lemma_head_walk(w, f + 1);
    }
}

proof fn lemma_head_run_end(w: Seq<bool>)
    requires
        skirt_ok(w),
        w[w.len() - 4] != w[w.len() - 1],
    ensures
        2 <= head_run_end(w) <= w.len() - 4,
        forall|j: int| 0 <= j <= head_run_end(w) ==> #[trigger] w[j] == w[0],
        w[head_run_end(w) + 1] != w[0],
{
    lemma_head_walk(w, 2);
    let r = head_run_end(w);
    if w[0] == w[w.len() - 1] {
        assert(w[w.len() - 4] != w[0]);
        assert(r < w.len() - 4);
    } else {
        assert(w[w.len() - 3] != w[0]);
        assert(r < w.len() - 3);
        if r == w.len() - 4 {
        } else {
            assert(r < w.len() - 4);
        }
    }
}

proof fn lemma_trim_tail(w: Seq<bool>)
    requires
        skirt_ok(w),
        !all_same(w),
    ensures
        trim_tail(w).len() == tail_run_start(w) + 3,
        6 <= trim_tail(w).len() <= w.len(),
        forall|i: int| 0 <= i < trim_tail(w).len() ==> trim_tail(w)[i] == w[i],
        skirt_ok(trim_tail(w)),
        !all_same(trim_tail(w)),
        trim_tail(w)[trim_tail(w).len() - 4] != trim_tail(w)[trim_tail(w).len() - 1],
        trim_tail(w)[trim_tail(w).len() - 1] == w[w.len() - 1],
        forall|c: int| line_cell(0, trim_tail(w), c) == line_cell(0, w, c),
{
    lemma_tail_run_start(w);
    let b = tail_run_start(w);
    let w1 = trim_tail(w);
    assert(w1.len() == b + 3);
    assert(w1[b] == w[w.len() - 1] && w1[b + 1] == w[w.len() - 1] && w1[b + 2] == w[w.len() - 1]);
    assert(w1[b - 1] != w1[w1.len() - 1]);
    assert(!all_same(w1)) by {
        if all_same(w1) {
            assert(w1[b - 1] == w1[0] && w1[b] == w1[0]);
        }
    }
    assert forall|c: int| line_cell(0, w1, c) == line_cell(0, w, c) by {
        if c < 0 {
        } else if c < w1.len() {
        } else if c < w.len() {
            assert(w[c] == w[w.len() - 1]);
        } else {
        }
    }
}

proof fn lemma_trim_head(w: Seq<bool>)
    requires
        skirt_ok(w),
        w[w.len() - 4] != w[w.len() - 1],
    ensures
        trim_head(w).len() == w.len() - (head_run_end(w) - 2),
        6 <= trim_head(w).len() <= w.len(),
        forall|k: int| 0 <= k < 3 ==> trim_head(w)[k] == w[0],
        forall|k: int|
            3 <= k < trim_head(w).len() ==> trim_head(w)[k] == w[k + head_run_end(w) - 2],
        skirt_ok(trim_head(w)),
        trim_head(w)[3] != trim_head(w)[0],
        trim_head(w)[trim_head(w).len() - 4] != trim_head(w)[trim_head(w).len() - 1],
        !all_same(trim_head(w)),
        forall|c: int| line_cell(head_run_end(w) - 2, trim_head(w), c) == line_cell(0, w, c),
{
    lemma_head_run_end(w);
    let f = head_run_end(w);
    let n = f - 2;
    let w2 = trim_head(w);
    let len = w.len() as int;
    let len2 = w2.len() as int;
    assert(len2 == len - n);
    assert(forall|k: int| 3 <= k < len2 ==> w2[k] == w[k + n]);
    assert(w2[3] == w[f + 1]);
    assert(w2[len2 - 1] == w[len - 1] && w2[len2 - 2] == w[len - 2] && w2[len2 - 3] == w[len
        - 3]);
    assert(skirt_ok(w2));
    if len2 >= 7 {
        assert(w2[len2 - 4] == w[len - 4]);
    } else {
        assert(len2 == 6);
        assert(f == len - 4);
        assert(w[f] == w[0]);
        assert(w2[2] == w[0] && w2[len2 - 1] == w[len - 1]);
    }
    assert(!all_same(w2)) by {
        if all_same(w2) {
            assert(w2[3] == w2[0] && w2[0] == w2[0]);
        }
    }
    assert forall|c: int| line_cell(n, w2, c) == line_cell(0, w, c) by {
        if c < 0 {
            assert(line_cell(n, w2, c) == w2[0]);
            assert(line_cell(0, w, c) == w[0]);
        } else if c < n {
            assert(line_cell(0, w, c) == w[c]);
            assert(w[c] == w[0]);
            assert(line_cell(n, w2, c) == w2[0]);
        } else if c < n + 3 {
            assert(line_cell(n, w2, c) == w2[c - n]);
            assert(w2[c - n] == w[0]);
            assert(line_cell(0, w, c) == w[c]);
            assert(w[c] == w[0]);
        } else if c < len {
            assert(line_cell(n, w2, c) == w2[c - n]);
            assert(w2[c - n] == w[c]);
        } else {
            assert(line_cell(n, w2, c) == w2[len2 - 1]);
            assert(line_cell(0, w, c) == w[len - 1]);
        }
    }
}

/// The shape `compress` always leaves a window in: well formed, not
/// constant, and with no constant run longer than the three-cell skirt at
/// either end.
pub open spec fn fully_compressed(w: Seq<bool>) -> bool {
    &&& skirt_ok(w)
    &&& w[3] != w[0]
    &&& w[w.len() - 4] != w[w.len() - 1]
}

proof fn lemma_compressed_canonical(w: Seq<bool>)
    requires
        skirt_ok(w),
        !all_same(w),
    ensures
        skirt_ok(compressed_window(w)),
        !all_same(compressed_window(w)),
        fully_compressed(compressed_window(w)),
        0 <= head_shift(w) <= w.len() - 6,
        6 <= compressed_window(w).len() <= w.len(),
        forall|c: int|
            line_cell(head_shift(w), compressed_window(w), c) == line_cell(0, w, c),
{
    lemma_trim_tail(w);
    lemma_trim_head(trim_tail(w));
}

/// Compressing is idempotent: a window that `compress` has produced is left
/// byte-identical by a second `compress`, with no further offset shift.
pub proof fn lemma_compress_idempotent(w: Seq<bool>)
    requires
        skirt_ok(w),
        !all_same(w),
    ensures
        compressed_window(compressed_window(w)) == compressed_window(w),
        head_shift(compressed_window(w)) == 0,
{
    lemma_compressed_canonical(w);
    let v = compressed_window(w);
    lemma_fully_compressed_fixed(v);
}

/// A window with no constant run past either skirt is a fixed point of the
/// compressed-window function.
pub proof fn lemma_fully_compressed_fixed(v: Seq<bool>)
    requires
        fully_compressed(v),
    ensures
        compressed_window(v) == v,
        head_shift(v) == 0,
{
    assert(tail_run_walk(v, v.len() - 3) == v.len() - 3);
    assert(trim_tail(v) =~= v);
    assert(head_run_walk(v, 2) == 2);
    assert(trim_head(v) =~= v);
}

impl Row {
    /// Shrink the window, in place, to its minimal stable extent: the
    /// constant run at each end is cut back to the three-cell skirt, and the
    /// offset advances by the number of cells removed at the head, so that
    /// every coordinate of the line keeps its value. A window that is
    /// constant everywhere is excluded: its runs have no inner end to stop
    /// at.
    #[verifier::rlimit(60)]
    pub fn compress(&mut self)
        requires
            old(self).wf(),
            !all_same(old(self).cells@),
            old(self).offset + old(self).cells@.len() <= i64::MAX,
        ensures
            final(self).cells@ == compressed_window(old(self).cells@),
            final(self).offset == old(self).offset + head_shift(old(self).cells@),
            final(self).wf(),
            !all_same(final(self).cells@),
            forall|c: int| #[trigger] final(self).cell_at(c) == old(self).cell_at(c),
    {
        let ghost w0 = self.cells@;
        proof {
            lemma_tail_run_start(w0);
        }
        let len: usize = self.cells.len();
        let tail = self.cells[len - 1];
        let mut back: usize = len - 3;
        while self.cells[back - 1] == tail
            invariant
                self.cells@ == w0,
                self.offset == old(self).offset,
                skirt_ok(w0),
                !all_same(w0),
                len == w0.len(),
                tail == w0[w0.len() - 1],
                3 <= tail_run_start(w0) <= back <= len - 3,
                forall|j: int| back <= j < w0.len() ==> #[trigger] w0[j] == w0[w0.len() - 1],
                tail_run_walk(w0, back as int) == tail_run_start(w0),
            decreases back,
        {
            proof {
                assert(tail_run_walk(w0, back as int) == tail_run_walk(w0, back - 1));
                lemma_tail_walk(w0, back - 1);
            }
            back = back - 1;
        }
        proof {
            assert(tail_run_walk(w0, back as int) == back as int);
            assert(back as int == tail_run_start(w0));
        }
        if back < len - 3 {
            self.cells.truncate(back + 3);
        }
        proof {
            assert(self.cells@ =~= trim_tail(w0));
            lemma_trim_tail(w0);
        }
        let ghost w1 = self.cells@;
        proof {
            lemma_head_run_end(w1);
        }
        let len1: usize = self.cells.len();
        let head = self.cells[0];
        let mut front: usize = 2;
        while self.cells[front + 1] == head
            invariant
                self.cells@ == w1,
                self.offset == old(self).offset,
                len1 == w1.len(),
                head == w1[0],
                2 <= front <= head_run_end(w1) <= len1 - 4,
                forall|j: int| 0 <= j <= front ==> #[trigger] w1[j] == w1[0],
                head_run_walk(w1, front as int) == head_run_end(w1),
            decreases len1 - front,
        {
            proof {
                assert(head_run_walk(w1, front as int) == head_run_walk(w1, front + 1));
                lemma_head_walk(w1, front + 1);
            }
            front = front + 1;
        }
        proof {
            assert(head_run_walk(w1, front as int) == front as int);
            assert(front as int == head_run_end(w1));
        }
        if front > 2 {
            let n: usize = front - 2;
            let mut i: usize = front + 1;
            while i < len1
                invariant
                    front + 1 <= i <= len1,
                    n == front - 2,
                    3 <= front + 1 <= len1,
                    self.cells@.len() == len1,
                    self.offset == old(self).offset,
                    len1 == w1.len(),
                    forall|k: int| 0 <= k < 3 ==> self.cells@[k] == w1[k],
                    forall|k: int| 3 <= k < i - n ==> self.cells@[k] == w1[k + n],
                    forall|k: int| i - n <= k < len1 ==> self.cells@[k] == w1[k],
                decreases len1 - i,
            {
                let v = self.cells[i];
                self.cells[i - n] = v;
                i = i + 1;
            }
            self.cells.truncate(len1 - n);
        }
        proof {
            assert(self.cells@ =~= trim_head(w1));
        }
        let shift: usize = front - 2;
        let wide: i128 = (self.offset as i128) + (shift as i128);
        proof {
            lemma_compressed_canonical(w0);
            assert(head_shift(w0) == shift as int);
            assert(wide <= old(self).offset + w0.len());
        }
        self.offset = wide as i64;
        proof {
            assert forall|c: int| #[trigger] self.cell_at(c) == old(self).cell_at(c) by {
                let d = c - old(self).offset;
                assert(line_cell(head_shift(w0), compressed_window(w0), d) == line_cell(
                    0,
                    w0,
                    d,
                ));
                assert(self.cell_at(c) == line_cell(head_shift(w0), compressed_window(w0), d));
                assert(old(self).cell_at(c) == line_cell(0, w0, d));
            }
        }
    }
}

} // verus!
