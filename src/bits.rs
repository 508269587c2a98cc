//! A fixed-size grid of flags, read as a set of (row, column) pairs.
use vstd::prelude::*;

verus! {

/// Number of `true` entries in `s`.
pub open spec fn ones(s: Seq<bool>) -> nat
    decreases s.len(),
{
    if s.len() == 0 {
        0
    } else {
        ones(s.drop_last()) + if s.last() {
            1nat
        } else {
            0nat
        }
    }
}

pub proof fn lemma_ones_le(s: Seq<bool>)
    ensures
        ones(s) <= s.len(),
    decreases s.len(),
{
    if s.len() > 0 {
        lemma_ones_le(s.drop_last());
    }
}

pub proof fn lemma_ones_set(s: Seq<bool>, i: int)
    requires
        0 <= i < s.len(),
        !s[i],
    ensures
        ones(s.update(i, true)) == ones(s) + 1,
    decreases s.len(),
{
    let u = s.update(i, true);
    if i == s.len() - 1 {
        assert(u.drop_last() =~= s.drop_last());
    } else {
        assert(u.drop_last() =~= s.drop_last().update(i, true));
        lemma_ones_set(s.drop_last(), i);
    }
}

pub proof fn lemma_flat_index(r: int, c: int, r2: int, c2: int, w: int)
    requires
        0 <= c < w,
        0 <= c2 < w,
        0 <= r,
        0 <= r2,
        r * w + c == r2 * w + c2,
    ensures
        r == r2,
        c == c2,
{
    if r < r2 {
        assert(r * w + c < r2 * w + c2) by (nonlinear_arith)
            requires
                r < r2,
                0 <= c < w,
                0 <= c2,
        ;
    } else if r2 < r {
        assert(r2 * w + c2 < r * w + c) by (nonlinear_arith)
            requires
                r2 < r,
                0 <= c2 < w,
                0 <= c,
        ;
    }
}

pub proof fn lemma_flat_bound(r: int, c: int, rows: int, w: int)
    requires
        0 <= r < rows,
        0 <= c < w,
    ensures
        0 <= r * w + c < rows * w,
{
    assert(0 <= r * w + c < rows * w) by (nonlinear_arith)
        requires
            0 <= r < rows,
            0 <= c < w,
    ;
}

/// A `rows` by `cols` grid of flags stored row by row.
pub struct BitGrid {
    pub rows: usize,
    pub cols: usize,
    pub bits: Vec<bool>,
}

impl BitGrid {
    pub open spec fn wf(&self) -> bool {
        &&& self.bits@.len() == self.rows * self.cols
        &&& self.rows * self.cols <= usize::MAX
    }

    /// The pairs whose flag is set.
    pub open spec fn view(&self) -> Set<(usize, usize)> {
        Set::new(
            |p: (usize, usize)|
                p.0 < self.rows && p.1 < self.cols && self.bits@[p.0 * self.cols + p.1],
        )
    }

    pub open spec fn count(&self) -> nat {
        ones(self.bits@)
    }

    /// A grid with no flag set.
    pub fn new(rows: usize, cols: usize) -> (g: BitGrid)
        requires
            rows * cols <= usize::MAX,
        ensures
            g.wf(),
            g.rows == rows,
            g.cols == cols,
            g.view() == Set::<(usize, usize)>::empty(),
            g.count() == 0,
    {
        let n: usize = rows * cols;
        let mut bits: Vec<bool> = Vec::new();
        let mut i: usize = 0;
        while i < n
            invariant
                i <= n,
                bits@.len() == i,
                forall|j: int| 0 <= j < i ==> !bits@[j],
                ones(bits@) == 0,
            decreases n - i,
        {
            proof {
                assert(bits@.push(false).drop_last() =~= bits@);
            }
            bits.push(false);
            i = i + 1;
        }
        let g = BitGrid { rows, cols, bits };
        assert(g.view() =~= Set::<(usize, usize)>::empty()) by {
            assert forall|p: (usize, usize)| !g.view().contains(p) by {
                if p.0 < rows && p.1 < cols {
                    lemma_flat_bound(p.0 as int, p.1 as int, rows as int, cols as int);
                }
            }
        }
        g
    }

    pub fn get(&self, r: usize, c: usize) -> (b: bool)
        requires
            self.wf(),
            r < self.rows,
            c < self.cols,
        ensures
            b == self.view().contains((r, c)),
    {
        proof {
            lemma_flat_bound(r as int, c as int, self.rows as int, self.cols as int);
        }
        self.bits[r * self.cols + c]
    }

    /// Sets the flag at (r, c); says whether it was clear before.
    pub fn insert(&mut self, r: usize, c: usize) -> (added: bool)
        requires
            old(self).wf(),
            r < old(self).rows,
            c < old(self).cols,
        ensures
            final(self).wf(),
            final(self).rows == old(self).rows,
            final(self).cols == old(self).cols,
            final(self).view() == old(self).view().insert((r, c)),
            added == !old(self).view().contains((r, c)),
            !added ==> *final(self) == *old(self),
            final(self).count() == old(self).count() + if added {
                1nat
            } else {
                0nat
            },
    {
        proof {
            lemma_flat_bound(r as int, c as int, self.rows as int, self.cols as int);
        }
        let k: usize = r * self.cols + c;
        if self.bits[k] {
            assert(self.view() =~= self.view().insert((r, c)));
            false
        } else {
            let ghost before = *self;
            proof {
                lemma_ones_set(self.bits@, k as int);
            }
            self.bits.set(k, true);
            assert(self.view() =~= before.view().insert((r, c))) by {
                assert forall|p: (usize, usize)|
                    self.view().contains(p) == before.view().insert((r, c)).contains(p) by {
                    if p.0 < self.rows && p.1 < self.cols && p != (r, c) {
                        lemma_flat_bound(p.0 as int, p.1 as int, self.rows as int, self.cols as int);
                        if p.0 * self.cols + p.1 == k {
                            lemma_flat_index(
                                p.0 as int,
                                p.1 as int,
                                r as int,
                                c as int,
                                self.cols as int,
                            );
                        }
                    }
                }
            }
            true
        }
    }

    pub proof fn lemma_count_bound(&self)
        requires
            self.wf(),
        ensures
            self.count() <= self.rows * self.cols,
    {
        lemma_ones_le(self.bits@);
    }
}

} // verus!
