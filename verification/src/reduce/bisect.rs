//! The binary searches that the reductions run over candidate indices, as
//! state machines: the caller runs the candidate at `next_index` and
//! records whether it reproduced the failure.
use vstd::prelude::*;

verus! {

/// Reproducing at `a` implies reproducing at every `b` from `a` up to `hi`.
pub open spec fn upward_closed_in(valid: spec_fn(int) -> bool, lo: int, hi: int) -> bool {
    forall|a: int, b: int| lo <= a <= b < hi && #[trigger] valid(a) ==> #[trigger] valid(b)
}

/// Reproducing at `b` implies reproducing at every `a` from `lo` up to `b`.
pub open spec fn downward_closed_in(valid: spec_fn(int) -> bool, lo: int, hi: int) -> bool {
    forall|a: int, b: int| lo <= a <= b < hi && #[trigger] valid(b) ==> #[trigger] valid(a)
}

/// A search for the smallest reproducing index in `[start_low, start_high)`.
/// Indices below `low` failed; `best`, once set, is `high` and reproduced.
#[derive(Clone, Copy, Debug)]
pub struct LeastSearch {
    pub start_low: usize,
    pub start_high: usize,
    pub low: usize,
    pub high: usize,
    pub best: Option<usize>,
}

impl LeastSearch {
    pub open spec fn wf(self) -> bool {
        &&& self.start_low <= self.low <= self.high <= self.start_high
        &&& self.best is None ==> self.high == self.start_high
        &&& self.best matches Some(b) ==> b == self.high
    }

    pub open spec fn mid(self) -> usize {
        (self.low + (self.high - self.low) / 2) as usize
    }

    pub open spec fn stepped(self, reproduced: bool) -> Self {
        if reproduced {
            LeastSearch { best: Some(self.mid()), high: self.mid(), ..self }
        } else {
            LeastSearch { low: (self.mid() + 1) as usize, ..self }
        }
    }

    pub open spec fn consistent_with(self, valid: spec_fn(int) -> bool) -> bool {
        &&& self.wf()
        &&& forall|x: int| self.start_low <= x < self.low ==> !#[trigger] valid(x)
        &&& self.best matches Some(b) ==> valid(b as int)
    }

    /// A search over `[low, high)` that has found nothing yet.
    pub fn new(low: usize, high: usize) -> (s: Self)
        requires
            low <= high,
        ensures
            s == (LeastSearch { start_low: low, start_high: high, low, high, best: None }),
            s.wf(),
    {
        LeastSearch { start_low: low, start_high: high, low, high, best: None }
    }

    /// A search over `[low, high)` that already knows `high` reproduces.
    pub fn with_best(low: usize, high: usize) -> (s: Self)
        requires
            low <= high,
        ensures
            s == (LeastSearch { start_low: low, start_high: high, low, high, best: Some(high) }),
            s.wf(),
    {
        LeastSearch { start_low: low, start_high: high, low, high, best: Some(high) }
    }

    /// The index to try next, while indices remain open.
    pub fn next_index(&self) -> (r: Option<usize>)
        requires
            self.wf(),
        ensures
            r == (if self.low < self.high {
                Some(self.mid())
            } else {
                None
            }),
    {
        if self.low < self.high {
            Some(self.low + (self.high - self.low) / 2)
        } else {
            None
        }
    }

    /// Records the outcome of the run at `next_index`.
    pub fn record(&mut self, reproduced: bool)
        requires
            old(self).wf(),
            old(self).low < old(self).high,
        ensures
            *final(self) == old(self).stepped(reproduced),
            final(self).wf(),
    {
        let mid = self.low + (self.high - self.low) / 2;
        if reproduced {
            self.best = Some(mid);
            self.high = mid;
        } else {
            self.low = mid + 1;
        }
    }

    pub fn best(&self) -> (r: Option<usize>)
        ensures
            r == self.best,
    {
        self.best
    }

    /// One step keeps the search consistent with an upward-closed `valid`.
    pub proof fn lemma_step(self, valid: spec_fn(int) -> bool)
        requires
            self.consistent_with(valid),
            self.low < self.high,
            upward_closed_in(valid, self.start_low as int, self.start_high as int),
        ensures
            self.stepped(valid(self.mid() as int)).consistent_with(valid),
    {
        let mid = self.mid() as int;
        if !valid(mid) {
            assert forall|x: int| self.start_low <= x < mid + 1 implies !#[trigger] valid(x) by {
                if x >= self.low && valid(x) {
                    assert(valid(mid));
                }
            }
        }
    }

    /// A finished search holds the smallest reproducing index, or none
    /// reproduces below `start_high`.
    pub proof fn lemma_done(self, valid: spec_fn(int) -> bool)
        requires
            self.consistent_with(valid),
            self.low >= self.high,
        ensures
            match self.best {
                Some(b) => valid(b as int) && self.start_low <= b <= self.start_high && forall|
                    x: int,
                | self.start_low <= x < b ==> !#[trigger] valid(x),
                None => forall|x: int| self.start_low <= x < self.start_high ==> !#[trigger] valid(x),
            },
    {
    }
}

/// A search for the greatest reproducing index in `[start_low,
/// start_high)`. Indices from `high` on failed; `best`, once set, is
/// `low - 1` and reproduced.
#[derive(Clone, Copy, Debug)]
pub struct GreatestSearch {
    pub start_low: usize,
    pub start_high: usize,
    pub low: usize,
    pub high: usize,
    pub best: Option<usize>,
}

impl GreatestSearch {
    pub open spec fn wf(self) -> bool {
        &&& self.start_low <= self.low <= self.high <= self.start_high
        &&& self.best is None ==> self.low == self.start_low
        &&& self.best matches Some(b) ==> b + 1 == self.low && self.start_low <= b
    }

    pub open spec fn mid(self) -> usize {
        (self.low + (self.high - self.low) / 2) as usize
    }

    pub open spec fn stepped(self, reproduced: bool) -> Self {
        if reproduced {
            GreatestSearch { best: Some(self.mid()), low: (self.mid() + 1) as usize, ..self }
        } else {
            GreatestSearch { high: self.mid(), ..self }
        }
    }

    pub open spec fn consistent_with(self, valid: spec_fn(int) -> bool) -> bool {
        &&& self.wf()
        &&& forall|x: int| self.high <= x < self.start_high ==> !#[trigger] valid(x)
        &&& self.best matches Some(b) ==> valid(b as int)
    }

    /// A search over `[low, high)` that has found nothing yet.
    pub fn new(low: usize, high: usize) -> (s: Self)
        requires
            low <= high,
        ensures
            s == (GreatestSearch { start_low: low, start_high: high, low, high, best: None }),
            s.wf(),
    {
        GreatestSearch { start_low: low, start_high: high, low, high, best: None }
    }

    pub fn next_index(&self) -> (r: Option<usize>)
        requires
            self.wf(),
        ensures
            r == (if self.low < self.high {
                Some(self.mid())
            } else {
                None
            }),
    {
        if self.low < self.high {
            Some(self.low + (self.high - self.low) / 2)
        } else {
            None
        }
    }

    pub fn record(&mut self, reproduced: bool)
        requires
            old(self).wf(),
            old(self).low < old(self).high,
        ensures
            *final(self) == old(self).stepped(reproduced),
            final(self).wf(),
    {
        let mid = self.low + (self.high - self.low) / 2;
        if reproduced {
            self.best = Some(mid);
            self.low = mid + 1;
        } else {
            self.high = mid;
        }
    }

    pub fn best(&self) -> (r: Option<usize>)
        ensures
            r == self.best,
    {
        self.best
    }

    /// One step keeps the search consistent with a downward-closed `valid`.
    pub proof fn lemma_step(self, valid: spec_fn(int) -> bool)
        requires
            self.consistent_with(valid),
            self.low < self.high,
            downward_closed_in(valid, self.start_low as int, self.start_high as int),
        ensures
            self.stepped(valid(self.mid() as int)).consistent_with(valid),
    {
        let mid = self.mid() as int;
        if !valid(mid) {
            assert forall|x: int| mid <= x < self.start_high implies !#[trigger] valid(x) by {
                if x < self.high && valid(x) {
                    assert(valid(mid));
                }
            }
        }
    }

    /// A finished search holds the greatest reproducing index, or none
    /// reproduces.
    pub proof fn lemma_done(self, valid: spec_fn(int) -> bool)
        requires
            self.consistent_with(valid),
            self.low >= self.high,
            downward_closed_in(valid, self.start_low as int, self.start_high as int),
        ensures
            match self.best {
                Some(b) => valid(b as int) && self.start_low <= b < self.start_high && forall|
                    x: int,
                | b < x < self.start_high ==> !#[trigger] valid(x),
                None => forall|x: int| self.start_low <= x < self.start_high ==> !#[trigger] valid(x),
            },
    {
        assert forall|x: int|
            (self.best matches Some(b) && b < x < self.start_high) || (self.best is None
                && self.start_low <= x < self.start_high) implies !#[trigger] valid(x) by {
            assert(x >= self.high);
        }
    }
}

} // verus!
