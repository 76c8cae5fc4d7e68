//! The dynamic program-counter trace of one simulation run.
use vstd::prelude::*;
use vstd::slice::slice_to_vec;
use vstd::std_specs::iter::IteratorSpec;

verus! {

/// The sequence of pcs that a run executed, in order.
#[derive(Clone, Debug)]
pub struct PCTrace {
    pcs: Vec<u64>,
}

impl View for PCTrace {
    type V = Seq<u64>;

    closed spec fn view(&self) -> Seq<u64> {
        self.pcs@
    }
}

impl PCTrace {
    /// An empty trace.
    pub fn new() -> (t: Self)
        ensures
            t@ == Seq::<u64>::empty(),
    {
        Self { pcs: Vec::new() }
    }

    /// Replaces the trace by a copy of `pcs`.
    pub fn update_from_pcs(&mut self, pcs: &[u64])
        ensures
            final(self)@ == pcs@,
    {
        self.pcs = slice_to_vec(pcs);
    }

    pub fn len(&self) -> (n: usize)
        ensures
            n == self@.len(),
    {
        self.pcs.len()
    }

    /// Iterates over the pcs in order.
    pub fn iter(&self) -> (it: std::slice::Iter<'_, u64>)
        ensures
            it.remaining() == self@.as_ref(),
    {
        self.pcs.as_slice().iter()
    }

    /// Iterates over the pcs in order, consuming the trace.
    pub fn into_iter(self) -> (it: std::vec::IntoIter<u64>)
        ensures
            it.remaining() == self@,
    {
        self.pcs.into_iter()
    }

    pub fn as_slice(&self) -> (s: &[u64])
        ensures
            s@ == self@,
    {
        self.pcs.as_slice()
    }

    pub fn as_mut_slice(&mut self) -> (s: &mut [u64])
        ensures
            s@ == old(self)@,
            final(s)@ == final(self)@,
    {
        self.pcs.as_mut_slice()
    }
}

} // verus!
