//! The instruction mutators: which executed instructions of the initial
//! case may be rewritten, how often each is picked, and how its bytes are
//! overwritten with random values.
//!
//! Random values are drawn from LibAFL's generator through `next_random`.
//! Each choice made from drawn values is a function of its own that takes
//! them as arguments and is stated exactly; the mutators that draw state
//! what holds whatever was drawn.
use std::collections::HashSet;
use vstd::prelude::*;

use libafl_bolts::rands::{Rand, RomuDuoJrRand};

use crate::elf::{section_holds, section_vma2offset, SectionInfo};
use crate::inst::{halfword_at, inst_fits_at, inst_len_at, inst_len_of};
use crate::reduce::strip_suffix::{first_dynamic_entries, first_entries};
use crate::state_tracker::{PCState, StateTracker};

verus! {

#[verifier::external_type_specification]
#[verifier::external_body]
pub struct ExRomuDuoJrRand(RomuDuoJrRand);

/// How the picking weight of an instruction depends on its position in
/// the window: equal, growing towards the end (tail) or towards the start
/// (head), linearly or quadratically.
#[derive(Clone, Copy, Debug, PartialEq, Eq, Structural)]
pub enum MutationStrategy {
    Uniform,
    TailLinear,
    TailQuadratic,
    HeadLinear,
    HeadQuadratic,
}

impl Default for MutationStrategy {
    fn default() -> (s: Self)
        ensures
            s == MutationStrategy::Uniform,
    {
        MutationStrategy::Uniform
    }
}

/// Why a mutator could not be built.
#[derive(Clone, Copy, Debug, PartialEq, Eq, Structural)]
pub enum MutatorError {
    /// The window holds no instruction.
    ZeroWindow,
    /// The trace of the initial case is empty.
    EmptyTrace,
    /// The window size does not fit in `usize`.
    WindowSizeOverflow,
    /// A quadratic weight does not fit in `usize`.
    WeightOverflow,
    /// The weights add up past `u64::MAX`.
    TotalWeightOverflow,
    /// No instruction is left to mutate.
    NoCandidates,
    /// The executable has no `.text` section.
    NoTextSection,
    /// The last pc is not mapped by the `.text` section.
    Unmapped { pc: u64 },
    /// The last instruction does not lie wholly in the `.text` section.
    NotInText { pc: u64, len: usize },
    /// A file offset does not fit in `usize`.
    OffsetOverflow { offset: u64 },
    /// The rebuilt executable is longer than the input it replaces.
    RebuiltTooLarge { rebuilt: usize, original: usize },
}

/// Whether a mutation changed the input.
#[derive(Clone, Copy, Debug, PartialEq, Eq, Structural)]
pub enum MutationOutcome {
    Mutated,
    Skipped,
}

// ---------------------------------------------------------------------------
// The window of instructions a mutator works on.
// ---------------------------------------------------------------------------

/// The distinct pcs of a trace, each at its first execution, in order.
pub open spec fn trace_pcs(s: Seq<PCState>) -> Seq<u64> {
    first_entries(s, s.len()).map_values(|e: (usize, u64)| e.1)
}

/// The last `window_size` of `pcs`, or all of them.
pub open spec fn last_window(pcs: Seq<u64>, window_size: int) -> Seq<u64> {
    if pcs.len() > window_size {
        pcs.skip(pcs.len() - window_size)
    } else {
        pcs
    }
}

/// The pcs a mutator may rewrite: the last `window_size` distinct pcs of
/// the initial case's trace, by first execution.
pub open spec fn mutation_window_spec(s: Seq<PCState>, window_size: u64) -> Result<
    Seq<u64>,
    MutatorError,
> {
    if window_size == 0 {
        Err(MutatorError::ZeroWindow)
    } else if trace_pcs(s).len() == 0 {
        Err(MutatorError::EmptyTrace)
    } else if window_size > usize::MAX {
        Err(MutatorError::WindowSizeOverflow)
    } else {
        Ok(last_window(trace_pcs(s), window_size as int))
    }
}

/// The pcs of the initial case a mutator may rewrite.
pub fn mutation_window(pc_trace: &StateTracker<PCState>, window_size: u64) -> (r: Result<
    Vec<u64>,
    MutatorError,
>)
    ensures
        match mutation_window_spec(pc_trace.states(), window_size) {
            Ok(w) => r matches Ok(v) && v@ == w,
            Err(e) => r == Err::<Vec<u64>, MutatorError>(e),
        },
{
    if window_size == 0 {
        return Err(MutatorError::ZeroWindow);
    }
    let entries = first_dynamic_entries(pc_trace);
    let ghost pcs = trace_pcs(pc_trace.states());
    if entries.len() == 0 {
        return Err(MutatorError::EmptyTrace);
    }
    if window_size > usize::MAX as u64 {
        return Err(MutatorError::WindowSizeOverflow);
    }
    let ws = window_size as usize;
    let start = entries.len().saturating_sub(ws);
    let mut window: Vec<u64> = Vec::new();
    let mut i = start;
    while i < entries.len()
        invariant
            start <= i <= entries@.len(),
            pcs == entries@.map_values(|e: (usize, u64)| e.1),
            window@ == pcs.subrange(start as int, i as int),
        decreases entries@.len() - i,
    {
        window.push(entries[i].1);
        i += 1;
    }
    proof {
        assert(window@ =~= last_window(pcs, ws as int));
    }
    Ok(window)
}

/// `s` with each value kept at its first occurrence only.
pub open spec fn distinct_in_order(s: Seq<u64>) -> Seq<u64>
    decreases s.len(),
{
    if s.len() == 0 {
        Seq::empty()
    } else {
        let prev = distinct_in_order(s.drop_last());
        if s.drop_last().contains(s.last()) {
            prev
        } else {
            prev.push(s.last())
        }
    }
}

/// The pcs of `window`, each once, in order of first occurrence.
pub fn distinct_pcs(window: &[u64]) -> (r: Vec<u64>)
    ensures
        r@ == distinct_in_order(window@),
{
    let mut seen: HashSet<u64> = HashSet::new();
    let mut kept: Vec<u64> = Vec::new();
    let mut i: usize = 0;
    while i < window.len()
        invariant
            i <= window@.len(),
            kept@ == distinct_in_order(window@.take(i as int)),
            forall|v: u64| seen@.contains(v) <==> window@.take(i as int).contains(v),
        decreases window@.len() - i,
    {
        let pc = window[i];
        let ghost before = window@.take(i as int);
        let ghost after = window@.take(i + 1);
        proof {
            assert(after.drop_last() =~= before);
            assert(after.last() == pc);
        }
        let fresh = seen.insert(pc);
        if fresh {
            kept.push(pc);
        }
        proof {
            assert forall|v: u64| seen@.contains(v) <==> after.contains(v) by {
                if after.contains(v) {
                    let j = choose|j: int| 0 <= j < after.len() && after[j] == v;
                    if j < i {
                        assert(before[j] == v);
                    }
                }
                if before.contains(v) {
                    let j = choose|j: int| 0 <= j < before.len() && before[j] == v;
                    assert(after[j] == v);
                }
                if v == pc {
                    assert(after[i as int] == v);
                }
            }
        }
        i += 1;
    }
    proof {
        assert(window@.take(i as int) =~= window@);
    }
    kept
}

/// An instruction a mutator may rewrite: its pc, and the offset and length
/// of its bytes in the executable.
#[derive(Clone, Copy, Debug, PartialEq, Eq, Structural)]
pub struct MutationSite {
    pub pc: u64,
    pub offset: usize,
    pub len: usize,
}

/// The site of `pc` at file offset `offset` of `bytes`.
pub open spec fn site_at(bytes: Seq<u8>, pc: u64, offset: usize) -> MutationSite {
    MutationSite { pc, offset, len: inst_len_of(halfword_at(bytes, offset as int)) }
}

/// The sites of the window's pcs, given the file offset of each.
pub fn mutation_sites(init_bytes: &[u8], window: &[u64], offsets: &[usize]) -> (r: Vec<
    MutationSite,
>)
    requires
        offsets@.len() == window@.len(),
        forall|i: int| 0 <= i < offsets@.len() ==> inst_fits_at(init_bytes@, #[trigger] offsets@[i] as int),
    ensures
        r@.len() == window@.len(),
        forall|i: int|
            0 <= i < r@.len() ==> #[trigger] r@[i] == site_at(init_bytes@, window@[i], offsets@[i]),
{
    let mut sites: Vec<MutationSite> = Vec::new();
    let mut i: usize = 0;
    while i < window.len()
        invariant
            i <= window@.len(),
            offsets@.len() == window@.len(),
            forall|k: int|
                0 <= k < offsets@.len() ==> inst_fits_at(init_bytes@, #[trigger] offsets@[k] as int),
            sites@.len() == i,
            forall|k: int|
                0 <= k < i ==> #[trigger] sites@[k] == site_at(init_bytes@, window@[k], offsets@[k]),
        decreases window@.len() - i,
    {
        let offset = offsets[i];
        assert(inst_fits_at(init_bytes@, offsets@[i as int] as int));
        let len = inst_len_at(init_bytes, offset);
        sites.push(MutationSite { pc: window[i], offset, len });
        i += 1;
    }
    sites
}

// ---------------------------------------------------------------------------
// Picking weights.
// ---------------------------------------------------------------------------

/// The weight of the `idx`-th of `n` window instructions; `None` when a
/// quadratic weight does not fit in `usize`.
pub open spec fn weight_of(strategy: MutationStrategy, idx: int, n: int) -> Option<u64> {
    match strategy {
        MutationStrategy::Uniform => Some(1),
        MutationStrategy::TailLinear => Some((idx + 1) as u64),
        MutationStrategy::TailQuadratic => if (idx + 1) * (idx + 1) <= usize::MAX {
            Some(((idx + 1) * (idx + 1)) as u64)
        } else {
            None
        },
        MutationStrategy::HeadLinear => Some((n - idx) as u64),
        MutationStrategy::HeadQuadratic => if (n - idx) * (n - idx) <= usize::MAX {
            Some(((n - idx) * (n - idx)) as u64)
        } else {
            None
        },
    }
}

/// How the strategies weight the `idx`-th of `n` window instructions:
/// uniform weights are all one; tail-linear weights start at one and grow
/// by one towards the tail; head-linear weights are the tail-linear ones
/// mirrored, so they shrink by one towards the tail and end at one; and a
/// quadratic weight is the square of the linear one of the same end, when
/// it fits.
pub proof fn lemma_strategy_weights(idx: int, n: int)
    requires
        0 <= idx < n <= usize::MAX,
    ensures
        weight_of(MutationStrategy::Uniform, idx, n) == Some(1u64),
        weight_of(MutationStrategy::TailLinear, 0, n) == Some(1u64),
        weight_of(MutationStrategy::HeadLinear, n - 1, n) == Some(1u64),
        weight_of(MutationStrategy::TailLinear, idx, n) is Some,
        weight_of(MutationStrategy::HeadLinear, idx, n) is Some,
        idx + 1 < n ==> weight_of(MutationStrategy::TailLinear, idx + 1, n)->0 == weight_of(
            MutationStrategy::TailLinear,
            idx,
            n,
        )->0 + 1,
        idx + 1 < n ==> weight_of(MutationStrategy::HeadLinear, idx, n)->0 == weight_of(
            MutationStrategy::HeadLinear,
            idx + 1,
            n,
        )->0 + 1,
        weight_of(MutationStrategy::HeadLinear, idx, n) == weight_of(
            MutationStrategy::TailLinear,
            n - 1 - idx,
            n,
        ),
        weight_of(MutationStrategy::HeadQuadratic, idx, n) == weight_of(
            MutationStrategy::TailQuadratic,
            n - 1 - idx,
            n,
        ),
        ({
            let lin = weight_of(MutationStrategy::TailLinear, idx, n)->0;
            &&& weight_of(MutationStrategy::TailQuadratic, idx, n) is Some <==> lin * lin <= usize::MAX
            &&& weight_of(MutationStrategy::TailQuadratic, idx, n) matches Some(q) ==> q == lin * lin
        }),
{
}

/// The weight of the `idx`-th of `n` window instructions.
pub fn candidate_weight(strategy: MutationStrategy, idx: usize, n: usize) -> (r: Option<u64>)
    requires
        idx < n,
    ensures
        r == weight_of(strategy, idx as int, n as int),
{
    match strategy {
        MutationStrategy::Uniform => Some(1),
        MutationStrategy::TailLinear => Some((idx + 1) as u64),
        MutationStrategy::TailQuadratic => {
            let b = idx + 1;
            match b.checked_mul(b) {
                Some(w) => Some(w as u64),
                None => None,
            }
        },
        MutationStrategy::HeadLinear => Some((n - idx) as u64),
        MutationStrategy::HeadQuadratic => {
            let b = n - idx;
            match b.checked_mul(b) {
                Some(w) => Some(w as u64),
                None => None,
            }
        },
    }
}

/// The weights from the `i`-th of `n` on, added to `acc`: the total, or
/// the first weight that does not fit, or the first sum that overflows.
pub open spec fn weights_total(strategy: MutationStrategy, n: int, i: int, acc: int) -> Result<
    u64,
    MutatorError,
>
    decreases n - i,
{
    if i >= n {
        Ok(acc as u64)
    } else {
        match weight_of(strategy, i, n) {
            None => Err(MutatorError::WeightOverflow),
            Some(w) => if acc + w > u64::MAX {
                Err(MutatorError::TotalWeightOverflow)
            } else {
                weights_total(strategy, n, i + 1, acc + w)
            },
        }
    }
}

/// A site with the weight it is picked by.
#[derive(Clone, Copy, Debug, PartialEq, Eq, Structural)]
pub struct WeightedCandidate {
    pub pc: u64,
    pub offset: usize,
    pub len: usize,
    pub weight: u64,
}

/// The weights of the first `k` candidates, added up.
pub open spec fn weight_sum(c: Seq<WeightedCandidate>, k: int) -> int
    decreases k,
{
    if k <= 0 {
        0
    } else {
        weight_sum(c, k - 1) + c[k - 1].weight
    }
}

proof fn lemma_weight_sum_mono(c: Seq<WeightedCandidate>, j: int, k: int)
    requires
        0 <= j <= k <= c.len(),
        forall|i: int| 0 <= i < c.len() ==> (#[trigger] c[i]).weight >= 1,
    ensures
        weight_sum(c, j) + (k - j) <= weight_sum(c, k),
    decreases k - j,
{
    if j < k {
        lemma_weight_sum_mono(c, j, k - 1);
    }
}

/// The largest `r` with `r * r <= n`.
pub open spec fn is_isqrt(r: int, n: int) -> bool {
    r >= 0 && r * r <= n < (r + 1) * (r + 1)
}

/// The integer square root of `n`.
pub fn isqrt(n: u64) -> (r: u64)
    ensures
        is_isqrt(r as int, n as int),
{
    let mut r: u64 = 0;
    loop
        invariant
            r * r <= n,
            r < 0x1_0000_0000,
        decreases n - r,
    {
        let next = r + 1;
        match next.checked_mul(next) {
            Some(sq) => {
                if sq > n {
                    return r;
                }
                assert(next <= sq && next < 0x1_0000_0000) by (nonlinear_arith)
                    requires
                        sq == next * next,
                        next >= 1,
                        sq <= u64::MAX,
                ;
                r = next;
            },
            None => {
                return r;
            },
        }
    }
}

/// How many mutations one call makes: the integer square root of the
/// number of candidates, at least one.
pub open spec fn iterations_for(n: int, iters: int) -> bool {
    if n <= 3 {
        iters == 1
    } else {
        is_isqrt(iters, n)
    }
}

/// The weighted mutator over the last instructions of the initial case.
#[derive(Debug)]
pub struct LastWindowMutator {
    candidates: Vec<WeightedCandidate>,
    total_weight: u64,
    iters: u64,
    mutated_pcs: Vec<u64>,
}

impl LastWindowMutator {
    pub closed spec fn candidates_view(&self) -> Seq<WeightedCandidate> {
        self.candidates@
    }

    pub closed spec fn total_weight_view(&self) -> u64 {
        self.total_weight
    }

    pub closed spec fn iters_view(&self) -> u64 {
        self.iters
    }

    /// The pcs rewritten by the current mutation.
    pub closed spec fn mutated_view(&self) -> Set<u64> {
        self.mutated_pcs@.to_set()
    }

    /// Some candidate, every weight at least one, and the total their sum.
    pub open spec fn wf(&self) -> bool {
        &&& self.candidates_view().len() > 0
        &&& forall|i: int|
            0 <= i < self.candidates_view().len() ==> (#[trigger] self.candidates_view()[i]).weight
                >= 1
        &&& self.total_weight_view() == weight_sum(
            self.candidates_view(),
            self.candidates_view().len() as int,
        )
        &&& self.iters_view() >= 1
    }

    /// The mutator over `sites`, weighted by their position under
    /// `strategy`, making the integer square root of their number of
    /// mutations (at least one) per call.
    pub fn new(sites: &[MutationSite], strategy: MutationStrategy) -> (r: Result<Self, MutatorError>)
        ensures
            sites@.len() == 0 ==> r == Err::<Self, MutatorError>(MutatorError::NoCandidates),
            sites@.len() > 0 ==> match weights_total(strategy, sites@.len() as int, 0, 0) {
                Err(e) => r == Err::<Self, MutatorError>(e),
                Ok(total) => r matches Ok(m) && {
                    &&& m.wf()
                    &&& m.total_weight_view() == total
                    &&& m.candidates_view().len() == sites@.len()
                    &&& forall|i: int|
                        0 <= i < sites@.len() ==> {
                            let c = #[trigger] m.candidates_view()[i];
                            &&& c.pc == sites@[i].pc
                            &&& c.offset == sites@[i].offset
                            &&& c.len == sites@[i].len
                            &&& Some(c.weight) == weight_of(strategy, i, sites@.len() as int)
                        }
                    &&& iterations_for(sites@.len() as int, m.iters_view() as int)
                    &&& m.mutated_view().is_empty()
                },
            },
    {
        let n = sites.len();
        if n == 0 {
            return Err(MutatorError::NoCandidates);
        }
        let mut candidates: Vec<WeightedCandidate> = Vec::new();
        let mut total: u64 = 0;
        let mut i: usize = 0;
        while i < n
            invariant
                n == sites@.len(),
                i <= n,
                candidates@.len() == i,
                total == weight_sum(candidates@, i as int),
                weights_total(strategy, n as int, 0, 0) == weights_total(
                    strategy,
                    n as int,
                    i as int,
                    total as int,
                ),
                forall|k: int|
                    0 <= k < i ==> {
                        let c = #[trigger] candidates@[k];
                        &&& c.pc == sites@[k].pc
                        &&& c.offset == sites@[k].offset
                        &&& c.len == sites@[k].len
                        &&& Some(c.weight) == weight_of(strategy, k, n as int)
                        &&& c.weight >= 1
                    },
            decreases n - i,
        {
            let w = match candidate_weight(strategy, i, n) {
                Some(w) => w,
                None => return Err(MutatorError::WeightOverflow),
            };
            proof {
                if strategy is TailQuadratic {
                    assert((i + 1) * (i + 1) >= 1) by (nonlinear_arith)
                        requires
                            i >= 0,
                    ;
                }
                if strategy is HeadQuadratic {
                    assert((n - i) * (n - i) >= 1) by (nonlinear_arith)
                        requires
                            n - i >= 1,
                    ;
                }
            }
            total = match total.checked_add(w) {
                Some(t) => t,
                None => return Err(MutatorError::TotalWeightOverflow),
            };
            let site = sites[i];
            let ghost before = candidates@;
            candidates.push(WeightedCandidate { pc: site.pc, offset: site.offset, len: site.len, weight: w });
            proof {
                assert(candidates@.take(i as int) =~= before);
                assert forall|k: int| 0 <= k <= i implies weight_sum(
                    candidates@.take(i as int),
                    k,
                ) == weight_sum(candidates@, k) by {
                    lemma_weight_sum_prefix(candidates@, i as int, k);
                }
                assert(weight_sum(candidates@.take(i as int), i as int) == weight_sum(candidates@, i as int));
                assert(weight_sum(candidates@, i + 1) == weight_sum(candidates@, i as int)
                    + candidates@[i as int].weight);
                assert(total == weight_sum(candidates@, i + 1));
            }
            i += 1;
        }
        let root = isqrt(n as u64);
        let iters = if root > 1 {
            root
        } else {
            1
        };
        proof {
            if n <= 3 {
                assert(root <= 1) by (nonlinear_arith)
                    requires
                        root * root <= n,
                        n <= 3,
                        root >= 0,
                ;
            } else {
                assert(root >= 2) by (nonlinear_arith)
                    requires
                        n < (root + 1) * (root + 1),
                        n >= 4,
                        root >= 0,
                ;
            }
        }
        Ok(LastWindowMutator { candidates, total_weight: total, iters, mutated_pcs: Vec::new() })
    }
}

// ---------------------------------------------------------------------------
// Random bytes.
// ---------------------------------------------------------------------------

/// A fresh value of the fuzzer's random number generator.
///
/// Calls `libafl_bolts::rands::Rand::next` on the generator. What it returns
/// depends on the generator's hidden state, so nothing is stated of it.
#[verifier::external_body]
pub fn next_random(rand: &mut RomuDuoJrRand) -> (r: u64) {
    rand.next()
}

/// Byte `j` of the little-endian encoding of `r`.
pub open spec fn random_byte(r: u64, j: int) -> u8 {
    ((r >> ((8 * j) as u64)) & 0xff) as u8
}

fn random_byte_of(r: u64, j: usize) -> (b: u8)
    requires
        j < 8,
    ensures
        b == random_byte(r, j as int),
{
    ((r >> ((8 * j) as u64)) & 0xff) as u8
}

/// `bytes` with the `len` bytes at `offset` taken from `words`, `chunk`
/// low-order bytes of each word in turn, little-endian.
pub open spec fn filled(bytes: Seq<u8>, offset: int, len: int, words: Seq<u64>, chunk: int) -> Seq<
    u8,
> {
    Seq::new(
        bytes.len(),
        |i: int|
            if offset <= i < offset + len {
                random_byte(words[(i - offset) / chunk], (i - offset) % chunk)
            } else {
                bytes[i]
            },
    )
}

/// Overwrites the `len` bytes at `offset` with the low-order bytes of
/// `words`, `chunk` of them per word.
pub fn fill_random_bytes(bytes: &mut [u8], offset: usize, len: usize, words: &[u64], chunk: usize)
    requires
        1 <= chunk <= 8,
        offset + len <= old(bytes)@.len(),
        len <= words@.len() * chunk,
    ensures
        final(bytes)@ == filled(old(bytes)@, offset as int, len as int, words@, chunk as int),
{
    let ghost before = bytes@;
    let n = bytes.len();
    let mut i: usize = 0;
    while i < len
        invariant
            1 <= chunk <= 8,
            i <= len,
            n == before.len(),
            offset + len <= before.len(),
            len <= words@.len() * chunk,
            bytes@.len() == before.len(),
            forall|k: int|
                0 <= k < bytes@.len() ==> #[trigger] bytes@[k] == (if offset <= k < offset + i {
                    random_byte(words@[(k - offset) / chunk as int], (k - offset) % chunk as int)
                } else {
                    before[k]
                }),
        decreases len - i,
    {
        assert(i / chunk < words@.len()) by (nonlinear_arith)
            requires
                i < len,
                len <= words@.len() * chunk,
                chunk >= 1,
        ;
        let b = random_byte_of(words[i / chunk], i % chunk);
        bytes[offset + i] = b;
        i += 1;
    }
    assert(bytes@ =~= filled(before, offset as int, len as int, words@, chunk as int));
}

/// Draws the words that fill `len` bytes, `chunk` bytes per word.
fn draw_words(rand: &mut RomuDuoJrRand, len: usize, chunk: usize) -> (words: Vec<u64>)
    requires
        1 <= chunk <= 8,
    ensures
        len <= words@.len() * chunk,
{
    let mut words: Vec<u64> = Vec::new();
    let mut covered: usize = 0;
    while covered < len
        invariant
            1 <= chunk <= 8,
            covered <= words@.len() * chunk,
        decreases len - covered,
    {
        assert(words@.len() * chunk + chunk == (words@.len() + 1) * chunk) by (nonlinear_arith);
        words.push(next_random(rand));
        covered = if len - covered > chunk {
            covered + chunk
        } else {
            len
        };
    }
    words
}

/// Candidate `k` owns ticket `t`: the tickets below the total weight are
/// dealt out in candidate order, `weight` tickets to each.
pub open spec fn picked(c: Seq<WeightedCandidate>, t: int, k: int) -> bool {
    0 <= k < c.len() && weight_sum(c, k) <= t < weight_sum(c, k + 1)
}

/// Byte `i` lies in the bytes of some candidate.
pub open spec fn in_some_candidate(c: Seq<WeightedCandidate>, i: int) -> bool {
    exists|k: int| 0 <= k < c.len() && (#[trigger] c[k]).offset <= i < c[k].offset + c[k].len
}

/// `p` is the pc of some candidate.
pub open spec fn candidate_pc(c: Seq<WeightedCandidate>, p: u64) -> bool {
    exists|k: int| 0 <= k < c.len() && (#[trigger] c[k]).pc == p
}

proof fn lemma_push_to_set(s: Seq<u64>, x: u64)
    ensures
        s.push(x).to_set() == s.to_set().insert(x),
{
    assert forall|a: u64| s.push(x).to_set().contains(a) <==> s.to_set().insert(x).contains(a) by {
        if s.push(x).contains(a) {
            let j = choose|j: int| 0 <= j < s.push(x).len() && s.push(x)[j] == a;
            if j < s.len() {
                assert(s[j] == a);
            }
        }
        if s.contains(a) {
            let j = choose|j: int| 0 <= j < s.len() && s[j] == a;
            assert(s.push(x)[j] == a);
        }
        if a == x {
            assert(s.push(x)[s.len() as int] == a);
        }
    }
    assert(s.push(x).to_set() =~= s.to_set().insert(x));
}

/// `parent` together with the pcs in `mutated`.
pub fn merge_mutated_pcs(parent: HashSet<u64>, mutated: &[u64]) -> (r: HashSet<u64>)
    ensures
        r@ == parent@.union(mutated@.to_set()),
{
    let mut merged = parent;
    let ghost start = merged@;
    let mut i: usize = 0;
    while i < mutated.len()
        invariant
            i <= mutated@.len(),
            merged@ == start.union(mutated@.take(i as int).to_set()),
        decreases mutated@.len() - i,
    {
        merged.insert(mutated[i]);
        proof {
            assert(mutated@.take(i + 1) =~= mutated@.take(i as int).push(mutated@[i as int]));
            lemma_push_to_set(mutated@.take(i as int), mutated@[i as int]);
            assert(merged@ =~= start.union(mutated@.take(i + 1).to_set()));
        }
        i += 1;
    }
    proof {
        assert(mutated@.take(i as int) =~= mutated@);
    }
    merged
}

/// One mutation: ticket `t` picks candidate `k` by weight, and `after` is
/// `before` with that candidate's bytes taken from the words `ws`, four
/// bytes of each.
pub open spec fn mutation_step(
    c: Seq<WeightedCandidate>,
    total_weight: u64,
    before: Seq<u8>,
    after: Seq<u8>,
    t: u64,
    ws: Seq<u64>,
    k: int,
) -> bool {
    &&& picked(c, (t % total_weight) as int, k)
    &&& c[k].len <= ws.len() * 4
    &&& after == filled(before, c[k].offset as int, c[k].len as int, ws, 4)
}

/// `states` runs through `n` mutations: mutation `i` takes `states[i]` to
/// `states[i + 1]`, with ticket `tickets[i]`, words `words[i]` and
/// candidate `ks[i]`.
pub open spec fn mutation_trace(
    c: Seq<WeightedCandidate>,
    total_weight: u64,
    states: Seq<Seq<u8>>,
    tickets: Seq<u64>,
    words: Seq<Seq<u64>>,
    ks: Seq<int>,
    n: nat,
) -> bool {
    &&& states.len() == n + 1
    &&& tickets.len() == n
    &&& words.len() == n
    &&& ks.len() == n
    &&& forall|i: int|
        #![trigger tickets[i]]
        0 <= i < n ==> mutation_step(c, total_weight, states[i], states[i + 1], tickets[i], words[i], ks[i])
}

/// The pcs of the candidates `ks` picked.
pub open spec fn picked_pcs(c: Seq<WeightedCandidate>, ks: Seq<int>) -> Set<u64> {
    ks.map_values(|k: int| c[k].pc).to_set()
}

impl LastWindowMutator {
    /// Every candidate's bytes lie within an input of `input_len` bytes.
    pub open spec fn fits(&self, input_len: int) -> bool {
        forall|k: int|
            0 <= k < self.candidates_view().len() ==> (#[trigger] self.candidates_view()[k]).offset
                + self.candidates_view()[k].len <= input_len
    }

    /// Whether every candidate's bytes lie within an input of `input_len`
    /// bytes.
    pub fn candidates_fit(&self, input_len: usize) -> (b: bool)
        ensures
            b == self.fits(input_len as int),
    {
        let mut k: usize = 0;
        while k < self.candidates.len()
            invariant
                k <= self.candidates@.len(),
                forall|j: int|
                    0 <= j < k ==> (#[trigger] self.candidates@[j]).offset + self.candidates@[j].len
                        <= input_len,
            decreases self.candidates@.len() - k,
        {
            let c = self.candidates[k];
            if c.offset > input_len || c.len > input_len - c.offset {
                proof {
                    assert(self.candidates_view()[k as int] == c);
                }
                return false;
            }
            k += 1;
        }
        true
    }

    /// How many mutations one call makes.
    pub fn iters(&self) -> (n: u64)
        ensures
            n == self.iters_view(),
    {
        self.iters
    }

    /// The candidate that owns the ticket `random % total_weight`.
    pub fn pick_candidate_idx(&self, random: u64) -> (r: Option<usize>)
        requires
            self.wf(),
        ensures
            r matches Some(k) && picked(
                self.candidates_view(),
                (random % self.total_weight_view()) as int,
                k as int,
            ),
    {
        if self.candidates.len() == 0 || self.total_weight == 0 {
            proof {
                lemma_weight_sum_mono(self.candidates@, 0, self.candidates@.len() as int);
            }
            return None;
        }
        let ghost c = self.candidates@;
        let ghost t = (random % self.total_weight) as int;
        let mut ticket = random % self.total_weight;
        let mut idx: usize = 0;
        while idx < self.candidates.len()
            invariant
                c == self.candidates@,
                idx <= c.len(),
                t == random % self.total_weight,
                ticket == t - weight_sum(c, idx as int),
                t >= weight_sum(c, idx as int),
            decreases c.len() - idx,
        {
            let w = self.candidates[idx].weight;
            if ticket < w {
                return Some(idx);
            }
            ticket = ticket - w;
            idx += 1;
        }
        proof {
            assert(t < self.total_weight);
            assert(false);
        }
        Some(self.candidates.len() - 1)
    }

    /// Overwrites candidate `k`'s bytes with `words`, four bytes of each,
    /// and records its pc as mutated.
    pub fn apply_candidate(&mut self, k: usize, input: &mut [u8], words: &[u64])
        requires
            k < old(self).candidates_view().len(),
            old(self).candidates_view()[k as int].offset + old(self).candidates_view()[k as int].len
                <= old(input)@.len(),
            old(self).candidates_view()[k as int].len <= words@.len() * 4,
        ensures
            final(input)@ == filled(
                old(input)@,
                old(self).candidates_view()[k as int].offset as int,
                old(self).candidates_view()[k as int].len as int,
                words@,
                4,
            ),
            final(self).candidates_view() == old(self).candidates_view(),
            final(self).total_weight_view() == old(self).total_weight_view(),
            final(self).iters_view() == old(self).iters_view(),
            final(self).mutated_view() == old(self).mutated_view().insert(
                old(self).candidates_view()[k as int].pc,
            ),
    {
        let c = self.candidates[k];
        fill_random_bytes(input, c.offset, c.len, words, 4);
        let ghost before = self.mutated_pcs@;
        self.mutated_pcs.push(c.pc);
        proof {
            lemma_push_to_set(before, c.pc);
        }
    }

    /// One mutation: a ticket drawn, the candidate it picks by weight
    /// overwritten with drawn words, four bytes of each, and its pc
    /// recorded.
    pub fn mutate_one(&mut self, input: &mut [u8], rand: &mut RomuDuoJrRand) -> (r: MutationOutcome)
        requires
            old(self).wf(),
            old(self).fits(old(input)@.len() as int),
        ensures
            r == MutationOutcome::Mutated,
            final(self).candidates_view() == old(self).candidates_view(),
            final(self).total_weight_view() == old(self).total_weight_view(),
            final(self).iters_view() == old(self).iters_view(),
            exists|t: u64, ws: Seq<u64>, k: int|
                #![trigger mutation_step(old(self).candidates_view(), old(self).total_weight_view(), old(input)@, final(input)@, t, ws, k)]
                mutation_step(
                    old(self).candidates_view(),
                    old(self).total_weight_view(),
                    old(input)@,
                    final(input)@,
                    t,
                    ws,
                    k,
                ) && final(self).mutated_view() == old(self).mutated_view().insert(
                    old(self).candidates_view()[k].pc,
                ),
    {
        let ticket = next_random(rand);
        let k = match self.pick_candidate_idx(ticket) {
            Some(k) => k,
            None => {
                proof {
                    assert(false);
                }
                return MutationOutcome::Skipped;
            },
        };
        let c = self.candidates[k];
        assert(c.offset + c.len <= input@.len());
        let words = draw_words(rand, c.len, 4);
        let ghost before = input@;
        self.apply_candidate(k, input, &words);
        assert(mutation_step(
            old(self).candidates_view(),
            old(self).total_weight_view(),
            before,
            input@,
            ticket,
            words@,
            k as int,
        ));
        MutationOutcome::Mutated
    }

    /// A round of mutations: as many as the mutator makes per call, each
    /// overwriting with drawn words the candidate that a drawn ticket picks
    /// by weight. Only candidates' bytes change, and the mutated pcs are
    /// those of the candidates picked.
    pub fn mutate(&mut self, input: &mut [u8], rand: &mut RomuDuoJrRand) -> (r: MutationOutcome)
        requires
            old(self).wf(),
            old(self).fits(old(input)@.len() as int),
        ensures
            r == MutationOutcome::Mutated,
            final(self).wf(),
            final(self).candidates_view() == old(self).candidates_view(),
            final(self).total_weight_view() == old(self).total_weight_view(),
            final(self).iters_view() == old(self).iters_view(),
            final(input)@.len() == old(input)@.len(),
            forall|i: int|
                0 <= i < old(input)@.len() && !in_some_candidate(old(self).candidates_view(), i)
                    ==> #[trigger] final(input)@[i] == old(input)@[i],
            !final(self).mutated_view().is_empty(),
            forall|p: u64|
                #[trigger] final(self).mutated_view().contains(p) ==> candidate_pc(
                    old(self).candidates_view(),
                    p,
                ),
            exists|states: Seq<Seq<u8>>, tickets: Seq<u64>, words: Seq<Seq<u64>>, ks: Seq<int>|
                #[trigger] mutation_trace(
                    old(self).candidates_view(),
                    old(self).total_weight_view(),
                    states,
                    tickets,
                    words,
                    ks,
                    old(self).iters_view() as nat,
                ) && states[0] == old(input)@ && states[old(self).iters_view() as int] == final(input)@
                    && final(self).mutated_view() == picked_pcs(old(self).candidates_view(), ks),
    {
        self.mutated_pcs = Vec::new();
        let ghost c = self.candidates@;
        let ghost before = input@;
        let ghost mut states: Seq<Seq<u8>> = seq![before];
        let ghost mut tickets: Seq<u64> = Seq::empty();
        let ghost mut drawn: Seq<Seq<u64>> = Seq::empty();
        let ghost mut ks: Seq<int> = Seq::empty();
        proof {
            assert(self.mutated_view() =~= Set::<u64>::empty());
            assert(picked_pcs(c, ks) =~= Set::<u64>::empty());
        }
        let mut r = MutationOutcome::Skipped;
        let mut n: u64 = 0;
        while n < self.iters
            invariant
                self.wf(),
                self.candidates@ == c,
                self.total_weight == old(self).total_weight_view(),
                self.iters == old(self).iters_view(),
                self.fits(input@.len() as int),
                input@.len() == before.len(),
                forall|i: int|
                    0 <= i < before.len() && !in_some_candidate(c, i) ==> #[trigger] input@[i]
                        == before[i],
                forall|p: u64| #[trigger] self.mutated_view().contains(p) ==> candidate_pc(c, p),
                n > 0 ==> r == MutationOutcome::Mutated && !self.mutated_view().is_empty(),
                n <= self.iters,
                mutation_trace(c, self.total_weight, states, tickets, drawn, ks, n as nat),
                states[0] == before,
                states[n as int] == input@,
                self.mutated_view() == picked_pcs(c, ks),
            decreases self.iters - n,
        {
            let ghost mid = input@;
            let ghost seen = self.mutated_view();
            let ghost tw = self.total_weight;
            let outcome = self.mutate_one(input, rand);
            proof {
                let (t, ws, k) = choose|t: u64, ws: Seq<u64>, k: int|
                    #![trigger mutation_step(c, tw, mid, input@, t, ws, k)]
                    mutation_step(c, tw, mid, input@, t, ws, k) && self.mutated_view() == seen.insert(
                        c[k].pc,
                    );
                assert(0 <= k < c.len());
                assert(ks.push(k).map_values(|k: int| c[k].pc) =~= ks.map_values(|k: int| c[k].pc).push(
                    c[k].pc,
                ));
                lemma_push_to_set(ks.map_values(|k: int| c[k].pc), c[k].pc);
                let states2 = states.push(input@);
                let tickets2 = tickets.push(t);
                let drawn2 = drawn.push(ws);
                let ks2 = ks.push(k);
                assert forall|i: int|
                    #![trigger tickets2[i]]
                    0 <= i < n + 1 implies mutation_step(c, tw, states2[i], states2[i + 1], tickets2[i], drawn2[i], ks2[i]) by {
                    if i < n {
                        assert(tickets[i] == tickets2[i]);
                    }
                }
                states = states2;
                tickets = tickets2;
                drawn = drawn2;
                ks = ks2;
                assert forall|i: int|
                    0 <= i < before.len() && !in_some_candidate(c, i) implies #[trigger] input@[i]
                    == before[i] by {
                    if c[k].offset <= i < c[k].offset + c[k].len {
                        assert(in_some_candidate(c, i));
                    }
                    assert(input@[i] == mid[i]);
                }
                assert forall|p: u64| #[trigger] self.mutated_view().contains(p) implies candidate_pc(
                    c,
                    p,
                ) by {
                    if p == c[k].pc {
                        assert(c[k].pc == p);
                    }
                }
                assert(self.mutated_view().contains(c[k].pc));
            }
            if outcome == MutationOutcome::Mutated {
                r = MutationOutcome::Mutated;
            }
            n += 1;
        }
        proof {
            assert(mutation_trace(
                old(self).candidates_view(),
                old(self).total_weight_view(),
                states,
                tickets,
                drawn,
                ks,
                old(self).iters_view() as nat,
            ));
        }
        r
    }

    /// After a run: when it added a case to the corpus and this mutation
    /// rewrote some pcs, the pcs to keep with the new case, those its
    /// parent was kept with and these; the record is then cleared.
    pub fn post_exec(&mut self, new_case: bool, parent_mutated: HashSet<u64>) -> (r: Option<
        HashSet<u64>,
    >)
        ensures
            new_case && !old(self).mutated_view().is_empty() ==> (r matches Some(s) && s@
                == parent_mutated@.union(old(self).mutated_view())),
            !(new_case && !old(self).mutated_view().is_empty()) ==> r is None,
            final(self).mutated_view().is_empty(),
            final(self).candidates_view() == old(self).candidates_view(),
            final(self).total_weight_view() == old(self).total_weight_view(),
            final(self).iters_view() == old(self).iters_view(),
    {
        let any = self.mutated_pcs.len() > 0;
        proof {
            if self.mutated_pcs@.len() > 0 {
                assert(self.mutated_view().contains(self.mutated_pcs@[0]));
            } else {
                assert(self.mutated_view() =~= Set::<u64>::empty());
            }
        }
        let r = if new_case && any {
            Some(merge_mutated_pcs(parent_mutated, self.mutated_pcs.as_slice()))
        } else {
            None
        };
        self.mutated_pcs = Vec::new();
        proof {
            assert(self.mutated_view() =~= Set::<u64>::empty());
        }
        r
    }
}

// ---------------------------------------------------------------------------
// Rewriting chosen sites.
// ---------------------------------------------------------------------------

/// The site's bytes lie within an input of `input_len` bytes.
pub open spec fn site_fits(site: MutationSite, input_len: int) -> bool {
    site.offset + site.len <= input_len
}

/// Overwrites the site's bytes with `words`, eight bytes of each, when
/// they lie within the input; whether they did.
pub fn apply_site(input: &mut [u8], site: MutationSite, words: &[u64]) -> (b: bool)
    requires
        site.len <= words@.len() * 8,
    ensures
        b == site_fits(site, old(input)@.len() as int),
        b ==> final(input)@ == filled(old(input)@, site.offset as int, site.len as int, words@, 8),
        !b ==> final(input)@ == old(input)@,
{
    let n = input.len();
    let end = match site.offset.checked_add(site.len) {
        Some(e) => e,
        None => return false,
    };
    if end > input.len() {
        return false;
    }
    fill_random_bytes(input, site.offset, site.len, words, 8);
    true
}

/// The pcs of the first `n` selected sites that fit an input of
/// `input_len` bytes.
pub open spec fn fitting_pcs(sites: Seq<MutationSite>, selected: Seq<usize>, input_len: int, n: nat) -> Seq<
    u64,
>
    decreases n,
{
    if n == 0 {
        Seq::empty()
    } else {
        let prev = fitting_pcs(sites, selected, input_len, (n - 1) as nat);
        let site = sites[selected[n - 1] as int];
        if site_fits(site, input_len) {
            prev.push(site.pc)
        } else {
            prev
        }
    }
}

/// Byte `i` lies in the bytes of one of the selected sites.
pub open spec fn in_selected_site(sites: Seq<MutationSite>, selected: Seq<usize>, i: int) -> bool {
    exists|j: int|
        0 <= j < selected.len() && sites[(#[trigger] selected[j]) as int].offset <= i
            < sites[selected[j] as int].offset + sites[selected[j] as int].len
}

/// `input` with each of the first `n` selected sites that fit it
/// overwritten: selected site `j` with the words `words[j]`, eight bytes of
/// each.
pub open spec fn sites_filled(
    input: Seq<u8>,
    sites: Seq<MutationSite>,
    selected: Seq<usize>,
    words: Seq<Seq<u64>>,
    n: nat,
) -> Seq<u8>
    decreases n,
{
    if n == 0 {
        input
    } else {
        let prev = sites_filled(input, sites, selected, words, (n - 1) as nat);
        let site = sites[selected[n - 1] as int];
        if site_fits(site, input.len() as int) {
            filled(prev, site.offset as int, site.len as int, words[n - 1], 8)
        } else {
            prev
        }
    }
}

/// `sites_filled` over `n` sites reads only the first `n` word lists.
proof fn lemma_sites_filled_prefix(
    input: Seq<u8>,
    sites: Seq<MutationSite>,
    selected: Seq<usize>,
    a: Seq<Seq<u64>>,
    b: Seq<Seq<u64>>,
    n: nat,
)
    requires
        forall|j: int| 0 <= j < n ==> #[trigger] a[j] == b[j],
    ensures
        sites_filled(input, sites, selected, a, n) == sites_filled(input, sites, selected, b, n),
    decreases n,
{
    if n > 0 {
        lemma_sites_filled_prefix(input, sites, selected, a, b, (n - 1) as nat);
        assert(a[n - 1] == b[n - 1]);
    }
}

/// Rewrites each selected site that lies within the input with drawn
/// words; the pcs of those sites, in selection order. Only their bytes
/// change.
pub fn apply_site_mutations(
    input: &mut [u8],
    sites: &[MutationSite],
    selected: &[usize],
    rand: &mut RomuDuoJrRand,
) -> (pcs: Vec<u64>)
    requires
        forall|j: int| 0 <= j < selected@.len() ==> #[trigger] selected@[j] < sites@.len(),
    ensures
        pcs@ == fitting_pcs(sites@, selected@, old(input)@.len() as int, selected@.len()),
        final(input)@.len() == old(input)@.len(),
        forall|i: int|
            0 <= i < old(input)@.len() && !in_selected_site(sites@, selected@, i)
                ==> #[trigger] final(input)@[i] == old(input)@[i],
        exists|words: Seq<Seq<u64>>|
            #[trigger] sites_filled(old(input)@, sites@, selected@, words, selected@.len())
                == final(input)@ && words.len() == selected@.len() && forall|j: int|
                0 <= j < selected@.len() && site_fits(sites@[#[trigger] selected@[j] as int], old(input)@.len() as int)
                    ==> sites@[selected@[j] as int].len <= words[j].len() * 8,
{
    let ghost before = input@;
    let ghost mut drawn: Seq<Seq<u64>> = Seq::empty();
    let mut pcs: Vec<u64> = Vec::new();
    let mut j: usize = 0;
    while j < selected.len()
        invariant
            j <= selected@.len(),
            forall|m: int| 0 <= m < selected@.len() ==> #[trigger] selected@[m] < sites@.len(),
            input@.len() == before.len(),
            pcs@ == fitting_pcs(sites@, selected@, before.len() as int, j as nat),
            forall|i: int|
                0 <= i < before.len() && !in_selected_site(sites@, selected@, i) ==> #[trigger] input@[i]
                    == before[i],
            drawn.len() == j,
            input@ == sites_filled(before, sites@, selected@, drawn, j as nat),
            forall|m: int|
                0 <= m < j && site_fits(sites@[#[trigger] selected@[m] as int], before.len() as int)
                    ==> sites@[selected@[m] as int].len <= drawn[m].len() * 8,
        decreases selected@.len() - j,
    {
        let site = sites[selected[j]];
        let n = input.len();
        let ghost sel = selected@[j as int];
        assert(sites@[sel as int] == site);
        let end = match site.offset.checked_add(site.len) {
            Some(e) => e,
            None => {
                proof {
                    lemma_sites_filled_prefix(before, sites@, selected@, drawn, drawn.push(Seq::empty()), j as nat);
                    drawn = drawn.push(Seq::empty());
                }
                j += 1;
                continue;
            },
        };
        if end > input.len() {
            proof {
                lemma_sites_filled_prefix(before, sites@, selected@, drawn, drawn.push(Seq::empty()), j as nat);
                drawn = drawn.push(Seq::empty());
            }
            j += 1;
            continue;
        }
        let words = draw_words(rand, site.len, 8);
        let ghost mid = input@;
        apply_site(input, site, &words);
        proof {
            lemma_sites_filled_prefix(before, sites@, selected@, drawn, drawn.push(words@), j as nat);
            drawn = drawn.push(words@);
        }
        proof {
            assert forall|i: int|
                0 <= i < before.len() && !in_selected_site(sites@, selected@, i) implies #[trigger] input@[i]
                == before[i] by {
                if site.offset <= i < site.offset + site.len {
                    assert(sites@[selected@[j as int] as int] == site);
                    assert(in_selected_site(sites@, selected@, i));
                }
                assert(input@[i] == mid[i]);
            }
        }
        pcs.push(site.pc);
        j += 1;
    }
    pcs
}

// ---------------------------------------------------------------------------
// The mutator of the failing instruction.
// ---------------------------------------------------------------------------

/// The file offset of the `.text` section's bytes at `last_pc`, when the
/// section maps a compressed instruction there.
pub open spec fn text_offset(text: SectionInfo, last_pc: u64) -> Option<u64> {
    if section_holds(text, last_pc, (last_pc + 2) as u64) && text.offset + (last_pc
        - text.virtual_address) <= u64::MAX {
        Some((text.offset + (last_pc - text.virtual_address)) as u64)
    } else {
        None
    }
}

/// The instruction at `last_pc` can be read from `elf_bytes` wherever the
/// `.text` section places it.
pub open spec fn last_inst_readable(elf_bytes: Seq<u8>, text: Option<SectionInfo>, last_pc: u64) -> bool {
    match text {
        None => true,
        Some(t) => match text_offset(t, last_pc) {
            None => true,
            Some(off) => off <= usize::MAX ==> inst_fits_at(elf_bytes, off as int),
        },
    }
}

/// Rewrites the last instruction of the failing case.
#[derive(Clone, Copy, Debug)]
pub struct LastInstMutator {
    offset: usize,
    len: usize,
}

impl LastInstMutator {
    pub closed spec fn offset_view(&self) -> usize {
        self.offset
    }

    pub closed spec fn len_view(&self) -> usize {
        self.len
    }

    pub open spec fn wf(&self) -> bool {
        self.len_view() == 2 || self.len_view() == 4
    }

    /// The mutator of the instruction at `last_pc`, located through the
    /// `.text` section, which must hold it whole.
    pub fn new(elf_bytes: &[u8], text: Option<SectionInfo>, last_pc: u64) -> (r: Result<
        Self,
        MutatorError,
    >)
        requires
            last_pc + 4 <= u64::MAX,
            last_inst_readable(elf_bytes@, text, last_pc),
        ensures
            match text {
                None => r == Err::<Self, MutatorError>(MutatorError::NoTextSection),
                Some(t) => match text_offset(t, last_pc) {
                    None => r == Err::<Self, MutatorError>(MutatorError::Unmapped { pc: last_pc }),
                    Some(off) => if off > usize::MAX {
                        r == Err::<Self, MutatorError>(MutatorError::OffsetOverflow { offset: off })
                    } else {
                        let len = inst_len_of(halfword_at(elf_bytes@, off as int));
                        if section_holds(t, last_pc, (last_pc + len) as u64) {
                            r matches Ok(m) && m.wf() && m.offset_view() == off && m.len_view() == len
                        } else {
                            r == Err::<Self, MutatorError>(MutatorError::NotInText { pc: last_pc, len })
                        }
                    },
                },
            },
    {
        let text = match text {
            Some(t) => t,
            None => return Err(MutatorError::NoTextSection),
        };
        let min_end = last_pc + 2;
        let offset = match section_vma2offset(&text, last_pc, min_end) {
            Some(o) => o,
            None => return Err(MutatorError::Unmapped { pc: last_pc }),
        };
        if offset > usize::MAX as u64 {
            return Err(MutatorError::OffsetOverflow { offset });
        }
        let offset = offset as usize;
        let len = inst_len_at(elf_bytes, offset);
        if !crate::elf::section_contains_range(&text, last_pc, last_pc + len as u64) {
            return Err(MutatorError::NotInText { pc: last_pc, len });
        }
        Ok(LastInstMutator { offset, len })
    }

    /// Overwrites the instruction with the low-order bytes of `word`, when
    /// it lies within the input.
    pub fn mutate_with(&self, input: &mut [u8], word: u64) -> (r: MutationOutcome)
        requires
            self.wf(),
        ensures
            ({
                let site = MutationSite { pc: 0, offset: self.offset_view(), len: self.len_view() };
                if site_fits(site, old(input)@.len() as int) {
                    &&& r == MutationOutcome::Mutated
                    &&& final(input)@ == filled(
                        old(input)@,
                        self.offset_view() as int,
                        self.len_view() as int,
                        seq![word],
                        8,
                    )
                } else {
                    r == MutationOutcome::Skipped && final(input)@ == old(input)@
                }
            }),
    {
        let n = input.len();
        let end = match self.offset.checked_add(self.len) {
            Some(e) => e,
            None => return MutationOutcome::Skipped,
        };
        if end > input.len() {
            return MutationOutcome::Skipped;
        }
        let words = [word];
        assert(words@ =~= seq![word]);
        fill_random_bytes(input, self.offset, self.len, &words, 8);
        MutationOutcome::Mutated
    }

    /// Overwrites the instruction with the bytes of a drawn word, when it
    /// lies within the input; nothing else changes.
    pub fn mutate(&self, input: &mut [u8], rand: &mut RomuDuoJrRand) -> (r: MutationOutcome)
        requires
            self.wf(),
        ensures
            final(input)@.len() == old(input)@.len(),
            (r == MutationOutcome::Mutated) == (self.offset_view() + self.len_view() <= old(input)@.len()),
            forall|i: int|
                0 <= i < old(input)@.len() && !(self.offset_view() <= i < self.offset_view()
                    + self.len_view()) ==> #[trigger] final(input)@[i] == old(input)@[i],
            r == MutationOutcome::Mutated ==> exists|w: u64|
                #[trigger] filled(
                    old(input)@,
                    self.offset_view() as int,
                    self.len_view() as int,
                    seq![w],
                    8,
                ) == final(input)@,
            r == MutationOutcome::Skipped ==> final(input)@ == old(input)@,
    {
        let n = input.len();
        let end = match self.offset.checked_add(self.len) {
            Some(e) => e,
            None => return MutationOutcome::Skipped,
        };
        if end > input.len() {
            return MutationOutcome::Skipped;
        }
        let word = next_random(rand);
        self.mutate_with(input, word)
    }
}

/// Replaces the input with the rebuilt executable, zero-filled to the
/// input's length; refused when the rebuilt one is longer.
pub fn place_rebuilt_elf(input: &mut [u8], rebuilt: &[u8]) -> (r: Result<(), MutatorError>)
    ensures
        rebuilt@.len() > old(input)@.len() ==> r == Err::<(), MutatorError>(
            MutatorError::RebuiltTooLarge { rebuilt: rebuilt@.len() as usize, original: old(input)@.len() as usize },
        ) && final(input)@ == old(input)@,
        rebuilt@.len() <= old(input)@.len() ==> r is Ok && final(input)@ == rebuilt@ + Seq::new(
            (old(input)@.len() - rebuilt@.len()) as nat,
            |i: int| 0u8,
        ),
{
    let n = input.len();
    if rebuilt.len() > n {
        return Err(MutatorError::RebuiltTooLarge { rebuilt: rebuilt.len(), original: n });
    }
    let mut i: usize = 0;
    while i < n
        invariant
            n == input@.len(),
            rebuilt@.len() <= n,
            i <= n,
            forall|k: int|
                0 <= k < i ==> #[trigger] input@[k] == (if k < rebuilt@.len() {
                    rebuilt@[k]
                } else {
                    0u8
                }),
        decreases n - i,
    {
        if i < rebuilt.len() {
            input[i] = rebuilt[i];
        } else {
            input[i] = 0;
        }
        i += 1;
    }
    assert(input@ =~= rebuilt@ + Seq::new((n - rebuilt@.len()) as nat, |i: int| 0u8));
    Ok(())
}

/// Every ticket below the total weight is owned by exactly one candidate,
/// so a pick always lands and never on two candidates.
pub proof fn lemma_ticket_owner_unique(c: Seq<WeightedCandidate>, t: int)
    requires
        forall|i: int| 0 <= i < c.len() ==> (#[trigger] c[i]).weight >= 1,
        0 <= t < weight_sum(c, c.len() as int),
    ensures
        exists|k: int| picked(c, t, k),
        forall|j: int, k: int| picked(c, t, j) && picked(c, t, k) ==> j == k,
    decreases c.len(),
{
    let n = c.len() as int;
    if t >= weight_sum(c, n - 1) {
        assert(picked(c, t, n - 1));
    } else {
        let d = c.drop_last();
        assert forall|k: int| 0 <= k <= d.len() implies weight_sum(d, k) == weight_sum(c, k) by {
            lemma_weight_sum_prefix(c, n - 1, k);
            assert(c.take(n - 1) =~= d);
        }
        lemma_ticket_owner_unique(d, t);
        let k = choose|k: int| picked(d, t, k);
        assert(picked(c, t, k));
    }
    assert forall|j: int, k: int| picked(c, t, j) && picked(c, t, k) implies j == k by {
        if j < k {
            lemma_weight_sum_mono(c, j + 1, k);
        } else if k < j {
            lemma_weight_sum_mono(c, k + 1, j);
        }
    }
}

/// With every weight one, ticket `t` goes to candidate `t`: the uniform
/// strategy picks each candidate equally often.
pub proof fn lemma_uniform_pick(c: Seq<WeightedCandidate>, t: int)
    requires
        forall|i: int| 0 <= i < c.len() ==> (#[trigger] c[i]).weight == 1,
        0 <= t < c.len(),
    ensures
        picked(c, t, t),
        weight_sum(c, c.len() as int) == c.len(),
{
    lemma_weight_sum_ones(c, t + 1);
    lemma_weight_sum_ones(c, c.len() as int);
}

proof fn lemma_weight_sum_ones(c: Seq<WeightedCandidate>, k: int)
    requires
        forall|i: int| 0 <= i < c.len() ==> (#[trigger] c[i]).weight == 1,
        0 <= k <= c.len(),
    ensures
        weight_sum(c, k) == k,
        k > 0 ==> weight_sum(c, k - 1) == k - 1,
    decreases k,
{
    if k > 0 {
        lemma_weight_sum_ones(c, k - 1);
    }
}

proof fn lemma_weight_sum_prefix(c: Seq<WeightedCandidate>, i: int, k: int)
    requires
        0 <= k <= i < c.len(),
    ensures
        weight_sum(c.take(i), k) == weight_sum(c, k),
    decreases k,
{
    if k > 0 {
        lemma_weight_sum_prefix(c, i, k - 1);
    }
}

} // verus!
