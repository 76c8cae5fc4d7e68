//! Trimming the code section that holds the highest executed pc: a binary
//! search for the smallest section size whose run still fails the same way.
use vstd::prelude::*;

use crate::elf::{section_holds, ElfLayout, SectionInfo};
use crate::inst::{halfword_at, inst_fits_at, inst_len_at, inst_len_of};
use crate::state_tracker::{PCState, StateTrackers};

verus! {

/// The highest pc of a nonempty trace.
pub open spec fn max_pc_of(s: Seq<PCState>) -> u64
    decreases s.len(),
{
    if s.len() <= 1 {
        s[0].value
    } else {
        let m = max_pc_of(s.drop_last());
        if s.last().value > m {
            s.last().value
        } else {
            m
        }
    }
}

proof fn lemma_max_pc_of(s: Seq<PCState>)
    requires
        s.len() > 0,
    ensures
        forall|i: int| 0 <= i < s.len() ==> #[trigger] s[i].value <= max_pc_of(s),
        exists|i: int| 0 <= i < s.len() && #[trigger] s[i].value == max_pc_of(s),
    decreases s.len(),
{
    if s.len() > 1 {
        lemma_max_pc_of(s.drop_last());
        let m = max_pc_of(s.drop_last());
        assert forall|i: int| 0 <= i < s.len() implies #[trigger] s[i].value <= max_pc_of(s) by {
            if i < s.len() - 1 {
                assert(s.drop_last()[i] == s[i]);
            }
        }
        if s.last().value > m {
            assert(s[s.len() - 1].value == max_pc_of(s));
        } else {
            let w = choose|i: int| 0 <= i < s.len() - 1 && #[trigger] s.drop_last()[i].value == m;
            assert(s[w].value == max_pc_of(s));
        }
    } else {
        assert(s[0].value == max_pc_of(s));
    }
}

/// The highest pc of the trace, or `None` for an empty trace.
pub fn max_pc(pcs: &[PCState]) -> (r: Option<u64>)
    ensures
        pcs@.len() == 0 ==> r is None,
        pcs@.len() > 0 ==> r == Some(max_pc_of(pcs@)),
        r matches Some(m) ==> (forall|i: int| 0 <= i < pcs@.len() ==> #[trigger] pcs@[i].value <= m)
            && exists|i: int| 0 <= i < pcs@.len() && #[trigger] pcs@[i].value == m,
{
    if pcs.len() == 0 {
        return None;
    }
    let mut m = pcs[0].value;
    let mut i: usize = 1;
    while i < pcs.len()
        invariant
            1 <= i <= pcs@.len(),
            m == max_pc_of(pcs@.take(i as int)),
        decreases pcs@.len() - i,
    {
        proof {
            assert(pcs@.take(i + 1).drop_last() =~= pcs@.take(i as int));
        }
        if pcs[i].value > m {
            m = pcs[i].value;
        }
        i += 1;
    }
    proof {
        assert(pcs@.take(i as int) =~= pcs@);
        lemma_max_pc_of(pcs@);
    }
    Some(m)
}

impl ElfLayout {
    /// Every executable section's bytes lie in a file of `len` bytes.
    pub open spec fn describes(self, len: nat) -> bool {
        forall|k: int|
            0 <= k < self.executable_sections@.len() ==> #[trigger] self.executable_sections@[k].offset
                + self.executable_sections@[k].size <= len
    }

    /// The first executable section that holds `[start, end)`.
    pub open spec fn first_section_holding(self, start: u64, end: u64) -> Option<int> {
        if exists|k: int|
            0 <= k < self.executable_sections@.len() && section_holds(
                #[trigger] self.executable_sections@[k],
                start,
                end,
            ) {
            Some(
                choose|k: int|
                    0 <= k < self.executable_sections@.len() && section_holds(
                        #[trigger] self.executable_sections@[k],
                        start,
                        end,
                    ) && forall|j: int|
                        0 <= j < k ==> !section_holds(
                            #[trigger] self.executable_sections@[j],
                            start,
                            end,
                        ),
            )
        } else {
            None
        }
    }
}

/// The section that holds the highest pc of a trace, and where in the file
/// that pc's instruction starts.
pub open spec fn trim_site(layout: ElfLayout, pcs: Seq<PCState>) -> Option<(int, u64)> {
    if pcs.len() == 0 || max_pc_of(pcs) + 2 > u64::MAX {
        None
    } else {
        let m = max_pc_of(pcs);
        match layout.first_section_holding(m, (m + 2) as u64) {
            None => None,
            Some(k) => {
                let section = layout.executable_sections@[k];
                Some((k, (m - section.virtual_address + section.offset) as u64))
            },
        }
    }
}

/// The instruction at the highest pc lies inside its section.
pub open spec fn trim_inst_fits(input: Seq<u8>, layout: ElfLayout, pcs: Seq<PCState>) -> bool {
    match trim_site(layout, pcs) {
        None => true,
        Some((k, offset)) => {
            let m = max_pc_of(pcs);
            &&& inst_fits_at(input, offset as int)
            &&& m + inst_len_of(halfword_at(input, offset as int)) <= u64::MAX ==> section_holds(
                layout.executable_sections@[k],
                m,
                (m + inst_len_of(halfword_at(input, offset as int))) as u64,
            )
        },
    }
}

/// The binary search over the size of one section. Sizes from `low` to
/// `high` are still open; `best` is the smallest size that reproduced the
/// failure so far.
#[derive(Clone, Copy, Debug)]
pub struct TrimSearch {
    pub section_index: usize,
    pub start_low: u64,
    pub start_high: u64,
    pub low: u64,
    pub high: u64,
    pub best: Option<u64>,
}

/// Every size in `[lo, hi]` that reproduces is followed, up to `hi`, only by
/// sizes that reproduce too.
pub open spec fn upward_closed(valid: spec_fn(int) -> bool, lo: int, hi: int) -> bool {
    forall|a: int, b: int| lo <= a <= b <= hi && #[trigger] valid(a) ==> #[trigger] valid(b)
}

impl TrimSearch {
    pub open spec fn wf(self) -> bool {
        &&& 1 <= self.start_low <= self.low
        &&& self.high <= self.start_high < u64::MAX
        &&& self.low <= self.high + 1
        &&& self.best is None ==> self.high == self.start_high
        &&& self.best matches Some(b) ==> b == self.high + 1 && b <= self.start_high
    }

    /// The size tried next.
    pub open spec fn mid(self) -> u64 {
        (self.low + (self.high - self.low) / 2) as u64
    }

    /// The search after the run at `mid` reproduced or not.
    pub open spec fn stepped(self, reproduced: bool) -> Self {
        if reproduced {
            TrimSearch { best: Some(self.mid()), high: (self.mid() - 1) as u64, ..self }
        } else {
            TrimSearch { low: (self.mid() + 1) as u64, ..self }
        }
    }

    /// What the search has learnt so far holds of `valid`: every size below
    /// `lo` fails, and `best` reproduces.
    pub open spec fn consistent_with(self, valid: spec_fn(int) -> bool) -> bool {
        &&& self.wf()
        &&& forall|x: int| self.start_low <= x < self.low ==> !#[trigger] valid(x)
        &&& self.best matches Some(b) ==> valid(b as int)
    }

    /// The size to try next, while sizes remain open.
    pub fn next_size(&self) -> (r: Option<u64>)
        requires
            self.wf(),
        ensures
            r == (if self.low <= self.high {
                Some(self.mid())
            } else {
                None
            }),
    {
        if self.low <= self.high {
            Some(self.low + (self.high - self.low) / 2)
        } else {
            None
        }
    }

    /// Records whether the run with the size of `next_size` reproduced the
    /// failure; a reproducing size becomes the best one.
    pub fn record(&mut self, reproduced: bool)
        requires
            old(self).wf(),
            old(self).low <= old(self).high,
        ensures
            *final(self) == old(self).stepped(reproduced),
            final(self).wf(),
            final(self).section_index == old(self).section_index,
    {
        let mid = self.low + (self.high - self.low) / 2;
        if reproduced {
            self.best = Some(mid);
            self.high = mid - 1;
        } else {
            self.low = mid + 1;
        }
    }

    /// The smallest size that reproduced.
    pub fn best(&self) -> (r: Option<u64>)
        ensures
            r == self.best,
    {
        self.best
    }

    /// A search that has tried nothing yet knows nothing false.
    pub proof fn lemma_start(self, valid: spec_fn(int) -> bool)
        requires
            self.wf(),
            self.low == self.start_low,
            self.best is None,
        ensures
            self.consistent_with(valid),
    {
    }

    /// One step keeps what the search knows true, when reproducing is
    /// upward closed over the searched sizes.
    pub proof fn lemma_step(self, valid: spec_fn(int) -> bool)
        requires
            self.consistent_with(valid),
            self.low <= self.high,
            upward_closed(valid, self.start_low as int, self.start_high as int),
        ensures
            self.stepped(valid(self.mid() as int)).consistent_with(valid),
    {
        let mid = self.mid() as int;
        if !valid(mid) {
            assert forall|x: int| self.start_low <= x < mid + 1 implies !#[trigger] valid(x) by {
                if x >= self.low && valid(x) {
                    assert(valid(mid));
                }
            }
        }
    }

    /// A finished search found the smallest reproducing size, or there is
    /// none.
    pub proof fn lemma_done(self, valid: spec_fn(int) -> bool)
        requires
            self.consistent_with(valid),
            self.low > self.high,
        ensures
            match self.best {
                Some(b) => valid(b as int) && self.start_low <= b <= self.start_high && forall|x: int|
                    self.start_low <= x < b ==> !#[trigger] valid(x),
                None => forall|x: int| self.start_low <= x <= self.start_high ==> !#[trigger] valid(x),
            },
    {
    }
}

/// Starts trimming after the highest executed pc: the section that holds
/// it, searched from just past that instruction up to the section's full
/// size. `None` when the trace is empty or no executable section holds the
/// pc.
pub fn trim_after_max_pc(input: &[u8], layout: &ElfLayout, original: &StateTrackers) -> (r: Option<
    TrimSearch,
>)
    requires
        layout.describes(input@.len()),
        input@.len() < u64::MAX,
        trim_inst_fits(input@, *layout, original.pc_tracker.states()),
    ensures
        match trim_site(*layout, original.pc_tracker.states()) {
            None => r is None,
            Some((k, offset)) => {
                let m = max_pc_of(original.pc_tracker.states());
                let section = layout.executable_sections@[k];
                let len = inst_len_of(halfword_at(input@, offset as int));
                if m + len > u64::MAX {
                    r is None
                } else {
                    &&& r matches Some(search)
                &&& search.section_index == k
                &&& search.start_low == m - section.virtual_address + len
                &&& search.start_high == section.size
                &&& search.low == search.start_low
                &&& search.best is None
                &&& search.wf()
                }
            },
        },
{
    let input_len = input.len();
    let pcs = original.pc_tracker.as_slice();
    let max_pc = match max_pc(pcs) {
        Some(m) => m,
        None => return None,
    };
    let end = match max_pc.checked_add(2) {
        Some(e) => e,
        None => return None,
    };
    let k = match layout.section_containing_vma(max_pc, end) {
        Some(k) => k,
        None => {
            proof {
                assert(layout.first_section_holding(max_pc, end) is None);
            }
            return None;
        },
    };
    let section: SectionInfo = layout.executable_sections[k];
    proof {
        let ghost sections = layout.executable_sections@;
        assert(section_holds(sections[k as int], max_pc, end));
        let c = choose|c: int|
            0 <= c < sections.len() && section_holds(#[trigger] sections[c], max_pc, end) && forall|
                j: int,
            |
                0 <= j < c ==> !section_holds(#[trigger] sections[j], max_pc, end);
        assert(layout.first_section_holding(max_pc, end) == Some(c));
        if c < k {
        } else if c > k {
            assert(!section_holds(sections[k as int], max_pc, end));
        }
        assert(c == k);
        assert(section.offset + section.size <= input@.len());
    }
    let rel = max_pc - section.virtual_address;
    let max_offset = rel + section.offset;
    assert(trim_site(*layout, original.pc_tracker.states()) == Some((k as int, max_offset)));
    assert(inst_fits_at(input@, max_offset as int));
    assert(max_offset < input@.len());
    assert(max_offset < input_len);
    let max_inst_len = inst_len_at(input, max_offset as usize) as u64;
    if max_pc.checked_add(max_inst_len).is_none() {
        return None;
    }
    assert(section_holds(section, max_pc, (max_pc + max_inst_len) as u64));
    let low = rel + max_inst_len;
    let high = section.size;
    assert(low <= high);
    assert(high < u64::MAX);
    Some(
        TrimSearch {
            section_index: k,
            start_low: low,
            start_high: high,
            low,
            high,
            best: None,
        },
    )
}

} // verus!
