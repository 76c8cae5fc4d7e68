//! Stripping the part of a run between an early pc and the failure: a jump
//! from that pc straight to the failing instruction, with the instructions
//! only the skipped part executed replaced by no-ops.
use std::collections::HashSet;
use vstd::prelude::*;
use vstd::slice::slice_to_vec;

use crate::elf::{section_holds, section_vma2offset, ElfLayout, SectionInfo};
use crate::inst::{encode_jmp, halfword_at, inst_fits, inst_fits_at, inst_len_at, inst_len_of, jmp_words};
use crate::reduce::bisect::LeastSearch;
use crate::reduce::{with_nop, write_nop};
use crate::riscv::words_bytes;
use crate::state_tracker::{PCState, StateTracker, StateTrackers};

verus! {

/// The pc at `i` was already executed before `i`.
pub open spec fn seen_before(s: Seq<PCState>, i: int) -> bool {
    exists|j: int| 0 <= j < i && #[trigger] s[j].value == s[i].value
}

/// The first occurrence of each pc among the first `n` entries, with its
/// index, in trace order.
pub open spec fn first_entries(s: Seq<PCState>, n: nat) -> Seq<(usize, u64)>
    decreases n,
{
    if n == 0 {
        Seq::empty()
    } else {
        let prev = first_entries(s, (n - 1) as nat);
        if seen_before(s, n - 1) {
            prev
        } else {
            prev.push(((n - 1) as usize, s[n - 1].value))
        }
    }
}

/// Each distinct pc of the trace once, at its first dynamic occurrence.
pub fn first_dynamic_entries(pc_trace: &StateTracker<PCState>) -> (r: Vec<(usize, u64)>)
    ensures
        r@ == first_entries(pc_trace.states(), pc_trace.states().len()),
{
    let pcs = pc_trace.as_slice();
    let mut seen: HashSet<u64> = HashSet::new();
    let mut entries: Vec<(usize, u64)> = Vec::new();
    let mut i: usize = 0;
    while i < pcs.len()
        invariant
            i <= pcs@.len(),
            pcs@ == pc_trace.states(),
            entries@ == first_entries(pcs@, i as nat),
            forall|v: u64| seen@.contains(v) <==> exists|j: int| 0 <= j < i && #[trigger] pcs@[j].value == v,
        decreases pcs@.len() - i,
    {
        let pc = pcs[i].value;
        let fresh = seen.insert(pc);
        proof {
            assert(fresh == !seen_before(pcs@, i as int));
            assert forall|v: u64| seen@.contains(v) <==> exists|j: int|
                0 <= j < i + 1 && #[trigger] pcs@[j].value == v by {
                if v == pc {
                    assert(pcs@[i as int].value == v);
                }
            }
        }
        if fresh {
            entries.push((i, pc));
        }
        i += 1;
    }
    entries
}

/// All pcs of the trace are 2-byte aligned, as RISC-V instructions are.
pub open spec fn pcs_aligned(s: Seq<PCState>) -> bool {
    forall|i: int| 0 <= i < s.len() ==> #[trigger] s[i].value % 2 == 0
}

/// A pc from which a plain `jal` to the failure is worth trying: not the
/// failing pc, not the instruction just before it, and within reach.
pub open spec fn suffix_candidate(pc: u64, failure_pc: u64) -> bool {
    &&& pc != failure_pc
    &&& pc + 2 != failure_pc
    &&& jmp_words(pc, failure_pc, false, None) is Some
}

/// The candidates among `entries`, in order.
pub open spec fn candidates_of(entries: Seq<(usize, u64)>, failure_pc: u64) -> Seq<u64>
    decreases entries.len(),
{
    if entries.len() == 0 {
        Seq::empty()
    } else {
        let prev = candidates_of(entries.drop_last(), failure_pc);
        if suffix_candidate(entries.last().1, failure_pc) {
            prev.push(entries.last().1)
        } else {
            prev
        }
    }
}

proof fn lemma_first_entries_aligned(s: Seq<PCState>, n: nat)
    requires
        pcs_aligned(s),
        n <= s.len(),
    ensures
        forall|k: int|
            0 <= k < first_entries(s, n).len() ==> #[trigger] first_entries(s, n)[k].1 % 2 == 0,
    decreases n,
{
    if n > 0 {
        lemma_first_entries_aligned(s, (n - 1) as nat);
        let prev = first_entries(s, (n - 1) as nat);
        assert(s[n - 1].value % 2 == 0);
        if !seen_before(s, n - 1) {
            let cur = prev.push(((n - 1) as usize, s[n - 1].value));
            assert(first_entries(s, n) == cur);
            assert forall|k: int| 0 <= k < cur.len() implies #[trigger] cur[k].1 % 2 == 0 by {
                if k < prev.len() {
                    assert(cur[k] == prev[k]);
                }
            }
        }
    }
}

/// The plan of a suffix strip: the failing pc, the candidate jump sites in
/// order of first execution, and the search over them.
pub struct SuffixPlan {
    pub failure_pc: u64,
    pub candidates: Vec<u64>,
    pub search: LeastSearch,
}

/// Starts stripping the suffix of a failing run: the candidates in order of
/// first execution, searched for the earliest one from which jumping to the
/// failure still fails the same way.
pub fn strip_irrelevant_suffix(original: &StateTrackers) -> (r: SuffixPlan)
    requires
        original.pc_tracker.states().len() > 0,
        pcs_aligned(original.pc_tracker.states()),
    ensures
        r.failure_pc == original.pc_tracker.states().last().value,
        r.candidates@ == candidates_of(
            first_entries(original.pc_tracker.states(), original.pc_tracker.states().len()),
            r.failure_pc,
        ),
        r.search == (LeastSearch {
            start_low: 0,
            start_high: r.candidates@.len() as usize,
            low: 0,
            high: r.candidates@.len() as usize,
            best: None,
        }),
        r.search.wf(),
{
    let pcs = original.pc_tracker.as_slice();
    let failure_pc = pcs[pcs.len() - 1].value;
    let entries = first_dynamic_entries(&original.pc_tracker);
    proof {
        lemma_first_entries_aligned(pcs@, pcs@.len());
    }
    let mut candidates: Vec<u64> = Vec::new();
    let mut i: usize = 0;
    while i < entries.len()
        invariant
            i <= entries@.len(),
            pcs@ == original.pc_tracker.states(),
            failure_pc == pcs@.last().value,
            pcs_aligned(pcs@),
            entries@ == first_entries(pcs@, pcs@.len()),
            candidates@ == candidates_of(entries@.take(i as int), failure_pc),
            forall|k: int| 0 <= k < entries@.len() ==> #[trigger] entries@[k].1 % 2 == 0,
        decreases entries@.len() - i,
    {
        let pc = entries[i].1;
        proof {
            assert(entries@.take(i + 1).drop_last() =~= entries@.take(i as int));
            assert(entries@[i as int].1 % 2 == 0);
            assert(pcs@[pcs@.len() - 1].value % 2 == 0);
        }
        if pc != failure_pc && pc.checked_add(2) != Some(failure_pc) && encode_jmp(
            pc,
            failure_pc,
            false,
            None,
        ).is_some() {
            candidates.push(pc);
        }
        i += 1;
    }
    proof {
        assert(entries@.take(i as int) =~= entries@);
    }
    let search = LeastSearch::new(0, candidates.len());
    SuffixPlan { failure_pc, candidates, search }
}

/// The index of the first occurrence of `pc` in the trace.
pub fn first_index_of(pcs: &[PCState], pc: u64) -> (r: Option<usize>)
    ensures
        match r {
            Some(i) => i < pcs@.len() && pcs@[i as int].value == pc && forall|j: int|
                0 <= j < i ==> #[trigger] pcs@[j].value != pc,
            None => forall|j: int| 0 <= j < pcs@.len() ==> #[trigger] pcs@[j].value != pc,
        },
{
    let mut i: usize = 0;
    while i < pcs.len()
        invariant
            i <= pcs@.len(),
            forall|j: int| 0 <= j < i ==> #[trigger] pcs@[j].value != pc,
        decreases pcs@.len() - i,
    {
        if pcs[i].value == pc {
            return Some(i);
        }
        i += 1;
    }
    None
}

/// The number of instructions a run executes when it jumps from the first
/// occurrence of `candidate_pc` straight to the failure: the prefix up to
/// it, the jump and the failing instruction.
pub fn insts_to_failure_after_jal(pc_trace: &StateTracker<PCState>, candidate_pc: u64) -> (n: usize)
    requires
        exists|j: int|
            0 <= j < pc_trace.states().len() && #[trigger] pc_trace.states()[j].value == candidate_pc,
        pc_trace.states().len() < usize::MAX - 1,
    ensures
        n >= 2,
        n - 2 < pc_trace.states().len(),
        pc_trace.states()[n - 2].value == candidate_pc,
        forall|j: int| 0 <= j < n - 2 ==> #[trigger] pc_trace.states()[j].value != candidate_pc,
{
    match first_index_of(pc_trace.as_slice(), candidate_pc) {
        Some(i) => i + 2,
        None => {
            proof {
                let j = choose|j: int|
                    0 <= j < pc_trace.states().len() && #[trigger] pc_trace.states()[j].value
                        == candidate_pc;
                assert(pc_trace.states()[j].value != candidate_pc);
            }
            0
        },
    }
}

/// `pc` is executed at or before index `upto`.
pub open spec fn executed_by(s: Seq<PCState>, upto: int, pc: u64) -> bool {
    exists|j: int| 0 <= j <= upto && #[trigger] s[j].value == pc
}

impl ElfLayout {
    /// Every instruction that starts inside an executable section ends
    /// inside the file.
    pub open spec fn code_fits(self, input: Seq<u8>) -> bool {
        forall|k: int, o: int|
            #![trigger self.executable_sections@[k], inst_fits_at(input, o)]
            0 <= k < self.executable_sections@.len() && self.executable_sections@[k].offset <= o
                && o + 2 <= self.executable_sections@[k].offset + self.executable_sections@[k].size
                ==> inst_fits_at(input, o)
    }

    /// Whether the executable sections lie in `input` and every
    /// instruction starting in one of them lies wholly in `input`.
    pub fn fits_input(&self, input: &[u8]) -> (b: bool)
        ensures
            b == (self.describes(input@.len()) && self.code_fits(input@)),
    {
        let n = input.len();
        let mut k: usize = 0;
        while k < self.executable_sections.len()
            invariant
                n == input@.len(),
                k <= self.executable_sections@.len(),
                forall|j: int|
                    0 <= j < k ==> (#[trigger] self.executable_sections@[j]).offset
                        + self.executable_sections@[j].size <= n,
                forall|j: int, o: int|
                    #![trigger self.executable_sections@[j], inst_fits_at(input@, o)]
                    0 <= j < k && self.executable_sections@[j].offset <= o && o + 2
                        <= self.executable_sections@[j].offset + self.executable_sections@[j].size
                        ==> inst_fits_at(input@, o),
            decreases self.executable_sections@.len() - k,
        {
            let sec = self.executable_sections[k];
            if sec.offset > n as u64 || sec.size > n as u64 - sec.offset {
                proof {
                    assert(self.executable_sections@[k as int] == sec);
                }
                return false;
            }
            let start = sec.offset as usize;
            let end = (sec.offset + sec.size) as usize;
            let mut o = start;
            while o <= end && end - o >= 2
                invariant
                    n == input@.len(),
                    k < self.executable_sections@.len(),
                    sec == self.executable_sections@[k as int],
                    start <= o,
                    end <= n,
                    start == sec.offset,
                    end == sec.offset + sec.size,
                    forall|p: int| start <= p < o ==> #[trigger] inst_fits_at(input@, p),
                decreases end - o,
            {
                if !inst_fits(input, o) {
                    proof {
                        assert(!inst_fits_at(input@, o as int));
                        assert(self.executable_sections@[k as int].offset <= o);
                    }
                    return false;
                }
                o += 1;
            }
            proof {
                assert forall|j: int, p: int|
                    #![trigger self.executable_sections@[j], inst_fits_at(input@, p)]
                    0 <= j < k + 1 && self.executable_sections@[j].offset <= p && p + 2
                        <= self.executable_sections@[j].offset + self.executable_sections@[j].size
                        implies inst_fits_at(input@, p) by {
                    if j == k {
                        assert(self.executable_sections@[j] == sec);
                        assert(start <= p < o);
                    }
                }
            }
            k += 1;
        }
        true
    }
}

/// The result of the no-op pass over the trace entries `i..end`, with
/// `nopped` the file offsets already replaced: whether it went through,
/// and the bytes it produced up to where it stopped.
pub open spec fn suffix_nop_run(
    input: Seq<u8>,
    layout: ElfLayout,
    s: Seq<PCState>,
    cand: int,
    failure_pc: u64,
    i: int,
    end: int,
    bytes: Seq<u8>,
    nopped: Set<u64>,
) -> (bool, Seq<u8>)
    decreases end - i,
{
    if i >= end {
        (true, bytes)
    } else {
        let pc = s[i].value;
        if pc == failure_pc || executed_by(s, cand, pc) {
            suffix_nop_run(input, layout, s, cand, failure_pc, i + 1, end, bytes, nopped)
        } else if pc + 2 > u64::MAX {
            (false, bytes)
        } else {
            match layout.first_section_holding(pc, (pc + 2) as u64) {
                None => (false, bytes),
                Some(k) => {
                    let sec = layout.executable_sections@[k];
                    let off = pc - sec.virtual_address + sec.offset;
                    let fe = sec.offset + sec.size;
                    if off > u64::MAX || off > usize::MAX || fe > u64::MAX || fe > usize::MAX || off
                        + 2 > usize::MAX {
                        (false, bytes)
                    } else if off + 2 > fe || nopped.contains(off as u64) {
                        suffix_nop_run(input, layout, s, cand, failure_pc, i + 1, end, bytes, nopped)
                    } else {
                        let len = inst_len_of(halfword_at(input, off));
                        if off + len > fe {
                            (false, bytes)
                        } else {
                            suffix_nop_run(
                                input,
                                layout,
                                s,
                                cand,
                                failure_pc,
                                i + 1,
                                end,
                                with_nop(bytes, off, len as int),
                                nopped.insert(off as u64),
                            )
                        }
                    }
                },
            }
        }
    }
}

/// Byte `b` of the file lies in the instruction at `pc`, found through the
/// first executable section that maps `pc`.
pub open spec fn in_inst_slot(input: Seq<u8>, layout: ElfLayout, pc: u64, b: int) -> bool {
    &&& pc + 2 <= u64::MAX
    &&& layout.first_section_holding(pc, (pc + 2) as u64) matches Some(k) && {
        let sec = layout.executable_sections@[k];
        let off = pc - sec.virtual_address + sec.offset;
        off <= b < off + inst_len_of(halfword_at(input, off))
    }
}

proof fn lemma_minimal_section(layout: ElfLayout, start: u64, end: u64, k: int)
    requires
        0 <= k < layout.executable_sections@.len(),
        section_holds(layout.executable_sections@[k], start, end),
    ensures
        exists|m: int|
            0 <= m < layout.executable_sections@.len() && section_holds(
                #[trigger] layout.executable_sections@[m],
                start,
                end,
            ) && forall|j: int|
                0 <= j < m ==> !section_holds(#[trigger] layout.executable_sections@[j], start, end),
    decreases k,
{
    let secs = layout.executable_sections@;
    if exists|j: int| 0 <= j < k && section_holds(#[trigger] secs[j], start, end) {
        let j = choose|j: int| 0 <= j < k && section_holds(#[trigger] secs[j], start, end);
        lemma_minimal_section(layout, start, end, j);
    } else {
        assert(section_holds(secs[k], start, end) && forall|j: int|
            0 <= j < k ==> !section_holds(#[trigger] secs[j], start, end));
    }
}

/// The section `first_section_holding` names is one of the executable
/// sections.
proof fn lemma_first_section_in_range(layout: ElfLayout, start: u64, end: u64)
    ensures
        layout.first_section_holding(start, end) matches Some(k) ==> 0 <= k
            < layout.executable_sections@.len() && section_holds(
            layout.executable_sections@[k],
            start,
            end,
        ),
{
    if exists|k: int|
        0 <= k < layout.executable_sections@.len() && section_holds(
            #[trigger] layout.executable_sections@[k],
            start,
            end,
        ) {
        let k = choose|k: int|
            0 <= k < layout.executable_sections@.len() && section_holds(
                #[trigger] layout.executable_sections@[k],
                start,
                end,
            );
        lemma_minimal_section(layout, start, end, k);
    }
}

/// The suffix no-op pass keeps the file's length and changes a byte only
/// where it lies in the instruction of a pc that the run executed after
/// the candidate's first occurrence, is not the failing pc, and was not
/// executed at or before that occurrence. So every instruction the kept
/// prefix runs keeps its bytes, unless they are shared with the slot of a
/// pc only the skipped part runs.
#[verifier::spinoff_prover]
#[verifier::rlimit(60)]
pub proof fn lemma_suffix_nops_spare_prefix(
    input: Seq<u8>,
    layout: ElfLayout,
    s: Seq<PCState>,
    cand: int,
    failure_pc: u64,
    i: int,
    end: int,
    bytes: Seq<u8>,
    nopped: Set<u64>,
    b: int,
)
    requires
        bytes.len() == input.len(),
        layout.describes(input.len()),
        0 <= b < bytes.len(),
    ensures
        suffix_nop_run(input, layout, s, cand, failure_pc, i, end, bytes, nopped).1.len() == bytes.len(),
        suffix_nop_run(input, layout, s, cand, failure_pc, i, end, bytes, nopped).1[b] != bytes[b]
            ==> exists|j: int|
            i <= j < end && s[j].value != failure_pc && !executed_by(s, cand, s[j].value)
                && #[trigger] in_inst_slot(input, layout, s[j].value, b),
    decreases end - i,
{
    if i < end {
        let pc = s[i].value;
        if executed_by(s, cand, pc) || pc == failure_pc {
            lemma_suffix_nops_spare_prefix(input, layout, s, cand, failure_pc, i + 1, end, bytes, nopped, b);
        } else if pc + 2 <= u64::MAX {
            lemma_first_section_in_range(layout, pc, (pc + 2) as u64);
            match layout.first_section_holding(pc, (pc + 2) as u64) {
                None => {},
                Some(k) => {
                    let sec = layout.executable_sections@[k];
                    let off = pc - sec.virtual_address + sec.offset;
                    let fe = sec.offset + sec.size;
                    if off > u64::MAX || off > usize::MAX || fe > u64::MAX || fe > usize::MAX || off
                        + 2 > usize::MAX {
                    } else if off + 2 > fe || nopped.contains(off as u64) {
                        lemma_suffix_nops_spare_prefix(
                            input,
                            layout,
                            s,
                            cand,
                            failure_pc,
                            i + 1,
                            end,
                            bytes,
                            nopped,
                            b,
                        );
                    } else {
                        let len = inst_len_of(halfword_at(input, off));
                        if off + len <= fe {
                            assert(fe <= input.len());
                            assert(0 <= off);
                            let nb = with_nop(bytes, off, len as int);
                            assert(len == 2 || len == 4);
                            assert(crate::reduce::nop_bytes(len as int).len() == len);
                            assert(nb.len() == bytes.len());
                            lemma_suffix_nops_spare_prefix(
                                input,
                                layout,
                                s,
                                cand,
                                failure_pc,
                                i + 1,
                                end,
                                nb,
                                nopped.insert(off as u64),
                                b,
                            );
                            if !(off <= b < off + len) {
                                if b < off {
                                    assert(nb[b] == bytes.take(off)[b]);
                                } else {
                                    assert(nb[b] == bytes.skip(off + len)[b - off - len]);
                                }
                            } else {
                                assert(in_inst_slot(input, layout, pc, b));
                            }
                        }
                    }
                },
            }
        }
    }
}

/// The file offset of the instruction at `pc`, through the first
/// executable section that maps `pc`, when its first two bytes lie in
/// that section.
pub open spec fn inst_slot(layout: ElfLayout, pc: u64) -> Option<int> {
    if pc + 2 > u64::MAX {
        None
    } else {
        match layout.first_section_holding(pc, (pc + 2) as u64) {
            None => None,
            Some(k) => {
                let sec = layout.executable_sections@[k];
                let off = pc - sec.virtual_address + sec.offset;
                if off + 2 <= sec.offset + sec.size {
                    Some(off)
                } else {
                    None
                }
            },
        }
    }
}

/// The length of the instruction of `input` at `off`.
pub open spec fn slot_len(input: Seq<u8>, off: int) -> int {
    inst_len_of(halfword_at(input, off)) as int
}

/// `bytes` holds a no-op in the slot of the instruction at `off`.
pub open spec fn holds_nop(bytes: Seq<u8>, input: Seq<u8>, off: int) -> bool {
    &&& 0 <= off
    &&& off + slot_len(input, off) <= bytes.len()
    &&& bytes.subrange(off, off + slot_len(input, off)) == crate::reduce::nop_bytes(slot_len(input, off))
}

/// The instructions at `o1` and `o2` are the same one or do not overlap.
pub open spec fn slots_apart(input: Seq<u8>, o1: int, o2: int) -> bool {
    o1 == o2 || o1 + slot_len(input, o1) <= o2 || o2 + slot_len(input, o2) <= o1
}

proof fn lemma_with_nop_keeps(bytes: Seq<u8>, input: Seq<u8>, off: int, o: int)
    requires
        0 <= off,
        off + slot_len(input, off) <= bytes.len(),
        holds_nop(bytes, input, o),
        o != off,
        slots_apart(input, o, off),
    ensures
        holds_nop(with_nop(bytes, off, slot_len(input, off)), input, o),
{
    let len = slot_len(input, off);
    let nb = with_nop(bytes, off, len);
    assert(crate::reduce::nop_bytes(len).len() == len);
    assert(nb.len() == bytes.len());
    assert forall|b: int| o <= b < o + slot_len(input, o) implies nb[b] == bytes[b] by {
        if b < off {
            assert(nb[b] == bytes.take(off)[b]);
        } else {
            assert(nb[b] == bytes.skip(off + len)[b - off - len]);
        }
    }
    assert(nb.subrange(o, o + slot_len(input, o)) =~= bytes.subrange(o, o + slot_len(input, o)));
}

/// The slots of the instructions at trace entries `i..end` are apart.
#[verifier::opaque]
pub open spec fn slots_all_apart(input: Seq<u8>, layout: ElfLayout, s: Seq<PCState>, i: int, end: int) -> bool {
    forall|j1: int, j2: int|
        i <= j1 < end && i <= j2 < end && #[trigger] inst_slot(layout, s[j1].value) is Some
            && #[trigger] inst_slot(layout, s[j2].value) is Some ==> slots_apart(
            input,
            inst_slot(layout, s[j1].value)->0,
            inst_slot(layout, s[j2].value)->0,
        )
}

/// Every offset in `nopped` holds a no-op in `bytes`.
#[verifier::opaque]
pub open spec fn nops_hold(bytes: Seq<u8>, input: Seq<u8>, nopped: Set<u64>) -> bool {
    forall|o: u64| #[trigger] nopped.contains(o) ==> holds_nop(bytes, input, o as int)
}

/// The slots in `nopped` are apart from those of trace entries `i..end`.
#[verifier::opaque]
pub open spec fn nopped_apart(
    input: Seq<u8>,
    layout: ElfLayout,
    s: Seq<PCState>,
    i: int,
    end: int,
    nopped: Set<u64>,
) -> bool {
    forall|o: u64, j: int|
        #[trigger] nopped.contains(o) && i <= j < end && #[trigger] inst_slot(layout, s[j].value)
            is Some ==> slots_apart(input, o as int, inst_slot(layout, s[j].value)->0)
}

/// Every instruction of trace entries `i..end` that only the skipped part
/// of the run executes, other than the failing one, holds a no-op in
/// `bytes`.
#[verifier::opaque]
pub open spec fn skipped_nopped(
    bytes: Seq<u8>,
    input: Seq<u8>,
    layout: ElfLayout,
    s: Seq<PCState>,
    cand: int,
    failure_pc: u64,
    i: int,
    end: int,
) -> bool {
    forall|j: int|
        i <= j < end && s[j].value != failure_pc && !executed_by(s, cand, s[j].value)
            && #[trigger] inst_slot(layout, s[j].value) is Some ==> holds_nop(
            bytes,
            input,
            inst_slot(layout, s[j].value)->0,
        )
}

proof fn lemma_apart_shrink(input: Seq<u8>, layout: ElfLayout, s: Seq<PCState>, i: int, end: int, nopped: Set<u64>)
    requires
        slots_all_apart(input, layout, s, i, end),
        nopped_apart(input, layout, s, i, end, nopped),
    ensures
        slots_all_apart(input, layout, s, i + 1, end),
        nopped_apart(input, layout, s, i + 1, end, nopped),
{
    reveal(slots_all_apart);
    reveal(nopped_apart);
}

proof fn lemma_skipped_extend(
    bytes: Seq<u8>,
    input: Seq<u8>,
    layout: ElfLayout,
    s: Seq<PCState>,
    cand: int,
    failure_pc: u64,
    i: int,
    end: int,
)
    requires
        skipped_nopped(bytes, input, layout, s, cand, failure_pc, i + 1, end),
        s[i].value != failure_pc && !executed_by(s, cand, s[i].value) && inst_slot(layout, s[i].value)
            is Some ==> holds_nop(bytes, input, inst_slot(layout, s[i].value)->0),
    ensures
        skipped_nopped(bytes, input, layout, s, cand, failure_pc, i, end),
{
    reveal(skipped_nopped);
}

/// After the pass nops the instruction at `off` (the slot of trace entry
/// `i`, not yet nopped), the no-ops placed so far, and this one, hold, and
/// stay apart from the slots still to come.
#[verifier::spinoff_prover]
#[verifier::rlimit(50)]
proof fn lemma_nop_step_keeps(
    input: Seq<u8>,
    layout: ElfLayout,
    s: Seq<PCState>,
    i: int,
    end: int,
    bytes: Seq<u8>,
    nopped: Set<u64>,
    off: int,
)
    requires
        0 <= i < end <= s.len(),
        0 <= off,
        off + slot_len(input, off) <= bytes.len(),
        inst_slot(layout, s[i].value) == Some(off),
        !nopped.contains(off as u64),
        off <= u64::MAX,
        slots_all_apart(input, layout, s, i, end),
        nops_hold(bytes, input, nopped),
        nopped_apart(input, layout, s, i, end, nopped),
    ensures
        with_nop(bytes, off, slot_len(input, off)).len() == bytes.len(),
        nops_hold(with_nop(bytes, off, slot_len(input, off)), input, nopped.insert(off as u64)),
        nopped_apart(input, layout, s, i + 1, end, nopped.insert(off as u64)),
        slots_all_apart(input, layout, s, i + 1, end),
{
    reveal(slots_all_apart);
    reveal(nops_hold);
    reveal(nopped_apart);
    let len = slot_len(input, off);
    let nb = with_nop(bytes, off, len);
    let nn = nopped.insert(off as u64);
    assert(crate::reduce::nop_bytes(len).len() == len);
    assert(nb.len() == bytes.len());
    assert(holds_nop(nb, input, off)) by {
        assert(nb.subrange(off, off + len) =~= crate::reduce::nop_bytes(len));
    }
    assert forall|o: u64| #[trigger] nn.contains(o) implies holds_nop(nb, input, o as int) by {
        if o != off as u64 {
            assert(nopped.contains(o));
            assert(slots_apart(input, o as int, off));
            lemma_with_nop_keeps(bytes, input, off, o as int);
        }
    }
    assert forall|o: u64, j: int|
        #[trigger] nn.contains(o) && i + 1 <= j < end && #[trigger] inst_slot(layout, s[j].value)
            is Some implies slots_apart(input, o as int, inst_slot(layout, s[j].value)->0) by {
        if o == off as u64 {
            assert(inst_slot(layout, s[i].value) is Some);
        } else {
            assert(nopped.contains(o));
        }
    }
}

proof fn lemma_nops_hold_subset(bytes: Seq<u8>, input: Seq<u8>, nopped: Set<u64>, off: u64)
    requires
        nops_hold(bytes, input, nopped.insert(off)),
    ensures
        nops_hold(bytes, input, nopped),
        holds_nop(bytes, input, off as int),
{
    reveal(nops_hold);
    assert(nopped.insert(off).contains(off));
    assert forall|o: u64| #[trigger] nopped.contains(o) implies holds_nop(bytes, input, o as int) by {
        assert(nopped.insert(off).contains(o));
    }
}

proof fn lemma_nops_hold_at(bytes: Seq<u8>, input: Seq<u8>, nopped: Set<u64>, off: u64)
    requires
        nops_hold(bytes, input, nopped),
        nopped.contains(off),
    ensures
        holds_nop(bytes, input, off as int),
{
    reveal(nops_hold);
}

#[verifier::spinoff_prover]
#[verifier::rlimit(60)]
proof fn lemma_nops_rec(
    input: Seq<u8>,
    layout: ElfLayout,
    s: Seq<PCState>,
    cand: int,
    failure_pc: u64,
    i: int,
    end: int,
    bytes: Seq<u8>,
    nopped: Set<u64>,
)
    requires
        bytes.len() == input.len(),
        layout.describes(input.len()),
        0 <= i,
        end <= s.len(),
        slots_all_apart(input, layout, s, i, end),
        nops_hold(bytes, input, nopped),
        nopped_apart(input, layout, s, i, end, nopped),
    ensures
        nops_hold(suffix_nop_run(input, layout, s, cand, failure_pc, i, end, bytes, nopped).1, input, nopped),
        suffix_nop_run(input, layout, s, cand, failure_pc, i, end, bytes, nopped).0 ==> skipped_nopped(
            suffix_nop_run(input, layout, s, cand, failure_pc, i, end, bytes, nopped).1,
            input,
            layout,
            s,
            cand,
            failure_pc,
            i,
            end,
        ),
    decreases end - i,
{
    let run = suffix_nop_run(input, layout, s, cand, failure_pc, i, end, bytes, nopped);
    if i >= end {
        reveal(skipped_nopped);
    } else {
        let pc = s[i].value;
        if executed_by(s, cand, pc) || pc == failure_pc {
            lemma_apart_shrink(input, layout, s, i, end, nopped);
            lemma_nops_rec(input, layout, s, cand, failure_pc, i + 1, end, bytes, nopped);
            if run.0 {
                lemma_skipped_extend(run.1, input, layout, s, cand, failure_pc, i, end);
            }
        } else if pc + 2 <= u64::MAX {
            lemma_first_section_in_range(layout, pc, (pc + 2) as u64);
            match layout.first_section_holding(pc, (pc + 2) as u64) {
                None => {},
                Some(k) => {
                    let sec = layout.executable_sections@[k];
                    let off = pc - sec.virtual_address + sec.offset;
                    let fe = sec.offset + sec.size;
                    if off > u64::MAX || off > usize::MAX || fe > u64::MAX || fe > usize::MAX || off
                        + 2 > usize::MAX {
                    } else if off + 2 > fe {
                        assert(inst_slot(layout, pc) is None);
                        lemma_apart_shrink(input, layout, s, i, end, nopped);
                        lemma_nops_rec(input, layout, s, cand, failure_pc, i + 1, end, bytes, nopped);
                        if run.0 {
                            lemma_skipped_extend(run.1, input, layout, s, cand, failure_pc, i, end);
                        }
                    } else if nopped.contains(off as u64) {
                        assert(inst_slot(layout, pc) == Some(off));
                        lemma_apart_shrink(input, layout, s, i, end, nopped);
                        lemma_nops_rec(input, layout, s, cand, failure_pc, i + 1, end, bytes, nopped);
                        lemma_nops_hold_at(run.1, input, nopped, off as u64);
                        if run.0 {
                            lemma_skipped_extend(run.1, input, layout, s, cand, failure_pc, i, end);
                        }
                    } else {
                        let len = inst_len_of(halfword_at(input, off));
                        if off + len <= fe {
                            assert(fe <= input.len());
                            assert(inst_slot(layout, pc) == Some(off));
                            let nb = with_nop(bytes, off, len as int);
                            let nn = nopped.insert(off as u64);
                            lemma_nop_step_keeps(input, layout, s, i, end, bytes, nopped, off);
                            lemma_nops_rec(input, layout, s, cand, failure_pc, i + 1, end, nb, nn);
                            lemma_nops_hold_subset(run.1, input, nopped, off as u64);
                            if run.0 {
                                lemma_skipped_extend(run.1, input, layout, s, cand, failure_pc, i, end);
                            }
                        }
                    }
                },
            }
        }
    }
}

/// When the slots of the instructions that the run executes after the
/// candidate are apart, the suffix no-op pass, once it goes through, has
/// turned into a no-op every instruction executed after the candidate's
/// first occurrence that is not the failing one and was not executed at
/// or before that occurrence.
pub proof fn lemma_suffix_nops_skipped(
    input: Seq<u8>,
    layout: ElfLayout,
    s: Seq<PCState>,
    cand: int,
    failure_pc: u64,
    i: int,
    end: int,
    bytes: Seq<u8>,
)
    requires
        bytes.len() == input.len(),
        layout.describes(input.len()),
        0 <= i,
        end <= s.len(),
        forall|j1: int, j2: int|
            i <= j1 < end && i <= j2 < end && #[trigger] inst_slot(layout, s[j1].value) is Some
                && #[trigger] inst_slot(layout, s[j2].value) is Some ==> slots_apart(
                input,
                inst_slot(layout, s[j1].value)->0,
                inst_slot(layout, s[j2].value)->0,
            ),
    ensures
        suffix_nop_run(input, layout, s, cand, failure_pc, i, end, bytes, Set::empty()).0 ==> forall|j: int|
            i <= j < end && s[j].value != failure_pc && !executed_by(s, cand, s[j].value)
                && #[trigger] inst_slot(layout, s[j].value) is Some ==> holds_nop(
                suffix_nop_run(input, layout, s, cand, failure_pc, i, end, bytes, Set::empty()).1,
                input,
                inst_slot(layout, s[j].value)->0,
            ),
{
    reveal(slots_all_apart);
    reveal(nops_hold);
    reveal(nopped_apart);
    lemma_nops_rec(input, layout, s, cand, failure_pc, i, end, bytes, Set::empty());
    reveal(skipped_nopped);
}

/// `first_section_holding` as the executable lookup returns it.
proof fn lemma_first_section(layout: ElfLayout, start: u64, end: u64, k: usize)
    requires
        k < layout.executable_sections@.len(),
        section_holds(layout.executable_sections@[k as int], start, end),
        forall|j: int|
            0 <= j < k ==> !section_holds(#[trigger] layout.executable_sections@[j], start, end),
    ensures
        layout.first_section_holding(start, end) == Some(k as int),
{
    let sections = layout.executable_sections@;
    let c = choose|c: int|
        0 <= c < sections.len() && section_holds(#[trigger] sections[c], start, end) && forall|
            j: int,
        | 0 <= j < c ==> !section_holds(#[trigger] sections[j], start, end);
    if c < k {
    } else if c > k {
        assert(!section_holds(sections[k as int], start, end));
    }
}

/// Replaces with no-ops the instructions that only the part of the run
/// after the first occurrence of `candidate_pc` executed, apart from the
/// failing one. `None` when `candidate_pc` was not executed or an executed
/// pc lies outside the executable sections.
#[verifier::rlimit(60)]
#[verifier::spinoff_prover]
pub fn nop_skipped_suffix_insts(
    bytes: &mut [u8],
    input: &[u8],
    layout: &ElfLayout,
    original: &StateTrackers,
    candidate_pc: u64,
    failure_pc: u64,
) -> (r: Option<()>)
    requires
        old(bytes)@.len() == input@.len(),
        layout.describes(input@.len()),
        layout.code_fits(input@),
        original.pc_tracker.states().len() > 0 ==> original.pc_tracker.states().last().value
            != candidate_pc,
    ensures
        ({
            let s = original.pc_tracker.states();
            match first_index_spec(s, candidate_pc) {
                None => r is None && final(bytes)@ == old(bytes)@,
                Some(c) => {
                    let run = suffix_nop_run(
                        input@,
                        *layout,
                        s,
                        c,
                        failure_pc,
                        c + 1,
                        s.len() - 1,
                        old(bytes)@,
                        Set::empty(),
                    );
                    &&& r is Some <==> run.0
                    &&& final(bytes)@ == run.1
                }
            }
        }),
{
    let pcs = original.pc_tracker.as_slice();
    let candidate_idx = match first_index_of(pcs, candidate_pc) {
        Some(c) => c,
        None => {
            proof {
                lemma_first_index_none(pcs@, candidate_pc);
            }
            return None;
        },
    };
    proof {
        lemma_first_index_some(pcs@, candidate_pc, candidate_idx as int);
    }
    let mut prefix_pcs: HashSet<u64> = HashSet::new();
    let mut j: usize = 0;
    while j <= candidate_idx
        invariant
            j <= candidate_idx + 1,
            candidate_idx < pcs@.len(),
            forall|v: u64| prefix_pcs@.contains(v) <==> exists|k: int| 0 <= k < j && #[trigger] pcs@[k].value == v,
        decreases candidate_idx + 1 - j,
    {
        prefix_pcs.insert(pcs[j].value);
        proof {
            assert forall|v: u64| prefix_pcs@.contains(v) <==> exists|k: int|
                0 <= k < j + 1 && #[trigger] pcs@[k].value == v by {
                if v == pcs@[j as int].value {
                    assert(pcs@[j as int].value == v);
                }
            }
        }
        j += 1;
    }
    let end = pcs.len() - 1;
    let ghost s = pcs@;
    let ghost c = candidate_idx as int;
    let ghost full = suffix_nop_run(
        input@,
        *layout,
        s,
        c,
        failure_pc,
        c + 1,
        s.len() - 1,
        bytes@,
        Set::empty(),
    );
    let mut nopped: HashSet<u64> = HashSet::new();
    let mut i = candidate_idx + 1;
    while i < end
        invariant
            candidate_idx + 1 <= i,
            i <= end || i == candidate_idx + 1,
            end == pcs@.len() - 1,
            s == pcs@,
            c == candidate_idx,
            s == original.pc_tracker.states(),
            bytes@.len() == input@.len(),
            layout.describes(input@.len()),
            layout.code_fits(input@),
            forall|v: u64| prefix_pcs@.contains(v) <==> executed_by(s, c, v),
            first_index_spec(s, candidate_pc) == Some(c),
            full == suffix_nop_run(
                input@,
                *layout,
                s,
                c,
                failure_pc,
                c + 1,
                s.len() - 1,
                old(bytes)@,
                Set::empty(),
            ),
            full == suffix_nop_run(
                input@,
                *layout,
                s,
                c,
                failure_pc,
                i as int,
                end as int,
                bytes@,
                nopped@,
            ),
        decreases end - i,
    {
        let pc = pcs[i].value;
        if pc == failure_pc || prefix_pcs.contains(&pc) {
            i += 1;
            continue;
        }
        proof {
            assert(!executed_by(s, c, pc));
            assert(s[i as int].value == pc);
        }
        let pc_end = match pc.checked_add(2) {
            Some(e) => e,
            None => return None,
        };
        let k = match layout.section_containing_vma(pc, pc_end) {
            Some(k) => k,
            None => {
                proof {
                    assert(layout.first_section_holding(pc, pc_end) is None);
                }
                return None;
            },
        };
        proof {
            lemma_first_section(*layout, pc, pc_end, k);
        }
        let section: SectionInfo = layout.executable_sections[k];
        let rel = pc - section.virtual_address;
        let offset = match rel.checked_add(section.offset) {
            Some(o) => o,
            None => return None,
        };
        let file_end = match section.offset.checked_add(section.size) {
            Some(e) => e,
            None => return None,
        };
        if offset > usize::MAX as u64 || file_end > usize::MAX as u64 {
            return None;
        }
        let offset = offset as usize;
        let file_end = file_end as usize;
        let off_end = match offset.checked_add(2) {
            Some(e) => e,
            None => return None,
        };
        if off_end > file_end || nopped.contains(&(offset as u64)) {
            i += 1;
            continue;
        }
        proof {
            assert(section.offset <= offset && offset + 2 <= section.offset + section.size);
            assert(inst_fits_at(input@, offset as int));
        }
        let inst_len = inst_len_at(input, offset);
        if inst_len > file_end - offset {
            return None;
        }
        write_nop(bytes, offset, inst_len);
        nopped.insert(offset as u64);
        i += 1;
    }
    proof {
        if i == candidate_idx + 1 && i > end {
            assert(full == (true, bytes@));
        }
    }
    Some(())
}

/// The file offset of the 4-byte instruction at `pc`, through the first
/// executable section that maps it.
pub open spec fn jal_site_offset(layout: ElfLayout, pc: u64) -> Option<int> {
    if pc + 4 > u64::MAX {
        None
    } else {
        match layout.first_section_holding(pc, (pc + 4) as u64) {
            None => None,
            Some(k) => {
                let sec = layout.executable_sections@[k];
                let off = sec.offset + (pc - sec.virtual_address);
                if off > u64::MAX || off > usize::MAX {
                    None
                } else {
                    Some(off)
                }
            },
        }
    }
}

/// The bytes written over `len` bytes at `offset`.
pub open spec fn with_bytes(bytes: Seq<u8>, offset: int, patch: Seq<u8>) -> Seq<u8> {
    bytes.take(offset) + patch + bytes.skip(offset + patch.len())
}

/// What a jump from `candidate_pc` to the failure produces: the patched
/// bytes with the skipped instructions replaced by no-ops, and how many
/// instructions the run then executes.
pub open spec fn jal_candidate(
    input: Seq<u8>,
    layout: ElfLayout,
    s: Seq<PCState>,
    candidate_pc: u64,
    failure_pc: u64,
) -> Option<(Seq<u8>, int)> {
    match (jal_site_offset(layout, candidate_pc), jmp_words(candidate_pc, failure_pc, false, None)) {
        (Some(off), Some(ws)) => match first_index_spec(s, candidate_pc) {
            None => None,
            Some(c) => {
                let patched = with_bytes(input, off, words_bytes(ws));
                let run = suffix_nop_run(
                    input,
                    layout,
                    s,
                    c,
                    failure_pc,
                    c + 1,
                    s.len() - 1,
                    patched,
                    Set::empty(),
                );
                if run.0 {
                    Some((run.1, c + 2))
                } else {
                    None
                }
            },
        },
        _ => None,
    }
}

/// The candidate of a suffix strip at `candidate_pc`: its first
/// instruction becomes a `jal` to the failing pc, the instructions only
/// the skipped part ran become no-ops; with the number of instructions the
/// candidate's run needs.
pub fn jal_to_failure_site(
    input: &[u8],
    layout: &ElfLayout,
    candidate_pc: u64,
    failure_pc: u64,
    original: &StateTrackers,
) -> (r: Option<(Vec<u8>, usize)>)
    requires
        layout.describes(input@.len()),
        layout.code_fits(input@),
        (failure_pc - candidate_pc) % 2 == 0,
        original.pc_tracker.states().len() > 0,
        original.pc_tracker.states().last().value != candidate_pc,
        original.pc_tracker.states().len() < usize::MAX - 1,
    ensures
        match jal_candidate(input@, *layout, original.pc_tracker.states(), candidate_pc, failure_pc) {
            None => r is None,
            Some((b, n)) => r matches Some(v) && v.0@ == b && v.1 == n,
        },
{
    let end = match candidate_pc.checked_add(4) {
        Some(e) => e,
        None => return None,
    };
    let k = match layout.section_containing_vma(candidate_pc, end) {
        Some(k) => k,
        None => {
            proof {
                assert(layout.first_section_holding(candidate_pc, end) is None);
            }
            return None;
        },
    };
    proof {
        lemma_first_section(*layout, candidate_pc, end, k);
    }
    let offset = match section_vma2offset(&layout.executable_sections[k], candidate_pc, end) {
        Some(o) => o,
        None => return None,
    };
    if offset > usize::MAX as u64 {
        return None;
    }
    let offset = offset as usize;
    let jmp = match encode_jmp(candidate_pc, failure_pc, false, None) {
        Some(j) => j,
        None => return None,
    };
    let ghost ws = jmp_words(candidate_pc, failure_pc, false, None).unwrap();
    proof {
        reveal_with_fuel(words_bytes, 2);
        assert(ws.drop_last() =~= Seq::<u32>::empty());
        assert(jmp@.len() == 4);
        let sec = layout.executable_sections@[k as int];
        assert(sec.offset + sec.size <= input@.len());
    }
    let mut bytes = slice_to_vec(input);
    let n = bytes.len();
    assert(offset + 4 <= n);
    bytes.set(offset, jmp[0]);
    bytes.set(offset + 1, jmp[1]);
    bytes.set(offset + 2, jmp[2]);
    bytes.set(offset + 3, jmp[3]);
    assert(bytes@ =~= with_bytes(input@, offset as int, words_bytes(ws)));
    match nop_skipped_suffix_insts(bytes.as_mut_slice(), input, layout, original, candidate_pc, failure_pc) {
        None => None,
        Some(()) => {
            let max_inst = insts_to_failure_after_jal(&original.pc_tracker, candidate_pc);
            Some((bytes, max_inst))
        },
    }
}

/// The index of the first occurrence of `pc`, if any.
pub open spec fn first_index_spec(s: Seq<PCState>, pc: u64) -> Option<int> {
    if exists|j: int| 0 <= j < s.len() && #[trigger] s[j].value == pc {
        Some(
            choose|j: int|
                0 <= j < s.len() && s[j].value == pc && forall|k: int|
                    0 <= k < j ==> #[trigger] s[k].value != pc,
        )
    } else {
        None
    }
}

proof fn lemma_first_index_none(s: Seq<PCState>, pc: u64)
    requires
        forall|j: int| 0 <= j < s.len() ==> #[trigger] s[j].value != pc,
    ensures
        first_index_spec(s, pc) is None,
{
}

proof fn lemma_first_index_some(s: Seq<PCState>, pc: u64, i: int)
    requires
        0 <= i < s.len(),
        s[i].value == pc,
        forall|j: int| 0 <= j < i ==> #[trigger] s[j].value != pc,
    ensures
        first_index_spec(s, pc) == Some(i),
{
    assert(s[i].value == pc);
    let c = choose|j: int|
        0 <= j < s.len() && s[j].value == pc && forall|k: int| 0 <= k < j ==> #[trigger] s[k].value != pc;
    if c < i {
        assert(s[c].value != pc);
    } else if c > i {
        assert(s[i].value != pc);
    }
}

} // verus!
