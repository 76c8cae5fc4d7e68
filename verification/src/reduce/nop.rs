//! Replacing the instructions that the failing run never executed with
//! no-ops, keeping a window of neighbours around each executed one that is
//! as small as still reproduces the failure.
use std::collections::HashSet;
use vstd::prelude::*;
use vstd::slice::slice_to_vec;

use crate::elf::SectionInfo;
use crate::inst::{halfword_at, inst_fits_at, inst_len_at, inst_len_of, riscv_inst_len};
use crate::reduce::bisect::{upward_closed_in, LeastSearch};
use crate::reduce::{nop_bytes, with_nop, write_nop};

verus! {

/// An instruction of an executable section: its address, its file offset
/// and its length in bytes.
#[derive(Clone, Copy, Debug, PartialEq, Eq, Structural)]
pub struct CodeInst {
    pub pc: u64,
    pub offset: usize,
    pub len: usize,
}

/// The instructions met walking a section from file offset `off` and
/// address `pc`, while two bytes remain before `file_end` and the address
/// is below `vma_end`.
pub open spec fn walk_insts(input: Seq<u8>, off: int, pc: int, file_end: int, vma_end: int) -> Seq<
    CodeInst,
>
    decreases (if file_end >= off {
        file_end - off
    } else {
        0
    }),
{
    if off + 2 <= file_end && pc < vma_end {
        let len: int = if inst_len_of(halfword_at(input, off)) == 4 {
            4
        } else {
            2
        };
        let rest = walk_insts(input, off + len, pc + len, file_end, vma_end);
        seq![CodeInst { pc: pc as u64, offset: off as usize, len: len as usize }] + rest
    } else {
        Seq::empty()
    }
}

/// Every instruction of the walk ends inside the section, and its address
/// stays in 64 bits.
pub open spec fn walk_ok(input: Seq<u8>, off: int, pc: int, file_end: int, vma_end: int) -> bool
    decreases file_end - off,
{
    if off + 2 <= file_end && pc < vma_end {
        let len = inst_len_of(halfword_at(input, off)) as int;
        proof {
            assert(len >= 2);
        }
        &&& off + len <= file_end
        &&& pc + len <= u64::MAX
        &&& walk_ok(input, off + len, pc + len, file_end, vma_end)
    } else {
        true
    }
}

/// The section's bytes lie in the file and its walk goes through.
pub open spec fn section_walk_ok(input: Seq<u8>, section: SectionInfo) -> bool {
    &&& section.offset + section.size <= input.len()
    &&& section.virtual_address + section.size <= u64::MAX
    &&& walk_ok(
        input,
        section.offset as int,
        section.virtual_address as int,
        section.offset + section.size,
        section.virtual_address + section.size,
    )
}

/// Whether the section's bytes lie in `input` and walking its
/// instructions keeps each inside the section and its addresses in 64
/// bits.
pub fn section_walks(input: &[u8], section: &SectionInfo) -> (b: bool)
    ensures
        b == section_walk_ok(input@, *section),
{
    let n = input.len();
    if section.offset > n as u64 || section.size > n as u64 - section.offset {
        return false;
    }
    if section.size > u64::MAX - section.virtual_address {
        return false;
    }
    let file_end = (section.offset + section.size) as usize;
    let vma_end = section.virtual_address + section.size;
    let mut offset = section.offset as usize;
    let mut pc = section.virtual_address;
    while file_end - offset >= 2 && pc < vma_end
        invariant
            n == input@.len(),
            file_end <= n,
            offset <= file_end,
            section.offset + section.size <= input@.len(),
            section.virtual_address + section.size <= u64::MAX,
            file_end == section.offset + section.size,
            vma_end == section.virtual_address + section.size,
            section_walk_ok(input@, *section) == walk_ok(
                input@,
                offset as int,
                pc as int,
                file_end as int,
                vma_end as int,
            ),
        decreases file_end - offset,
    {
        let halfword = (input[offset] as u16) | ((input[offset + 1] as u16) << 8u16);
        let len = riscv_inst_len(halfword);
        assert(halfword == halfword_at(input@, offset as int));
        if len > file_end - offset || len as u64 > u64::MAX - pc {
            return false;
        }
        offset = offset + len;
        pc = pc + len as u64;
    }
    true
}

/// The instructions of the first `n` sections, section after section.
pub open spec fn section_insts(input: Seq<u8>, sections: Seq<SectionInfo>, n: nat) -> Seq<CodeInst>
    decreases n,
{
    if n == 0 {
        Seq::empty()
    } else {
        let s = sections[n - 1];
        section_insts(input, sections, (n - 1) as nat) + walk_insts(
            input,
            s.offset as int,
            s.virtual_address as int,
            s.offset + s.size,
            s.virtual_address + s.size,
        )
    }
}

/// Every instruction of the executable sections, in file order within
/// each section.
pub fn collect_code_insts(input: &[u8], sections: &[SectionInfo]) -> (r: Vec<CodeInst>)
    requires
        forall|k: int| 0 <= k < sections@.len() ==> section_walk_ok(input@, #[trigger] sections@[k]),
        input@.len() + 2 <= usize::MAX,
    ensures
        r@ == section_insts(input@, sections@, sections@.len()),
{
    let mut insts: Vec<CodeInst> = Vec::new();
    let mut k: usize = 0;
    while k < sections.len()
        invariant
            k <= sections@.len(),
            forall|m: int| 0 <= m < sections@.len() ==> section_walk_ok(input@, #[trigger] sections@[m]),
            input@.len() + 2 <= usize::MAX,
            insts@ == section_insts(input@, sections@, k as nat),
        decreases sections@.len() - k,
    {
        let section = sections[k];
        assert(section_walk_ok(input@, sections@[k as int]));
        let input_len = input.len();
        let mut offset = section.offset as usize;
        let mut pc = section.virtual_address;
        let file_end = offset + section.size as usize;
        let vma_end = section.virtual_address + section.size;
        let ghost start = insts@;
        while offset + 2 <= file_end && pc < vma_end
            invariant
                file_end <= input@.len(),
                input@.len() + 2 <= usize::MAX,
                offset <= file_end,
                input_len == input@.len(),
                walk_ok(input@, offset as int, pc as int, file_end as int, vma_end as int),
                start + walk_insts(
                    input@,
                    section.offset as int,
                    section.virtual_address as int,
                    file_end as int,
                    vma_end as int,
                ) == insts@ + walk_insts(
                    input@,
                    offset as int,
                    pc as int,
                    file_end as int,
                    vma_end as int,
                ),
            decreases file_end - offset,
        {
            proof {
                assert(inst_fits_at(input@, offset as int));
            }
            let inst_len = inst_len_at(input, offset);
            let ghost before = insts@;
            insts.push(CodeInst { pc, offset, len: inst_len });
            proof {
                let rest = walk_insts(
                    input@,
                    (offset + inst_len) as int,
                    (pc + inst_len) as int,
                    file_end as int,
                    vma_end as int,
                );
                assert(walk_insts(input@, offset as int, pc as int, file_end as int, vma_end as int)
                    == seq![CodeInst { pc, offset, len: inst_len }] + rest);
                assert(insts@ + rest =~= before + (seq![CodeInst { pc, offset, len: inst_len }]
                    + rest));
            }
            offset = offset + inst_len;
            pc = pc + inst_len as u64;
        }
        proof {
            assert(insts@ =~= insts@ + walk_insts(
                input@,
                offset as int,
                pc as int,
                file_end as int,
                vma_end as int,
            ));
        }
        k += 1;
    }
    insts
}

/// Instruction `i` lies within `window` instructions of instruction `j`
/// (is `j` itself, without a window).
pub open spec fn near(i: int, j: int, window: Option<usize>) -> bool {
    match window {
        None => i == j,
        Some(w) => j - w <= i <= j + w,
    }
}

/// Instruction `i` is kept: it, or an executed instruction within the
/// window of it, was executed.
pub open spec fn kept(insts: Seq<CodeInst>, executed: Set<u64>, window: Option<usize>, i: int) -> bool {
    exists|j: int| 0 <= j < insts.len() && executed.contains(#[trigger] insts[j].pc) && near(i, j, window)
}

/// `input` with every instruction among the first `n` that is not kept
/// replaced by a no-op.
pub open spec fn nop_unkept(
    input: Seq<u8>,
    insts: Seq<CodeInst>,
    executed: Set<u64>,
    window: Option<usize>,
    n: nat,
) -> Seq<u8>
    decreases n,
{
    if n == 0 {
        input
    } else {
        let prev = nop_unkept(input, insts, executed, window, (n - 1) as nat);
        if kept(insts, executed, window, n - 1) {
            prev
        } else {
            with_nop(prev, insts[n - 1].offset as int, insts[n - 1].len as int)
        }
    }
}

/// Instruction `i` occupies file byte `b`.
pub open spec fn in_slot(insts: Seq<CodeInst>, i: int, b: int) -> bool {
    insts[i].offset <= b < insts[i].offset + insts[i].len
}

/// An instruction that is not kept was not executed.
pub proof fn lemma_unkept_not_executed(insts: Seq<CodeInst>, executed: Set<u64>, window: Option<usize>, i: int)
    requires
        0 <= i < insts.len(),
        !kept(insts, executed, window, i),
    ensures
        !executed.contains(insts[i].pc),
{
    if executed.contains(insts[i].pc) {
        assert(near(i, i, window));
    }
}

/// Nopping the unkept instructions keeps the file's length, turns each
/// byte of an unkept instruction's slot into the matching byte of a no-op
/// of the slot's length (NOP or C.NOP), and leaves every other byte as it
/// was, when the slots lie within the file and do not overlap.
pub proof fn lemma_nop_unkept_bytes(
    input: Seq<u8>,
    insts: Seq<CodeInst>,
    executed: Set<u64>,
    window: Option<usize>,
    n: nat,
)
    requires
        n <= insts.len(),
        forall|i: int|
            0 <= i < insts.len() ==> (#[trigger] insts[i].len == 2 || insts[i].len == 4)
                && insts[i].offset + insts[i].len <= input.len(),
        forall|i: int, j: int|
            0 <= i < j < insts.len() ==> #[trigger] insts[i].offset + insts[i].len <= #[trigger] insts[j].offset
                || insts[j].offset + insts[j].len <= insts[i].offset,
    ensures
        nop_unkept(input, insts, executed, window, n).len() == input.len(),
        forall|i: int, b: int|
            0 <= i < n && !kept(insts, executed, window, i) && #[trigger] in_slot(insts, i, b) ==> #[trigger] nop_unkept(
                input,
                insts,
                executed,
                window,
                n,
            )[b] == nop_bytes(insts[i].len as int)[b - insts[i].offset],
        forall|b: int|
            0 <= b < input.len() && (forall|i: int|
                0 <= i < n && #[trigger] in_slot(insts, i, b) ==> kept(insts, executed, window, i))
                ==> #[trigger] nop_unkept(input, insts, executed, window, n)[b] == input[b],
    decreases n,
{
    if n > 0 {
        let j = (n - 1) as int;
        lemma_nop_unkept_bytes(input, insts, executed, window, (n - 1) as nat);
        let prev = nop_unkept(input, insts, executed, window, (n - 1) as nat);
        let cur = nop_unkept(input, insts, executed, window, n);
        if !kept(insts, executed, window, j) {
            let off = insts[j].offset as int;
            let len = insts[j].len as int;
            assert(cur == with_nop(prev, off, len));
            assert(cur.len() == input.len());
            assert forall|b: int| 0 <= b < cur.len() implies #[trigger] cur[b] == (if off <= b < off + len {
                nop_bytes(len)[b - off]
            } else {
                prev[b]
            }) by {
                if b < off {
                    assert(cur[b] == prev.take(off)[b]);
                } else if b < off + len {
                    assert(cur[b] == nop_bytes(len)[b - off]);
                } else {
                    assert(cur[b] == prev.skip(off + len)[b - off - len]);
                }
            }
            assert forall|i: int, b: int|
                0 <= i < n && !kept(insts, executed, window, i) && #[trigger] in_slot(insts, i, b) implies #[trigger] cur[b]
                == nop_bytes(insts[i].len as int)[b - insts[i].offset] by {
                if i < j {
                    assert(!in_slot(insts, j, b));
                }
            }
            assert forall|b: int|
                0 <= b < input.len() && (forall|i: int|
                    0 <= i < n && #[trigger] in_slot(insts, i, b) ==> kept(insts, executed, window, i))
                    implies #[trigger] cur[b] == input[b] by {
                assert(!in_slot(insts, j, b));
                assert forall|i: int| 0 <= i < n - 1 && #[trigger] in_slot(insts, i, b) implies kept(
                    insts,
                    executed,
                    window,
                    i,
                ) by {}
            }
        }
    }
}

/// `input` with the instructions that the run did not execute, and that
/// are not within `keep_window` instructions of one it did, replaced by
/// no-ops.
pub fn build_nopped_input(
    input: &[u8],
    insts: &[CodeInst],
    executed: &HashSet<u64>,
    keep_window: Option<usize>,
) -> (r: Vec<u8>)
    requires
        forall|i: int|
            0 <= i < insts@.len() ==> (#[trigger] insts@[i].len == 2 || insts@[i].len == 4)
                && insts@[i].offset + insts@[i].len <= input@.len(),
        keep_window matches Some(w) ==> w + insts@.len() < usize::MAX,
    ensures
        r@ == nop_unkept(input@, insts@, executed@, keep_window, insts@.len()),
{
    let n = insts.len();
    let mut keep: Vec<bool> = Vec::new();
    let mut i: usize = 0;
    while i < n
        invariant
            i <= n,
            n == insts@.len(),
            keep@.len() == i,
            forall|k: int| 0 <= k < i ==> !#[trigger] keep@[k],
        decreases n - i,
    {
        keep.push(false);
        i += 1;
    }
    let mut idx: usize = 0;
    while idx < n
        invariant
            idx <= n,
            n == insts@.len(),
            keep@.len() == n,
            keep_window matches Some(w) ==> w + insts@.len() < usize::MAX,
            forall|k: int|
                0 <= k < n ==> #[trigger] keep@[k] == exists|j: int|
                    0 <= j < idx && executed@.contains(#[trigger] insts@[j].pc) && near(
                        k,
                        j,
                        keep_window,
                    ),
        decreases n - idx,
    {
        if executed.contains(&insts[idx].pc) {
            let ghost before = keep@;
            match keep_window {
                None => {
                    keep.set(idx, true);
                },
                Some(window) => {
                    let start = if idx >= window {
                        idx - window
                    } else {
                        0
                    };
                    let end = if idx + window + 1 <= n {
                        idx + window + 1
                    } else {
                        n
                    };
                    let mut k = start;
                    while k < end
                        invariant
                            start <= k <= end,
                            end <= n,
                            keep@.len() == n,
                            forall|m: int|
                                0 <= m < n ==> #[trigger] keep@[m] == (before[m] || (start <= m
                                    < k)),
                        decreases end - k,
                    {
                        keep.set(k, true);
                        k += 1;
                    }
                },
            }
            proof {
                assert forall|k: int| 0 <= k < n implies #[trigger] keep@[k] == exists|j: int|
                    0 <= j < idx + 1 && executed@.contains(#[trigger] insts@[j].pc) && near(
                        k,
                        j,
                        keep_window,
                    ) by {
                    if near(k, idx as int, keep_window) {
                        assert(executed@.contains(insts@[idx as int].pc));
                    }
                    if exists|j: int|
                        0 <= j < idx + 1 && executed@.contains(#[trigger] insts@[j].pc) && near(
                            k,
                            j,
                            keep_window,
                        ) {
                        let j = choose|j: int|
                            0 <= j < idx + 1 && executed@.contains(#[trigger] insts@[j].pc) && near(
                                k,
                                j,
                                keep_window,
                            );
                        if j < idx {
                            assert(before[k]);
                        }
                    }
                }
            }
        } else {
            proof {
                assert forall|k: int| 0 <= k < n implies #[trigger] keep@[k] == exists|j: int|
                    0 <= j < idx + 1 && executed@.contains(#[trigger] insts@[j].pc) && near(
                        k,
                        j,
                        keep_window,
                    ) by {
                    if exists|j: int|
                        0 <= j < idx + 1 && executed@.contains(#[trigger] insts@[j].pc) && near(
                            k,
                            j,
                            keep_window,
                        ) {
                        let j = choose|j: int|
                            0 <= j < idx + 1 && executed@.contains(#[trigger] insts@[j].pc) && near(
                                k,
                                j,
                                keep_window,
                            );
                        assert(j != idx);
                    }
                }
            }
        }
        idx += 1;
    }
    let mut output = slice_to_vec(input);
    let mut i: usize = 0;
    while i < n
        invariant
            i <= n,
            n == insts@.len(),
            keep@.len() == n,
            output@.len() == input@.len(),
            forall|k: int| 0 <= k < n ==> #[trigger] keep@[k] == kept(insts@, executed@, keep_window, k),
            forall|k: int|
                0 <= k < insts@.len() ==> (#[trigger] insts@[k].len == 2 || insts@[k].len == 4)
                    && insts@[k].offset + insts@[k].len <= input@.len(),
            output@ == nop_unkept(input@, insts@, executed@, keep_window, i as nat),
        decreases n - i,
    {
        let inst = insts[i];
        assert(inst.len == 2 || inst.len == 4);
        if !keep[i] {
            write_nop(output.as_mut_slice(), inst.offset, inst.len);
        }
        i += 1;
    }
    output
}

/// Where the search for the smallest keep window stands.
#[derive(Clone, Copy, Debug)]
pub enum NopPhase {
    /// Nothing tried: keep only the executed instructions.
    Start,
    /// Growing the window: `high` is tried next; `last_failed` was the
    /// last window that did not reproduce (0 when none was tried).
    Expand { last_failed: usize, high: usize },
    /// Narrowing between the last failing and the first reproducing window.
    Bisect(LeastSearch),
    /// The search ended with this window (`None`: no window needed).
    Found(Option<usize>),
    /// No window up to the number of instructions reproduces.
    Failed,
}

/// What the caller does next.
#[derive(Clone, Copy, Debug, PartialEq, Eq, Structural)]
pub enum NopStep {
    /// Run the input nopped with this window.
    Try(Option<usize>),
    /// The last reproducing input, built with this window, is the result.
    Found(Option<usize>),
    /// Nopping does not reproduce the failure.
    Failed,
}

/// The search for the smallest keep window over `n_insts` instructions.
#[derive(Clone, Copy, Debug)]
pub struct NopSearch {
    pub n_insts: usize,
    pub phase: NopPhase,
}

impl NopSearch {
    pub open spec fn wf(self) -> bool {
        &&& self.n_insts < usize::MAX / 2
        &&& match self.phase {
            NopPhase::Expand { last_failed, high } => last_failed < high && 1 <= high && high
                <= self.n_insts + 1,
            NopPhase::Bisect(s) => s.wf() && s.best is Some && 1 <= s.start_low && s.start_high
                <= self.n_insts + 1,
            _ => true,
        }
    }

    /// The step that `next` returns.
    pub open spec fn step_of(self) -> NopStep {
        match self.phase {
            NopPhase::Start => NopStep::Try(None),
            NopPhase::Expand { high, .. } => NopStep::Try(Some(high)),
            NopPhase::Bisect(s) => if s.low < s.high {
                NopStep::Try(Some(s.mid()))
            } else {
                NopStep::Found(s.best)
            },
            NopPhase::Found(w) => NopStep::Found(w),
            NopPhase::Failed => NopStep::Failed,
        }
    }

    /// The search after the run of `step_of` reproduced or not.
    pub open spec fn stepped(self, reproduced: bool) -> Self {
        match self.phase {
            NopPhase::Start => if reproduced {
                NopSearch { phase: NopPhase::Found(None), ..self }
            } else {
                NopSearch { phase: NopPhase::Expand { last_failed: 0, high: 1 }, ..self }
            },
            NopPhase::Expand { last_failed, high } => if reproduced {
                NopSearch {
                    phase: NopPhase::Bisect(
                        LeastSearch {
                            start_low: (last_failed + 1) as usize,
                            start_high: high,
                            low: (last_failed + 1) as usize,
                            high,
                            best: Some(high),
                        },
                    ),
                    ..self
                }
            } else if high >= self.n_insts {
                NopSearch { phase: NopPhase::Failed, ..self }
            } else {
                NopSearch {
                    phase: NopPhase::Expand {
                        last_failed: high,
                        high: if 2 * high <= self.n_insts {
                            (2 * high) as usize
                        } else {
                            self.n_insts
                        },
                    },
                    ..self
                }
            },
            NopPhase::Bisect(s) => NopSearch { phase: NopPhase::Bisect(s.stepped(reproduced)), ..self },
            _ => self,
        }
    }

    /// A search over `n_insts` instructions that has tried nothing.
    pub fn new(n_insts: usize) -> (s: Self)
        requires
            n_insts < usize::MAX / 2,
        ensures
            s == (NopSearch { n_insts, phase: NopPhase::Start }),
            s.wf(),
    {
        NopSearch { n_insts, phase: NopPhase::Start }
    }

    /// What to do next.
    pub fn next(&self) -> (r: NopStep)
        requires
            self.wf(),
        ensures
            r == self.step_of(),
    {
        match self.phase {
            NopPhase::Start => NopStep::Try(None),
            NopPhase::Expand { high, .. } => NopStep::Try(Some(high)),
            NopPhase::Bisect(s) => match s.next_index() {
                Some(mid) => NopStep::Try(Some(mid)),
                None => NopStep::Found(s.best()),
            },
            NopPhase::Found(w) => NopStep::Found(w),
            NopPhase::Failed => NopStep::Failed,
        }
    }

    /// Records whether the run of the window that `next` asked for
    /// reproduced the failure.
    pub fn record(&mut self, reproduced: bool)
        requires
            old(self).wf(),
            old(self).step_of() is Try,
        ensures
            *final(self) == old(self).stepped(reproduced),
            final(self).wf(),
    {
        match self.phase {
            NopPhase::Start => {
                if reproduced {
                    self.phase = NopPhase::Found(None);
                } else {
                    self.phase = NopPhase::Expand { last_failed: 0, high: 1 };
                }
            },
            NopPhase::Expand { last_failed, high } => {
                if reproduced {
                    self.phase = NopPhase::Bisect(LeastSearch::with_best(last_failed + 1, high));
                } else if high >= self.n_insts {
                    self.phase = NopPhase::Failed;
                } else {
                    let doubled = high * 2;
                    let next_high = if doubled <= self.n_insts {
                        doubled
                    } else {
                        self.n_insts
                    };
                    self.phase = NopPhase::Expand { last_failed: high, high: next_high };
                }
            },
            NopPhase::Bisect(s) => {
                let mut s = s;
                s.record(reproduced);
                self.phase = NopPhase::Bisect(s);
            },
            _ => {},
        }
    }

    /// What the search has learnt holds of `valid` (`valid(-1)` stands for
    /// keeping no window).
    pub open spec fn consistent_with(self, valid: spec_fn(int) -> bool) -> bool {
        match self.phase {
            NopPhase::Start => true,
            NopPhase::Expand { last_failed, .. } => !valid(-1) && forall|w: int|
                1 <= w <= last_failed ==> !#[trigger] valid(w),
            NopPhase::Bisect(s) => !valid(-1) && s.consistent_with(valid) && forall|w: int|
                1 <= w < s.start_low ==> !#[trigger] valid(w),
            NopPhase::Found(None) => valid(-1),
            NopPhase::Found(Some(b)) => !valid(-1) && valid(b as int) && forall|w: int|
                1 <= w < b ==> !#[trigger] valid(w),
            NopPhase::Failed => !valid(-1) && forall|w: int|
                1 <= w <= (if self.n_insts >= 1 {
                    self.n_insts as int
                } else {
                    1
                }) ==> !#[trigger] valid(w),
        }
    }

    /// Each recorded outcome keeps the search consistent with a `valid`
    /// that is upward closed in the window size: the search ends on the
    /// smallest reproducing window.
    pub proof fn lemma_step(self, valid: spec_fn(int) -> bool)
        requires
            self.wf(),
            self.consistent_with(valid),
            self.step_of() is Try,
            upward_closed_in(valid, 1, self.n_insts + 2),
        ensures
            self.stepped(
                valid(
                    match self.step_of() {
                        NopStep::Try(Some(w)) => w as int,
                        _ => -1,
                    },
                ),
            ).consistent_with(valid),
    {
        match self.phase {
            NopPhase::Expand { last_failed, high } => {
                if !valid(high as int) {
                    assert forall|w: int| 1 <= w <= high implies !#[trigger] valid(w) by {
                        if valid(w) {
                            assert(valid(high as int));
                        }
                    }
                }
            },
            NopPhase::Bisect(s) => {
                s.lemma_step(valid);
            },
            _ => {},
        }
    }

    /// A search that ended as found holds the smallest reproducing window.
    pub proof fn lemma_found(self, valid: spec_fn(int) -> bool)
        requires
            self.wf(),
            self.consistent_with(valid),
            self.step_of() matches NopStep::Found(Some(b)),
        ensures
            self.step_of() matches NopStep::Found(Some(b)) && valid(b as int) && !valid(-1)
                && forall|w: int| 1 <= w < b ==> !#[trigger] valid(w),
    {
        match self.phase {
            NopPhase::Bisect(s) => {
                s.lemma_done(valid);
            },
            _ => {},
        }
    }
}

} // verus!
