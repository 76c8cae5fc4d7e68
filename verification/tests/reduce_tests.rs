use std::collections::HashSet;

use cpusbfl::elf::{ElfLayout, LoadSegment, SectionInfo};
use cpusbfl::reduce::bisect::{GreatestSearch, LeastSearch};
use cpusbfl::reduce::cover::{
    common_prefix_len, init_cover_target, max_prefix_len_preserving_suffix_nop,
    nopped_at_offsets, pass_cover_decide, pass_cover_start, pc_appears_more_than_once,
    suffix_pcs, PassCoverDecision,
};
use cpusbfl::reduce::nop::{build_nopped_input, collect_code_insts, CodeInst, NopSearch, NopStep};
use cpusbfl::reduce::strip_prefix::{
    collect_context_restore_plan, collect_memory_bytes, mstatus_with_mpp,
    nop_skipped_prefix_insts, strip_irrelevant_prefix, write_bytes, PrefixStep,
};
use cpusbfl::reduce::strip_suffix::{
    first_dynamic_entries, insts_to_failure_after_jal, strip_irrelevant_suffix,
};
use cpusbfl::reduce::trim::{max_pc, trim_after_max_pc};
use cpusbfl::reduce::{is_same_failure_site, write_nop, ExitStatus};
use cpusbfl::inst::{memory_write, MemoryByte, MemoryWidth};
use cpusbfl::state_tracker::{
    ArchIntRegState, CSRState, PCState, StateTracker, StateTrackers,
};

fn names() -> Vec<String> {
    vec!["PCState".to_string(), "ArchIntRegState".to_string(), "CSRState".to_string()]
}

fn csr(privilege_mode: u64, mstatus: u64) -> CSRState {
    CSRState {
        privilege_mode,
        mstatus,
        sstatus: 0,
        mepc: 0,
        sepc: 0,
        mtval: 0,
        stval: 0,
        mtvec: 0,
        stvec: 0,
        mcause: 0,
        scause: 0,
        satp: 0,
        mip: 0,
        mie: 0,
        mscratch: 0,
        sscratch: 0,
        mideleg: 0,
        medeleg: 0,
    }
}

fn trackers(pcs: &[u64]) -> StateTrackers {
    let mut t = StateTrackers::new(names());
    t.pc_tracker.update_from_states(pcs.iter().map(|&value| PCState { value }).collect());
    t.arch_int_reg_tracker
        .update_from_states(pcs.iter().map(|_| ArchIntRegState { value: [0; 32] }).collect());
    t.csr_tracker.update_from_states(pcs.iter().map(|_| csr(3, 0)).collect());
    t
}

fn pc_tracker(pcs: &[u64]) -> StateTracker<PCState> {
    let mut t = StateTracker::new("PCState");
    t.update_from_states(pcs.iter().map(|&value| PCState { value }).collect());
    t
}

#[test]
fn failure_site_needs_crash_at_same_pc() {
    let a = trackers(&[0x100, 0x104]);
    let b = trackers(&[0x200, 0x104]);
    let c = trackers(&[0x100, 0x108]);
    assert!(is_same_failure_site(ExitStatus::Crash, &b, &a));
    assert!(!is_same_failure_site(ExitStatus::Success, &b, &a));
    assert!(!is_same_failure_site(ExitStatus::Crash, &c, &a));
    assert!(!is_same_failure_site(ExitStatus::Crash, &trackers(&[]), &a));
}

#[test]
fn nop_overwrites_instruction() {
    let mut bytes = [0xffu8; 8];
    write_nop(&mut bytes, 2, 2);
    assert_eq!(bytes, [0xff, 0xff, 0x01, 0x00, 0xff, 0xff, 0xff, 0xff]);
    write_nop(&mut bytes, 4, 4);
    assert_eq!(bytes, [0xff, 0xff, 0x01, 0x00, 0x13, 0x00, 0x00, 0x00]);
}

#[test]
fn least_search_finds_smallest_reproducing_index() {
    let mut s = LeastSearch::new(0, 10);
    while let Some(mid) = s.next_index() {
        s.record(mid >= 6);
    }
    assert_eq!(s.best(), Some(6));
    let mut none = LeastSearch::new(0, 10);
    while let Some(_) = none.next_index() {
        none.record(false);
    }
    assert_eq!(none.best(), None);
}

#[test]
fn greatest_search_finds_largest_reproducing_index() {
    let mut s = GreatestSearch::new(0, 10);
    while let Some(mid) = s.next_index() {
        s.record(mid <= 3);
    }
    assert_eq!(s.best(), Some(3));
}

#[test]
fn trim_search_settles_on_smallest_section_size() {
    let pcs = [0x8000_0000, 0x8000_0008, 0x8000_0004];
    let t = trackers(&pcs);
    let mut input = vec![0u8; 0x200];
    for k in (0x100..0x200).step_by(4) {
        input[k] = 0x13;
    }
    let layout = ElfLayout {
        load_segments: vec![],
        executable_sections: vec![SectionInfo { virtual_address: 0x8000_0000, offset: 0x100, size: 0x100 }],
        page_size: 0x1000,
    };
    assert_eq!(max_pc(t.pc_tracker.as_slice()), Some(0x8000_0008));
    let mut search = trim_after_max_pc(&input, &layout, &t).unwrap();
    assert_eq!(search.section_index, 0);
    assert_eq!(search.start_low, 0xc);
    assert_eq!(search.start_high, 0x100);
    while let Some(size) = search.next_size() {
        search.record(size >= 0x40);
    }
    assert_eq!(search.best(), Some(0x40));
}

#[test]
fn code_insts_walk_sections() {
    let input = [0x13, 0, 0, 0, 0x01, 0x00, 0x13, 0, 0, 0];
    let sections = [SectionInfo { virtual_address: 0x100, offset: 0, size: 10 }];
    let insts = collect_code_insts(&input, &sections);
    assert_eq!(
        insts,
        vec![
            CodeInst { pc: 0x100, offset: 0, len: 4 },
            CodeInst { pc: 0x104, offset: 4, len: 2 },
            CodeInst { pc: 0x106, offset: 6, len: 4 },
        ]
    );
}

#[test]
fn nopped_input_keeps_executed_and_window() {
    let input = vec![0xff; 12];
    let insts = vec![
        CodeInst { pc: 0x100, offset: 0, len: 4 },
        CodeInst { pc: 0x104, offset: 4, len: 4 },
        CodeInst { pc: 0x108, offset: 8, len: 4 },
    ];
    let executed: HashSet<u64> = [0x100].into_iter().collect();
    let out = build_nopped_input(&input, &insts, &executed, None);
    assert_eq!(&out[0..4], &[0xff; 4]);
    assert_eq!(&out[4..8], &[0x13, 0, 0, 0]);
    assert_eq!(&out[8..12], &[0x13, 0, 0, 0]);
    let out = build_nopped_input(&input, &insts, &executed, Some(1));
    assert_eq!(&out[4..8], &[0xff; 4]);
    assert_eq!(&out[8..12], &[0x13, 0, 0, 0]);
}

#[test]
fn nop_search_expands_then_bisects() {
    let mut s = NopSearch::new(100);
    let mut tried = Vec::new();
    loop {
        match s.next() {
            NopStep::Try(w) => {
                tried.push(w);
                let ok = matches!(w, Some(k) if k >= 5);
                s.record(ok);
            }
            NopStep::Found(w) => {
                assert_eq!(w, Some(5));
                break;
            }
            NopStep::Failed => panic!("search failed"),
        }
    }
    assert_eq!(&tried[..5], &[None, Some(1), Some(2), Some(4), Some(8)]);
}

#[test]
fn nop_search_fails_when_no_window_reproduces() {
    let mut s = NopSearch::new(3);
    loop {
        match s.next() {
            NopStep::Try(_) => s.record(false),
            NopStep::Found(_) => panic!("nothing reproduces"),
            NopStep::Failed => break,
        }
    }
}

#[test]
fn cover_helpers() {
    let t = pc_tracker(&[1, 2, 3, 2, 4]);
    assert!(pc_appears_more_than_once(&t, 2));
    assert!(!pc_appears_more_than_once(&t, 3));
    let s = suffix_pcs(&t, 3);
    assert_eq!(s, [2, 4].into_iter().collect());
    let init = pc_tracker(&[1, 2, 3, 9]);
    let mutated: HashSet<u64> = [3].into_iter().collect();
    assert_eq!(common_prefix_len(&init, &t, &mutated), 2);
    assert_eq!(common_prefix_len(&init, &t, &HashSet::new()), 3);
    assert_eq!(max_prefix_len_preserving_suffix_nop(&t, 4), 4);
    assert_eq!(max_prefix_len_preserving_suffix_nop(&t, 3), 1);
    assert_eq!(max_prefix_len_preserving_suffix_nop(&pc_tracker(&[1, 2, 3, 4]), 2), 2);
}

#[test]
fn pass_cover_decisions() {
    let pass = pc_tracker(&[1, 2, 3, 4]);
    let init = pc_tracker(&[1, 2, 3, 9]);
    assert_eq!(pass_cover_start(&init, &pass, &None), None);
    assert_eq!(pass_cover_start(&init, &pass, &Some(HashSet::new())), None);
    assert_eq!(pass_cover_start(&init, &pass, &Some([7].into_iter().collect())), Some(3));
    assert_eq!(pass_cover_decide(&pass, 3, ExitStatus::Success), PassCoverDecision::Subtract);
    assert_eq!(pass_cover_decide(&pass, 3, ExitStatus::Crash), PassCoverDecision::Retry(2));
    assert_eq!(pass_cover_decide(&pass, 1, ExitStatus::Crash), PassCoverDecision::GiveUp);
}

#[test]
fn init_cover_target_is_unique_last_pc() {
    assert_eq!(init_cover_target(&trackers(&[1, 2, 3])), Some((3, 2)));
    assert_eq!(init_cover_target(&trackers(&[3, 2, 3])), None);
    assert_eq!(init_cover_target(&trackers(&[3])), None);
}

#[test]
fn nopping_at_offsets() {
    let input = [0xffu8, 0xff, 0x13, 0x00, 0x00, 0x00];
    let out = nopped_at_offsets(&input, &[2]);
    assert_eq!(out, vec![0xff, 0xff, 0x13, 0x00, 0x00, 0x00]);
    let input = [0x13u8, 0x01, 0xff, 0xff];
    let out = nopped_at_offsets(&input, &[0]);
    assert_eq!(out, vec![0x13, 0x00, 0x00, 0x00]);
}

#[test]
fn suffix_plan_candidates() {
    let t = trackers(&[0x100, 0x104, 0x100, 0x108, 0x10a, 0x10c]);
    let entries = first_dynamic_entries(&t.pc_tracker);
    assert_eq!(entries, vec![(0, 0x100), (1, 0x104), (3, 0x108), (4, 0x10a), (5, 0x10c)]);
    let plan = strip_irrelevant_suffix(&t);
    assert_eq!(plan.failure_pc, 0x10c);
    assert_eq!(plan.candidates, vec![0x100, 0x104, 0x108]);
    assert_eq!(plan.search.next_index(), Some(1));
    assert_eq!(insts_to_failure_after_jal(&t.pc_tracker, 0x104), 3);
}

#[test]
fn mpp_field_is_replaced() {
    assert_eq!(mstatus_with_mpp(0x1800, 0), 0);
    assert_eq!(mstatus_with_mpp(0xffff, 1), 0xefff);
    assert_eq!(mstatus_with_mpp(0, 3), 0x1800);
}

#[test]
fn memory_write_bytes_are_little_endian() {
    let mut memory = std::collections::BTreeMap::new();
    write_bytes(&mut memory, memory_write(0x10, 0x1122_3344, MemoryWidth::Half));
    assert_eq!(memory.len(), 2);
    assert_eq!(memory[&0x10], 0x44);
    assert_eq!(memory[&0x11], 0x33);
}

#[test]
fn memory_bytes_read_after_prefix_are_restored() {
    // Entry 0 stores x3 (a word) at x2 + 0; entry 1 loads it back.
    let sw = cpusbfl::inst::encode_store(2, 3, 0, 2).to_le_bytes();
    let lw: u32 = (2 << 15) | (2 << 12) | (5 << 7) | 0x03;
    let mut input = Vec::new();
    input.extend_from_slice(&sw);
    input.extend_from_slice(&lw.to_le_bytes());
    let mut t = trackers(&[0x100, 0x104]);
    let mut regs = [0u64; 32];
    regs[2] = 0x2000;
    regs[3] = 0xaabb_ccdd;
    t.arch_int_reg_tracker.update_from_states(vec![
        ArchIntRegState { value: regs },
        ArchIntRegState { value: regs },
    ]);
    let bytes = collect_memory_bytes(&input, &[0, 4], &t, 1).unwrap();
    assert_eq!(
        bytes,
        vec![
            MemoryByte { addr: 0x2000, value: 0xdd },
            MemoryByte { addr: 0x2001, value: 0xcc },
            MemoryByte { addr: 0x2002, value: 0xbb },
            MemoryByte { addr: 0x2003, value: 0xaa },
        ]
    );
    assert_eq!(collect_memory_bytes(&input, &[0, 4], &t, 0).unwrap(), vec![]);
}

#[test]
fn restored_bytes_are_last_stores_read_before_overwrite() {
    // 0: sw x3 at x2; 1: sb x4 at x2 + 1; kept part from 2: sb x4 at x2 + 2,
    // then lw from x2.
    let mut input = Vec::new();
    input.extend_from_slice(&cpusbfl::inst::encode_store(2, 3, 0, 2).to_le_bytes());
    input.extend_from_slice(&cpusbfl::inst::encode_store(2, 4, 1, 0).to_le_bytes());
    input.extend_from_slice(&cpusbfl::inst::encode_store(2, 4, 2, 0).to_le_bytes());
    let lw: u32 = (2 << 15) | (2 << 12) | (5 << 7) | 0x03;
    input.extend_from_slice(&lw.to_le_bytes());
    let mut t = trackers(&[0x100, 0x104, 0x108, 0x10c]);
    let mut regs = [0u64; 32];
    regs[2] = 0x2000;
    regs[3] = 0xaabb_ccdd;
    regs[4] = 0x11;
    t.arch_int_reg_tracker.update_from_states(vec![ArchIntRegState { value: regs }; 4]);
    let bytes = collect_memory_bytes(&input, &[0, 4, 8, 12], &t, 2).unwrap();
    assert_eq!(
        bytes,
        vec![
            MemoryByte { addr: 0x2000, value: 0xdd },
            MemoryByte { addr: 0x2001, value: 0x11 },
            MemoryByte { addr: 0x2003, value: 0xaa },
        ]
    );
}

#[test]
fn restore_plan_lists_changed_registers_and_csrs() {
    let nop = [0x13u8, 0, 0, 0];
    let input: Vec<u8> = nop.iter().cycle().take(12).copied().collect();
    let mut t = trackers(&[0x100, 0x104, 0x108]);
    let mut r1 = [0u64; 32];
    r1[7] = 42;
    t.arch_int_reg_tracker.update_from_states(vec![
        ArchIntRegState { value: [0; 32] },
        ArchIntRegState { value: r1 },
        ArchIntRegState { value: r1 },
    ]);
    t.csr_tracker.update_from_states(vec![csr(3, 0), csr(3, 0), csr(1, 0x80)]);
    let plan = collect_context_restore_plan(&t, &input, &[0, 4, 8], 2).unwrap();
    assert_eq!(plan.regs, vec![(7, 42)]);
    assert_eq!(plan.csrs, vec![(0x300, 0x80)]);
    assert_eq!(plan.scratches, [(7, 42), (1, 0)]);
    assert!(plan.privilege_changed);
    assert_eq!(plan.target_privilege, 1);
    assert!(plan.memory_bytes.is_empty());
}

#[test]
fn prefix_nops_skip_pcs_of_the_rest() {
    let input = vec![0xffu8; 12];
    let t = trackers(&[0x100, 0x104, 0x108, 0x104]);
    let mut bytes = input.clone();
    nop_skipped_prefix_insts(&mut bytes, &input, &[0, 4, 8, 4], &t, 3);
    assert_eq!(&bytes[0..8], &[0xff; 8]);
    // 0xffff.. halfword has low bits 11: a 4-byte instruction.
    assert_eq!(&bytes[8..12], &[0x13, 0, 0, 0]);
}

#[test]
fn prefix_search_tries_last_then_bisects() {
    let pcs: Vec<u64> = (0..30).map(|k| 0x100 + 4 * k).collect();
    let t = trackers(&pcs);
    let mut s = strip_irrelevant_prefix(&t).unwrap();
    assert_eq!(s.candidates.len(), 10);
    assert_eq!(s.candidates[0], (20, 0x100 + 80));
    assert_eq!(s.next(), PrefixStep::Try(9));
    loop {
        match s.next() {
            PrefixStep::Try(k) => s.record(k <= 4),
            PrefixStep::Done(k) => {
                assert_eq!(k, Some(4));
                break;
            }
        }
    }
    assert!(strip_irrelevant_prefix(&trackers(&pcs[..20])).is_none());
}

#[test]
fn layout_segments_unused_here() {
    let l = ElfLayout { load_segments: vec![LoadSegment { virtual_address: 0, virtual_size: 0x1000, physical_size: 0x1000 }], executable_sections: vec![], page_size: 0x1000 };
    assert_eq!(l.find_insert_vaddr(0x10, 0x1000), Ok(0x1000));
}
