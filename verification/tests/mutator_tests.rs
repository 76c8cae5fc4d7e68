use std::collections::HashSet;

use cpusbfl::cli::{parse_positive_u64, parse_positive_usize, PositiveIntError};
use cpusbfl::elf::SectionInfo;
use cpusbfl::mutator::{
    apply_site, candidate_weight, distinct_pcs, fill_random_bytes, isqrt, merge_mutated_pcs,
    mutation_sites, mutation_window, place_rebuilt_elf, LastInstMutator, LastWindowMutator,
    MutationOutcome, MutationSite, MutationStrategy, MutatorError,
};
use cpusbfl::state_tracker::{PCState, StateTracker};
use libafl_bolts::rands::RomuDuoJrRand;

fn pc_tracker(pcs: &[u64]) -> StateTracker<PCState> {
    let mut t = StateTracker::new("PCState");
    t.update_from_states(pcs.iter().map(|&value| PCState { value }).collect());
    t
}

fn site(pc: u64, offset: usize, len: usize) -> MutationSite {
    MutationSite { pc, offset, len }
}

#[test]
fn window_is_last_distinct_pcs() {
    let t = pc_tracker(&[1, 2, 1, 3, 4]);
    assert_eq!(mutation_window(&t, 2), Ok(vec![3, 4]));
    assert_eq!(mutation_window(&t, 10), Ok(vec![1, 2, 3, 4]));
    assert_eq!(mutation_window(&t, 0), Err(MutatorError::ZeroWindow));
    assert_eq!(mutation_window(&pc_tracker(&[]), 3), Err(MutatorError::EmptyTrace));
    assert_eq!(distinct_pcs(&[5, 6, 5, 7, 6]), vec![5, 6, 7]);
}

#[test]
fn sites_read_instruction_lengths() {
    // A 4-byte `addi x0, x0, 0`, then a compressed `c.nop`.
    let bytes = [0x13, 0x00, 0x00, 0x00, 0x01, 0x00];
    let sites = mutation_sites(&bytes, &[0x100, 0x104], &[0, 4]);
    assert_eq!(sites, vec![site(0x100, 0, 4), site(0x104, 4, 2)]);
}

#[test]
fn weights_follow_strategy() {
    assert_eq!(candidate_weight(MutationStrategy::Uniform, 1, 3), Some(1));
    assert_eq!(candidate_weight(MutationStrategy::TailLinear, 1, 3), Some(2));
    assert_eq!(candidate_weight(MutationStrategy::TailQuadratic, 2, 3), Some(9));
    assert_eq!(candidate_weight(MutationStrategy::HeadLinear, 0, 3), Some(3));
    assert_eq!(candidate_weight(MutationStrategy::HeadQuadratic, 1, 3), Some(4));
    assert_eq!(candidate_weight(MutationStrategy::TailQuadratic, usize::MAX - 1, usize::MAX), None);
    assert_eq!(MutationStrategy::default(), MutationStrategy::Uniform);
}

#[test]
fn integer_square_root() {
    assert_eq!(isqrt(0), 0);
    assert_eq!(isqrt(8), 2);
    assert_eq!(isqrt(9), 3);
    assert_eq!(isqrt(u64::MAX), 0xffff_ffff);
}

#[test]
fn tickets_are_dealt_by_weight() {
    let sites = vec![site(0x10, 0, 4), site(0x14, 4, 4), site(0x18, 8, 4)];
    let m = LastWindowMutator::new(&sites, MutationStrategy::TailLinear).unwrap();
    assert_eq!(m.iters(), 1);
    let picks: Vec<Option<usize>> = (0..7).map(|t| m.pick_candidate_idx(t)).collect();
    assert_eq!(picks, vec![Some(0), Some(1), Some(1), Some(2), Some(2), Some(2), Some(0)]);
    assert_eq!(LastWindowMutator::new(&[], MutationStrategy::Uniform).err(), Some(MutatorError::NoCandidates));
    let many: Vec<MutationSite> = (0..9).map(|i| site(i, 0, 2)).collect();
    assert_eq!(LastWindowMutator::new(&many, MutationStrategy::Uniform).unwrap().iters(), 3);
    assert_eq!(LastWindowMutator::new(&many[..8], MutationStrategy::Uniform).unwrap().iters(), 2);
}

#[test]
fn random_bytes_fill_little_endian() {
    let mut bytes = [0u8; 6];
    fill_random_bytes(&mut bytes, 1, 5, &[0x0807_0605_0403_0201, 0xaa], 4);
    assert_eq!(bytes, [0, 1, 2, 3, 4, 0xaa]);
}

#[test]
fn candidate_rewrite_and_post_exec() {
    let sites = vec![site(0x10, 0, 4), site(0x14, 4, 2)];
    let mut m = LastWindowMutator::new(&sites, MutationStrategy::Uniform).unwrap();
    let mut input = vec![0u8; 6];
    m.apply_candidate(1, &mut input, &[0xbeef]);
    assert_eq!(input, vec![0, 0, 0, 0, 0xef, 0xbe]);
    let parent: HashSet<u64> = [9].into_iter().collect();
    let kept = m.post_exec(true, parent.clone()).unwrap();
    assert_eq!(kept, [9, 0x14].into_iter().collect());
    assert_eq!(m.post_exec(true, parent), None);
}

#[test]
fn drawn_mutation_touches_only_candidates() {
    let sites = vec![site(0x10, 2, 4), site(0x14, 8, 2)];
    let mut m = LastWindowMutator::new(&sites, MutationStrategy::HeadLinear).unwrap();
    assert!(m.candidates_fit(10));
    assert!(!m.candidates_fit(9));
    let mut rand = RomuDuoJrRand::with_seed(7);
    let mut input = vec![0x55u8; 12];
    assert_eq!(m.mutate(&mut input, &mut rand), MutationOutcome::Mutated);
    for i in [0, 1, 6, 7, 10, 11] {
        assert_eq!(input[i], 0x55);
    }
    let kept = m.post_exec(true, HashSet::new()).unwrap();
    assert!(!kept.is_empty());
    assert!(kept.iter().all(|pc| *pc == 0x10 || *pc == 0x14));
    assert_eq!(m.post_exec(false, HashSet::new()), None);
}

#[test]
fn merging_mutated_pcs() {
    let parent: HashSet<u64> = [1, 2].into_iter().collect();
    assert_eq!(merge_mutated_pcs(parent, &[2, 3, 3]), [1, 2, 3].into_iter().collect());
}

#[test]
fn sites_outside_input_are_skipped() {
    let mut input = vec![0u8; 4];
    assert!(apply_site(&mut input, site(0x10, 2, 2), &[0x1122]));
    assert_eq!(input, vec![0, 0, 0x22, 0x11]);
    assert!(!apply_site(&mut input, site(0x10, 3, 2), &[0x3344]));
    assert_eq!(input, vec![0, 0, 0x22, 0x11]);
}

#[test]
fn last_instruction_mutator() {
    let text = SectionInfo { virtual_address: 0x1000, offset: 0, size: 8 };
    // Offset 4 holds a 4-byte instruction; offset 6 starts with bytes of a 4-byte one too.
    let bytes = [0x01, 0x00, 0x01, 0x00, 0x13, 0x00, 0x13, 0x00, 0x00, 0x00];
    let m = LastInstMutator::new(&bytes, Some(text), 0x1004).unwrap();
    let mut input = bytes.to_vec();
    assert_eq!(m.mutate_with(&mut input, 0x0403_0201), MutationOutcome::Mutated);
    assert_eq!(&input[4..8], &[1, 2, 3, 4]);
    assert_eq!(&input[..4], &bytes[..4]);
    let mut short = vec![0u8; 6];
    assert_eq!(m.mutate_with(&mut short, 1), MutationOutcome::Skipped);
    assert_eq!(short, vec![0u8; 6]);
    assert_eq!(
        LastInstMutator::new(&bytes, Some(text), 0x1006).err(),
        Some(MutatorError::NotInText { pc: 0x1006, len: 4 })
    );
    assert_eq!(LastInstMutator::new(&bytes, None, 0x1004).err(), Some(MutatorError::NoTextSection));
    assert_eq!(
        LastInstMutator::new(&bytes, Some(text), 0x2000).err(),
        Some(MutatorError::Unmapped { pc: 0x2000 })
    );
    let mut rand = RomuDuoJrRand::with_seed(3);
    let mut drawn = bytes.to_vec();
    assert_eq!(m.mutate(&mut drawn, &mut rand), MutationOutcome::Mutated);
    assert_eq!(&drawn[..4], &bytes[..4]);
    assert_eq!(&drawn[8..], &bytes[8..]);
}

#[test]
fn rebuilt_elf_is_zero_padded() {
    let mut input = vec![9u8; 5];
    assert_eq!(place_rebuilt_elf(&mut input, &[1, 2, 3]), Ok(()));
    assert_eq!(input, vec![1, 2, 3, 0, 0]);
    assert_eq!(
        place_rebuilt_elf(&mut input, &[1; 6]),
        Err(MutatorError::RebuiltTooLarge { rebuilt: 6, original: 5 })
    );
    assert_eq!(input, vec![1, 2, 3, 0, 0]);
}

#[test]
fn positive_counts() {
    assert_eq!(parse_positive_u64("5"), Ok(5));
    assert_eq!(parse_positive_u64("+3"), Ok(3));
    assert_eq!(parse_positive_u64("0"), Err(PositiveIntError::Zero));
    assert_eq!(parse_positive_u64(""), Err(PositiveIntError::Invalid));
    assert_eq!(parse_positive_u64("-1"), Err(PositiveIntError::Invalid));
    assert_eq!(parse_positive_u64("12a"), Err(PositiveIntError::Invalid));
    assert_eq!(parse_positive_u64("18446744073709551615"), Ok(u64::MAX));
    assert_eq!(parse_positive_u64("18446744073709551616"), Err(PositiveIntError::Invalid));
    assert_eq!(parse_positive_usize("20"), Ok(20));
    assert_eq!(parse_positive_usize("00"), Err(PositiveIntError::Zero));
}
