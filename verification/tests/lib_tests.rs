use cpusbfl::state_tracker::{tracker_kind, TrackerKind};
use cpusbfl::block::{
    blocks_from_nodes, child_scopes, first_occurrences, line_from_offset, Block, BlockType,
    CircuitType, DataFlowBlock, InstanceEvent, ModuleNode, PortDirection,
};
use cpusbfl::bugloc::{
    check_rtl_args, find_point_block, find_str, parse_cover_point_name, parse_u32, PointNameError,
};
use cpusbfl::checkpoint::{
    check_session, check_session_header, check_version, decode_checkpoint, encode_checkpoint,
    testcase_file_stem, validate_config,
    CheckpointConfig, CheckpointError, HEADER_LEN, MAGIC,
};
use cpusbfl::cli::{split_extra_args, starts_with_dash};
use cpusbfl::coverage::{
    accumulate_bits, covered_count, AnyCoverage, Coverage, CoverageKind, Coverages,
};
use cpusbfl::feedback::{PassedFeedback, PassedMetadata, PassedObserver, PASSEDFEEDBACK_PREFIX};
use cpusbfl::fuzzer::{check_run_config, complete_iteration, CaseMetadata, RunConfigError};
use cpusbfl::pc_trace::PCTrace;
use cpusbfl::reduce::ExitStatus;
use cpusbfl::selection::{MatrixError, PackedDistanceMatrix};
use cpusbfl::spectrum::{calculate_coverage_stats, CoverageStats, SpectrumMetric};
use cpusbfl::state_tracker::{
    contains_name, str_eq, ArchIntRegState, CSRState, PCState, StateTracker, StateTrackers,
};

fn strings(items: &[&str]) -> Vec<String> {
    items.iter().map(|s| s.to_string()).collect()
}

#[test]
fn checkpoint_roundtrip_through_zstd() {
    let payload = b"corpus entries, serialized".to_vec();
    let file = encode_checkpoint(&payload);
    assert_eq!(&file[..MAGIC.len()], &MAGIC[..]);
    assert!(file.len() >= HEADER_LEN);
    assert_ne!(&file[HEADER_LEN..], &payload[..]);
    assert_eq!(decode_checkpoint(&file).unwrap(), payload);
}

#[test]
fn checkpoint_errors() {
    assert_eq!(decode_checkpoint(b"SBFL"), Err(CheckpointError::NotCheckpoint));
    let mut not_magic = encode_checkpoint(b"x");
    not_magic[0] ^= 1;
    assert_eq!(decode_checkpoint(&not_magic), Err(CheckpointError::NotCheckpoint));
    let mut corrupt = encode_checkpoint(b"payload");
    corrupt.truncate(HEADER_LEN);
    corrupt.extend_from_slice(b"not a zstd frame");
    assert_eq!(decode_checkpoint(&corrupt), Err(CheckpointError::Corrupt));
    let mut tampered = encode_checkpoint(b"payload");
    tampered[MAGIC.len()] ^= 0xff;
    let payload = decode_checkpoint(&tampered).unwrap();
    assert_eq!(payload, b"payload".to_vec());
    assert_eq!(
        check_session_header(&tampered, &payload, 0, 1),
        Err(CheckpointError::ChecksumMismatch)
    );
}

#[test]
fn checkpoint_of_empty_payload_reads_back() {
    let file = encode_checkpoint(b"");
    assert!(file.len() > HEADER_LEN);
    assert_eq!(decode_checkpoint(&file).unwrap(), Vec::<u8>::new());
}

#[test]
fn restored_session_checks() {
    let file = encode_checkpoint(b"session");
    let mut tampered = file.clone();
    tampered[MAGIC.len() + 3] ^= 1;
    assert_eq!(check_session_header(&file, b"session", 0, 1), Ok(()));
    assert_eq!(check_session_header(&file, b"session", 3, 1), Err(CheckpointError::TrailingData));
    assert_eq!(check_session_header(&file, b"session", 3, 2), Err(CheckpointError::TrailingData));
    // Trailing data is reported before a digest mismatch, which comes
    // before the version.
    assert_eq!(
        check_session_header(&tampered, b"session", 3, 2),
        Err(CheckpointError::TrailingData)
    );
    assert_eq!(
        check_session_header(&tampered, b"session", 0, 2),
        Err(CheckpointError::ChecksumMismatch)
    );
    assert_eq!(
        check_session_header(&file, b"other", 0, 1),
        Err(CheckpointError::ChecksumMismatch)
    );
    assert_eq!(
        check_session_header(&file, b"session", 0, 2),
        Err(CheckpointError::UnsupportedVersion { version: 2 })
    );
    assert_eq!(check_session(false, 4), Ok(()));
    assert_eq!(check_session(true, 4), Err(CheckpointError::InitialPassed));
    assert_eq!(check_session(true, 0), Err(CheckpointError::InitialPassed));
    assert_eq!(check_session(false, 0), Err(CheckpointError::EmptyCorpus));
}

#[test]
fn checkpoint_version_and_config() {
    assert_eq!(check_version(1), Ok(()));
    assert_eq!(check_version(2), Err(CheckpointError::UnsupportedVersion { version: 2 }));
    let saved = CheckpointConfig {
        coverage: "line".to_string(),
        state: "PCState".to_string(),
        tracker_window_size: 32,
    };
    assert_eq!(validate_config(&saved, &saved.clone()), Ok(()));
    let mut other = saved.clone();
    other.tracker_window_size = 16;
    assert_eq!(validate_config(&saved, &other), Err(CheckpointError::ConfigMismatch));
    let mut other = saved.clone();
    other.coverage = "toggle".to_string();
    assert_eq!(validate_config(&saved, &other), Err(CheckpointError::ConfigMismatch));
}

#[test]
fn testcase_names_are_md5_hex() {
    assert_eq!(testcase_file_stem(b""), b"d41d8cd98f00b204e9800998ecf8427e".to_vec());
    assert_eq!(testcase_file_stem(b"abc"), b"900150983cd24fb0d6963f7d28e17f72".to_vec());
}

#[test]
fn extra_args_split_at_first_option() {
    let (w, e) = split_extra_args(strings(&["a.elf", "b.elf", "-x", "c"]));
    assert_eq!(w, strings(&["a.elf", "b.elf"]));
    assert_eq!(e, strings(&["-x", "c"]));
    let (w, e) = split_extra_args(strings(&["a.elf"]));
    assert_eq!(w, strings(&["a.elf"]));
    assert!(e.is_empty());
    let (w, e) = split_extra_args(strings(&["--flag"]));
    assert!(w.is_empty());
    assert_eq!(e, strings(&["--flag"]));
    assert!(!starts_with_dash(""));
    assert!(starts_with_dash("-"));
}

#[test]
fn packed_matrix_lookup() {
    let m = PackedDistanceMatrix::new(3, vec![10, 20, 30]).unwrap();
    assert_eq!(m.size(), 3);
    assert_eq!(m.get(0, 1), Some(10));
    assert_eq!(m.get(0, 2), Some(20));
    assert_eq!(m.get(1, 2), Some(30));
    assert_eq!(m.get(2, 1), Some(30));
    assert_eq!(m.get(1, 1), None);
    assert_eq!(
        PackedDistanceMatrix::new(3, vec![1, 2]).err(),
        Some(MatrixError::InvalidLength { expected: 3, got: 2 })
    );
    assert_eq!(
        PackedDistanceMatrix::<u8>::new(usize::MAX, vec![]).err(),
        Some(MatrixError::SizeOverflow { size: usize::MAX })
    );
    assert_eq!(PackedDistanceMatrix::<u8>::new(1, vec![]).unwrap().size(), 1);
}

fn case_with_hits(hits: &[u8], is_passed: bool) -> CaseMetadata {
    let mut covers = Coverages::new(&strings(&["line"]), &[1], &[hits.len()]);
    match covers.get_mut("line") {
        AnyCoverage::U8(c) => c.as_mut_slice().copy_from_slice(hits),
        _ => panic!("one-byte coverage expected"),
    }
    CaseMetadata {
        covers,
        state_trackers: StateTrackers::new(vec![]),
        is_passed,
        mutated_pcs: None,
    }
}

#[test]
fn spectrum_counts_each_point() {
    let cases = vec![case_with_hits(&[1, 0, 3], false), case_with_hits(&[2, 5, 0], true)];
    let stats = calculate_coverage_stats("line", 3, &cases);
    assert_eq!(stats[0], CoverageStats { ef: 1, ep: 1, nf: 0, np: 0 });
    assert_eq!(stats[1], CoverageStats { ef: 0, ep: 1, nf: 1, np: 0 });
    assert_eq!(stats[2], CoverageStats { ef: 1, ep: 0, nf: 0, np: 1 });
    assert_eq!(SpectrumMetric::default(), SpectrumMetric::Ochiai);
}

#[test]
fn run_config_checks() {
    assert_eq!(check_run_config(0, None, true, false), Err(RunConfigError::ZeroIterations));
    assert_eq!(check_run_config(10, Some(0), true, false), Err(RunConfigError::ZeroCheckpointInterval));
    assert_eq!(check_run_config(10, None, true, true), Err(RunConfigError::InitAndResume));
    assert_eq!(check_run_config(10, None, false, false), Err(RunConfigError::NoInitNorResume));
    assert_eq!(check_run_config(10, Some(5), false, true), Ok(()));
    assert_eq!(complete_iteration(4, 5), Some((5, true)));
    assert_eq!(complete_iteration(5, 5), Some((6, false)));
    assert_eq!(complete_iteration(u64::MAX, 5), None);
    let mut completed = 7u64;
    let mut due = Vec::new();
    for _ in 0..10 {
        let (n, d) = complete_iteration(completed, 4).unwrap();
        completed = n;
        if d {
            due.push(n);
        }
    }
    assert_eq!(completed, 17);
    assert_eq!(due, vec![8, 12, 16]);
}

#[test]
fn lines_from_offsets() {
    let code = b"a\nb\nc";
    assert_eq!(line_from_offset(code, 0), Some(1));
    assert_eq!(line_from_offset(code, 1), Some(1));
    assert_eq!(line_from_offset(code, 2), Some(2));
    assert_eq!(line_from_offset(code, 5), Some(3));
    assert_eq!(line_from_offset(code, 6), None);
}

fn sample_nodes() -> Vec<ModuleNode> {
    vec![
        ModuleNode::AnsiPortNet { direction: Some(PortDirection::Input), lines: vec![1] },
        ModuleNode::AnsiPortVariable { direction: None, lines: vec![2] },
        ModuleNode::AnsiPortNet { direction: Some(PortDirection::Inout), lines: vec![3] },
        ModuleNode::AnsiPortNet { direction: None, lines: vec![4] },
        ModuleNode::Always { circuit: CircuitType::SEQ, lines: vec![5, 6, 5] },
        ModuleNode::NetAssignment { lines: vec![7] },
        ModuleNode::NetDeclaration { assignment_lines: None },
        ModuleNode::NetDeclaration { assignment_lines: Some(vec![8]) },
        ModuleNode::AnsiPortNet { direction: Some(PortDirection::Output), lines: vec![9] },
    ]
}

#[test]
fn blocks_follow_module_nodes() {
    let blocks = blocks_from_nodes("core", "top.core", &sample_nodes());
    let kinds: Vec<BlockType> = blocks.iter().map(|b| *b.block_type()).collect();
    assert_eq!(
        kinds,
        vec![
            BlockType::ModuleInput,
            BlockType::ModuleInput,
            BlockType::Always(CircuitType::SEQ),
            BlockType::Assign,
            BlockType::Assign,
            BlockType::ModuleOutput,
        ]
    );
    let bids: Vec<u64> = blocks.iter().map(|b| b.bid()).collect();
    assert_eq!(bids, vec![0, 1, 2, 3, 4, 5]);
    assert_eq!(blocks[2].line_ranges(), vec![5, 6]);
    assert_eq!(blocks[1].line_ranges(), vec![2]);
    assert_eq!(blocks[4].line_ranges(), vec![8]);
    assert_eq!(blocks[0].module_name(), "core");
    assert_eq!(blocks[0].scope(), "top.core");
}

#[test]
fn block_lines_are_recorded_once() {
    let mut b = DataFlowBlock::new(7, "m", "top", BlockType::Assign);
    b.add_line(3);
    b.add_line(3);
    b.add_line(4);
    assert_eq!(b.line_ranges(), vec![3, 4]);
    assert_eq!(b.bid(), 7);
}

#[test]
fn cover_point_names() {
    assert_eq!(
        parse_cover_point_name("cond lineno: 12 , column: 3, hier:  top.core "),
        Ok((12, "top.core"))
    );
    assert_eq!(parse_cover_point_name("cond column: 3"), Err(PointNameError::MissingLineno));
    assert_eq!(parse_cover_point_name("lineno: 12"), Err(PointNameError::MissingColumn));
    assert_eq!(
        parse_cover_point_name("lineno: x1, column: 2, hier: a"),
        Err(PointNameError::InvalidLineno)
    );
    assert_eq!(parse_cover_point_name("lineno: 5, column: 2"), Err(PointNameError::MissingHier));
    assert_eq!(find_str("abcabc", "ca"), Some(2));
    assert_eq!(find_str("abc", "d"), None);
    assert_eq!(parse_u32("42"), Some(42));
    assert_eq!(parse_u32("+7"), Some(7));
    assert_eq!(parse_u32(""), None);
    assert_eq!(parse_u32("4294967295"), Some(u32::MAX));
    assert_eq!(parse_u32("4294967296"), None);
}

fn instance(module: &str, name: &str) -> InstanceEvent {
    InstanceEvent::Instance { module: module.to_string(), name: name.to_string() }
}

fn enter(name: &str) -> InstanceEvent {
    InstanceEvent::EnterGenerate { name: name.to_string() }
}

#[test]
fn child_scopes_follow_generate_blocks() {
    let events = vec![
        instance("alu", "u_alu"),
        enter("gen_lane"),
        enter("lane0"),
        instance("fpu", "u_fpu"),
        InstanceEvent::LeaveGenerate,
        instance("lsu", "u_lsu"),
        InstanceEvent::LeaveGenerate,
        InstanceEvent::LeaveGenerate,
        instance("csr", "u_csr"),
    ];
    let scopes = child_scopes("top.core", &events);
    assert_eq!(
        scopes,
        vec![
            ("top.core.u_alu".to_string(), "alu".to_string()),
            ("top.core.gen_lane.lane0.u_fpu".to_string(), "fpu".to_string()),
            ("top.core.gen_lane.u_lsu".to_string(), "lsu".to_string()),
            ("top.core.u_csr".to_string(), "csr".to_string()),
        ]
    );
    assert!(child_scopes("top", &[]).is_empty());
}

#[test]
fn child_scopes_skip_empty_prefix() {
    let events = vec![enter(""), instance("alu", "u_alu")];
    assert_eq!(
        child_scopes("top", &events),
        vec![("top.u_alu".to_string(), "alu".to_string())]
    );
}

#[test]
fn first_occurrences_keep_best_rank() {
    let keys = vec![
        ("top.core".to_string(), 3),
        ("top.core".to_string(), 1),
        ("top.core".to_string(), 3),
        ("top.lsu".to_string(), 3),
        ("top.core".to_string(), 1),
    ];
    assert_eq!(first_occurrences(&keys), vec![true, true, false, true, false]);
    assert!(first_occurrences(&[]).is_empty());
}

#[test]
fn point_blocks_skip_ports() {
    let blocks = blocks_from_nodes("core", "top.core", &sample_nodes());
    assert_eq!(find_point_block(&blocks, "top.core", 6), Some(2));
    assert_eq!(find_point_block(&blocks, "top.core", 8), Some(4));
    assert_eq!(find_point_block(&blocks, "top.core", 1), None);
    assert_eq!(find_point_block(&blocks, "top.other", 6), None);
    assert_eq!(check_rtl_args(true, true, true, true), Some(true));
    assert_eq!(check_rtl_args(false, false, false, false), Some(false));
    assert_eq!(check_rtl_args(true, false, true, true), None);
}

#[test]
fn passed_feedback_and_observer() {
    let mut f = PassedFeedback::new();
    assert_eq!(f.name(), PASSEDFEEDBACK_PREFIX);
    assert!(f.is_interesting(ExitStatus::Crash));
    assert_eq!(f.append_metadata(), Some(PassedMetadata { is_passed: false }));
    assert_eq!(f.append_metadata(), None);
    assert!(f.is_interesting(ExitStatus::Success));
    assert_eq!(f.append_metadata(), Some(PassedMetadata { is_passed: true }));
    let mut o = PassedObserver::new("passed");
    assert_eq!(o.name(), "passed");
    o.post_exec(ExitStatus::Success);
    assert_eq!(o.passed(), Some(true));
    o.pre_exec();
    assert_eq!(o.passed(), None);
    o.post_exec(ExitStatus::Other);
    assert_eq!(o.passed(), Some(false));
}

#[test]
fn coverage_points_and_subtraction() {
    let mut c = Coverage::<u8>::new(3);
    assert_eq!(c.len(), 3);
    c.as_mut_slice()[1] = 5;
    c.as_mut_slice()[2] = 1;
    assert_eq!(c.covered_bits(), vec![false, true, true]);
    assert_eq!(c.covered_counts(), vec![0, 5, 1]);
    let mut d = Coverage::<u8>::new(3);
    d.as_mut_slice()[1] = 2;
    d.as_mut_slice()[2] = 4;
    assert_eq!(c.saturating_sub(&d).covered_counts(), vec![0, 3, 0]);
    let any = AnyCoverage::new(CoverageKind::Bool, 2);
    assert_eq!(any.len(), 2);
    assert_eq!(any.covered_bits(), vec![false, false]);
}

#[test]
fn coverages_by_name() {
    let mut covers = Coverages::new(&strings(&["a", "b"]), &[8, 1], &[2, 3]);
    assert_eq!(covers.len(), 2);
    assert_eq!(covers.names(), strings(&["a", "b"]));
    assert!(matches!(covers.get("a"), AnyCoverage::U64(_)));
    assert!(matches!(covers.get("b"), AnyCoverage::U8(_)));
    assert_eq!(covers.get("b").len(), 3);
    assert_eq!(covers.find("z"), None);
    if let AnyCoverage::U64(c) = covers.get_mut("a") {
        c.as_mut_slice()[0] = 9;
    }
    let mut base = Coverages::new(&strings(&["a"]), &[8], &[2]);
    if let AnyCoverage::U64(c) = base.get_mut("a") {
        c.as_mut_slice()[0] = 4;
    }
    let diff = covers.saturating_sub(&base);
    assert_eq!(diff.get("a").covered_counts(), vec![5, 0]);
    assert_eq!(diff.get("b").covered_counts(), vec![0, 0, 0]);
    let mut acc = vec![false, true, false];
    accumulate_bits(&mut acc, &[true, false]);
    assert_eq!(acc, vec![true, true, false]);
    assert_eq!(covered_count(&acc), 2);
}

fn c0_state() -> CSRState {
    CSRState {
        privilege_mode: 3,
        mstatus: 0,
        sstatus: 0,
        mepc: 0,
        sepc: 0,
        mtval: 0,
        stval: 0,
        mtvec: 0,
        stvec: 0,
        mcause: 0,
        scause: 0,
        satp: 0,
        mip: 0,
        mie: 0,
        mscratch: 0,
        sscratch: 0,
        mideleg: 0,
        medeleg: 0,
    }
}

#[test]
fn state_differences() {
    let a = ArchIntRegState { value: [0; 32] };
    let mut b = a;
    b.value[3] = 1;
    b.value[31] = 2;
    assert_eq!(a.differing_regs(&b), 2);
    let c0 = c0_state();
    let mut c1 = c0;
    c1.mepc = 4;
    c1.satp = 5;
    assert_eq!(c0.differing_fields(&c1), 2);
    assert!(str_eq("PCState", "PCState"));
    assert!(!str_eq("PCState", "PC"));
    assert!(contains_name(&strings(&["PCState", "CSRState"]), "CSRState"));
    assert!(!contains_name(&strings(&["PCState"]), "CSRState"));
}

#[test]
fn trackers_windows() {
    let mut t = StateTracker::new("PCState");
    t.update_from_states(vec![PCState { value: 1 }, PCState { value: 2 }, PCState { value: 3 }]);
    assert_eq!(t.name(), "PCState");
    assert_eq!(t.len(), 3);
    assert_eq!(t.without_first(2).as_slice(), &[PCState { value: 3 }]);
    let mut all = StateTrackers::new(strings(&["PCState", "ArchIntRegState"]));
    all.pc_tracker = t;
    all.arch_int_reg_tracker.update_from_states(vec![ArchIntRegState { value: [0; 32] }; 3]);
    assert_eq!(all.len(), 3);
    assert_eq!(all.last_window(10).csr_tracker.len(), 0);
    let csr = c0_state();
    all.csr_tracker.update_from_states(vec![csr; 3]);
    let w = all.last_window(2);
    assert_eq!(w.pc_tracker.as_slice(), &[PCState { value: 2 }, PCState { value: 3 }]);
    assert_eq!(all.last_window(10).pc_tracker.len(), 3);
    let mut trace = PCTrace::new();
    trace.update_from_pcs(&[0x80000000, 0x80000004]);
    assert_eq!(trace.len(), 2);
    assert_eq!(trace.as_slice(), &[0x80000000, 0x80000004]);
}

#[test]
fn tracker_names_map_to_kinds() {
    assert_eq!(tracker_kind("PCState"), Some(TrackerKind::Pc));
    assert_eq!(tracker_kind("ArchIntRegState"), Some(TrackerKind::ArchIntReg));
    assert_eq!(tracker_kind("CSRState"), Some(TrackerKind::Csr));
    assert_eq!(tracker_kind("MemState"), None);
}

#[test]
fn coverages_iterate_in_order() {
    let covers = Coverages::new(&strings(&["a", "b"]), &[1, 8], &[1, 2]);
    let names: Vec<String> = covers.iter().map(|(n, _)| n.clone()).collect();
    assert_eq!(names, strings(&["a", "b"]));
    let lens: Vec<usize> = covers.into_iter().map(|(_, c)| c.len()).collect();
    assert_eq!(lens, vec![1, 2]);
}

#[test]
fn repeated_coverage_name_keeps_last_sizes() {
    let covers = Coverages::new(&strings(&["a", "a"]), &[8, 1], &[2, 3]);
    assert_eq!(covers.len(), 1);
    assert!(matches!(covers.get("a"), AnyCoverage::U8(_)));
    assert_eq!(covers.get("a").covered_counts(), vec![0, 0, 0]);
}
