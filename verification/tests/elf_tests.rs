use cpusbfl::reduce::nop::section_walks;
use cpusbfl::elf::{
    align_up, check_added_segment, check_insert_request, reduced_section_content,
    section_contains_range, section_vma2offset, ElfError, ElfLayout, LoadSegment, SectionInfo,
};

fn layout(segments: Vec<LoadSegment>) -> ElfLayout {
    ElfLayout { load_segments: segments, executable_sections: Vec::new(), page_size: 0x1000 }
}

fn seg(vaddr: u64, size: u64) -> LoadSegment {
    LoadSegment { virtual_address: vaddr, virtual_size: size, physical_size: size }
}

#[test]
fn align_up_rounds_to_multiple() {
    assert_eq!(align_up(5, 4), Ok(8));
    assert_eq!(align_up(8, 4), Ok(8));
    assert_eq!(align_up(7, 1), Ok(7));
    assert_eq!(align_up(7, 0), Ok(7));
    assert_eq!(
        align_up(u64::MAX, 16),
        Err(ElfError::AlignOverflow { value: u64::MAX, align: 16 })
    );
}

#[test]
fn insert_address_in_gap_between_segments() {
    let l = layout(vec![seg(0x10000, 0x800), seg(0x20000, 0x1000)]);
    assert_eq!(l.find_insert_vaddr(0x1000, 0x1000), Ok(0x11000));
}

#[test]
fn insert_address_after_last_segment() {
    let l = layout(vec![seg(0x20000, 0x1000), seg(0x10000, 0xf800)]);
    assert_eq!(l.find_insert_vaddr(0x1000, 0x1000), Ok(0x21000));
}

#[test]
fn insert_without_segments_and_empty_size() {
    let l = layout(vec![]);
    assert_eq!(l.find_insert_vaddr(0x10, 0x1000), Ok(0));
    assert_eq!(l.find_insert_vaddr(0, 0x1000), Err(ElfError::EmptySize));
}

#[test]
fn mapped_size_and_overlap() {
    let l = layout(vec![seg(0x10000, 0x1000)]);
    assert_eq!(l.code_segment_mapped_size(1), Ok(0x1000));
    assert_eq!(l.code_segment_mapped_size(0), Err(ElfError::EmptyCode));
    assert_eq!(l.vaddr_range_overlaps_load_segment(0x10800, 0x10), Ok(true));
    assert_eq!(l.vaddr_range_overlaps_load_segment(0x11000, 0x10), Ok(false));
    assert_eq!(l.plan_code_segment(0x20, 0x11000), Ok(0x1000));
    assert_eq!(
        l.plan_code_segment(0x20, 0x10000),
        Err(ElfError::Overlap { start: 0x10000, end: 0x11000 })
    );
}

#[test]
fn patch_must_be_file_backed() {
    let l = layout(vec![LoadSegment { virtual_address: 0x1000, virtual_size: 0x2000, physical_size: 0x100 }]);
    assert_eq!(l.check_patch_vaddr(0x1000, 0), Ok(false));
    assert_eq!(l.check_patch_vaddr(0x1010, 4), Ok(true));
    assert_eq!(
        l.check_patch_vaddr(0x1200, 4),
        Err(ElfError::PatchNotFileBacked { start: 0x1200, end: 0x1204 })
    );
}

#[test]
fn insert_request_and_added_segment_checks() {
    assert_eq!(check_insert_request(0, 0x1000, 0x1000), Err(ElfError::EmptyCode));
    assert_eq!(
        check_insert_request(4, 0x1004, 0x1000),
        Err(ElfError::Misaligned { vaddr: 0x1004, align: 0x1000 })
    );
    assert_eq!(check_insert_request(4, 0x2000, 0x1000), Ok(()));
    assert_eq!(check_added_segment(0x2000, 0x1000, 0x2000, 0x10, 0x1000), Ok(()));
    assert_eq!(
        check_added_segment(0x2000, 0x1000, 0x3000, 0x10, 0x1000),
        Err(ElfError::SegmentMoved { expected: 0x2000, actual: 0x3000 })
    );
}

#[test]
fn section_content_is_zeroed_past_new_size() {
    assert_eq!(reduced_section_content(&[1, 2, 3, 4], 4, 2), Ok(vec![1, 2, 0, 0]));
    assert_eq!(
        reduced_section_content(&[1, 2, 3, 4], 4, 5),
        Err(ElfError::SectionGrows { old_size: 4, new_size: 5 })
    );
    assert_eq!(
        reduced_section_content(&[1, 2], 4, 2),
        Err(ElfError::ContentTooShort { size: 4, content_len: 2 })
    );
}

#[test]
fn section_ranges_and_offsets() {
    let s = SectionInfo { virtual_address: 0x8000_0000, offset: 0x1000, size: 0x100 };
    assert!(section_contains_range(&s, 0x8000_0000, 0x8000_0004));
    assert!(!section_contains_range(&s, 0x8000_00fe, 0x8000_0102));
    assert_eq!(section_vma2offset(&s, 0x8000_0010, 0x8000_0014), Some(0x1010));
    assert_eq!(section_vma2offset(&s, 0x7fff_fffc, 0x8000_0000), None);
}

#[test]
fn sections_are_checked_against_the_input() {
    let bytes = [0x13, 0x00, 0x00, 0x00, 0x01, 0x00, 0x13, 0x00];
    let whole = SectionInfo { virtual_address: 0x1000, offset: 0, size: 6 };
    assert!(section_walks(&bytes, &whole));
    // The 4-byte instruction at offset 6 runs past a section ending at 8.
    let tail = SectionInfo { virtual_address: 0x2000, offset: 4, size: 4 };
    assert!(!section_walks(&bytes, &tail));
    let outside = SectionInfo { virtual_address: 0x1000, offset: 4, size: 8 };
    assert!(!section_walks(&bytes, &outside));
    let layout = ElfLayout { load_segments: vec![], executable_sections: vec![whole], page_size: 0x1000 };
    assert!(layout.fits_input(&bytes));
    let layout = ElfLayout { load_segments: vec![], executable_sections: vec![tail], page_size: 0x1000 };
    assert!(!layout.fits_input(&bytes));
}
