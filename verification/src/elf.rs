//! The layout of an ELF file as the reductions see it: its LOAD segments,
//! its executable sections and its page size, with the address arithmetic
//! that places, patches and trims code.
use vstd::prelude::*;

verus! {

/// A `PT_LOAD` program header.
#[derive(Clone, Copy, Debug, PartialEq, Eq, Structural)]
pub struct LoadSegment {
    pub virtual_address: u64,
    pub virtual_size: u64,
    pub physical_size: u64,
}

/// An executable `PROGBITS` section: where it is mapped, where its bytes
/// start in the file, and how many there are.
#[derive(Clone, Copy, Debug, PartialEq, Eq, Structural)]
pub struct SectionInfo {
    pub virtual_address: u64,
    pub offset: u64,
    pub size: u64,
}

/// Why an address computation on the layout was refused.
#[derive(Clone, Copy, Debug, PartialEq, Eq, Structural)]
pub enum ElfError {
    AlignOverflow { value: u64, align: u64 },
    SegmentOverflow { start: u64, size: u64 },
    EmptySize,
    CandidateOverflow { candidate: u64, size: u64 },
    EmptyCode,
    ZeroPageSize,
    PatchOverflow { start: u64, size: u64 },
    PatchNotFileBacked { start: u64, end: u64 },
    RangeOverflow { start: u64, size: u64 },
    Misaligned { vaddr: u64, align: u64 },
    Overlap { start: u64, end: u64 },
    SectionGrows { old_size: u64, new_size: u64 },
    ContentTooShort { size: u64, content_len: u64 },
    SegmentMoved { expected: u64, actual: u64 },
    SegmentExpanded { reserved: u64, file_size: u64, mem_size: u64 },
}

/// The segments, executable sections and page size of one ELF file.
#[derive(Clone, Debug)]
pub struct ElfLayout {
    pub load_segments: Vec<LoadSegment>,
    pub executable_sections: Vec<SectionInfo>,
    pub page_size: u64,
}

// ---------------------------------------------------------------------------
// Alignment.
// ---------------------------------------------------------------------------

/// `value` rounded up to a multiple of `align` (an `align` of 0 or 1 leaves
/// it unchanged), or the overflow.
pub open spec fn align_up_spec(value: u64, align: u64) -> Result<u64, ElfError> {
    if align <= 1 || value % align == 0 {
        Ok(value)
    } else if value + (align - value % align) > u64::MAX {
        Err(ElfError::AlignOverflow { value, align })
    } else {
        Ok((value + (align - value % align)) as u64)
    }
}

/// A rounded-up value is a multiple of the alignment.
pub proof fn lemma_align_up_aligned(value: u64, align: u64)
    requires
        align > 1,
    ensures
        align_up_spec(value, align) matches Ok(v) ==> v % align == 0,
{
    if value % align != 0 && value + (align - value % align) <= u64::MAX {
        let rem = value % align;
        assert((value + (align - rem)) % (align as int) == 0) by (nonlinear_arith)
            requires
                rem == value % align,
                align > 1,
        {
            assert(value == align * (value / align) + rem);
            assert(value + (align - rem) == align * (value / align + 1));
        }
    }
}

proof fn lemma_insert_scan_aligned(segs: Seq<LoadSegment>, i: nat, cursor: u64, size: u64, align: u64)
    requires
        align > 1,
    ensures
        insert_scan(segs, i, cursor, size, align) matches Ok(v) ==> v % align == 0,
    decreases segs.len() - i,
{
    lemma_align_up_aligned(cursor, align);
    if i < segs.len() {
        match segment_end_spec(segs[i as int]) {
            None => {},
            Some(next_end) => {
                let c = if cursor >= next_end {
                    cursor
                } else {
                    next_end
                };
                lemma_insert_scan_aligned(segs, i + 1, c, size, align);
            },
        }
    }
}

/// Every address `find_insert_vaddr` returns is aligned.
pub proof fn lemma_find_insert_aligned(segments: Seq<LoadSegment>, size: u64, align: u64)
    requires
        align > 1,
    ensures
        find_insert_spec(segments, size, align) matches Ok(v) ==> v % align == 0,
{
    let sorted = sort_by_vaddr(segments);
    if size != 0 && sorted.len() != 0 {
        match segment_end_spec(sorted[0]) {
            None => {},
            Some(end) => lemma_insert_scan_aligned(sorted, 1, end, size, align),
        }
    } else {
        assert(0int % (align as int) == 0) by (nonlinear_arith)
            requires
                align > 1,
        ;
    }
}

/// Rounds `value` up to the next multiple of `align`.
pub fn align_up(value: u64, align: u64) -> (r: Result<u64, ElfError>)
    ensures
        r == align_up_spec(value, align),
        r matches Ok(v) ==> (value <= v && v - value < (if align <= 1 {
            1
        } else {
            align as int
        }) && (align > 1 ==> v % align == 0)),
{
    if align <= 1 {
        return Ok(value);
    }
    let rem = value % align;
    if rem == 0 {
        return Ok(value);
    }
    match value.checked_add(align - rem) {
        Some(v) => {
            assert((value + (align - rem)) % (align as int) == 0) by (nonlinear_arith)
                requires
                    rem == value % align,
                    align > 1,
            {
                assert(value == align * (value / align) + rem);
                assert(value + (align - rem) == align * (value / align + 1));
            }
            Ok(v)
        },
        None => Err(ElfError::AlignOverflow { value, align }),
    }
}

// ---------------------------------------------------------------------------
// Segments.
// ---------------------------------------------------------------------------

/// The end of a segment's mapped range, if it fits in 64 bits.
pub open spec fn segment_end_spec(segment: LoadSegment) -> Option<u64> {
    if segment.virtual_address + segment.virtual_size <= u64::MAX {
        Some((segment.virtual_address + segment.virtual_size) as u64)
    } else {
        None
    }
}

/// The end of the segment's mapped range.
pub fn segment_vaddr_end(segment: &LoadSegment) -> (r: Result<u64, ElfError>)
    ensures
        r == (match segment_end_spec(*segment) {
            Some(end) => Ok(end),
            None => Err(
                ElfError::SegmentOverflow {
                    start: segment.virtual_address,
                    size: segment.virtual_size,
                },
            ),
        }),
{
    match segment.virtual_address.checked_add(segment.virtual_size) {
        Some(end) => Ok(end),
        None => Err(
            ElfError::SegmentOverflow {
                start: segment.virtual_address,
                size: segment.virtual_size,
            },
        ),
    }
}

/// `x` placed into the vaddr-sorted `sorted` after every segment that does
/// not start above it.
pub open spec fn insert_by_vaddr(sorted: Seq<LoadSegment>, x: LoadSegment) -> Seq<LoadSegment>
    decreases sorted.len(),
{
    if sorted.len() == 0 {
        seq![x]
    } else if sorted.last().virtual_address <= x.virtual_address {
        sorted.push(x)
    } else {
        insert_by_vaddr(sorted.drop_last(), x).push(sorted.last())
    }
}

/// The segments in order of start address; segments that start at the same
/// address keep their order.
pub open spec fn sort_by_vaddr(s: Seq<LoadSegment>) -> Seq<LoadSegment>
    decreases s.len(),
{
    if s.len() == 0 {
        s
    } else {
        insert_by_vaddr(sort_by_vaddr(s.drop_last()), s.last())
    }
}

proof fn lemma_insert_at(sorted: Seq<LoadSegment>, x: LoadSegment, p: int)
    requires
        0 <= p <= sorted.len(),
        forall|k: int| p <= k < sorted.len() ==> sorted[k].virtual_address > x.virtual_address,
        p > 0 ==> sorted[p - 1].virtual_address <= x.virtual_address,
    ensures
        insert_by_vaddr(sorted, x) == sorted.take(p) + seq![x] + sorted.skip(p),
    decreases sorted.len(),
{
    if sorted.len() == 0 {
        assert(sorted.take(p) + seq![x] + sorted.skip(p) =~= seq![x]);
    } else if p == sorted.len() {
        assert(sorted.take(p) + seq![x] + sorted.skip(p) =~= sorted.push(x));
    } else {
        lemma_insert_at(sorted.drop_last(), x, p);
        assert(sorted.drop_last().take(p) =~= sorted.take(p));
        assert(sorted.take(p) + seq![x] + sorted.skip(p) =~= (sorted.drop_last().take(p) + seq![x]
            + sorted.drop_last().skip(p)).push(sorted.last()));
    }
}

/// The segments of `segments` sorted by start address, stably.
fn sorted_by_vaddr(segments: &Vec<LoadSegment>) -> (r: Vec<LoadSegment>)
    ensures
        r@ == sort_by_vaddr(segments@),
{
    let mut sorted: Vec<LoadSegment> = Vec::new();
    let mut i: usize = 0;
    while i < segments.len()
        invariant
            i <= segments@.len(),
            sorted@ == sort_by_vaddr(segments@.take(i as int)),
        decreases segments@.len() - i,
    {
        let x = segments[i];
        let mut p = sorted.len();
        while p > 0 && sorted[p - 1].virtual_address > x.virtual_address
            invariant
                p <= sorted@.len(),
                forall|k: int| p <= k < sorted@.len() ==> sorted@[k].virtual_address > x.virtual_address,
            decreases p,
        {
            p -= 1;
        }
        let ghost before = sorted@;
        proof {
            lemma_insert_at(sorted@, x, p as int);
            assert(segments@.take(i + 1).drop_last() =~= segments@.take(i as int));
        }
        sorted.insert(p, x);
        assert(sorted@ =~= before.take(p as int) + seq![x] + before.skip(p as int));
        i += 1;
    }
    proof {
        assert(segments@.take(i as int) =~= segments@);
    }
    sorted
}

/// The scan of `find_insert_vaddr` from the `i`-th sorted segment on, with
/// `cursor` the furthest end seen so far.
pub open spec fn insert_scan(segs: Seq<LoadSegment>, i: nat, cursor: u64, size: u64, align: u64) -> Result<
    u64,
    ElfError,
>
    decreases segs.len() - i,
{
    if i >= segs.len() {
        align_up_spec(cursor, align)
    } else {
        let next = segs[i as int];
        match segment_end_spec(next) {
            None => Err(
                ElfError::SegmentOverflow { start: next.virtual_address, size: next.virtual_size },
            ),
            Some(next_end) => match align_up_spec(cursor, align) {
                Err(e) => Err(e),
                Ok(candidate) => if candidate + size > u64::MAX {
                    Err(ElfError::CandidateOverflow { candidate, size })
                } else if candidate + size <= next.virtual_address {
                    Ok(candidate)
                } else {
                    insert_scan(
                        segs,
                        i + 1,
                        if cursor >= next_end {
                            cursor
                        } else {
                            next_end
                        },
                        size,
                        align,
                    )
                },
            },
        }
    }
}

/// The first aligned address, after the first LOAD segment, where `size`
/// bytes fit before the next segment, or after the last one.
pub open spec fn find_insert_spec(segments: Seq<LoadSegment>, size: u64, align: u64) -> Result<
    u64,
    ElfError,
> {
    if size == 0 {
        Err(ElfError::EmptySize)
    } else {
        let sorted = sort_by_vaddr(segments);
        if sorted.len() == 0 {
            Ok(0)
        } else {
            match segment_end_spec(sorted[0]) {
                None => Err(
                    ElfError::SegmentOverflow {
                        start: sorted[0].virtual_address,
                        size: sorted[0].virtual_size,
                    },
                ),
                Some(end) => insert_scan(sorted, 1, end, size, align),
            }
        }
    }
}

/// `[v, v + size)` and the range a segment maps do not meet.
pub open spec fn clear_of(v: u64, size: u64, seg: LoadSegment) -> bool {
    v + size <= seg.virtual_address || seg.virtual_address + seg.virtual_size <= v
}

/// The segments are in order of start address.
pub open spec fn ascending_vaddr(s: Seq<LoadSegment>) -> bool {
    forall|i: int, j: int| 0 <= i <= j < s.len() ==> s[i].virtual_address <= s[j].virtual_address
}

proof fn lemma_insert_by_vaddr(sorted: Seq<LoadSegment>, x: LoadSegment)
    requires
        ascending_vaddr(sorted),
    ensures
        ascending_vaddr(insert_by_vaddr(sorted, x)),
        insert_by_vaddr(sorted, x).len() == sorted.len() + 1,
        forall|y: LoadSegment|
            #[trigger] insert_by_vaddr(sorted, x).contains(y) <==> (sorted.contains(y) || y == x),
    decreases sorted.len(),
{
    let r = insert_by_vaddr(sorted, x);
    if sorted.len() == 0 {
        assert(r == seq![x]);
        assert forall|y: LoadSegment| r.contains(y) <==> (sorted.contains(y) || y == x) by {
            if r.contains(y) {
                let i = choose|i: int| 0 <= i < r.len() && r[i] == y;
            }
            if y == x {
                assert(r[0] == x);
            }
        }
    } else if sorted.last().virtual_address <= x.virtual_address {
        assert(r == sorted.push(x));
        assert forall|y: LoadSegment| r.contains(y) <==> (sorted.contains(y) || y == x) by {
            if r.contains(y) {
                let i = choose|i: int| 0 <= i < r.len() && r[i] == y;
                if i < sorted.len() {
                    assert(sorted[i] == y);
                }
            }
            if sorted.contains(y) {
                let i = choose|i: int| 0 <= i < sorted.len() && sorted[i] == y;
                assert(r[i] == y);
            }
            if y == x {
                assert(r[sorted.len() as int] == x);
            }
        }
        assert forall|i: int, j: int| 0 <= i <= j < r.len() implies r[i].virtual_address
            <= r[j].virtual_address by {
            if j == sorted.len() && i < j {
                assert(sorted[i].virtual_address <= sorted[sorted.len() - 1].virtual_address);
            }
        }
    } else {
        let d = sorted.drop_last();
        let last = sorted.last();
        assert(ascending_vaddr(d)) by {
            assert forall|i: int, j: int| 0 <= i <= j < d.len() implies d[i].virtual_address
                <= d[j].virtual_address by {
                assert(d[i] == sorted[i] && d[j] == sorted[j]);
            }
        }
        lemma_insert_by_vaddr(d, x);
        let r0 = insert_by_vaddr(d, x);
        assert(r == r0.push(last));
        assert forall|k: int| 0 <= k < r0.len() implies r0[k].virtual_address <= last.virtual_address by {
            assert(r0.contains(r0[k]));
            if r0[k] != x {
                assert(d.contains(r0[k]));
                let i = choose|i: int| 0 <= i < d.len() && d[i] == r0[k];
                assert(sorted[i] == d[i]);
            }
        }
        assert forall|y: LoadSegment| r.contains(y) <==> (sorted.contains(y) || y == x) by {
            if r.contains(y) {
                let i = choose|i: int| 0 <= i < r.len() && r[i] == y;
                if i < r0.len() {
                    assert(r0[i] == y);
                    assert(r0.contains(y));
                    if d.contains(y) {
                        let m = choose|m: int| 0 <= m < d.len() && d[m] == y;
                        assert(sorted[m] == y);
                    }
                } else {
                    assert(sorted[sorted.len() - 1] == y);
                }
            }
            if sorted.contains(y) {
                let i = choose|i: int| 0 <= i < sorted.len() && sorted[i] == y;
                if i < d.len() {
                    assert(d[i] == y);
                    assert(d.contains(y));
                    assert(r0.contains(y));
                    let m = choose|m: int| 0 <= m < r0.len() && r0[m] == y;
                    assert(r[m] == y);
                } else {
                    assert(r[r0.len() as int] == y);
                }
            }
            if y == x {
                assert(r0.contains(x));
                let m = choose|m: int| 0 <= m < r0.len() && r0[m] == x;
                assert(r[m] == x);
            }
        }
        assert forall|i: int, j: int| 0 <= i <= j < r.len() implies r[i].virtual_address
            <= r[j].virtual_address by {
            if j == r0.len() && i < j {
                assert(r[i] == r0[i]);
            } else if j < r0.len() {
                assert(r[i] == r0[i] && r[j] == r0[j]);
            }
        }
    }
}

/// Sorting keeps exactly the segments it was given, in start order.
proof fn lemma_sort_by_vaddr(s: Seq<LoadSegment>)
    ensures
        ascending_vaddr(sort_by_vaddr(s)),
        sort_by_vaddr(s).len() == s.len(),
        forall|y: LoadSegment| #[trigger] sort_by_vaddr(s).contains(y) <==> s.contains(y),
    decreases s.len(),
{
    if s.len() > 0 {
        lemma_sort_by_vaddr(s.drop_last());
        lemma_insert_by_vaddr(sort_by_vaddr(s.drop_last()), s.last());
        assert forall|y: LoadSegment| sort_by_vaddr(s).contains(y) <==> s.contains(y) by {
            if s.drop_last().contains(y) {
                let i = choose|i: int| 0 <= i < s.drop_last().len() && s.drop_last()[i] == y;
                assert(s[i] == y);
            }
            if s.contains(y) {
                let i = choose|i: int| 0 <= i < s.len() && s[i] == y;
                if i < s.len() - 1 {
                    assert(s.drop_last()[i] == y);
                }
            }
        }
    }
}

proof fn lemma_align_up_above(value: u64, align: u64)
    ensures
        align_up_spec(value, align) matches Ok(v) ==> value <= v,
{
}

proof fn lemma_insert_scan_clear(segs: Seq<LoadSegment>, i: nat, cursor: u64, size: u64, align: u64)
    requires
        ascending_vaddr(segs),
        i <= segs.len(),
        forall|j: int| 0 <= j < i ==> #[trigger] segs[j].virtual_address + segs[j].virtual_size <= cursor,
    ensures
        insert_scan(segs, i, cursor, size, align) matches Ok(v) ==> forall|j: int|
            0 <= j < segs.len() ==> clear_of(v, size, #[trigger] segs[j]),
    decreases segs.len() - i,
{
    lemma_align_up_above(cursor, align);
    if i < segs.len() {
        let next = segs[i as int];
        match segment_end_spec(next) {
            None => {},
            Some(next_end) => {
                let c = if cursor >= next_end {
                    cursor
                } else {
                    next_end
                };
                assert forall|j: int| 0 <= j < i + 1 implies #[trigger] segs[j].virtual_address
                    + segs[j].virtual_size <= c by {}
                lemma_insert_scan_clear(segs, i + 1, c, size, align);
                match align_up_spec(cursor, align) {
                    Err(_) => {},
                    Ok(candidate) => {
                        if candidate + size <= u64::MAX && candidate + size <= next.virtual_address {
                            assert forall|j: int| 0 <= j < segs.len() implies clear_of(
                                candidate,
                                size,
                                #[trigger] segs[j],
                            ) by {
                                if j >= i {
                                    assert(segs[i as int].virtual_address <= segs[j].virtual_address);
                                }
                            }
                        }
                    },
                }
            },
        }
    }
}

/// Wherever `find_insert_vaddr` places new code, the `size` bytes from
/// there meet none of the LOAD segments.
pub proof fn lemma_find_insert_clear(segments: Seq<LoadSegment>, size: u64, align: u64)
    ensures
        find_insert_spec(segments, size, align) matches Ok(v) ==> forall|k: int|
            0 <= k < segments.len() ==> clear_of(v, size, #[trigger] segments[k]),
{
    let sorted = sort_by_vaddr(segments);
    lemma_sort_by_vaddr(segments);
    if size != 0 && sorted.len() != 0 {
        match segment_end_spec(sorted[0]) {
            None => {},
            Some(end) => {
                lemma_insert_scan_clear(sorted, 1, end, size, align);
                if let Ok(v) = find_insert_spec(segments, size, align) {
                    assert forall|k: int| 0 <= k < segments.len() implies clear_of(
                        v,
                        size,
                        #[trigger] segments[k],
                    ) by {
                        assert(segments.contains(segments[k]));
                        assert(sorted.contains(segments[k]));
                        let m = choose|m: int| 0 <= m < sorted.len() && sorted[m] == segments[k];
                    }
                }
            },
        }
    }
}

/// Whether `[vaddr, vaddr + size)` meets one of `segs[i..]`.
pub open spec fn overlap_scan(segs: Seq<LoadSegment>, i: nat, vaddr: u64, end: u64) -> Result<
    bool,
    ElfError,
>
    decreases segs.len() - i,
{
    if i >= segs.len() {
        Ok(false)
    } else {
        match segment_end_spec(segs[i as int]) {
            None => Err(
                ElfError::SegmentOverflow {
                    start: segs[i as int].virtual_address,
                    size: segs[i as int].virtual_size,
                },
            ),
            Some(seg_end) => if vaddr < seg_end && segs[i as int].virtual_address < end {
                Ok(true)
            } else {
                overlap_scan(segs, i + 1, vaddr, end)
            },
        }
    }
}

pub open spec fn overlaps_spec(segments: Seq<LoadSegment>, vaddr: u64, size: u64) -> Result<bool, ElfError> {
    if vaddr + size > u64::MAX {
        Err(ElfError::RangeOverflow { start: vaddr, size })
    } else {
        overlap_scan(segments, 0, vaddr, (vaddr + size) as u64)
    }
}

/// A LOAD segment whose file-backed bytes hold `[vaddr, end)`.
pub open spec fn file_backed(segments: Seq<LoadSegment>, vaddr: u64, end: u64) -> bool {
    exists|k: int|
        0 <= k < segments.len() && #[trigger] segments[k].virtual_address <= vaddr && end
            <= segments[k].virtual_address + segments[k].physical_size
            && segments[k].virtual_address + segments[k].physical_size <= u64::MAX
}

impl ElfLayout {
    /// The page-aligned size that a new code segment of `code_size` bytes
    /// reserves.
    pub open spec fn mapped_size_spec(self, code_size: u64) -> Result<u64, ElfError> {
        if code_size == 0 {
            Err(ElfError::EmptyCode)
        } else if self.page_size == 0 {
            Err(ElfError::ZeroPageSize)
        } else {
            align_up_spec(code_size, self.page_size)
        }
    }

    pub fn code_segment_mapped_size(&self, code_size: u64) -> (r: Result<u64, ElfError>)
        ensures
            r == self.mapped_size_spec(code_size),
    {
        if code_size == 0 {
            return Err(ElfError::EmptyCode);
        }
        if self.page_size == 0 {
            return Err(ElfError::ZeroPageSize);
        }
        align_up(code_size, self.page_size)
    }

    /// Where a new code range of `size` bytes, aligned to `align`, can be
    /// mapped without meeting the existing LOAD segments as they are
    /// walked in address order.
    pub fn find_insert_vaddr(&self, size: u64, align: u64) -> (r: Result<u64, ElfError>)
        ensures
            r == find_insert_spec(self.load_segments@, size, align),
    {
        if size == 0 {
            return Err(ElfError::EmptySize);
        }
        let sorted = sorted_by_vaddr(&self.load_segments);
        if sorted.len() == 0 {
            return Ok(0);
        }
        let mut cursor = match segment_vaddr_end(&sorted[0]) {
            Ok(end) => end,
            Err(e) => return Err(e),
        };
        let mut i: usize = 1;
        while i < sorted.len()
            invariant
                1 <= i <= sorted@.len(),
                size > 0,
                find_insert_spec(self.load_segments@, size, align) == insert_scan(
                    sorted@,
                    i as nat,
                    cursor,
                    size,
                    align,
                ),
            decreases sorted@.len() - i,
        {
            let next = sorted[i];
            let next_end = match segment_vaddr_end(&next) {
                Ok(end) => end,
                Err(e) => return Err(e),
            };
            let candidate = match align_up(cursor, align) {
                Ok(c) => c,
                Err(e) => return Err(e),
            };
            let candidate_end = match candidate.checked_add(size) {
                Some(end) => end,
                None => return Err(ElfError::CandidateOverflow { candidate, size }),
            };
            if candidate_end <= next.virtual_address {
                return Ok(candidate);
            }
            cursor = if cursor >= next_end {
                cursor
            } else {
                next_end
            };
            i += 1;
        }
        align_up(cursor, align)
    }

    /// Whether `[vaddr, vaddr + size)` meets a LOAD segment.
    pub fn vaddr_range_overlaps_load_segment(&self, vaddr: u64, size: u64) -> (r: Result<
        bool,
        ElfError,
    >)
        ensures
            r == overlaps_spec(self.load_segments@, vaddr, size),
    {
        let end = match vaddr.checked_add(size) {
            Some(end) => end,
            None => return Err(ElfError::RangeOverflow { start: vaddr, size }),
        };
        let mut i: usize = 0;
        while i < self.load_segments.len()
            invariant
                i <= self.load_segments@.len(),
                end == vaddr + size,
                overlaps_spec(self.load_segments@, vaddr, size) == overlap_scan(
                    self.load_segments@,
                    i as nat,
                    vaddr,
                    end,
                ),
            decreases self.load_segments@.len() - i,
        {
            let segment = self.load_segments[i];
            let seg_end = match segment_vaddr_end(&segment) {
                Ok(e) => e,
                Err(e) => return Err(e),
            };
            if vaddr < seg_end && segment.virtual_address < end {
                return Ok(true);
            }
            i += 1;
        }
        Ok(false)
    }

    /// Checks that `patch_len` bytes written at `vaddr` land in the
    /// file-backed part of one LOAD segment; `Ok(false)` for an empty patch,
    /// which changes nothing.
    pub fn check_patch_vaddr(&self, vaddr: u64, patch_len: usize) -> (r: Result<bool, ElfError>)
        ensures
            patch_len == 0 ==> r == Ok::<bool, ElfError>(false),
            patch_len > 0 && vaddr + patch_len > u64::MAX ==> r == Err::<bool, ElfError>(
                ElfError::PatchOverflow { start: vaddr, size: patch_len as u64 },
            ),
            patch_len > 0 && vaddr + patch_len <= u64::MAX ==> r == (if file_backed(
                self.load_segments@,
                vaddr,
                (vaddr + patch_len) as u64,
            ) {
                Ok::<bool, ElfError>(true)
            } else {
                Err(
                    ElfError::PatchNotFileBacked {
                        start: vaddr,
                        end: (vaddr + patch_len) as u64,
                    },
                )
            }),
    {
        if patch_len == 0 {
            return Ok(false);
        }
        let patch_size = patch_len as u64;
        let patch_end = match vaddr.checked_add(patch_size) {
            Some(end) => end,
            None => return Err(ElfError::PatchOverflow { start: vaddr, size: patch_size }),
        };
        let mut i: usize = 0;
        while i < self.load_segments.len()
            invariant
                i <= self.load_segments@.len(),
                patch_len > 0,
                patch_end == vaddr + patch_len,
                forall|k: int|
                    0 <= k < i ==> !(#[trigger] self.load_segments@[k].virtual_address <= vaddr
                        && patch_end <= self.load_segments@[k].virtual_address
                        + self.load_segments@[k].physical_size
                        && self.load_segments@[k].virtual_address
                        + self.load_segments@[k].physical_size <= u64::MAX),
            decreases self.load_segments@.len() - i,
        {
            let segment = self.load_segments[i];
            match segment.virtual_address.checked_add(segment.physical_size) {
                Some(segment_end) => {
                    if segment.virtual_address <= vaddr && patch_end <= segment_end {
                        assert(self.load_segments@[i as int].virtual_address <= vaddr);
                        return Ok(true);
                    }
                },
                None => {},
            }
            i += 1;
        }
        Err(ElfError::PatchNotFileBacked { start: vaddr, end: patch_end })
    }

    /// The checks made on the layout before a code segment of `code_len`
    /// bytes is added at `vaddr`: the size it reserves, which must not meet
    /// an existing LOAD segment.
    pub fn plan_code_segment(&self, code_len: usize, vaddr: u64) -> (r: Result<u64, ElfError>)
        ensures
            r == (match self.mapped_size_spec(code_len as u64) {
                Err(e) => Err(e),
                Ok(mapped) => match overlaps_spec(self.load_segments@, vaddr, mapped) {
                    Err(e) => Err(e),
                    Ok(true) => Err(
                        ElfError::Overlap { start: vaddr, end: (vaddr + mapped) as u64 },
                    ),
                    Ok(false) => Ok(mapped),
                },
            }),
    {
        let size = code_len as u64;
        let mapped_size = match self.code_segment_mapped_size(size) {
            Ok(m) => m,
            Err(e) => return Err(e),
        };
        match self.vaddr_range_overlaps_load_segment(vaddr, mapped_size) {
            Err(e) => Err(e),
            Ok(true) => Err(ElfError::Overlap { start: vaddr, end: vaddr + mapped_size }),
            Ok(false) => Ok(mapped_size),
        }
    }

    /// The first executable section whose mapped range holds `[start, end)`.
    pub fn section_containing_vma(&self, start: u64, end: u64) -> (r: Option<usize>)
        ensures
            match r {
                Some(k) => k < self.executable_sections@.len() && section_holds(
                    self.executable_sections@[k as int],
                    start,
                    end,
                ) && forall|j: int|
                    0 <= j < k ==> !section_holds(
                        #[trigger] self.executable_sections@[j],
                        start,
                        end,
                    ),
                None => forall|j: int|
                    0 <= j < self.executable_sections@.len() ==> !section_holds(
                        #[trigger] self.executable_sections@[j],
                        start,
                        end,
                    ),
            },
    {
        let mut i: usize = 0;
        while i < self.executable_sections.len()
            invariant
                i <= self.executable_sections@.len(),
                forall|j: int|
                    0 <= j < i ==> !section_holds(#[trigger] self.executable_sections@[j], start, end),
            decreases self.executable_sections@.len() - i,
        {
            if section_contains_range(&self.executable_sections[i], start, end) {
                return Some(i);
            }
            i += 1;
        }
        None
    }
}

/// The request checks of a code-segment insertion: code to insert, and an
/// address aligned as asked.
pub fn check_insert_request(code_len: usize, vaddr: u64, align: u64) -> (r: Result<(), ElfError>)
    ensures
        r == (if code_len == 0 {
            Err(ElfError::EmptyCode)
        } else if align > 1 && vaddr % align != 0 {
            Err(ElfError::Misaligned { vaddr, align })
        } else {
            Ok(())
        }),
{
    if code_len == 0 {
        return Err(ElfError::EmptyCode);
    }
    if align > 1 && vaddr % align != 0 {
        return Err(ElfError::Misaligned { vaddr, align });
    }
    Ok(())
}

/// Checks that the segment the ELF writer added sits where it was asked to
/// and stays within the reserved range.
pub fn check_added_segment(
    vaddr: u64,
    mapped_size: u64,
    actual_vaddr: u64,
    actual_physical_size: u64,
    actual_virtual_size: u64,
) -> (r: Result<(), ElfError>)
    ensures
        r == (if actual_vaddr != vaddr {
            Err(ElfError::SegmentMoved { expected: vaddr, actual: actual_vaddr })
        } else if actual_physical_size > mapped_size || actual_virtual_size > mapped_size {
            Err(
                ElfError::SegmentExpanded {
                    reserved: mapped_size,
                    file_size: actual_physical_size,
                    mem_size: actual_virtual_size,
                },
            )
        } else {
            Ok(())
        }),
{
    if actual_vaddr != vaddr {
        return Err(ElfError::SegmentMoved { expected: vaddr, actual: actual_vaddr });
    }
    if actual_physical_size > mapped_size || actual_virtual_size > mapped_size {
        return Err(
            ElfError::SegmentExpanded {
                reserved: mapped_size,
                file_size: actual_physical_size,
                mem_size: actual_virtual_size,
            },
        );
    }
    Ok(())
}

/// The content of a section cut down to `new_size` bytes: the bytes from
/// `new_size` on become zero.
pub fn reduced_section_content(content: &[u8], old_size: u64, new_size: u64) -> (r: Result<
    Vec<u8>,
    ElfError,
>)
    ensures
        new_size > old_size ==> r == Err::<Vec<u8>, ElfError>(
            ElfError::SectionGrows { old_size, new_size },
        ),
        new_size <= old_size && old_size > content@.len() ==> r == Err::<Vec<u8>, ElfError>(
            ElfError::ContentTooShort { size: old_size, content_len: content@.len() as u64 },
        ),
        new_size <= old_size <= content@.len() ==> (r matches Ok(v) && v@ == content@.take(
            new_size as int,
        ) + Seq::new((content@.len() - new_size) as nat, |i: int| 0u8)),
{
    if new_size > old_size {
        return Err(ElfError::SectionGrows { old_size, new_size });
    }
    let content_len = content.len() as u64;
    if old_size > content_len {
        return Err(ElfError::ContentTooShort { size: old_size, content_len });
    }
    if new_size > content_len {
        return Err(ElfError::ContentTooShort { size: new_size, content_len });
    }
    let keep = new_size as usize;
    let mut out: Vec<u8> = Vec::new();
    let mut i: usize = 0;
    while i < content.len()
        invariant
            i <= content@.len(),
            keep <= content@.len(),
            out@ == (content@.take(keep as int) + Seq::new(
                (content@.len() - keep) as nat,
                |j: int| 0u8,
            )).take(i as int),
        decreases content@.len() - i,
    {
        if i < keep {
            out.push(content[i]);
        } else {
            out.push(0u8);
        }
        proof {
            let full = content@.take(keep as int) + Seq::new(
                (content@.len() - keep) as nat,
                |j: int| 0u8,
            );
            assert(full.take(i + 1) =~= full.take(i as int).push(full[i as int]));
        }
        i += 1;
    }
    proof {
        let full = content@.take(keep as int) + Seq::new(
            (content@.len() - keep) as nat,
            |j: int| 0u8,
        );
        assert(full.take(i as int) =~= full);
    }
    Ok(out)
}

/// The section maps all of `[start, end)`.
pub open spec fn section_holds(section: SectionInfo, start: u64, end: u64) -> bool {
    &&& section.virtual_address + section.size <= u64::MAX
    &&& section.virtual_address <= start
    &&& end <= section.virtual_address + section.size
}

pub fn section_contains_range(section: &SectionInfo, vma_start: u64, vma_end: u64) -> (b: bool)
    ensures
        b == section_holds(*section, vma_start, vma_end),
{
    match section.virtual_address.checked_add(section.size) {
        None => false,
        Some(section_end) => section.virtual_address <= vma_start && vma_end <= section_end,
    }
}

/// The file offset of `vma_start` in a section that holds `[vma_start,
/// vma_end)`.
pub fn section_vma2offset(section: &SectionInfo, vma_start: u64, vma_end: u64) -> (r: Option<u64>)
    ensures
        r == (if section_holds(*section, vma_start, vma_end) && section.offset + (vma_start
            - section.virtual_address) <= u64::MAX {
            Some((section.offset + (vma_start - section.virtual_address)) as u64)
        } else {
            None
        }),
{
    if !section_contains_range(section, vma_start, vma_end) {
        return None;
    }
    section.offset.checked_add(vma_start - section.virtual_address)
}

} // verus!
