//! Stripping the start of a run: code that restores the machine state the
//! run had reached at a later instruction, and a jump from the entry point
//! into it.
use std::collections::BTreeMap;
use std::collections::HashSet;
use vstd::prelude::*;

use crate::inst::{
    append_load_u64, append_memory_restore, append_write_csr, encode_jmp, halfword_at, inst_len_of,
    jmp_words, lemma_load_u64_len, load_u64_words, push_inst, restore_width, restore_words,
    write_csr_words, MRET_INSN, inst_fits_at, read_decode_at, write_decode_at, decode_memory_read_at, decode_memory_write_at,
    MemoryAccess, MemoryByte, MemoryReadDecode, MemoryWrite, MemoryWriteDecode, CSR_MCAUSE, CSR_MEDELEG,
    CSR_MEPC, CSR_MIDELEG, CSR_MIE, CSR_MIP, CSR_MSCRATCH, CSR_MSTATUS, CSR_MTVAL, CSR_MTVEC,
    CSR_SATP, CSR_SCAUSE, CSR_SEPC, CSR_SSCRATCH, CSR_STVAL, CSR_STVEC,
};
use crate::elf::{find_insert_spec, lemma_find_insert_aligned, ElfLayout, LoadSegment};
use crate::reduce::bisect::GreatestSearch;
use crate::reduce::strip_suffix::{pcs_aligned, with_bytes};
use crate::reduce::{nop_inst_at, with_nop};
use crate::riscv::{lemma_words_bytes_append, lemma_words_bytes_len, words_bytes};
use crate::state_tracker::{ArchIntRegState, CSRState, PCState, StateTrackers};

verus! {

/// `mstatus` with its MPP field (bits 11 and 12) set to `privilege_mode`.
pub open spec fn with_mpp(mstatus: u64, privilege_mode: u64) -> u64 {
    (mstatus & !(3u64 << 11u64)) | (privilege_mode << 11u64)
}

/// The `mstatus` value under which `mret` enters `privilege_mode` (user,
/// supervisor or machine).
pub fn mstatus_with_mpp(mstatus: u64, privilege_mode: u64) -> (r: u64)
    requires
        privilege_mode == 0 || privilege_mode == 1 || privilege_mode == 3,
    ensures
        r == with_mpp(mstatus, privilege_mode),
        (r >> 11u64) & 3 == privilege_mode,
        r & !(3u64 << 11u64) == mstatus & !(3u64 << 11u64),
{
    let r = (mstatus & !(3u64 << 11u64)) | (privilege_mode << 11u64);
    assert((r >> 11u64) & 3 == privilege_mode && r & !(3u64 << 11u64) == mstatus & !(3u64
        << 11u64)) by (bit_vector)
        requires
            privilege_mode <= 3,
            r == (mstatus & !(3u64 << 11u64)) | (privilege_mode << 11u64),
    ;
    r
}

/// Byte `k` (little-endian) of `value`.
pub open spec fn byte_of(value: u64, k: u64) -> u8 {
    (value >> (k * 8) as u64) as u8
}

/// `m` after the first `n` bytes of the write were stored.
pub open spec fn write_map(m: Map<u64, u8>, w: MemoryWrite, n: nat) -> Map<u64, u8>
    decreases n,
{
    if n == 0 {
        m
    } else {
        write_map(m, w, (n - 1) as nat).insert(
            w.access.addr.wrapping_add((n - 1) as u64),
            byte_of(w.value, (n - 1) as u64),
        )
    }
}

/// Records the bytes that a memory write stores.
pub fn write_bytes(memory: &mut BTreeMap<u64, u8>, write: MemoryWrite)
    ensures
        final(memory)@ == write_map(old(memory)@, write, write.access.width.nbytes() as nat),
{
    let n = write.access.bytes();
    let mut offset: u64 = 0;
    while offset < n
        invariant
            offset <= n,
            n == write.access.width.nbytes(),
            n <= 8,
            memory@ == write_map(old(memory)@, write, offset as nat),
        decreases n - offset,
    {
        memory.insert(write.access.addr.wrapping_add(offset), (write.value >> (offset * 8)) as u8);
        offset += 1;
    }
}

/// The memory the first `n` instructions of the run wrote, byte by byte
/// (`None` if one of them writes in a way that cannot be decoded).
pub open spec fn prefix_memory(
    input: Seq<u8>,
    offsets: Seq<usize>,
    arch: Seq<ArchIntRegState>,
    n: nat,
) -> Option<Map<u64, u8>>
    decreases n,
{
    if n == 0 {
        Some(Map::empty())
    } else {
        match prefix_memory(input, offsets, arch, (n - 1) as nat) {
            None => None,
            Some(m) => match write_decode_at(input, offsets[n - 1] as int, arch[n - 1].value@) {
                MemoryWriteDecode::NotStore => Some(m),
                MemoryWriteDecode::Write(w) => Some(write_map(m, w, w.access.width.nbytes() as nat)),
                MemoryWriteDecode::Unsupported => None,
            },
        }
    }
}

/// A read of `n` bytes at `addr` moves each byte still held in `mem` to
/// `needed`.
pub open spec fn read_move(mem: Map<u64, u8>, needed: Map<u64, u8>, addr: u64, n: nat) -> (Map<
    u64,
    u8,
>, Map<u64, u8>)
    decreases n,
{
    if n == 0 {
        (mem, needed)
    } else {
        let (m1, n1) = read_move(mem, needed, addr, (n - 1) as nat);
        let a = addr.wrapping_add((n - 1) as u64);
        if m1.contains_key(a) {
            (m1.remove(a), n1.insert(a, m1[a]))
        } else {
            (m1, n1)
        }
    }
}

/// A write of `n` bytes at `addr` makes the earlier values there
/// irrelevant.
pub open spec fn clear_bytes(mem: Map<u64, u8>, addr: u64, n: nat) -> Map<u64, u8>
    decreases n,
{
    if n == 0 {
        mem
    } else {
        clear_bytes(mem, addr, (n - 1) as nat).remove(addr.wrapping_add((n - 1) as u64))
    }
}

/// One instruction of the kept part of the run: what it reads of the
/// prefix's memory becomes needed, what it writes is no longer.
pub open spec fn suffix_step(
    input: Seq<u8>,
    offset: int,
    regs: Seq<u64>,
    state: (Map<u64, u8>, Map<u64, u8>),
) -> Option<(Map<u64, u8>, Map<u64, u8>)> {
    let after_read = match read_decode_at(input, offset, regs) {
        MemoryReadDecode::NotLoad => Some(state),
        MemoryReadDecode::Read(a) => Some(read_move(state.0, state.1, a.addr, a.width.nbytes() as nat)),
        MemoryReadDecode::Unsupported => None,
    };
    match after_read {
        None => None,
        Some((mem, needed)) => match write_decode_at(input, offset, regs) {
            MemoryWriteDecode::NotStore => Some((mem, needed)),
            MemoryWriteDecode::Write(w) => Some(
                (clear_bytes(mem, w.access.addr, w.access.width.nbytes() as nat), needed),
            ),
            MemoryWriteDecode::Unsupported => None,
        },
    }
}

/// The state after the instructions `start .. start + k` of the kept part.
pub open spec fn suffix_memory(
    input: Seq<u8>,
    offsets: Seq<usize>,
    arch: Seq<ArchIntRegState>,
    start: int,
    k: nat,
    init: Map<u64, u8>,
) -> Option<(Map<u64, u8>, Map<u64, u8>)>
    decreases k,
{
    if k == 0 {
        Some((init, Map::empty()))
    } else {
        match suffix_memory(input, offsets, arch, start, (k - 1) as nat, init) {
            None => None,
            Some(state) => {
                let idx = start + k - 1;
                suffix_step(input, offsets[idx] as int, arch[idx].value@, state)
            },
        }
    }
}

/// The bytes that the skipped prefix wrote and the kept part then reads
/// before overwriting them.
pub open spec fn needed_memory(
    input: Seq<u8>,
    offsets: Seq<usize>,
    arch: Seq<ArchIntRegState>,
    trace_len: nat,
    candidate: nat,
) -> Option<Map<u64, u8>> {
    match prefix_memory(input, offsets, arch, candidate) {
        None => None,
        Some(m) => if m.is_empty() {
            Some(Map::empty())
        } else {
            match suffix_memory(input, offsets, arch, candidate as int, (trace_len - candidate) as nat, m) {
                None => None,
                Some((_, needed)) => Some(needed),
            }
        },
    }
}

/// Store `w` writes address `a`, as byte `k` of its value.
pub open spec fn store_covers(w: MemoryWrite, a: u64, k: nat) -> bool {
    k < w.access.width.nbytes() && w.access.addr.wrapping_add(k as u64) == a
}

/// The store made by the instruction at trace index `i`, if it makes one.
pub open spec fn store_at(input: Seq<u8>, offsets: Seq<usize>, arch: Seq<ArchIntRegState>, i: int) -> Option<
    MemoryWrite,
> {
    match write_decode_at(input, offsets[i] as int, arch[i].value@) {
        MemoryWriteDecode::Write(w) => Some(w),
        _ => None,
    }
}

/// Whether the instruction at trace index `i` stores to `a`.
pub open spec fn stores_to(
    input: Seq<u8>,
    offsets: Seq<usize>,
    arch: Seq<ArchIntRegState>,
    i: int,
    a: u64,
) -> bool {
    store_at(input, offsets, arch, i) matches Some(w) && exists|k: nat| #[trigger]
        store_covers(w, a, k)
}

proof fn lemma_covers_unique(w: MemoryWrite, a: u64, k1: nat, k2: nat)
    requires
        store_covers(w, a, k1),
        store_covers(w, a, k2),
    ensures
        k1 == k2,
{
}

/// The bytes of a write land at their addresses: after the first `n`
/// bytes, an address the write covers holds its byte, any other what it
/// held before.
proof fn lemma_write_map_at(m: Map<u64, u8>, w: MemoryWrite, n: nat, a: u64)
    requires
        n <= w.access.width.nbytes(),
    ensures
        write_map(m, w, n).contains_key(a) == (m.contains_key(a) || exists|k: nat|
            k < n && #[trigger] store_covers(w, a, k)),
        forall|k: nat| k < n && #[trigger] store_covers(w, a, k) ==> write_map(m, w, n)[a]
            == byte_of(w.value, k as u64),
        (forall|k: nat| k < n ==> !#[trigger] store_covers(w, a, k)) ==> write_map(m, w, n)[a]
            == m[a],
    decreases n,
{
    if n > 0 {
        let j = (n - 1) as nat;
        lemma_write_map_at(m, w, j, a);
        let aj = w.access.addr.wrapping_add(j as u64);
        if aj == a {
            assert(store_covers(w, a, j));
            assert forall|k: nat| k < n && #[trigger] store_covers(w, a, k) implies write_map(m, w, n)[a]
                == byte_of(w.value, k as u64) by {
                lemma_covers_unique(w, a, k, j);
            }
        } else {
            assert forall|k: nat| k < n && #[trigger] store_covers(w, a, k) implies k < j by {}
            if exists|k: nat| k < n && #[trigger] store_covers(w, a, k) {
                let k = choose|k: nat| k < n && #[trigger] store_covers(w, a, k);
                assert(k < j);
            }
        }
    }
}

/// The memory that the first `n` instructions of the run wrote holds a
/// byte exactly at the addresses one of them stored to, and there the
/// byte that the last store to it among them wrote.
pub proof fn lemma_prefix_memory_last_store(
    input: Seq<u8>,
    offsets: Seq<usize>,
    arch: Seq<ArchIntRegState>,
    n: nat,
    a: u64,
)
    ensures
        prefix_memory(input, offsets, arch, n) matches Some(m) ==> {
            &&& m.contains_key(a) == exists|i: int| 0 <= i < n && #[trigger] stores_to(
                input,
                offsets,
                arch,
                i,
                a,
            )
            &&& m.contains_key(a) ==> exists|i: int, k: nat|
                #![trigger store_at(input, offsets, arch, i), store_covers(store_at(input, offsets, arch, i)->0, a, k)]
                0 <= i < n && store_at(input, offsets, arch, i) is Some && store_covers(
                    store_at(input, offsets, arch, i)->0,
                    a,
                    k,
                ) && m[a] == byte_of(store_at(input, offsets, arch, i)->0.value, k as u64) && forall|
                    j: int,
                | i < j < n ==> !#[trigger] stores_to(input, offsets, arch, j, a)
        },
    decreases n,
{
    if n > 0 {
        let j = (n - 1) as nat;
        lemma_prefix_memory_last_store(input, offsets, arch, j, a);
        match prefix_memory(input, offsets, arch, j) {
            None => {},
            Some(mp) => {
                match write_decode_at(input, offsets[j as int] as int, arch[j as int].value@) {
                    MemoryWriteDecode::NotStore => {
                        assert(!stores_to(input, offsets, arch, j as int, a));
                        assert forall|i: int| 0 <= i < n && #[trigger] stores_to(input, offsets, arch, i, a)
                            implies i < j by {}
                        if mp.contains_key(a) {
                            let (i, k) = choose|i: int, k: nat|
                                0 <= i < j && store_at(input, offsets, arch, i) is Some && store_covers(
                                    store_at(input, offsets, arch, i)->0,
                                    a,
                                    k,
                                ) && mp[a] == byte_of(store_at(input, offsets, arch, i)->0.value, k as u64)
                                    && forall|jj: int| i < jj < j ==> !#[trigger] stores_to(input, offsets, arch, jj, a);
                            assert(store_at(input, offsets, arch, i) is Some);
                            assert(store_covers(store_at(input, offsets, arch, i)->0, a, k));
                        }
                    },
                    MemoryWriteDecode::Write(w) => {
                        let nb = w.access.width.nbytes() as nat;
                        lemma_write_map_at(mp, w, nb, a);
                        assert(store_at(input, offsets, arch, j as int) == Some(w));
                        if exists|k: nat| k < nb && #[trigger] store_covers(w, a, k) {
                            let k = choose|k: nat| k < nb && #[trigger] store_covers(w, a, k);
                            assert(stores_to(input, offsets, arch, j as int, a));
                            assert(store_covers(store_at(input, offsets, arch, j as int)->0, a, k));
                        } else {
                            assert(!stores_to(input, offsets, arch, j as int, a));
                            assert forall|i: int| 0 <= i < n && #[trigger] stores_to(input, offsets, arch, i, a)
                                implies i < j by {}
                            if mp.contains_key(a) {
                                let (i, k) = choose|i: int, k: nat|
                                    0 <= i < j && store_at(input, offsets, arch, i) is Some && store_covers(
                                        store_at(input, offsets, arch, i)->0,
                                        a,
                                        k,
                                    ) && mp[a] == byte_of(store_at(input, offsets, arch, i)->0.value, k as u64)
                                        && forall|jj: int| i < jj < j ==> !#[trigger] stores_to(input, offsets, arch, jj, a);
                                assert(store_at(input, offsets, arch, i) is Some);
                                assert(store_covers(store_at(input, offsets, arch, i)->0, a, k));
                            }
                        }
                    },
                    MemoryWriteDecode::Unsupported => {},
                }
            },
        }
    }
}

/// Load `r` reads address `a`, as byte `k` of what it reads.
pub open spec fn load_covers(r: MemoryAccess, a: u64, k: nat) -> bool {
    k < r.width.nbytes() && r.addr.wrapping_add(k as u64) == a
}

/// Whether the instruction at trace index `i` loads from `a`.
pub open spec fn loads_from(
    input: Seq<u8>,
    offsets: Seq<usize>,
    arch: Seq<ArchIntRegState>,
    i: int,
    a: u64,
) -> bool {
    read_decode_at(input, offsets[i] as int, arch[i].value@) matches MemoryReadDecode::Read(r)
        && exists|k: nat| #[trigger] load_covers(r, a, k)
}

proof fn lemma_load_covers_unique(r: MemoryAccess, a: u64, k1: nat, k2: nat)
    requires
        load_covers(r, a, k1),
        load_covers(r, a, k2),
    ensures
        k1 == k2,
{
}

/// A read moves a byte it covers from `mem` to `needed`, if `mem` still
/// holds it; everything else stays where it was.
proof fn lemma_read_move_at(mem: Map<u64, u8>, needed: Map<u64, u8>, r: MemoryAccess, n: nat, a: u64)
    requires
        n <= r.width.nbytes(),
    ensures
        read_move(mem, needed, r.addr, n).0.contains_key(a) == (mem.contains_key(a) && !exists|k: nat|
            k < n && #[trigger] load_covers(r, a, k)),
        read_move(mem, needed, r.addr, n).0.contains_key(a) ==> read_move(mem, needed, r.addr, n).0[a]
            == mem[a],
        read_move(mem, needed, r.addr, n).1.contains_key(a) == (needed.contains_key(a) || (
        mem.contains_key(a) && exists|k: nat| k < n && #[trigger] load_covers(r, a, k))),
        read_move(mem, needed, r.addr, n).1.contains_key(a) ==> read_move(mem, needed, r.addr, n).1[a]
            == (if mem.contains_key(a) && exists|k: nat| k < n && #[trigger] load_covers(r, a, k) {
            mem[a]
        } else {
            needed[a]
        }),
    decreases n,
{
    if n > 0 {
        let j = (n - 1) as nat;
        lemma_read_move_at(mem, needed, r, j, a);
        if r.addr.wrapping_add(j as u64) == a {
            assert(load_covers(r, a, j));
            assert forall|k: nat| k < j implies !#[trigger] load_covers(r, a, k) by {
                if load_covers(r, a, k) {
                    lemma_load_covers_unique(r, a, k, j);
                }
            }
        } else {
            assert forall|k: nat| k < n && #[trigger] load_covers(r, a, k) implies k < j by {}
        }
    }
}

/// A write drops the bytes it covers from `mem`.
proof fn lemma_clear_bytes_at(mem: Map<u64, u8>, w: MemoryWrite, n: nat, a: u64)
    requires
        n <= w.access.width.nbytes(),
    ensures
        clear_bytes(mem, w.access.addr, n).contains_key(a) == (mem.contains_key(a) && !exists|k: nat|
            k < n && #[trigger] store_covers(w, a, k)),
        clear_bytes(mem, w.access.addr, n).contains_key(a) ==> clear_bytes(mem, w.access.addr, n)[a]
            == mem[a],
    decreases n,
{
    if n > 0 {
        let j = (n - 1) as nat;
        lemma_clear_bytes_at(mem, w, j, a);
        if w.access.addr.wrapping_add(j as u64) == a {
            assert(store_covers(w, a, j));
        } else {
            assert forall|k: nat| k < n && #[trigger] store_covers(w, a, k) implies k < j by {}
        }
    }
}

/// Over instructions `start .. start + k` of the kept part: a byte of
/// `init` stays in play while no instruction has read or written it, and
/// it is needed exactly when some instruction reads it before any
/// instruction writes it, with its value from `init`.
pub proof fn lemma_suffix_memory_reads(
    input: Seq<u8>,
    offsets: Seq<usize>,
    arch: Seq<ArchIntRegState>,
    start: int,
    k: nat,
    init: Map<u64, u8>,
    a: u64,
)
    ensures
        suffix_memory(input, offsets, arch, start, k, init) matches Some((mem, needed)) ==> {
            &&& mem.contains_key(a) == (init.contains_key(a) && forall|i: int|
                #![trigger loads_from(input, offsets, arch, i, a)]
                #![trigger stores_to(input, offsets, arch, i, a)]
                start <= i < start + k ==> !loads_from(input, offsets, arch, i, a) && !stores_to(
                    input,
                    offsets,
                    arch,
                    i,
                    a,
                ))
            &&& mem.contains_key(a) ==> mem[a] == init[a]
            &&& needed.contains_key(a) == (init.contains_key(a) && exists|j: int|
                start <= j < start + k && #[trigger] loads_from(input, offsets, arch, j, a) && forall|
                    i: int,
                | start <= i < j ==> !#[trigger] stores_to(input, offsets, arch, i, a))
            &&& needed.contains_key(a) ==> needed[a] == init[a]
        },
    decreases k,
{
    if k > 0 {
        let kp = (k - 1) as nat;
        let t = start + kp;
        lemma_suffix_memory_reads(input, offsets, arch, start, kp, init, a);
        match suffix_memory(input, offsets, arch, start, kp, init) {
            None => {},
            Some((mem0, need0)) => {
                let regs = arch[t].value@;
                let off = offsets[t] as int;
                let after_read = match read_decode_at(input, off, regs) {
                    MemoryReadDecode::NotLoad => Some((mem0, need0)),
                    MemoryReadDecode::Read(r) => Some(
                        read_move(mem0, need0, r.addr, r.width.nbytes() as nat),
                    ),
                    MemoryReadDecode::Unsupported => None,
                };
                match read_decode_at(input, off, regs) {
                    MemoryReadDecode::Read(r) => {
                        lemma_read_move_at(mem0, need0, r, r.width.nbytes() as nat, a);
                        assert(loads_from(input, offsets, arch, t, a) == exists|k: nat|
                            k < r.width.nbytes() && #[trigger] load_covers(r, a, k));
                    },
                    _ => {
                        assert(!loads_from(input, offsets, arch, t, a));
                    },
                }
                match after_read {
                    None => {},
                    Some((mem1, need1)) => {
                        match write_decode_at(input, off, regs) {
                            MemoryWriteDecode::Write(w) => {
                                lemma_clear_bytes_at(mem1, w, w.access.width.nbytes() as nat, a);
                                assert(store_at(input, offsets, arch, t) == Some(w));
                                assert(stores_to(input, offsets, arch, t, a) == exists|k: nat|
                                    k < w.access.width.nbytes() && #[trigger] store_covers(w, a, k));
                            },
                            _ => {
                                assert(!stores_to(input, offsets, arch, t, a));
                            },
                        }
                        if init.contains_key(a) && exists|j: int|
                            start <= j < start + k && #[trigger] loads_from(input, offsets, arch, j, a)
                                && forall|i: int| start <= i < j ==> !#[trigger] stores_to(input, offsets, arch, i, a) {
                            let j = choose|j: int|
                                start <= j < start + k && #[trigger] loads_from(input, offsets, arch, j, a)
                                    && forall|i: int| start <= i < j ==> !#[trigger] stores_to(input, offsets, arch, i, a);
                            if j == t && !need0.contains_key(a) {
                                assert forall|i: int|
                                    #![trigger loads_from(input, offsets, arch, i, a)]
                                    #![trigger stores_to(input, offsets, arch, i, a)]
                                    start <= i < t implies !loads_from(input, offsets, arch, i, a) && !stores_to(
                                    input,
                                    offsets,
                                    arch,
                                    i,
                                    a,
                                ) by {
                                    if loads_from(input, offsets, arch, i, a) {
                                        assert(forall|ii: int| start <= ii < i ==> !#[trigger] stores_to(input, offsets, arch, ii, a));
                                    }
                                }
                            }
                        }
                    },
                }
            },
        }
    }
}

/// The bytes the stripped prefix must restore: address `a` is needed
/// exactly when one of the first `candidate` instructions stored to it and
/// an instruction of the kept part (from `candidate` on) reads it before
/// any kept instruction writes it; its byte is the one the last store to
/// it before `candidate` wrote.
pub proof fn lemma_needed_memory_bytes(
    input: Seq<u8>,
    offsets: Seq<usize>,
    arch: Seq<ArchIntRegState>,
    trace_len: nat,
    candidate: nat,
    a: u64,
)
    requires
        candidate <= trace_len,
    ensures
        needed_memory(input, offsets, arch, trace_len, candidate) matches Some(nm) ==> {
            &&& nm.contains_key(a) == ((exists|i: int|
                0 <= i < candidate && #[trigger] stores_to(input, offsets, arch, i, a)) && exists|
                j: int,
            |
                candidate <= j < trace_len && #[trigger] loads_from(input, offsets, arch, j, a)
                    && forall|i: int|
                    candidate <= i < j ==> !#[trigger] stores_to(input, offsets, arch, i, a))
            &&& nm.contains_key(a) ==> exists|i: int, k: nat|
                #![trigger store_at(input, offsets, arch, i), store_covers(store_at(input, offsets, arch, i)->0, a, k)]
                0 <= i < candidate && store_at(input, offsets, arch, i) is Some && store_covers(
                    store_at(input, offsets, arch, i)->0,
                    a,
                    k,
                ) && nm[a] == byte_of(store_at(input, offsets, arch, i)->0.value, k as u64) && forall|
                    j: int,
                | i < j < candidate ==> !#[trigger] stores_to(input, offsets, arch, j, a)
        },
{
    lemma_prefix_memory_last_store(input, offsets, arch, candidate, a);
    match prefix_memory(input, offsets, arch, candidate) {
        None => {},
        Some(m) => {
            if m.is_empty() {
                assert(!m.contains_key(a));
                assert(Map::<u64, u8>::empty() =~= Map::empty());
            } else {
                let k = (trace_len - candidate) as nat;
                lemma_suffix_memory_reads(input, offsets, arch, candidate as int, k, m, a);
                assert(candidate + k == trace_len);
            }
        },
    }
}

/// `v` lists the entries of `m` in increasing address order.
pub open spec fn lists(v: Seq<MemoryByte>, m: Map<u64, u8>) -> bool {
    &&& forall|i: int, j: int| 0 <= i < j < v.len() ==> #[trigger] v[i].addr < #[trigger] v[j].addr
    &&& forall|i: int|
        0 <= i < v.len() ==> m.contains_key(#[trigger] v[i].addr) && m[v[i].addr] == v[i].value
    &&& forall|a: u64| #[trigger] m.contains_key(a) ==> exists|i: int| 0 <= i < v.len() && v[i].addr == a
}

/// Adds a byte at an address not yet listed, keeping the order.
fn insert_sorted(v: &mut Vec<MemoryByte>, addr: u64, value: u8, Ghost(m): Ghost<Map<u64, u8>>)
    requires
        lists(old(v)@, m),
        !m.contains_key(addr),
    ensures
        lists(final(v)@, m.insert(addr, value)),
{
    let mut p: usize = 0;
    while p < v.len() && v[p].addr < addr
        invariant
            p <= v@.len(),
            forall|i: int| 0 <= i < p ==> #[trigger] v@[i].addr < addr,
        decreases v@.len() - p,
    {
        p += 1;
    }
    let ghost before = v@;
    proof {
        assert forall|i: int| p <= i < before.len() implies #[trigger] before[i].addr > addr by {
            if i > p {
                assert(before[p as int].addr < before[i].addr);
            }
            assert(m.contains_key(before[i].addr));
        }
    }
    v.insert(p, MemoryByte { addr, value });
    proof {
        let m2 = m.insert(addr, value);
        assert(v@ == before.insert(p as int, MemoryByte { addr, value }));
        assert forall|i: int, j: int| 0 <= i < j < v@.len() implies #[trigger] v@[i].addr
            < #[trigger] v@[j].addr by {
            if j < p {
                assert(before[i].addr < before[j].addr);
            } else if j == p {
            } else if i < p {
                assert(before[j - 1].addr > addr);
            } else if i == p {
                assert(before[j - 1].addr > addr);
            } else {
                assert(before[i - 1].addr < before[j - 1].addr);
            }
        }
        assert forall|i: int| 0 <= i < v@.len() implies m2.contains_key(#[trigger] v@[i].addr)
            && m2[v@[i].addr] == v@[i].value by {
            if i < p {
                assert(v@[i] == before[i]);
                assert(before[i].addr != addr);
            } else if i > p {
                assert(v@[i] == before[i - 1]);
                assert(before[i - 1].addr != addr);
            }
        }
        assert forall|a: u64| #[trigger] m2.contains_key(a) implies exists|i: int|
            0 <= i < v@.len() && v@[i].addr == a by {
            if a == addr {
                assert(v@[p as int].addr == a);
            } else {
                let i = choose|i: int| 0 <= i < before.len() && before[i].addr == a;
                if i < p {
                    assert(v@[i].addr == a);
                } else {
                    assert(v@[i + 1].addr == a);
                }
            }
        }
    }
}

/// The trace entries and their file offsets fit what the scan reads.
pub open spec fn trace_fits(
    input: Seq<u8>,
    offsets: Seq<usize>,
    pcs: Seq<PCState>,
    arch: Seq<ArchIntRegState>,
) -> bool {
    &&& offsets.len() == pcs.len()
    &&& arch.len() >= pcs.len()
    &&& forall|i: int| 0 <= i < offsets.len() ==> inst_fits_at(input, #[trigger] offsets[i] as int)
}

/// The memory bytes that the code replacing the first `candidate_idx`
/// instructions must restore: what they stored that the rest of the run
/// reads before overwriting, in address order. `offsets[i]` is the file
/// offset of the `i`-th executed instruction. `None` when an instruction's
/// memory access cannot be decoded.
pub fn collect_memory_bytes(
    input: &[u8],
    offsets: &[usize],
    original: &StateTrackers,
    candidate_idx: usize,
) -> (r: Option<Vec<MemoryByte>>)
    requires
        trace_fits(
            input@,
            offsets@,
            original.pc_tracker.states(),
            original.arch_int_reg_tracker.states(),
        ),
        candidate_idx <= original.pc_tracker.states().len(),
    ensures
        match needed_memory(
            input@,
            offsets@,
            original.arch_int_reg_tracker.states(),
            original.pc_tracker.states().len(),
            candidate_idx as nat,
        ) {
            None => r is None,
            Some(m) => r matches Some(v) && lists(v@, m),
        },
{
    let arch = original.arch_int_reg_tracker.as_slice();
    let trace_len = original.pc_tracker.len();
    let ghost a = arch@;
    let mut memory: BTreeMap<u64, u8> = BTreeMap::new();
    let mut idx: usize = 0;
    while idx < candidate_idx
        invariant
            idx <= candidate_idx <= trace_len,
            trace_len == original.pc_tracker.states().len(),
            a == arch@,
            a == original.arch_int_reg_tracker.states(),
            trace_fits(input@, offsets@, original.pc_tracker.states(), a),
            prefix_memory(input@, offsets@, a, idx as nat) == Some(memory@),
        decreases candidate_idx - idx,
    {
        assert(inst_fits_at(input@, offsets@[idx as int] as int));
        match decode_memory_write_at(input, offsets[idx], &arch[idx].value) {
            MemoryWriteDecode::NotStore => {},
            MemoryWriteDecode::Write(write) => write_bytes(&mut memory, write),
            MemoryWriteDecode::Unsupported => {
                proof {
                    lemma_prefix_memory_none(input@, offsets@, a, idx as nat, candidate_idx as nat);
                }
                return None;
            },
        }
        idx += 1;
    }
    if memory.is_empty() {
        let v: Vec<MemoryByte> = Vec::new();
        assert(lists(v@, Map::<u64, u8>::empty()));
        return Some(v);
    }
    let ghost init = memory@;
    let mut needed: Vec<MemoryByte> = Vec::new();
    let ghost mut needed_map: Map<u64, u8> = Map::empty();
    let mut idx = candidate_idx;
    while idx < trace_len
        invariant
            candidate_idx <= idx <= trace_len,
            trace_len == original.pc_tracker.states().len(),
            a == arch@,
            a == original.arch_int_reg_tracker.states(),
            trace_fits(input@, offsets@, original.pc_tracker.states(), a),
            suffix_memory(input@, offsets@, a, candidate_idx as int, (idx - candidate_idx) as nat, init)
                == Some((memory@, needed_map)),
            prefix_memory(input@, offsets@, a, candidate_idx as nat) == Some(init),
            !init.is_empty(),
            lists(needed@, needed_map),
            memory@.dom().disjoint(needed_map.dom()),
        decreases trace_len - idx,
    {
        let offset = offsets[idx];
        let regs = &arch[idx].value;
        assert(inst_fits_at(input@, offset as int));
        let ghost state0 = (memory@, needed_map);
        match decode_memory_read_at(input, offset, regs) {
            MemoryReadDecode::NotLoad => {},
            MemoryReadDecode::Read(read) => {
                let n = read.bytes();
                let mut k: u64 = 0;
                while k < n
                    invariant
                        k <= n <= 8,
                        n == read.width.nbytes(),
                        read_move(state0.0, state0.1, read.addr, k as nat) == (memory@, needed_map),
                        lists(needed@, needed_map),
                        memory@.dom().disjoint(needed_map.dom()),
                    decreases n - k,
                {
                    let addr = read.addr.wrapping_add(k);
                    match memory.remove(&addr) {
                        Some(value) => {
                            proof {
                                assert(!needed_map.contains_key(addr));
                            }
                            insert_sorted(&mut needed, addr, value, Ghost(needed_map));
                            proof {
                                needed_map = needed_map.insert(addr, value);
                                assert(memory@.dom().disjoint(needed_map.dom()));
                            }
                        },
                        None => {},
                    }
                    k += 1;
                }
            },
            MemoryReadDecode::Unsupported => {
                proof {
                    lemma_suffix_memory_none(
                        input@,
                        offsets@,
                        a,
                        candidate_idx as int,
                        (idx - candidate_idx) as nat,
                        (trace_len - candidate_idx) as nat,
                        init,
                    );
                }
                return None;
            },
        }
        match decode_memory_write_at(input, offset, regs) {
            MemoryWriteDecode::NotStore => {},
            MemoryWriteDecode::Write(write) => {
                let n = write.access.bytes();
                let ghost mem1 = memory@;
                let mut k: u64 = 0;
                while k < n
                    invariant
                        k <= n <= 8,
                        n == write.access.width.nbytes(),
                        memory@ == clear_bytes(mem1, write.access.addr, k as nat),
                        memory@.dom().disjoint(needed_map.dom()),
                    decreases n - k,
                {
                    memory.remove(&write.access.addr.wrapping_add(k));
                    k += 1;
                }
            },
            MemoryWriteDecode::Unsupported => {
                proof {
                    lemma_suffix_memory_none(
                        input@,
                        offsets@,
                        a,
                        candidate_idx as int,
                        (idx - candidate_idx) as nat,
                        (trace_len - candidate_idx) as nat,
                        init,
                    );
                }
                return None;
            },
        }
        idx += 1;
    }
    Some(needed)
}

proof fn lemma_prefix_memory_none(
    input: Seq<u8>,
    offsets: Seq<usize>,
    arch: Seq<ArchIntRegState>,
    n: nat,
    m: nat,
)
    requires
        n < m,
        prefix_memory(input, offsets, arch, n) is Some,
        write_decode_at(input, offsets[n as int] as int, arch[n as int].value@)
            == MemoryWriteDecode::Unsupported,
    ensures
        prefix_memory(input, offsets, arch, m) is None,
    decreases m - n,
{
    if m > n + 1 {
        lemma_prefix_memory_none(input, offsets, arch, n, (m - 1) as nat);
    }
}

proof fn lemma_suffix_memory_none_after(
    input: Seq<u8>,
    offsets: Seq<usize>,
    arch: Seq<ArchIntRegState>,
    start: int,
    k: nat,
    m: nat,
    init: Map<u64, u8>,
)
    requires
        k <= m,
        suffix_memory(input, offsets, arch, start, k, init) is None,
    ensures
        suffix_memory(input, offsets, arch, start, m, init) is None,
    decreases m - k,
{
    if m > k {
        lemma_suffix_memory_none_after(input, offsets, arch, start, k, (m - 1) as nat, init);
    }
}

proof fn lemma_suffix_memory_none(
    input: Seq<u8>,
    offsets: Seq<usize>,
    arch: Seq<ArchIntRegState>,
    start: int,
    k: nat,
    m: nat,
    init: Map<u64, u8>,
)
    requires
        k < m,
        suffix_memory(input, offsets, arch, start, k, init) matches Some(state) && suffix_step(
            input,
            offsets[start + k] as int,
            arch[start + k].value@,
            state,
        ) is None,
    ensures
        suffix_memory(input, offsets, arch, start, m, init) is None,
{
    lemma_suffix_memory_none_after(input, offsets, arch, start, k + 1, m, init);
}

/// The first scratch register when the restored registers do not supply
/// one.
pub const DEFAULT_SCRATCH_REG1: u8 = 1;

/// The second default scratch register.
pub const DEFAULT_SCRATCH_REG2: u8 = 2;

/// What the restore code must put back: the registers and CSRs that the
/// skipped prefix changed, with their values at the kept instruction, the
/// memory it wrote that is read later, and the privilege mode to return to.
#[derive(Clone, Debug)]
pub struct ContextRestorePlan {
    pub regs: Vec<(u8, u64)>,
    pub csrs: Vec<(u16, u64)>,
    pub memory_bytes: Vec<MemoryByte>,
    pub target_privilege: u64,
    pub privilege_changed: bool,
    pub mstatus: u64,
    pub scratches: [(u8, u64); 2],
}

/// Register `r` changed somewhere between trace entries 0 and `cand`.
pub open spec fn reg_changed(arch: Seq<ArchIntRegState>, cand: int, r: int) -> bool {
    exists|i: int| 0 <= i < cand && #[trigger] arch[i].value@[r] != arch[i + 1].value@[r]
}

/// The registers from 1 up to `n - 1` that changed before `cand`, with their
/// values at `cand`.
pub open spec fn changed_regs(arch: Seq<ArchIntRegState>, cand: int, n: nat) -> Seq<(u8, u64)>
    decreases n,
{
    if n <= 1 {
        Seq::empty()
    } else {
        let prev = changed_regs(arch, cand, (n - 1) as nat);
        if reg_changed(arch, cand, n - 1) {
            prev.push(((n - 1) as u8, arch[cand].value@[n - 1]))
        } else {
            prev
        }
    }
}

/// The two scratch registers: the first two restored registers, completed
/// with x1 and x2.
pub open spec fn scratch_pair(regs: Seq<(u8, u64)>) -> (u8, u8) {
    if regs.len() >= 2 {
        (regs[0].0, regs[1].0)
    } else if regs.len() == 1 {
        if regs[0].0 != DEFAULT_SCRATCH_REG1 {
            (regs[0].0, DEFAULT_SCRATCH_REG1)
        } else {
            (DEFAULT_SCRATCH_REG1, DEFAULT_SCRATCH_REG2)
        }
    } else {
        (DEFAULT_SCRATCH_REG1, DEFAULT_SCRATCH_REG2)
    }
}

/// The registers `changed_regs` lists are among x1..x(n-1), in strictly
/// ascending order, so the scratch pair is two distinct registers of
/// x1..x31.
pub proof fn lemma_changed_regs_ascending(arch: Seq<ArchIntRegState>, cand: int, n: nat)
    requires
        n <= 32,
    ensures
        forall|i: int|
            0 <= i < changed_regs(arch, cand, n).len() ==> 1 <= #[trigger] changed_regs(arch, cand, n)[i].0 < n,
        forall|i: int, j: int|
            0 <= i < j < changed_regs(arch, cand, n).len() ==> #[trigger] changed_regs(arch, cand, n)[i].0
                < #[trigger] changed_regs(arch, cand, n)[j].0,
        ({
            let (a, b) = scratch_pair(changed_regs(arch, cand, n));
            1 <= a < 32 && 1 <= b < 32 && a != b
        }),
    decreases n,
{
    if n > 1 {
        lemma_changed_regs_ascending(arch, cand, (n - 1) as nat);
        assert(((n - 1) as u8) as int == n - 1);
    }
}

/// The CSRs that a restore can write, with their values in `s`.
pub open spec fn csr_values(s: CSRState) -> Seq<(u16, u64)> {
    seq![
        (CSR_MSTATUS, s.mstatus),
        (CSR_MEPC, s.mepc),
        (CSR_SEPC, s.sepc),
        (CSR_MTVAL, s.mtval),
        (CSR_STVAL, s.stval),
        (CSR_MTVEC, s.mtvec),
        (CSR_STVEC, s.stvec),
        (CSR_MCAUSE, s.mcause),
        (CSR_SCAUSE, s.scause),
        (CSR_SATP, s.satp),
        (CSR_MIP, s.mip),
        (CSR_MIE, s.mie),
        (CSR_MSCRATCH, s.mscratch),
        (CSR_SSCRATCH, s.sscratch),
        (CSR_MIDELEG, s.mideleg),
        (CSR_MEDELEG, s.medeleg),
    ]
}

/// The CSR at position `k` of `csr_values` changed before `cand`.
pub open spec fn csr_changed(csr: Seq<CSRState>, cand: int, k: int) -> bool {
    exists|i: int|
        0 <= i < cand && #[trigger] csr_values(csr[i])[k].1 != csr_values(csr[i + 1])[k].1
}

/// The first `n` restorable CSRs that changed before `cand`, with their
/// values at `cand`.
pub open spec fn changed_csrs(csr: Seq<CSRState>, cand: int, n: nat) -> Seq<(u16, u64)>
    decreases n,
{
    if n == 0 {
        Seq::empty()
    } else {
        let prev = changed_csrs(csr, cand, (n - 1) as nat);
        if csr_changed(csr, cand, n - 1) {
            prev.push(csr_values(csr[cand])[n - 1])
        } else {
            prev
        }
    }
}

/// The restorable CSRs of a state, in restore order.
pub fn csr_value_list(s: &CSRState) -> (v: Vec<(u16, u64)>)
    ensures
        v@ == csr_values(*s),
{
    let v = vec![
        (CSR_MSTATUS, s.mstatus),
        (CSR_MEPC, s.mepc),
        (CSR_SEPC, s.sepc),
        (CSR_MTVAL, s.mtval),
        (CSR_STVAL, s.stval),
        (CSR_MTVEC, s.mtvec),
        (CSR_STVEC, s.stvec),
        (CSR_MCAUSE, s.mcause),
        (CSR_SCAUSE, s.scause),
        (CSR_SATP, s.satp),
        (CSR_MIP, s.mip),
        (CSR_MIE, s.mie),
        (CSR_MSCRATCH, s.mscratch),
        (CSR_SSCRATCH, s.sscratch),
        (CSR_MIDELEG, s.mideleg),
        (CSR_MEDELEG, s.medeleg),
    ];
    assert(v@ =~= csr_values(*s));
    v
}

/// For each register, whether it changed between trace entries 0 and
/// `cand`.
fn changed_reg_flags(arch: &[ArchIntRegState], cand: usize) -> (flags: Vec<bool>)
    requires
        cand < arch@.len(),
    ensures
        flags@.len() == 32,
        forall|r: int| 1 <= r < 32 ==> #[trigger] flags@[r] == reg_changed(arch@, cand as int, r),
{
    let mut flags: Vec<bool> = vec![false; 32];
    let mut i: usize = 0;
    while i < cand
        invariant
            i <= cand < arch@.len(),
            flags@.len() == 32,
            forall|r: int|
                1 <= r < 32 ==> #[trigger] flags@[r] == exists|j: int|
                    0 <= j < i && #[trigger] arch@[j].value@[r] != arch@[j + 1].value@[r],
        decreases cand - i,
    {
        let mut r: usize = 1;
        let ghost before = flags@;
        while r < 32
            invariant
                1 <= r <= 32,
                i < cand < arch@.len(),
                flags@.len() == 32,
                forall|q: int|
                    1 <= q < 32 ==> #[trigger] flags@[q] == (before[q] || (q < r && arch@[i as int].value@[q]
                        != arch@[i + 1].value@[q])),
            decreases 32 - r,
        {
            if arch[i].value[r] != arch[i + 1].value[r] {
                flags.set(r, true);
            }
            r += 1;
        }
        proof {
            assert forall|q: int| 1 <= q < 32 implies #[trigger] flags@[q] == exists|j: int|
                0 <= j < i + 1 && #[trigger] arch@[j].value@[q] != arch@[j + 1].value@[q] by {
                if arch@[i as int].value@[q] != arch@[i + 1].value@[q] {
                    assert(flags@[q]);
                }
            }
        }
        i += 1;
    }
    flags
}

/// For each restorable CSR, whether it changed between trace entries 0 and
/// `cand`.
fn changed_csr_flags(csr: &[CSRState], cand: usize) -> (flags: Vec<bool>)
    requires
        cand < csr@.len(),
    ensures
        flags@.len() == 16,
        forall|k: int| 0 <= k < 16 ==> #[trigger] flags@[k] == csr_changed(csr@, cand as int, k),
{
    let mut flags: Vec<bool> = vec![false; 16];
    let mut i: usize = 0;
    while i < cand
        invariant
            i <= cand < csr@.len(),
            flags@.len() == 16,
            forall|k: int|
                0 <= k < 16 ==> #[trigger] flags@[k] == exists|j: int|
                    0 <= j < i && #[trigger] csr_values(csr@[j])[k].1 != csr_values(csr@[j + 1])[k].1,
        decreases cand - i,
    {
        let previous = csr_value_list(&csr[i]);
        let current = csr_value_list(&csr[i + 1]);
        let mut k: usize = 0;
        let ghost before = flags@;
        while k < 16
            invariant
                k <= 16,
                i < cand < csr@.len(),
                flags@.len() == 16,
                previous@ == csr_values(csr@[i as int]),
                current@ == csr_values(csr@[i + 1]),
                forall|q: int|
                    0 <= q < 16 ==> #[trigger] flags@[q] == (before[q] || (q < k && csr_values(
                        csr@[i as int],
                    )[q].1 != csr_values(csr@[i + 1])[q].1)),
            decreases 16 - k,
        {
            if previous[k].1 != current[k].1 {
                flags.set(k, true);
            }
            k += 1;
        }
        proof {
            assert forall|q: int| 0 <= q < 16 implies #[trigger] flags@[q] == exists|j: int|
                0 <= j < i + 1 && #[trigger] csr_values(csr@[j])[q].1 != csr_values(csr@[j + 1])[q].1 by {
                if csr_values(csr@[i as int])[q].1 != csr_values(csr@[i + 1])[q].1 {
                    assert(flags@[q]);
                }
            }
        }
        i += 1;
    }
    flags
}

/// What must be restored to resume the run at trace entry `candidate_idx`
/// as if the instructions before it had run: the changed registers and
/// CSRs with their values there, the memory bytes the rest reads, the
/// privilege mode, and two scratch registers for the restore code. `None`
/// when a memory access cannot be decoded.
pub fn collect_context_restore_plan(
    original: &StateTrackers,
    input: &[u8],
    offsets: &[usize],
    candidate_idx: usize,
) -> (r: Option<ContextRestorePlan>)
    requires
        trace_fits(
            input@,
            offsets@,
            original.pc_tracker.states(),
            original.arch_int_reg_tracker.states(),
        ),
        candidate_idx <= original.pc_tracker.states().len(),
        candidate_idx < original.arch_int_reg_tracker.states().len(),
        candidate_idx < original.csr_tracker.states().len(),
    ensures
        ({
            let arch = original.arch_int_reg_tracker.states();
            let csr = original.csr_tracker.states();
            let c = candidate_idx as int;
            match needed_memory(
                input@,
                offsets@,
                arch,
                original.pc_tracker.states().len(),
                candidate_idx as nat,
            ) {
                None => r is None,
                Some(m) => r matches Some(plan) && {
                    let regs = changed_regs(arch, c, 32);
                    let (s0, s1) = scratch_pair(regs);
                    &&& plan.regs@ == regs
                    &&& plan.csrs@ == changed_csrs(csr, c, 16)
                    &&& lists(plan.memory_bytes@, m)
                    &&& plan.target_privilege == csr[c].privilege_mode
                    &&& plan.privilege_changed == (csr[0].privilege_mode != csr[c].privilege_mode)
                    &&& plan.mstatus == csr[c].mstatus
                    &&& plan.scratches@ == seq![(s0, arch[c].value@[s0 as int]), (s1, arch[c].value@[s1 as int])]
                    &&& forall|i: int, j: int|
                        0 <= i < j < plan.regs@.len() ==> #[trigger] plan.regs@[i].0 < #[trigger] plan.regs@[j].0
                    &&& forall|i: int| 0 <= i < plan.regs@.len() ==> 1 <= #[trigger] plan.regs@[i].0 <= 31
                    &&& 1 <= s0 <= 31 && 1 <= s1 <= 31 && s0 != s1
                },
            }
        }),
{
    let arch_trace = original.arch_int_reg_tracker.as_slice();
    let csr_trace = original.csr_tracker.as_slice();
    let arch = arch_trace[candidate_idx];
    let csr = csr_trace[candidate_idx];
    let reg_flags = changed_reg_flags(arch_trace, candidate_idx);
    proof {
        lemma_changed_regs_ascending(arch_trace@, candidate_idx as int, 32);
    }
    let mut regs: Vec<(u8, u64)> = Vec::new();
    let mut r: usize = 1;
    while r < 32
        invariant
            1 <= r <= 32,
            candidate_idx < arch_trace@.len(),
            arch == arch_trace@[candidate_idx as int],
            reg_flags@.len() == 32,
            forall|q: int| 1 <= q < 32 ==> #[trigger] reg_flags@[q] == reg_changed(arch_trace@, candidate_idx as int, q),
            regs@ == changed_regs(arch_trace@, candidate_idx as int, r as nat),
            forall|k: int| 0 <= k < regs@.len() ==> 1 <= #[trigger] regs@[k].0 < r,
        decreases 32 - r,
    {
        if reg_flags[r] {
            regs.push((r as u8, arch.value[r]));
        }
        r += 1;
    }
    let s0 = if regs.len() >= 1 {
        regs[0].0
    } else {
        DEFAULT_SCRATCH_REG1
    };
    let s1 = if regs.len() >= 2 {
        regs[1].0
    } else if s0 != DEFAULT_SCRATCH_REG1 {
        DEFAULT_SCRATCH_REG1
    } else {
        DEFAULT_SCRATCH_REG2
    };
    assert(s0 < 32 && s1 < 32);
    let scratches = [(s0, arch.value[s0 as usize]), (s1, arch.value[s1 as usize])];
    let privilege_changed = csr_trace[0].privilege_mode != csr.privilege_mode;
    let csr_flags = changed_csr_flags(csr_trace, candidate_idx);
    let values = csr_value_list(&csr);
    let mut csrs: Vec<(u16, u64)> = Vec::new();
    let mut k: usize = 0;
    while k < 16
        invariant
            k <= 16,
            candidate_idx < csr_trace@.len(),
            csr == csr_trace@[candidate_idx as int],
            values@ == csr_values(csr),
            csr_flags@.len() == 16,
            forall|q: int| 0 <= q < 16 ==> #[trigger] csr_flags@[q] == csr_changed(csr_trace@, candidate_idx as int, q),
            csrs@ == changed_csrs(csr_trace@, candidate_idx as int, k as nat),
        decreases 16 - k,
    {
        if csr_flags[k] {
            csrs.push(values[k]);
        }
        k += 1;
    }
    let memory_bytes = match collect_memory_bytes(input, offsets, original, candidate_idx) {
        Some(m) => m,
        None => return None,
    };
    let plan = ContextRestorePlan {
        regs,
        csrs,
        memory_bytes,
        target_privilege: csr.privilege_mode,
        privilege_changed,
        mstatus: csr.mstatus,
        scratches,
    };
    assert(plan.scratches@ =~= seq![(s0, arch.value@[s0 as int]), (s1, arch.value@[s1 as int])]);
    Some(plan)
}

/// `pc` is executed at or after trace entry `cand`.
pub open spec fn in_suffix(s: Seq<PCState>, cand: int, pc: u64) -> bool {
    exists|j: int| cand <= j < s.len() && #[trigger] s[j].value == pc
}

/// `pc` is executed at an entry in `[lo, i)`.
pub open spec fn seen_between(s: Seq<PCState>, lo: int, i: int, pc: u64) -> bool {
    exists|j: int| lo <= j < i && #[trigger] s[j].value == pc
}

/// `bytes` after the instructions of entries `1 .. n` that the kept part
/// never executes were replaced by no-ops, each pc once.
pub open spec fn prefix_nops(
    input: Seq<u8>,
    offsets: Seq<usize>,
    s: Seq<PCState>,
    cand: int,
    n: nat,
    bytes: Seq<u8>,
) -> Seq<u8>
    decreases n,
{
    if n <= 1 {
        bytes
    } else {
        let prev = prefix_nops(input, offsets, s, cand, (n - 1) as nat, bytes);
        let i = n - 1;
        let pc = s[i].value;
        if in_suffix(s, cand, pc) || seen_between(s, 1, i, pc) {
            prev
        } else {
            let off = offsets[i] as int;
            with_nop(prev, off, inst_len_of(halfword_at(input, off)) as int)
        }
    }
}

/// Replaces with no-ops the instructions that only the skipped prefix
/// executed (after the entry instruction, which becomes the jump).
pub fn nop_skipped_prefix_insts(
    bytes: &mut [u8],
    input: &[u8],
    offsets: &[usize],
    original: &StateTrackers,
    candidate_idx: usize,
)
    requires
        old(bytes)@.len() == input@.len(),
        trace_fits(
            input@,
            offsets@,
            original.pc_tracker.states(),
            original.arch_int_reg_tracker.states(),
        ),
        1 <= candidate_idx <= original.pc_tracker.states().len(),
    ensures
        final(bytes)@ == prefix_nops(
            input@,
            offsets@,
            original.pc_tracker.states(),
            candidate_idx as int,
            candidate_idx as nat,
            old(bytes)@,
        ),
{
    let pcs = original.pc_tracker.as_slice();
    let ghost s = pcs@;
    let mut suffix: HashSet<u64> = HashSet::new();
    let mut j = candidate_idx;
    while j < pcs.len()
        invariant
            candidate_idx <= j <= pcs@.len(),
            s == pcs@,
            forall|v: u64|
                suffix@.contains(v) <==> exists|k: int| candidate_idx <= k < j && #[trigger] s[k].value == v,
        decreases pcs@.len() - j,
    {
        suffix.insert(pcs[j].value);
        proof {
            assert forall|v: u64| suffix@.contains(v) <==> exists|k: int|
                candidate_idx <= k < j + 1 && #[trigger] s[k].value == v by {
                if v == s[j as int].value {
                    assert(s[j as int].value == v);
                }
            }
        }
        j += 1;
    }
    let mut nopped: HashSet<u64> = HashSet::new();
    let mut i: usize = 1;
    while i < candidate_idx
        invariant
            1 <= i <= candidate_idx <= pcs@.len(),
            s == pcs@,
            s == original.pc_tracker.states(),
            bytes@.len() == input@.len(),
            trace_fits(input@, offsets@, s, original.arch_int_reg_tracker.states()),
            forall|v: u64| suffix@.contains(v) <==> in_suffix(s, candidate_idx as int, v),
            forall|v: u64|
                nopped@.contains(v) <==> (seen_between(s, 1, i as int, v) && !in_suffix(
                    s,
                    candidate_idx as int,
                    v,
                )),
            bytes@ == prefix_nops(input@, offsets@, s, candidate_idx as int, i as nat, old(bytes)@),
        decreases candidate_idx - i,
    {
        let pc = pcs[i].value;
        let ghost prev_nopped = nopped@;
        if suffix.contains(&pc) {
            proof {
                assert forall|v: u64| nopped@.contains(v) <==> (seen_between(s, 1, i + 1, v)
                    && !in_suffix(s, candidate_idx as int, v)) by {
                    if seen_between(s, 1, i + 1, v) && !seen_between(s, 1, i as int, v) {
                        let k = choose|k: int| 1 <= k < i + 1 && #[trigger] s[k].value == v;
                        assert(k == i);
                    }
                    if seen_between(s, 1, i as int, v) {
                        let k = choose|k: int| 1 <= k < i && #[trigger] s[k].value == v;
                        assert(s[k].value == v);
                    }
                }
            }
        } else if !nopped.insert(pc) {
            proof {
                assert(seen_between(s, 1, i as int, pc));
                assert forall|v: u64| nopped@.contains(v) <==> (seen_between(s, 1, i + 1, v)
                    && !in_suffix(s, candidate_idx as int, v)) by {
                    if seen_between(s, 1, i + 1, v) && !seen_between(s, 1, i as int, v) {
                        let k = choose|k: int| 1 <= k < i + 1 && #[trigger] s[k].value == v;
                        assert(k == i);
                    }
                    if seen_between(s, 1, i as int, v) {
                        let k = choose|k: int| 1 <= k < i && #[trigger] s[k].value == v;
                        assert(s[k].value == v);
                    }
                }
            }
        } else {
            proof {
                assert(!seen_between(s, 1, i as int, pc));
                assert(inst_fits_at(input@, offsets@[i as int] as int));
            }
            nop_inst_at(bytes, input, offsets[i]);
            proof {
                assert forall|v: u64| nopped@.contains(v) <==> (seen_between(s, 1, i + 1, v)
                    && !in_suffix(s, candidate_idx as int, v)) by {
                    if v == pc {
                        assert(s[i as int].value == v);
                    }
                    if seen_between(s, 1, i + 1, v) && !seen_between(s, 1, i as int, v) {
                        let k = choose|k: int| 1 <= k < i + 1 && #[trigger] s[k].value == v;
                        assert(k == i);
                    }
                    if seen_between(s, 1, i as int, v) {
                        let k = choose|k: int| 1 <= k < i && #[trigger] s[k].value == v;
                        assert(s[k].value == v);
                    }
                }
            }
        }
        i += 1;
    }
}

/// The restore returns to a lower privilege mode through `mret`.
pub open spec fn use_mret(plan: ContextRestorePlan) -> bool {
    plan.privilege_changed && plan.target_privilege != 3
}

/// The CSR writes of the plan, without `mstatus` and `mepc` when `mret`
/// sets them.
pub open spec fn csr_words(csrs: Seq<(u16, u64)>, mret: bool, addr_reg: u8) -> Seq<u32>
    decreases csrs.len(),
{
    if csrs.len() == 0 {
        Seq::empty()
    } else {
        let prev = csr_words(csrs.drop_last(), mret, addr_reg);
        let (addr, value) = csrs.last();
        if mret && (addr == CSR_MSTATUS || addr == CSR_MEPC) {
            prev
        } else {
            prev + write_csr_words(addr, value, addr_reg)
        }
    }
}

/// The register loads of the plan, without the two scratch registers.
pub open spec fn reg_words(regs: Seq<(u8, u64)>, a: u8, b: u8) -> Seq<u32>
    decreases regs.len(),
{
    if regs.len() == 0 {
        Seq::empty()
    } else {
        let prev = reg_words(regs.drop_last(), a, b);
        let (reg, value) = regs.last();
        if reg != a && reg != b {
            prev + load_u64_words(reg, value)
        } else {
            prev
        }
    }
}

/// The code before the `mepc` write: the CSR writes, then (for `mret`)
/// `mstatus` with the target mode in MPP.
pub open spec fn pre_words(plan: ContextRestorePlan) -> Seq<u32> {
    let a = plan.scratches@[0].0;
    let head = csr_words(plan.csrs@, use_mret(plan), a);
    if use_mret(plan) {
        head + write_csr_words(CSR_MSTATUS, with_mpp(plan.mstatus, plan.target_privilege), a)
    } else {
        head
    }
}

/// The address right after `mret` when `count` instructions precede the
/// `mepc` write: iterated from a guess until the length of the write that
/// loads it no longer changes it, at most `fuel` times.
pub open spec fn converge_mepc(context_pc: int, count: int, addr_reg: u8, cont: int, fuel: nat) -> Option<
    int,
>
    decreases fuel,
{
    if fuel == 0 {
        None
    } else {
        let m = write_csr_words(CSR_MEPC, cont as u64, addr_reg).len();
        let next = context_pc + (count + m + 1) * 4;
        if next == cont {
            Some(cont)
        } else {
            converge_mepc(context_pc, count, addr_reg, next, (fuel - 1) as nat)
        }
    }
}

/// The restore code up to the final jump, placed at `context_pc`; `None`
/// when the return address after `mret` does not settle.
#[verifier::opaque]
pub open spec fn body_words(plan: ContextRestorePlan, context_pc: u64) -> Option<Seq<u32>> {
    let a = plan.scratches@[0].0;
    let b = plan.scratches@[1].0;
    let pre = pre_words(plan);
    let mid: Option<Seq<u32>> = if use_mret(plan) {
        match converge_mepc(context_pc as int, pre.len() as int, a, context_pc + (pre.len() + 3) * 4, 4) {
            None => None,
            Some(c) => Some(write_csr_words(CSR_MEPC, c as u64, a).push(MRET_INSN)),
        }
    } else {
        Some(Seq::empty())
    };
    match mid {
        None => None,
        Some(m) => Some(
            pre + m + restore_words(plan.memory_bytes@, a, b) + reg_words(plan.regs@, a, b)
                + load_u64_words(a, plan.scratches@[0].1) + load_u64_words(b, plan.scratches@[1].1),
        ),
    }
}

/// An upper bound on the number of instructions of the restore code.
pub open spec fn restore_bound(plan: ContextRestorePlan) -> int {
    (9 * plan.csrs@.len() + 19 + 17 * plan.memory_bytes@.len() + 8 * plan.regs@.len() + 17) as int
}

proof fn lemma_write_csr_len(csr: u16, value: u64, reg: u8)
    ensures
        1 <= write_csr_words(csr, value, reg).len() <= 9,
{
    lemma_load_u64_len(reg, value);
}

proof fn lemma_csr_words_len(csrs: Seq<(u16, u64)>, mret: bool, a: u8)
    ensures
        csr_words(csrs, mret, a).len() <= 9 * csrs.len(),
    decreases csrs.len(),
{
    if csrs.len() > 0 {
        lemma_csr_words_len(csrs.drop_last(), mret, a);
        lemma_write_csr_len(csrs.last().0, csrs.last().1, a);
    }
}

proof fn lemma_reg_words_len(regs: Seq<(u8, u64)>, a: u8, b: u8)
    ensures
        reg_words(regs, a, b).len() <= 8 * regs.len(),
    decreases regs.len(),
{
    if regs.len() > 0 {
        lemma_reg_words_len(regs.drop_last(), a, b);
        lemma_load_u64_len(regs.last().0, regs.last().1);
    }
}

proof fn lemma_restore_words_len(mb: Seq<MemoryByte>, a: u8, b: u8)
    ensures
        restore_words(mb, a, b).len() <= 17 * mb.len(),
    decreases mb.len(),
{
    if mb.len() > 0 {
        let w = restore_width(mb);
        let n = w.nbytes() as int;
        assert(1 <= n <= mb.len());
        lemma_restore_words_len(mb.skip(n), a, b);
        lemma_load_u64_len(a, mb[0].addr);
        lemma_load_u64_len(b, crate::inst::chunk_value(mb, n as nat));
    }
}

/// Appends the CSR writes of `csrs` through `addr_reg`, leaving out
/// `mstatus` and `mepc` when `mret` sets them.
fn append_csr_writes(output: &mut Vec<u8>, csrs: &[(u16, u64)], mret: bool, addr_reg: u8) -> (count: u64)
    requires
        csrs@.len() <= u64::MAX / 16,
    ensures
        final(output)@ == old(output)@ + words_bytes(csr_words(csrs@, mret, addr_reg)),
        count == csr_words(csrs@, mret, addr_reg).len(),
{
    let ghost mut emitted: Seq<u32> = Seq::empty();
    proof {
        assert(old(output)@ + words_bytes(emitted) =~= old(output)@);
    }
    let mut count: u64 = 0;
    let mut i: usize = 0;
    while i < csrs.len()
        invariant
            i <= csrs@.len() <= u64::MAX / 16,
            emitted == csr_words(csrs@.take(i as int), mret, addr_reg),
            output@ == old(output)@ + words_bytes(emitted),
            count == emitted.len(),
            count <= 9 * i,
        decreases csrs@.len() - i,
    {
        let (csr_addr, csr_value) = csrs[i];
        proof {
            assert(csrs@.take(i + 1).drop_last() =~= csrs@.take(i as int));
        }
        if !(mret && (csr_addr == CSR_MSTATUS || csr_addr == CSR_MEPC)) {
            let c = append_write_csr(output, csr_addr, csr_value, addr_reg);
            proof {
                lemma_words_bytes_append(emitted, write_csr_words(csr_addr, csr_value, addr_reg));
                lemma_write_csr_len(csr_addr, csr_value, addr_reg);
                emitted = emitted + write_csr_words(csr_addr, csr_value, addr_reg);
            }
            count += c;
        }
        i += 1;
    }
    proof {
        assert(csrs@.take(i as int) =~= csrs@);
    }
    count
}

/// Appends the loads of the registers of `regs` other than `a` and `b`.
fn append_reg_loads(output: &mut Vec<u8>, regs: &[(u8, u64)], a: u8, b: u8) -> (count: u64)
    requires
        regs@.len() <= u64::MAX / 16,
    ensures
        final(output)@ == old(output)@ + words_bytes(reg_words(regs@, a, b)),
        count == reg_words(regs@, a, b).len(),
{
    let ghost mut emitted: Seq<u32> = Seq::empty();
    proof {
        assert(old(output)@ + words_bytes(emitted) =~= old(output)@);
    }
    let mut count: u64 = 0;
    let mut i: usize = 0;
    while i < regs.len()
        invariant
            i <= regs@.len() <= u64::MAX / 16,
            emitted == reg_words(regs@.take(i as int), a, b),
            output@ == old(output)@ + words_bytes(emitted),
            count == emitted.len(),
            count <= 8 * i,
        decreases regs@.len() - i,
    {
        let (reg, value) = regs[i];
        proof {
            assert(regs@.take(i + 1).drop_last() =~= regs@.take(i as int));
        }
        if reg != a && reg != b {
            let c = append_load_u64(output, reg, value);
            proof {
                lemma_load_u64_len(reg, value);
                lemma_words_bytes_append(emitted, load_u64_words(reg, value));
                emitted = emitted + load_u64_words(reg, value);
            }
            count += c;
        }
        i += 1;
    }
    proof {
        assert(regs@.take(i as int) =~= regs@);
    }
    count
}

/// The return address after `mret` when `count` instructions precede the
/// `mepc` write at `context_pc`.
fn mret_continuation(context_pc: u64, count: u64, addr_reg: u8) -> (r: Option<u64>)
    requires
        context_pc + (count + 10) * 4 <= u64::MAX,
    ensures
        match converge_mepc(context_pc as int, count as int, addr_reg, context_pc + (count + 3) * 4, 4) {
            None => r is None,
            Some(c) => r == Some(c as u64),
        },
{
    let mut continuation_pc = context_pc + (count + 3) * 4;
    let mut converged = false;
    let mut t: usize = 0;
    while t < 4 && !converged
        invariant
            t <= 4,
            context_pc + (count + 10) * 4 <= u64::MAX,
            context_pc + (count + 2) * 4 <= continuation_pc <= context_pc + (count + 10) * 4,
            converge_mepc(context_pc as int, count as int, addr_reg, context_pc + (count + 3) * 4, 4)
                == (if converged {
                Some(continuation_pc as int)
            } else {
                converge_mepc(context_pc as int, count as int, addr_reg, continuation_pc as int, (4 - t) as nat)
            }),
        decreases 4 - t,
    {
        let mut scratch: Vec<u8> = Vec::new();
        let mepc_inst_count = append_write_csr(&mut scratch, CSR_MEPC, continuation_pc, addr_reg);
        proof {
            lemma_write_csr_len(CSR_MEPC, continuation_pc, addr_reg);
        }
        let next_continuation_pc = context_pc + (count + mepc_inst_count + 1) * 4;
        if next_continuation_pc == continuation_pc {
            converged = true;
        } else {
            continuation_pc = next_continuation_pc;
        }
        t += 1;
    }
    if !converged {
        return None;
    }
    Some(continuation_pc)
}

/// The part of the restore code that sets the CSRs and, for a return to a
/// lower privilege mode, ends with the `mret`.
#[verifier::opaque]
pub open spec fn head_words(plan: ContextRestorePlan, context_pc: u64) -> Option<Seq<u32>> {
    let a = plan.scratches@[0].0;
    let pre = pre_words(plan);
    if use_mret(plan) {
        match converge_mepc(context_pc as int, pre.len() as int, a, context_pc + (pre.len() + 3) * 4, 4) {
            None => None,
            Some(c) => Some(pre + write_csr_words(CSR_MEPC, c as u64, a).push(MRET_INSN)),
        }
    } else {
        Some(pre)
    }
}

/// The part of the restore code that stores the memory bytes and loads the
/// registers, the scratch registers last.
#[verifier::opaque]
pub open spec fn tail_words(plan: ContextRestorePlan) -> Seq<u32> {
    let a = plan.scratches@[0].0;
    let b = plan.scratches@[1].0;
    restore_words(plan.memory_bytes@, a, b) + reg_words(plan.regs@, a, b) + load_u64_words(
        a,
        plan.scratches@[0].1,
    ) + load_u64_words(b, plan.scratches@[1].1)
}

proof fn lemma_body_split(plan: ContextRestorePlan, context_pc: u64)
    ensures
        body_words(plan, context_pc) == match head_words(plan, context_pc) {
            None => None,
            Some(h) => Some(h + tail_words(plan)),
        },
{
    reveal(body_words);
    reveal(head_words);
    reveal(tail_words);
    let a = plan.scratches@[0].0;
    let b = plan.scratches@[1].0;
    let pre = pre_words(plan);
    match head_words(plan, context_pc) {
        None => {},
        Some(h) => {
            let m = if use_mret(plan) {
                h.skip(pre.len() as int)
            } else {
                Seq::<u32>::empty()
            };
            if use_mret(plan) {
                assert(h.skip(pre.len() as int) =~= write_csr_words(
                    CSR_MEPC,
                    converge_mepc(
                        context_pc as int,
                        pre.len() as int,
                        a,
                        context_pc + (pre.len() + 3) * 4,
                        4,
                    ).unwrap() as u64,
                    a,
                ).push(MRET_INSN));
            }
            assert(pre + m =~= h);
            assert(pre + m + restore_words(plan.memory_bytes@, a, b) + reg_words(plan.regs@, a, b)
                + load_u64_words(a, plan.scratches@[0].1) + load_u64_words(b, plan.scratches@[1].1)
                =~= h + tail_words(plan));
        },
    }
}

/// Appends the CSR part of the restore code (see `head_words`).
#[verifier::rlimit(40)]
fn append_restore_head(output: &mut Vec<u8>, plan: &ContextRestorePlan, context_pc: u64) -> (r: Option<u64>)
    requires
        use_mret(*plan) ==> plan.target_privilege <= 1,
        context_pc + 4 * restore_bound(*plan) <= u64::MAX,
    ensures
        match head_words(*plan, context_pc) {
            None => r is None && final(output)@ == old(output)@ + words_bytes(pre_words(*plan)),
            Some(h) => r == Some(h.len() as u64) && final(output)@ == old(output)@ + words_bytes(h)
                && h.len() <= 9 * plan.csrs@.len() + 19,
        },
{
    reveal(head_words);
    let mret = plan.privilege_changed && plan.target_privilege != 3;
    let addr_reg = plan.scratches[0].0;
    let ghost a = addr_reg;
    proof {
        lemma_csr_words_len(plan.csrs@, mret, a);
    }
    let mut count = append_csr_writes(output, plan.csrs.as_slice(), mret, addr_reg);
    let ghost mut emitted: Seq<u32> = csr_words(plan.csrs@, mret, a);
    if !mret {
        return Some(count);
    }
    let mstatus = mstatus_with_mpp(plan.mstatus, plan.target_privilege);
    let c = append_write_csr(output, CSR_MSTATUS, mstatus, addr_reg);
    proof {
        lemma_words_bytes_append(emitted, write_csr_words(CSR_MSTATUS, mstatus, a));
        lemma_write_csr_len(CSR_MSTATUS, mstatus, a);
        emitted = emitted + write_csr_words(CSR_MSTATUS, mstatus, a);
    }
    count += c;
    assert(emitted == pre_words(*plan));
    let continuation_pc = match mret_continuation(context_pc, count, addr_reg) {
        Some(c) => c,
        None => return None,
    };
    let c = append_write_csr(output, CSR_MEPC, continuation_pc, addr_reg);
    proof {
        lemma_write_csr_len(CSR_MEPC, continuation_pc, a);
        lemma_words_bytes_append(emitted, write_csr_words(CSR_MEPC, continuation_pc, a));
        emitted = emitted + write_csr_words(CSR_MEPC, continuation_pc, a);
    }
    push_inst(output, MRET_INSN);
    proof {
        lemma_words_bytes_append(emitted, seq![MRET_INSN]);
        reveal_with_fuel(words_bytes, 2);
        assert(seq![MRET_INSN].drop_last() =~= Seq::<u32>::empty());
        assert(emitted + seq![MRET_INSN] =~= pre_words(*plan) + write_csr_words(
            CSR_MEPC,
            continuation_pc,
            a,
        ).push(MRET_INSN));
        emitted = emitted + seq![MRET_INSN];
    }
    Some(count + c + 1)
}

/// Appends the memory and register part of the restore code (see
/// `tail_words`).
fn append_restore_tail(output: &mut Vec<u8>, plan: &ContextRestorePlan) -> (count: u64)
    requires
        4 * restore_bound(*plan) <= u64::MAX,
    ensures
        final(output)@ == old(output)@ + words_bytes(tail_words(*plan)),
        count == tail_words(*plan).len(),
        count <= 17 * plan.memory_bytes@.len() + 8 * plan.regs@.len() + 16,
{
    reveal(tail_words);
    let addr_reg = plan.scratches[0].0;
    let value_reg = plan.scratches[1].0;
    let ghost a = addr_reg;
    let ghost b = value_reg;
    proof {
        lemma_reg_words_len(plan.regs@, a, b);
        lemma_restore_words_len(plan.memory_bytes@, a, b);
        lemma_load_u64_len(a, plan.scratches@[0].1);
        lemma_load_u64_len(b, plan.scratches@[1].1);
    }
    let c = append_memory_restore(output, plan.memory_bytes.as_slice(), addr_reg, value_reg);
    let ghost mut emitted = restore_words(plan.memory_bytes@, a, b);
    let c1 = append_reg_loads(output, plan.regs.as_slice(), addr_reg, value_reg);
    proof {
        lemma_words_bytes_append(emitted, reg_words(plan.regs@, a, b));
        emitted = emitted + reg_words(plan.regs@, a, b);
    }
    let c2 = append_load_u64(output, addr_reg, plan.scratches[0].1);
    proof {
        lemma_words_bytes_append(emitted, load_u64_words(a, plan.scratches@[0].1));
        emitted = emitted + load_u64_words(a, plan.scratches@[0].1);
    }
    let c3 = append_load_u64(output, value_reg, plan.scratches[1].1);
    proof {
        lemma_words_bytes_append(emitted, load_u64_words(b, plan.scratches@[1].1));
        emitted = emitted + load_u64_words(b, plan.scratches@[1].1);
        assert(emitted == tail_words(*plan));
    }
    c + c1 + c2 + c3
}

/// Appends the restore code to `output`, placed at `context_pc`: the CSR
/// writes; for a return to a lower privilege mode, `mstatus` with the
/// target mode, `mepc` pointing just past an `mret`, and the `mret`; the
/// memory bytes; the registers other than the two scratch ones; the scratch
/// registers last; then a `jal` to `target_pc`. Returns the number of
/// instructions; `None` when the `mret` return address does not settle or
/// `target_pc` is out of `jal` reach.
pub fn append_context_restore(
    output: &mut Vec<u8>,
    context_pc: u64,
    plan: &ContextRestorePlan,
    target_pc: u64,
) -> (r: Option<u64>)
    requires
        context_pc % 2 == 0,
        target_pc % 2 == 0,
        use_mret(*plan) ==> plan.target_privilege <= 1,
        context_pc + 4 * restore_bound(*plan) <= u64::MAX,
    ensures
        body_words(*plan, context_pc) matches Some(body) ==> body.len() + 1 <= restore_bound(*plan),
        match body_words(*plan, context_pc) {
            None => r is None && final(output)@ == old(output)@ + words_bytes(pre_words(*plan)),
            Some(body) => match jmp_words(
                (context_pc + 4 * body.len()) as u64,
                target_pc,
                false,
                None,
            ) {
                None => r is None && final(output)@ == old(output)@ + words_bytes(body),
                Some(j) => r == Some((body.len() + 1) as u64) && final(output)@ == old(output)@
                    + words_bytes(body + j),
            },
        },
{
    proof {
        lemma_body_split(*plan, context_pc);
    }
    let head = match append_restore_head(output, plan, context_pc) {
        Some(h) => h,
        None => return None,
    };
    let ghost h = head_words(*plan, context_pc).unwrap();
    let tail = append_restore_tail(output, plan);
    proof {
        lemma_words_bytes_append(h, tail_words(*plan));
    }
    let count = head + tail;
    let jal_pc = context_pc + count * 4;
    let jmp = match encode_jmp(jal_pc, target_pc, false, None) {
        Some(j) => j,
        None => return None,
    };
    let ghost j = jmp_words(jal_pc, target_pc, false, None).unwrap();
    let mut jmp = jmp;
    output.append(&mut jmp);
    proof {
        lemma_words_bytes_append(h + tail_words(*plan), j);
        reveal_with_fuel(words_bytes, 2);
        assert(j.drop_last() =~= Seq::<u32>::empty());
    }
    Some(count + 1)
}

/// The alignment of an inserted code segment.
pub const CODE_SEGMENT_ALIGN: u64 = 0x1000;

/// Trace entries before this index are never a place to resume from.
pub const SKIP_START_INST_NUM: usize = 20;

/// The restore code of `plan` placed at `cp`, as bytes with its instruction
/// count; `None` when it cannot be built, or would not fit below the top
/// of the address space.
pub open spec fn restore_code(plan: ContextRestorePlan, cp: u64, target_pc: u64) -> Option<(Seq<u8>, int)> {
    if cp + 4 * restore_bound(plan) > u64::MAX {
        None
    } else {
        match body_words(plan, cp) {
            None => None,
            Some(body) => match jmp_words((cp + 4 * body.len()) as u64, target_pc, false, None) {
                None => None,
                Some(j) => Some((words_bytes(body + j), (body.len() + 1) as int)),
            },
        }
    }
}

/// Settling the address of the restore code: at most `fuel` times, look
/// for room for the current code; if that is where it was built, keep it,
/// else rebuild it and look again from the new address.
pub open spec fn place_restore(
    segs: Seq<LoadSegment>,
    plan: ContextRestorePlan,
    target_pc: u64,
    cp: u64,
    code: Seq<u8>,
    count: int,
    fuel: nat,
) -> Option<(u64, Seq<u8>, int)>
    decreases fuel,
{
    if fuel == 0 {
        None
    } else {
        match find_insert_spec(segs, code.len() as u64, CODE_SEGMENT_ALIGN) {
            Err(_) => None,
            Ok(next) => if next == cp {
                Some((cp, code, count))
            } else {
                match restore_code(plan, cp, target_pc) {
                    None => None,
                    Some((c2, n2)) => place_restore(segs, plan, target_pc, next, c2, n2, (fuel - 1) as nat),
                }
            },
        }
    }
}

/// Where the restore code for resuming at `target_pc` goes, with its bytes
/// and instruction count.
pub open spec fn prefix_placement(
    segs: Seq<LoadSegment>,
    plan: ContextRestorePlan,
    target_pc: u64,
    entry_pc: u64,
) -> Option<(u64, Seq<u8>, int)> {
    let distance = if target_pc >= entry_pc {
        target_pc - entry_pc
    } else {
        entry_pc - target_pc
    };
    match find_insert_spec(segs, distance as u64, CODE_SEGMENT_ALIGN) {
        Err(_) => None,
        Ok(cp) => match restore_code(plan, cp, target_pc) {
            None => None,
            Some((code, n)) => place_restore(segs, plan, target_pc, cp, code, n, 4),
        },
    }
}

/// Builds the restore code of `plan` at `cp`.
fn emit_restore(plan: &ContextRestorePlan, cp: u64, target_pc: u64) -> (r: Option<(Vec<u8>, u64)>)
    requires
        cp % 2 == 0,
        target_pc % 2 == 0,
        use_mret(*plan) ==> plan.target_privilege <= 1,
    ensures
        match restore_code(*plan, cp, target_pc) {
            None => r is None,
            Some((code, n)) => r matches Some(v) && v.0@ == code && v.1 == n,
        },
{
    let bound = 9 * (plan.csrs.len() as u128) + 19 + 17 * (plan.memory_bytes.len() as u128) + 8
        * (plan.regs.len() as u128) + 17;
    assert(bound == restore_bound(*plan));
    if (cp as u128) + 4 * bound > u64::MAX as u128 {
        return None;
    }
    let mut code: Vec<u8> = Vec::new();
    match append_context_restore(&mut code, cp, plan, target_pc) {
        None => None,
        Some(n) => {
            assert(code@ =~= Seq::<u8>::empty() + code@);
            Some((code, n))
        },
    }
}

/// A candidate for resuming at a later trace entry: the input with the
/// entry jump written and the skipped prefix nopped, the restore code and
/// where it goes, and how many instructions the candidate's run executes.
pub struct PrefixCandidate {
    pub bytes: Vec<u8>,
    pub context_code: Vec<u8>,
    pub context_pc: u64,
    pub max_inst: usize,
}

/// Builds the candidate that resumes the run at trace entry
/// `candidate_idx` (pc `candidate_pc`): the restore code of `plan` placed
/// where the layout has room, a long jump from the entry instruction (at
/// file offset `entry_offset`) to it, and the instructions only the
/// skipped prefix ran replaced by no-ops. `None` when the code cannot be
/// placed, either jump cannot be encoded, the jump does not fit in the
/// file, or a count overflows.
pub fn build_prefix_candidate(
    input: &[u8],
    layout: &ElfLayout,
    offsets: &[usize],
    original: &StateTrackers,
    plan: &ContextRestorePlan,
    candidate_idx: usize,
    candidate_pc: u64,
    entry_offset: usize,
) -> (r: Option<PrefixCandidate>)
    requires
        trace_fits(
            input@,
            offsets@,
            original.pc_tracker.states(),
            original.arch_int_reg_tracker.states(),
        ),
        original.consistent(),
        1 <= candidate_idx <= original.pc_tracker.states().len(),
        pcs_aligned(original.pc_tracker.states()),
        candidate_pc % 2 == 0,
        use_mret(*plan) ==> plan.target_privilege <= 1,
        entry_offset + 8 <= usize::MAX,
    ensures
        ({
            let s = original.pc_tracker.states();
            let entry_pc = s[0].value;
            match prefix_placement(layout.load_segments@, *plan, candidate_pc, entry_pc) {
                None => r is None,
                Some((cp, code, count)) => match jmp_words(
                    entry_pc,
                    cp,
                    true,
                    Some(plan.scratches@[0].0 as u64),
                ) {
                    None => r is None,
                    Some(ej) => {
                        let jb = words_bytes(ej);
                        let suffix = if original.max_len() > candidate_idx {
                            original.max_len() - candidate_idx
                        } else {
                            0
                        };
                        let total = jb.len() / 4 + count + suffix;
                        if entry_offset + jb.len() > input@.len() || count > usize::MAX || total
                            > usize::MAX {
                            r is None
                        } else {
                            r matches Some(c) && c.context_pc == cp && c.context_code@ == code
                                && c.max_inst == total && c.bytes@ == prefix_nops(
                                input@,
                                offsets@,
                                s,
                                candidate_idx as int,
                                candidate_idx as nat,
                                with_bytes(input@, entry_offset as int, jb),
                            )
                        }
                    },
                },
            }
        }),
{
    let pcs = original.pc_tracker.as_slice();
    let entry_pc = pcs[0].value;
    assert(entry_pc % 2 == 0);
    let distance = if candidate_pc >= entry_pc {
        candidate_pc - entry_pc
    } else {
        entry_pc - candidate_pc
    };
    let ghost segs = layout.load_segments@;
    proof {
        lemma_find_insert_aligned(segs, distance, CODE_SEGMENT_ALIGN);
    }
    let mut context_pc = match layout.find_insert_vaddr(distance, CODE_SEGMENT_ALIGN) {
        Ok(v) => v,
        Err(_) => {
            assert(prefix_placement(segs, *plan, candidate_pc, entry_pc) is None);
            return None;
        },
    };
    assert(context_pc % 2 == 0);
    let (mut context_code, mut context_inst_count) = match emit_restore(plan, context_pc, candidate_pc) {
        Some(v) => v,
        None => {
            assert(prefix_placement(segs, *plan, candidate_pc, entry_pc) is None);
            return None;
        },
    };
    let mut converged = false;
    let mut t: usize = 0;
    while t < 4 && !converged
        invariant
            t <= 4,
            context_pc % 2 == 0,
            candidate_pc % 2 == 0,
            use_mret(*plan) ==> plan.target_privilege <= 1,
            segs == layout.load_segments@,
            entry_pc == original.pc_tracker.states()[0].value,
            prefix_placement(segs, *plan, candidate_pc, entry_pc) == (if converged {
                Some((context_pc, context_code@, context_inst_count as int))
            } else {
                place_restore(
                    segs,
                    *plan,
                    candidate_pc,
                    context_pc,
                    context_code@,
                    context_inst_count as int,
                    (4 - t) as nat,
                )
            }),
        decreases 4 - t,
    {
        let code_len = context_code.len() as u64;
        proof {
            lemma_find_insert_aligned(segs, code_len, CODE_SEGMENT_ALIGN);
        }
        let next_context_pc = match layout.find_insert_vaddr(code_len, CODE_SEGMENT_ALIGN) {
            Ok(v) => v,
            Err(_) => return None,
        };
        if next_context_pc == context_pc {
            converged = true;
        } else {
            let (code, count) = match emit_restore(plan, context_pc, candidate_pc) {
                Some(v) => v,
                None => return None,
            };
            context_code = code;
            context_inst_count = count;
            context_pc = next_context_pc;
        }
        t += 1;
    }
    if !converged {
        return None;
    }
    let entry_jmp = match encode_jmp(entry_pc, context_pc, true, Some(plan.scratches[0].0 as u64)) {
        Some(j) => j,
        None => return None,
    };
    let ghost ej = jmp_words(entry_pc, context_pc, true, Some(plan.scratches@[0].0 as u64)).unwrap();
    proof {
        crate::riscv::lemma_words_bytes_len(ej);
    }
    let input_len = input.len();
    let jmp_len = entry_jmp.len();
    assert(jmp_len <= 8);
    if entry_offset + jmp_len > input_len {
        return None;
    }
    let mut bytes = crate::reduce::copy_bytes(input);
    let mut k: usize = 0;
    while k < jmp_len
        invariant
            k <= jmp_len,
            jmp_len == entry_jmp@.len(),
            entry_offset + jmp_len <= input_len,
            input_len == input@.len(),
            bytes@.len() == input@.len(),
            bytes@ == input@.take(entry_offset as int) + entry_jmp@.take(k as int) + input@.skip(
                entry_offset + k,
            ),
        decreases jmp_len - k,
    {
        bytes.set(entry_offset + k, entry_jmp[k]);
        proof {
            assert(input@.take(entry_offset as int) + entry_jmp@.take(k + 1) + input@.skip(
                entry_offset + k + 1,
            ) =~= bytes@);
        }
        k += 1;
    }
    assert(bytes@ =~= with_bytes(input@, entry_offset as int, words_bytes(ej)));
    nop_skipped_prefix_insts(bytes.as_mut_slice(), input, offsets, original, candidate_idx);
    let trace_len = original.len();
    let suffix_inst_count = trace_len.saturating_sub(candidate_idx);
    if context_inst_count > usize::MAX as u64 {
        return None;
    }
    let jumps = jmp_len / 4;
    let count = context_inst_count as usize;
    let max_inst = match jumps.checked_add(count) {
        Some(x) => match x.checked_add(suffix_inst_count) {
            Some(y) => y,
            None => return None,
        },
        None => return None,
    };
    Some(PrefixCandidate { bytes, context_code, context_pc, max_inst })
}

/// Where the search over resume points stands.
#[derive(Clone, Copy, Debug)]
pub enum PrefixPhase {
    /// The last candidate is tried first.
    TryLast,
    /// Narrowing over the other candidates, for the latest that reproduces.
    Bisect(GreatestSearch),
    /// The position of the chosen candidate, if any.
    Done(Option<usize>),
}

/// What the caller does next.
#[derive(Clone, Copy, Debug, PartialEq, Eq, Structural)]
pub enum PrefixStep {
    /// Build and run the candidate at this position of `candidates`.
    Try(usize),
    /// The search ended: the last reproducing candidate, if any.
    Done(Option<usize>),
}

/// The search for the latest trace entry from which the run can be
/// resumed: the entries (index and pc) from `SKIP_START_INST_NUM` on.
#[derive(Clone, Debug)]
pub struct PrefixSearch {
    pub candidates: Vec<(usize, u64)>,
    pub phase: PrefixPhase,
}

impl PrefixSearch {
    pub open spec fn wf(self) -> bool {
        &&& 0 < self.candidates@.len() <= usize::MAX
        &&& match self.phase {
            PrefixPhase::Bisect(s) => s.wf() && s.start_high == self.candidates@.len() - 1
                && s.start_low == 0,
            PrefixPhase::Done(Some(k)) => k < self.candidates@.len(),
            _ => true,
        }
    }

    pub open spec fn step_of(self) -> PrefixStep {
        match self.phase {
            PrefixPhase::TryLast => PrefixStep::Try((self.candidates@.len() - 1) as usize),
            PrefixPhase::Bisect(s) => if s.low < s.high {
                PrefixStep::Try(s.mid())
            } else {
                PrefixStep::Done(s.best)
            },
            PrefixPhase::Done(k) => PrefixStep::Done(k),
        }
    }

    pub open spec fn stepped(self, reproduced: bool) -> Self {
        match self.phase {
            PrefixPhase::TryLast => if reproduced {
                PrefixSearch {
                    phase: PrefixPhase::Done(Some((self.candidates@.len() - 1) as usize)),
                    ..self
                }
            } else {
                PrefixSearch {
                    phase: PrefixPhase::Bisect(
                        GreatestSearch {
                            start_low: 0,
                            start_high: (self.candidates@.len() - 1) as usize,
                            low: 0,
                            high: (self.candidates@.len() - 1) as usize,
                            best: None,
                        },
                    ),
                    ..self
                }
            },
            PrefixPhase::Bisect(s) => PrefixSearch { phase: PrefixPhase::Bisect(s.stepped(reproduced)), ..self },
            PrefixPhase::Done(_) => self,
        }
    }

    /// What to do next.
    pub fn next(&self) -> (r: PrefixStep)
        requires
            self.wf(),
        ensures
            r == self.step_of(),
    {
        match self.phase {
            PrefixPhase::TryLast => PrefixStep::Try(self.candidates.len() - 1),
            PrefixPhase::Bisect(s) => match s.next_index() {
                Some(mid) => PrefixStep::Try(mid),
                None => PrefixStep::Done(s.best()),
            },
            PrefixPhase::Done(k) => PrefixStep::Done(k),
        }
    }

    /// Records whether the candidate that `next` asked for reproduced.
    pub fn record(&mut self, reproduced: bool)
        requires
            old(self).wf(),
            old(self).step_of() is Try,
        ensures
            final(self).candidates@ == old(self).candidates@,
            final(self).phase == old(self).stepped(reproduced).phase,
            final(self).wf(),
    {
        match self.phase {
            PrefixPhase::TryLast => {
                if reproduced {
                    self.phase = PrefixPhase::Done(Some(self.candidates.len() - 1));
                } else {
                    self.phase = PrefixPhase::Bisect(GreatestSearch::new(0, self.candidates.len() - 1));
                }
            },
            PrefixPhase::Bisect(s) => {
                let mut s = s;
                s.record(reproduced);
                self.phase = PrefixPhase::Bisect(s);
            },
            PrefixPhase::Done(_) => {},
        }
    }

    /// What the search has learnt holds of `valid` over candidate
    /// positions.
    pub open spec fn consistent_with(self, valid: spec_fn(int) -> bool) -> bool {
        let last = self.candidates@.len() - 1;
        match self.phase {
            PrefixPhase::TryLast => true,
            PrefixPhase::Bisect(s) => !valid(last) && s.consistent_with(valid),
            PrefixPhase::Done(Some(k)) => valid(k as int) && forall|x: int|
                k < x <= last ==> !#[trigger] valid(x),
            PrefixPhase::Done(None) => forall|x: int| 0 <= x <= last ==> !#[trigger] valid(x),
        }
    }

    /// When resuming later keeps working wherever resuming at an earlier
    /// point does not, each recorded outcome keeps the search consistent,
    /// and a finished search holds the latest reproducing candidate.
    pub proof fn lemma_step(self, valid: spec_fn(int) -> bool)
        requires
            self.wf(),
            self.consistent_with(valid),
            self.step_of() matches PrefixStep::Try(k),
            crate::reduce::bisect::downward_closed_in(valid, 0, self.candidates@.len() as int),
        ensures
            self.step_of() matches PrefixStep::Try(k) && self.stepped(valid(k as int)).consistent_with(
                valid,
            ),
    {
        match self.phase {
            PrefixPhase::Bisect(s) => {
                assert(crate::reduce::bisect::downward_closed_in(
                    valid,
                    s.start_low as int,
                    s.start_high as int,
                ));
                s.lemma_step(valid);
            },
            _ => {},
        }
    }

    /// A finished search holds the latest candidate that reproduces, or
    /// none reproduces.
    pub proof fn lemma_done(self, valid: spec_fn(int) -> bool)
        requires
            self.wf(),
            self.consistent_with(valid),
            self.step_of() is Done,
            crate::reduce::bisect::downward_closed_in(valid, 0, self.candidates@.len() as int),
        ensures
            match self.step_of() {
                PrefixStep::Done(Some(k)) => valid(k as int) && forall|x: int|
                    k < x < self.candidates@.len() ==> !#[trigger] valid(x),
                PrefixStep::Done(None) => forall|x: int|
                    0 <= x < self.candidates@.len() ==> !#[trigger] valid(x),
                _ => false,
            },
    {
        match self.phase {
            PrefixPhase::Bisect(s) => {
                assert(crate::reduce::bisect::downward_closed_in(
                    valid,
                    s.start_low as int,
                    s.start_high as int,
                ));
                s.lemma_done(valid);
            },
            _ => {},
        }
    }
}

/// Starts stripping the prefix of a failing run: the trace entries from
/// `SKIP_START_INST_NUM` on are the candidate resume points, the last one
/// tried first. `None` when the trace is not longer than that.
pub fn strip_irrelevant_prefix(original: &StateTrackers) -> (r: Option<PrefixSearch>)
    ensures
        ({
            let s = original.pc_tracker.states();
            if s.len() <= SKIP_START_INST_NUM {
                r is None
            } else {
                r matches Some(search) && search.wf() && search.phase == PrefixPhase::TryLast
                    && search.candidates@.len() == s.len() - SKIP_START_INST_NUM && forall|k: int|
                    0 <= k < search.candidates@.len() ==> #[trigger] search.candidates@[k] == (
                    (k + SKIP_START_INST_NUM) as usize,
                    s[k + SKIP_START_INST_NUM].value,
                )
            }
        }),
{
    let pcs = original.pc_tracker.as_slice();
    let mut candidates: Vec<(usize, u64)> = Vec::new();
    let mut idx = SKIP_START_INST_NUM;
    while idx < pcs.len()
        invariant
            SKIP_START_INST_NUM <= idx,
            pcs@ == original.pc_tracker.states(),
            idx <= pcs@.len() || idx == SKIP_START_INST_NUM,
            candidates@.len() == idx - SKIP_START_INST_NUM,
            forall|k: int|
                0 <= k < candidates@.len() ==> #[trigger] candidates@[k] == (
                    (k + SKIP_START_INST_NUM) as usize,
                    pcs@[k + SKIP_START_INST_NUM].value,
                ),
        decreases pcs@.len() - idx,
    {
        candidates.push((idx, pcs[idx].value));
        idx += 1;
    }
    if candidates.len() == 0 {
        return None;
    }
    Some(PrefixSearch { candidates, phase: PrefixPhase::TryLast })
}

} // verus!
