//! RV64 instruction encoding and decoding used by the test-case reducer.
use vstd::prelude::*;

use crate::riscv::{csr_of, exec_word, fits_signed, funct3_of, funct5_of, i_imm, j_imm, le_bytes, lemma_run_append, lemma_words_bytes_append, lemma_words_bytes_len, opcode_of, rd_of, rs1_of, rs2_of, run, s_imm, sext, u_imm, value_bytes, words_bytes, write_mem, MachineState};

verus! {

pub const ADDI_OPCODE: u32 = 0x13;
pub const ADDIW_OPCODE: u32 = 0x1b;
pub const AUIPC_OPCODE: u32 = 0x17;
pub const JAL_OPCODE: u32 = 0x6f;
pub const JALR_OPCODE: u32 = 0x67;
pub const LUI_OPCODE: u32 = 0x37;
pub const LOAD_OPCODE: u32 = 0x03;
pub const AMO_OPCODE: u32 = 0x2f;
pub const STORE_OPCODE: u32 = 0x23;
pub const SYSTEM_OPCODE: u32 = 0x73;

pub const NOP_INSN: u32 = 0x0000_0013;
pub const C_NOP_INSN: u16 = 0x0001;
pub const MRET_INSN: u32 = 0x3020_0073;

/// `addi x0, x0, 0`, little-endian.
pub const NOP: [u8; 4] = [0x13, 0x00, 0x00, 0x00];
/// `mret`, little-endian.
pub const MRET: [u8; 4] = [0x73, 0x00, 0x20, 0x30];
/// `c.nop`, little-endian.
pub const C_NOP: [u8; 2] = [0x01, 0x00];

pub const CSR_SSTATUS: u16 = 0x100;
pub const CSR_STVEC: u16 = 0x105;
pub const CSR_SEPC: u16 = 0x141;
pub const CSR_SCAUSE: u16 = 0x142;
pub const CSR_STVAL: u16 = 0x143;
pub const CSR_SSCRATCH: u16 = 0x140;
pub const CSR_SATP: u16 = 0x180;
pub const CSR_MSTATUS: u16 = 0x300;
pub const CSR_MEDELEG: u16 = 0x302;
pub const CSR_MIDELEG: u16 = 0x303;
pub const CSR_MIE: u16 = 0x304;
pub const CSR_MTVEC: u16 = 0x305;
pub const CSR_MSCRATCH: u16 = 0x340;
pub const CSR_MEPC: u16 = 0x341;
pub const CSR_MCAUSE: u16 = 0x342;
pub const CSR_MTVAL: u16 = 0x343;
pub const CSR_MIP: u16 = 0x344;

pub const REG_COUNT: usize = 32;
pub const SP_REG: usize = 2;

pub const COMPRESSED_INST_BYTES: usize = 2;
pub const STANDARD_INST_BYTES: usize = 4;

pub const IMM12_MASK: u32 = 0xfff;
pub const UIMM20_MASK: u32 = 0xf_ffff;
pub const IMM12_BITS: u32 = 12;

/// Masking facts about the 12- and 20-bit immediate fields.
pub proof fn lemma_masks(x: u32)
    by (bit_vector)
    ensures
        (x & 0xfff) & 0xfff == x & 0xfff,
        x & 0xfff < 0x1000,
        (x & 0xf_ffff) & 0xf_ffff == x & 0xf_ffff,
        x & 0xf_ffff < 0x10_0000,
        x < 64 ==> x & 0xfff == x,
{
}

/// Encoded length of the instruction whose first halfword is given.
pub open spec fn inst_len_of(first_halfword: u16) -> usize {
    if first_halfword & 0b11 == 0b11 {
        4
    } else {
        2
    }
}

/// The little-endian halfword at `offset` of `input`.
pub open spec fn halfword_at(input: Seq<u8>, offset: int) -> u16 {
    (input[offset] as u16) | ((input[offset + 1] as u16) << 8u16)
}

/// The little-endian word at `offset` of `input`.
pub open spec fn word_at(input: Seq<u8>, offset: int) -> u32 {
    (input[offset] as u32) | ((input[offset + 1] as u32) << 8u32) | ((input[offset + 2] as u32)
        << 16u32) | ((input[offset + 3] as u32) << 24u32)
}

pub open spec fn i_type_word(imm12: u32, rs1: u8, funct3: u32, rd: u8, opcode: u32) -> u32 {
    imm12 << 20u32 | (rs1 as u32) << 15u32 | funct3 << 12u32 | (rd as u32) << 7u32 | opcode
}

pub open spec fn u_type_word(imm20: u32, rd: u8, opcode: u32) -> u32 {
    imm20 << 12u32 | (rd as u32) << 7u32 | opcode
}

pub open spec fn s_type_word(rs1: u8, rs2: u8, imm: u32, funct3: u32) -> u32 {
    ((imm >> 5u32) & 0x7f) << 25u32 | (rs2 as u32) << 20u32 | (rs1 as u32) << 15u32 | funct3
        << 12u32 | (imm & 0x1f) << 7u32 | STORE_OPCODE
}

pub open spec fn j_type_word(rd: u8, imm: u32) -> u32 {
    (((imm >> 20u32) & 0x1) << 31u32) | (((imm >> 1u32) & 0x3ff) << 21u32) | (((imm >> 11u32)
        & 0x1) << 20u32) | (((imm >> 12u32) & 0xff) << 12u32) | ((rd as u32) << 7u32)
        | JAL_OPCODE
}

pub open spec fn csrrw_word(csr: u16, rs1: u8) -> u32 {
    (csr as u32) << 20u32 | (rs1 as u32) << 15u32 | 1u32 << 12u32 | SYSTEM_OPCODE
}

/// The fields of an I-type word are the values it was built from.
pub proof fn lemma_i_type_fields(imm12: u32, rs1: u8, funct3: u32, rd: u8, opcode: u32)
    by (bit_vector)
    requires
        imm12 < 0x1000,
        rs1 < 32,
        funct3 < 8,
        rd < 32,
        opcode < 0x80,
    ensures
        opcode_of(i_type_word(imm12, rs1, funct3, rd, opcode)) == opcode,
        rd_of(i_type_word(imm12, rs1, funct3, rd, opcode)) == rd as u32,
        funct3_of(i_type_word(imm12, rs1, funct3, rd, opcode)) == funct3,
        rs1_of(i_type_word(imm12, rs1, funct3, rd, opcode)) == rs1 as u32,
        i_type_word(imm12, rs1, funct3, rd, opcode) >> 20u32 == imm12,
{
}

/// The fields of a U-type word are the values it was built from.
pub proof fn lemma_u_type_fields(imm20: u32, rd: u8, opcode: u32)
    by (bit_vector)
    requires
        imm20 < 0x10_0000,
        rd < 32,
        opcode < 0x80,
    ensures
        opcode_of(u_type_word(imm20, rd, opcode)) == opcode,
        rd_of(u_type_word(imm20, rd, opcode)) == rd as u32,
        u_type_word(imm20, rd, opcode) & 0xffff_f000 == imm20 << 12u32,
{
}

/// The fields of an S-type word are the values it was built from.
pub proof fn lemma_s_type_fields(rs1: u8, rs2: u8, imm: u32, funct3: u32)
    by (bit_vector)
    requires
        imm < 0x1000,
        rs1 < 32,
        rs2 < 32,
        funct3 < 8,
    ensures
        opcode_of(s_type_word(rs1, rs2, imm, funct3)) == STORE_OPCODE,
        funct3_of(s_type_word(rs1, rs2, imm, funct3)) == funct3,
        rs1_of(s_type_word(rs1, rs2, imm, funct3)) == rs1 as u32,
        rs2_of(s_type_word(rs1, rs2, imm, funct3)) == rs2 as u32,
        (((s_type_word(rs1, rs2, imm, funct3) >> 25u32) << 5u32) | ((s_type_word(
            rs1,
            rs2,
            imm,
            funct3,
        ) >> 7u32) & 0x1f)) == imm,
{
}

/// Encoded length of the instruction whose first halfword is given: 4 bytes
/// when its two low bits are `11`, 2 bytes (compressed) otherwise.
pub fn riscv_inst_len(first_halfword: u16) -> (len: usize)
    ensures
        len == inst_len_of(first_halfword),
        len == 2 || len == 4,
{
    if first_halfword & 0b11 == 0b11 {
        STANDARD_INST_BYTES
    } else {
        COMPRESSED_INST_BYTES
    }
}

/// Length of the instruction that starts at `offset` of `input`.
pub fn inst_len_at(input: &[u8], offset: usize) -> (len: usize)
    requires
        offset + 2 <= input@.len(),
        offset + inst_len_of(halfword_at(input@, offset as int)) <= input@.len(),
    ensures
        len == inst_len_of(halfword_at(input@, offset as int)),
        len == 2 || len == 4,
        offset + len <= input@.len(),
{
    let halfword = (input[offset] as u16) | ((input[offset + 1] as u16) << 8u16);
    riscv_inst_len(halfword)
}

/// Appends the little-endian bytes of `inst`.
pub fn push_inst(output: &mut Vec<u8>, inst: u32)
    ensures
        final(output)@ == old(output)@ + le_bytes(inst),
{
    output.push((inst & 0xff) as u8);
    output.push(((inst >> 8u32) & 0xff) as u8);
    output.push(((inst >> 16u32) & 0xff) as u8);
    output.push(((inst >> 24u32) & 0xff) as u8);
    assert(final(output)@ =~= old(output)@ + le_bytes(inst));
}

pub fn encode_i_type(imm12: u32, rs1: u8, funct3: u32, rd: u8, opcode: u32) -> (w: u32)
    requires
        imm12 & IMM12_MASK == imm12,
    ensures
        w == i_type_word(imm12, rs1, funct3, rd, opcode),
{
    imm12 << 20u32 | (rs1 as u32) << 15u32 | funct3 << 12u32 | (rd as u32) << 7u32 | opcode
}

pub fn encode_u_type(imm20: u32, rd: u8, opcode: u32) -> (w: u32)
    requires
        imm20 & UIMM20_MASK == imm20,
    ensures
        w == u_type_word(imm20, rd, opcode),
{
    imm20 << 12u32 | (rd as u32) << 7u32 | opcode
}

pub fn encode_addi(rd: u8, rs1: u8, imm: u32) -> (w: u32)
    requires
        imm & IMM12_MASK == imm,
    ensures
        w == i_type_word(imm, rs1, 0, rd, ADDI_OPCODE),
{
    encode_i_type(imm, rs1, 0, rd, ADDI_OPCODE)
}

pub fn encode_addiw(rd: u8, rs1: u8, imm: u32) -> (w: u32)
    requires
        imm & IMM12_MASK == imm,
    ensures
        w == i_type_word(imm, rs1, 0, rd, ADDIW_OPCODE),
{
    encode_i_type(imm, rs1, 0, rd, ADDIW_OPCODE)
}

pub fn encode_slli(rd: u8, rs1: u8, shamt: u8) -> (w: u32)
    requires
        shamt < 64,
    ensures
        w == i_type_word(shamt as u32, rs1, 1, rd, ADDI_OPCODE),
{
    let shamt = shamt as u32;
    proof {
        lemma_masks(shamt);
    }
    encode_i_type(shamt, rs1, 1, rd, ADDI_OPCODE)
}

pub fn encode_lui(rd: u8, imm20: u32) -> (w: u32)
    requires
        imm20 & UIMM20_MASK == imm20,
    ensures
        w == u_type_word(imm20, rd, LUI_OPCODE),
{
    encode_u_type(imm20, rd, LUI_OPCODE)
}

pub fn encode_auipc(rd: u8, imm20: u32) -> (w: u32)
    requires
        imm20 & UIMM20_MASK == imm20,
    ensures
        w == u_type_word(imm20, rd, AUIPC_OPCODE),
{
    encode_u_type(imm20, rd, AUIPC_OPCODE)
}

pub fn encode_jal(rd: u8, imm: u32) -> (w: u32)
    ensures
        w == j_type_word(rd, imm),
{
    (((imm >> 20u32) & 0x1) << 31u32) | (((imm >> 1u32) & 0x3ff) << 21u32) | (((imm >> 11u32)
        & 0x1) << 20u32) | (((imm >> 12u32) & 0xff) << 12u32) | ((rd as u32) << 7u32)
        | JAL_OPCODE
}

pub fn encode_jalr(rd: u8, rs1: u8, imm: u32) -> (w: u32)
    requires
        imm & IMM12_MASK == imm,
    ensures
        w == i_type_word(imm, rs1, 0, rd, JALR_OPCODE),
{
    encode_i_type(imm, rs1, 0, rd, JALR_OPCODE)
}

pub fn encode_store(rs1: u8, rs2: u8, imm: u32, funct3: u32) -> (w: u32)
    requires
        imm & IMM12_MASK == imm,
    ensures
        w == s_type_word(rs1, rs2, imm, funct3),
{
    let imm_11_5 = (imm >> 5u32) & 0x7f;
    let imm_4_0 = imm & 0x1f;
    imm_11_5 << 25u32 | (rs2 as u32) << 20u32 | (rs1 as u32) << 15u32 | funct3 << 12u32 | imm_4_0
        << 7u32 | STORE_OPCODE
}

pub fn encode_csrrw(csr: u16, rs1: u8) -> (w: u32)
    ensures
        w == csrrw_word(csr, rs1),
{
    (csr as u32) << 20u32 | (rs1 as u32) << 15u32 | 1u32 << 12u32 | SYSTEM_OPCODE
}

/// Sign-extends the low `bits` bits of `value` to 64 bits.
pub fn sign_extend(value: u64, bits: u32) -> (r: u64)
    requires
        1 <= bits <= 64,
    ensures
        r == sext(value, bits),
{
    if bits == 64 {
        value
    } else {
        let shift = (64 - bits) as u64;
        (((value << shift) as i64) >> shift) as u64
    }
}

/// Whether `x` is representable as a signed `bits`-bit integer.
pub fn is_int_n(x: u64, bits: u32) -> (b: bool)
    requires
        1 <= bits <= 64,
    ensures
        b == fits_signed(x, bits),
{
    x == sign_extend(x, bits)
}

/// The low 12 bits of `value`.
pub fn imm12(value: u64) -> (r: u32)
    ensures
        r == (value as u32) & IMM12_MASK,
        r & IMM12_MASK == r,
{
    let r = (value as u32) & IMM12_MASK;
    proof {
        lemma_masks(value as u32);
    }
    r
}


// ---------------------------------------------------------------------------
// Loading a 64-bit constant into a register.
// ---------------------------------------------------------------------------

/// The low 12 bits of `v`, as an I-type immediate.
pub open spec fn lo12_of(v: u64) -> u32 {
    (v as u32) & 0xfff
}

/// The LUI immediate that, together with `lo12_of(v)`, builds a 32-bit `v`.
pub open spec fn hi20_of(v: u64) -> u32 {
    (((((v as i64) + 2048) as i64) >> 12u64) as u32) & 0xf_ffff
}

/// `(v + 2048) >> 12`, computed on 64 bits with wrap-around.
pub open spec fn hi52_of(v: u64) -> u64 {
    (((v as u128) + 2048) as u64) >> 12u64
}

/// Index of the lowest set bit of `x` at or above `k` (64 when there is none).
pub open spec fn tz_from(x: u64, k: u64) -> u64
    decreases 64 - k,
{
    if k >= 64 {
        64
    } else if (x >> k) & 1 == 1 {
        k
    } else {
        tz_from(x, (k + 1) as u64)
    }
}

/// Number of trailing zero bits of `x` (64 for zero).
pub open spec fn trailing_zeros_of(x: u64) -> u64 {
    tz_from(x, 0)
}

/// The value that, shifted left by `12 + trailing_zeros_of(hi52_of(v))`
/// and added to the sign-extended `lo12_of(v)`, gives back `v`.
pub open spec fn high_part_of(v: u64) -> u64 {
    let t = trailing_zeros_of(hi52_of(v));
    sext(hi52_of(v) >> t, (52 - t) as u32)
}

pub open spec fn next_width(n: nat) -> nat {
    if n > 63 {
        52
    } else {
        (n - 11) as nat
    }
}

/// The instruction words emitted to load `v` into `rd`, for a `v` that fits
/// in `n` signed bits.
pub open spec fn load_words_within(rd: u8, v: u64, n: nat) -> Seq<u32>
    decreases n,
{
    if fits_signed(v, 32) {
        if hi20_of(v) != 0 {
            if lo12_of(v) != 0 {
                seq![
                    u_type_word(hi20_of(v), rd, LUI_OPCODE),
                    i_type_word(lo12_of(v), rd, 0, rd, ADDIW_OPCODE),
                ]
            } else {
                seq![u_type_word(hi20_of(v), rd, LUI_OPCODE)]
            }
        } else {
            seq![i_type_word(lo12_of(v), 0, 0, rd, ADDI_OPCODE)]
        }
    } else if n <= 32 {
        Seq::empty()
    } else {
        let sa = (12 + trailing_zeros_of(hi52_of(v))) as u32;
        let rest = load_words_within(rd, high_part_of(v), next_width(n)) + seq![
            i_type_word(sa, rd, 1, rd, ADDI_OPCODE),
        ];
        if lo12_of(v) != 0 {
            rest.push(i_type_word(lo12_of(v), rd, 0, rd, ADDI_OPCODE))
        } else {
            rest
        }
    }
}

/// The instruction words that `append_load_u64(_, rd, v)` emits.
pub open spec fn load_u64_words(rd: u8, v: u64) -> Seq<u32> {
    load_words_within(rd, v, 64)
}

proof fn lemma_low_zero_step(x: u64, k: u64)
    by (bit_vector)
    requires
        k < 52,
        (x >> k) << k == x,
        (x >> k) & 1 != 1,
    ensures
        (x >> (k + 1) as u64) << (k + 1) as u64 == x,
{
}

proof fn lemma_low_zero_top(x: u64)
    by (bit_vector)
    requires
        x < 0x10_0000_0000_0000,
        (x >> 52u64) << 52u64 == x,
    ensures
        x == 0,
{
}

proof fn lemma_tz_from(x: u64, k: u64)
    requires
        x != 0,
        x < 0x10_0000_0000_0000,
        k <= 52,
        (x >> k) << k == x,
    ensures
        tz_from(x, k) < 52,
        (x >> tz_from(x, k)) & 1 == 1,
        (x >> tz_from(x, k)) << tz_from(x, k) == x,
    decreases 52 - k,
{
    if k == 52 {
        lemma_low_zero_top(x);
    } else if (x >> k) & 1 == 1 {
    } else {
        lemma_low_zero_step(x, k);
        lemma_tz_from(x, (k + 1) as u64);
    }
}

proof fn lemma_shift_zero(x: u64)
    by (bit_vector)
    ensures
        (x >> 0u64) << 0u64 == x,
{
}

/// Facts about the wrapped `(v + 2048) >> 12` of a value that is not a
/// signed 32-bit integer.
proof fn lemma_hi52_bounds(v: u64)
    by (bit_vector)
    ensures
        hi52_of(v) < 0x10_0000_0000_0000,
        hi52_of(v) == 0 ==> fits_signed(v, 32),
{
}

proof fn lemma_trailing_zeros(x: u64)
    requires
        x != 0,
        x < 0x10_0000_0000_0000,
    ensures
        trailing_zeros_of(x) < 52,
        (x >> trailing_zeros_of(x)) & 1 == 1,
        (x >> trailing_zeros_of(x)) << trailing_zeros_of(x) == x,
{
    lemma_shift_zero(x);
    lemma_tz_from(x, 0);
}

/// A sign extension from `b` bits also fits in any wider `c` bits.
pub proof fn lemma_sext_fits_wider(x: u64, b: u32, c: u32)
    by (bit_vector)
    requires
        1 <= b <= c <= 64,
    ensures
        fits_signed(sext(x, b), c),
{
}

proof fn lemma_int32_range(v: u64)
    by (bit_vector)
    requires
        fits_signed(v, 32),
    ensures
        -0x8000_0000 <= (v as i64) < 0x8000_0000,
{
}

/// The one- or two-instruction forms rebuild a signed 32-bit value.
proof fn lemma_int32_parts(v: u64)
    by (bit_vector)
    requires
        fits_signed(v, 32),
    ensures
        hi20_of(v) != 0 && lo12_of(v) != 0 ==> ((((((hi20_of(v) << 12u32) as i32) as i64 as u64)
            + sext(lo12_of(v) as u64, 12)) as u32) as i32) as i64 as u64 == v,
        hi20_of(v) != 0 && lo12_of(v) == 0 ==> ((hi20_of(v) << 12u32) as i32) as i64 as u64 == v,
        hi20_of(v) == 0 ==> sext(lo12_of(v) as u64, 12) == v,
{
}

/// Shifting the high part back and adding the low 12 bits rebuilds `v`.
proof fn lemma_split_identity(v: u64, t: u64)
    by (bit_vector)
    requires
        t < 52,
        (hi52_of(v) >> t) << t == hi52_of(v),
    ensures
        ((sext(hi52_of(v) >> t, (52 - t) as u32) << (12 + t) as u64) + sext(lo12_of(v) as u64, 12))
            as u64 == v,
        lo12_of(v) == 0 ==> sext(hi52_of(v) >> t, (52 - t) as u32) << (12 + t) as u64 == v,
{
}

/// The high part of a value that fits in `n <= 63` bits fits in `n - 11`.
proof fn lemma_high_part_narrower(v: u64, t: u64, n: u32)
    by (bit_vector)
    requires
        t < 52,
        (hi52_of(v) >> t) << t == hi52_of(v),
        33 <= n <= 63,
        fits_signed(v, n),
    ensures
        fits_signed(sext(hi52_of(v) >> t, (52 - t) as u32), (n - 11) as u32),
{
}

proof fn lemma_load_words_len(rd: u8, v: u64, n: nat)
    ensures
        load_words_within(rd, v, n).len() <= n + 2,
        load_words_within(rd, v, n).len() >= 1 || (!fits_signed(v, 32) && n <= 32),
    decreases n,
{
    if !fits_signed(v, 32) && n > 32 {
        lemma_load_words_len(rd, high_part_of(v), next_width(n));
    }
}

proof fn lemma_load_words_band(rd: u8, v: u64, n: nat)
    requires
        n <= 64,
    ensures
        load_words_within(rd, v, n).len() <= (if n <= 32 {
            2int
        } else if n <= 43 {
            4
        } else if n <= 54 {
            6
        } else {
            8
        }),
    decreases n,
{
    if !fits_signed(v, 32) && n > 32 {
        lemma_load_words_band(rd, high_part_of(v), next_width(n));
    }
}

/// Loading a 64-bit value takes at most 8 instructions.
pub proof fn lemma_load_u64_len(rd: u8, v: u64)
    ensures
        load_u64_words(rd, v).len() <= 8,
{
    lemma_load_words_band(rd, v, 64);
}

/// Narrowing step used for termination: the recursion's high part fits in
/// `next_width(n)` bits.
proof fn lemma_high_part_width(v: u64, n: nat)
    requires
        33 <= n <= 64,
        fits_signed(v, n as u32),
        !fits_signed(v, 32),
    ensures
        fits_signed(high_part_of(v), next_width(n) as u32),
        1 <= next_width(n) <= 64,
        trailing_zeros_of(hi52_of(v)) < 52,
        (hi52_of(v) >> trailing_zeros_of(hi52_of(v))) << trailing_zeros_of(hi52_of(v))
            == hi52_of(v),
{
    lemma_hi52_bounds(v);
    lemma_trailing_zeros(hi52_of(v));
    let t = trailing_zeros_of(hi52_of(v));
    if n > 63 {
        lemma_sext_fits_wider(hi52_of(v) >> t, (52 - t) as u32, 52);
    } else {
        lemma_high_part_narrower(v, t, n as u32);
    }
}


/// Number of trailing zero bits of `x` (64 for zero).
pub fn trailing_zeros(x: u64) -> (r: u64)
    ensures
        r == trailing_zeros_of(x),
{
    let mut k: u64 = 0;
    while k < 64 && (x >> k) & 1 != 1
        invariant
            k <= 64,
            tz_from(x, k) == tz_from(x, 0),
        decreases 64 - k,
    {
        k = k + 1;
    }
    k
}

fn append_load_within(output: &mut Vec<u8>, rd: u8, value: u64, Ghost(n): Ghost<nat>) -> (count: u64)
    requires
        1 <= n <= 64,
        fits_signed(value, n as u32),
    ensures
        final(output)@ == old(output)@ + words_bytes(load_words_within(rd, value, n)),
        count == load_words_within(rd, value, n).len(),
    decreases n,
{
    proof {
        lemma_load_words_len(rd, value, n);
    }
    let ghost words = load_words_within(rd, value, n);
    let mut append_inst_count: u64 = 0;
    if is_int_n(value, 32) {
        proof {
            lemma_int32_range(value);
        }
        let lo12 = imm12(value);
        let biased: u32 = #[verifier::truncate] ((((value as i64) + 2048) >> 12u64) as u32);
        let hi20 = biased & UIMM20_MASK;
        proof {
            lemma_masks(biased);
        }
        if hi20 != 0 {
            push_inst(output, encode_lui(rd, hi20));
            append_inst_count += 1;
            if lo12 != 0 {
                push_inst(output, encode_addiw(rd, rd, lo12));
                append_inst_count += 1;
            }
        } else {
            push_inst(output, encode_addi(rd, 0, lo12));
            append_inst_count += 1;
        }
        proof {
            reveal_with_fuel(words_bytes, 3);
            assert(words.drop_last().drop_last() =~= Seq::<u32>::empty() || words.len() == 1);
            if words.len() == 1 {
                assert(words.drop_last() =~= Seq::<u32>::empty());
            }
        }
        append_inst_count
    } else {
        proof {
            if n <= 32 {
                lemma_sext_fits_wider(value, n as u32, 32);
            }
            lemma_high_part_width(value, n);
        }
        let lo12 = imm12(value);
        let hi52 = (((value as u128) + 2048) as u64) >> 12u64;
        let tz = trailing_zeros(hi52);
        let shift_amount = 12 + tz;
        let shifted_hi = hi52 >> tz;
        let hi_bits = (64 - shift_amount) as u32;
        let hi = sign_extend(shifted_hi, hi_bits);
        let ghost before = output@;
        append_inst_count += append_load_within(output, rd, hi, Ghost(next_width(n)));
        push_inst(output, encode_slli(rd, rd, shift_amount as u8));
        append_inst_count += 1;
        let ghost rest = load_words_within(rd, hi, next_width(n)) + seq![
            i_type_word(shift_amount as u32, rd, 1, rd, ADDI_OPCODE),
        ];
        proof {
            lemma_words_bytes_append(load_words_within(rd, hi, next_width(n)), seq![
                i_type_word(shift_amount as u32, rd, 1, rd, ADDI_OPCODE),
            ]);
            reveal_with_fuel(words_bytes, 2);
            assert(seq![i_type_word(shift_amount as u32, rd, 1, rd, ADDI_OPCODE)].drop_last()
                =~= Seq::<u32>::empty());
            assert(output@ =~= before + words_bytes(rest));
        }
        if lo12 != 0 {
            push_inst(output, encode_addi(rd, rd, lo12));
            append_inst_count += 1;
            proof {
                assert(rest.push(i_type_word(lo12, rd, 0, rd, ADDI_OPCODE)).drop_last() =~= rest);
            }
        }
        append_inst_count
    }
}

/// Appends the instructions that load the 64-bit `value` into register
/// `rd` and returns how many were emitted. A signed 32-bit value takes
/// `lui`+`addiw` (or a single `lui`/`addi`); a wider one loads its high part
/// recursively, shifts it with `slli`, and adds the low 12 bits with `addi`.
pub fn append_load_u64(output: &mut Vec<u8>, rd: u8, value: u64) -> (count: u64)
    ensures
        final(output)@ == old(output)@ + words_bytes(load_u64_words(rd, value)),
        count == load_u64_words(rd, value).len(),
{
    assert(fits_signed(value, 64));
    append_load_within(output, rd, value, Ghost(64))
}


proof fn lemma_slli_fields(sa: u32, rd: u8)
    by (bit_vector)
    requires
        sa < 64,
        rd < 32,
    ensures
        opcode_of(i_type_word(sa, rd, 1, rd, ADDI_OPCODE)) == ADDI_OPCODE,
        funct3_of(i_type_word(sa, rd, 1, rd, ADDI_OPCODE)) == 1,
        rd_of(i_type_word(sa, rd, 1, rd, ADDI_OPCODE)) == rd as u32,
        rs1_of(i_type_word(sa, rd, 1, rd, ADDI_OPCODE)) == rd as u32,
        i_type_word(sa, rd, 1, rd, ADDI_OPCODE) >> 26u32 == 0,
        (i_type_word(sa, rd, 1, rd, ADDI_OPCODE) >> 20u32) & 0x3f == sa,
{
}

/// Moving the pc forward by `4 * a` and then by `4 * b` moves it by `4 * (a + b)`.
pub proof fn lemma_pc_advance(pc: u64, a: u64, b: u64)
    by (bit_vector)
    requires
        a < 0x1_0000_0000,
        b < 0x1_0000_0000,
    ensures
        (((pc + 4 * a) as u64) + 4 * b) as u64 == (pc + 4 * (a + b)) as u64,
{
}

/// `s` with register `r` set to `v` and the pc moved past `n` instructions.
pub open spec fn after_load(s: MachineState, r: u32, v: u64, n: nat) -> MachineState {
    s.with_reg(r, v).with_pc((s.pc + 4 * n) as u64)
}

#[verifier::spinoff_prover]
#[verifier::rlimit(40)]
proof fn lemma_load_within_runs(s: MachineState, rd: u8, v: u64, n: nat)
    requires
        s.wf(),
        1 <= rd < 32,
        1 <= n <= 64,
        fits_signed(v, n as u32),
    ensures
        run(s, load_words_within(rd, v, n)) == Some(
            after_load(s, rd as u32, v, load_words_within(rd, v, n).len()),
        ),
    decreases n,
{
    let ws = load_words_within(rd, v, n);
    lemma_load_words_len(rd, v, n);
    if fits_signed(v, 32) {
        lemma_int32_parts(v);
        let lo = lo12_of(v);
        let hi = hi20_of(v);
        lemma_masks(v as u32);
        lemma_masks(((((v as i64) + 2048) as i64) >> 12u64) as u32);
        lemma_u_type_fields(hi, rd, LUI_OPCODE);
        lemma_i_type_fields(lo, rd, 0, rd, ADDIW_OPCODE);
        lemma_i_type_fields(lo, 0, 0, rd, ADDI_OPCODE);
        reveal_with_fuel(run, 3);
        lemma_pc_advance(s.pc, 1, 1);
        lemma_pc_advance(s.pc, 0, 1);
        if hi != 0 {
            let s1 = s.with_reg(rd as u32, u_imm(ws[0])).next();
            assert(exec_word(s, ws[0]) == Some(s1));
            if lo != 0 {
                assert(ws.drop_first()[0] == ws[1]);
                assert(ws.drop_first().drop_first() =~= Seq::<u32>::empty());
                assert(s1.reg(rd as u32) == u_imm(ws[0]));
                let s2 = s1.with_reg(
                    rd as u32,
                    (((s1.reg(rd as u32) + i_imm(ws[1])) as u32) as i32) as i64 as u64,
                ).next();
                assert(exec_word(s1, ws[1]) == Some(s2));
                assert(s2.regs =~= after_load(s, rd as u32, v, 2).regs);
            } else {
                assert(ws.drop_first() =~= Seq::<u32>::empty());
                assert(s1.regs =~= after_load(s, rd as u32, v, 1).regs);
            }
        } else {
            assert(ws.drop_first() =~= Seq::<u32>::empty());
            let s1 = s.with_reg(rd as u32, (s.reg(0) + i_imm(ws[0])) as u64).next();
            assert(exec_word(s, ws[0]) == Some(s1));
            assert(s1.regs =~= after_load(s, rd as u32, v, 1).regs);
        }
    } else {
        if n <= 32 {
            lemma_sext_fits_wider(v, n as u32, 32);
        }
        lemma_high_part_width(v, n);
        let t = trailing_zeros_of(hi52_of(v));
        let sa = (12 + t) as u32;
        let hp = high_part_of(v);
        let inner = load_words_within(rd, hp, next_width(n));
        lemma_load_within_runs(s, rd, hp, next_width(n));
        lemma_load_words_len(rd, hp, next_width(n));
        let s1 = after_load(s, rd as u32, hp, inner.len());
        let wsl = i_type_word(sa, rd, 1, rd, ADDI_OPCODE);
        lemma_slli_fields(sa, rd);
        lemma_split_identity(v, t);
        let rest = inner + seq![wsl];
        lemma_run_append(s, inner, seq![wsl]);
        reveal_with_fuel(run, 2);
        assert(seq![wsl].drop_first() =~= Seq::<u32>::empty());
        let s2 = s1.with_reg(rd as u32, s1.reg(rd as u32) << (((wsl >> 20u32) & 0x3f) as u64)).next();
        assert(exec_word(s1, wsl) == Some(s2));
        assert(run(s, rest) == Some(s2));
        lemma_pc_advance(s.pc, inner.len() as u64, 1);
        assert(s2.regs =~= after_load(s, rd as u32, hp << (sa as u64), rest.len()).regs);
        if lo12_of(v) != 0 {
            let lo = lo12_of(v);
            lemma_masks(v as u32);
            let wa = i_type_word(lo, rd, 0, rd, ADDI_OPCODE);
            lemma_i_type_fields(lo, rd, 0, rd, ADDI_OPCODE);
            assert(ws =~= rest + seq![wa]);
            lemma_run_append(s, rest, seq![wa]);
            assert(seq![wa].drop_first() =~= Seq::<u32>::empty());
            let s3 = s2.with_reg(rd as u32, (s2.reg(rd as u32) + i_imm(wa)) as u64).next();
            assert(exec_word(s2, wa) == Some(s3));
            lemma_pc_advance(s.pc, rest.len() as u64, 1);
            assert(s3.regs =~= after_load(s, rd as u32, v, ws.len()).regs);
        } else {
            assert(ws =~= rest);
        }
    }
}

/// Running the words that `append_load_u64` emits, from any state, sets
/// register `rd` to `value`, leaves every other register, the CSRs and
/// memory unchanged, and moves the pc past the emitted words.
pub proof fn lemma_load_u64_runs(s: MachineState, rd: u8, value: u64)
    requires
        s.wf(),
        1 <= rd < 32,
    ensures
        run(s, load_u64_words(rd, value)) == Some(
            after_load(s, rd as u32, value, load_u64_words(rd, value).len()),
        ),
{
    assert(fits_signed(value, 64));
    lemma_load_within_runs(s, rd, value, 64);
}


// ---------------------------------------------------------------------------
// CSR writes and jumps.
// ---------------------------------------------------------------------------

/// The words that `append_write_csr(_, csr, value, scratch)` emits.
pub open spec fn write_csr_words(csr: u16, value: u64, scratch: u8) -> Seq<u32> {
    load_u64_words(scratch, value).push(csrrw_word(csr, scratch))
}

/// Appends code that writes `value` to CSR `csr` through register
/// `scratch_reg`, and returns how many instructions were emitted.
pub fn append_write_csr(output: &mut Vec<u8>, csr: u16, value: u64, scratch_reg: u8) -> (count: u64)
    ensures
        final(output)@ == old(output)@ + words_bytes(write_csr_words(csr, value, scratch_reg)),
        count == write_csr_words(csr, value, scratch_reg).len(),
{
    let append_inst_count = append_load_u64(output, scratch_reg, value);
    let ghost mid = output@;
    push_inst(output, encode_csrrw(csr, scratch_reg));
    proof {
        lemma_words_bytes_append(load_u64_words(scratch_reg, value), seq![csrrw_word(csr, scratch_reg)]);
        reveal_with_fuel(words_bytes, 2);
        assert(seq![csrrw_word(csr, scratch_reg)].drop_last() =~= Seq::<u32>::empty());
        assert(load_u64_words(scratch_reg, value) + seq![csrrw_word(csr, scratch_reg)]
            =~= write_csr_words(csr, value, scratch_reg));
        lemma_load_words_len(scratch_reg, value, 64);
    }
    append_inst_count + 1
}

proof fn lemma_csrrw_fields(csr: u16, rs1: u8)
    by (bit_vector)
    requires
        csr < 0x1000,
        rs1 < 32,
    ensures
        opcode_of(csrrw_word(csr, rs1)) == SYSTEM_OPCODE,
        funct3_of(csrrw_word(csr, rs1)) == 1,
        rd_of(csrrw_word(csr, rs1)) == 0,
        rs1_of(csrrw_word(csr, rs1)) == rs1 as u32,
        csr_of(csrrw_word(csr, rs1)) == csr,
{
}

/// Running the words of `append_write_csr` sets CSR `csr` (a 12-bit CSR
/// address) and the scratch register to `value`, and changes nothing else
/// but the pc.
pub proof fn lemma_write_csr_runs(s: MachineState, csr: u16, value: u64, scratch: u8)
    requires
        s.wf(),
        1 <= scratch < 32,
        csr < 0x1000,
    ensures
        run(s, write_csr_words(csr, value, scratch)) == Some(
            MachineState {
                csrs: s.csrs.insert(csr, value),
                ..after_load(s, scratch as u32, value, write_csr_words(csr, value, scratch).len())
            },
        ),
{
    let lw = load_u64_words(scratch, value);
    let w = csrrw_word(csr, scratch);
    lemma_load_u64_runs(s, scratch, value);
    lemma_load_words_len(scratch, value, 64);
    lemma_run_append(s, lw, seq![w]);
    assert(lw + seq![w] =~= write_csr_words(csr, value, scratch));
    let s1 = after_load(s, scratch as u32, value, lw.len());
    lemma_csrrw_fields(csr, scratch);
    reveal_with_fuel(run, 2);
    assert(seq![w].drop_first() =~= Seq::<u32>::empty());
    lemma_pc_advance(s.pc, lw.len() as u64, 1);
    assert(s1.reg(scratch as u32) == value);
}

/// Register used by a long jump: `reg`, or `ra` (x1) when none is given;
/// `None` unless it is one of x1..x31.
pub fn jmp_reg(reg: Option<u64>) -> (r: Option<u8>)
    ensures
        r == (match reg {
            Some(x) => if 1 <= x <= 31 {
                Some(x as u8)
            } else {
                None
            },
            None => Some(1u8),
        }),
{
    let reg = match reg {
        Some(x) => x,
        None => 1,
    };
    if 1 <= reg && reg <= 31 {
        Some(reg as u8)
    } else {
        None
    }
}

/// The 12-bit two's-complement field of a value in `-2048..=2047`.
pub fn encode_signed_imm12(value: i128) -> (r: u32)
    requires
        -2048 <= value <= 2047,
    ensures
        r == ((value as i32) as u32) & IMM12_MASK,
        r & IMM12_MASK == r,
        sext(r as u64, 12) == value as u64,
{
    let r = ((value as i32) as u32) & IMM12_MASK;
    let v = value as i64;
    assert(sext(r as u64, 12) == v as u64 && r & 0xfff == r) by (bit_vector)
        requires
            -2048 <= v <= 2047,
            r == ((v as i32) as u32) & 0xfff,
    ;
    r
}

pub open spec fn jal_in_range(offset: int) -> bool {
    -0x10_0000 <= offset <= 0xf_fffe
}

/// `(offset + 2048) >> 12`, the AUIPC part of a long jump.
pub open spec fn long_hi20(offset: int) -> int {
    (((offset + 2048) as i128) >> 12u32) as int
}

proof fn lemma_long_split(offset: i128)
    by (bit_vector)
    requires
        -0x1_0000_0000_0000_0000 <= offset <= 0x1_0000_0000_0000_0000,
    ensures
        -2048 <= offset - (((offset + 2048) as i128) >> 12u32) * 4096 <= 2047,
{
}

/// What `encode_jmp` returns, as instruction words.
pub open spec fn jmp_words(from_pc: u64, to_pc: u64, longjmp: bool, reg: Option<u64>) -> Option<
    Seq<u32>,
> {
    let offset = to_pc - from_pc;
    if jal_in_range(offset) {
        Some(seq![j_type_word(0, offset as u32)])
    } else if longjmp {
        let r = match reg {
            Some(x) => x,
            None => 1,
        };
        let hi = long_hi20(offset);
        if 1 <= r <= 31 && -0x8_0000 <= hi <= 0x7_ffff {
            Some(
                seq![
                    u_type_word(((hi as i32) as u32) & UIMM20_MASK, r as u8, AUIPC_OPCODE),
                    i_type_word(
                        (((offset - hi * 4096) as i32) as u32) & IMM12_MASK,
                        r as u8,
                        0,
                        0,
                        JALR_OPCODE,
                    ),
                ],
            )
        } else {
            None
        }
    } else {
        None
    }
}

/// Code that jumps from `from_pc` to `to_pc`: a `jal x0` when the offset
/// fits in 21 bits, else (when `longjmp`) an `auipc`/`jalr` pair through
/// `reg` (default x1). `None` when neither form reaches `to_pc`.
pub fn encode_jmp(from_pc: u64, to_pc: u64, longjmp: bool, reg: Option<u64>) -> (res: Option<Vec<u8>>)
    requires
        (to_pc - from_pc) % 2 == 0,
    ensures
        match jmp_words(from_pc, to_pc, longjmp, reg) {
            Some(ws) => res is Some && res.unwrap()@ == words_bytes(ws),
            None => res is None,
        },
{
    let offset: i128 = (to_pc as i128) - (from_pc as i128);
    if -0x10_0000 <= offset && offset <= 0xf_fffe {
        let inst = encode_jal(0, #[verifier::truncate] (offset as u32));
        let mut bytes: Vec<u8> = Vec::new();
        push_inst(&mut bytes, inst);
        proof {
            reveal_with_fuel(words_bytes, 2);
            assert(seq![inst].drop_last() =~= Seq::<u32>::empty());
            assert(bytes@ =~= words_bytes(seq![inst]));
        }
        Some(bytes)
    } else if longjmp {
        let reg = match jmp_reg(reg) {
            Some(r) => r,
            None => return None,
        };
        let hi20 = (offset + 2048) >> 12u32;
        proof {
            lemma_long_split(offset);
        }
        if !(-0x8_0000 <= hi20 && hi20 <= 0x7_ffff) {
            return None;
        }
        let base = hi20 * 4096;
        let lo12 = offset - base;
        assert(-2048 <= lo12 <= 2047);
        let hi_field = ((#[verifier::truncate] (hi20 as i32)) as u32) & UIMM20_MASK;
        proof {
            lemma_masks((hi20 as i32) as u32);
        }
        let w1 = encode_auipc(reg, hi_field);
        let w2 = encode_jalr(0, reg, encode_signed_imm12(lo12));
        let mut bytes: Vec<u8> = Vec::new();
        push_inst(&mut bytes, w1);
        push_inst(&mut bytes, w2);
        proof {
            reveal_with_fuel(words_bytes, 3);
            assert(seq![w1, w2].drop_last() =~= seq![w1]);
            assert(seq![w1].drop_last() =~= Seq::<u32>::empty());
            assert(bytes@ =~= words_bytes(seq![w1, w2]));
        }
        Some(bytes)
    } else {
        None
    }
}

proof fn lemma_jal_lands(from_pc: u64, offset: i64)
    by (bit_vector)
    requires
        -0x10_0000 <= offset <= 0xf_fffe,
        offset % 2 == 0,
    ensures
        opcode_of(j_type_word(0, offset as u32)) == JAL_OPCODE,
        rd_of(j_type_word(0, offset as u32)) == 0,
        j_imm(j_type_word(0, offset as u32)) == offset as u64,
{
}

proof fn lemma_long_jump_lands(from_pc: u64, offset: i128, hi: i128, r: u8)
    by (bit_vector)
    requires
        1 <= r <= 31,
        -0x8_0000 <= hi <= 0x7_ffff,
        -2048 <= offset - hi * 4096 <= 2047,
    ensures
        opcode_of(u_type_word(((hi as i32) as u32) & 0xf_ffff, r, AUIPC_OPCODE)) == AUIPC_OPCODE,
        rd_of(u_type_word(((hi as i32) as u32) & 0xf_ffff, r, AUIPC_OPCODE)) == r as u32,
        opcode_of(i_type_word((((offset - hi * 4096) as i32) as u32) & 0xfff, r, 0, 0, JALR_OPCODE))
            == JALR_OPCODE,
        funct3_of(i_type_word((((offset - hi * 4096) as i32) as u32) & 0xfff, r, 0, 0, JALR_OPCODE))
            == 0,
        rd_of(i_type_word((((offset - hi * 4096) as i32) as u32) & 0xfff, r, 0, 0, JALR_OPCODE))
            == 0,
        rs1_of(i_type_word((((offset - hi * 4096) as i32) as u32) & 0xfff, r, 0, 0, JALR_OPCODE))
            == r as u32,
        ((((from_pc + u_imm(u_type_word(((hi as i32) as u32) & 0xf_ffff, r, AUIPC_OPCODE))) as u64)
            + i_imm(
            i_type_word((((offset - hi * 4096) as i32) as u32) & 0xfff, r, 0, 0, JALR_OPCODE),
        )) as u64) == (from_pc + offset) as u64,
{
}

/// Running the code of `encode_jmp` at `from_pc` jumps to `to_pc` (with bit
/// 0 cleared for the `jalr` form, as `jalr` does). Registers other than the
/// long-jump register, the CSRs and memory are unchanged.
pub proof fn lemma_jmp_lands(s: MachineState, to_pc: u64, longjmp: bool, reg: Option<u64>)
    requires
        s.wf(),
        (to_pc - s.pc) % 2 == 0,
        jmp_words(s.pc, to_pc, longjmp, reg) is Some,
    ensures
        ({
            let ws = jmp_words(s.pc, to_pc, longjmp, reg).unwrap();
            let r = run(s, ws);
            &&& r is Some
            &&& r.unwrap().csrs == s.csrs
            &&& r.unwrap().mem == s.mem
            &&& (ws.len() == 1 ==> r.unwrap().regs == s.regs && r.unwrap().pc == to_pc)
            &&& (ws.len() == 2 ==> r.unwrap().pc == to_pc & !1u64 && forall|i: int|
                0 <= i < 32 && i != (match reg {
                    Some(x) => x as int,
                    None => 1,
                }) ==> r.unwrap().regs[i] == s.regs[i])
        }),
{
    let offset = to_pc - s.pc;
    let ws = jmp_words(s.pc, to_pc, longjmp, reg).unwrap();
    reveal_with_fuel(run, 3);
    if jal_in_range(offset) {
        let o = offset as i64;
        lemma_jal_lands(s.pc, o);
        assert(offset as u32 == o as u32);
        assert(seq![j_type_word(0, offset as u32)].drop_first() =~= Seq::<u32>::empty());
        let s1 = s.with_reg(0, (s.pc + 4) as u64).with_pc((s.pc + j_imm(ws[0])) as u64);
        assert(exec_word(s, ws[0]) == Some(s1));
        let pc = s.pc;
        assert((pc + (o as u64)) as u64 == to_pc) by (bit_vector)
            requires
                o == to_pc - pc,
        ;
    } else {
        let r: u64 = match reg {
            Some(x) => x,
            None => 1,
        };
        let hi = long_hi20(offset);
        let o = offset as i128;
        lemma_long_split(o);
        lemma_long_jump_lands(s.pc, o, hi as i128, r as u8);
        assert(ws.drop_first()[0] == ws[1]);
        assert(ws.drop_first().drop_first() =~= Seq::<u32>::empty());
        let s1 = s.with_reg(r as u32, (s.pc + u_imm(ws[0])) as u64).next();
        assert(exec_word(s, ws[0]) == Some(s1));
        let pc = s.pc;
        assert((pc + (o as u64)) as u64 == to_pc) by (bit_vector)
            requires
                o == to_pc - pc,
        ;
    }
}


// ---------------------------------------------------------------------------
// Memory accesses and their decoding.
// ---------------------------------------------------------------------------

/// One byte of memory at an address.
#[derive(Clone, Copy, Debug, PartialEq, Eq, Structural)]
pub struct MemoryByte {
    pub addr: u64,
    pub value: u8,
}

#[derive(Clone, Copy, Debug, PartialEq, Eq, Structural)]
pub enum MemoryWidth {
    Byte,
    Half,
    Word,
    Double,
}

impl MemoryWidth {
    pub open spec fn nbytes(self) -> u64 {
        match self {
            MemoryWidth::Byte => 1,
            MemoryWidth::Half => 2,
            MemoryWidth::Word => 4,
            MemoryWidth::Double => 8,
        }
    }

    pub open spec fn mask_value(self) -> u64 {
        match self {
            MemoryWidth::Byte => 0xff,
            MemoryWidth::Half => 0xffff,
            MemoryWidth::Word => 0xffff_ffff,
            MemoryWidth::Double => 0xffff_ffff_ffff_ffff,
        }
    }

    pub open spec fn funct3(self) -> u32 {
        match self {
            MemoryWidth::Byte => 0,
            MemoryWidth::Half => 1,
            MemoryWidth::Word => 2,
            MemoryWidth::Double => 3,
        }
    }

    /// Number of bytes accessed.
    pub fn bytes(self) -> (r: u64)
        ensures
            r == self.nbytes(),
    {
        match self {
            MemoryWidth::Byte => 1,
            MemoryWidth::Half => 2,
            MemoryWidth::Word => 4,
            MemoryWidth::Double => 8,
        }
    }

    /// All-ones mask of the access width.
    pub fn mask(self) -> (r: u64)
        ensures
            r == self.mask_value(),
    {
        proof {
            lemma_width_masks();
        }
        match self {
            MemoryWidth::Double => u64::MAX,
            _ => (1u64 << (self.bytes() * 8)) - 1,
        }
    }

    /// The `funct3` field of a store of this width.
    pub fn store_funct3(self) -> (r: u32)
        ensures
            r == self.funct3(),
    {
        match self {
            MemoryWidth::Byte => 0,
            MemoryWidth::Half => 1,
            MemoryWidth::Word => 2,
            MemoryWidth::Double => 3,
        }
    }

    /// The low bytes of `value` that an access of this width covers.
    pub fn truncate(self, value: u64) -> (r: u64)
        ensures
            r == value & self.mask_value(),
    {
        value & self.mask()
    }
}

proof fn lemma_width_masks()
    by (bit_vector)
    ensures
        (1u64 << 8u64) - 1 == 0xff,
        (1u64 << 16u64) - 1 == 0xffff,
        (1u64 << 32u64) - 1 == 0xffff_ffff,
{
}

#[derive(Clone, Copy, Debug, PartialEq, Eq, Structural)]
pub struct MemoryAccess {
    pub addr: u64,
    pub width: MemoryWidth,
}

#[derive(Clone, Copy, Debug, PartialEq, Eq, Structural)]
pub struct MemoryWrite {
    pub access: MemoryAccess,
    pub value: u64,
}

#[derive(Clone, Copy, Debug, PartialEq, Eq, Structural)]
pub enum MemoryWriteDecode {
    NotStore,
    Write(MemoryWrite),
    Unsupported,
}

#[derive(Clone, Copy, Debug, PartialEq, Eq, Structural)]
pub enum MemoryReadDecode {
    NotLoad,
    Read(MemoryAccess),
    Unsupported,
}

impl MemoryAccess {
    pub fn bytes(self) -> (r: u64)
        ensures
            r == self.width.nbytes(),
    {
        self.width.bytes()
    }
}

pub open spec fn write_of(addr: u64, value: u64, width: MemoryWidth) -> MemoryWrite {
    MemoryWrite { access: MemoryAccess { addr, width }, value: value & width.mask_value() }
}

/// A write of the low `width` bytes of `value` to `addr`.
pub fn memory_write(addr: u64, value: u64, width: MemoryWidth) -> (w: MemoryWrite)
    ensures
        w == write_of(addr, value, width),
{
    MemoryWrite { access: MemoryAccess { addr, width }, value: width.truncate(value) }
}

/// The fields of an instruction word fit their widths.
pub proof fn lemma_word_fields(w: u32)
    by (bit_vector)
    ensures
        opcode_of(w) < 0x80,
        rd_of(w) < 32,
        funct3_of(w) < 8,
        rs1_of(w) < 32,
        rs2_of(w) < 32,
        funct5_of(w) < 32,
{
}

/// Casting facts: a round trip through `i64`, and wrapping addition.
pub proof fn lemma_casts(x: u64, y: u64)
    by (bit_vector)
    ensures
        (x as i64) as u64 == x,
        x.wrapping_add(y) == (x + y) as u64,
{
}

/// Sign-extended S-type immediate, as a signed value.
pub fn decode_s_type_imm(inst: u32) -> (imm: i64)
    ensures
        imm as u64 == s_imm(inst),
{
    let imm = ((inst >> 25u32) << 5u32) | ((inst >> 7u32) & 0x1f);
    let r = sign_extend(imm as u64, IMM12_BITS);
    proof {
        lemma_casts(r, 0);
    }
    r as i64
}

/// Sign-extended I-type immediate, as a signed value.
pub fn decode_i_type_imm(inst: u32) -> (imm: i64)
    ensures
        imm as u64 == i_imm(inst),
{
    let r = sign_extend((inst >> 20u32) as u64, IMM12_BITS);
    proof {
        lemma_casts(r, 0);
    }
    r as i64
}

pub open spec fn load_width_of(funct3: u32) -> Option<MemoryWidth> {
    if funct3 == 0 || funct3 == 4 {
        Some(MemoryWidth::Byte)
    } else if funct3 == 1 || funct3 == 5 {
        Some(MemoryWidth::Half)
    } else if funct3 == 2 || funct3 == 6 {
        Some(MemoryWidth::Word)
    } else if funct3 == 3 {
        Some(MemoryWidth::Double)
    } else {
        None
    }
}

pub open spec fn store_width_of(funct3: u32) -> Option<MemoryWidth> {
    if funct3 == 0 {
        Some(MemoryWidth::Byte)
    } else if funct3 == 1 {
        Some(MemoryWidth::Half)
    } else if funct3 == 2 {
        Some(MemoryWidth::Word)
    } else if funct3 == 3 {
        Some(MemoryWidth::Double)
    } else {
        None
    }
}

pub open spec fn amo_width_of(funct3: u32) -> Option<MemoryWidth> {
    if funct3 == 2 {
        Some(MemoryWidth::Word)
    } else if funct3 == 3 {
        Some(MemoryWidth::Double)
    } else {
        None
    }
}

/// What a standard load `inst` reads, given the registers before it.
pub open spec fn standard_load_decode(inst: u32, regs: Seq<u64>) -> MemoryReadDecode {
    if opcode_of(inst) != LOAD_OPCODE {
        MemoryReadDecode::NotLoad
    } else {
        match load_width_of(funct3_of(inst)) {
            Some(width) => MemoryReadDecode::Read(
                MemoryAccess { addr: (regs[rs1_of(inst) as int] + i_imm(inst)) as u64, width },
            ),
            None => MemoryReadDecode::Unsupported,
        }
    }
}

pub fn decode_standard_load(inst: u32, regs: &[u64; 32]) -> (d: MemoryReadDecode)
    ensures
        d == standard_load_decode(inst, regs@),
{
    proof {
        lemma_word_fields(inst);
    }
    if inst & 0x7f != LOAD_OPCODE {
        return MemoryReadDecode::NotLoad;
    }
    let funct3 = (inst >> 12u32) & 0x7;
    let width = if funct3 == 0 || funct3 == 4 {
        MemoryWidth::Byte
    } else if funct3 == 1 || funct3 == 5 {
        MemoryWidth::Half
    } else if funct3 == 2 || funct3 == 6 {
        MemoryWidth::Word
    } else if funct3 == 3 {
        MemoryWidth::Double
    } else {
        return MemoryReadDecode::Unsupported;
    };
    let rs1 = (inst >> 15u32) & 0x1f;
    let imm = decode_i_type_imm(inst) as u64;
    proof {
        lemma_casts(regs[rs1 as int], imm);
    }
    let addr = regs[rs1 as usize].wrapping_add(imm);
    MemoryReadDecode::Read(MemoryAccess { addr, width })
}

pub const AMO_FUNCT5_LR: u32 = 0b00010;
pub const AMO_FUNCT5_SC: u32 = 0b00011;
pub const AMO_FUNCT5_SWAP: u32 = 0b00001;
pub const AMO_FUNCT5_ADD: u32 = 0b00000;
pub const AMO_FUNCT5_XOR: u32 = 0b00100;
pub const AMO_FUNCT5_AND: u32 = 0b01100;
pub const AMO_FUNCT5_OR: u32 = 0b01000;
pub const AMO_FUNCT5_MIN: u32 = 0b10000;
pub const AMO_FUNCT5_MAX: u32 = 0b10100;
pub const AMO_FUNCT5_MINU: u32 = 0b11000;
pub const AMO_FUNCT5_MAXU: u32 = 0b11100;

/// The AMO operations other than LR and SC.
pub open spec fn is_amo_rmw(funct5: u32) -> bool {
    funct5 == AMO_FUNCT5_SWAP || funct5 == AMO_FUNCT5_ADD || funct5 == AMO_FUNCT5_XOR || funct5
        == AMO_FUNCT5_AND || funct5 == AMO_FUNCT5_OR || funct5 == AMO_FUNCT5_MIN || funct5
        == AMO_FUNCT5_MAX || funct5 == AMO_FUNCT5_MINU || funct5 == AMO_FUNCT5_MAXU
}

/// What an AMO word `inst` reads: LR and the read-modify-write operations
/// read from `regs[rs1]`; SC reads nothing.
pub open spec fn atomic_read_decode(inst: u32, regs: Seq<u64>) -> MemoryReadDecode {
    match amo_width_of(funct3_of(inst)) {
        None => MemoryReadDecode::Unsupported,
        Some(width) => if funct5_of(inst) == AMO_FUNCT5_SC {
            MemoryReadDecode::NotLoad
        } else if funct5_of(inst) == AMO_FUNCT5_LR || is_amo_rmw(funct5_of(inst)) {
            MemoryReadDecode::Read(MemoryAccess { addr: regs[rs1_of(inst) as int], width })
        } else {
            MemoryReadDecode::Unsupported
        },
    }
}

pub fn decode_atomic_memory_read(inst: u32, regs: &[u64; 32]) -> (d: MemoryReadDecode)
    ensures
        d == atomic_read_decode(inst, regs@),
{
    proof {
        lemma_word_fields(inst);
    }
    let funct3 = (inst >> 12u32) & 0x7;
    let width = if funct3 == 2 {
        MemoryWidth::Word
    } else if funct3 == 3 {
        MemoryWidth::Double
    } else {
        return MemoryReadDecode::Unsupported;
    };
    let funct5 = (inst >> 27u32) & 0x1f;
    if funct5 == AMO_FUNCT5_SC {
        return MemoryReadDecode::NotLoad;
    }
    if !(funct5 == AMO_FUNCT5_LR || funct5 == AMO_FUNCT5_SWAP || funct5 == AMO_FUNCT5_ADD
        || funct5 == AMO_FUNCT5_XOR || funct5 == AMO_FUNCT5_AND || funct5 == AMO_FUNCT5_OR
        || funct5 == AMO_FUNCT5_MIN || funct5 == AMO_FUNCT5_MAX || funct5 == AMO_FUNCT5_MINU
        || funct5 == AMO_FUNCT5_MAXU) {
        return MemoryReadDecode::Unsupported;
    }
    let rs1 = (inst >> 15u32) & 0x1f;
    MemoryReadDecode::Read(MemoryAccess { addr: regs[rs1 as usize], width })
}

/// The signed (two's complement, `width` bytes) minimum of two values.
pub open spec fn signed_min_of(lhs: u64, rhs: u64, width: MemoryWidth) -> u64 {
    if sext(lhs, (width.nbytes() * 8) as u32) as i64 <= sext(rhs, (width.nbytes() * 8) as u32) as i64 {
        lhs
    } else {
        rhs
    }
}

/// The signed (two's complement, `width` bytes) maximum of two values.
pub open spec fn signed_max_of(lhs: u64, rhs: u64, width: MemoryWidth) -> u64 {
    if sext(lhs, (width.nbytes() * 8) as u32) as i64 >= sext(rhs, (width.nbytes() * 8) as u32) as i64 {
        lhs
    } else {
        rhs
    }
}

pub fn amo_signed_min(lhs: u64, rhs: u64, width: MemoryWidth) -> (r: u64)
    ensures
        r == signed_min_of(lhs, rhs, width),
{
    let bits = (width.bytes() * 8) as u32;
    if sign_extend(lhs, bits) as i64 <= sign_extend(rhs, bits) as i64 {
        lhs
    } else {
        rhs
    }
}

pub fn amo_signed_max(lhs: u64, rhs: u64, width: MemoryWidth) -> (r: u64)
    ensures
        r == signed_max_of(lhs, rhs, width),
{
    let bits = (width.bytes() * 8) as u32;
    if sign_extend(lhs, bits) as i64 >= sign_extend(rhs, bits) as i64 {
        lhs
    } else {
        rhs
    }
}

/// What an AMO word `inst` stores, taking the old memory value to be the
/// (truncated) `regs[rd]`. SC stores only when `regs[rd] == 0`; LR and
/// unknown widths store nothing; `rd = x0` on SC and the arithmetic AMOs is
/// not handled.
pub open spec fn atomic_write_decode(inst: u32, regs: Seq<u64>) -> MemoryWriteDecode {
    match amo_width_of(funct3_of(inst)) {
        None => MemoryWriteDecode::NotStore,
        Some(width) => {
            let rd = rd_of(inst);
            let addr = regs[rs1_of(inst) as int];
            let rhs = regs[rs2_of(inst) as int] & width.mask_value();
            let f5 = funct5_of(inst);
            if f5 == AMO_FUNCT5_LR {
                MemoryWriteDecode::NotStore
            } else if f5 == AMO_FUNCT5_SC {
                if rd == 0 {
                    MemoryWriteDecode::Unsupported
                } else if regs[rd as int] == 0 {
                    MemoryWriteDecode::Write(write_of(addr, rhs, width))
                } else {
                    MemoryWriteDecode::NotStore
                }
            } else if f5 == AMO_FUNCT5_SWAP {
                MemoryWriteDecode::Write(write_of(addr, rhs, width))
            } else if rd == 0 {
                MemoryWriteDecode::Unsupported
            } else {
                let old = regs[rd as int] & width.mask_value();
                if f5 == AMO_FUNCT5_ADD {
                    MemoryWriteDecode::Write(write_of(addr, (old + rhs) as u64, width))
                } else if f5 == AMO_FUNCT5_XOR {
                    MemoryWriteDecode::Write(write_of(addr, old ^ rhs, width))
                } else if f5 == AMO_FUNCT5_AND {
                    MemoryWriteDecode::Write(write_of(addr, old & rhs, width))
                } else if f5 == AMO_FUNCT5_OR {
                    MemoryWriteDecode::Write(write_of(addr, old | rhs, width))
                } else if f5 == AMO_FUNCT5_MIN {
                    MemoryWriteDecode::Write(write_of(addr, signed_min_of(old, rhs, width), width))
                } else if f5 == AMO_FUNCT5_MAX {
                    MemoryWriteDecode::Write(write_of(addr, signed_max_of(old, rhs, width), width))
                } else if f5 == AMO_FUNCT5_MINU {
                    MemoryWriteDecode::Write(
                        write_of(addr, if old <= rhs { old } else { rhs }, width),
                    )
                } else if f5 == AMO_FUNCT5_MAXU {
                    MemoryWriteDecode::Write(
                        write_of(addr, if old >= rhs { old } else { rhs }, width),
                    )
                } else {
                    MemoryWriteDecode::Unsupported
                }
            }
        },
    }
}

pub fn decode_atomic_memory_write(inst: u32, regs: &[u64; 32]) -> (d: MemoryWriteDecode)
    ensures
        d == atomic_write_decode(inst, regs@),
{
    proof {
        lemma_word_fields(inst);
    }
    let funct3 = (inst >> 12u32) & 0x7;
    let width = if funct3 == 2 {
        MemoryWidth::Word
    } else if funct3 == 3 {
        MemoryWidth::Double
    } else {
        return MemoryWriteDecode::NotStore;
    };
    let rd = (inst >> 7u32) & 0x1f;
    let rs1 = (inst >> 15u32) & 0x1f;
    let rs2 = (inst >> 20u32) & 0x1f;
    let funct5 = (inst >> 27u32) & 0x1f;
    let addr = regs[rs1 as usize];
    let rhs = width.truncate(regs[rs2 as usize]);

    let value = if funct5 == AMO_FUNCT5_LR {
        return MemoryWriteDecode::NotStore;
    } else if funct5 == AMO_FUNCT5_SC {
        if rd == 0 {
            return MemoryWriteDecode::Unsupported;
        }
        if regs[rd as usize] == 0 {
            rhs
        } else {
            return MemoryWriteDecode::NotStore;
        }
    } else if funct5 == AMO_FUNCT5_SWAP {
        rhs
    } else {
        if rd == 0 {
            return MemoryWriteDecode::Unsupported;
        }
        let old = width.truncate(regs[rd as usize]);
        proof {
            lemma_casts(old, rhs);
        }
        if funct5 == AMO_FUNCT5_ADD {
            old.wrapping_add(rhs)
        } else if funct5 == AMO_FUNCT5_XOR {
            old ^ rhs
        } else if funct5 == AMO_FUNCT5_AND {
            old & rhs
        } else if funct5 == AMO_FUNCT5_OR {
            old | rhs
        } else if funct5 == AMO_FUNCT5_MIN {
            amo_signed_min(old, rhs, width)
        } else if funct5 == AMO_FUNCT5_MAX {
            amo_signed_max(old, rhs, width)
        } else if funct5 == AMO_FUNCT5_MINU {
            if old <= rhs { old } else { rhs }
        } else if funct5 == AMO_FUNCT5_MAXU {
            if old >= rhs { old } else { rhs }
        } else {
            return MemoryWriteDecode::Unsupported;
        }
    };
    MemoryWriteDecode::Write(memory_write(addr, value, width))
}

/// What a standard (32-bit) store or AMO word `inst` writes.
pub open spec fn standard_store_decode(inst: u32, regs: Seq<u64>) -> MemoryWriteDecode {
    if opcode_of(inst) == STORE_OPCODE {
        match store_width_of(funct3_of(inst)) {
            Some(width) => MemoryWriteDecode::Write(
                write_of(
                    (regs[rs1_of(inst) as int] + s_imm(inst)) as u64,
                    regs[rs2_of(inst) as int],
                    width,
                ),
            ),
            None => MemoryWriteDecode::Unsupported,
        }
    } else if opcode_of(inst) == AMO_OPCODE {
        atomic_write_decode(inst, regs)
    } else {
        MemoryWriteDecode::NotStore
    }
}

pub fn decode_standard_store(inst: u32, regs: &[u64; 32]) -> (d: MemoryWriteDecode)
    ensures
        d == standard_store_decode(inst, regs@),
{
    proof {
        lemma_word_fields(inst);
    }
    let opcode = inst & 0x7f;
    if opcode == STORE_OPCODE {
        let funct3 = (inst >> 12u32) & 0x7;
        let width = if funct3 == 0 {
            MemoryWidth::Byte
        } else if funct3 == 1 {
            MemoryWidth::Half
        } else if funct3 == 2 {
            MemoryWidth::Word
        } else if funct3 == 3 {
            MemoryWidth::Double
        } else {
            return MemoryWriteDecode::Unsupported;
        };
        let rs1 = (inst >> 15u32) & 0x1f;
        let rs2 = (inst >> 20u32) & 0x1f;
        let imm = decode_s_type_imm(inst) as u64;
        proof {
            lemma_casts(regs[rs1 as int], imm);
        }
        let addr = regs[rs1 as usize].wrapping_add(imm);
        return MemoryWriteDecode::Write(memory_write(addr, regs[rs2 as usize], width));
    }
    if opcode == AMO_OPCODE {
        return decode_atomic_memory_write(inst, regs);
    }
    MemoryWriteDecode::NotStore
}


/// Decoding a store word built by `encode_store` gives back the store:
/// the address is `rs1` plus the sign-extended immediate, the value is `rs2`
/// truncated to the width.
pub proof fn lemma_store_roundtrip(rs1: u8, rs2: u8, imm: u32, width: MemoryWidth, regs: Seq<u64>)
    requires
        rs1 < 32,
        rs2 < 32,
        imm < 0x1000,
    ensures
        standard_store_decode(s_type_word(rs1, rs2, imm, width.funct3()), regs)
            == MemoryWriteDecode::Write(
            write_of((regs[rs1 as int] + sext(imm as u64, 12)) as u64, regs[rs2 as int], width),
        ),
{
    lemma_s_type_fields(rs1, rs2, imm, width.funct3());
}

/// Decoding a load word built from its fields gives back the load: the
/// address is `rs1` plus the sign-extended 12-bit immediate (mod 2^64), as
/// RISC-V computes a load's effective address, and the width follows
/// `funct3`; `funct3` 7 is no RV64 load.
pub proof fn lemma_load_roundtrip(rs1: u8, rd: u8, imm: u32, funct3: u32, regs: Seq<u64>)
    requires
        rs1 < 32,
        rd < 32,
        imm < 0x1000,
        funct3 < 7,
    ensures
        standard_load_decode(i_type_word(imm, rs1, 7, rd, LOAD_OPCODE), regs)
            == MemoryReadDecode::Unsupported,
        standard_load_decode(i_type_word(imm, rs1, funct3, rd, LOAD_OPCODE), regs)
            == MemoryReadDecode::Read(
            MemoryAccess {
                addr: (regs[rs1 as int] + sext(imm as u64, 12)) as u64,
                width: if funct3 == 3 {
                    MemoryWidth::Double
                } else if funct3 % 4 == 2 {
                    MemoryWidth::Word
                } else if funct3 % 4 == 1 {
                    MemoryWidth::Half
                } else {
                    MemoryWidth::Byte
                },
            },
        ),
{
    lemma_i_type_fields(imm, rs1, funct3, rd, LOAD_OPCODE);
    lemma_i_type_fields(imm, rs1, 7, rd, LOAD_OPCODE);
}

/// A word whose opcode is not LOAD is no standard load.
pub proof fn lemma_non_load_word(inst: u32, regs: Seq<u64>)
    requires
        opcode_of(inst) != LOAD_OPCODE,
    ensures
        standard_load_decode(inst, regs) == MemoryReadDecode::NotLoad,
{
}

/// A load and a store with the same base register and immediate access
/// the same address, at the width their `funct3` gives.
pub proof fn lemma_load_store_same_address(
    rs1: u8,
    rd: u8,
    rs2: u8,
    imm: u32,
    width: MemoryWidth,
    regs: Seq<u64>,
)
    requires
        rs1 < 32,
        rd < 32,
        rs2 < 32,
        imm < 0x1000,
    ensures
        standard_load_decode(i_type_word(imm, rs1, width.funct3(), rd, LOAD_OPCODE), regs) matches MemoryReadDecode::Read(a)
            && standard_store_decode(s_type_word(rs1, rs2, imm, width.funct3()), regs) matches MemoryWriteDecode::Write(w)
            && a.addr == w.access.addr && a.width == width && w.access.width == width,
{
    lemma_load_roundtrip(rs1, rd, imm, width.funct3(), regs);
    lemma_store_roundtrip(rs1, rs2, imm, width, regs);
}

pub open spec fn c_sw_imm(inst: u16) -> u16 {
    ((inst >> 10u16) & 0x7) << 3u16 | ((inst >> 6u16) & 0x1) << 2u16 | ((inst >> 5u16) & 0x1) << 6u16
}

pub open spec fn c_sd_imm(inst: u16) -> u16 {
    ((inst >> 10u16) & 0x7) << 3u16 | ((inst >> 5u16) & 0x3) << 6u16
}

pub open spec fn c_swsp_imm(inst: u16) -> u16 {
    ((inst >> 9u16) & 0xf) << 2u16 | ((inst >> 7u16) & 0x3) << 6u16
}

pub open spec fn c_sdsp_imm(inst: u16) -> u16 {
    ((inst >> 10u16) & 0x7) << 3u16 | ((inst >> 7u16) & 0x7) << 6u16
}

pub open spec fn c_lwsp_imm(inst: u16) -> u16 {
    ((inst >> 12u16) & 0x1) << 5u16 | ((inst >> 4u16) & 0x7) << 2u16 | ((inst >> 2u16) & 0x3) << 6u16
}

pub open spec fn c_ldsp_imm(inst: u16) -> u16 {
    ((inst >> 10u16) & 0x7) << 3u16 | ((inst >> 2u16) & 0x7) << 6u16
}

/// The register `x8 + ((inst >> shift) & 7)` named by a 3-bit field.
pub open spec fn c_reg(inst: u16, shift: u16) -> int {
    ((inst >> shift) & 0x7) + 8
}

proof fn lemma_half_fields(inst: u16)
    by (bit_vector)
    ensures
        (inst >> 7u16) & 0x7 < 8,
        (inst >> 2u16) & 0x7 < 8,
        (inst >> 2u16) & 0x1f < 32,
        (inst >> 7u16) & 0x1f < 32,
{
}

pub const RVC_SP_STORE_MASK: u16 = 0xe003;
pub const RVC_C_LW_MATCH: u16 = 0x4000;
pub const RVC_C_LD_MATCH: u16 = 0x6000;
pub const RVC_C_LWSP_MATCH: u16 = 0x4002;
pub const RVC_C_LDSP_MATCH: u16 = 0x6002;
pub const RVC_C_SW_MATCH: u16 = 0xc000;
pub const RVC_C_SD_MATCH: u16 = 0xe000;
pub const RVC_C_SWSP_MATCH: u16 = 0xc002;
pub const RVC_C_SDSP_MATCH: u16 = 0xe002;

/// The full register index of a compressed 3-bit register field.
pub fn compressed_reg(reg: u16) -> (r: usize)
    ensures
        r == reg + 8,
{
    (reg as usize) + 8
}

/// What a compressed store (C.SW, C.SD, C.SWSP, C.SDSP) writes.
pub open spec fn compressed_store_decode(inst: u16, regs: Seq<u64>) -> MemoryWriteDecode {
    let m = inst & RVC_SP_STORE_MASK;
    if m == RVC_C_SW_MATCH {
        MemoryWriteDecode::Write(
            write_of(
                (regs[c_reg(inst, 7)] + c_sw_imm(inst)) as u64,
                regs[c_reg(inst, 2)],
                MemoryWidth::Word,
            ),
        )
    } else if m == RVC_C_SD_MATCH {
        MemoryWriteDecode::Write(
            write_of(
                (regs[c_reg(inst, 7)] + c_sd_imm(inst)) as u64,
                regs[c_reg(inst, 2)],
                MemoryWidth::Double,
            ),
        )
    } else if m == RVC_C_SWSP_MATCH {
        MemoryWriteDecode::Write(
            write_of(
                (regs[SP_REG as int] + c_swsp_imm(inst)) as u64,
                regs[((inst >> 2u16) & 0x1f) as int],
                MemoryWidth::Word,
            ),
        )
    } else if m == RVC_C_SDSP_MATCH {
        MemoryWriteDecode::Write(
            write_of(
                (regs[SP_REG as int] + c_sdsp_imm(inst)) as u64,
                regs[((inst >> 2u16) & 0x1f) as int],
                MemoryWidth::Double,
            ),
        )
    } else {
        MemoryWriteDecode::NotStore
    }
}

pub fn decode_compressed_store(inst: u16, regs: &[u64; 32]) -> (d: MemoryWriteDecode)
    ensures
        d == compressed_store_decode(inst, regs@),
{
    proof {
        lemma_half_fields(inst);
    }
    let m = inst & RVC_SP_STORE_MASK;
    if m == RVC_C_SW_MATCH {
        let rs1 = compressed_reg((inst >> 7u16) & 0x7);
        let rs2 = compressed_reg((inst >> 2u16) & 0x7);
        let imm = ((inst >> 10u16) & 0x7) << 3u16 | ((inst >> 6u16) & 0x1) << 2u16 | ((inst >> 5u16)
            & 0x1) << 6u16;
        proof {
            lemma_casts(regs[rs1 as int], imm as u64);
        }
        let addr = regs[rs1].wrapping_add(imm as u64);
        MemoryWriteDecode::Write(memory_write(addr, regs[rs2], MemoryWidth::Word))
    } else if m == RVC_C_SD_MATCH {
        let rs1 = compressed_reg((inst >> 7u16) & 0x7);
        let rs2 = compressed_reg((inst >> 2u16) & 0x7);
        let imm = ((inst >> 10u16) & 0x7) << 3u16 | ((inst >> 5u16) & 0x3) << 6u16;
        proof {
            lemma_casts(regs[rs1 as int], imm as u64);
        }
        let addr = regs[rs1].wrapping_add(imm as u64);
        MemoryWriteDecode::Write(memory_write(addr, regs[rs2], MemoryWidth::Double))
    } else if m == RVC_C_SWSP_MATCH {
        let rs2 = ((inst >> 2u16) & 0x1f) as usize;
        let imm = ((inst >> 9u16) & 0xf) << 2u16 | ((inst >> 7u16) & 0x3) << 6u16;
        proof {
            lemma_casts(regs[SP_REG as int], imm as u64);
        }
        let addr = regs[SP_REG].wrapping_add(imm as u64);
        MemoryWriteDecode::Write(memory_write(addr, regs[rs2], MemoryWidth::Word))
    } else if m == RVC_C_SDSP_MATCH {
        let rs2 = ((inst >> 2u16) & 0x1f) as usize;
        let imm = ((inst >> 10u16) & 0x7) << 3u16 | ((inst >> 7u16) & 0x7) << 6u16;
        proof {
            lemma_casts(regs[SP_REG as int], imm as u64);
        }
        let addr = regs[SP_REG].wrapping_add(imm as u64);
        MemoryWriteDecode::Write(memory_write(addr, regs[rs2], MemoryWidth::Double))
    } else {
        MemoryWriteDecode::NotStore
    }
}

/// What a compressed load (C.LW, C.LD, C.LWSP, C.LDSP) reads; the SP-based
/// forms with `rd = x0` are reserved encodings and not handled.
pub open spec fn compressed_load_decode(inst: u16, regs: Seq<u64>) -> MemoryReadDecode {
    let m = inst & RVC_SP_STORE_MASK;
    if m == RVC_C_LW_MATCH {
        MemoryReadDecode::Read(
            MemoryAccess {
                addr: (regs[c_reg(inst, 7)] + c_sw_imm(inst)) as u64,
                width: MemoryWidth::Word,
            },
        )
    } else if m == RVC_C_LD_MATCH {
        MemoryReadDecode::Read(
            MemoryAccess {
                addr: (regs[c_reg(inst, 7)] + c_sd_imm(inst)) as u64,
                width: MemoryWidth::Double,
            },
        )
    } else if m == RVC_C_LWSP_MATCH {
        if (inst >> 7u16) & 0x1f == 0 {
            MemoryReadDecode::Unsupported
        } else {
            MemoryReadDecode::Read(
                MemoryAccess {
                    addr: (regs[SP_REG as int] + c_lwsp_imm(inst)) as u64,
                    width: MemoryWidth::Word,
                },
            )
        }
    } else if m == RVC_C_LDSP_MATCH {
        if (inst >> 7u16) & 0x1f == 0 {
            MemoryReadDecode::Unsupported
        } else {
            MemoryReadDecode::Read(
                MemoryAccess {
                    addr: (regs[SP_REG as int] + c_ldsp_imm(inst)) as u64,
                    width: MemoryWidth::Double,
                },
            )
        }
    } else {
        MemoryReadDecode::NotLoad
    }
}

pub fn decode_compressed_load(inst: u16, regs: &[u64; 32]) -> (d: MemoryReadDecode)
    ensures
        d == compressed_load_decode(inst, regs@),
{
    proof {
        lemma_half_fields(inst);
    }
    let m = inst & RVC_SP_STORE_MASK;
    let (base, imm, width) = if m == RVC_C_LW_MATCH {
        let rs1 = compressed_reg((inst >> 7u16) & 0x7);
        let imm = ((inst >> 10u16) & 0x7) << 3u16 | ((inst >> 6u16) & 0x1) << 2u16 | ((inst >> 5u16)
            & 0x1) << 6u16;
        (regs[rs1], imm, MemoryWidth::Word)
    } else if m == RVC_C_LD_MATCH {
        let rs1 = compressed_reg((inst >> 7u16) & 0x7);
        let imm = ((inst >> 10u16) & 0x7) << 3u16 | ((inst >> 5u16) & 0x3) << 6u16;
        (regs[rs1], imm, MemoryWidth::Double)
    } else if m == RVC_C_LWSP_MATCH {
        let rd = (inst >> 7u16) & 0x1f;
        if rd == 0 {
            return MemoryReadDecode::Unsupported;
        }
        let imm = ((inst >> 12u16) & 0x1) << 5u16 | ((inst >> 4u16) & 0x7) << 2u16 | ((inst >> 2u16)
            & 0x3) << 6u16;
        (regs[SP_REG], imm, MemoryWidth::Word)
    } else if m == RVC_C_LDSP_MATCH {
        let rd = (inst >> 7u16) & 0x1f;
        if rd == 0 {
            return MemoryReadDecode::Unsupported;
        }
        let imm = ((inst >> 10u16) & 0x7) << 3u16 | ((inst >> 2u16) & 0x7) << 6u16;
        (regs[SP_REG], imm, MemoryWidth::Double)
    } else {
        return MemoryReadDecode::NotLoad;
    };
    proof {
        lemma_casts(base, imm as u64);
    }
    MemoryReadDecode::Read(MemoryAccess { addr: base.wrapping_add(imm as u64), width })
}

/// The instruction at `offset` is well inside `input`.
pub open spec fn inst_fits_at(input: Seq<u8>, offset: int) -> bool {
    &&& 0 <= offset
    &&& offset + 2 <= input.len()
    &&& offset + inst_len_of(halfword_at(input, offset)) <= input.len()
}

/// Whether the instruction at `offset` lies wholly inside `input`.
pub fn inst_fits(input: &[u8], offset: usize) -> (b: bool)
    ensures
        b == inst_fits_at(input@, offset as int),
{
    let n = input.len();
    if offset > n || n - offset < 2 {
        return false;
    }
    let halfword = (input[offset] as u16) | ((input[offset + 1] as u16) << 8u16);
    assert(halfword == halfword_at(input@, offset as int));
    riscv_inst_len(halfword) <= n - offset
}

/// What the instruction at `offset` of `input` writes to memory.
pub open spec fn write_decode_at(input: Seq<u8>, offset: int, regs: Seq<u64>) -> MemoryWriteDecode {
    if inst_len_of(halfword_at(input, offset)) == 4 {
        standard_store_decode(word_at(input, offset), regs)
    } else {
        compressed_store_decode(halfword_at(input, offset), regs)
    }
}

/// What the instruction at `offset` of `input` reads from memory.
pub open spec fn read_decode_at(input: Seq<u8>, offset: int, regs: Seq<u64>) -> MemoryReadDecode {
    if inst_len_of(halfword_at(input, offset)) == 4 {
        if opcode_of(word_at(input, offset)) == AMO_OPCODE {
            atomic_read_decode(word_at(input, offset), regs)
        } else {
            standard_load_decode(word_at(input, offset), regs)
        }
    } else {
        compressed_load_decode(halfword_at(input, offset), regs)
    }
}

/// The memory write of the instruction at `offset`, given the registers
/// before it executes.
pub fn decode_memory_write_at(input: &[u8], offset: usize, regs: &[u64; 32]) -> (d: MemoryWriteDecode)
    requires
        inst_fits_at(input@, offset as int),
    ensures
        d == write_decode_at(input@, offset as int, regs@),
{
    let len = inst_len_at(input, offset);
    if len == STANDARD_INST_BYTES {
        let inst = (input[offset] as u32) | ((input[offset + 1] as u32) << 8u32) | ((input[offset
            + 2] as u32) << 16u32) | ((input[offset + 3] as u32) << 24u32);
        decode_standard_store(inst, regs)
    } else {
        let inst = (input[offset] as u16) | ((input[offset + 1] as u16) << 8u16);
        decode_compressed_store(inst, regs)
    }
}

/// The memory read of the instruction at `offset`, given the registers
/// before it executes.
pub fn decode_memory_read_at(input: &[u8], offset: usize, regs: &[u64; 32]) -> (d: MemoryReadDecode)
    requires
        inst_fits_at(input@, offset as int),
    ensures
        d == read_decode_at(input@, offset as int, regs@),
{
    let len = inst_len_at(input, offset);
    if len == STANDARD_INST_BYTES {
        let inst = (input[offset] as u32) | ((input[offset + 1] as u32) << 8u32) | ((input[offset
            + 2] as u32) << 16u32) | ((input[offset + 3] as u32) << 24u32);
        if inst & 0x7f == AMO_OPCODE {
            decode_atomic_memory_read(inst, regs)
        } else {
            decode_standard_load(inst, regs)
        }
    } else {
        let inst = (input[offset] as u16) | ((input[offset + 1] as u16) << 8u16);
        decode_compressed_load(inst, regs)
    }
}


// ---------------------------------------------------------------------------
// Restoring memory bytes.
// ---------------------------------------------------------------------------

/// The first `count` entries of `mb` sit at `start, start + 1, ...`.
pub open spec fn contiguous_from(mb: Seq<MemoryByte>, start: u64, count: nat) -> bool {
    &&& mb.len() >= count
    &&& forall|i: int| 0 <= i < count ==> #[trigger] mb[i].addr == (start + i) as u64
}

pub fn contiguous_bytes(memory_bytes: &[MemoryByte], start: u64, count: usize) -> (b: bool)
    ensures
        b == contiguous_from(memory_bytes@, start, count as nat),
{
    if memory_bytes.len() < count {
        return false;
    }
    let mut offset: usize = 0;
    while offset < count
        invariant
            offset <= count <= memory_bytes@.len(),
            forall|i: int| 0 <= i < offset ==> #[trigger] memory_bytes@[i].addr == (start + i) as u64,
        decreases count - offset,
    {
        proof {
            lemma_casts(start, offset as u64);
        }
        if memory_bytes[offset].addr != start.wrapping_add(offset as u64) {
            return false;
        }
        offset += 1;
    }
    true
}

/// The widest naturally aligned access that covers a contiguous run at the
/// start of `mb` (8, 4, 2 or 1 bytes).
pub open spec fn restore_width(mb: Seq<MemoryByte>) -> MemoryWidth {
    let addr = mb[0].addr;
    if addr % 8 == 0 && contiguous_from(mb, addr, 8) {
        MemoryWidth::Double
    } else if addr % 4 == 0 && contiguous_from(mb, addr, 4) {
        MemoryWidth::Word
    } else if addr % 2 == 0 && contiguous_from(mb, addr, 2) {
        MemoryWidth::Half
    } else {
        MemoryWidth::Byte
    }
}

/// The little-endian value of the first `n` bytes of `mb`.
pub open spec fn chunk_value(mb: Seq<MemoryByte>, n: nat) -> u64
    decreases n,
{
    if n == 0 {
        0
    } else {
        chunk_value(mb, (n - 1) as nat) | ((mb[n - 1].value as u64) << (8 * (n - 1)) as u64)
    }
}

/// The words that `append_memory_restore` emits: per chunk, load the
/// address, load the value, store it.
pub open spec fn restore_words(mb: Seq<MemoryByte>, addr_reg: u8, value_reg: u8) -> Seq<u32>
    decreases mb.len(),
{
    if mb.len() == 0 {
        Seq::empty()
    } else {
        let w = restore_width(mb);
        let n = w.nbytes() as nat;
        load_u64_words(addr_reg, mb[0].addr) + load_u64_words(value_reg, chunk_value(mb, n))
            + seq![s_type_word(addr_reg, value_reg, 0, w.funct3())] + restore_words(
            mb.skip(n as int),
            addr_reg,
            value_reg,
        )
    }
}

/// Every store in `restore_words(mb, ..)` is naturally aligned: each chunk's
/// store of `restore_width` bytes goes to its first address, a multiple of
/// that width.
pub open spec fn restore_stores_aligned(mb: Seq<MemoryByte>) -> bool
    decreases mb.len(),
{
    if mb.len() == 0 {
        true
    } else {
        let w = restore_width(mb);
        mb[0].addr % w.nbytes() == 0 && restore_stores_aligned(mb.skip(w.nbytes() as int))
    }
}

/// The chunks `restore_words` cuts are naturally aligned.
pub proof fn lemma_restore_stores_aligned(mb: Seq<MemoryByte>)
    ensures
        restore_stores_aligned(mb),
    decreases mb.len(),
{
    if mb.len() > 0 {
        let n = restore_width(mb).nbytes() as int;
        assert(n <= mb.len());
        lemma_restore_stores_aligned(mb.skip(n));
    }
}

/// Appends code that stores each listed byte back to memory, using
/// `addr_reg` and `value_reg` as scratch, in aligned chunks of up to 8
/// bytes; returns how many instructions were emitted.
pub fn append_memory_restore(
    output: &mut Vec<u8>,
    memory_bytes: &[MemoryByte],
    addr_reg: u8,
    value_reg: u8,
) -> (count: u64)
    ensures
        final(output)@ == old(output)@ + words_bytes(restore_words(memory_bytes@, addr_reg, value_reg)),
        count == restore_words(memory_bytes@, addr_reg, value_reg).len(),
        restore_stores_aligned(memory_bytes@),
{
    proof {
        lemma_restore_stores_aligned(memory_bytes@);
    }
    let ghost mb = memory_bytes@;
    let ghost total = restore_words(mb, addr_reg, value_reg);
    let mut append_inst_count: u64 = 0;
    let mut idx: usize = 0;
    proof {
        assert(mb.skip(0) =~= mb);
        lemma_words_bytes_len(total);
    }
    while idx < memory_bytes.len()
        invariant
            idx <= memory_bytes@.len(),
            mb == memory_bytes@,
            old(output)@ + words_bytes(total) == output@ + words_bytes(
                restore_words(mb.skip(idx as int), addr_reg, value_reg),
            ),
            append_inst_count + restore_words(mb.skip(idx as int), addr_reg, value_reg).len()
                == total.len(),
            output@.len() == old(output)@.len() + 4 * append_inst_count,
        decreases memory_bytes@.len() - idx,
    {
        let ghost rest = mb.skip(idx as int);
        let addr = memory_bytes[idx].addr;
        let (width, value) = restore_chunk(memory_bytes, idx);
        let width_bytes = width.bytes() as usize;
        proof {
            lemma_masks(0);
        }
        let ghost chunk = load_u64_words(addr_reg, addr) + load_u64_words(value_reg, value) + seq![
            s_type_word(addr_reg, value_reg, 0, width.funct3()),
        ];
        let ghost before = output@;
        let c1 = append_load_u64(output, addr_reg, addr);
        let c2 = append_load_u64(output, value_reg, value);
        push_inst(output, encode_store(addr_reg, value_reg, 0, width.store_funct3()));
        proof {
            lemma_words_bytes_append(load_u64_words(addr_reg, addr), load_u64_words(value_reg, value));
            lemma_words_bytes_append(
                load_u64_words(addr_reg, addr) + load_u64_words(value_reg, value),
                seq![s_type_word(addr_reg, value_reg, 0, width.funct3())],
            );
            reveal_with_fuel(words_bytes, 2);
            assert(seq![s_type_word(addr_reg, value_reg, 0, width.funct3())].drop_last()
                =~= Seq::<u32>::empty());
            assert(output@ =~= before + words_bytes(chunk));
            assert(mb.skip(idx as int).skip(width_bytes as int) =~= mb.skip(idx + width_bytes));
            assert(restore_words(rest, addr_reg, value_reg) == chunk + restore_words(
                mb.skip(idx + width_bytes),
                addr_reg,
                value_reg,
            ));
            lemma_words_bytes_append(chunk, restore_words(mb.skip(idx + width_bytes), addr_reg, value_reg));
            lemma_words_bytes_len(chunk);
            lemma_words_bytes_len(restore_words(mb.skip(idx + width_bytes), addr_reg, value_reg));
        }
        // The instructions counted so far were all written to `output`,
        // whose length bounds their number.
        let written = output.len();
        assert(append_inst_count + c1 + c2 + 1 <= written);
        append_inst_count = append_inst_count + c1 + c2 + 1;
        idx += width_bytes;
    }
    proof {
        assert(mb.skip(idx as int) =~= Seq::<MemoryByte>::empty());
        assert(output@ =~= old(output)@ + words_bytes(total));
    }
    append_inst_count
}

/// Width and little-endian value of the chunk that starts at `idx`.
fn restore_chunk(memory_bytes: &[MemoryByte], idx: usize) -> (r: (MemoryWidth, u64))
    requires
        idx < memory_bytes@.len(),
    ensures
        r.0 == restore_width(memory_bytes@.skip(idx as int)),
        r.1 == chunk_value(memory_bytes@.skip(idx as int), r.0.nbytes() as nat),
        idx + r.0.nbytes() <= memory_bytes@.len(),
{
    let ghost rest = memory_bytes@.skip(idx as int);
    let addr = memory_bytes[idx].addr;
    let width = if addr % 8 == 0 && contiguous_bytes_at(memory_bytes, idx, addr, 8) {
        MemoryWidth::Double
    } else if addr % 4 == 0 && contiguous_bytes_at(memory_bytes, idx, addr, 4) {
        MemoryWidth::Word
    } else if addr % 2 == 0 && contiguous_bytes_at(memory_bytes, idx, addr, 2) {
        MemoryWidth::Half
    } else {
        MemoryWidth::Byte
    };
    let width_bytes = width.bytes() as usize;
    let mut value: u64 = 0;
    let mut offset: usize = 0;
    while offset < width_bytes
        invariant
            offset <= width_bytes <= 8,
            width_bytes == width.nbytes(),
            idx + width_bytes <= memory_bytes@.len(),
            memory_bytes@.len() <= usize::MAX,
            rest == memory_bytes@.skip(idx as int),
            value == chunk_value(rest, offset as nat),
        decreases width_bytes - offset,
    {
        value = value | ((memory_bytes[idx + offset].value as u64) << ((offset * 8) as u64));
        offset += 1;
    }
    (width, value)
}

/// `contiguous_bytes` on the entries of `memory_bytes` from `idx` on.
fn contiguous_bytes_at(memory_bytes: &[MemoryByte], idx: usize, start: u64, count: usize) -> (b: bool)
    requires
        idx < memory_bytes@.len(),
    ensures
        b == contiguous_from(memory_bytes@.skip(idx as int), start, count as nat),
{
    if memory_bytes.len() - idx < count {
        return false;
    }
    let mut offset: usize = 0;
    while offset < count
        invariant
            offset <= count <= memory_bytes@.len() - idx,
            memory_bytes@.len() <= usize::MAX,
            forall|i: int|
                0 <= i < offset ==> #[trigger] memory_bytes@.skip(idx as int)[i].addr == (start
                    + i) as u64,
        decreases count - offset,
    {
        proof {
            lemma_casts(start, offset as u64);
        }
        assert(memory_bytes@.skip(idx as int)[offset as int] == memory_bytes@[idx + offset]);
        if memory_bytes[idx + offset].addr != start.wrapping_add(offset as u64) {
            return false;
        }
        offset += 1;
    }
    true
}

// ---------------------------------------------------------------------------
// What running the restore code stores.
// ---------------------------------------------------------------------------

/// `mem` after each listed byte is written to its address, in order.
pub open spec fn restored_mem(mem: Map<u64, u8>, mb: Seq<MemoryByte>) -> Map<u64, u8>
    decreases mb.len(),
{
    if mb.len() == 0 {
        mem
    } else {
        restored_mem(mem, mb.drop_last()).insert(mb.last().addr, mb.last().value)
    }
}

/// Byte `k` (little-endian) of `v`.
pub open spec fn le_byte_of(v: u64, k: int) -> u8 {
    ((v >> ((8 * k) as u64)) & 0xff) as u8
}

proof fn lemma_chunk_step(c: u64, b: u64, j: u64, k: u64)
    by (bit_vector)
    requires
        j < 8,
        k <= j,
        b < 256,
        c >> ((8 * j) as u64) == 0,
    ensures
        ((c | (b << ((8 * j) as u64))) >> ((8 * k) as u64)) & 0xff == (if k == j {
            b
        } else {
            (c >> ((8 * k) as u64)) & 0xff
        }),
        j < 7 ==> (c | (b << ((8 * j) as u64))) >> ((8 * (j + 1)) as u64) == 0,
{
}

/// The bytes of `chunk_value(mb, n)` are the values of the first `n` entries.
proof fn lemma_chunk_bytes(mb: Seq<MemoryByte>, n: nat)
    requires
        n <= 8,
        mb.len() >= n,
    ensures
        n < 8 ==> chunk_value(mb, n) >> ((8 * n) as u64) == 0,
        forall|k: int| 0 <= k < n ==> #[trigger] le_byte_of(chunk_value(mb, n), k) == mb[k].value,
    decreases n,
{
    if n == 0 {
        assert(0u64 >> 0u64 == 0) by (bit_vector);
    } else {
        let j = (n - 1) as nat;
        lemma_chunk_bytes(mb, j);
        let c = chunk_value(mb, j);
        let b = mb[j as int].value as u64;
        assert(chunk_value(mb, n) == c | (b << ((8 * (j as u64)) as u64)));
        assert forall|k: int| 0 <= k < n implies #[trigger] le_byte_of(chunk_value(mb, n), k)
            == mb[k].value by {
            lemma_chunk_step(c, b, j as u64, k as u64);
            if k == j {
                let x = mb[k].value;
                assert(((x as u64) & 0xff) as u8 == x) by (bit_vector);
            } else {
                assert(le_byte_of(c, k) == mb[k].value);
            }
        }
        lemma_chunk_step(c, b, j as u64, j as u64);
    }
}

proof fn lemma_value_bytes_index(v: u64, n: nat)
    ensures
        value_bytes(v, n).len() == n,
        forall|k: int| 0 <= k < n ==> #[trigger] value_bytes(v, n)[k] == le_byte_of(v, k),
    decreases n,
{
    if n > 0 {
        lemma_value_bytes_index(v, (n - 1) as nat);
    }
}

/// Writing `bytes` from `addr` on is writing each of `mb` in turn, when
/// entry `k` of `mb` holds `bytes[k]` at `addr + k`.
proof fn lemma_write_mem_restores(mem: Map<u64, u8>, addr: u64, bytes: Seq<u8>, mb: Seq<MemoryByte>)
    requires
        bytes.len() == mb.len(),
        forall|k: int| 0 <= k < mb.len() ==> (#[trigger] mb[k]).addr == (addr + k) as u64 && mb[k].value
            == bytes[k],
    ensures
        write_mem(mem, addr, bytes) == restored_mem(mem, mb),
    decreases mb.len(),
{
    if mb.len() > 0 {
        lemma_write_mem_restores(mem, addr, bytes.drop_last(), mb.drop_last());
        assert(mb.last() == mb[mb.len() - 1]);
    }
}

/// Writing `a` then `b` is writing `a + b`.
proof fn lemma_restored_mem_append(mem: Map<u64, u8>, a: Seq<MemoryByte>, b: Seq<MemoryByte>)
    ensures
        restored_mem(restored_mem(mem, a), b) == restored_mem(mem, a + b),
    decreases b.len(),
{
    if b.len() == 0 {
        assert(a + b =~= a);
    } else {
        lemma_restored_mem_append(mem, a, b.drop_last());
        assert((a + b).drop_last() =~= a + b.drop_last());
        assert((a + b).last() == b.last());
    }
}

/// When the listed addresses are distinct, each listed address holds its
/// byte after the writes, and every other address is as it was.
pub proof fn lemma_restored_mem_distinct(mem: Map<u64, u8>, mb: Seq<MemoryByte>)
    requires
        forall|i: int, j: int| 0 <= i < j < mb.len() ==> mb[i].addr != mb[j].addr,
    ensures
        forall|i: int|
            0 <= i < mb.len() ==> restored_mem(mem, mb).dom().contains(#[trigger] mb[i].addr)
                && restored_mem(mem, mb)[mb[i].addr] == mb[i].value,
        forall|a: u64|
            (forall|i: int| 0 <= i < mb.len() ==> mb[i].addr != a) ==> (#[trigger] restored_mem(
                mem,
                mb,
            ).dom().contains(a) == mem.dom().contains(a) && restored_mem(mem, mb)[a] == mem[a]),
    decreases mb.len(),
{
    if mb.len() > 0 {
        let init = mb.drop_last();
        lemma_restored_mem_distinct(mem, init);
        assert forall|i: int| 0 <= i < mb.len() implies restored_mem(mem, mb).dom().contains(
            #[trigger] mb[i].addr,
        ) && restored_mem(mem, mb)[mb[i].addr] == mb[i].value by {
            if i < mb.len() - 1 {
                assert(init[i] == mb[i]);
            }
        }
        assert forall|a: u64|
            (forall|i: int| 0 <= i < mb.len() ==> mb[i].addr != a) implies (#[trigger] restored_mem(
            mem,
            mb,
        ).dom().contains(a) == mem.dom().contains(a) && restored_mem(mem, mb)[a] == mem[a]) by {
            assert(mb[mb.len() - 1].addr != a);
            assert forall|i: int| 0 <= i < init.len() implies init[i].addr != a by {
                assert(init[i] == mb[i]);
            }
            assert(restored_mem(mem, init).dom().contains(a) == mem.dom().contains(a));
        }
    }
}

proof fn lemma_pc_advance_any(pc: u64, a: u64, b: u64)
    by (bit_vector)
    ensures
        (((pc + 4 * a) as u64) + 4 * b) as u64 == (pc + 4 * (a + b)) as u64,
{
}

/// The words of the first chunk of `restore_words(mb, addr_reg, value_reg)`.
pub open spec fn restore_chunk_words(mb: Seq<MemoryByte>, addr_reg: u8, value_reg: u8) -> Seq<u32> {
    let w = restore_width(mb);
    load_u64_words(addr_reg, mb[0].addr) + load_u64_words(value_reg, chunk_value(mb, w.nbytes() as nat))
        + seq![s_type_word(addr_reg, value_reg, 0, w.funct3())]
}

/// Running the first chunk's words stores its bytes and changes nothing
/// else but the two scratch registers and the pc.
#[verifier::spinoff_prover]
#[verifier::rlimit(40)]
proof fn lemma_restore_chunk_runs(s: MachineState, mb: Seq<MemoryByte>, addr_reg: u8, value_reg: u8)
    requires
        s.wf(),
        mb.len() > 0,
        1 <= addr_reg < 32,
        1 <= value_reg < 32,
        addr_reg != value_reg,
    ensures
        restore_width(mb).nbytes() <= mb.len(),
        restore_chunk_words(mb, addr_reg, value_reg).len() < 0x1_0000_0000,
        run(s, restore_chunk_words(mb, addr_reg, value_reg)) matches Some(t) && t.wf() && t.mem
            == restored_mem(s.mem, mb.take(restore_width(mb).nbytes() as int)) && t.csrs == s.csrs
            && t.pc == (s.pc + 4 * restore_chunk_words(mb, addr_reg, value_reg).len()) as u64
            && forall|r: u32|
            r < 32 && r != addr_reg && r != value_reg ==> #[trigger] t.reg(r) == s.reg(r),
{
    let w = restore_width(mb);
    let n = w.nbytes() as nat;
    let addr = mb[0].addr;
    let cv = chunk_value(mb, n);
    let la = load_u64_words(addr_reg, addr);
    let lv = load_u64_words(value_reg, cv);
    let sw = s_type_word(addr_reg, value_reg, 0, w.funct3());
    assert(n <= mb.len());
    lemma_load_words_len(addr_reg, addr, 64);
    lemma_load_words_len(value_reg, cv, 64);
    lemma_load_u64_runs(s, addr_reg, addr);
    let s1 = after_load(s, addr_reg as u32, addr, la.len());
    lemma_load_u64_runs(s1, value_reg, cv);
    let s2 = after_load(s1, value_reg as u32, cv, lv.len());
    lemma_run_append(s, la, lv);
    lemma_s_type_fields(addr_reg, value_reg, 0, w.funct3());
    assert(sext(0u64, 12u32) == 0u64) by (bit_vector);
    assert(s2.reg(addr_reg as u32) == addr);
    assert(s2.reg(value_reg as u32) == cv);
    let bytes = value_bytes(cv, n);
    let s3 = MachineState { mem: write_mem(s2.mem, addr, bytes), ..s2 }.next();
    assert(exec_word(s2, sw) == Some(s3));
    reveal_with_fuel(run, 2);
    assert(seq![sw].drop_first() =~= Seq::<u32>::empty());
    assert(run(s2, seq![sw]) == Some(s3));
    lemma_run_append(s, la + lv, seq![sw]);
    lemma_chunk_bytes(mb, n);
    lemma_value_bytes_index(cv, n);
    let head = mb.take(n as int);
    assert forall|k: int| 0 <= k < head.len() implies (#[trigger] head[k]).addr == (addr + k) as u64
        && head[k].value == bytes[k] by {
        assert(head[k] == mb[k]);
        assert(le_byte_of(cv, k) == mb[k].value);
        if n > 1 {
            assert(contiguous_from(mb, addr, n));
        } else {
            assert((addr + 0) as u64 == addr);
        }
    }
    lemma_write_mem_restores(s.mem, addr, bytes, head);
    lemma_pc_advance(s.pc, la.len() as u64, lv.len() as u64);
    lemma_pc_advance(s.pc, (la.len() + lv.len()) as u64, 1);
}

/// Running the words that `append_memory_restore` emits writes each listed
/// byte to its address in order, in naturally aligned stores of 1, 2, 4 or
/// 8 bytes, leaves the CSRs and every register but the two scratch
/// registers unchanged, and moves the pc past the emitted words.
pub proof fn lemma_memory_restore_runs(s: MachineState, mb: Seq<MemoryByte>, addr_reg: u8, value_reg: u8)
    requires
        s.wf(),
        1 <= addr_reg < 32,
        1 <= value_reg < 32,
        addr_reg != value_reg,
        restore_words(mb, addr_reg, value_reg).len() <= u64::MAX,
    ensures
        run(s, restore_words(mb, addr_reg, value_reg)) matches Some(t) && t.wf() && t.mem
            == restored_mem(s.mem, mb) && t.csrs == s.csrs && t.pc == (s.pc + 4 * restore_words(
            mb,
            addr_reg,
            value_reg,
        ).len()) as u64 && forall|r: u32|
            r < 32 && r != addr_reg && r != value_reg ==> #[trigger] t.reg(r) == s.reg(r),
        restore_stores_aligned(mb),
    decreases mb.len(),
{
    lemma_restore_stores_aligned(mb);
    let ws = restore_words(mb, addr_reg, value_reg);
    if mb.len() == 0 {
        assert(ws =~= Seq::<u32>::empty());
    } else {
        let n = restore_width(mb).nbytes() as int;
        let chunk = restore_chunk_words(mb, addr_reg, value_reg);
        let rest = restore_words(mb.skip(n), addr_reg, value_reg);
        lemma_restore_chunk_runs(s, mb, addr_reg, value_reg);
        assert(ws == chunk + rest);
        let s3 = run(s, chunk).unwrap();
        lemma_memory_restore_runs(s3, mb.skip(n), addr_reg, value_reg);
        lemma_run_append(s, chunk, rest);
        let t = run(s3, rest).unwrap();
        lemma_restored_mem_append(s.mem, mb.take(n), mb.skip(n));
        assert(mb.take(n) + mb.skip(n) =~= mb);
        lemma_pc_advance_any(s.pc, chunk.len() as u64, rest.len() as u64);
        assert forall|r: u32| r < 32 && r != addr_reg && r != value_reg implies #[trigger] t.reg(r)
            == s.reg(r) by {
            assert(s3.reg(r) == s.reg(r));
        }
    }
}


} // verus!
