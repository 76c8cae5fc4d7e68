//! A small executable model of the RV64 instructions that the reducer emits.
//!
//! The model fixes what it means for a sequence of emitted instruction words
//! to "load a value", "write a CSR", "store bytes" or "jump to a pc". It covers
//! LUI, AUIPC, ADDI, SLLI, ADDIW, JAL, JALR, the four integer stores and CSRRW
//! with `rd = x0`; any other word makes the run undefined (`None`).
use vstd::prelude::*;

verus! {

/// Register, CSR, memory and pc state of a hart, as far as the model needs it.
pub struct MachineState {
    pub regs: Seq<u64>,
    pub csrs: Map<u16, u64>,
    pub mem: Map<u64, u8>,
    pub pc: u64,
}

pub open spec fn opcode_of(w: u32) -> u32 {
    w & 0x7f
}

pub open spec fn rd_of(w: u32) -> u32 {
    (w >> 7) & 0x1f
}

pub open spec fn funct3_of(w: u32) -> u32 {
    (w >> 12) & 0x7
}

pub open spec fn rs1_of(w: u32) -> u32 {
    (w >> 15) & 0x1f
}

pub open spec fn rs2_of(w: u32) -> u32 {
    (w >> 20) & 0x1f
}

pub open spec fn funct5_of(w: u32) -> u32 {
    (w >> 27) & 0x1f
}

/// Two's-complement sign extension of the low `bits` bits of `value`.
pub open spec fn sext(value: u64, bits: u32) -> u64 {
    if bits >= 64 {
        value
    } else {
        (((value << ((64 - bits) as u64)) as i64) >> ((64 - bits) as u64)) as u64
    }
}

/// `value` is representable as a signed `bits`-bit integer.
pub open spec fn fits_signed(value: u64, bits: u32) -> bool {
    sext(value, bits) == value
}

/// The I-type immediate, sign-extended to 64 bits.
pub open spec fn i_imm(w: u32) -> u64 {
    sext((w >> 20) as u64, 12)
}

/// The S-type immediate, sign-extended to 64 bits.
pub open spec fn s_imm(w: u32) -> u64 {
    sext((((w >> 25) << 5) | ((w >> 7) & 0x1f)) as u64, 12)
}

/// The U-type immediate (`imm[31:12] << 12`), sign-extended to 64 bits.
pub open spec fn u_imm(w: u32) -> u64 {
    ((w & 0xffff_f000) as i32) as i64 as u64
}

/// The J-type immediate, sign-extended to 64 bits.
pub open spec fn j_imm(w: u32) -> u64 {
    sext(
        ((((w >> 31) & 1) << 20) | (((w >> 21) & 0x3ff) << 1) | (((w >> 20) & 1) << 11) | (((w
            >> 12) & 0xff) << 12)) as u64,
        21,
    )
}

pub open spec fn csr_of(w: u32) -> u16 {
    (w >> 20) as u16
}

/// Little-endian bytes of one instruction word.
pub open spec fn le_bytes(w: u32) -> Seq<u8> {
    seq![(w & 0xff) as u8, ((w >> 8) & 0xff) as u8, ((w >> 16) & 0xff) as u8, ((w >> 24) & 0xff) as u8]
}

/// Little-endian bytes of a sequence of instruction words.
pub open spec fn words_bytes(ws: Seq<u32>) -> Seq<u8>
    decreases ws.len(),
{
    if ws.len() == 0 {
        Seq::empty()
    } else {
        words_bytes(ws.drop_last()) + le_bytes(ws.last())
    }
}

/// The low `n` bytes of `value`, little-endian.
pub open spec fn value_bytes(value: u64, n: nat) -> Seq<u8>
    decreases n,
{
    if n == 0 {
        Seq::empty()
    } else {
        value_bytes(value, (n - 1) as nat).push(((value >> (8 * (n - 1)) as u64) & 0xff) as u8)
    }
}

/// Writes `bytes` to consecutive addresses starting at `addr` (wrapping).
pub open spec fn write_mem(mem: Map<u64, u8>, addr: u64, bytes: Seq<u8>) -> Map<u64, u8>
    decreases bytes.len(),
{
    if bytes.len() == 0 {
        mem
    } else {
        write_mem(mem, addr, bytes.drop_last()).insert(
            (addr + (bytes.len() - 1)) as u64,
            bytes.last(),
        )
    }
}

impl MachineState {
    pub open spec fn reg(self, r: u32) -> u64 {
        if r == 0 {
            0
        } else {
            self.regs[r as int]
        }
    }

    pub open spec fn with_reg(self, r: u32, v: u64) -> MachineState {
        if r == 0 {
            self
        } else {
            MachineState { regs: self.regs.update(r as int, v), ..self }
        }
    }

    pub open spec fn with_pc(self, pc: u64) -> MachineState {
        MachineState { pc, ..self }
    }

    pub open spec fn next(self) -> MachineState {
        self.with_pc((self.pc + 4) as u64)
    }

    /// A hart state with 32 integer registers.
    pub open spec fn wf(self) -> bool {
        self.regs.len() == 32
    }
}

/// Executes one instruction word; `None` for words outside the model.
pub open spec fn exec_word(s: MachineState, w: u32) -> Option<MachineState> {
    let op = opcode_of(w);
    let rd = rd_of(w);
    let f3 = funct3_of(w);
    let rs1 = rs1_of(w);
    if op == 0x37 {
        Some(s.with_reg(rd, u_imm(w)).next())
    } else if op == 0x17 {
        Some(s.with_reg(rd, (s.pc + u_imm(w)) as u64).next())
    } else if op == 0x13 && f3 == 0 {
        Some(s.with_reg(rd, (s.reg(rs1) + i_imm(w)) as u64).next())
    } else if op == 0x13 && f3 == 1 && (w >> 26) == 0 {
        Some(s.with_reg(rd, s.reg(rs1) << (((w >> 20) & 0x3f) as u64)).next())
    } else if op == 0x1b && f3 == 0 {
        Some(s.with_reg(rd, (((s.reg(rs1) + i_imm(w)) as u32) as i32) as i64 as u64).next())
    } else if op == 0x6f {
        Some(s.with_reg(rd, (s.pc + 4) as u64).with_pc((s.pc + j_imm(w)) as u64))
    } else if op == 0x67 && f3 == 0 {
        let target = ((s.reg(rs1) + i_imm(w)) as u64) & !1u64;
        Some(s.with_reg(rd, (s.pc + 4) as u64).with_pc(target))
    } else if op == 0x23 && f3 <= 3 {
        let addr = (s.reg(rs1) + s_imm(w)) as u64;
        let n: nat = if f3 == 0 {
            1
        } else if f3 == 1 {
            2
        } else if f3 == 2 {
            4
        } else {
            8
        };
        Some(
            MachineState {
                mem: write_mem(s.mem, addr, value_bytes(s.reg(rs2_of(w)), n)),
                ..s
            }.next(),
        )
    } else if op == 0x73 && f3 == 1 && rd == 0 {
        Some(MachineState { csrs: s.csrs.insert(csr_of(w), s.reg(rs1)), ..s }.next())
    } else {
        None
    }
}

/// Executes a straight-line sequence of words.
pub open spec fn run(s: MachineState, ws: Seq<u32>) -> Option<MachineState>
    decreases ws.len(),
{
    if ws.len() == 0 {
        Some(s)
    } else {
        match exec_word(s, ws[0]) {
            Some(s2) => run(s2, ws.drop_first()),
            None => None,
        }
    }
}

/// Running `a + b` runs `a`, then `b` from where `a` stopped.
pub proof fn lemma_run_append(s: MachineState, a: Seq<u32>, b: Seq<u32>)
    ensures
        run(s, a + b) == match run(s, a) {
            Some(s2) => run(s2, b),
            None => None,
        },
    decreases a.len(),
{
    if a.len() == 0 {
        assert(a + b =~= b);
    } else {
        assert((a + b).drop_first() =~= a.drop_first() + b);
        assert((a + b)[0] == a[0]);
        match exec_word(s, a[0]) {
            Some(s2) => lemma_run_append(s2, a.drop_first(), b),
            None => {},
        }
    }
}

/// The bytes of two word sequences in a row are the bytes of each in turn.
pub proof fn lemma_words_bytes_append(a: Seq<u32>, b: Seq<u32>)
    ensures
        words_bytes(a + b) == words_bytes(a) + words_bytes(b),
    decreases b.len(),
{
    if b.len() == 0 {
        assert(a + b =~= a);
        assert(words_bytes(a) + words_bytes(b) =~= words_bytes(a));
    } else {
        lemma_words_bytes_append(a, b.drop_last());
        assert((a + b).drop_last() =~= a + b.drop_last());
        assert((a + b).last() == b.last());
        assert(words_bytes(a + b) =~= words_bytes(a) + words_bytes(b));
    }
}

/// Every word takes four bytes.
pub proof fn lemma_words_bytes_len(ws: Seq<u32>)
    ensures
        words_bytes(ws).len() == 4 * ws.len(),
    decreases ws.len(),
{
    if ws.len() > 0 {
        lemma_words_bytes_len(ws.drop_last());
    }
}

} // verus!
