use cpusbfl::inst::inst_fits;
use cpusbfl::inst::{
    append_load_u64, append_memory_restore, append_write_csr, decode_memory_read_at,
    decode_memory_write_at, encode_addi, encode_jmp, encode_store, inst_len_at, riscv_inst_len,
    sign_extend, MemoryByte, MemoryReadDecode, MemoryWidth, MemoryWriteDecode, CSR_MSTATUS, NOP,
};

fn words(bytes: &[u8]) -> Vec<u32> {
    bytes
        .chunks(4)
        .map(|c| u32::from_le_bytes([c[0], c[1], c[2], c[3]]))
        .collect()
}

#[test]
fn inst_len_from_low_bits() {
    assert_eq!(riscv_inst_len(0x0013), 4);
    assert_eq!(riscv_inst_len(0x0001), 2);
    assert_eq!(inst_len_at(&[0x01, 0x00, 0x13, 0x00, 0x00, 0x00], 2), 4);
    assert_eq!(inst_len_at(&[0x01, 0x00, 0x13, 0x00, 0x00, 0x00], 0), 2);
}

#[test]
fn addi_encoding() {
    assert_eq!(encode_addi(1, 0, 5), 0x0050_0093);
    assert_eq!(encode_addi(0, 0, 0), u32::from_le_bytes(NOP));
}

#[test]
fn load_32_bit_value_is_lui_addiw() {
    let mut out = Vec::new();
    let n = append_load_u64(&mut out, 1, 0x1234_5678);
    assert_eq!(n, 2);
    assert_eq!(words(&out), vec![0x1234_50b7, 0x6780_809b]);
}

#[test]
fn load_small_value_is_single_addi() {
    let mut out = Vec::new();
    let n = append_load_u64(&mut out, 1, 5);
    assert_eq!(n, 1);
    assert_eq!(words(&out), vec![0x0050_0093]);
}

#[test]
fn load_wide_values_fit_in_eight_instructions() {
    for value in [i64::MAX as u64, u64::MAX, 0x8000_0000, 0xdead_beef_cafe_babe] {
        let mut out = Vec::new();
        let n = append_load_u64(&mut out, 5, value);
        assert!(n >= 1 && n <= 8, "{value:#x} took {n}");
        assert_eq!(out.len() as u64, 4 * n);
    }
}

#[test]
fn write_csr_ends_with_csrrw() {
    let mut out = Vec::new();
    let n = append_write_csr(&mut out, CSR_MSTATUS, 5, 1);
    assert_eq!(n, 2);
    assert_eq!(words(&out), vec![0x0050_0093, 0x3000_9073]);
}

#[test]
fn short_jump_is_one_jal() {
    let jmp = encode_jmp(0x1000, 0x1008, false, None).unwrap();
    assert_eq!(words(&jmp), vec![0x0080_006f]);
    assert!(encode_jmp(0x1000, 0x1000_0000, false, None).is_none());
    let long = encode_jmp(0x1000, 0x1000_0000, true, Some(5)).unwrap();
    assert_eq!(long.len(), 8);
}

#[test]
fn sign_extension_of_low_bits() {
    assert_eq!(sign_extend(0x800, 12), 0xffff_ffff_ffff_f800);
    assert_eq!(sign_extend(0x7ff, 12), 0x7ff);
}

#[test]
fn store_decodes_back() {
    let word = encode_store(2, 3, 8, MemoryWidth::Word.store_funct3());
    let bytes = word.to_le_bytes();
    let mut regs = [0u64; 32];
    regs[2] = 0x1000;
    regs[3] = 0x1122_3344_5566_7788;
    match decode_memory_write_at(&bytes, 0, &regs) {
        MemoryWriteDecode::Write(w) => {
            assert_eq!(w.access.addr, 0x1008);
            assert_eq!(w.access.width, MemoryWidth::Word);
            assert_eq!(w.value, 0x5566_7788);
        }
        other => panic!("unexpected {other:?}"),
    }
    assert_eq!(decode_memory_read_at(&bytes, 0, &regs), MemoryReadDecode::NotLoad);
}

#[test]
fn memory_restore_uses_widest_aligned_store() {
    let bytes: Vec<MemoryByte> = (0..4)
        .map(|k| MemoryByte { addr: 0x2000 + k, value: k as u8 + 1 })
        .collect();
    let mut out = Vec::new();
    let n = append_memory_restore(&mut out, &bytes, 10, 11);
    assert_eq!(out.len() as u64, 4 * n);
    let last = *words(&out).last().unwrap();
    assert_eq!(last & 0x7f, 0x23);
    assert_eq!((last >> 12) & 7, 2);
}

#[test]
fn instruction_fits_in_input() {
    // A compressed instruction, then the first half of a 4-byte one.
    let bytes = [0x01, 0x00, 0x13, 0x00];
    assert!(inst_fits(&bytes, 0));
    assert!(!inst_fits(&bytes, 2));
    assert!(!inst_fits(&bytes, 3));
    assert!(!inst_fits(&bytes, 9));
}

/// Runs straight-line LUI/ADDI/ADDIW/SLLI/store code on a register file and
/// a byte memory given as (address, value) writes in order.
fn run_restore_code(code: &[u8]) -> (Vec<(u64, u8)>, [u64; 32]) {
    let mut regs = [0u64; 32];
    let mut writes = Vec::new();
    for w in words(code) {
        let rd = ((w >> 7) & 0x1f) as usize;
        let rs1 = ((w >> 15) & 0x1f) as usize;
        let rs2 = ((w >> 20) & 0x1f) as usize;
        let f3 = (w >> 12) & 7;
        let i_imm = ((w as i32) >> 20) as i64 as u64;
        match w & 0x7f {
            0x37 => regs[rd] = (w & 0xffff_f000) as i32 as i64 as u64,
            0x13 if f3 == 0 => regs[rd] = regs[rs1].wrapping_add(i_imm),
            0x13 if f3 == 1 => regs[rd] = regs[rs1] << ((w >> 20) & 0x3f),
            0x1b if f3 == 0 => regs[rd] = (regs[rs1].wrapping_add(i_imm) as u32) as i32 as i64 as u64,
            0x23 => {
                let imm = ((((w >> 25) << 5) | ((w >> 7) & 0x1f)) as i32) << 20 >> 20;
                let addr = regs[rs1].wrapping_add(imm as i64 as u64);
                assert_eq!(addr % (1 << f3), 0, "unaligned store");
                for k in 0..(1u64 << f3) {
                    writes.push((addr + k, (regs[rs2] >> (8 * k)) as u8));
                }
            }
            op => panic!("unexpected opcode {op:#x}"),
        }
        regs[0] = 0;
    }
    (writes, regs)
}

#[test]
fn memory_restore_code_stores_each_byte() {
    let mut bytes = Vec::new();
    for (i, v) in [0x11u8, 0x22, 0x33, 0x44, 0x55, 0x66, 0x77, 0x88].iter().enumerate() {
        bytes.push(MemoryByte { addr: 0x8000_1000 + i as u64, value: *v });
    }
    bytes.push(MemoryByte { addr: 0x8000_2002, value: 0xaa });
    bytes.push(MemoryByte { addr: 0x8000_2003, value: 0xbb });
    bytes.push(MemoryByte { addr: 0xffff_ffff_ffff_fff1, value: 0xcc });
    let mut out = vec![0xde, 0xad, 0xbe, 0xef];
    let n = append_memory_restore(&mut out, &bytes, 5, 6);
    assert_eq!(&out[..4], &[0xde, 0xad, 0xbe, 0xef]);
    assert_eq!(out.len() as u64, 4 + 4 * n);
    let (writes, regs) = run_restore_code(&out[4..]);
    let expected: Vec<(u64, u8)> = bytes.iter().map(|b| (b.addr, b.value)).collect();
    assert_eq!(writes, expected);
    for (r, v) in regs.iter().enumerate() {
        if r != 5 && r != 6 {
            assert_eq!(*v, 0);
        }
    }
}
