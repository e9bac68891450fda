//! Opcode-based instruction classifier: call/branch classification for
//! call-graph tracking and coprocessor-resource classification, both
//! on raw instruction bytes.

use vstd::prelude::*;
use crate::bytes::{str_eq, read_u16_le, read_u32_le, u16_at, u32_at, le16, le32, lemma_le16_roundtrip, lemma_le32_roundtrip};

verus! {

/// Target architecture for opcode classification.
#[derive(Clone, Copy, PartialEq, Eq, Debug, Structural)]
pub enum Arch {
    Hexagon,
    Aarch64,
    Riscv,
    X86,
    Unknown,
}

/// The architecture named by a QEMU target name.
pub open spec fn spec_arch_from_name(name: Seq<char>) -> Arch {
    if name == "hexagon"@ {
        Arch::Hexagon
    } else if name == "aarch64"@ || name == "aarch64_be"@ {
        Arch::Aarch64
    } else if name == "riscv32"@ || name == "riscv64"@ {
        Arch::Riscv
    } else if name == "x86_64"@ || name == "i386"@ {
        Arch::X86
    } else {
        Arch::Unknown
    }
}

impl Arch {
    /// Resolve architecture from QEMU's target name string.
    pub fn from_name(name: &str) -> (a: Arch)
        ensures
            a == spec_arch_from_name(name@),
    {
        if str_eq(name, "hexagon") {
            Arch::Hexagon
        } else if str_eq(name, "aarch64") || str_eq(name, "aarch64_be") {
            Arch::Aarch64
        } else if str_eq(name, "riscv32") || str_eq(name, "riscv64") {
            Arch::Riscv
        } else if str_eq(name, "x86_64") || str_eq(name, "i386") {
            Arch::X86
        } else {
            Arch::Unknown
        }
    }
}


/// Instruction classification for call/branch tracking.
#[derive(Debug, PartialEq, Eq, Structural)]
pub enum InsnClass {
    /// Direct call or unconditional jump with a computable target.
    Direct { target: u64 },
    /// Indirect call, jump, or return via register.
    Indirect,
    /// Not relevant to call/branch tracking.
    Other,
}

// --- Arithmetic on addresses ---

/// `x` reduced modulo 2^64: the address that wrapping arithmetic yields.
pub open spec fn wrap_u64(x: int) -> u64 {
    (x % 0x1_0000_0000_0000_0000) as u64
}

/// The two's-complement value of an unsigned field `v` whose sign
/// bit has weight `half` (so the field is `2 * half` wide).
pub open spec fn signed_field(v: int, half: int) -> int {
    if v >= half {
        v - 2 * half
    } else {
        v
    }
}

pub proof fn lemma_wrap_u64(x: int)
    requires
        -0x1_0000_0000_0000_0000 < x < 0x2_0000_0000_0000_0000,
    ensures
        x < 0 ==> wrap_u64(x) == x + 0x1_0000_0000_0000_0000,
        0 <= x <= u64::MAX ==> wrap_u64(x) == x,
        x > u64::MAX ==> wrap_u64(x) == x - 0x1_0000_0000_0000_0000,
{
    if x < 0 {
        assert((x + 0x1_0000_0000_0000_0000) % 0x1_0000_0000_0000_0000 == x % 0x1_0000_0000_0000_0000)
            by (nonlinear_arith);
    } else if x > u64::MAX {
        assert((x - 0x1_0000_0000_0000_0000) % 0x1_0000_0000_0000_0000 == x % 0x1_0000_0000_0000_0000)
            by (nonlinear_arith);
    }
}

/// `base` moved by `scale` times the signed value of `field` (a field
/// of `2 * half` bits), modulo 2^64.
fn displaced(base: u64, field: u64, half: u64, scale: u64) -> (t: u64)
    requires
        0 < half <= 0x8000_0000,
        field < 2 * half,
        scale == 1 || scale == 4,
    ensures
        t == wrap_u64(base + scale * signed_field(field as int, half as int)),
{
    if field >= half {
        let mag: u64 = (2 * half - field) * scale;
        proof {
            lemma_wrap_u64(base - mag);
        }
        base.wrapping_sub(mag)
    } else {
        let d: u64 = field * scale;
        proof {
            lemma_wrap_u64(base + d);
        }
        base.wrapping_add(d)
    }
}

// --- Hexagon (32-bit fixed width, little-endian) ---
//
// Masks ignore parse bits [15:14] and end-loop bits [1:0] so that
// instructions match regardless of packet position.

/// Parse bits [15:14] == 00: a duplex word (two sub-instructions).
pub open spec fn hex_is_duplex(insn: u32) -> bool {
    (insn >> 14u32) & 3 == 0
}

/// The r22:2 immediate of J2_call / J2_jump, gathered from
/// insn[24, 23:16, 13:8, 7:1].
pub open spec fn hex_imm22(insn: u32) -> u32 {
    (((insn >> 24u32) & 1) << 21u32) | (((insn >> 16u32) & 0xFF) << 13u32) | (((insn >> 8u32)
        & 0x3F) << 7u32) | ((insn >> 1u32) & 0x7F)
}

/// The r15:2 immediate of J2_callt / J2_callf, gathered from
/// insn[23:22, 20:16, 13, 7:1].
pub open spec fn hex_imm15(insn: u32) -> u32 {
    (((insn >> 22u32) & 0x3) << 13u32) | (((insn >> 16u32) & 0x1F) << 8u32) | (((insn >> 13u32)
        & 1) << 7u32) | ((insn >> 1u32) & 0x7F)
}

/// Target of a Hexagon r22:2 branch: pc + 4 * sign_extend(imm22).
pub open spec fn spec_hex_r22_target(insn: u32, pc: u64) -> u64 {
    wrap_u64(pc + 4 * signed_field(hex_imm22(insn) as int, 0x20_0000))
}

/// Target of a Hexagon r15:2 branch: pc + 4 * sign_extend(imm15).
pub open spec fn spec_hex_r15_target(insn: u32, pc: u64) -> u64 {
    wrap_u64(pc + 4 * signed_field(hex_imm15(insn) as int, 0x4000))
}

/// Call/branch class of a Hexagon instruction word.
pub open spec fn spec_classify_hexagon(insn: u32, pc: u64) -> InsnClass {
    if hex_is_duplex(insn) {
        InsnClass::Other
    } else if insn & 0xFC00_0000 == 0x5000_0000 {
        // J-class JUMPR_MISC: register-indirect calls and jumps
        InsnClass::Indirect
    } else if insn & 0xFE00_0000 == 0x5A00_0000 || insn & 0xFE00_0000 == 0x5800_0000 {
        // J2_call / J2_jump
        InsnClass::Direct { target: spec_hex_r22_target(insn, pc) }
    } else if insn & 0xFF00_0000 == 0x5D00_0000 {
        // J2_callt / J2_callf
        InsnClass::Direct { target: spec_hex_r15_target(insn, pc) }
    } else {
        InsnClass::Other
    }
}

fn hex_r22_target(insn: u32, pc: u64) -> (t: u64)
    ensures
        t == spec_hex_r22_target(insn, pc),
{
    let bit24 = (insn >> 24u32) & 1;
    let bits23_16 = (insn >> 16u32) & 0xFF;
    let bits13_8 = (insn >> 8u32) & 0x3F;
    let bits7_1 = (insn >> 1u32) & 0x7F;
    let imm22 = (bit24 << 21u32) | (bits23_16 << 13u32) | (bits13_8 << 7u32) | bits7_1;
    assert(imm22 == hex_imm22(insn));
    assert(hex_imm22(insn) < 0x40_0000) by (bit_vector);
    displaced(pc, imm22 as u64, 0x20_0000, 4)
}

fn hex_r15_target(insn: u32, pc: u64) -> (t: u64)
    ensures
        t == spec_hex_r15_target(insn, pc),
{
    let bits23_22 = (insn >> 22u32) & 0x3;
    let bits20_16 = (insn >> 16u32) & 0x1F;
    let bit13 = (insn >> 13u32) & 1;
    let bits7_1 = (insn >> 1u32) & 0x7F;
    let imm15 = (bits23_22 << 13u32) | (bits20_16 << 8u32) | (bit13 << 7u32) | bits7_1;
    assert(imm15 == hex_imm15(insn));
    assert(hex_imm15(insn) < 0x8000) by (bit_vector);
    displaced(pc, imm15 as u64, 0x4000, 4)
}

fn classify_hexagon(insn: u32, pc: u64) -> (c: InsnClass)
    ensures
        c == spec_classify_hexagon(insn, pc),
{
    if (insn >> 14u32) & 3 == 0 {
        return InsnClass::Other;
    }
    if (insn & 0xFC00_0000) == 0x5000_0000 {
        return InsnClass::Indirect;
    }
    if (insn & 0xFE00_0000) == 0x5A00_0000 {
        return InsnClass::Direct { target: hex_r22_target(insn, pc) };
    }
    if (insn & 0xFE00_0000) == 0x5800_0000 {
        return InsnClass::Direct { target: hex_r22_target(insn, pc) };
    }
    if (insn & 0xFF00_0000) == 0x5D00_0000 {
        return InsnClass::Direct { target: hex_r15_target(insn, pc) };
    }
    InsnClass::Other
}

// --- AArch64 (32-bit fixed width, little-endian) ---

/// Target of B/BL: pc + 4 * sign_extend(imm26).
pub open spec fn spec_aarch64_imm26_target(insn: u32, pc: u64) -> u64 {
    wrap_u64(pc + 4 * signed_field((insn & 0x03FF_FFFF) as int, 0x200_0000))
}

/// Call/branch class of an AArch64 instruction word.
pub open spec fn spec_classify_aarch64(insn: u32, pc: u64) -> InsnClass {
    if insn & 0xFC00_0000 == 0x9400_0000 || insn & 0xFC00_0000 == 0x1400_0000 {
        // BL imm26 / B imm26
        InsnClass::Direct { target: spec_aarch64_imm26_target(insn, pc) }
    } else if insn & 0xFFFF_FC1F == 0xD63F_0000 || insn & 0xFFFF_FC1F == 0xD61F_0000 || insn
        & 0xFFFF_FC1F == 0xD65F_0000 {
        // BLR / BR / RET
        InsnClass::Indirect
    } else {
        InsnClass::Other
    }
}

fn aarch64_imm26_target(insn: u32, pc: u64) -> (t: u64)
    ensures
        t == spec_aarch64_imm26_target(insn, pc),
{
    let imm26 = insn & 0x03FF_FFFF;
    assert(insn & 0x03FF_FFFF < 0x400_0000) by (bit_vector);
    displaced(pc, imm26 as u64, 0x200_0000, 4)
}

fn classify_aarch64(insn: u32, pc: u64) -> (c: InsnClass)
    ensures
        c == spec_classify_aarch64(insn, pc),
{
    if (insn & 0xFC00_0000) == 0x9400_0000 {
        return InsnClass::Direct { target: aarch64_imm26_target(insn, pc) };
    }
    if (insn & 0xFC00_0000) == 0x1400_0000 {
        return InsnClass::Direct { target: aarch64_imm26_target(insn, pc) };
    }
    if (insn & 0xFFFF_FC1F) == 0xD63F_0000 {
        return InsnClass::Indirect;
    }
    if (insn & 0xFFFF_FC1F) == 0xD61F_0000 {
        return InsnClass::Indirect;
    }
    if (insn & 0xFFFF_FC1F) == 0xD65F_0000 {
        return InsnClass::Indirect;
    }
    InsnClass::Other
}

// --- RISC-V (32-bit base + 16-bit compressed) ---

/// The J-type immediate of JAL: imm[20|10:1|11|19:12] from
/// insn[31|30:21|20|19:12].
pub open spec fn riscv_jal_imm(insn: u32) -> u32 {
    (((insn >> 31u32) & 1) << 20u32) | (((insn >> 12u32) & 0xFF) << 12u32) | (((insn >> 20u32)
        & 1) << 11u32) | (((insn >> 21u32) & 0x3FF) << 1u32)
}

/// The CJ-type immediate of C.J / C.JAL: offset[11|4|9:8|10|6|7|3:1|5]
/// from insn[12:2].
pub open spec fn riscv_cj_imm(insn: u16) -> u32 {
    let w = insn as u32;
    (((w >> 12u32) & 1) << 11u32) | (((w >> 11u32) & 1) << 4u32) | (((w >> 9u32) & 3) << 8u32)
        | (((w >> 8u32) & 1) << 10u32) | (((w >> 7u32) & 1) << 6u32) | (((w >> 6u32) & 1) << 7u32)
        | (((w >> 3u32) & 7) << 1u32) | (((w >> 2u32) & 1) << 5u32)
}

/// Target of JAL: pc + sign_extend(imm21).
pub open spec fn spec_riscv_jal_target(insn: u32, pc: u64) -> u64 {
    wrap_u64(pc + signed_field(riscv_jal_imm(insn) as int, 0x10_0000))
}

/// Target of C.J / C.JAL: pc + sign_extend(imm12).
pub open spec fn spec_riscv_cj_target(insn: u16, pc: u64) -> u64 {
    wrap_u64(pc + signed_field(riscv_cj_imm(insn) as int, 0x800))
}

/// Call/branch class of a 32-bit RISC-V instruction.
pub open spec fn spec_classify_riscv32(insn: u32, pc: u64) -> InsnClass {
    if insn & 0x7F == 0x6F {
        // JAL
        InsnClass::Direct { target: spec_riscv_jal_target(insn, pc) }
    } else if insn & 0x7F == 0x67 {
        // JALR
        InsnClass::Indirect
    } else {
        InsnClass::Other
    }
}

/// Call/branch class of a 16-bit compressed RISC-V instruction.
pub open spec fn spec_classify_riscv16(insn: u16, pc: u64) -> InsnClass {
    if insn & 0xE003 == 0xA001 || insn & 0xE003 == 0x2001 {
        // C.J / C.JAL
        InsnClass::Direct { target: spec_riscv_cj_target(insn, pc) }
    } else if insn & 0xF07F == 0x8002 || insn & 0xF07F == 0x9002 {
        // C.JR / C.JALR
        InsnClass::Indirect
    } else {
        InsnClass::Other
    }
}

/// Call/branch class of RISC-V instruction bytes: 32-bit when
/// bits[1:0] == 0b11, compressed otherwise.
pub open spec fn spec_classify_riscv(bytes: Seq<u8>, pc: u64) -> InsnClass {
    if bytes.len() < 2 {
        InsnClass::Other
    } else if bytes[0] & 3 == 3 {
        if bytes.len() < 4 {
            InsnClass::Other
        } else {
            spec_classify_riscv32(u32_at(bytes, 0), pc)
        }
    } else {
        spec_classify_riscv16(u16_at(bytes, 0), pc)
    }
}

fn riscv_jal_target(insn: u32, pc: u64) -> (t: u64)
    ensures
        t == spec_riscv_jal_target(insn, pc),
{
    let imm20 = ((insn >> 31u32) & 1) << 20u32;
    let imm10_1 = ((insn >> 21u32) & 0x3FF) << 1u32;
    let imm11 = ((insn >> 20u32) & 1) << 11u32;
    let imm19_12 = ((insn >> 12u32) & 0xFF) << 12u32;
    let imm = imm20 | imm19_12 | imm11 | imm10_1;
    assert(imm == riscv_jal_imm(insn));
    assert(riscv_jal_imm(insn) < 0x20_0000) by (bit_vector);
    displaced(pc, imm as u64, 0x10_0000, 1)
}

fn riscv_cj_target(insn: u16, pc: u64) -> (t: u64)
    ensures
        t == spec_riscv_cj_target(insn, pc),
{
    let w = insn as u32;
    let offset = (((w >> 12u32) & 1) << 11u32) | (((w >> 11u32) & 1) << 4u32) | (((w >> 9u32)
        & 3) << 8u32) | (((w >> 8u32) & 1) << 10u32) | (((w >> 7u32) & 1) << 6u32) | (((w
        >> 6u32) & 1) << 7u32) | (((w >> 3u32) & 7) << 1u32) | (((w >> 2u32) & 1) << 5u32);
    assert(offset == riscv_cj_imm(insn));
    assert(riscv_cj_imm(insn) < 0x1000) by (bit_vector);
    displaced(pc, offset as u64, 0x800, 1)
}

fn classify_riscv32(insn: u32, pc: u64) -> (c: InsnClass)
    ensures
        c == spec_classify_riscv32(insn, pc),
{
    let opcode = insn & 0x7F;
    if opcode == 0x6F {
        return InsnClass::Direct { target: riscv_jal_target(insn, pc) };
    }
    if opcode == 0x67 {
        return InsnClass::Indirect;
    }
    InsnClass::Other
}

fn classify_riscv16(insn: u16, pc: u64) -> (c: InsnClass)
    ensures
        c == spec_classify_riscv16(insn, pc),
{
    if (insn & 0xE003) == 0xA001 {
        return InsnClass::Direct { target: riscv_cj_target(insn, pc) };
    }
    if (insn & 0xE003) == 0x2001 {
        return InsnClass::Direct { target: riscv_cj_target(insn, pc) };
    }
    if (insn & 0xF07F) == 0x8002 {
        return InsnClass::Indirect;
    }
    if (insn & 0xF07F) == 0x9002 {
        return InsnClass::Indirect;
    }
    InsnClass::Other
}

fn classify_riscv(bytes: &[u8], pc: u64) -> (c: InsnClass)
    ensures
        c == spec_classify_riscv(bytes@, pc),
{
    if bytes.len() < 2 {
        return InsnClass::Other;
    }
    if (bytes[0] & 0x03) == 0x03 {
        if bytes.len() < 4 {
            return InsnClass::Other;
        }
        let insn = read_u32_le(bytes, 0);
        classify_riscv32(insn, pc)
    } else {
        let insn = read_u16_le(bytes, 0);
        classify_riscv16(insn, pc)
    }
}

// --- x86 / x86-64 (variable width) ---

/// Legacy prefixes (operand/address size, segment, LOCK, REP) and REX.
pub open spec fn is_x86_prefix(b: u8) -> bool {
    b == 0x66 || b == 0x67 || b == 0x26 || b == 0x2E || b == 0x36 || b == 0x3E || b == 0x64 || b
        == 0x65 || b == 0xF0 || b == 0xF2 || b == 0xF3 || (0x40 <= b && b <= 0x4F)
}

/// Index of the first byte at or after `i` that is not a prefix.
pub open spec fn x86_opcode_index(bytes: Seq<u8>, i: int) -> int
    decreases bytes.len() - i,
{
    if 0 <= i < bytes.len() && is_x86_prefix(bytes[i]) {
        x86_opcode_index(bytes, i + 1)
    } else {
        i
    }
}

/// Call/branch class of x86 instruction bytes.
pub open spec fn spec_classify_x86(bytes: Seq<u8>, pc: u64, insn_size: usize) -> InsnClass {
    let i = x86_opcode_index(bytes, 0);
    let next_pc = pc + insn_size;
    if i >= bytes.len() {
        InsnClass::Other
    } else if (bytes[i] == 0xE8 || bytes[i] == 0xE9) && i + 5 <= bytes.len() {
        // CALL rel32 / JMP rel32
        InsnClass::Direct {
            target: wrap_u64(next_pc + signed_field(u32_at(bytes, i + 1) as int, 0x8000_0000)),
        }
    } else if bytes[i] == 0xEB && i + 2 <= bytes.len() {
        // JMP rel8
        InsnClass::Direct { target: wrap_u64(next_pc + signed_field(bytes[i + 1] as int, 0x80)) }
    } else if bytes[i] == 0xFF && i + 2 <= bytes.len() && ((bytes[i + 1] >> 3u8) & 7 == 2 || (
    bytes[i + 1] >> 3u8) & 7 == 4) {
        // FF /2 = CALL r/m, FF /4 = JMP r/m
        InsnClass::Indirect
    } else {
        InsnClass::Other
    }
}

fn x86_prefix_byte(b: u8) -> (r: bool)
    ensures
        r == is_x86_prefix(b),
{
    b == 0x66 || b == 0x67 || b == 0x26 || b == 0x2E || b == 0x36 || b == 0x3E || b == 0x64 || b
        == 0x65 || b == 0xF0 || b == 0xF2 || b == 0xF3 || (0x40 <= b && b <= 0x4F)
}

/// Skips legacy prefixes and REX, returning the opcode index.
fn x86_skip_prefixes(bytes: &[u8]) -> (i: usize)
    ensures
        i == x86_opcode_index(bytes@, 0),
        i <= bytes@.len(),
{
    let mut i: usize = 0;
    while i < bytes.len() && x86_prefix_byte(bytes[i])
        invariant
            i <= bytes@.len(),
            x86_opcode_index(bytes@, i as int) == x86_opcode_index(bytes@, 0),
        decreases bytes@.len() - i,
    {
        i = i + 1;
    }
    i
}

fn classify_x86(bytes: &[u8], pc: u64, insn_size: usize) -> (c: InsnClass)
    requires
        x86_opcode_index(bytes@, 0) < bytes@.len() ==> pc + insn_size <= u64::MAX,
    ensures
        c == spec_classify_x86(bytes@, pc, insn_size),
{
    let i = x86_skip_prefixes(bytes);
    if i >= bytes.len() {
        return InsnClass::Other;
    }
    let next_pc: u64 = pc + insn_size as u64;
    let op = bytes[i];
    if (op == 0xE8 || op == 0xE9) && bytes.len() - i >= 5 {
        let rel = read_u32_le(bytes, i + 1);
        return InsnClass::Direct { target: displaced(next_pc, rel as u64, 0x8000_0000, 1) };
    }
    if op == 0xEB && bytes.len() - i >= 2 {
        let rel = bytes[i + 1];
        return InsnClass::Direct { target: displaced(next_pc, rel as u64, 0x80, 1) };
    }
    if op == 0xFF && bytes.len() - i >= 2 {
        let reg = (bytes[i + 1] >> 3u8) & 7;
        if reg == 2 || reg == 4 {
            return InsnClass::Indirect;
        }
    }
    InsnClass::Other
}

/// Whether `classify` can be called on these arguments: for x86 the
/// address after the instruction, `pc + insn_size`, must be a `u64`
/// whenever an opcode byte follows the prefixes.
pub open spec fn classify_requires(arch: Arch, bytes: Seq<u8>, pc: u64, insn_size: usize) -> bool {
    arch == Arch::X86 && x86_opcode_index(bytes, 0) < bytes.len() ==> pc + insn_size <= u64::MAX
}

/// Whether `classify` can be called on these arguments (see
/// `classify_requires`).
pub fn classify_ok(arch: Arch, bytes: &[u8], pc: u64, insn_size: usize) -> (b: bool)
    ensures
        b == classify_requires(arch, bytes@, pc, insn_size),
{
    match arch {
        Arch::X86 => x86_skip_prefixes(bytes) >= bytes.len() || pc <= u64::MAX - insn_size as u64,
        _ => true,
    }
}

/// Call/branch class of an instruction for the given architecture.
pub open spec fn spec_classify(arch: Arch, bytes: Seq<u8>, pc: u64, insn_size: usize) -> InsnClass {
    match arch {
        Arch::Hexagon => if bytes.len() < 4 {
            InsnClass::Other
        } else {
            spec_classify_hexagon(u32_at(bytes, 0), pc)
        },
        Arch::Aarch64 => if bytes.len() < 4 {
            InsnClass::Other
        } else {
            spec_classify_aarch64(u32_at(bytes, 0), pc)
        },
        Arch::Riscv => spec_classify_riscv(bytes, pc),
        Arch::X86 => spec_classify_x86(bytes, pc, insn_size),
        Arch::Unknown => InsnClass::Other,
    }
}

/// Classify a guest instruction from raw bytes.
///
/// `bytes`: raw instruction bytes; `pc`: virtual address of the
/// instruction; `insn_size`: total instruction size.
pub fn classify(arch: Arch, bytes: &[u8], pc: u64, insn_size: usize) -> (c: InsnClass)
    requires
        classify_requires(arch, bytes@, pc, insn_size),
    ensures
        c == spec_classify(arch, bytes@, pc, insn_size),
{
    match arch {
        Arch::Hexagon => {
            if bytes.len() < 4 {
                return InsnClass::Other;
            }
            let insn = read_u32_le(bytes, 0);
            classify_hexagon(insn, pc)
        },
        Arch::Aarch64 => {
            if bytes.len() < 4 {
                return InsnClass::Other;
            }
            let insn = read_u32_le(bytes, 0);
            classify_aarch64(insn, pc)
        },
        Arch::Riscv => classify_riscv(bytes, pc),
        Arch::X86 => classify_x86(bytes, pc, insn_size),
        Arch::Unknown => InsnClass::Other,
    }
}


// --- Coprocessor resource classification ---

/// Hexagon HVX vector unit.
pub const COPROC_HVX: u32 = 0x1;
/// Hexagon HMX matrix unit.
pub const COPROC_HMX: u32 = 0x2;
/// Floating point.
pub const COPROC_FP: u32 = 0x4;
/// Atomic operations.
pub const COPROC_ATOMIC: u32 = 0x8;
/// SIMD / vector extensions.
pub const COPROC_SIMD: u32 = 0x10;

/// `flag` when `c` holds, else no flag.
pub open spec fn flag_if(c: bool, flag: u32) -> u32 {
    if c {
        flag
    } else {
        0
    }
}

fn exec_flag_if(c: bool, flag: u32) -> (r: u32)
    ensures
        r == flag_if(c, flag),
{
    if c {
        flag
    } else {
        0
    }
}

/// HVX: ICLASS_CJ or ICLASS_NCJ with bit[27] set.
pub open spec fn hex_uses_hvx(insn: u32) -> bool {
    insn & 0xF800_0000 == 0x1800_0000 || insn & 0xF800_0000 == 0x2800_0000
}

/// HMX: bits[31:21] == 10010010000 or 10100110111.
pub open spec fn hex_uses_hmx(insn: u32) -> bool {
    insn & 0xFFE0_0000 == 0x9200_0000 || insn & 0xFFE0_0000 == 0xA6E0_0000
}

/// Floating point encodings in ICLASS_M, ICLASS_S2op and ICLASS_ALU64.
pub open spec fn hex_uses_fp(insn: u32) -> bool {
    // SF basic
    ||| insn & 0xFF00_0000 == 0xEB00_0000
    // DF basic, DF mul parts
    ||| insn & 0xFF80_0060 == 0xE800_0060
    ||| insn & 0xFF80_0060 == 0xEA00_0060
    // SF FMA
    ||| insn & 0xFF80_0000 == 0xEF80_0000
    // DF<->D, SF<->DF, DF->SF/W, SF<->W, sfclass
    ||| insn & 0xFFE0_0000 == 0x80E0_0000
    ||| insn & 0xFF80_0000 == 0x8480_0000
    ||| insn & 0xFF00_00E0 == 0x8800_0020
    ||| insn & 0xFF00_0000 == 0x8B00_0000
    ||| insn & 0xFFE0_0000 == 0x85E0_0000
    // sfimm, dfimm, dfclass
    ||| insn & 0xFF00_0000 == 0xD600_0000
    ||| insn & 0xFF00_0000 == 0xD900_0000
    ||| insn & 0xFF00_0000 == 0xDC00_0000
}

/// Resource flags of a Hexagon instruction word (duplexes use none).
pub open spec fn spec_classify_resources_hexagon(insn: u32) -> u32 {
    if hex_is_duplex(insn) {
        0
    } else {
        flag_if(hex_uses_hvx(insn), COPROC_HVX) | flag_if(hex_uses_hmx(insn), COPROC_HMX) | flag_if(
            hex_uses_fp(insn),
            COPROC_FP,
        )
    }
}

fn classify_resources_hexagon(insn: u32) -> (f: u32)
    ensures
        f == spec_classify_resources_hexagon(insn),
{
    if (insn >> 14u32) & 3 == 0 {
        return 0;
    }
    let hvx = (insn & 0xF800_0000) == 0x1800_0000 || (insn & 0xF800_0000) == 0x2800_0000;
    let hmx = (insn & 0xFFE0_0000) == 0x9200_0000 || (insn & 0xFFE0_0000) == 0xA6E0_0000;
    let fp = (insn & 0xFF00_0000) == 0xEB00_0000 || (insn & 0xFF80_0060) == 0xE800_0060 || (insn
        & 0xFF80_0060) == 0xEA00_0060 || (insn & 0xFF80_0000) == 0xEF80_0000 || (insn
        & 0xFFE0_0000) == 0x80E0_0000 || (insn & 0xFF80_0000) == 0x8480_0000 || (insn
        & 0xFF00_00E0) == 0x8800_0020 || (insn & 0xFF00_0000) == 0x8B00_0000 || (insn
        & 0xFFE0_0000) == 0x85E0_0000 || (insn & 0xFF00_0000) == 0xD600_0000 || (insn
        & 0xFF00_0000) == 0xD900_0000 || (insn & 0xFF00_0000) == 0xDC00_0000;
    exec_flag_if(hvx, COPROC_HVX) | exec_flag_if(hmx, COPROC_HMX) | exec_flag_if(fp, COPROC_FP)
}

/// Advanced SIMD and scalar FP: bits[27:25] == 111.
pub open spec fn aarch64_uses_simd_fp(insn: u32) -> bool {
    insn & 0x0E00_0000 == 0x0E00_0000
}

/// SVE / SME: bits[28:25] == 0010.
pub open spec fn aarch64_uses_sve(insn: u32) -> bool {
    insn & 0x1E00_0000 == 0x0400_0000
}

/// Resource flags of an AArch64 instruction word.
pub open spec fn spec_classify_resources_aarch64(insn: u32) -> u32 {
    flag_if(aarch64_uses_simd_fp(insn), COPROC_SIMD | COPROC_FP) | flag_if(
        aarch64_uses_sve(insn),
        COPROC_SIMD,
    )
}

fn classify_resources_aarch64(insn: u32) -> (f: u32)
    ensures
        f == spec_classify_resources_aarch64(insn),
{
    let simd_fp = (insn & 0x0E00_0000) == 0x0E00_0000;
    let sve = (insn & 0x1E00_0000) == 0x0400_0000;
    exec_flag_if(simd_fp, COPROC_SIMD | COPROC_FP) | exec_flag_if(sve, COPROC_SIMD)
}

/// RISC-V major opcodes of the F/D extensions: LOAD-FP, STORE-FP,
/// OP-FP, FMADD, FMSUB, FNMSUB, FNMADD.
pub open spec fn riscv_fp_opcode(opcode: u32) -> bool {
    opcode == 0x07 || opcode == 0x27 || opcode == 0x53 || opcode == 0x43 || opcode == 0x47
        || opcode == 0x4B || opcode == 0x4F
}

/// OP-V, or a LOAD-FP / STORE-FP whose width field (bits[14:12]) is
/// at least 5 (vector loads and stores).
pub open spec fn riscv_vector_insn(insn: u32) -> bool {
    insn & 0x7F == 0x57 || ((insn & 0x7F == 0x07 || insn & 0x7F == 0x27) && (insn >> 12u32) & 0x7
        >= 5)
}

/// Resource flags of RISC-V instruction bytes (compressed
/// instructions use none).
pub open spec fn spec_classify_resources_riscv(bytes: Seq<u8>) -> u32 {
    if bytes.len() < 2 || bytes[0] & 3 != 3 || bytes.len() < 4 {
        0
    } else {
        let insn = u32_at(bytes, 0);
        flag_if(riscv_vector_insn(insn), COPROC_SIMD) | flag_if(
            riscv_fp_opcode(insn & 0x7F),
            COPROC_FP,
        )
    }
}

fn classify_resources_riscv(bytes: &[u8]) -> (f: u32)
    ensures
        f == spec_classify_resources_riscv(bytes@),
{
    if bytes.len() < 2 {
        return 0;
    }
    if (bytes[0] & 0x03) != 0x03 {
        // 16-bit compressed: no coprocessor classification
        return 0;
    }
    if bytes.len() < 4 {
        return 0;
    }
    let insn = read_u32_le(bytes, 0);
    let opcode = insn & 0x7F;
    let width = (insn >> 12u32) & 0x7;
    let vector = opcode == 0x57 || ((opcode == 0x07 || opcode == 0x27) && width >= 5);
    let fp = opcode == 0x07 || opcode == 0x27 || opcode == 0x53 || opcode == 0x43 || opcode
        == 0x47 || opcode == 0x4B || opcode == 0x4F;
    exec_flag_if(vector, COPROC_SIMD) | exec_flag_if(fp, COPROC_FP)
}

/// Resource flags of x86 instruction bytes: VEX/EVEX prefixes mean
/// SIMD, D8..DF escape opcodes mean x87 floating point.
pub open spec fn spec_classify_resources_x86(bytes: Seq<u8>) -> u32 {
    let i = x86_opcode_index(bytes, 0);
    if i >= bytes.len() {
        0
    } else if bytes[i] == 0xC5 || bytes[i] == 0xC4 || bytes[i] == 0x62 {
        COPROC_SIMD
    } else if 0xD8 <= bytes[i] && bytes[i] <= 0xDF {
        COPROC_FP
    } else {
        0
    }
}

fn classify_resources_x86(bytes: &[u8]) -> (f: u32)
    ensures
        f == spec_classify_resources_x86(bytes@),
{
    let i = x86_skip_prefixes(bytes);
    if i >= bytes.len() {
        return 0;
    }
    let op = bytes[i];
    if op == 0xC5 || op == 0xC4 || op == 0x62 {
        COPROC_SIMD
    } else if 0xD8 <= op && op <= 0xDF {
        COPROC_FP
    } else {
        0
    }
}

/// Coprocessor resource flags of an instruction for the given
/// architecture.
pub open spec fn spec_classify_resources(arch: Arch, bytes: Seq<u8>) -> u32 {
    match arch {
        Arch::Hexagon => if bytes.len() < 4 {
            0
        } else {
            spec_classify_resources_hexagon(u32_at(bytes, 0))
        },
        Arch::Aarch64 => if bytes.len() < 4 {
            0
        } else {
            spec_classify_resources_aarch64(u32_at(bytes, 0))
        },
        Arch::Riscv => spec_classify_resources_riscv(bytes),
        Arch::X86 => spec_classify_resources_x86(bytes),
        Arch::Unknown => 0,
    }
}

/// Classify a guest instruction's coprocessor resource usage from raw
/// bytes, as a bitmask of `COPROC_*` flags.
pub fn classify_resources(arch: Arch, bytes: &[u8]) -> (f: u32)
    ensures
        f == spec_classify_resources(arch, bytes@),
{
    match arch {
        Arch::Hexagon => {
            if bytes.len() < 4 {
                return 0;
            }
            let insn = read_u32_le(bytes, 0);
            classify_resources_hexagon(insn)
        },
        Arch::Aarch64 => {
            if bytes.len() < 4 {
                return 0;
            }
            let insn = read_u32_le(bytes, 0);
            classify_resources_aarch64(insn)
        },
        Arch::Riscv => classify_resources_riscv(bytes),
        Arch::X86 => classify_resources_x86(bytes),
        Arch::Unknown => 0,
    }
}


// --- Laws ---

/// Hexagon classification does not depend on the packet position:
/// replacing the parse bits [15:14] of a non-duplex word by any other
/// non-duplex value leaves both its call/branch class (targets
/// included) and its resource flags unchanged.
pub proof fn law_hexagon_parse_bits_ignored(insn: u32, pp: u32, pc: u64)
    requires
        !hex_is_duplex(insn),
        1 <= pp <= 3,
    ensures
        spec_classify_hexagon((insn & 0xFFFF_3FFF) | (pp << 14u32), pc) == spec_classify_hexagon(
            insn,
            pc,
        ),
        spec_classify_resources_hexagon((insn & 0xFFFF_3FFF) | (pp << 14u32))
            == spec_classify_resources_hexagon(insn),
{
    let other = (insn & 0xFFFF_3FFF) | (pp << 14u32);
    assert(!hex_is_duplex(other)) by (bit_vector)
        requires
            other == (insn & 0xFFFF_3FFF) | (pp << 14u32),
            1 <= pp <= 3,
    ;
    assert(hex_imm22(other) == hex_imm22(insn) && hex_imm15(other) == hex_imm15(insn))
        by (bit_vector)
        requires
            other == (insn & 0xFFFF_3FFF) | (pp << 14u32),
            pp <= 3,
    ;
    assert(forall|m: u32| #![auto] m & 0xC000 == 0 ==> other & m == insn & m) by {
        assert forall|m: u32| #![auto] m & 0xC000 == 0 implies other & m == insn & m by {
            assert(m & 0xC000 == 0 ==> ((insn & 0xFFFF_3FFF) | (pp << 14u32)) & m == insn & m)
                by (bit_vector)
                requires
                    pp <= 3,
            ;
        }
    }
    assert(0xFC00_0000u32 & 0xC000 == 0) by (bit_vector);
    assert(0xFE00_0000u32 & 0xC000 == 0) by (bit_vector);
    assert(0xFF00_0000u32 & 0xC000 == 0) by (bit_vector);
    assert(0xF800_0000u32 & 0xC000 == 0) by (bit_vector);
    assert(0xFFE0_0000u32 & 0xC000 == 0) by (bit_vector);
    assert(0xFF80_0060u32 & 0xC000 == 0) by (bit_vector);
    assert(0xFF80_0000u32 & 0xC000 == 0) by (bit_vector);
    assert(0xFF00_00E0u32 & 0xC000 == 0) by (bit_vector);
}

proof fn lemma_x86_opcode_index_shift(b: u8, bytes: Seq<u8>, i: int)
    requires
        0 <= i,
    ensures
        x86_opcode_index(seq![b] + bytes, i + 1) == 1 + x86_opcode_index(bytes, i),
    decreases bytes.len() - i,
{
    let s = seq![b] + bytes;
    if 0 <= i < bytes.len() && is_x86_prefix(bytes[i]) {
        assert(s[i + 1] == bytes[i]);
        lemma_x86_opcode_index_shift(b, bytes, i + 1);
    }
}

proof fn lemma_x86_opcode_index_bounds(bytes: Seq<u8>, i: int)
    requires
        0 <= i,
    ensures
        i <= x86_opcode_index(bytes, i),
    decreases bytes.len() - i,
{
    if 0 <= i < bytes.len() && is_x86_prefix(bytes[i]) {
        lemma_x86_opcode_index_bounds(bytes, i + 1);
    }
}

/// An x86 legacy or REX prefix in front of an instruction changes
/// neither its call/branch class (the target is computed from the
/// instruction's end) nor its resource flags.
pub proof fn law_x86_prefix_transparent(b: u8, bytes: Seq<u8>, pc: u64, insn_size: usize)
    requires
        is_x86_prefix(b),
    ensures
        spec_classify_x86(seq![b] + bytes, pc, insn_size) == spec_classify_x86(
            bytes,
            pc,
            insn_size,
        ),
        spec_classify_resources_x86(seq![b] + bytes) == spec_classify_resources_x86(bytes),
{
    let s = seq![b] + bytes;
    lemma_x86_opcode_index_shift(b, bytes, 0);
    lemma_x86_opcode_index_bounds(bytes, 0);
    assert(s[0] == b);
    assert(x86_opcode_index(s, 0) == x86_opcode_index(s, 1));
    let i = x86_opcode_index(bytes, 0);
    if i < bytes.len() {
        assert(s[i + 1] == bytes[i]);
        if i + 2 <= bytes.len() {
            assert(s[i + 2] == bytes[i + 1]);
        }
        if i + 5 <= bytes.len() {
            assert(s[i + 3] == bytes[i + 2]);
            assert(s[i + 4] == bytes[i + 3]);
            assert(s[i + 5] == bytes[i + 4]);
        }
    }
}

/// The C.J (or, with `link`, C.JAL) instruction word that jumps by the
/// 12-bit two's-complement offset `o` (even): offset bits
/// [11|4|9:8|10|6|7|3:1|5] in instruction bits [12:2].
pub open spec fn riscv_cj_word(o: u16, link: bool) -> u16 {
    (if link {
        0x2001u16
    } else {
        0xA001u16
    }) | (((o >> 11u16) & 1) << 12u16) | (((o >> 4u16) & 1) << 11u16) | (((o >> 8u16) & 3)
        << 9u16) | (((o >> 10u16) & 1) << 8u16) | (((o >> 6u16) & 1) << 7u16) | (((o >> 7u16)
        & 1) << 6u16) | (((o >> 1u16) & 7) << 3u16) | (((o >> 5u16) & 1) << 2u16)
}

/// A compressed jump (C.J or C.JAL) with offset field `o` is a direct
/// jump to `pc` plus `o` read as a 12-bit two's-complement number: an
/// offset with bit 11 set lands below `pc`.
pub proof fn law_riscv_compressed_jump_target(o: u16, link: bool, pc: u64)
    requires
        o < 0x1000,
        o & 1 == 0,
    ensures
        spec_classify(Arch::Riscv, le16(riscv_cj_word(o, link) as u64), pc, 2) == (InsnClass::Direct {
            target: wrap_u64(pc + o - (if o & 0x800 != 0 { 0x1000int } else { 0 })),
        }),
{
    let w = riscv_cj_word(o, link);
    assert(riscv_cj_imm(w) == o as u32) by (bit_vector)
        requires
            w == riscv_cj_word(o, link),
            o < 0x1000,
            o & 1 == 0,
    ;
    assert(link ==> w & 0xE003 == 0x2001) by (bit_vector)
        requires
            w == riscv_cj_word(o, link),
    ;
    assert(!link ==> w & 0xE003 == 0xA001) by (bit_vector)
        requires
            w == riscv_cj_word(o, link),
    ;
    assert((w as u64) as u8 & 3 == 1) by (bit_vector)
        requires
            w == riscv_cj_word(o, link),
    ;
    assert(o >= 0x800 <==> o & 0x800 != 0) by (bit_vector)
        requires
            o < 0x1000,
    ;
    let b = le16(w as u64);
    lemma_le16_roundtrip(w as u64, Seq::empty(), Seq::empty());
    assert(Seq::<u8>::empty() + b + Seq::<u8>::empty() =~= b);
    assert(u16_at(b, 0) == w);
}

/// The JAL instruction word with destination register `rd` that jumps
/// by the 21-bit two's-complement offset `o` (even): offset bits
/// [20|10:1|11|19:12] in instruction bits [31:12].
pub open spec fn riscv_jal_word(o: u32, rd: u32) -> u32 {
    0x6Fu32 | (rd << 7u32) | (((o >> 20u32) & 1) << 31u32) | (((o >> 1u32) & 0x3FF) << 21u32)
        | (((o >> 11u32) & 1) << 20u32) | (((o >> 12u32) & 0xFF) << 12u32)
}

/// A JAL with offset field `o` is a direct jump to `pc` plus `o` read as
/// a 21-bit two's-complement number, whatever its destination register.
pub proof fn law_riscv_jal_target(o: u32, rd: u32, pc: u64)
    requires
        o < 0x20_0000,
        o & 1 == 0,
        rd < 32,
    ensures
        spec_classify(Arch::Riscv, le32(riscv_jal_word(o, rd) as u64), pc, 4) == (InsnClass::Direct {
            target: wrap_u64(pc + o - (if o & 0x10_0000 != 0 { 0x20_0000int } else { 0 })),
        }),
{
    let w = riscv_jal_word(o, rd);
    assert(riscv_jal_imm(w) == o) by (bit_vector)
        requires
            w == riscv_jal_word(o, rd),
            o < 0x20_0000,
            o & 1 == 0,
            rd < 32,
    ;
    assert(w & 0x7F == 0x6F) by (bit_vector)
        requires
            w == riscv_jal_word(o, rd),
            rd < 32,
    ;
    assert((w as u64) as u8 & 3 == 3) by (bit_vector)
        requires
            w == riscv_jal_word(o, rd),
            rd < 32,
    ;
    assert(o >= 0x10_0000 <==> o & 0x10_0000 != 0) by (bit_vector)
        requires
            o < 0x20_0000,
    ;
    let b = le32(w as u64);
    lemma_le32_roundtrip(w as u64, Seq::empty(), Seq::empty());
    assert(Seq::<u8>::empty() + b + Seq::<u8>::empty() =~= b);
    assert(u32_at(b, 0) == w);
}

/// The coprocessor flags of a 32-bit RISC-V word: floating point exactly
/// for the F/D major opcodes (LOAD-FP 0x07, STORE-FP 0x27, FMADD 0x43,
/// FMSUB 0x47, FNMSUB 0x4B, FNMADD 0x4F, OP-FP 0x53); vector exactly for
/// OP-V (0x57) and the LOAD-FP / STORE-FP forms with width field 5 or
/// more; no other flag.
pub proof fn law_riscv_resource_flags(w: u32)
    requires
        w & 3 == 3,
    ensures
        ({
            let f = spec_classify_resources(Arch::Riscv, le32(w as u64));
            let op = w & 0x7F;
            let width = (w >> 12u32) & 7;
            &&& (f & 0x4 != 0) <==> (op == 0x07 || op == 0x27 || op == 0x43 || op == 0x47 || op
                == 0x4B || op == 0x4F || op == 0x53)
            &&& (f & 0x10 != 0) <==> (op == 0x57 || ((op == 0x07 || op == 0x27) && width >= 5))
            &&& f & !0x14u32 == 0
        }),
{
    let b = le32(w as u64);
    lemma_le32_roundtrip(w as u64, Seq::empty(), Seq::empty());
    assert(Seq::<u8>::empty() + b + Seq::<u8>::empty() =~= b);
    assert(u32_at(b, 0) == w);
    assert((w as u64) as u8 & 3 == 3) by (bit_vector)
        requires
            w & 3 == 3,
    ;
    let v = riscv_vector_insn(w);
    let fp = riscv_fp_opcode(w & 0x7F);
    let f = spec_classify_resources(Arch::Riscv, b);
    assert(f == flag_if(v, COPROC_SIMD) | flag_if(fp, COPROC_FP));
    assert((0x10u32 | 0x4u32) & 0x4 != 0 && (0x10u32 | 0x4u32) & 0x10 != 0 && (0x10u32 | 0x4u32)
        & !0x14u32 == 0) by (bit_vector);
    assert((0x10u32 | 0u32) & 0x4 == 0 && (0x10u32 | 0u32) & 0x10 != 0 && (0x10u32 | 0u32)
        & !0x14u32 == 0) by (bit_vector);
    assert((0u32 | 0x4u32) & 0x4 != 0 && (0u32 | 0x4u32) & 0x10 == 0 && (0u32 | 0x4u32)
        & !0x14u32 == 0) by (bit_vector);
    assert((0u32 | 0u32) & 0x4 == 0 && (0u32 | 0u32) & 0x10 == 0 && (0u32 | 0u32) & !0x14u32 == 0)
        by (bit_vector);
}

/// Compressed (16-bit) RISC-V instructions use no coprocessor.
pub proof fn law_riscv_compressed_no_resources(bytes: Seq<u8>)
    requires
        bytes.len() >= 2,
        bytes[0] & 3 != 3,
    ensures
        spec_classify_resources(Arch::Riscv, bytes) == 0,
{
}

} // verus!
