use vstd::prelude::*;
use crate::le::{u32_le, le_u32, lemma_le_u32_of_u32_le, lemma_u32_le_of_le_u32};
use crate::op::{Op, op_code};

verus! {

/// Fixed-width instruction: opcode, three register operands, a 32-bit
/// immediate. Encoded as 8 little-endian bytes.
#[derive(Debug, Clone, Copy, PartialEq, Eq, Structural, Default)]
pub struct Instr {
    pub op: u8,
    pub a: u8,
    pub b: u8,
    pub c: u8,
    pub imm: i32,
}

/// The eight-byte encoding of an instruction: `op a b c imm(LE)`.
pub open spec fn instr_bytes(i: Instr) -> Seq<u8> {
    seq![i.op, i.a, i.b, i.c] + u32_le(i.imm as u32)
}

/// The instruction whose encoding is the first eight bytes of `s`.
pub open spec fn instr_of_bytes(s: Seq<u8>) -> Instr {
    Instr { op: s[0], a: s[1], b: s[2], c: s[3], imm: le_u32(s.subrange(4, 8)) as i32 }
}

/// Decoding an encoded instruction gives it back.
pub proof fn lemma_instr_decode_encode(i: Instr)
    ensures
        instr_bytes(i).len() == 8,
        instr_of_bytes(instr_bytes(i)) == i,
{
    lemma_le_u32_of_u32_le(i.imm as u32);
    assert(instr_bytes(i).subrange(4, 8) =~= u32_le(i.imm as u32));
    let x = i.imm;
    assert((x as u32) as i32 == x) by (bit_vector);
}

/// Encoding a decoded instruction gives the eight bytes back.
pub proof fn lemma_instr_encode_decode(s: Seq<u8>)
    requires
        s.len() == 8,
    ensures
        instr_bytes(instr_of_bytes(s)) == s,
{
    let w = le_u32(s.subrange(4, 8));
    lemma_u32_le_of_le_u32(s.subrange(4, 8));
    assert((w as i32) as u32 == w) by (bit_vector);
    assert(instr_bytes(instr_of_bytes(s)) =~= s);
}

impl Instr {
    /// Builds an instruction from an operation and its operand fields.
    pub fn new(op: Op, a: u8, b: u8, c: u8, imm: i32) -> (r: Instr)
        ensures
            r == (Instr { op: op_code(op), a, b, c, imm }),
    {
        Instr { op: op.code(), a, b, c, imm }
    }

    /// The eight-byte wire encoding.
    pub fn to_bytes(self) -> (r: [u8; 8])
        ensures
            r@ == instr_bytes(self),
    {
        let x = self.imm as u32;
        let r = [
            self.op,
            self.a,
            self.b,
            self.c,
            (x & 0xff) as u8,
            ((x >> 8u32) & 0xff) as u8,
            ((x >> 16u32) & 0xff) as u8,
            ((x >> 24u32) & 0xff) as u8,
        ];
        assert(r@ =~= instr_bytes(self));
        r
    }

    /// Decodes an eight-byte encoding.
    pub fn from_bytes(b: [u8; 8]) -> (r: Instr)
        ensures
            r == instr_of_bytes(b@),
    {
        let w = (b[4] as u32) | ((b[5] as u32) << 8u32) | ((b[6] as u32) << 16u32) | ((b[7] as u32)
            << 24u32);
        assert(b@.subrange(4, 8) =~= seq![b[4], b[5], b[6], b[7]]);
        Instr { op: b[0], a: b[1], b: b[2], c: b[3], imm: w as i32 }
    }
}

} // verus!
