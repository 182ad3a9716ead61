//! Strings as operands: UTF-8 bytes, four to a word, least significant first, with a
//! nul byte at the end.
use crate::spv::grammar::OperandKind;
use crate::spv::{Imm, Operand};
use vstd::utf8::encode_utf8;
use vstd::prelude::*;

verus! {

/// The `i`-th byte, where the bytes are followed by any number of nuls.
pub open spec fn byte_or_nul(bytes: Seq<u8>, i: int) -> int {
    if 0 <= i < bytes.len() {
        bytes[i] as int
    } else {
        0
    }
}

/// How many words the literal with the given bytes takes.
pub open spec fn literal_word_count(bytes: Seq<u8>) -> nat {
    bytes.len() / 4 + 1
}

/// The `i`-th word of the literal with the given bytes.
pub open spec fn literal_word(bytes: Seq<u8>, i: int) -> u32 {
    (byte_or_nul(bytes, 4 * i) + 0x100 * byte_or_nul(bytes, 4 * i + 1) + 0x1_0000 * byte_or_nul(
        bytes,
        4 * i + 2,
    ) + 0x100_0000 * byte_or_nul(bytes, 4 * i + 3)) as u32
}

/// The `i`-th operand of the literal with the given bytes.
pub open spec fn literal_operand(bytes: Seq<u8>, i: int) -> Operand {
    let kind = OperandKind::LiteralString;
    let word = literal_word(bytes, i);
    Operand::Imm(
        if literal_word_count(bytes) == 1 {
            Imm::Short(kind, word)
        } else if i == 0 {
            Imm::LongStart(kind, word)
        } else {
            Imm::LongCont(kind, word)
        },
    )
}

/// The operands that make up the literal with the given bytes.
pub open spec fn literal_string(bytes: Seq<u8>) -> Seq<Operand> {
    Seq::new(literal_word_count(bytes), |i: int| literal_operand(bytes, i))
}

/// The byte at distance `k` from `start`, or nul past the end.
fn byte_at(bytes: &[u8], start: usize, k: usize) -> (b: u32)
    requires
        start <= bytes@.len(),
    ensures
        b == byte_or_nul(bytes@, start + k),
        b < 0x100,
{
    if k < bytes.len() - start {
        bytes[start + k] as u32
    } else {
        0
    }
}

/// Encodes a string as the operands of an instruction.
pub fn encode_literal_string(s: &str) -> (operands: Vec<Operand>)
    ensures
        operands@ == literal_string(encode_utf8(s@)),
{
    let bytes = s.as_bytes();
    let kind = OperandKind::LiteralString;
    let len: usize = bytes.len();
    let last: usize = len / 4;
    let mut operands: Vec<Operand> = Vec::new();
    let mut i: usize = 0;
    while i < last + 1
        invariant
            i <= last + 1,
            len == bytes@.len(),
            last == len / 4,
            kind == OperandKind::LiteralString,
            operands@.len() == i,
            forall|j: int| 0 <= j < i ==> operands@[j] == literal_operand(bytes@, j),
        decreases last + 1 - i,
    {
        let start: usize = 4 * i;
        let word: u32 = byte_at(bytes, start, 0) + 0x100 * byte_at(bytes, start, 1) + 0x1_0000
            * byte_at(bytes, start, 2) + 0x100_0000 * byte_at(bytes, start, 3);
        operands.push(
            Operand::Imm(
                if last == 0 {
                    Imm::Short(kind, word)
                } else if i == 0 {
                    Imm::LongStart(kind, word)
                } else {
                    Imm::LongCont(kind, word)
                },
            ),
        );
        i = i + 1;
    }
    assert(operands@ =~= literal_string(bytes@));
    operands
}

} // verus!
