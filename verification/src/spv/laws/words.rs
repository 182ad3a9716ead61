//! What can be read back from emitted words.
use crate::spv::grammar::OperandKind;
use crate::spv::laws::reading::{holds_text, imm_word, word_byte};
use crate::spv::literal::{byte_or_nul, literal_operand, literal_string, literal_word};
use crate::spv::write::{
    all_fit, fits, inst_words, insts_words, lemma_insts_words_add, operand_word, word_count,
    words_bytes,
};
use crate::spv::{Imm, InstView, Operand};
use vstd::prelude::*;

verus! {

/// Words divided into instructions, each as long as its first word says, or `None` if the
/// words do not end where an instruction does.
pub open spec fn read_insts(words: Seq<u32>) -> Option<Seq<Seq<u32>>>
    decreases words.len(),
{
    if words.len() == 0 {
        Some(seq![])
    } else {
        let count = (words[0] / 0x1_0000) as int;
        if count == 0 || count > words.len() {
            None
        } else {
            match read_insts(words.skip(count)) {
                Some(rest) => Some(seq![words.take(count)] + rest),
                None => None,
            }
        }
    }
}

/// The first word of an instruction tells its length and its opcode.
pub proof fn law_first_word(inst: InstView)
    requires
        fits(inst),
    ensures
        inst_words(inst).len() == word_count(inst),
        inst_words(inst)[0] / 0x1_0000 == word_count(inst),
        inst_words(inst)[0] % 0x1_0000 == inst.opcode,
{
}

/// Instructions that have been emitted one after another can be told apart again.
pub proof fn law_insts_read_back(insts: Seq<InstView>)
    requires
        all_fit(insts),
    ensures
        read_insts(insts_words(insts)) == Some(insts.map_values(|inst: InstView| inst_words(inst))),
    decreases insts.len(),
{
    let lists = insts.map_values(|inst: InstView| inst_words(inst));
    if insts.len() == 0 {
        assert(lists =~= seq![]);
    } else {
        let first = insts[0];
        let rest = insts.drop_first();
        let words = insts_words(insts);
        assert(fits(first));
        assert forall|i: int| 0 <= i < rest.len() implies #[trigger] fits(rest[i]) by {
            assert(fits(insts[i + 1]));
        }
        law_insts_read_back(rest);
        law_first_word(first);
        lemma_insts_words_add(seq![first], rest);
        assert(insts =~= seq![first] + rest);
        assert(seq![first].drop_last() =~= seq![]);
        reveal_with_fuel(insts_words, 2);
        assert(insts_words(seq![first]) =~= inst_words(first));
        let count = word_count(first) as int;
        assert(words[0] == inst_words(first)[0]);
        assert(words.take(count) =~= inst_words(first));
        assert(words.skip(count) =~= insts_words(rest));
        assert(lists =~= seq![inst_words(first)] + rest.map_values(
            |inst: InstView| inst_words(inst),
        ));
    }
}

/// The words that four bytes each stand for, the least significant byte first.
pub open spec fn bytes_words(bytes: Seq<u8>) -> Seq<u32> {
    Seq::new(
        bytes.len() / 4,
        |i: int|
            (bytes[4 * i] + 0x100 * bytes[4 * i + 1] + 0x1_0000 * bytes[4 * i + 2] + 0x100_0000
                * bytes[4 * i + 3]) as u32,
    )
}

/// The words of a file can be read back from its bytes.
pub proof fn law_words_read_back(words: Seq<u32>)
    ensures
        words_bytes(words).len() == 4 * words.len(),
        bytes_words(words_bytes(words)) == words,
{
    let bytes = words_bytes(words);
    assert forall|i: int| 0 <= i < words.len() implies #[trigger] bytes_words(bytes)[i]
        == words[i] by {
        let word = words[i] as int;
        assert(bytes[4 * i] == word % 0x100);
        assert(bytes[4 * i + 1] == word / 0x100 % 0x100);
        assert(bytes[4 * i + 2] == word / 0x1_0000 % 0x100);
        assert(bytes[4 * i + 3] == word / 0x100_0000 % 0x100);
    }
    assert(bytes_words(bytes) =~= words);
}

/// The bytes of a string can be read back from its operands, where they are followed by at
/// least one nul, and by no more of them than it takes to fill a word.
pub proof fn law_literal_reads_back(bytes: Seq<u8>)
    ensures
        ({
            let words = literal_string(bytes).map_values(|o: Operand| operand_word(o));
            let nuls = Seq::new((4 - bytes.len() % 4) as nat, |i: int| 0u8);
            words_bytes(words) == bytes + nuls
        }),
{
    let words = literal_string(bytes).map_values(|o: Operand| operand_word(o));
    let nuls = Seq::new((4 - bytes.len() % 4) as nat, |i: int| 0u8);
    let read = words_bytes(words);
    assert(read.len() == (bytes + nuls).len());
    assert forall|j: int| 0 <= j < read.len() implies #[trigger] read[j] == byte_or_nul(
        bytes,
        j,
    ) by {
        let i = j / 4;
        assert(literal_string(bytes)[i] == literal_operand(bytes, i));
        lemma_word_bytes(bytes, i);
        assert(words[i] == literal_word(bytes, i));
    }
    assert forall|j: int| 0 <= j < read.len() implies #[trigger] read[j] == (bytes + nuls)[j] by {
        assert(read[j] == byte_or_nul(bytes, j));
    }
    assert(read =~= bytes + nuls);
}

/// The four bytes of one word of a string.
pub(crate) proof fn lemma_word_bytes(bytes: Seq<u8>, i: int)
    ensures
        ({
            let word = literal_word(bytes, i) as int;
            &&& word % 0x100 == byte_or_nul(bytes, 4 * i)
            &&& word / 0x100 % 0x100 == byte_or_nul(bytes, 4 * i + 1)
            &&& word / 0x1_0000 % 0x100 == byte_or_nul(bytes, 4 * i + 2)
            &&& word / 0x100_0000 % 0x100 == byte_or_nul(bytes, 4 * i + 3)
        }),
{
    let b0 = byte_or_nul(bytes, 4 * i);
    let b1 = byte_or_nul(bytes, 4 * i + 1);
    let b2 = byte_or_nul(bytes, 4 * i + 2);
    let b3 = byte_or_nul(bytes, 4 * i + 3);
    assert(literal_word(bytes, i) == b0 + 0x100 * b1 + 0x1_0000 * b2 + 0x100_0000 * b3);
}

/// The words of an instruction after the first are its type, its result and its operands, in
/// this order. It fits if there are no more than 65535 words.
pub proof fn law_inst_words(inst: InstView)
    ensures
        ({
            let words = inst_words(inst);
            let types: int = if inst.result_type_id is Some {
                1
            } else {
                0
            };
            let ids: int = if inst.result_id is Some {
                types + 1
            } else {
                types
            };
            &&& words.len() == 1 + ids + inst.operands.len()
            &&& fits(inst) <==> words.len() <= 0xffff
            &&& inst.result_type_id matches Some(id) ==> words[1] == id
            &&& inst.result_id matches Some(id) ==> words[1 + types] == id
            &&& forall|k: int|
                0 <= k < inst.operands.len() ==> words[1 + ids + k] == (
                match #[trigger] inst.operands[k] {
                    Operand::Imm(Imm::Short(_, word)) => word,
                    Operand::Imm(Imm::LongStart(_, word)) => word,
                    Operand::Imm(Imm::LongCont(_, word)) => word,
                    Operand::Id(_, id) => id,
                })
        }),
{
}

/// A string takes one short operand, or a long one that starts with the first word, and the
/// bytes of the words are those of the string, followed by nuls.
pub proof fn law_literal_operands(bytes: Seq<u8>)
    ensures
        ({
            let operands = literal_string(bytes);
            &&& operands.len() == bytes.len() / 4 + 1
            &&& forall|i: int|
                0 <= i < operands.len() ==> match #[trigger] operands[i] {
                    Operand::Imm(Imm::Short(kind, _)) => kind == OperandKind::LiteralString
                        && operands.len() == 1,
                    Operand::Imm(Imm::LongStart(kind, _)) => kind == OperandKind::LiteralString
                        && operands.len() > 1 && i == 0,
                    Operand::Imm(Imm::LongCont(kind, _)) => kind == OperandKind::LiteralString
                        && i > 0,
                    Operand::Id(..) => false,
                }
            &&& holds_text(
                operands.map_values(|operand: Operand| imm_word(operand->Imm_0)),
                bytes,
            )
        }),
{
    let operands = literal_string(bytes);
    let words = operands.map_values(|operand: Operand| imm_word(operand->Imm_0));
    assert forall|i: int, j: int| 0 <= i < words.len() && 0 <= j < 4 implies #[trigger] word_byte(
        words[i],
        j,
    ) == (if 4 * i + j < bytes.len() {
        bytes[4 * i + j] as int
    } else {
        0
    }) by {
        assert(operands[i] == literal_operand(bytes, i));
        assert(words[i] == literal_word(bytes, i));
        lemma_word_bytes(bytes, i);
    }
}

} // verus!
