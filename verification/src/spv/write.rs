//! Emission of the binary form of SPIR-V.
use crate::spv::grammar::MAX_WORD_COUNT;
use crate::spv::{inst_views, Id, Imm, Inst, InstView, Operand};
use vstd::prelude::*;

verus! {

/// Why a module has no binary form.
#[derive(Clone, Copy, Debug, PartialEq, Eq, Structural)]
pub enum LiftError {
    /// The module is not in the SPIR-V dialect.
    NotSpv,
    /// There are more IDs than a header can give a bound for.
    IdBoundTooLarge,
    /// An instruction has more words than its first word can say.
    InstTooLong,
}

impl LiftError {
    /// The sentence that tells a user about the error.
    pub open spec fn spec_message(self) -> Seq<char> {
        match self {
            LiftError::NotSpv => "not a SPIR-V module"@,
            LiftError::IdBoundTooLarge => "ID bound of SPIR-V module doesn't fit in 32 bits"@,
            LiftError::InstTooLong => "word count of SPIR-V instruction doesn't fit in 16 bits"@,
        }
    }

    /// Tells a user about the error.
    pub fn message(&self) -> (r: &'static str)
        ensures
            r@ == self.spec_message(),
    {
        match self {
            LiftError::NotSpv => "not a SPIR-V module",
            LiftError::IdBoundTooLarge => "ID bound of SPIR-V module doesn't fit in 32 bits",
            LiftError::InstTooLong => "word count of SPIR-V instruction doesn't fit in 16 bits",
        }
    }
}

/// The word that stands for an operand.
pub open spec fn operand_word(operand: Operand) -> u32 {
    match operand {
        Operand::Imm(Imm::Short(_, word)) => word,
        Operand::Imm(Imm::LongStart(_, word)) => word,
        Operand::Imm(Imm::LongCont(_, word)) => word,
        Operand::Id(_, id) => id,
    }
}

/// The word of an optional ID, if it is there.
pub open spec fn optional_id(id: Option<Id>) -> Seq<u32> {
    match id {
        Some(id) => seq![id],
        None => seq![],
    }
}

/// How many words an instruction takes.
pub open spec fn word_count(inst: InstView) -> nat {
    1 + optional_id(inst.result_type_id).len() + optional_id(inst.result_id).len()
        + inst.operands.len()
}

/// Whether the number of words of an instruction can be written in its first word.
pub open spec fn fits(inst: InstView) -> bool {
    word_count(inst) <= MAX_WORD_COUNT
}

/// The words of an instruction. The first of them holds the number of words in its
/// upper half, and the opcode in its lower half.
pub open spec fn inst_words(inst: InstView) -> Seq<u32> {
    seq![(word_count(inst) * 0x1_0000 + inst.opcode) as u32] + optional_id(inst.result_type_id)
        + optional_id(inst.result_id) + inst.operands.map_values(|o: Operand| operand_word(o))
}

/// The words of several instructions, one after another.
pub open spec fn insts_words(insts: Seq<InstView>) -> Seq<u32>
    decreases insts.len(),
{
    if insts.len() == 0 {
        seq![]
    } else {
        insts_words(insts.drop_last()) + inst_words(insts.last())
    }
}

/// Whether each of the instructions fits.
pub open spec fn all_fit(insts: Seq<InstView>) -> bool {
    forall|i: int| 0 <= i < insts.len() ==> #[trigger] fits(insts[i])
}

/// What cuts the emission of a module short.
#[derive(Clone, Copy, Debug, PartialEq, Eq, Structural)]
pub enum Stop {
    /// The module has no binary form.
    Error(LiftError),
    /// An instruction cannot be made: something that it takes is not there, or source code
    /// would be cut inside a character.
    Unresolved,
}

/// What stops the emission of some instructions, if anything does, where `None` stands for
/// an instruction that cannot be made. The first instruction that cannot be made or does not
/// fit decides.
pub open spec fn stop(insts: Seq<Option<InstView>>) -> Option<Stop>
    decreases insts.len(),
{
    if insts.len() == 0 {
        None
    } else {
        match (stop(insts.drop_last()), insts.last()) {
            (Some(stop), _) => Some(stop),
            (None, None) => Some(Stop::Unresolved),
            (None, Some(inst)) => if fits(inst) {
                None
            } else {
                Some(Stop::Error(LiftError::InstTooLong))
            },
        }
    }
}

/// Instructions that can all be made.
pub open spec fn known(insts: Seq<InstView>) -> Seq<Option<InstView>> {
    insts.map_values(|inst: InstView| Some(inst))
}

/// The instructions that have been made, where all can be made.
pub open spec fn resolved(insts: Seq<Option<InstView>>) -> Seq<InstView> {
    insts.map_values(|inst: Option<InstView>| inst->0)
}

/// The words of instructions one after another are those of the first ones, followed by
/// those of the others.
pub proof fn lemma_insts_words_add(a: Seq<InstView>, b: Seq<InstView>)
    ensures
        insts_words(a + b) == insts_words(a) + insts_words(b),
    decreases b.len(),
{
    if b.len() == 0 {
        assert(a + b =~= a);
        assert(insts_words(a) + insts_words(b) =~= insts_words(a));
    } else {
        lemma_insts_words_add(a, b.drop_last());
        assert((a + b).drop_last() =~= a + b.drop_last());
        assert(insts_words(a + b) =~= insts_words(a) + insts_words(b));
    }
}

/// The first ones of some instructions decide first.
pub proof fn lemma_stop_add(a: Seq<Option<InstView>>, b: Seq<Option<InstView>>)
    ensures
        stop(a + b) == (if stop(a) is Some {
            stop(a)
        } else {
            stop(b)
        }),
        resolved(a + b) == resolved(a) + resolved(b),
    decreases b.len(),
{
    assert(resolved(a + b) =~= resolved(a) + resolved(b));
    if b.len() == 0 {
        assert(a + b =~= a);
    } else {
        lemma_stop_add(a, b.drop_last());
        assert((a + b).drop_last() =~= a + b.drop_last());
    }
}

/// Instructions that can all be made are only stopped by one that does not fit.
pub proof fn lemma_stop_known(insts: Seq<InstView>)
    ensures
        stop(known(insts)) == (if all_fit(insts) {
            None
        } else {
            Some(Stop::Error(LiftError::InstTooLong))
        }),
        resolved(known(insts)) == insts,
    decreases insts.len(),
{
    assert(resolved(known(insts)) =~= insts);
    if insts.len() > 0 {
        let rest = insts.drop_last();
        lemma_stop_known(rest);
        assert(known(insts).drop_last() =~= known(rest));
        if all_fit(insts) {
            assert(fits(insts[insts.len() - 1]));
            assert forall|i: int| 0 <= i < rest.len() implies #[trigger] fits(rest[i]) by {
                assert(fits(insts[i]));
            }
        } else {
            let i = choose|i: int| 0 <= i < insts.len() && !#[trigger] fits(insts[i]);
            if i < rest.len() {
                assert(!fits(rest[i]));
            }
        }
    }
}

/// One instruction decides for itself.
pub proof fn lemma_stop_one(inst: Option<InstView>)
    ensures
        stop(seq![inst]) == (match inst {
            None => Some(Stop::Unresolved),
            Some(inst) => if fits(inst) {
                None
            } else {
                Some(Stop::Error(LiftError::InstTooLong))
            },
        }),
        resolved(seq![inst]) == seq![inst->0],
        insts_words(seq![inst->0]) == inst_words(inst->0),
{
    reveal_with_fuel(stop, 2);
    reveal_with_fuel(insts_words, 2);
    assert(resolved(seq![inst]) =~= seq![inst->0]);
    assert(seq![inst].drop_last() =~= seq![]);
    assert(seq![inst->0].drop_last() =~= seq![]);
    assert(insts_words(seq![inst->0]) =~= inst_words(inst->0));
}

/// What comes of `part`, where all before it has been emitted.
pub(crate) proof fn lemma_stop_part(
    all: Seq<Option<InstView>>,
    before: Seq<Option<InstView>>,
    part: Seq<Option<InstView>>,
    after: Seq<Option<InstView>>,
)
    requires
        all == before + part + after,
        stop(before) is None,
    ensures
        stop(before + part) == stop(part),
        stop(part) is Some ==> stop(all) == stop(part),
        insts_words(resolved(before + part)) == insts_words(resolved(before)) + insts_words(
            resolved(part),
        ),
{
    lemma_stop_add(before, part);
    lemma_stop_add(before + part, after);
    lemma_insts_words_add(resolved(before), resolved(part));
}

/// The bytes of a sequence of words, the least significant byte of each word first.
pub open spec fn words_bytes(words: Seq<u32>) -> Seq<u8> {
    Seq::new(
        4 * words.len(),
        |i: int|
            {
                let word = words[i / 4] as int;
                (if i % 4 == 0 {
                    word
                } else if i % 4 == 1 {
                    word / 0x100
                } else if i % 4 == 2 {
                    word / 0x1_0000
                } else {
                    word / 0x100_0000
                } % 0x100) as u8
            },
    )
}

/// The words of a SPIR-V module, as far as they have been emitted.
#[derive(Debug, PartialEq, Eq)]
pub struct ModuleEmitter {
    pub words: Vec<u32>,
}

impl ModuleEmitter {
    /// Starts a module with the five words of its header.
    pub fn with_header(header: [u32; 5]) -> (emitter: Self)
        ensures
            emitter.words@ == header@,
    {
        let mut words: Vec<u32> = Vec::new();
        let mut i: usize = 0;
        while i < 5
            invariant
                i <= 5,
                words@ == header@.take(i as int),
            decreases 5 - i,
        {
            words.push(header[i]);
            i = i + 1;
            assert(words@ =~= header@.take(i as int));
        }
        assert(words@ =~= header@);
        ModuleEmitter { words }
    }

    /// Appends an instruction, or nothing if the instruction does not fit.
    pub fn push_inst(&mut self, inst: &Inst) -> (r: Result<(), LiftError>)
        ensures
            r == (if fits(inst@) {
                Ok::<(), LiftError>(())
            } else {
                Err::<(), LiftError>(LiftError::InstTooLong)
            }),
            final(self).words@ == (if fits(inst@) {
                old(self).words@ + inst_words(inst@)
            } else {
                old(self).words@
            }),
    {
        let operand_count: usize = inst.operands.len();
        if operand_count >= 0xffff {
            return Err(LiftError::InstTooLong);
        }
        let type_count: u32 = if inst.result_type_id.is_some() {
            1
        } else {
            0
        };
        let result_count: u32 = if inst.result_id.is_some() {
            1
        } else {
            0
        };
        let total: u32 = 1 + type_count + result_count + operand_count as u32;
        if total > 0xffff {
            return Err(LiftError::InstTooLong);
        }
        let ghost start = self.words@;
        self.words.push(total * 0x1_0000 + inst.opcode as u32);
        if let Some(id) = inst.result_type_id {
            self.words.push(id);
        }
        if let Some(id) = inst.result_id {
            self.words.push(id);
        }
        let ghost head = self.words@;
        let ghost tail = inst.operands@.map_values(|o: Operand| operand_word(o));
        assert(head =~= start + seq![(word_count(inst@) * 0x1_0000 + inst.opcode) as u32]
            + optional_id(inst.result_type_id) + optional_id(inst.result_id));
        let mut i: usize = 0;
        while i < operand_count
            invariant
                i <= operand_count,
                operand_count == inst.operands@.len(),
                tail == inst.operands@.map_values(|o: Operand| operand_word(o)),
                self.words@ == head + tail.take(i as int),
            decreases operand_count - i,
        {
            let word: u32 = match inst.operands[i] {
                Operand::Imm(Imm::Short(_, word)) => word,
                Operand::Imm(Imm::LongStart(_, word)) => word,
                Operand::Imm(Imm::LongCont(_, word)) => word,
                Operand::Id(_, id) => id,
            };
            self.words.push(word);
            i = i + 1;
            assert(self.words@ =~= head + tail.take(i as int));
        }
        assert(self.words@ =~= start + inst_words(inst@));
        Ok(())
    }

    /// Appends instructions, up to the first one that does not fit.
    pub(crate) fn push_insts(&mut self, insts: &Vec<Inst>) -> (r: Result<(), Stop>)
        ensures
            match stop(known(inst_views(insts@))) {
                Some(stop) => r == Err::<(), Stop>(stop),
                None => r is Ok && final(self).words@ == old(self).words@ + insts_words(
                    inst_views(insts@),
                ),
            },
    {
        proof {
            lemma_stop_known(inst_views(insts@));
        }
        let ghost views = inst_views(insts@);
        let ghost start = self.words@;
        let mut i: usize = 0;
        assert(views.take(0) =~= seq![]);
        while i < insts.len()
            invariant
                i <= insts@.len(),
                views == inst_views(insts@),
                stop(known(views)) == (if all_fit(views) {
                    None
                } else {
                    Some(Stop::Error(LiftError::InstTooLong))
                }),
                all_fit(views.take(i as int)),
                self.words@ == start + insts_words(views.take(i as int)),
            decreases insts@.len() - i,
        {
            assert(views[i as int] == insts@[i as int]@);
            if let Err(e) = self.push_inst(&insts[i]) {
                assert(!fits(views[i as int]));
                return Err(Stop::Error(e));
            }
            proof {
                assert(views.take(i + 1).drop_last() =~= views.take(i as int));
                assert(views.take(i + 1).last() == views[i as int]);
                assert forall|j: int| 0 <= j < i + 1 implies #[trigger] fits(
                    views.take(i + 1)[j],
                ) by {
                    if j < i {
                        assert(fits(views.take(i as int)[j]));
                    }
                }
                assert(self.words@ =~= start + insts_words(views.take(i + 1)));
            }
            i = i + 1;
        }
        assert(views.take(i as int) =~= views);
        Ok(())
    }

    /// The module as the bytes of a file.
    pub fn to_bytes(&self) -> (bytes: Vec<u8>)
        ensures
            bytes@ == words_bytes(self.words@),
    {
        let mut bytes: Vec<u8> = Vec::new();
        let mut i: usize = 0;
        while i < self.words.len()
            invariant
                i <= self.words@.len(),
                bytes@ == words_bytes(self.words@.take(i as int)),
            decreases self.words@.len() - i,
        {
            let word: u32 = self.words[i];
            bytes.push((word % 0x100) as u8);
            bytes.push((word / 0x100 % 0x100) as u8);
            bytes.push((word / 0x1_0000 % 0x100) as u8);
            bytes.push((word / 0x100_0000 % 0x100) as u8);
            i = i + 1;
            assert(bytes@ =~= words_bytes(self.words@.take(i as int)));
        }
        assert(self.words@.take(i as int) =~= self.words@);
        bytes
    }
}

} // verus!
