//! The parts of a module that do not depend on its instructions: the header, and the
//! declarations that consist of strings and constants.
use crate::ir::{Context, InternedStr};
use crate::order;
use crate::order::ascending;
use crate::spv;
use crate::spv::grammar::{
    Opcode, OperandKind, MAGIC, OP_CAPABILITY, OP_EXTENSION, OP_MEMORY_MODEL, OP_MODULE_PROCESSED,
    OP_SOURCE_EXTENSION,
};
use crate::spv::literal::{encode_literal_string, literal_string};
use crate::spv::write::{
    insts_words, lemma_stop_one, lemma_stop_part, resolved, stop, ModuleEmitter, Stop,
};
use crate::spv::{inst_views, plain_inst, Dialect, Id, Imm, Inst, InstView, Operand};
use std::collections::BTreeMap;
use vstd::prelude::*;
use vstd::utf8::encode_utf8;

verus! {

/// An immediate operand of one word.
pub open spec fn short(kind: OperandKind, word: u32) -> Operand {
    Operand::Imm(Imm::Short(kind, word))
}

/// An instruction without operands.
pub(crate) fn bare_inst(opcode: Opcode) -> (inst: Inst)
    ensures
        inst@ == plain_inst(opcode, seq![]),
{
    let inst = Inst { opcode, result_type_id: None, result_id: None, operands: Vec::new() };
    assert(inst@ =~= plain_inst(opcode, seq![]));
    inst
}

/// An instruction whose only operand is a string.
pub open spec fn string_inst(opcode: Opcode, s: Seq<char>) -> InstView {
    plain_inst(opcode, literal_string(encode_utf8(s)))
}

/// Instructions that have one string each.
pub open spec fn spec_string_insts(opcode: Opcode, strings: Seq<String>) -> Seq<InstView> {
    strings.map_values(|s: String| string_inst(opcode, s@))
}

fn string_insts(opcode: Opcode, strings: &Vec<String>) -> (insts: Vec<Inst>)
    ensures
        inst_views(insts@) == spec_string_insts(opcode, strings@),
        insts@.len() == strings@.len(),
{
    let mut insts: Vec<Inst> = Vec::new();
    let mut i: usize = 0;
    while i < strings.len()
        invariant
            i <= strings@.len(),
            insts@.len() == i,
            forall|j: int|
                0 <= j < i ==> (#[trigger] insts@[j])@ == string_inst(opcode, strings@[j]@),
        decreases strings@.len() - i,
    {
        insts.push(
            Inst {
                opcode,
                result_type_id: None,
                result_id: None,
                operands: encode_literal_string(strings[i].as_str()),
            },
        );
        i = i + 1;
    }
    assert(inst_views(insts@) =~= spec_string_insts(opcode, strings@));
    insts
}

/// The declaration of a capability.
pub open spec fn capability_inst(cap: u32) -> InstView {
    plain_inst(OP_CAPABILITY, seq![short(OperandKind::Capability, cap)])
}

impl Dialect {
    /// The declarations of the capabilities, in their order.
    pub fn capability_insts(&self) -> (insts: Vec<Inst>)
        ensures
            inst_views(insts@) == self.capabilities@.map_values(|cap: u32| capability_inst(cap)),
            insts@.len() == self.capabilities@.len(),
            forall|i: int|
                0 <= i < insts@.len() ==> {
                    &&& (#[trigger] insts@[i]).opcode == OP_CAPABILITY
                    &&& insts@[i].result_type_id is None
                    &&& insts@[i].result_id is None
                    &&& insts@[i].operands@ == seq![
                        Operand::Imm(Imm::Short(OperandKind::Capability, self.capabilities@[i])),
                    ]
                },
    {
        let mut insts: Vec<Inst> = Vec::new();
        let mut i: usize = 0;
        while i < self.capabilities.len()
            invariant
                i <= self.capabilities@.len(),
                insts@.len() == i,
                forall|j: int|
                    0 <= j < i ==> (#[trigger] insts@[j])@ == capability_inst(self.capabilities@[j]),
            decreases self.capabilities@.len() - i,
        {
            let mut inst = bare_inst(OP_CAPABILITY);
            inst.operands.push(
                Operand::Imm(Imm::Short(OperandKind::Capability, self.capabilities[i])),
            );
            assert(inst@ =~= capability_inst(self.capabilities@[i as int]));
            insts.push(inst);
            i = i + 1;
        }
        assert(inst_views(insts@) =~= self.capabilities@.map_values(
            |cap: u32| capability_inst(cap),
        ));
        insts
    }

    /// The declarations of the extensions, in their order.
    pub fn extension_insts(&self) -> (insts: Vec<Inst>)
        ensures
            inst_views(insts@) == spec_string_insts(OP_EXTENSION, self.extensions@),
            insts@.len() == self.extensions@.len(),
            forall|i: int|
                0 <= i < insts@.len() ==> {
                    &&& (#[trigger] insts@[i]).opcode == OP_EXTENSION
                    &&& insts@[i].result_type_id is None
                    &&& insts@[i].result_id is None
                    &&& insts@[i].operands@ == literal_string(encode_utf8(self.extensions@[i]@))
                },
    {
        let insts = string_insts(OP_EXTENSION, &self.extensions);
        assert forall|i: int| 0 <= i < insts@.len() implies (#[trigger] insts@[i])@ == string_inst(
            OP_EXTENSION,
            self.extensions@[i]@,
        ) by {
            assert(inst_views(insts@)[i] == insts@[i]@);
        }
        insts
    }

    /// The instruction that says how the module uses memory.
    pub open spec fn spec_memory_model_inst(self) -> InstView {
        plain_inst(
            OP_MEMORY_MODEL,
            seq![
                short(OperandKind::AddressingModel, self.addressing_model),
                short(OperandKind::MemoryModel, self.memory_model),
            ],
        )
    }

    pub(crate) fn memory_model_inst(&self) -> (inst: Inst)
        ensures
            inst@ == self.spec_memory_model_inst(),
    {
        let mut inst = bare_inst(OP_MEMORY_MODEL);
        inst.operands.push(
            Operand::Imm(Imm::Short(OperandKind::AddressingModel, self.addressing_model)),
        );
        inst.operands.push(Operand::Imm(Imm::Short(OperandKind::MemoryModel, self.memory_model)));
        assert(inst@ =~= self.spec_memory_model_inst());
        inst
    }
}

impl spv::ModuleDebugInfo {
    /// The names of the extensions to the source language, in their order.
    pub fn source_extension_insts(&self) -> (insts: Vec<Inst>)
        ensures
            inst_views(insts@) == spec_string_insts(OP_SOURCE_EXTENSION, self.source_extensions@),
            insts@.len() == self.source_extensions@.len(),
            forall|i: int|
                0 <= i < insts@.len() ==> {
                    &&& (#[trigger] insts@[i]).opcode == OP_SOURCE_EXTENSION
                    &&& insts@[i].result_type_id is None
                    &&& insts@[i].result_id is None
                    &&& insts@[i].operands@ == literal_string(encode_utf8(self.source_extensions@[i]@))
                },
    {
        let insts = string_insts(OP_SOURCE_EXTENSION, &self.source_extensions);
        assert forall|i: int| 0 <= i < insts@.len() implies (#[trigger] insts@[i])@ == string_inst(
            OP_SOURCE_EXTENSION,
            self.source_extensions@[i]@,
        ) by {
            assert(inst_views(insts@)[i] == insts@[i]@);
        }
        insts
    }

    /// The descriptions of how the module has been processed, in their order.
    pub fn module_processed_insts(&self) -> (insts: Vec<Inst>)
        ensures
            inst_views(insts@) == spec_string_insts(OP_MODULE_PROCESSED, self.module_processes@),
            insts@.len() == self.module_processes@.len(),
            forall|i: int|
                0 <= i < insts@.len() ==> {
                    &&& (#[trigger] insts@[i]).opcode == OP_MODULE_PROCESSED
                    &&& insts@[i].result_type_id is None
                    &&& insts@[i].result_id is None
                    &&& insts@[i].operands@ == literal_string(encode_utf8(self.module_processes@[i]@))
                },
    {
        let insts = string_insts(OP_MODULE_PROCESSED, &self.module_processes);
        assert forall|i: int| 0 <= i < insts@.len() implies (#[trigger] insts@[i])@ == string_inst(
            OP_MODULE_PROCESSED,
            self.module_processes@[i]@,
        ) by {
            assert(inst_views(insts@)[i] == insts@[i]@);
        }
        insts
    }
}

/// The five words at the start of a module.
pub open spec fn spec_header(
    dialect: Dialect,
    debug_info: spv::ModuleDebugInfo,
    id_bound: u32,
) -> Seq<u32> {
    seq![
        MAGIC,
        (dialect.version_major * 0x1_0000 + dialect.version_minor * 0x100) as u32,
        match debug_info.original_generator_magic {
            Some(generator) => generator,
            None => 0,
        },
        id_bound,
        0,
    ]
}

/// Makes the five words at the start of a module.
pub(crate) fn header(dialect: &Dialect, debug_info: &spv::ModuleDebugInfo, id_bound: u32) -> (r:
    [u32; 5])
    ensures
        r@ == spec_header(*dialect, *debug_info, id_bound),
{
    let major: u32 = dialect.version_major as u32;
    let minor: u32 = dialect.version_minor as u32;
    assert((major << 16) | (minor << 8) == major * 0x1_0000 + minor * 0x100) by (bit_vector)
        requires
            major < 0x100,
            minor < 0x100,
    ;
    let generator: u32 = match debug_info.original_generator_magic {
        Some(generator) => generator,
        None => 0,
    };
    let reserved_inst_schema: u32 = 0;
    let r: [u32; 5] = [
        MAGIC,
        (major << 16) | (minor << 8),
        generator,
        id_bound,
        reserved_inst_schema,
    ];
    assert(r@ =~= spec_header(*dialect, *debug_info, id_bound));
    r
}

/// The definition of an interned string that has got the given ID, if it can be looked up.
pub open spec fn interned_inst(opcode: Opcode, cx: Context, name: InternedStr, id: Id) -> Option<
    InstView,
> {
    if cx.has_str(name) {
        Some(
            InstView {
                opcode,
                result_type_id: None,
                result_id: Some(id),
                operands: literal_string(encode_utf8(cx.spec_str(name))),
            },
        )
    } else {
        None
    }
}

/// The definitions of interned strings that have got an ID, from the smallest position to
/// the largest.
pub open spec fn interned_insts(
    opcode: Opcode,
    cx: Context,
    ids: Map<InternedStr, Id>,
) -> Seq<Option<InstView>> {
    ascending(ids.dom()).map_values(
        |name: InternedStr| interned_inst(opcode, cx, name, ids[name]),
    )
}

/// Emits the definitions of interned strings.
pub(crate) fn emit_interned(
    emitter: &mut ModuleEmitter,
    opcode: Opcode,
    cx: &Context,
    ids: &BTreeMap<InternedStr, Id>,
) -> (r: Result<(), Stop>)
    ensures
        match stop(interned_insts(opcode, *cx, ids@)) {
            Some(stop) => r == Err::<(), Stop>(stop),
            None => r is Ok && final(emitter).words@ == old(emitter).words@ + insts_words(
                resolved(interned_insts(opcode, *cx, ids@)),
            ),
        },
{
    let entries = order::entries(ids);
    let ghost all = interned_insts(opcode, *cx, ids@);
    let ghost start = emitter.words@;
    let mut i: usize = 0;
    proof {
        assert(all.take(0) =~= seq![]);
        assert(resolved(all.take(0)) =~= seq![]);
        assert(emitter.words@ =~= start + seq![]);
    }
    while i < entries.len()
        invariant
            i <= entries@.len(),
            entries@ == ascending(ids@.dom()).map_values(|k: u32| (k, ids@[k])),
            all == interned_insts(opcode, *cx, ids@),
            stop(all.take(i as int)) is None,
            emitter.words@ == start + insts_words(resolved(all.take(i as int))),
        decreases entries@.len() - i,
    {
        let (name, id): (InternedStr, Id) = entries[i];
        let ghost next = interned_inst(opcode, *cx, name, id);
        proof {
            assert(all[i as int] == next);
            assert(all.take(i + 1) =~= all.take(i as int) + seq![next]);
            assert(all =~= all.take(i as int) + seq![next] + all.skip(i + 1));
            lemma_stop_part(all, all.take(i as int), seq![next], all.skip(i + 1));
            lemma_stop_one(next);
        }
        if name as usize >= cx.strings.len() {
            return Err(Stop::Unresolved);
        }
        let inst = Inst {
            opcode,
            result_type_id: None,
            result_id: Some(id),
            operands: encode_literal_string(cx.str(name)),
        };
        assert(Some(inst@) == next);
        if let Err(e) = emitter.push_inst(&inst) {
            return Err(Stop::Error(e));
        }
        assert(emitter.words@ =~= start + insts_words(resolved(all.take(i + 1))));
        i = i + 1;
    }
    assert(all.take(i as int) =~= all);
    Ok(())
}

} // verus!
