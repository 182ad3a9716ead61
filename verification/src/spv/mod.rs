//! SPIR-V instructions, and the module-level data that only SPIR-V has.
pub mod attrs;
pub mod body;
pub mod grammar;
pub mod ids;
pub mod laws;
pub mod lift;
pub mod literal;
pub mod needs;
pub mod sections;
pub mod sources;
pub mod write;

use crate::ir::InternedStr;
use grammar::{Opcode, OperandKind};
use vstd::prelude::*;

verus! {

/// A SPIR-V ID.
pub type Id = u32;

/// One word of an immediate operand.
#[derive(Clone, Copy, Debug, PartialEq, Eq, Structural)]
pub enum Imm {
    /// The only word of an operand.
    Short(OperandKind, u32),
    /// The first of several words of an operand.
    LongStart(OperandKind, u32),
    /// A later word of an operand.
    LongCont(OperandKind, u32),
}

/// One word of an instruction's operands.
#[derive(Clone, Copy, Debug, PartialEq, Eq, Structural)]
pub enum Operand {
    Imm(Imm),
    Id(OperandKind, Id),
}

/// A SPIR-V instruction.
#[derive(Debug, PartialEq, Eq)]
pub struct Inst {
    pub opcode: Opcode,
    pub result_type_id: Option<Id>,
    pub result_id: Option<Id>,
    pub operands: Vec<Operand>,
}

/// What an [`Inst`] stands for.
#[verifier::ext_equal]
pub struct InstView {
    pub opcode: Opcode,
    pub result_type_id: Option<Id>,
    pub result_id: Option<Id>,
    pub operands: Seq<Operand>,
}

impl View for Inst {
    type V = InstView;

    open spec fn view(&self) -> InstView {
        InstView {
            opcode: self.opcode,
            result_type_id: self.result_type_id,
            result_id: self.result_id,
            operands: self.operands@,
        }
    }
}

/// What a list of instructions stands for.
pub open spec fn inst_views(insts: Seq<Inst>) -> Seq<InstView> {
    insts.map_values(|inst: Inst| inst@)
}

/// An instruction that has operands, but neither a type nor a result.
pub open spec fn plain_inst(opcode: Opcode, operands: Seq<Operand>) -> InstView {
    InstView { opcode, result_type_id: None, result_id: None, operands }
}

/// The SPIR-V version of a module, and what the module needs of its consumer.
pub struct Dialect {
    pub version_major: u8,
    pub version_minor: u8,
    /// The capabilities, in the order in which they are declared.
    pub capabilities: Vec<u32>,
    /// The names of the extensions, in the order in which they are declared.
    pub extensions: Vec<String>,
    pub addressing_model: u32,
    pub memory_model: u32,
}

/// Debug information about a whole module.
pub struct ModuleDebugInfo {
    /// The header word that says which tool generated the module, if it is known.
    pub original_generator_magic: Option<u32>,
    /// The sources that the module was made from, by language.
    pub source_languages: Vec<(DebugSourceLang, DebugSources)>,
    pub source_extensions: Vec<String>,
    pub module_processes: Vec<String>,
}

/// A source language, and its version.
#[derive(Clone, Copy, Debug, PartialEq, Eq, Structural)]
pub struct DebugSourceLang {
    pub lang: u32,
    pub version: u32,
}

/// The source files in one language.
pub struct DebugSources {
    /// Pairs of a file's path and its contents.
    pub file_contents: Vec<(InternedStr, String)>,
}

} // verus!
