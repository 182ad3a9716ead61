//! The parts of the SPIR-V grammar that lifting depends on.
use vstd::prelude::*;

verus! {

/// The number that identifies an instruction.
pub type Opcode = u16;

/// The word that every SPIR-V module starts with.
pub const MAGIC: u32 = 0x07230203;

/// The largest number of words in one instruction.
pub const MAX_WORD_COUNT: u16 = 0xffff;

pub const OP_SOURCE_CONTINUED: Opcode = 2;

pub const OP_SOURCE: Opcode = 3;

pub const OP_SOURCE_EXTENSION: Opcode = 4;

pub const OP_NAME: Opcode = 5;

pub const OP_MEMBER_NAME: Opcode = 6;

pub const OP_STRING: Opcode = 7;

pub const OP_LINE: Opcode = 8;

pub const OP_EXTENSION: Opcode = 10;

pub const OP_EXT_INST_IMPORT: Opcode = 11;

pub const OP_MEMORY_MODEL: Opcode = 14;

pub const OP_ENTRY_POINT: Opcode = 15;

pub const OP_EXECUTION_MODE: Opcode = 16;

pub const OP_CAPABILITY: Opcode = 17;

pub const OP_FUNCTION_END: Opcode = 56;

pub const OP_LABEL: Opcode = 248;

pub const OP_NO_LINE: Opcode = 317;

pub const OP_MODULE_PROCESSED: Opcode = 330;

pub const OP_EXECUTION_MODE_ID: Opcode = 331;

/// What an operand stands for.
#[derive(Clone, Copy, Debug, PartialEq, Eq, Structural)]
pub enum OperandKind {
    AddressingModel,
    Capability,
    IdRef,
    LiteralInteger,
    LiteralString,
    MemoryModel,
    SourceLanguage,
    /// Any other kind, by its position in the grammar.
    Other(u16),
}

} // verus!
