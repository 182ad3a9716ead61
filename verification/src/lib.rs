//! Lifting of an intermediate shader representation to binary SPIR-V.
//!
//! A [`Module`] keeps its instructions in SPIR-V form, but with strings interned,
//! with names, decorations, entry points and line information attached to the
//! instructions as attributes, and with the IDs of whatever module it came from.
//! [`Module::lift_to_spv_module_emitter`] numbers all IDs afresh, lays the
//! instructions out in the order that SPIR-V prescribes, and encodes them as words.
mod ir;
pub mod order;
pub mod spv;

pub use ir::{
    Attr, AttrSet, AttrSetDef, Context, Func, Global, InternedStr, Misc, MiscInput, MiscKind,
    MiscOutput, Module, ModuleDebugInfo, ModuleDialect,
};
