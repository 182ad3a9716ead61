//! The representation that modules are lifted from.
use crate::spv;
use crate::spv::grammar::Opcode;
use crate::spv::{Id, Imm};
use std::rc::Rc;
use vstd::prelude::*;

verus! {

/// The position of a string in [`Context::strings`].
pub type InternedStr = u32;

/// The position of a set of attributes in [`Context::attr_sets`].
pub type AttrSet = u32;

/// The tables that interned values are positions in.
pub struct Context {
    pub strings: Vec<String>,
    pub attr_sets: Vec<AttrSetDef>,
}

impl Context {
    /// Whether `name` is the position of a string.
    pub open spec fn has_str(self, name: InternedStr) -> bool {
        name < self.strings@.len()
    }

    /// The string at the position `name`.
    pub open spec fn spec_str(self, name: InternedStr) -> Seq<char> {
        self.strings@[name as int]@
    }

    /// Whether `attrs` is the position of a set of attributes.
    pub open spec fn has_attrs(self, attrs: AttrSet) -> bool {
        attrs < self.attr_sets@.len()
    }

    /// The attributes in the set at the position `attrs`.
    pub open spec fn spec_attrs(self, attrs: AttrSet) -> Seq<Attr> {
        self.attr_sets@[attrs as int].attrs@
    }

    /// Looks a string up.
    pub fn str(&self, name: InternedStr) -> (s: &str)
        requires
            self.has_str(name),
        ensures
            s@ == self.spec_str(name),
            s@ == self.strings@[name as int]@,
    {
        self.strings[name as usize].as_str()
    }

    /// Looks a set of attributes up.
    pub fn attrs(&self, attrs: AttrSet) -> (r: &Vec<Attr>)
        requires
            self.has_attrs(attrs),
        ensures
            r@ == self.spec_attrs(attrs),
            r@ == self.attr_sets@[attrs as int].attrs@,
    {
        &self.attr_sets[attrs as usize].attrs
    }
}

/// A set of attributes, in the order in which they are gone through.
pub struct AttrSetDef {
    pub attrs: Vec<Attr>,
}

/// Something that is attached to an instruction.
pub enum Attr {
    /// The instruction is an entry point. The first parameter is the execution model.
    SpvEntryPoint { params: Vec<Imm>, interface_ids: Vec<Id> },
    /// Another instruction, such as a name or a decoration, is about this one.
    SpvAnnotation { opcode: Opcode, params: Vec<Imm> },
    /// The source line that the instruction comes from.
    SpvDebugLine { file_path: InternedStr, line: u32, col: u32 },
}

/// An instruction that the representation keeps as it was.
pub struct Misc {
    pub kind: MiscKind,
    pub output: Option<MiscOutput>,
    pub inputs: Vec<MiscInput>,
    pub attrs: AttrSet,
}

#[derive(Clone, Copy, Debug, PartialEq, Eq, Structural)]
pub enum MiscKind {
    SpvInst { opcode: Opcode },
}

#[derive(Clone, Copy, Debug, PartialEq, Eq, Structural)]
pub enum MiscOutput {
    SpvResult { result_type_id: Option<Id>, result_id: Id },
}

#[derive(Clone, Copy, Debug, PartialEq, Eq, Structural)]
pub enum MiscInput {
    SpvImm(Imm),
    SpvUntrackedId(Id),
    SpvExtInstImport(InternedStr),
}

impl Misc {
    /// The opcode of the instruction.
    pub open spec fn spec_opcode(self) -> Opcode {
        match self.kind {
            MiscKind::SpvInst { opcode } => opcode,
        }
    }

    /// The ID that the instruction defines, if it defines one.
    pub open spec fn spec_result_id(self) -> Option<Id> {
        match self.output {
            Some(MiscOutput::SpvResult { result_id, .. }) => Some(result_id),
            None => None,
        }
    }

    /// The ID of the type of what the instruction defines, if it has one.
    pub open spec fn spec_result_type_id(self) -> Option<Id> {
        match self.output {
            Some(MiscOutput::SpvResult { result_type_id, .. }) => result_type_id,
            None => None,
        }
    }
}

/// An instruction outside functions.
pub enum Global {
    Misc(Misc),
}

impl Global {
    pub open spec fn spec_misc(self) -> Misc {
        match self {
            Global::Misc(misc) => misc,
        }
    }
}

/// A function, as the list of its instructions.
pub struct Func {
    pub insts: Vec<Misc>,
}

/// The instructions of several functions, one function after another.
pub open spec fn func_insts(funcs: Seq<Func>) -> Seq<Misc>
    decreases funcs.len(),
{
    if funcs.len() == 0 {
        seq![]
    } else {
        func_insts(funcs.drop_last()) + funcs.last().insts@
    }
}

/// What the instructions of a module are taken from.
pub enum ModuleDialect {
    Spv(spv::Dialect),
    /// No particular set of instructions.
    Unspecified,
}

/// The debug information of a module, which depends on the dialect.
pub enum ModuleDebugInfo {
    Spv(spv::ModuleDebugInfo),
    /// No debug information.
    Unspecified,
}

/// A module.
pub struct Module {
    pub cx: Rc<Context>,
    pub dialect: ModuleDialect,
    pub debug_info: ModuleDebugInfo,
    pub globals: Vec<Global>,
    pub funcs: Vec<Func>,
}

impl Module {
    /// The tables that the module's interned values are positions in.
    pub open spec fn spec_cx(self) -> Context {
        *self.cx
    }

    /// The instructions of the module: those outside functions, then those of each function.
    pub open spec fn miscs(self) -> Seq<Misc> {
        self.globals@.map_values(|global: Global| global.spec_misc()) + func_insts(self.funcs@)
    }

    /// Lists the instructions of the module.
    pub fn globals_and_func_insts(&self) -> (r: Vec<&Misc>)
        ensures
            r@.unref() == self.miscs(),
    {
        let mut r: Vec<&Misc> = Vec::new();
        let ghost globals = self.globals@.map_values(|global: Global| global.spec_misc());
        let mut i: usize = 0;
        while i < self.globals.len()
            invariant
                i <= self.globals@.len(),
                globals == self.globals@.map_values(|global: Global| global.spec_misc()),
                r@.unref() == globals.take(i as int),
            decreases self.globals@.len() - i,
        {
            let Global::Misc(misc) = &self.globals[i];
            let ghost before = r@.unref();
            r.push(misc);
            i = i + 1;
            assert(r@.unref() =~= before.push(*misc));
            assert(r@.unref() =~= globals.take(i as int));
        }
        assert(self.funcs@.take(0) =~= seq![]);
        assert(r@.unref() =~= globals + func_insts(self.funcs@.take(0)));
        let mut i: usize = 0;
        while i < self.funcs.len()
            invariant
                i <= self.funcs@.len(),
                r@.unref() == globals + func_insts(self.funcs@.take(i as int)),
            decreases self.funcs@.len() - i,
        {
            let insts = &self.funcs[i].insts;
            let ghost before = r@.unref();
            let mut j: usize = 0;
            assert(before =~= before + insts@.take(0));
            while j < insts.len()
                invariant
                    j <= insts@.len(),
                    r@.unref() == before + insts@.take(j as int),
                decreases insts@.len() - j,
            {
                let ghost so_far = r@.unref();
                r.push(&insts[j]);
                assert(r@.unref() =~= so_far.push(insts@[j as int]));
                j = j + 1;
                assert(r@.unref() =~= before + insts@.take(j as int));
            }
            proof {
                assert(insts@.take(j as int) =~= insts@);
                assert(self.funcs@.take(i + 1).drop_last() =~= self.funcs@.take(i as int));
                assert(r@.unref() =~= globals + func_insts(self.funcs@.take(i + 1)));
            }
            i = i + 1;
        }
        assert(self.funcs@.take(i as int) =~= self.funcs@);
        r
    }
}

} // verus!
