//! What a reader of a lifted module finds, told by the fields of the module and the words.
use crate::ir::{Attr, Func, Global, InternedStr, Misc, MiscInput, MiscKind, MiscOutput, Module};
use crate::spv::grammar::{
    OP_CAPABILITY, OP_ENTRY_POINT, OP_EXECUTION_MODE, OP_EXECUTION_MODE_ID, OP_EXTENSION,
    OP_EXT_INST_IMPORT, OP_FUNCTION_END, OP_LABEL, OP_LINE, OP_MEMBER_NAME, OP_MEMORY_MODEL,
    OP_MODULE_PROCESSED, OP_NAME, OP_NO_LINE, OP_SOURCE, OP_SOURCE_CONTINUED, OP_SOURCE_EXTENSION,
    OP_STRING,
};
use crate::spv::laws::words::read_insts;
use crate::spv::{DebugSourceLang, DebugSources, Id, Imm};
use vstd::prelude::*;
use vstd::utf8::{encode_utf8, is_continuation_byte};

verus! {

/// An instruction as a reader sees it: its opcode, and the words after the first.
#[verifier::ext_equal]
pub struct ReadInst {
    pub opcode: int,
    pub args: Seq<u32>,
}

/// What a reader sees in the words of one instruction.
pub open spec fn read_inst(words: Seq<u32>) -> ReadInst {
    ReadInst { opcode: (words[0] % 0x1_0000) as int, args: words.skip(1) }
}

/// The instructions after the header of a module, if there are only whole ones.
pub open spec fn read_module(words: Seq<u32>) -> Option<Seq<ReadInst>> {
    match read_insts(words.skip(5)) {
        Some(lists) => Some(lists.map_values(|list: Seq<u32>| read_inst(list))),
        None => None,
    }
}

/// The word in an immediate.
pub open spec fn imm_word(imm: Imm) -> u32 {
    match imm {
        Imm::Short(_, word) => word,
        Imm::LongStart(_, word) => word,
        Imm::LongCont(_, word) => word,
    }
}

/// One of the four bytes of a word, the least significant first.
pub open spec fn word_byte(word: u32, j: int) -> int {
    if j == 0 {
        word as int % 0x100
    } else if j == 1 {
        word as int / 0x100 % 0x100
    } else if j == 2 {
        word as int / 0x1_0000 % 0x100
    } else {
        word as int / 0x100_0000
    }
}

/// Whether words hold some bytes, which at least one nul follows, and no more of them than it
/// takes to fill a word.
pub open spec fn holds_text(words: Seq<u32>, text: Seq<u8>) -> bool {
    &&& words.len() == text.len() / 4 + 1
    &&& forall|i: int, j: int|
        0 <= i < words.len() && 0 <= j < 4 ==> #[trigger] word_byte(words[i], j) == (if 4 * i + j
            < text.len() {
            text[4 * i + j] as int
        } else {
            0
        })
}

/// The instructions of a module: those outside functions, then those of each function.
pub open spec fn own_insts(module: Module) -> Seq<Misc> {
    module.globals@.map_values(
        |global: Global|
            match global {
                Global::Misc(misc) => misc,
            },
    ) + module.funcs@.map_values(|func: Func| func.insts@).flatten()
}

/// The attributes of an instruction.
pub open spec fn attrs_of(module: Module, misc: Misc) -> Seq<Attr> {
    module.cx.attr_sets@[misc.attrs as int].attrs@
}

/// The source languages of a module.
pub open spec fn languages_of(module: Module) -> Seq<(DebugSourceLang, DebugSources)> {
    module.debug_info->Spv_0.source_languages@
}

/// Whether an instruction defines an ID.
pub open spec fn defines(misc: Misc, id: Id) -> bool {
    misc.output matches Some(MiscOutput::SpvResult { result_id, .. }) && result_id == id
}

/// Whether an instruction of a module defines an ID.
pub open spec fn is_defined(module: Module, id: Id) -> bool {
    exists|i: int| 0 <= i < own_insts(module).len() && defines(#[trigger] own_insts(module)[i], id)
}

/// Whether an instruction of a module imports an instruction set.
pub open spec fn is_imported(module: Module, name: InternedStr) -> bool {
    exists|i: int, j: int|
        0 <= i < own_insts(module).len() && 0 <= j < own_insts(module)[i].inputs@.len()
            && #[trigger] own_insts(module)[i].inputs@[j] == MiscInput::SpvExtInstImport(name)
}

/// Whether an attribute gives a line in a file.
pub open spec fn is_line_in(attr: Attr, path: InternedStr) -> bool {
    attr matches Attr::SpvDebugLine { file_path, .. } && file_path == path
}

/// Whether a string is the path of a file, either of a line or of source code.
pub open spec fn is_path(module: Module, path: InternedStr) -> bool {
    ||| exists|i: int, j: int|
        0 <= i < own_insts(module).len() && 0 <= j < attrs_of(module, own_insts(module)[i]).len()
            && is_line_in(#[trigger] attrs_of(module, own_insts(module)[i])[j], path)
    ||| exists|i: int, j: int|
        0 <= i < languages_of(module).len() && 0 <= j < languages_of(
            module,
        )[i].1.file_contents@.len() && (#[trigger] languages_of(module)[i].1.file_contents@[j]).0
            == path
}

/// Numbers for what is imported, for strings, and for what is defined. Each is numbered in the
/// order of a list, and the three lists after one another, from 1 on.
pub struct Numbering {
    pub imports: Seq<InternedStr>,
    pub strings: Seq<InternedStr>,
    pub outputs: Seq<Id>,
}

impl Numbering {
    /// Whether a word is the ID of an imported instruction set.
    pub open spec fn is_import(self, word: u32, name: InternedStr) -> bool {
        exists|k: int|
            0 <= k < self.imports.len() && #[trigger] self.imports[k] == name && word == 1 + k
    }

    /// Whether a word is the ID of a string.
    pub open spec fn is_string(self, word: u32, s: InternedStr) -> bool {
        exists|k: int|
            0 <= k < self.strings.len() && #[trigger] self.strings[k] == s && word == 1
                + self.imports.len() + k
    }

    /// Whether a word is the ID of what had an ID before.
    pub open spec fn is_output(self, word: u32, old_id: Id) -> bool {
        exists|k: int|
            0 <= k < self.outputs.len() && #[trigger] self.outputs[k] == old_id && word == 1
                + self.imports.len() + self.strings.len() + k
    }

    /// The smallest number that is larger than all.
    pub open spec fn bound(self) -> nat {
        1 + self.imports.len() + self.strings.len() + self.outputs.len()
    }
}

/// Whether a list goes from smaller numbers to larger ones.
pub open spec fn goes_up(list: Seq<u32>) -> bool {
    forall|i: int, j: int| 0 <= i < j < list.len() ==> list[i] < list[j]
}

/// Whether exactly what needs an ID is numbered, from the smaller to the larger in each list.
pub open spec fn numbers(module: Module, n: Numbering) -> bool {
    &&& goes_up(n.imports)
    &&& goes_up(n.strings)
    &&& goes_up(n.outputs)
    &&& forall|name: InternedStr| #[trigger]
        n.imports.contains(name) <==> is_imported(module, name)
    &&& forall|s: InternedStr| #[trigger] n.strings.contains(s) <==> is_path(module, s)
    &&& forall|id: Id| #[trigger] n.outputs.contains(id) <==> is_defined(module, id)
}

/// The parts of a lifted module, in their order. The instructions for one piece of source
/// code, and for one instruction of the module, are grouped.
pub struct Parts {
    pub capabilities: Seq<ReadInst>,
    pub extensions: Seq<ReadInst>,
    pub imports: Seq<ReadInst>,
    pub memory_model: ReadInst,
    pub entry_points: Seq<ReadInst>,
    pub execution_modes: Seq<ReadInst>,
    pub strings: Seq<ReadInst>,
    pub sources: Seq<Seq<ReadInst>>,
    pub source_extensions: Seq<ReadInst>,
    pub names: Seq<ReadInst>,
    pub processes: Seq<ReadInst>,
    pub decorations: Seq<ReadInst>,
    pub body: Seq<Seq<ReadInst>>,
}

impl Parts {
    /// All the instructions.
    pub open spec fn all(self) -> Seq<ReadInst> {
        self.capabilities + self.extensions + self.imports + seq![self.memory_model]
            + self.entry_points + self.execution_modes + self.strings + self.sources.flatten()
            + self.source_extensions + self.names + self.processes + self.decorations
            + self.body.flatten()
    }
}

/// Whether each instruction has one of some words, and no other.
pub open spec fn each_word(insts: Seq<ReadInst>, opcode: int, words: Seq<u32>) -> bool {
    &&& insts.len() == words.len()
    &&& forall|i: int|
        0 <= i < words.len() ==> {
            &&& (#[trigger] insts[i]).opcode == opcode
            &&& insts[i].args == seq![words[i]]
        }
}

/// Whether each instruction has one of some strings.
pub open spec fn each_text(insts: Seq<ReadInst>, opcode: int, texts: Seq<String>) -> bool {
    &&& insts.len() == texts.len()
    &&& forall|i: int|
        0 <= i < texts.len() ==> {
            &&& (#[trigger] insts[i]).opcode == opcode
            &&& holds_text(insts[i].args, encode_utf8(texts[i]@))
        }
}

/// Whether each instruction defines one of some interned strings, with the IDs from `first` on.
pub open spec fn each_interned(
    insts: Seq<ReadInst>,
    opcode: int,
    names: Seq<InternedStr>,
    first: nat,
    strings: Seq<String>,
) -> bool {
    &&& insts.len() == names.len()
    &&& forall|i: int|
        0 <= i < names.len() ==> {
            &&& (#[trigger] insts[i]).opcode == opcode
            &&& insts[i].args.len() > 0
            &&& insts[i].args[0] == first + i
            &&& names[i] < strings.len()
            &&& holds_text(insts[i].args.skip(1), encode_utf8(strings[names[i] as int]@))
        }
}

/// The attributes of a module, each with what it is attached to.
pub open spec fn attached(module: Module) -> Seq<(Misc, Attr)> {
    own_insts(module).map_values(
        |misc: Misc| attrs_of(module, misc).map_values(|attr: Attr| (misc, attr)),
    ).flatten()
}

/// Whether an attribute is an entry point.
pub open spec fn is_entry_point(attr: Attr) -> bool {
    attr is SpvEntryPoint
}

/// Whether an attribute is about how an entry point is executed.
pub open spec fn is_execution_mode(attr: Attr) -> bool {
    attr matches Attr::SpvAnnotation { opcode, .. } && (opcode == OP_EXECUTION_MODE || opcode
        == OP_EXECUTION_MODE_ID)
}

/// Whether an attribute is a name.
pub open spec fn is_name(attr: Attr) -> bool {
    attr matches Attr::SpvAnnotation { opcode, .. } && (opcode == OP_NAME || opcode
        == OP_MEMBER_NAME)
}

/// Whether an attribute is anything else, apart from line information.
pub open spec fn is_decoration(attr: Attr) -> bool {
    attr is SpvAnnotation && !is_execution_mode(attr) && !is_name(attr)
}

/// Whether a word is the ID of what an instruction defines.
pub open spec fn is_result(word: u32, misc: Misc, n: Numbering) -> bool {
    misc.output matches Some(MiscOutput::SpvResult { result_id, .. }) && n.is_output(
        word,
        result_id,
    )
}

/// Whether an instruction says what an attribute says.
pub open spec fn says(inst: ReadInst, misc: Misc, attr: Attr, n: Numbering) -> bool {
    match attr {
        Attr::SpvEntryPoint { params, interface_ids } => {
            &&& inst.opcode == OP_ENTRY_POINT
            &&& params@.len() > 0
            &&& inst.args.len() == 1 + params@.len() + interface_ids@.len()
            &&& inst.args[0] == imm_word(params@[0])
            &&& is_result(inst.args[1], misc, n)
            &&& forall|k: int|
                1 <= k < params@.len() ==> inst.args[1 + k] == imm_word(#[trigger] params@[k])
            &&& forall|k: int|
                0 <= k < interface_ids@.len() ==> n.is_output(
                    inst.args[1 + params@.len() + k],
                    #[trigger] interface_ids@[k],
                )
        },
        Attr::SpvAnnotation { opcode, params } => {
            &&& inst.opcode == opcode
            &&& inst.args.len() == 1 + params@.len()
            &&& is_result(inst.args[0], misc, n)
            &&& forall|k: int|
                0 <= k < params@.len() ==> inst.args[1 + k] == imm_word(#[trigger] params@[k])
        },
        Attr::SpvDebugLine { .. } => false,
    }
}

/// Whether instructions say what some attributes say, in their order.
pub open spec fn say_each(
    insts: Seq<ReadInst>,
    attached: Seq<(Misc, Attr)>,
    n: Numbering,
) -> bool {
    &&& insts.len() == attached.len()
    &&& forall|i: int|
        0 <= i < attached.len() ==> says(#[trigger] insts[i], attached[i].0, attached[i].1, n)
}

/// A piece of source code: a language, and a file in it, if there are any.
pub type SourcePiece = (DebugSourceLang, Option<(InternedStr, String)>);

/// The pieces of source code in one language.
pub open spec fn language_pieces(language: (DebugSourceLang, DebugSources)) -> Seq<SourcePiece> {
    if language.1.file_contents@.len() == 0 {
        seq![(language.0, None)]
    } else {
        language.1.file_contents@.map_values(|file: (InternedStr, String)| (language.0, Some(file)))
    }
}

/// The pieces of source code that a module was made from.
pub open spec fn source_pieces(module: Module) -> Seq<SourcePiece> {
    languages_of(module).map_values(
        |language: (DebugSourceLang, DebugSources)| language_pieces(language),
    ).flatten()
}

/// Where the contents of a file are cut: 65535 words, less the first, less three of `OpSource`,
/// and less the nul at the end.
pub open spec fn cut(k: int) -> int {
    if k <= 0 {
        0
    } else {
        262123 + 262135 * (k - 1)
    }
}

/// The bytes of a file between two cuts.
pub open spec fn between_cuts(text: Seq<u8>, k: int) -> Seq<u8> {
    text.subrange(
        cut(k),
        if cut(k + 1) <= text.len() {
            cut(k + 1)
        } else {
            text.len() as int
        },
    )
}

/// Whether instructions hold a piece of source code.
pub open spec fn holds_piece(group: Seq<ReadInst>, piece: SourcePiece, n: Numbering) -> bool {
    &&& group.len() > 0
    &&& group[0].opcode == OP_SOURCE
    &&& group[0].args.len() >= 2
    &&& group[0].args[0] == piece.0.lang
    &&& group[0].args[1] == piece.0.version
    &&& match piece.1 {
        None => group.len() == 1 && group[0].args.len() == 2,
        Some((path, contents)) => {
            let text = encode_utf8(contents@);
            &&& group[0].args.len() > 3
            &&& n.is_string(group[0].args[2], path)
            &&& group.len() > 1 ==> cut(group.len() - 1) < text.len()
            &&& text.len() <= cut(group.len() as int)
            &&& holds_text(group[0].args.skip(3), between_cuts(text, 0))
            &&& forall|k: int|
                1 <= k < group.len() ==> {
                    &&& (#[trigger] group[k]).opcode == OP_SOURCE_CONTINUED
                    &&& holds_text(group[k].args, between_cuts(text, k))
                }
        },
    }
}

/// Whether groups of instructions hold some pieces of source code, in their order.
pub open spec fn hold_pieces(
    groups: Seq<Seq<ReadInst>>,
    pieces: Seq<SourcePiece>,
    n: Numbering,
) -> bool {
    &&& groups.len() == pieces.len()
    &&& forall|i: int| 0 <= i < pieces.len() ==> holds_piece(#[trigger] groups[i], pieces[i], n)
}

/// A line: the path of a file, a line number, and a column.
pub type Line = (InternedStr, u32, u32);

/// Whether a line is the one that the first of some attributes with line information gives, or
/// there is none and no attribute has any.
pub open spec fn is_first_line(attrs: Seq<Attr>, line: Option<Line>) -> bool {
    match line {
        Some((file_path, line, col)) => exists|j: int|
            {
                &&& 0 <= j < attrs.len()
                &&& #[trigger] attrs[j] == (Attr::SpvDebugLine { file_path, line, col })
                &&& forall|k: int| 0 <= k < j ==> !(#[trigger] attrs[k] is SpvDebugLine)
            },
        None => forall|k: int| 0 <= k < attrs.len() ==> !(#[trigger] attrs[k] is SpvDebugLine),
    }
}

/// The opcode of an instruction.
pub open spec fn opcode_of(misc: Misc) -> int {
    match misc.kind {
        MiscKind::SpvInst { opcode } => opcode as int,
    }
}

/// Whether an instruction starts a block or ends a function.
pub open spec fn changes_block(misc: Misc) -> bool {
    opcode_of(misc) == OP_LABEL || opcode_of(misc) == OP_FUNCTION_END
}

/// Whether the block of the instruction at `i` is the one that starts at `k`.
pub open spec fn in_block(miscs: Seq<Misc>, i: int, k: int) -> bool {
    &&& 0 <= k <= i < miscs.len()
    &&& opcode_of(miscs[k]) == OP_LABEL
    &&& forall|l: int| k < l <= i ==> !changes_block(#[trigger] miscs[l])
}

/// Whether the instruction at `i` is in the same block as the one before it, or both are in
/// none. Blocks are told apart by what their labels define.
pub open spec fn stays_in_block(miscs: Seq<Misc>, i: int) -> bool {
    if opcode_of(miscs[i]) == OP_LABEL {
        exists|k: int|
            #[trigger] in_block(miscs, i - 1, k) && exists|id: Id| #[trigger]
                defines(miscs[k], id) && defines(miscs[i], id)
    } else if opcode_of(miscs[i]) == OP_FUNCTION_END {
        !exists|k: int| #[trigger] in_block(miscs, i - 1, k)
    } else {
        true
    }
}

/// The line that is in force before the instruction at `i`.
pub open spec fn line_in_force(miscs: Seq<Misc>, lines: Seq<Option<Line>>, i: int) -> Option<Line> {
    if i > 0 && stays_in_block(miscs, i) {
        lines[i - 1]
    } else {
        None
    }
}

/// Whether an instruction gives a line, or ends one.
pub open spec fn gives_line(inst: ReadInst, line: Option<Line>, n: Numbering) -> bool {
    match line {
        Some((file_path, line, col)) => {
            &&& inst.opcode == OP_LINE
            &&& inst.args.len() == 3
            &&& n.is_string(inst.args[0], file_path)
            &&& inst.args[1] == line
            &&& inst.args[2] == col
        },
        None => inst.opcode == OP_NO_LINE && inst.args.len() == 0,
    }
}

/// Whether a word stands for an input.
pub open spec fn is_input(word: u32, input: MiscInput, n: Numbering) -> bool {
    match input {
        MiscInput::SpvImm(imm) => word == imm_word(imm),
        MiscInput::SpvUntrackedId(old_id) => n.is_output(word, old_id),
        MiscInput::SpvExtInstImport(name) => n.is_import(word, name),
    }
}

/// Whether an instruction is one of the module: it has the type, the result and all the inputs,
/// in this order.
pub open spec fn is_own(inst: ReadInst, misc: Misc, n: Numbering) -> bool {
    let ids: int = match misc.output {
        Some(MiscOutput::SpvResult { result_type_id: Some(_), .. }) => 2,
        Some(MiscOutput::SpvResult { result_type_id: None, .. }) => 1,
        None => 0,
    };
    &&& inst.opcode == opcode_of(misc)
    &&& inst.args.len() == ids + misc.inputs@.len()
    &&& misc.output matches Some(MiscOutput::SpvResult { result_type_id, .. }) ==> {
        &&& result_type_id matches Some(old_id) ==> n.is_output(inst.args[0], old_id)
        &&& is_result(inst.args[ids - 1], misc, n)
    }
    &&& forall|k: int|
        0 <= k < misc.inputs@.len() ==> is_input(
            inst.args[ids + k],
            #[trigger] misc.inputs@[k],
            n,
        )
}

/// Whether groups of instructions are the instructions of a module, in their order, each with
/// an instruction before it that gives its line where that is not in force already.
pub open spec fn are_own(
    groups: Seq<Seq<ReadInst>>,
    miscs: Seq<Misc>,
    lines: Seq<Option<Line>>,
    n: Numbering,
) -> bool {
    &&& groups.len() == miscs.len()
    &&& forall|i: int|
        0 <= i < miscs.len() ==> {
            let group = #[trigger] groups[i];
            &&& if lines[i] == line_in_force(miscs, lines, i) {
                group.len() == 1
            } else {
                group.len() == 2 && gives_line(group[0], lines[i], n)
            }
            &&& is_own(group.last(), miscs[i], n)
        }
}

/// Whether lines are those of the instructions of a module.
pub open spec fn are_lines(module: Module, lines: Seq<Option<Line>>) -> bool {
    &&& lines.len() == own_insts(module).len()
    &&& forall|i: int|
        0 <= i < lines.len() ==> is_first_line(
            attrs_of(module, own_insts(module)[i]),
            #[trigger] lines[i],
        )
}

/// Whether the parts of a lifted module are those of the module that it was lifted from.
pub open spec fn describes(
    module: Module,
    n: Numbering,
    lines: Seq<Option<Line>>,
    parts: Parts,
) -> bool {
    let dialect = module.dialect->Spv_0;
    let debug_info = module.debug_info->Spv_0;
    let strings = module.cx.strings@;
    let attached = attached(module);
    &&& each_word(parts.capabilities, OP_CAPABILITY as int, dialect.capabilities@)
    &&& each_text(parts.extensions, OP_EXTENSION as int, dialect.extensions@)
    &&& each_interned(parts.imports, OP_EXT_INST_IMPORT as int, n.imports, 1, strings)
    &&& parts.memory_model.opcode == OP_MEMORY_MODEL
    &&& parts.memory_model.args == seq![dialect.addressing_model, dialect.memory_model]
    &&& say_each(
        parts.entry_points,
        attached.filter(|a: (Misc, Attr)| is_entry_point(a.1)),
        n,
    )
    &&& say_each(
        parts.execution_modes,
        attached.filter(|a: (Misc, Attr)| is_execution_mode(a.1)),
        n,
    )
    &&& each_interned(
        parts.strings,
        OP_STRING as int,
        n.strings,
        1 + n.imports.len(),
        strings,
    )
    &&& hold_pieces(parts.sources, source_pieces(module), n)
    &&& each_text(
        parts.source_extensions,
        OP_SOURCE_EXTENSION as int,
        debug_info.source_extensions@,
    )
    &&& say_each(parts.names, attached.filter(|a: (Misc, Attr)| is_name(a.1)), n)
    &&& each_text(parts.processes, OP_MODULE_PROCESSED as int, debug_info.module_processes@)
    &&& say_each(parts.decorations, attached.filter(|a: (Misc, Attr)| is_decoration(a.1)), n)
    &&& are_own(parts.body, own_insts(module), lines, n)
}

/// Whether a module is one of SPIR-V.
pub open spec fn of_spv(module: Module) -> bool {
    module.dialect is Spv && module.debug_info is Spv
}

/// Whether the attributes of all instructions of a module are there.
pub open spec fn attr_sets_there(module: Module) -> bool {
    forall|i: int|
        0 <= i < own_insts(module).len() ==> (#[trigger] own_insts(module)[i]).attrs
            < module.cx.attr_sets@.len()
}

/// Whether all the strings that are imported or paths are there.
pub open spec fn strings_there(module: Module) -> bool {
    &&& forall|name: InternedStr| #[trigger]
        is_imported(module, name) ==> name < module.cx.strings@.len()
    &&& forall|path: InternedStr| #[trigger]
        is_path(module, path) ==> path < module.cx.strings@.len()
}

/// Whether there is something that an attribute is about, and all that it refers to is
/// defined.
pub open spec fn attr_made(module: Module, misc: Misc, attr: Attr) -> bool {
    match attr {
        Attr::SpvEntryPoint { params, interface_ids } => {
            &&& misc.output is Some
            &&& params@.len() > 0
            &&& forall|k: int|
                0 <= k < interface_ids@.len() ==> is_defined(module, #[trigger] interface_ids@[k])
        },
        Attr::SpvAnnotation { .. } => misc.output is Some,
        Attr::SpvDebugLine { .. } => true,
    }
}

/// Whether all that an instruction refers to is defined, and it defines something if it is a
/// label.
pub open spec fn misc_made(module: Module, misc: Misc) -> bool {
    &&& misc.output matches Some(MiscOutput::SpvResult { result_type_id: Some(id), .. })
        ==> is_defined(module, id)
    &&& opcode_of(misc) == OP_LABEL ==> misc.output is Some
    &&& forall|k: int|
        0 <= k < misc.inputs@.len() ==> (#[trigger] misc.inputs@[k] matches MiscInput::SpvUntrackedId(
            id,
        ) ==> is_defined(module, id))
}

/// Whether no cut of some bytes is inside a character.
pub open spec fn cut_well(text: Seq<u8>) -> bool {
    forall|k: int| #![trigger cut(k)]
        1 <= k && cut(k) < text.len() ==> !is_continuation_byte(text[cut(k)])
}

/// Whether all the instructions of the lifted module can be made.
pub open spec fn can_be_made(module: Module) -> bool {
    &&& attr_sets_there(module)
    &&& strings_there(module)
    &&& attrs_made(module)
    &&& forall|i: int|
        0 <= i < own_insts(module).len() ==> misc_made(module, #[trigger] own_insts(module)[i])
    &&& sources_cut_well(module)
}

/// Whether strings are short enough for instructions that have nothing else.
pub open spec fn texts_short(texts: Seq<String>) -> bool {
    forall|i: int| 0 <= i < texts.len() ==> encode_utf8((#[trigger] texts[i])@).len() <= 262135
}

/// Whether an interned string is short enough for an instruction that defines it.
pub open spec fn interned_short(module: Module, name: InternedStr) -> bool {
    name < module.cx.strings@.len() ==> encode_utf8(module.cx.strings@[name as int]@).len()
        <= 262131
}

/// Whether what an attribute says is short enough for an instruction.
pub open spec fn attr_short(attr: Attr) -> bool {
    match attr {
        Attr::SpvEntryPoint { params, interface_ids } => 2 + params@.len() + interface_ids@.len()
            <= 0xffff,
        Attr::SpvAnnotation { params, .. } => 2 + params@.len() <= 0xffff,
        Attr::SpvDebugLine { .. } => true,
    }
}

/// Whether an instruction has few enough inputs.
pub open spec fn misc_short(misc: Misc) -> bool {
    let ids: int = match misc.output {
        Some(MiscOutput::SpvResult { result_type_id: Some(_), .. }) => 2,
        Some(MiscOutput::SpvResult { result_type_id: None, .. }) => 1,
        None => 0,
    };
    1 + ids + misc.inputs@.len() <= 0xffff
}

/// Whether none of the instructions of the lifted module is too long.
pub open spec fn all_short(module: Module) -> bool {
    &&& texts_short(module.dialect->Spv_0.extensions@)
    &&& texts_short(module.debug_info->Spv_0.source_extensions@)
    &&& texts_short(module.debug_info->Spv_0.module_processes@)
    &&& forall|name: InternedStr| #[trigger]
        is_imported(module, name) ==> interned_short(module, name)
    &&& forall|path: InternedStr| #[trigger] is_path(module, path) ==> interned_short(module, path)
    &&& forall|i: int, j: int|
        0 <= i < own_insts(module).len() && 0 <= j < attrs_of(module, own_insts(module)[i]).len()
            && own_insts(module)[i].output is Some ==> attr_short(
            #[trigger] attrs_of(module, own_insts(module)[i])[j],
        )
    &&& forall|i: int|
        0 <= i < own_insts(module).len() ==> misc_short(#[trigger] own_insts(module)[i])
}

/// Whether an interned string is there and short enough.
pub open spec fn interned_good(module: Module, name: InternedStr) -> bool {
    name < module.cx.strings@.len() && interned_short(module, name)
}

/// Whether interned strings are there and short enough.
pub open spec fn all_interned_good(module: Module, names: Seq<InternedStr>) -> bool {
    forall|k: int| 0 <= k < names.len() ==> interned_good(module, #[trigger] names[k])
}

/// Whether the interned string at `k` is the first that is not there or not short enough.
pub open spec fn first_bad_interned(module: Module, names: Seq<InternedStr>, k: int) -> bool {
    &&& 0 <= k < names.len()
    &&& !interned_good(module, names[k])
    &&& forall|l: int| 0 <= l < k ==> interned_good(module, #[trigger] names[l])
}

/// Whether instructions can be made from all attributes.
pub open spec fn attrs_made(module: Module) -> bool {
    forall|i: int, j: int|
        0 <= i < own_insts(module).len() && 0 <= j < attrs_of(module, own_insts(module)[i]).len()
            ==> attr_made(
            module,
            own_insts(module)[i],
            #[trigger] attrs_of(module, own_insts(module)[i])[j],
        )
}

/// Whether those attributes are short enough that some condition picks.
pub open spec fn attrs_short(module: Module, picks: spec_fn(Attr) -> bool) -> bool {
    forall|i: int, j: int|
        0 <= i < own_insts(module).len() && 0 <= j < attrs_of(module, own_insts(module)[i]).len()
            && own_insts(module)[i].output is Some && picks(
            attrs_of(module, own_insts(module)[i])[j],
        ) ==> attr_short(#[trigger] attrs_of(module, own_insts(module)[i])[j])
}

/// Whether no source code is cut inside a character.
pub open spec fn sources_cut_well(module: Module) -> bool {
    forall|i: int, j: int|
        0 <= i < languages_of(module).len() && 0 <= j < languages_of(
            module,
        )[i].1.file_contents@.len() ==> cut_well(
            encode_utf8((#[trigger] languages_of(module)[i].1.file_contents@[j]).1@),
        )
}

/// Whether the instruction at `i` is the first that cannot be made or is too long.
pub open spec fn first_bad_misc(module: Module, i: int) -> bool {
    let miscs = own_insts(module);
    &&& 0 <= i < miscs.len()
    &&& !(misc_made(module, miscs[i]) && misc_short(miscs[i]))
    &&& forall|k: int|
        0 <= k < i ==> misc_made(module, #[trigger] miscs[k]) && misc_short(miscs[k])
}

} // verus!
