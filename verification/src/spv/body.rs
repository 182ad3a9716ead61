//! The instructions of a module, with line information between them.
use crate::ir::{Attr, Context, Misc, MiscInput, MiscKind, MiscOutput};
use crate::order;
use crate::spv::attrs::new_result_id;
use crate::spv::grammar::{Opcode, OperandKind, OP_FUNCTION_END, OP_LABEL, OP_LINE, OP_NO_LINE};
use crate::spv::ids::{AllocatedIds, IdMaps};
use crate::spv::needs::{attr_file, attr_files};
use crate::spv::sections::{bare_inst, short};
use crate::spv::write::{
    insts_words, known, lemma_stop_known, lemma_stop_one, lemma_stop_part, resolved, stop,
    ModuleEmitter, Stop,
};
use crate::spv::{inst_views, plain_inst, Id, Imm, Inst, InstView, Operand};
use vstd::prelude::*;

verus! {

/// The operand that is made from an input.
pub open spec fn input_operand(input: MiscInput, ids: IdMaps) -> Operand {
    match input {
        MiscInput::SpvImm(imm) => Operand::Imm(imm),
        MiscInput::SpvUntrackedId(old_id) => Operand::Id(
            OperandKind::IdRef,
            ids.old_outputs[old_id],
        ),
        MiscInput::SpvExtInstImport(name) => Operand::Id(
            OperandKind::IdRef,
            ids.ext_inst_imports[name],
        ),
    }
}

/// An instruction with its new IDs.
pub open spec fn spec_misc_inst(misc: Misc, ids: IdMaps) -> InstView {
    InstView {
        opcode: misc.spec_opcode(),
        result_type_id: match misc.spec_result_type_id() {
            Some(old_id) => Some(ids.old_outputs[old_id]),
            None => None,
        },
        result_id: new_result_id(misc, ids),
        operands: misc.inputs@.map_values(|input: MiscInput| input_operand(input, ids)),
    }
}

/// Whether what an input refers to is there.
pub open spec fn input_resolved(input: MiscInput, ids: IdMaps) -> bool {
    match input {
        MiscInput::SpvImm(_) => true,
        MiscInput::SpvUntrackedId(old_id) => ids.old_outputs.contains_key(old_id),
        MiscInput::SpvExtInstImport(name) => ids.ext_inst_imports.contains_key(name),
    }
}

/// Whether an instruction can be made with new IDs: all that it refers to is there, and it
/// defines something if it is a label.
pub open spec fn misc_resolved(misc: Misc, ids: IdMaps) -> bool {
    &&& misc.spec_result_type_id() matches Some(old_id) ==> ids.old_outputs.contains_key(old_id)
    &&& misc.spec_result_id() matches Some(old_id) ==> ids.old_outputs.contains_key(old_id)
    &&& misc.spec_opcode() == OP_LABEL ==> misc.output is Some
    &&& forall|i: int|
        0 <= i < misc.inputs@.len() ==> input_resolved(#[trigger] misc.inputs@[i], ids)
}

/// Makes an operand from an input, if that can be done.
fn input_new_operand(input: MiscInput, ids: &AllocatedIds) -> (r: Option<Operand>)
    ensures
        r == (if input_resolved(input, ids@) {
            Some(input_operand(input, ids@))
        } else {
            None
        }),
{
    let found: Option<Id> = match input {
        MiscInput::SpvImm(imm) => {
            return Some(Operand::Imm(imm));
        },
        MiscInput::SpvUntrackedId(old_id) => order::find_value(&ids.old_outputs, old_id),
        MiscInput::SpvExtInstImport(name) => order::find_value(&ids.ext_inst_imports, name),
    };
    match found {
        Some(id) => Some(Operand::Id(OperandKind::IdRef, id)),
        None => None,
    }
}

/// Makes an instruction with its new IDs, if that can be done.
fn misc_inst(misc: &Misc, ids: &AllocatedIds) -> (r: Option<Inst>)
    ensures
        match r {
            Some(inst) => misc_resolved(*misc, ids@) && inst@ == spec_misc_inst(*misc, ids@),
            None => !misc_resolved(*misc, ids@),
        },
{
    let opcode: Opcode = match misc.kind {
        MiscKind::SpvInst { opcode } => opcode,
    };
    let mut new_result_type_id: Option<Id> = None;
    let mut new_result_id: Option<Id> = None;
    if let Some(MiscOutput::SpvResult { result_type_id, result_id }) = misc.output {
        if let Some(old_id) = result_type_id {
            new_result_type_id = order::find_value(&ids.old_outputs, old_id);
            if new_result_type_id.is_none() {
                return None;
            }
        }
        new_result_id = order::find_value(&ids.old_outputs, result_id);
        if new_result_id.is_none() {
            return None;
        }
    } else if opcode == OP_LABEL {
        return None;
    }
    let mut operands: Vec<Operand> = Vec::new();
    let mut i: usize = 0;
    while i < misc.inputs.len()
        invariant
            i <= misc.inputs@.len(),
            operands@.len() == i,
            forall|j: int|
                0 <= j < i ==> input_resolved(#[trigger] misc.inputs@[j], ids@) && operands@[j]
                    == input_operand(misc.inputs@[j], ids@),
        decreases misc.inputs@.len() - i,
    {
        let input = misc.inputs[i];
        match input_new_operand(input, ids) {
            Some(operand) => {
                operands.push(operand);
            },
            None => {
                assert(!input_resolved(misc.inputs@[i as int], ids@));
                return None;
            },
        }
        i = i + 1;
    }
    let inst = Inst {
        opcode,
        result_type_id: new_result_type_id,
        result_id: new_result_id,
        operands,
    };
    assert(inst@ =~= spec_misc_inst(*misc, ids@));
    Some(inst)
}

/// A position in a source file, where the file is given by the ID of its path.
#[derive(Clone, Copy, Debug, PartialEq, Eq, Structural)]
pub struct DebugLine {
    pub file_path_id: Id,
    pub line: u32,
    pub col: u32,
}

/// The first line that the attributes give, if they give one.
pub open spec fn debug_line(attrs: Seq<Attr>, ids: IdMaps) -> Option<DebugLine>
    decreases attrs.len(),
{
    if attrs.len() == 0 {
        None
    } else {
        match attrs.first() {
            Attr::SpvDebugLine { file_path, line, col } => Some(
                DebugLine { file_path_id: ids.debug_strings[file_path], line, col },
            ),
            _ => debug_line(attrs.drop_first(), ids),
        }
    }
}

/// The line that an instruction comes from, if it is known.
pub open spec fn misc_line(cx: Context, misc: Misc, ids: IdMaps) -> Option<DebugLine> {
    debug_line(cx.spec_attrs(misc.attrs), ids)
}

/// Whether the paths of the files that the attributes of an instruction name have IDs.
pub open spec fn lines_have_ids(cx: Context, misc: Misc, ids: IdMaps) -> bool {
    attr_files(cx.spec_attrs(misc.attrs)).subset_of(ids.debug_strings.dom())
}

fn find_debug_line(cx: &Context, misc: &Misc, ids: &AllocatedIds) -> (r: Option<DebugLine>)
    requires
        cx.has_attrs(misc.attrs),
        lines_have_ids(*cx, *misc, ids@),
    ensures
        r == misc_line(*cx, *misc, ids@),
{
    let attrs = cx.attrs(misc.attrs);
    let mut i: usize = 0;
    assert(attrs@.skip(0) =~= attrs@);
    while i < attrs.len()
        invariant
            i <= attrs@.len(),
            attrs@ == cx.spec_attrs(misc.attrs),
            lines_have_ids(*cx, *misc, ids@),
            debug_line(attrs@.skip(i as int), ids@) == misc_line(*cx, *misc, ids@),
        decreases attrs@.len() - i,
    {
        assert(attr_file(attrs@[i as int]) matches Some(s) ==> attr_files(attrs@).contains(s));
        if let Attr::SpvDebugLine { file_path, line, col } = &attrs[i] {
            return Some(
                DebugLine {
                    file_path_id: order::value_of(&ids.debug_strings, *file_path),
                    line: *line,
                    col: *col,
                },
            );
        }
        assert(attrs@.skip(i as int).drop_first() =~= attrs@.skip(i + 1));
        i = i + 1;
    }
    None
}

/// The block that the instructions end in, or `None` if they end outside of any block.
pub open spec fn current_block(miscs: Seq<Misc>, ids: IdMaps) -> Option<Id>
    decreases miscs.len(),
{
    if miscs.len() == 0 {
        None
    } else if miscs.last().spec_opcode() == OP_LABEL {
        new_result_id(miscs.last(), ids)
    } else if miscs.last().spec_opcode() == OP_FUNCTION_END {
        None
    } else {
        current_block(miscs.drop_last(), ids)
    }
}

/// The line that is still in force just before the last of some instructions. A line does
/// not stay in force from one block to another.
pub open spec fn line_before_last(cx: Context, miscs: Seq<Misc>, ids: IdMaps) -> Option<DebugLine> {
    let earlier = miscs.drop_last();
    if earlier.len() == 0 || current_block(earlier, ids) != current_block(miscs, ids) {
        None
    } else {
        misc_line(cx, earlier.last(), ids)
    }
}

/// The instruction that puts a line in force, or that ends one.
pub open spec fn spec_line_inst(line: Option<DebugLine>) -> InstView {
    match line {
        Some(line) => plain_inst(
            OP_LINE,
            seq![
                Operand::Id(OperandKind::IdRef, line.file_path_id),
                short(OperandKind::LiteralInteger, line.line),
                short(OperandKind::LiteralInteger, line.col),
            ],
        ),
        None => plain_inst(OP_NO_LINE, seq![]),
    }
}

fn line_inst(line: Option<DebugLine>) -> (inst: Inst)
    ensures
        inst@ == spec_line_inst(line),
{
    match line {
        Some(line) => {
            let mut inst = bare_inst(OP_LINE);
            inst.operands.push(Operand::Id(OperandKind::IdRef, line.file_path_id));
            inst.operands.push(Operand::Imm(Imm::Short(OperandKind::LiteralInteger, line.line)));
            inst.operands.push(Operand::Imm(Imm::Short(OperandKind::LiteralInteger, line.col)));
            assert(inst@ =~= spec_line_inst(Some(line)));
            inst
        },
        None => bare_inst(OP_NO_LINE),
    }
}

/// The line instruction before the last of some instructions, if its line is not the one
/// in force.
pub open spec fn line_insts(cx: Context, miscs: Seq<Misc>, ids: IdMaps) -> Seq<InstView> {
    let line = misc_line(cx, miscs.last(), ids);
    if line_before_last(cx, miscs, ids) == line {
        seq![]
    } else {
        seq![spec_line_inst(line)]
    }
}

/// The last of some instructions with its new IDs, and the line instruction before it.
pub open spec fn last_insts(cx: Context, miscs: Seq<Misc>, ids: IdMaps) -> Seq<Option<InstView>> {
    if misc_resolved(miscs.last(), ids) {
        known(line_insts(cx, miscs, ids) + seq![spec_misc_inst(miscs.last(), ids)])
    } else {
        seq![None]
    }
}

/// Instructions with their new IDs, and with line instructions between them.
pub open spec fn body_insts(cx: Context, miscs: Seq<Misc>, ids: IdMaps) -> Seq<Option<InstView>>
    decreases miscs.len(),
{
    if miscs.len() == 0 {
        seq![]
    } else {
        body_insts(cx, miscs.drop_last(), ids) + last_insts(cx, miscs, ids)
    }
}

/// The instructions up to one of them come first.
pub(crate) proof fn lemma_body_prefix(cx: Context, miscs: Seq<Misc>, ids: IdMaps, n: int) -> (rest: Seq<
    Option<InstView>,
>)
    requires
        0 <= n <= miscs.len(),
    ensures
        body_insts(cx, miscs, ids) == body_insts(cx, miscs.take(n), ids) + rest,
    decreases miscs.len() - n,
{
    if n == miscs.len() {
        assert(miscs.take(n) =~= miscs);
        let rest = Seq::<Option<InstView>>::empty();
        assert(body_insts(cx, miscs, ids) =~= body_insts(cx, miscs.take(n), ids) + rest);
        rest
    } else {
        let rest = lemma_body_prefix(cx, miscs, ids, n + 1);
        assert(miscs.take(n + 1).drop_last() =~= miscs.take(n));
        let longer = last_insts(cx, miscs.take(n + 1), ids) + rest;
        assert(body_insts(cx, miscs, ids) =~= body_insts(cx, miscs.take(n), ids) + longer);
        longer
    }
}

fn same_line(a: Option<DebugLine>, b: Option<DebugLine>) -> (r: bool)
    ensures
        r == (a == b),
{
    match (a, b) {
        (Some(a), Some(b)) => a == b,
        (None, None) => true,
        _ => false,
    }
}

fn same_block(a: Option<Id>, b: Option<Id>) -> (r: bool)
    ensures
        r == (a == b),
{
    match (a, b) {
        (Some(a), Some(b)) => a == b,
        (None, None) => true,
        _ => false,
    }
}

/// Emits instructions with their new IDs, and with line instructions between them.
pub(crate) fn emit_body(
    emitter: &mut ModuleEmitter,
    cx: &Context,
    miscs: &Vec<&Misc>,
    ids: &AllocatedIds,
) -> (r: Result<(), Stop>)
    requires
        forall|i: int|
            0 <= i < miscs@.len() ==> cx.has_attrs((*#[trigger] miscs@[i]).attrs)
                && lines_have_ids(*cx, *miscs@[i], ids@),
    ensures
        match stop(body_insts(*cx, miscs@.unref(), ids@)) {
            Some(stop) => r == Err::<(), Stop>(stop),
            None => r is Ok && final(emitter).words@ == old(emitter).words@ + insts_words(
                resolved(body_insts(*cx, miscs@.unref(), ids@)),
            ),
        },
{
    let ghost all = miscs@.unref();
    let ghost insts = body_insts(*cx, all, ids@);
    let ghost start = emitter.words@;
    let mut current_debug_line: Option<DebugLine> = None;
    let mut current_block_id: Option<Id> = None;
    let mut i: usize = 0;
    proof {
        assert(all.take(0) =~= seq![]);
        assert(resolved(body_insts(*cx, all.take(0), ids@)) =~= seq![]);
        assert(emitter.words@ =~= start + seq![]);
    }
    while i < miscs.len()
        invariant
            i <= miscs@.len(),
            all == miscs@.unref(),
            insts == body_insts(*cx, all, ids@),
            forall|i: int|
                0 <= i < miscs@.len() ==> cx.has_attrs((*#[trigger] miscs@[i]).attrs)
                    && lines_have_ids(*cx, *miscs@[i], ids@),
            current_block_id == current_block(all.take(i as int), ids@),
            current_debug_line == (if i == 0 {
                None
            } else {
                misc_line(*cx, all[i - 1], ids@)
            }),
            stop(body_insts(*cx, all.take(i as int), ids@)) is None,
            emitter.words@ == start + insts_words(
                resolved(body_insts(*cx, all.take(i as int), ids@)),
            ),
        decreases miscs@.len() - i,
    {
        let ghost was = all.take(i as int);
        let ghost now = all.take(i + 1);
        let ghost part = last_insts(*cx, now, ids@);
        let misc = miscs[i];
        proof {
            assert(now.drop_last() =~= was);
            assert(now.last() == *misc);
            let rest = lemma_body_prefix(*cx, all, ids@, i + 1);
            lemma_stop_part(insts, body_insts(*cx, was, ids@), part, rest);
        }
        let inst = match misc_inst(misc, ids) {
            Some(inst) => inst,
            None => {
                proof {
                    lemma_stop_one(None);
                }
                return Err(Stop::Unresolved);
            },
        };

        // Reset line debuginfo when crossing/leaving blocks.
        let new_block_id: Option<Id> = if inst.opcode == OP_LABEL {
            inst.result_id
        } else if inst.opcode == OP_FUNCTION_END {
            None
        } else {
            current_block_id
        };
        assert(new_block_id == current_block(now, ids@));
        if !same_block(current_block_id, new_block_id) {
            current_debug_line = None;
        }
        assert(current_debug_line == line_before_last(*cx, now, ids@));
        current_block_id = new_block_id;

        // Determine whether to emit `OpLine`/`OpNoLine` before `inst`,
        // in order to end up with the expected line debuginfo.
        let new_debug_line = find_debug_line(cx, misc, ids);
        let mut group: Vec<Inst> = Vec::new();
        if !same_line(current_debug_line, new_debug_line) {
            group.push(line_inst(new_debug_line));
        }
        assert(inst_views(group@) =~= line_insts(*cx, now, ids@));
        current_debug_line = new_debug_line;
        let ghost with_inst = line_insts(*cx, now, ids@) + seq![inst@];
        group.push(inst);
        assert(inst_views(group@) =~= with_inst);
        proof {
            lemma_stop_known(with_inst);
        }
        match emitter.push_insts(&group) {
            Ok(()) => {},
            Err(e) => {
                return Err(e);
            },
        }
        assert(emitter.words@ =~= start + insts_words(resolved(body_insts(*cx, now, ids@))));
        i = i + 1;
    }
    assert(all.take(i as int) =~= all);
    Ok(())
}

} // verus!
