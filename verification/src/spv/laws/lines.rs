//! What becomes of a module's own instructions, and what line information a reader gets.
use crate::ir::{Attr, Context, Misc};
use crate::spv::body::{
    body_insts, current_block, line_insts, misc_line, misc_resolved, spec_line_inst, spec_misc_inst,
    DebugLine,
};
use crate::spv::grammar::{OP_FUNCTION_END, OP_LABEL, OP_LINE, OP_NO_LINE};
use crate::spv::ids::IdMaps;
use crate::spv::laws::seen_body::{attrs_line, lemma_attrs_line, with_id};
use crate::spv::write::{operand_word, resolved};
use crate::spv::{Id, InstView};
use vstd::prelude::*;

verus! {

/// The state of someone who reads instructions and keeps track of lines.
#[verifier::ext_equal]
pub struct LineReader {
    /// The block that the last instruction is in, if it is in one.
    pub block: Option<Id>,
    /// The line of the last instruction, if it has one.
    pub line: Option<DebugLine>,
    /// What line instructions say about the next instruction, if there are any.
    pub upcoming: Option<Option<DebugLine>>,
    /// The lines of all instructions so far, other than line instructions.
    pub lines: Seq<Option<DebugLine>>,
}

impl LineReader {
    /// The state after one more instruction. A line stays in force for the instructions that
    /// follow, until another line instruction, or until the block changes.
    pub open spec fn next(self, inst: InstView) -> LineReader {
        if inst.opcode == OP_LINE {
            let line = DebugLine {
                file_path_id: operand_word(inst.operands[0]),
                line: operand_word(inst.operands[1]),
                col: operand_word(inst.operands[2]),
            };
            LineReader { upcoming: Some(Some(line)), ..self }
        } else if inst.opcode == OP_NO_LINE {
            LineReader { upcoming: Some(None), ..self }
        } else {
            let block = if inst.opcode == OP_LABEL {
                inst.result_id
            } else if inst.opcode == OP_FUNCTION_END {
                None
            } else {
                self.block
            };
            let line = match self.upcoming {
                Some(line) => line,
                None => if block == self.block {
                    self.line
                } else {
                    None
                },
            };
            LineReader { block, line, upcoming: None, lines: self.lines.push(line) }
        }
    }
}

/// The state after some instructions.
pub open spec fn read_lines(insts: Seq<InstView>) -> LineReader
    decreases insts.len(),
{
    if insts.len() == 0 {
        LineReader { block: None, line: None, upcoming: None, lines: seq![] }
    } else {
        read_lines(insts.drop_last()).next(insts.last())
    }
}

/// A reader of a lifted module finds for each instruction the line that is attached to it.
/// That takes instructions that are not line instructions themselves.
pub proof fn law_lines_read_back(cx: Context, miscs: Seq<Misc>, ids: IdMaps)
    requires
        forall|i: int|
            0 <= i < miscs.len() ==> {
                &&& misc_resolved(#[trigger] miscs[i], ids)
                &&& miscs[i].spec_opcode() != OP_LINE
                &&& miscs[i].spec_opcode() != OP_NO_LINE
            },
    ensures
        read_lines(resolved(body_insts(cx, miscs, ids))).lines == miscs.map_values(
            |misc: Misc| misc_line(cx, misc, ids),
        ),
{
    lemma_read_lines(cx, miscs, ids);
}

/// A reader of a lifted module finds for an instruction the line that the first of its
/// attributes with line information gives, whatever other attributes there are, and none only
/// if no attribute has any. That takes instructions that are not line instructions themselves.
pub proof fn law_first_line_reads_back(cx: Context, miscs: Seq<Misc>, ids: IdMaps, i: int)
    requires
        0 <= i < miscs.len(),
        forall|i: int|
            0 <= i < miscs.len() ==> {
                &&& misc_resolved(#[trigger] miscs[i], ids)
                &&& miscs[i].spec_opcode() != OP_LINE
                &&& miscs[i].spec_opcode() != OP_NO_LINE
            },
    ensures
        ({
            let attrs = cx.attr_sets@[miscs[i].attrs as int].attrs@;
            let read = read_lines(resolved(body_insts(cx, miscs, ids))).lines;
            &&& read.len() == miscs.len()
            &&& forall|j: int, file_path: u32, line: u32, col: u32|
                0 <= j < attrs.len() && (#[trigger] attrs[j]) == (#[trigger] line_attr(
                    file_path,
                    line,
                    col,
                )) && (forall|k: int| 0 <= k < j ==> !(#[trigger] attrs[k] is SpvDebugLine))
                    ==> read[i] == Some(
                    DebugLine { file_path_id: ids.debug_strings[file_path], line, col },
                )
            &&& (forall|k: int| 0 <= k < attrs.len() ==> !(#[trigger] attrs[k] is SpvDebugLine))
                ==> read[i] is None
        }),
{
    let attrs = cx.attr_sets@[miscs[i].attrs as int].attrs@;
    let read = read_lines(resolved(body_insts(cx, miscs, ids))).lines;
    law_lines_read_back(cx, miscs, ids);
    lemma_attrs_line(attrs, ids);
    let found = attrs_line(attrs);
    assert(read[i] == with_id(found, ids));
    assert forall|j: int, file_path: u32, line: u32, col: u32|
        0 <= j < attrs.len() && (#[trigger] attrs[j]) == (#[trigger] line_attr(
            file_path,
            line,
            col,
        )) && (forall|k: int| 0 <= k < j ==> !(#[trigger] attrs[k] is SpvDebugLine)) implies read[i]
        == Some(DebugLine { file_path_id: ids.debug_strings[file_path], line, col }) by {
        assert(attrs[j] is SpvDebugLine);
        assert(found is Some);
        let (f, l, c) = found->0;
        let m = choose|m: int|
            {
                &&& 0 <= m < attrs.len()
                &&& #[trigger] attrs[m] == (Attr::SpvDebugLine { file_path: f, line: l, col: c })
                &&& forall|k: int| 0 <= k < m ==> !(#[trigger] attrs[k] is SpvDebugLine)
            };
        assert(attrs[m] is SpvDebugLine);
        assert(m == j);
    }
}

/// The attribute that gives a line.
pub open spec fn line_attr(file_path: u32, line: u32, col: u32) -> Attr {
    Attr::SpvDebugLine { file_path, line, col }
}

proof fn lemma_read_lines(cx: Context, miscs: Seq<Misc>, ids: IdMaps)
    requires
        forall|i: int|
            0 <= i < miscs.len() ==> {
                &&& misc_resolved(#[trigger] miscs[i], ids)
                &&& miscs[i].spec_opcode() != OP_LINE
                &&& miscs[i].spec_opcode() != OP_NO_LINE
            },
    ensures
        read_lines(resolved(body_insts(cx, miscs, ids))) == (LineReader {
            block: current_block(miscs, ids),
            line: if miscs.len() == 0 {
                None
            } else {
                misc_line(cx, miscs.last(), ids)
            },
            upcoming: None,
            lines: miscs.map_values(|misc: Misc| misc_line(cx, misc, ids)),
        }),
    decreases miscs.len(),
{
    let lines = miscs.map_values(|misc: Misc| misc_line(cx, misc, ids));
    let insts = resolved(body_insts(cx, miscs, ids));
    if miscs.len() == 0 {
        assert(insts =~= seq![]);
        assert(lines =~= seq![]);
    } else {
        let rest = miscs.drop_last();
        let misc = miscs[miscs.len() - 1];
        assert forall|i: int| 0 <= i < rest.len() implies {
            &&& misc_resolved(#[trigger] rest[i], ids)
            &&& rest[i].spec_opcode() != OP_LINE
            &&& rest[i].spec_opcode() != OP_NO_LINE
        } by {
            assert(misc_resolved(miscs[i], ids));
        }
        lemma_read_lines(cx, rest, ids);
        assert(misc_resolved(misc, ids));
        let before = resolved(body_insts(cx, rest, ids));
        let extra = line_insts(cx, miscs, ids);
        let inst = spec_misc_inst(misc, ids);
        assert(insts =~= before + extra + seq![inst]);
        assert(insts.drop_last() =~= before + extra);
        let line = misc_line(cx, misc, ids);
        let state = read_lines(before);
        if extra.len() == 0 {
            assert(before + extra =~= before);
        } else {
            assert((before + extra).drop_last() =~= before);
            assert((before + extra).last() == spec_line_inst(line));
        }
        let mid = read_lines(before + extra);
        assert(mid == LineReader {
            upcoming: if extra.len() == 0 {
                None
            } else {
                Some(line)
            },
            ..state
        });
        assert(inst.opcode == misc.spec_opcode());
        assert(read_lines(insts) == mid.next(inst));
        assert(mid.next(inst).block == current_block(miscs, ids));
        assert(mid.next(inst).line == line);
        assert(lines =~= rest.map_values(|misc: Misc| misc_line(cx, misc, ids)).push(line));
    }
}

/// Each instruction of the module is emitted with its new IDs, in its turn, with at most a line
/// instruction before it, and nothing else is emitted.
pub proof fn law_body_groups(cx: Context, miscs: Seq<Misc>, ids: IdMaps, i: int)
    requires
        0 <= i < miscs.len(),
        forall|k: int| 0 <= k < miscs.len() ==> misc_resolved(#[trigger] miscs[k], ids),
    ensures
        ({
            let body = resolved(body_insts(cx, miscs, ids));
            let start = body_insts(cx, miscs.take(i), ids).len();
            let end = body_insts(cx, miscs.take(i + 1), ids).len();
            let lines = line_insts(cx, miscs.take(i + 1), ids);
            &&& i == 0 ==> start == 0
            &&& i == miscs.len() - 1 ==> end == body.len()
            &&& end <= body.len()
            &&& end == start + lines.len() + 1
            &&& lines.len() <= 1
            &&& lines.len() == 1 ==> body[start as int] == spec_line_inst(
                misc_line(cx, miscs[i], ids),
            )
            &&& body[end - 1] == spec_misc_inst(miscs[i], ids)
        }),
    decreases miscs.len(),
{
    let rest = miscs.drop_last();
    let body = resolved(body_insts(cx, miscs, ids));
    let before = resolved(body_insts(cx, rest, ids));
    let group = line_insts(cx, miscs, ids) + seq![spec_misc_inst(miscs.last(), ids)];
    assert(misc_resolved(miscs[miscs.len() - 1], ids));
    assert(body =~= before + group);
    if i == rest.len() {
        assert(miscs.take(i) =~= rest);
        assert(miscs.take(i + 1) =~= miscs);
    } else {
        assert forall|k: int| 0 <= k < rest.len() implies misc_resolved(
            #[trigger] rest[k],
            ids,
        ) by {
            assert(misc_resolved(miscs[k], ids));
        }
        law_body_groups(cx, rest, ids, i);
        assert(rest.take(i) =~= miscs.take(i));
        assert(rest.take(i + 1) =~= miscs.take(i + 1));
    }
}

} // verus!
