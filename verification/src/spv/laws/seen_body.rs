//! That the instructions of a module, and their lines, can be read from the lifted module.
use crate::ir::{Attr, Context, Misc, MiscOutput, Module};
use crate::spv::attrs::new_result_id;
use crate::spv::body::{
    body_insts, current_block, debug_line, input_operand, input_resolved, line_before_last,
    line_insts, lines_have_ids, misc_line, misc_resolved, spec_line_inst, spec_misc_inst, DebugLine,
};
use crate::spv::grammar::{OP_FUNCTION_END, OP_LABEL};
use crate::spv::ids::IdMaps;
use crate::spv::laws::reading::{
    are_lines, are_own, attrs_of, changes_block, defines, gives_line, in_block, is_first_line,
    is_input, is_own, line_in_force, opcode_of, own_insts, stays_in_block, Line, Numbering,
    ReadInst,
};
use crate::spv::laws::seen::{all_seen, ids_numbered, lemma_own_insts, seen};
use crate::spv::needs::{attr_file, attr_files};
use crate::spv::write::{operand_word, optional_id, resolved};
use crate::spv::{Id, Operand};
use vstd::prelude::*;

verus! {

proof fn lemma_misc_seen(misc: Misc, ids: IdMaps, n: Numbering)
    requires
        ids_numbered(ids, n),
        misc_resolved(misc, ids),
    ensures
        is_own(seen(spec_misc_inst(misc, ids)), misc, n),
{
    let view = spec_misc_inst(misc, ids);
    let inst = seen(view);
    let head = optional_id(view.result_type_id) + optional_id(view.result_id);
    assert forall|k: int| 0 <= k < misc.inputs@.len() implies is_input(
        inst.args[head.len() + k],
        #[trigger] misc.inputs@[k],
        n,
    ) by {
        assert(input_resolved(misc.inputs@[k], ids));
        assert(view.operands[k] == input_operand(misc.inputs@[k], ids));
        assert(inst.args[head.len() + k] == operand_word(view.operands[k]));
    }
    if let Some(MiscOutput::SpvResult { result_type_id, result_id }) = misc.output {
        assert(ids.old_outputs.contains_key(result_id));
        assert(inst.args[head.len() - 1] == ids.old_outputs[result_id]);
        if let Some(old_id) = result_type_id {
            assert(ids.old_outputs.contains_key(old_id));
            assert(inst.args[0] == ids.old_outputs[old_id]);
        }
    }
}

/// The line that attributes give, by the path of the file.
pub(crate) open spec fn attrs_line(attrs: Seq<Attr>) -> Option<Line>
    decreases attrs.len(),
{
    if attrs.len() == 0 {
        None
    } else {
        match attrs[0] {
            Attr::SpvDebugLine { file_path, line, col } => Some((file_path, line, col)),
            _ => attrs_line(attrs.drop_first()),
        }
    }
}

/// A line, with the ID of the path.
pub(crate) open spec fn with_id(line: Option<Line>, ids: IdMaps) -> Option<DebugLine> {
    match line {
        Some((file_path, line, col)) => Some(
            DebugLine { file_path_id: ids.debug_strings[file_path], line, col },
        ),
        None => None,
    }
}

pub(crate) proof fn lemma_attrs_line(attrs: Seq<Attr>, ids: IdMaps)
    ensures
        debug_line(attrs, ids) == with_id(attrs_line(attrs), ids),
        is_first_line(attrs, attrs_line(attrs)),
        attrs_line(attrs) matches Some((path, _, _)) ==> attr_files(attrs).contains(path),
    decreases attrs.len(),
{
    if attrs.len() > 0 {
        let rest = attrs.drop_first();
        lemma_attrs_line(rest, ids);
        match attrs[0] {
            Attr::SpvDebugLine { file_path, line, col } => {
                assert(attr_file(attrs[0]) == Some(file_path));
            },
            _ => {
                match attrs_line(rest) {
                    Some((file_path, line, col)) => {
                        let j = choose|j: int|
                            {
                                &&& 0 <= j < rest.len()
                                &&& #[trigger] rest[j] == (Attr::SpvDebugLine {
                                    file_path,
                                    line,
                                    col,
                                })
                                &&& forall|k: int|
                                    0 <= k < j ==> !(#[trigger] rest[k] is SpvDebugLine)
                            };
                        assert(attrs[j + 1] == rest[j]);
                        assert forall|k: int| 0 <= k < j + 1 implies !(
                        #[trigger] attrs[k] is SpvDebugLine) by {
                            if k > 0 {
                                assert(!(rest[k - 1] is SpvDebugLine));
                            }
                        }
                        assert(attr_file(attrs[j + 1]) == Some(file_path));
                    },
                    None => {
                        assert forall|k: int| 0 <= k < attrs.len() implies !(
                        #[trigger] attrs[k] is SpvDebugLine) by {
                            if k > 0 {
                                assert(!(rest[k - 1] is SpvDebugLine));
                            }
                        }
                    },
                }
            },
        }
    }
}

/// The lines of instructions, by the paths of the files.
pub(crate) open spec fn lines_of(cx: Context, miscs: Seq<Misc>) -> Seq<Option<Line>> {
    miscs.map_values(|misc: Misc| attrs_line(cx.spec_attrs(misc.attrs)))
}

pub(crate) proof fn lemma_lines(module: Module)
    ensures
        are_lines(module, lines_of(module.spec_cx(), module.miscs())),
{
    let lines = lines_of(module.spec_cx(), module.miscs());
    lemma_own_insts(module);
    assert forall|i: int| 0 <= i < lines.len() implies is_first_line(
        attrs_of(module, own_insts(module)[i]),
        #[trigger] lines[i],
    ) by {
        lemma_attrs_line(attrs_of(module, own_insts(module)[i]), module.new_ids());
    }
}

/// The block of the last of some instructions, by where it starts.
proof fn lemma_current_block(miscs: Seq<Misc>, ids: IdMaps)
    requires
        forall|i: int| 0 <= i < miscs.len() ==> misc_resolved(#[trigger] miscs[i], ids),
    ensures
        current_block(miscs, ids) matches Some(id) ==> exists|k: int| #[trigger]
            in_block(miscs, miscs.len() - 1, k) && new_result_id(miscs[k], ids) == Some(id),
        current_block(miscs, ids) is None ==> forall|k: int|
            !#[trigger] in_block(miscs, miscs.len() - 1, k),
    decreases miscs.len(),
{
    if miscs.len() > 0 {
        let n = miscs.len() - 1;
        let rest = miscs.drop_last();
        assert forall|i: int| 0 <= i < rest.len() implies misc_resolved(#[trigger] rest[i], ids) by {
            assert(misc_resolved(miscs[i], ids));
        }
        assert(misc_resolved(miscs[n], ids));
        if miscs[n].spec_opcode() == OP_LABEL {
            assert(in_block(miscs, n, n));
        } else if miscs[n].spec_opcode() == OP_FUNCTION_END {
            assert forall|k: int| !#[trigger] in_block(miscs, n, k) by {
                if in_block(miscs, n, k) {
                    assert(changes_block(miscs[n]));
                }
            }
        } else {
            lemma_current_block(rest, ids);
            assert forall|k: int| #[trigger] in_block(miscs, n, k) <==> in_block(
                rest,
                n - 1,
                k,
            ) by {
                if in_block(miscs, n, k) {
                    assert forall|l: int| k < l <= n - 1 implies !changes_block(
                        #[trigger] rest[l],
                    ) by {
                        assert(!changes_block(miscs[l]));
                    }
                }
                if in_block(rest, n - 1, k) {
                    assert forall|l: int| k < l <= n implies !changes_block(
                        #[trigger] miscs[l],
                    ) by {
                        if l < n {
                            assert(!changes_block(rest[l]));
                        }
                    }
                }
            }
            if let Some(id) = current_block(miscs, ids) {
                let k = choose|k: int| #[trigger]
                    in_block(rest, n - 1, k) && new_result_id(rest[k], ids) == Some(id);
                assert(in_block(miscs, n, k) && new_result_id(miscs[k], ids) == Some(id));
            }
        }
    }
}

/// Only one block is the block of an instruction.
proof fn lemma_one_block(miscs: Seq<Misc>, i: int, k: int, l: int)
    requires
        in_block(miscs, i, k),
        in_block(miscs, i, l),
    ensures
        k == l,
{
    if k < l {
        assert(changes_block(miscs[l]));
    }
    if l < k {
        assert(changes_block(miscs[k]));
    }
}

/// Whether two IDs are the same tells whether they were before.
pub(crate) open spec fn outputs_differ(ids: IdMaps) -> bool {
    &&& forall|a: Id, b: Id|
        ids.old_outputs.contains_key(a) && ids.old_outputs.contains_key(b) && a != b
            ==> #[trigger] ids.old_outputs[a] != #[trigger] ids.old_outputs[b]
    &&& forall|a: u32, b: u32|
        ids.debug_strings.contains_key(a) && ids.debug_strings.contains_key(b) && a != b
            ==> #[trigger] ids.debug_strings[a] != #[trigger] ids.debug_strings[b]
}

proof fn lemma_stays(miscs: Seq<Misc>, ids: IdMaps, i: int)
    requires
        0 < i < miscs.len(),
        outputs_differ(ids),
        forall|i: int| 0 <= i < miscs.len() ==> misc_resolved(#[trigger] miscs[i], ids),
    ensures
        stays_in_block(miscs, i) <==> current_block(miscs.take(i), ids) == current_block(
            miscs.take(i + 1),
            ids,
        ),
{
    let was = miscs.take(i);
    let now = miscs.take(i + 1);
    assert forall|k: int| 0 <= k < was.len() implies misc_resolved(#[trigger] was[k], ids) by {
        assert(misc_resolved(miscs[k], ids));
    }
    assert(now.drop_last() =~= was);
    assert(now.last() == miscs[i]);
    assert(misc_resolved(miscs[i], ids));
    lemma_current_block(was, ids);
    assert forall|k: int| #[trigger] in_block(miscs, i - 1, k) <==> in_block(was, i - 1, k) by {
        if in_block(miscs, i - 1, k) {
            assert forall|l: int| k < l <= i - 1 implies !changes_block(#[trigger] was[l]) by {
                assert(!changes_block(miscs[l]));
            }
        }
        if in_block(was, i - 1, k) {
            assert forall|l: int| k < l <= i - 1 implies !changes_block(#[trigger] miscs[l]) by {
                assert(!changes_block(was[l]));
            }
        }
    }
    if opcode_of(miscs[i]) == OP_LABEL {
        let new = miscs[i].spec_result_id()->0;
        assert(ids.old_outputs.contains_key(new));
        if current_block(was, ids) == current_block(now, ids) {
            let id = current_block(was, ids)->0;
            let k = choose|k: int| #[trigger]
                in_block(was, i - 1, k) && new_result_id(was[k], ids) == Some(id);
            assert(misc_resolved(miscs[k], ids));
            assert(was[k].spec_result_id() == Some(new));
            assert(in_block(miscs, i - 1, k));
            assert(defines(miscs[k], new) && defines(miscs[i], new));
        }
        if stays_in_block(miscs, i) {
            let k = choose|k: int|
                #[trigger] in_block(miscs, i - 1, k) && exists|id: Id| #[trigger]
                    defines(miscs[k], id) && defines(miscs[i], id);
            assert(in_block(was, i - 1, k));
            let id = current_block(was, ids)->0;
            let l = choose|l: int| #[trigger]
                in_block(was, i - 1, l) && new_result_id(was[l], ids) == Some(id);
            lemma_one_block(was, i - 1, k, l);
        }
    } else if opcode_of(miscs[i]) == OP_FUNCTION_END {
        if let Some(id) = current_block(was, ids) {
            let k = choose|k: int| #[trigger]
                in_block(was, i - 1, k) && new_result_id(was[k], ids) == Some(id);
            assert(in_block(miscs, i - 1, k));
        }
    }
}

proof fn lemma_line_seen(line: Option<Line>, ids: IdMaps, n: Numbering)
    requires
        ids_numbered(ids, n),
        line matches Some((path, _, _)) ==> ids.debug_strings.contains_key(path),
    ensures
        gives_line(seen(spec_line_inst(with_id(line, ids))), line, n),
{
    let view = spec_line_inst(with_id(line, ids));
    assert(seen(view).args =~= view.operands.map_values(|o: Operand| operand_word(o)));
}

/// The instruction at `i` can be read, and so can its line.
proof fn lemma_group_seen(cx: Context, miscs: Seq<Misc>, ids: IdMaps, n: Numbering, i: int)
    requires
        0 <= i < miscs.len(),
        ids_numbered(ids, n),
        outputs_differ(ids),
        forall|i: int| 0 <= i < miscs.len() ==> misc_resolved(#[trigger] miscs[i], ids),
        forall|i: int| 0 <= i < miscs.len() ==> lines_have_ids(cx, #[trigger] miscs[i], ids),
    ensures
        ({
            let lines = lines_of(cx, miscs);
            let now = miscs.take(i + 1);
            let group = all_seen(line_insts(cx, now, ids) + seq![spec_misc_inst(miscs[i], ids)]);
            &&& if lines[i] == line_in_force(miscs, lines, i) {
                group.len() == 1
            } else {
                group.len() == 2 && gives_line(group[0], lines[i], n)
            }
            &&& is_own(group.last(), miscs[i], n)
        }),
{
    let lines = lines_of(cx, miscs);
    let now = miscs.take(i + 1);
    let was = miscs.take(i);
    let extra = line_insts(cx, now, ids);
    let group = all_seen(extra + seq![spec_misc_inst(miscs[i], ids)]);
    assert(now.last() == miscs[i]);
    assert(now.drop_last() =~= was);
    assert(misc_resolved(miscs[i], ids));
    lemma_misc_seen(miscs[i], ids, n);
    assert(group.last() == seen(spec_misc_inst(miscs[i], ids)));
    let attrs = cx.spec_attrs(miscs[i].attrs);
    lemma_attrs_line(attrs, ids);
    assert(lines_have_ids(cx, miscs[i], ids));
    assert(misc_line(cx, miscs[i], ids) == with_id(lines[i], ids));
    lemma_line_seen(lines[i], ids, n);
    if i > 0 {
        lemma_stays(miscs, ids, i);
        assert(was.last() == miscs[i - 1]);
        lemma_attrs_line(cx.spec_attrs(miscs[i - 1].attrs), ids);
        assert(lines_have_ids(cx, miscs[i - 1], ids));
        assert(misc_line(cx, miscs[i - 1], ids) == with_id(lines[i - 1], ids));
    }
    let force = line_in_force(miscs, lines, i);
    assert(line_before_last(cx, now, ids) == with_id(force, ids));
    assert(with_id(lines[i], ids) == with_id(force, ids) <==> lines[i] == force);
    if extra.len() > 0 {
        assert(group[0] == seen(spec_line_inst(with_id(lines[i], ids))));
    }
}

/// The instructions of a module, and their lines, can be read.
pub(crate) proof fn lemma_body_seen(
    cx: Context,
    miscs: Seq<Misc>,
    ids: IdMaps,
    n: Numbering,
) -> (groups: Seq<Seq<ReadInst>>)
    requires
        ids_numbered(ids, n),
        outputs_differ(ids),
        forall|i: int| 0 <= i < miscs.len() ==> misc_resolved(#[trigger] miscs[i], ids),
        forall|i: int| 0 <= i < miscs.len() ==> lines_have_ids(cx, #[trigger] miscs[i], ids),
    ensures
        are_own(groups, miscs, lines_of(cx, miscs), n),
        groups.flatten() == all_seen(resolved(body_insts(cx, miscs, ids))),
{
    let groups = Seq::new(
        miscs.len(),
        |i: int|
            all_seen(line_insts(cx, miscs.take(i + 1), ids) + seq![spec_misc_inst(miscs[i], ids)]),
    );
    assert forall|i: int| 0 <= i < miscs.len() implies {
        let group = #[trigger] groups[i];
        let lines = lines_of(cx, miscs);
        &&& if lines[i] == line_in_force(miscs, lines, i) {
            group.len() == 1
        } else {
            group.len() == 2 && gives_line(group[0], lines[i], n)
        }
        &&& is_own(group.last(), miscs[i], n)
    } by {
        lemma_group_seen(cx, miscs, ids, n, i);
    }
    lemma_body_flatten(cx, miscs, ids, groups, miscs.len() as int);
    assert(groups.take(miscs.len() as int) =~= groups);
    assert(miscs.take(miscs.len() as int) =~= miscs);
    groups
}

proof fn lemma_body_flatten(
    cx: Context,
    miscs: Seq<Misc>,
    ids: IdMaps,
    groups: Seq<Seq<ReadInst>>,
    i: int,
)
    requires
        0 <= i <= miscs.len(),
        forall|i: int| 0 <= i < miscs.len() ==> misc_resolved(#[trigger] miscs[i], ids),
        groups.len() == miscs.len(),
        forall|i: int|
            0 <= i < miscs.len() ==> #[trigger] groups[i] == all_seen(
                line_insts(cx, miscs.take(i + 1), ids) + seq![spec_misc_inst(miscs[i], ids)],
            ),
    ensures
        groups.take(i).flatten() == all_seen(resolved(body_insts(cx, miscs.take(i), ids))),
    decreases i,
{
    if i == 0 {
        assert(groups.take(0).flatten() =~= all_seen(
            resolved(body_insts(cx, miscs.take(0), ids)),
        ));
    } else {
        lemma_body_flatten(cx, miscs, ids, groups, i - 1);
        let now = miscs.take(i);
        let was = miscs.take(i - 1);
        assert(now.drop_last() =~= was);
        assert(now.last() == miscs[i - 1]);
        assert(misc_resolved(miscs[i - 1], ids));
        assert(groups.take(i) =~= groups.take(i - 1).push(groups[i - 1]));
        groups.take(i - 1).lemma_flatten_push(groups[i - 1]);
        assert(all_seen(resolved(body_insts(cx, now, ids))) =~= all_seen(
            resolved(body_insts(cx, was, ids)),
        ) + groups[i - 1]);
    }
}

} // verus!
