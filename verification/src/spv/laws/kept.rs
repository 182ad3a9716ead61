//! How the instructions of a lifted module relate to one another and to those of the module.
use crate::ir::{Attr, InternedStr, Misc, MiscInput, MiscKind, MiscOutput, Module};
use crate::spv::laws::exact::law_numbers_tell_apart;
use crate::spv::laws::lifted::law_lifted_module;
use crate::spv::laws::reading::{
    attached, attrs_of, between_cuts, cut, defines, describes, holds_piece, holds_text,
    imm_word, is_decoration, is_entry_point, is_execution_mode, is_input, is_name, is_own,
    is_result, numbers, opcode_of, own_insts, read_module, say_each, says, source_pieces, Line,
    Numbering, Parts, ReadInst,
};
use crate::spv::Id;
use vstd::prelude::*;
use vstd::utf8::encode_utf8;

verus! {

/// The instructions that a reader finds in a lifted module.
pub open spec fn found_insts(module: Module) -> Seq<ReadInst> {
    read_module(module.lifted_words()->Ok_0)->Some_0
}

/// How many IDs come before the inputs of an instruction.
pub open spec fn id_count(misc: Misc) -> int {
    match misc.output {
        Some(MiscOutput::SpvResult { result_type_id: Some(_), .. }) => 2,
        Some(MiscOutput::SpvResult { result_type_id: None, .. }) => 1,
        None => 0,
    }
}

/// The word of what an instruction defines.
pub open spec fn result_word(inst: ReadInst, misc: Misc) -> u32 {
    inst.args[id_count(misc) - 1]
}

proof fn lemma_flatten_last(groups: Seq<Seq<ReadInst>>) -> (at: Seq<int>)
    requires
        forall|i: int| 0 <= i < groups.len() ==> (#[trigger] groups[i]).len() > 0,
    ensures
        at.len() == groups.len(),
        forall|i: int, j: int| 0 <= i < j < at.len() ==> at[i] < at[j],
        forall|i: int|
            0 <= i < at.len() ==> 0 <= #[trigger] at[i] < groups.flatten().len()
                && groups.flatten()[at[i]] == groups[i].last(),
    decreases groups.len(),
{
    if groups.len() == 0 {
        seq![]
    } else {
        let rest = groups.drop_last();
        let last = groups[groups.len() - 1];
        assert forall|i: int| 0 <= i < rest.len() implies (#[trigger] rest[i]).len() > 0 by {
            assert(groups[i].len() > 0);
        }
        let before = lemma_flatten_last(rest);
        assert(groups =~= rest.push(last));
        rest.lemma_flatten_push(last);
        let n = rest.flatten().len();
        assert(groups.flatten() == rest.flatten() + last);
        let at = before.push(n + last.len() - 1);
        assert forall|i: int| 0 <= i < at.len() implies 0 <= #[trigger] at[i]
            < groups.flatten().len() && groups.flatten()[at[i]] == groups[i].last() by {
            if i < before.len() {
                assert(0 <= before[i] < n && rest.flatten()[before[i]] == rest[i].last());
            }
        }
        assert forall|i: int, j: int| 0 <= i < j < at.len() implies at[i] < at[j] by {
            assert(before[i] < n);
        }
        at
    }
}

proof fn lemma_flatten_contains<A>(lists: Seq<Seq<A>>, i: int, j: int)
    requires
        0 <= i < lists.len(),
        0 <= j < lists[i].len(),
    ensures
        lists.flatten().contains(lists[i][j]),
    decreases lists.len(),
{
    let rest = lists.drop_last();
    let last = lists[lists.len() - 1];
    assert(lists =~= rest.push(last));
    rest.lemma_flatten_push(last);
    let all = rest.flatten() + last;
    if i < rest.len() {
        lemma_flatten_contains(rest, i, j);
        let k = choose|k: int|
            0 <= k < rest.flatten().len() && rest.flatten()[k] == rest[i][j];
        assert(all[k] == lists[i][j]);
    } else {
        assert(all[rest.flatten().len() + j] == lists[i][j]);
    }
}

/// The instructions of the parts that are made from attributes are in the whole.
proof fn lemma_places(parts: Parts)
    ensures
        forall|k: int|
            0 <= k < parts.entry_points.len() ==> parts.all().contains(
                #[trigger] parts.entry_points[k],
            ),
        forall|k: int|
            0 <= k < parts.execution_modes.len() ==> parts.all().contains(
                #[trigger] parts.execution_modes[k],
            ),
        forall|k: int|
            0 <= k < parts.names.len() ==> parts.all().contains(#[trigger] parts.names[k]),
        forall|k: int|
            0 <= k < parts.decorations.len() ==> parts.all().contains(
                #[trigger] parts.decorations[k],
            ),
{
    let s4 = parts.capabilities + parts.extensions + parts.imports + seq![parts.memory_model];
    let s5 = s4 + parts.entry_points;
    let s8 = s5 + parts.execution_modes + parts.strings + parts.sources.flatten();
    let s9 = s8 + parts.source_extensions;
    let s11 = s9 + parts.names + parts.processes;
    assert forall|k: int| 0 <= k < parts.entry_points.len() implies parts.all().contains(
        #[trigger] parts.entry_points[k],
    ) by {
        assert(parts.all()[s4.len() + k] == parts.entry_points[k]);
    }
    assert forall|k: int| 0 <= k < parts.execution_modes.len() implies parts.all().contains(
        #[trigger] parts.execution_modes[k],
    ) by {
        assert(parts.all()[s5.len() + k] == parts.execution_modes[k]);
    }
    assert forall|k: int| 0 <= k < parts.names.len() implies parts.all().contains(
        #[trigger] parts.names[k],
    ) by {
        assert(parts.all()[s9.len() + k] == parts.names[k]);
    }
    assert forall|k: int| 0 <= k < parts.decorations.len() implies parts.all().contains(
        #[trigger] parts.decorations[k],
    ) by {
        assert(parts.all()[s11.len() + k] == parts.decorations[k]);
    }
}

/// Where the instructions of a module are in the lifted module.
spec fn places(module: Module, n: Numbering, at: Seq<int>) -> bool {
    let insts = found_insts(module);
    let miscs = own_insts(module);
    &&& numbers(module, n)
    &&& at.len() == miscs.len()
    &&& forall|i: int, j: int| 0 <= i < j < at.len() ==> at[i] < at[j]
    &&& forall|i: int|
        0 <= i < at.len() ==> 0 <= #[trigger] at[i] < insts.len() && is_own(
            insts[at[i]],
            miscs[i],
            n,
        )
}

proof fn lemma_found_places(module: Module) -> (found: (Numbering, Parts, Seq<int>))
    requires
        module.lifted_words() is Ok,
    ensures
        places(module, found.0, found.2),
        found_insts(module) == found.1.all(),
        forall|i: int|
            0 <= i < found.2.len() ==> #[trigger] found.2[i] >= found.1.all().len()
                - found.1.body.flatten().len(),
        exists|lines: Seq<Option<Line>>| #[trigger] describes(module, found.0, lines, found.1),
{
    let (n, lines, parts) = law_lifted_module(module);
    let miscs = own_insts(module);
    assert forall|i: int| 0 <= i < parts.body.len() implies (#[trigger] parts.body[i]).len() > 0
        && is_own(parts.body[i].last(), miscs[i], n) by {}
    let before = lemma_flatten_last(parts.body);
    let s = parts.all().len() - parts.body.flatten().len();
    let at = before.map_values(|p: int| s + p);
    assert forall|i: int| 0 <= i < at.len() implies 0 <= #[trigger] at[i] < parts.all().len()
        && is_own(parts.all()[at[i]], miscs[i], n) by {
        assert(0 <= before[i] < parts.body.flatten().len());
        assert(parts.all()[s + before[i]] == parts.body.flatten()[before[i]]);
    }
    (n, parts, at)
}

/// The instructions of a module are in the lifted module, in their order. Each has its opcode,
/// its type, its result and all its inputs: immediates as they are, and IDs so that the word
/// for an ID is the word of the result of the instruction that defines it. Different things are
/// referred to by different words.
pub proof fn law_own_insts_are_kept(module: Module) -> (at: Seq<int>)
    requires
        module.lifted_words() is Ok,
    ensures
        ({
            let insts = found_insts(module);
            let miscs = own_insts(module);
            &&& at.len() == miscs.len()
            &&& forall|i: int, j: int| 0 <= i < j < at.len() ==> at[i] < at[j]
            &&& forall|i: int|
                0 <= i < miscs.len() ==> {
                    let inst = insts[#[trigger] at[i]];
                    &&& 0 <= at[i] < insts.len()
                    &&& inst.opcode == (match miscs[i].kind {
                        MiscKind::SpvInst { opcode } => opcode,
                    })
                    &&& inst.args.len() == id_count(miscs[i]) + miscs[i].inputs@.len()
                }
            &&& forall|i: int, d: int|
                0 <= i < miscs.len() && 0 <= d < miscs.len() ==> (
                miscs[i].output matches Some(MiscOutput::SpvResult { result_type_id: Some(id), .. })
                    ==> defines(miscs[d], id) ==> insts[#[trigger] at[i]].args[0] == result_word(
                    insts[#[trigger] at[d]],
                    miscs[d],
                ))
            &&& forall|i: int, k: int|
                0 <= i < miscs.len() && 0 <= k < miscs[i].inputs@.len() ==> (
                #[trigger] miscs[i].inputs@[k] matches MiscInput::SpvImm(imm)
                    ==> insts[at[i]].args[id_count(miscs[i]) + k] == imm_word(imm))
            &&& forall|i: int, k: int, d: int|
                0 <= i < miscs.len() && 0 <= k < miscs[i].inputs@.len() && 0 <= d < miscs.len()
                    ==> (#[trigger] miscs[i].inputs@[k] matches MiscInput::SpvUntrackedId(id)
                    ==> defines(miscs[d], id) ==> insts[at[i]].args[id_count(miscs[i]) + k]
                    == result_word(insts[#[trigger] at[d]], miscs[d]))
            &&& forall|i: int, k: int, j: int, l: int|
                0 <= i < miscs.len() && 0 <= k < miscs[i].inputs@.len() && 0 <= j < miscs.len()
                    && 0 <= l < miscs[j].inputs@.len() ==> (
                #[trigger] miscs[i].inputs@[k] matches MiscInput::SpvExtInstImport(a)
                    ==> #[trigger] miscs[j].inputs@[l] matches MiscInput::SpvExtInstImport(b) ==> (
                insts[at[i]].args[id_count(miscs[i]) + k] == insts[at[j]].args[id_count(miscs[j])
                    + l] <==> a == b))
            &&& forall|d: int, e: int, x: Id, y: Id|
                0 <= d < miscs.len() && 0 <= e < miscs.len() && #[trigger] defines(miscs[d], x)
                    && #[trigger] defines(miscs[e], y) ==> (result_word(insts[at[d]], miscs[d])
                    == result_word(insts[at[e]], miscs[e]) <==> x == y)
        }),
{
    let (n, parts, at) = lemma_found_places(module);
    let insts = found_insts(module);
    let miscs = own_insts(module);
    assert forall|i: int| 0 <= i < miscs.len() implies 0 <= #[trigger] at[i] < insts.len() && is_own(
        insts[at[i]],
        miscs[i],
        n,
    ) by {}
    assert forall|d: int, x: Id|
        0 <= d < miscs.len() && #[trigger] defines(miscs[d], x) implies n.is_output(
        result_word(insts[at[d]], miscs[d]),
        x,
    ) by {
        assert(is_own(insts[at[d]], miscs[d], n));
        assert(is_result(insts[at[d]].args[id_count(miscs[d]) - 1], miscs[d], n));
    }
    assert forall|i: int, k: int|
        0 <= i < miscs.len() && 0 <= k < miscs[i].inputs@.len() implies is_input(
        insts[at[i]].args[id_count(miscs[i]) + k],
        #[trigger] miscs[i].inputs@[k],
        n,
    ) by {
        assert(is_own(insts[at[i]], miscs[i], n));
    }
    assert forall|i: int, d: int|
        0 <= i < miscs.len() && 0 <= d < miscs.len() implies (
    miscs[i].output matches Some(MiscOutput::SpvResult { result_type_id: Some(id), .. })
        ==> defines(miscs[d], id) ==> insts[#[trigger] at[i]].args[0] == result_word(
        insts[#[trigger] at[d]],
        miscs[d],
    )) by {
        if let Some(MiscOutput::SpvResult { result_type_id: Some(id), .. }) = miscs[i].output {
            if defines(miscs[d], id) {
                assert(is_own(insts[at[i]], miscs[i], n));
                law_numbers_tell_apart(
                    n,
                    insts[at[i]].args[0],
                    result_word(insts[at[d]], miscs[d]),
                    id,
                    id,
                );
            }
        }
    }
    assert forall|i: int, k: int, d: int|
        0 <= i < miscs.len() && 0 <= k < miscs[i].inputs@.len() && 0 <= d < miscs.len() implies (
    #[trigger] miscs[i].inputs@[k] matches MiscInput::SpvUntrackedId(id) ==> defines(miscs[d], id)
        ==> insts[at[i]].args[id_count(miscs[i]) + k] == result_word(
        insts[#[trigger] at[d]],
        miscs[d],
    )) by {
        if let MiscInput::SpvUntrackedId(id) = miscs[i].inputs@[k] {
            if defines(miscs[d], id) {
                law_numbers_tell_apart(
                    n,
                    insts[at[i]].args[id_count(miscs[i]) + k],
                    result_word(insts[at[d]], miscs[d]),
                    id,
                    id,
                );
            }
        }
    }
    assert forall|i: int, k: int, j: int, l: int|
        0 <= i < miscs.len() && 0 <= k < miscs[i].inputs@.len() && 0 <= j < miscs.len() && 0 <= l
            < miscs[j].inputs@.len() implies (
    #[trigger] miscs[i].inputs@[k] matches MiscInput::SpvExtInstImport(a)
        ==> #[trigger] miscs[j].inputs@[l] matches MiscInput::SpvExtInstImport(b) ==> (
    insts[at[i]].args[id_count(miscs[i]) + k] == insts[at[j]].args[id_count(miscs[j]) + l]
        <==> a == b)) by {
        if let MiscInput::SpvExtInstImport(a) = miscs[i].inputs@[k] {
            if let MiscInput::SpvExtInstImport(b) = miscs[j].inputs@[l] {
                law_numbers_tell_apart(
                    n,
                    insts[at[i]].args[id_count(miscs[i]) + k],
                    insts[at[j]].args[id_count(miscs[j]) + l],
                    a,
                    b,
                );
            }
        }
    }
    assert forall|d: int, e: int, x: Id, y: Id|
        0 <= d < miscs.len() && 0 <= e < miscs.len() && #[trigger] defines(miscs[d], x)
            && #[trigger] defines(miscs[e], y) implies (result_word(insts[at[d]], miscs[d])
        == result_word(insts[at[e]], miscs[e]) <==> x == y) by {
        law_numbers_tell_apart(
            n,
            result_word(insts[at[d]], miscs[d]),
            result_word(insts[at[e]], miscs[e]),
            x,
            y,
        );
    }
    at
}

/// Where what an attribute says can be found in the lifted module.
proof fn lemma_attr_found(
    module: Module,
    n: Numbering,
    lines: Seq<Option<Line>>,
    parts: Parts,
    i: int,
    j: int,
) -> (p: int)
    requires
        describes(module, n, lines, parts),
        0 <= i < own_insts(module).len(),
        0 <= j < attrs_of(module, own_insts(module)[i]).len(),
        !(attrs_of(module, own_insts(module)[i])[j] is SpvDebugLine),
    ensures
        0 <= p < parts.all().len(),
        says(
            parts.all()[p],
            own_insts(module)[i],
            attrs_of(module, own_insts(module)[i])[j],
            n,
        ),
{
    let misc = own_insts(module)[i];
    let attr = attrs_of(module, misc)[j];
    let f = |misc: Misc| attrs_of(module, misc).map_values(|attr: Attr| (misc, attr));
    let lists = own_insts(module).map_values(f);
    let all = attached(module);
    assert(all =~= lists.flatten());
    lemma_flatten_contains(lists, i, j);
    assert(lists[i][j] == (misc, attr));
    let a = choose|a: int| 0 <= a < all.len() && all[a] == (misc, attr);
    lemma_places(parts);
    let (insts, picked) = if is_entry_point(attr) {
        let pred = |a: (Misc, Attr)| is_entry_point(a.1);
        all.lemma_filter_contains(pred, a);
        (parts.entry_points, all.filter(pred))
    } else if is_execution_mode(attr) {
        let pred = |a: (Misc, Attr)| is_execution_mode(a.1);
        all.lemma_filter_contains(pred, a);
        (parts.execution_modes, all.filter(pred))
    } else if is_name(attr) {
        let pred = |a: (Misc, Attr)| is_name(a.1);
        all.lemma_filter_contains(pred, a);
        (parts.names, all.filter(pred))
    } else {
        let pred = |a: (Misc, Attr)| is_decoration(a.1);
        all.lemma_filter_contains(pred, a);
        (parts.decorations, all.filter(pred))
    };
    let q = choose|q: int| 0 <= q < picked.len() && picked[q] == (misc, attr);
    assert(say_each(insts, picked, n));
    assert(says(insts[q], misc, attr, n));
    assert(parts.all().contains(insts[q]));
    choose|p: int| 0 <= p < parts.all().len() && parts.all()[p] == insts[q]
}

/// What an attribute says is said in full in the lifted module. The instruction is about the
/// word of the result of what the attribute is attached to. A name, an execution mode or a
/// decoration has all the parameters, in their order. An entry point has them too, and after
/// them, for each ID in the interface, the word of the result of what defines it.
pub proof fn law_attrs_are_said(module: Module, i: int, j: int) -> (found: (Seq<int>, int))
    requires
        module.lifted_words() is Ok,
        0 <= i < own_insts(module).len(),
        0 <= j < attrs_of(module, own_insts(module)[i]).len(),
        !(attrs_of(module, own_insts(module)[i])[j] is SpvDebugLine),
    ensures
        ({
            let insts = found_insts(module);
            let miscs = own_insts(module);
            let (at, p) = found;
            let inst = insts[p];
            let target = result_word(insts[at[i]], miscs[i]);
            &&& at.len() == miscs.len()
            &&& forall|d: int| 0 <= d < at.len() ==> 0 <= #[trigger] at[d] < insts.len()
            &&& forall|d: int|
                0 <= d < at.len() ==> insts[#[trigger] at[d]].opcode == opcode_of(miscs[d])
            &&& 0 <= p < insts.len()
            &&& miscs[i].output is Some
            &&& match attrs_of(module, miscs[i])[j] {
                Attr::SpvAnnotation { opcode, params } => {
                    &&& inst.opcode == opcode
                    &&& inst.args.len() == 1 + params@.len()
                    &&& inst.args[0] == target
                    &&& forall|k: int|
                        0 <= k < params@.len() ==> inst.args[1 + k] == imm_word(
                            #[trigger] params@[k],
                        )
                },
                Attr::SpvEntryPoint { params, interface_ids } => {
                    &&& inst.opcode == 15
                    &&& inst.args.len() == 1 + params@.len() + interface_ids@.len()
                    &&& inst.args[0] == imm_word(params@[0])
                    &&& inst.args[1] == target
                    &&& forall|k: int|
                        1 <= k < params@.len() ==> inst.args[1 + k] == imm_word(
                            #[trigger] params@[k],
                        )
                    &&& forall|k: int, d: int|
                        0 <= k < interface_ids@.len() && 0 <= d < miscs.len() && defines(
                            miscs[d],
                            #[trigger] interface_ids@[k],
                        ) ==> inst.args[1 + params@.len() + k] == result_word(
                            insts[#[trigger] at[d]],
                            miscs[d],
                        )
                },
                Attr::SpvDebugLine { .. } => false,
            }
        }),
{
    let (n, parts, at) = lemma_found_places(module);
    let lines = choose|lines: Seq<Option<Line>>| #[trigger] describes(module, n, lines, parts);
    let p = lemma_attr_found(module, n, lines, parts, i, j);
    let insts = found_insts(module);
    let miscs = own_insts(module);
    let inst = insts[p];
    let attr = attrs_of(module, miscs[i])[j];
    assert forall|d: int| 0 <= d < at.len() implies 0 <= #[trigger] at[d] < insts.len() && is_own(
        insts[at[d]],
        miscs[d],
        n,
    ) by {}
    assert forall|d: int, x: Id|
        0 <= d < miscs.len() && #[trigger] defines(miscs[d], x) implies n.is_output(
        result_word(insts[at[d]], miscs[d]),
        x,
    ) by {
        assert(is_own(insts[at[d]], miscs[d], n));
        assert(is_result(insts[at[d]].args[id_count(miscs[d]) - 1], miscs[d], n));
    }
    assert(says(inst, miscs[i], attr, n));
    if let Some(MiscOutput::SpvResult { result_id, .. }) = miscs[i].output {
        let word = if attr is SpvEntryPoint {
            inst.args[1]
        } else {
            inst.args[0]
        };
        assert(defines(miscs[i], result_id));
        law_numbers_tell_apart(
            n,
            word,
            result_word(insts[at[i]], miscs[i]),
            result_id,
            result_id,
        );
    }
    if let Attr::SpvEntryPoint { params, interface_ids } = attr {
        assert forall|k: int, d: int|
            0 <= k < interface_ids@.len() && 0 <= d < miscs.len() && defines(
                miscs[d],
                #[trigger] interface_ids@[k],
            ) implies inst.args[1 + params@.len() + k] == result_word(
            insts[#[trigger] at[d]],
            miscs[d],
        ) by {
            law_numbers_tell_apart(
                n,
                inst.args[1 + params@.len() + k],
                result_word(insts[at[d]], miscs[d]),
                interface_ids@[k],
                interface_ids@[k],
            );
        }
    }
    (at, p)
}

proof fn lemma_cuts_join(text: Seq<u8>, n: int)
    requires
        n >= 1,
        n > 1 ==> cut(n - 1) < text.len(),
    ensures
        Seq::new(n as nat, |k: int| between_cuts(text, k)).flatten() == text.take(
            if cut(n) <= text.len() {
                cut(n)
            } else {
                text.len() as int
            },
        ),
    decreases n,
{
    let chunks = Seq::new(n as nat, |k: int| between_cuts(text, k));
    if n == 1 {
        chunks.lemma_flatten_one_element();
        assert(chunks.flatten() =~= between_cuts(text, 0));
        assert(between_cuts(text, 0) =~= text.take(
            if cut(1) <= text.len() {
                cut(1)
            } else {
                text.len() as int
            },
        ));
    } else {
        lemma_cuts_join(text, n - 1);
        let before = Seq::new((n - 1) as nat, |k: int| between_cuts(text, k));
        assert(chunks =~= before.push(between_cuts(text, n - 1)));
        before.lemma_flatten_push(between_cuts(text, n - 1));
        assert(chunks.flatten() =~= text.take(
            if cut(n) <= text.len() {
                cut(n)
            } else {
                text.len() as int
            },
        ));
    }
}

/// All source code can be read from a lifted module: for each file of each language, in their
/// order, there is an instruction with the language, its version and a word for the path, and
/// the bytes of its string, joined with those of the instructions that directly continue it,
/// are the contents of the file. There is nothing else between these. Files with different
/// paths have different words.
pub proof fn law_sources_read_back(module: Module) -> (found: (int, Seq<Seq<ReadInst>>))
    requires
        module.lifted_words() is Ok,
    ensures
        ({
            let (start, groups) = found;
            let pieces = source_pieces(module);
            &&& 0 <= start
            &&& start + groups.flatten().len() <= found_insts(module).len()
            &&& found_insts(module).subrange(start, start + groups.flatten().len())
                == groups.flatten()
            &&& groups.len() == pieces.len()
            &&& forall|i: int|
                0 <= i < pieces.len() ==> {
                    let group = #[trigger] groups[i];
                    &&& group.len() > 0
                    &&& group[0].opcode == 3
                    &&& group[0].args[0] == pieces[i].0.lang
                    &&& group[0].args[1] == pieces[i].0.version
                    &&& pieces[i].1 is None ==> group.len() == 1 && group[0].args.len() == 2
                    &&& forall|k: int|
                        1 <= k < group.len() ==> (#[trigger] group[k]).opcode == 2
                    &&& pieces[i].1 matches Some((_, contents)) ==> exists|chunks: Seq<Seq<u8>>|
                        {
                            &&& #[trigger] chunks.flatten() == encode_utf8(contents@)
                            &&& chunks.len() == group.len()
                            &&& holds_text(group[0].args.skip(3), chunks[0])
                            &&& forall|k: int|
                                1 <= k < group.len() ==> holds_text(
                                    (#[trigger] group[k]).args,
                                    chunks[k],
                                )
                        }
                }
            &&& forall|i: int, j: int|
                0 <= i < pieces.len() && 0 <= j < pieces.len() ==> (
                #[trigger] pieces[i].1 matches Some((a, _)) ==> #[trigger] pieces[j].1 matches Some(
                    (b, _),
                ) ==> (groups[i][0].args[2] == groups[j][0].args[2] <==> a == b))
        }),
{
    let (n, lines, parts) = law_lifted_module(module);
    let pieces = source_pieces(module);
    let groups = parts.sources;
    let before = parts.capabilities + parts.extensions + parts.imports + seq![parts.memory_model]
        + parts.entry_points + parts.execution_modes + parts.strings;
    let start = before.len() as int;
    assert(parts.all().subrange(start, start + groups.flatten().len()) =~= groups.flatten());
    assert forall|i: int| 0 <= i < pieces.len() implies {
        let group = #[trigger] groups[i];
        &&& holds_piece(group, pieces[i], n)
        &&& forall|k: int| 1 <= k < group.len() ==> (#[trigger] group[k]).opcode == 2
        &&& pieces[i].1 matches Some((_, contents)) ==> exists|chunks: Seq<Seq<u8>>|
            {
                &&& #[trigger] chunks.flatten() == encode_utf8(contents@)
                &&& chunks.len() == group.len()
                &&& holds_text(group[0].args.skip(3), chunks[0])
                &&& forall|k: int|
                    1 <= k < group.len() ==> holds_text((#[trigger] group[k]).args, chunks[k])
            }
    } by {
        let group = groups[i];
        assert(holds_piece(group, pieces[i], n));
        if let Some((path, contents)) = pieces[i].1 {
            let text = encode_utf8(contents@);
            let chunks = Seq::new(group.len(), |k: int| between_cuts(text, k));
            lemma_cuts_join(text, group.len() as int);
            assert(text.take(text.len() as int) =~= text);
            assert(chunks.flatten() == text);
            assert forall|k: int| 1 <= k < group.len() implies holds_text(
                (#[trigger] group[k]).args,
                chunks[k],
            ) by {}
        }
    }
    assert forall|i: int, j: int| 0 <= i < pieces.len() && 0 <= j < pieces.len() implies (
    #[trigger] pieces[i].1 matches Some((a, _)) ==> #[trigger] pieces[j].1 matches Some((b, _))
        ==> (groups[i][0].args[2] == groups[j][0].args[2] <==> a == b)) by {
        if let Some((a, _)) = pieces[i].1 {
            if let Some((b, _)) = pieces[j].1 {
                assert(holds_piece(groups[i], pieces[i], n));
                assert(holds_piece(groups[j], pieces[j], n));
                law_numbers_tell_apart(n, groups[i][0].args[2], groups[j][0].args[2], a, b);
            }
        }
    }
    (start, groups)
}

/// Whether an instruction defines an interned string.
spec fn defines_text(inst: ReadInst, opcode: int, word: u32, text: Seq<u8>) -> bool {
    &&& inst.opcode == opcode
    &&& inst.args.len() > 0
    &&& inst.args[0] == word
    &&& holds_text(inst.args.skip(1), text)
}

proof fn lemma_import_found(
    module: Module,
    n: Numbering,
    parts: Parts,
    word: u32,
    name: InternedStr,
) -> (p: int)
    requires
        exists|lines: Seq<Option<Line>>| #[trigger] describes(module, n, lines, parts),
        n.is_import(word, name),
    ensures
        0 <= p < parts.all().len() - parts.body.flatten().len(),
        name < module.cx.strings@.len(),
        defines_text(
            parts.all()[p],
            11,
            word,
            encode_utf8(module.cx.strings@[name as int]@),
        ),
{
    let lines = choose|lines: Seq<Option<Line>>| #[trigger] describes(module, n, lines, parts);
    let k = choose|k: int|
        0 <= k < n.imports.len() && #[trigger] n.imports[k] == name && word == 1 + k;
    let before = parts.capabilities + parts.extensions;
    assert(parts.imports[k].args[0] == 1 + k);
    assert(parts.all()[before.len() + k] == parts.imports[k]);
    before.len() + k
}

proof fn lemma_string_found(
    module: Module,
    n: Numbering,
    parts: Parts,
    word: u32,
    s: InternedStr,
) -> (p: int)
    requires
        exists|lines: Seq<Option<Line>>| #[trigger] describes(module, n, lines, parts),
        n.is_string(word, s),
    ensures
        0 <= p < parts.all().len(),
        s < module.cx.strings@.len(),
        defines_text(parts.all()[p], 7, word, encode_utf8(module.cx.strings@[s as int]@)),
{
    let lines = choose|lines: Seq<Option<Line>>| #[trigger] describes(module, n, lines, parts);
    let k = choose|k: int|
        0 <= k < n.strings.len() && #[trigger] n.strings[k] == s && word == 1 + n.imports.len() + k;
    let before = parts.capabilities + parts.extensions + parts.imports + seq![parts.memory_model]
        + parts.entry_points + parts.execution_modes;
    assert(parts.strings[k].args[0] == 1 + n.imports.len() + k);
    assert(parts.all()[before.len() + k] == parts.strings[k]);
    before.len() + k
}

/// Where an instruction has an imported instruction set as an input, the lifted module imports
/// the set of that name, and defines the word for the input by it.
pub proof fn law_imports_are_found(module: Module, i: int, k: int) -> (found: (Seq<int>, int))
    requires
        module.lifted_words() is Ok,
        0 <= i < own_insts(module).len(),
        0 <= k < own_insts(module)[i].inputs@.len(),
        own_insts(module)[i].inputs@[k] is SpvExtInstImport,
    ensures
        ({
            let insts = found_insts(module);
            let misc = own_insts(module)[i];
            let (at, p) = found;
            let name = misc.inputs@[k]->SpvExtInstImport_0;
            &&& at.len() == own_insts(module).len()
            &&& 0 <= at[i] < insts.len()
            &&& insts[at[i]].opcode == opcode_of(misc)
            &&& 0 <= p < at[i]
            &&& insts[p].opcode == 11
            &&& insts[p].args.len() > 0
            &&& insts[p].args[0] == insts[at[i]].args[id_count(misc) + k]
            &&& name < module.cx.strings@.len()
            &&& holds_text(
                insts[p].args.skip(1),
                encode_utf8(module.cx.strings@[name as int]@),
            )
        }),
{
    let (n, parts, at) = lemma_found_places(module);
    let misc = own_insts(module)[i];
    let insts = found_insts(module);
    assert(0 <= at[i] < insts.len() && is_own(insts[at[i]], misc, n));
    let word = insts[at[i]].args[id_count(misc) + k];
    assert(is_input(word, misc.inputs@[k], n));
    let p = lemma_import_found(module, n, parts, word, misc.inputs@[k]->SpvExtInstImport_0);
    (at, p)
}

/// The word for the path of a source file is that of a definition of the path.
pub proof fn law_paths_are_found(module: Module, i: int) -> (found: (Seq<Seq<ReadInst>>, int))
    requires
        module.lifted_words() is Ok,
        0 <= i < source_pieces(module).len(),
        source_pieces(module)[i].1 is Some,
    ensures
        ({
            let insts = found_insts(module);
            let (groups, p) = found;
            let path = (source_pieces(module)[i].1->0).0;
            &&& groups.len() == source_pieces(module).len()
            &&& groups[i].len() > 0
            &&& groups[i][0].opcode == 3
            &&& groups[i][0].args.len() > 2
            &&& insts.contains(groups[i][0])
            &&& 0 <= p < insts.len()
            &&& insts[p].opcode == 7
            &&& insts[p].args.len() > 0
            &&& insts[p].args[0] == groups[i][0].args[2]
            &&& path < module.cx.strings@.len()
            &&& holds_text(
                insts[p].args.skip(1),
                encode_utf8(module.cx.strings@[path as int]@),
            )
        }),
{
    let (n, lines, parts) = law_lifted_module(module);
    let insts = found_insts(module);
    let groups = parts.sources;
    let pieces = source_pieces(module);
    assert(holds_piece(groups[i], pieces[i], n));
    let path = (pieces[i].1->0).0;
    let p = lemma_string_found(module, n, parts, groups[i][0].args[2], path);
    lemma_flatten_contains(groups, i, 0);
    let q = choose|q: int|
        0 <= q < groups.flatten().len() && groups.flatten()[q] == groups[i][0];
    let before = parts.capabilities + parts.extensions + parts.imports + seq![parts.memory_model]
        + parts.entry_points + parts.execution_modes + parts.strings;
    assert(insts[before.len() + q] == groups[i][0]);
    (groups, p)
}

} // verus!
