//! What IDs the instructions of a lifted module mention.
use crate::ir::{Attr, Context, InternedStr, Misc, Module};
use crate::order;
use crate::order::ascending;
use crate::spv::attrs::{
    attr_inst, attr_resolved, attr_section, attrs_insts, attrs_resolved, imm_operands,
    misc_attrs_insts, misc_attrs_resolved, new_result_id, old_id_operands, section_insts,
    AttrSection,
};
use crate::spv::body::{
    body_insts, debug_line, input_operand, input_resolved, last_insts, line_insts, lines_have_ids,
    misc_line, misc_resolved, spec_line_inst, spec_misc_inst,
};
use crate::spv::grammar::{
    Opcode, OP_EXTENSION, OP_EXT_INST_IMPORT, OP_MODULE_PROCESSED, OP_SOURCE_EXTENSION, OP_STRING,
};
use crate::spv::ids::IdMaps;
use crate::spv::laws::ids::law_ids_are_dense;
use crate::spv::laws::module::{
    all_known, law_layout, lemma_all_known_parts, lemma_emission_parts, lemma_stop_none,
};
use crate::spv::lift::{lemma_ids_cover_needs, lemma_misc_needs_covered};
use crate::spv::needs::{attr_file, attr_files, file_paths, misc_needs, source_paths};
use crate::spv::sections::{capability_inst, interned_insts, spec_string_insts};
use crate::spv::sources::{file_insts, files_insts, initial_inst, lang_insts, source_insts};
use crate::spv::write::resolved;
use crate::spv::{DebugSourceLang, DebugSources, Id, InstView, Operand};
use vstd::prelude::*;
use vstd::utf8::encode_utf8;

verus! {

/// Whether an ID is from 1 up to the bound.
pub open spec fn id_in_range(id: Id, bound: nat) -> bool {
    1 <= id < bound
}

/// Whether all the IDs in an instruction are from 1 up to the bound.
pub open spec fn inst_in_range(inst: InstView, bound: nat) -> bool {
    &&& inst.result_type_id matches Some(id) ==> id_in_range(id, bound)
    &&& inst.result_id matches Some(id) ==> id_in_range(id, bound)
    &&& forall|i: int|
        0 <= i < inst.operands.len() ==> (#[trigger] inst.operands[i] matches Operand::Id(_, id)
            ==> id_in_range(id, bound))
}

/// Whether all the IDs in instructions are from 1 up to the bound.
pub open spec fn all_in_range(insts: Seq<InstView>, bound: nat) -> bool {
    forall|i: int| 0 <= i < insts.len() ==> inst_in_range(#[trigger] insts[i], bound)
}

/// Whether all the IDs that have been given out are from 1 up to the bound.
pub open spec fn ids_in_range(ids: IdMaps, bound: nat) -> bool {
    &&& forall|x: u32| #[trigger]
        ids.ext_inst_imports.contains_key(x) ==> id_in_range(ids.ext_inst_imports[x], bound)
    &&& forall|x: u32| #[trigger]
        ids.debug_strings.contains_key(x) ==> id_in_range(ids.debug_strings[x], bound)
    &&& forall|x: u32| #[trigger]
        ids.old_outputs.contains_key(x) ==> id_in_range(ids.old_outputs[x], bound)
}

proof fn lemma_all_in_range_add(a: Seq<InstView>, b: Seq<InstView>, bound: nat)
    requires
        all_in_range(a, bound),
        all_in_range(b, bound),
    ensures
        all_in_range(a + b, bound),
{
    assert forall|i: int| 0 <= i < (a + b).len() implies inst_in_range(
        #[trigger] (a + b)[i],
        bound,
    ) by {
        if i < a.len() {
            assert(inst_in_range(a[i], bound));
        } else {
            assert(inst_in_range(b[i - a.len()], bound));
        }
    }
}

proof fn lemma_new_ids_in_range(module: Module)
    requires
        module.id_bound() <= u32::MAX,
    ensures
        ids_in_range(module.new_ids(), module.id_bound()),
{
    let ids = module.new_ids();
    let needs = module.needs_ids();
    lemma_ids_cover_needs(module);
    law_ids_are_dense(needs);
    let all = ids.ext_inst_imports.values().union(ids.debug_strings.values()).union(
        ids.old_outputs.values(),
    );
    assert forall|x: u32| #[trigger] ids.ext_inst_imports.contains_key(x) implies id_in_range(
        ids.ext_inst_imports[x],
        module.id_bound(),
    ) by {
        assert(ids.ext_inst_imports.values().contains(ids.ext_inst_imports[x]));
        assert(all.contains(ids.ext_inst_imports[x]));
    }
    assert forall|x: u32| #[trigger] ids.debug_strings.contains_key(x) implies id_in_range(
        ids.debug_strings[x],
        module.id_bound(),
    ) by {
        assert(ids.debug_strings.values().contains(ids.debug_strings[x]));
        assert(all.contains(ids.debug_strings[x]));
    }
    assert forall|x: u32| #[trigger] ids.old_outputs.contains_key(x) implies id_in_range(
        ids.old_outputs[x],
        module.id_bound(),
    ) by {
        assert(ids.old_outputs.values().contains(ids.old_outputs[x]));
        assert(all.contains(ids.old_outputs[x]));
    }
}

proof fn lemma_interned_in_range(opcode: Opcode, cx: Context, ids: Map<InternedStr, Id>, bound: nat)
    requires
        ids.dom().finite(),
        all_known(interned_insts(opcode, cx, ids)),
        forall|x: u32| #[trigger] ids.contains_key(x) ==> id_in_range(ids[x], bound),
    ensures
        all_in_range(resolved(interned_insts(opcode, cx, ids)), bound),
{
    let names = ascending(ids.dom());
    let insts = interned_insts(opcode, cx, ids);
    order::lemma_ascending(ids.dom());
    assert forall|i: int| 0 <= i < resolved(insts).len() implies inst_in_range(
        #[trigger] resolved(insts)[i],
        bound,
    ) by {
        assert(insts[i] is Some);
        assert(names.to_set().contains(names[i]));
        assert(ids.contains_key(names[i]));
    }
}

proof fn lemma_attrs_in_range(
    attrs: Seq<Attr>,
    misc: Misc,
    target_id: Id,
    ids: IdMaps,
    section: AttrSection,
    bound: nat,
)
    requires
        ids_in_range(ids, bound),
        id_in_range(target_id, bound),
        forall|i: int| 0 <= i < attrs.len() ==> attr_resolved(misc, #[trigger] attrs[i], ids),
    ensures
        all_in_range(attrs_insts(attrs, target_id, ids, section), bound),
    decreases attrs.len(),
{
    if attrs.len() > 0 {
        let rest = attrs.drop_last();
        assert forall|i: int| 0 <= i < rest.len() implies attr_resolved(
            misc,
            #[trigger] rest[i],
            ids,
        ) by {
            assert(attr_resolved(misc, attrs[i], ids));
        }
        lemma_attrs_in_range(rest, misc, target_id, ids, section, bound);
        let attr = attrs[attrs.len() - 1];
        assert(attr_resolved(misc, attr, ids));
        if attr_section(attr) == Some(section) {
            let inst = attr_inst(attr, target_id, ids);
            if let Attr::SpvEntryPoint { params, interface_ids } = attr {
                let head = 2 + imm_operands(params@.skip(1)).len();
                assert forall|i: int| 0 <= i < inst.operands.len() implies (
                #[trigger] inst.operands[i] matches Operand::Id(_, id) ==> id_in_range(
                    id,
                    bound,
                )) by {
                    if i >= head {
                        assert(inst.operands[i] == old_id_operands(interface_ids@, ids)[i - head]);
                        assert(ids.old_outputs.contains_key(interface_ids@[i - head]));
                    }
                }
            }
            assert(inst_in_range(inst, bound));
        }
    }
}

proof fn lemma_section_in_range(
    cx: Context,
    ids: IdMaps,
    miscs: Seq<Misc>,
    section: AttrSection,
    bound: nat,
)
    requires
        ids_in_range(ids, bound),
        attrs_resolved(cx, miscs, ids),
        forall|i: int|
            0 <= i < miscs.len() ==> ((#[trigger] miscs[i]).spec_result_id() matches Some(id)
                ==> ids.old_outputs.contains_key(id)),
    ensures
        all_in_range(section_insts(cx, ids, miscs, section), bound),
    decreases miscs.len(),
{
    if miscs.len() > 0 {
        let rest = miscs.drop_last();
        let misc = miscs[miscs.len() - 1];
        assert forall|i: int| 0 <= i < rest.len() implies misc_attrs_resolved(
            cx,
            #[trigger] rest[i],
            ids,
        ) && (rest[i].spec_result_id() matches Some(id) ==> ids.old_outputs.contains_key(id)) by {
            assert(misc_attrs_resolved(cx, miscs[i], ids));
        }
        lemma_section_in_range(cx, ids, rest, section, bound);
        assert(misc_attrs_resolved(cx, misc, ids));
        if let Some(id) = new_result_id(misc, ids) {
            lemma_attrs_in_range(cx.spec_attrs(misc.attrs), misc, id, ids, section, bound);
        }
        lemma_all_in_range_add(
            section_insts(cx, ids, rest, section),
            misc_attrs_insts(cx, ids, misc, section),
            bound,
        );
    }
}

proof fn lemma_files_in_range(
    lang: DebugSourceLang,
    files: Seq<(InternedStr, String)>,
    ids: IdMaps,
    bound: nat,
)
    requires
        ids_in_range(ids, bound),
        file_paths(files).subset_of(ids.debug_strings.dom()),
    ensures
        all_in_range(files_insts(lang, files, ids), bound),
    decreases files.len(),
{
    if files.len() > 0 {
        let rest = files.drop_last();
        let (path, contents) = files.last();
        assert forall|s: u32| file_paths(rest).contains(s) implies file_paths(files).contains(s) by {
            let i = choose|i: int| 0 <= i < rest.len() && (#[trigger] rest[i]).0 == s;
            assert(files[i].0 == s);
        }
        lemma_files_in_range(lang, rest, ids, bound);
        assert(files[files.len() - 1].0 == path);
        assert(file_paths(files).contains(path));
        assert(ids.debug_strings.contains_key(path));
        let file_id = ids.debug_strings[path];
        let bytes = encode_utf8(contents@);
        assert(inst_in_range(initial_inst(lang, file_id, bytes), bound));
        assert(all_in_range(file_insts(lang, file_id, bytes), bound));
        lemma_all_in_range_add(
            files_insts(lang, rest, ids),
            file_insts(lang, file_id, bytes),
            bound,
        );
    }
}

proof fn lemma_sources_in_range(
    languages: Seq<(DebugSourceLang, DebugSources)>,
    ids: IdMaps,
    bound: nat,
)
    requires
        ids_in_range(ids, bound),
        source_paths(languages).subset_of(ids.debug_strings.dom()),
    ensures
        all_in_range(source_insts(languages, ids), bound),
    decreases languages.len(),
{
    if languages.len() > 0 {
        let rest = languages.drop_last();
        let (lang, sources) = languages.last();
        assert forall|s: u32| source_paths(rest).contains(s) implies source_paths(
            languages,
        ).contains(s) by {
            let i = choose|i: int|
                0 <= i < rest.len() && file_paths(
                    (#[trigger] rest[i]).1.file_contents@,
                ).contains(s);
            assert(file_paths(languages[i].1.file_contents@).contains(s));
        }
        assert forall|s: u32| file_paths(sources.file_contents@).contains(s) implies source_paths(
            languages,
        ).contains(s) by {
            assert(file_paths(languages[languages.len() - 1].1.file_contents@).contains(s));
        }
        lemma_sources_in_range(rest, ids, bound);
        lemma_files_in_range(lang, sources.file_contents@, ids, bound);
        assert(all_in_range(lang_insts(lang, sources, ids), bound));
        lemma_all_in_range_add(
            source_insts(rest, ids),
            lang_insts(lang, sources, ids),
            bound,
        );
    }
}

proof fn lemma_line_in_range(attrs: Seq<Attr>, ids: IdMaps, bound: nat)
    requires
        ids_in_range(ids, bound),
        attr_files(attrs).subset_of(ids.debug_strings.dom()),
    ensures
        debug_line(attrs, ids) matches Some(line) ==> id_in_range(line.file_path_id, bound),
    decreases attrs.len(),
{
    if attrs.len() > 0 {
        let rest = attrs.drop_first();
        assert forall|s: u32| attr_files(rest).contains(s) implies attr_files(attrs).contains(s) by {
            let i = choose|i: int|
                0 <= i < rest.len() && attr_file(#[trigger] rest[i]) == Some(s);
            assert(attr_file(attrs[i + 1]) == Some(s));
        }
        lemma_line_in_range(rest, ids, bound);
        if let Some(file) = attr_file(attrs[0]) {
            assert(attr_files(attrs).contains(file));
            assert(ids.debug_strings.contains_key(file));
        }
    }
}

proof fn lemma_body_in_range(cx: Context, miscs: Seq<Misc>, ids: IdMaps, bound: nat)
    requires
        ids_in_range(ids, bound),
        all_known(body_insts(cx, miscs, ids)),
        forall|i: int| 0 <= i < miscs.len() ==> lines_have_ids(cx, #[trigger] miscs[i], ids),
    ensures
        all_in_range(resolved(body_insts(cx, miscs, ids)), bound),
    decreases miscs.len(),
{
    if miscs.len() > 0 {
        let rest = miscs.drop_last();
        let misc = miscs[miscs.len() - 1];
        let last = last_insts(cx, miscs, ids);
        lemma_all_known_parts(body_insts(cx, rest, ids), last);
        assert forall|i: int| 0 <= i < rest.len() implies lines_have_ids(
            cx,
            #[trigger] rest[i],
            ids,
        ) by {
            assert(lines_have_ids(cx, miscs[i], ids));
        }
        lemma_body_in_range(cx, rest, ids, bound);
        assert(lines_have_ids(cx, misc, ids));
        lemma_line_in_range(cx.spec_attrs(misc.attrs), ids, bound);
        if !misc_resolved(misc, ids) {
            assert(last[0] is None);
        }
        let inst = spec_misc_inst(misc, ids);
        assert forall|i: int| 0 <= i < inst.operands.len() implies (
        #[trigger] inst.operands[i] matches Operand::Id(_, id) ==> id_in_range(id, bound)) by {
            assert(input_resolved(misc.inputs@[i], ids));
            assert(inst.operands[i] == input_operand(misc.inputs@[i], ids));
        }
        assert(inst_in_range(inst, bound));
        assert(inst_in_range(spec_line_inst(misc_line(cx, misc, ids)), bound));
        let group = line_insts(cx, miscs, ids) + seq![inst];
        assert(resolved(last) =~= group);
        assert(all_in_range(group, bound));
        lemma_all_in_range_add(resolved(body_insts(cx, rest, ids)), resolved(last), bound);
        assert(resolved(body_insts(cx, miscs, ids)) =~= resolved(body_insts(cx, rest, ids))
            + resolved(last));
    }
}

/// Whether there are no IDs in an instruction.
spec fn has_no_ids(inst: InstView) -> bool {
    &&& inst.result_type_id is None
    &&& inst.result_id is None
    &&& forall|i: int| 0 <= i < inst.operands.len() ==> (#[trigger] inst.operands[i]) is Imm
}

proof fn lemma_no_ids_in_range(insts: Seq<InstView>, bound: nat)
    requires
        forall|i: int| 0 <= i < insts.len() ==> has_no_ids(#[trigger] insts[i]),
    ensures
        all_in_range(insts, bound),
{
    assert forall|i: int| 0 <= i < insts.len() implies inst_in_range(#[trigger] insts[i], bound) by {
        assert(has_no_ids(insts[i]));
    }
}

/// All the IDs that a lifted module mentions are from 1 up to the bound in its header.
pub proof fn law_ids_below_bound(module: Module)
    requires
        module.lifted_words() is Ok,
    ensures
        all_in_range(module.lifted_insts(), module.id_bound()),
        module.lifted_header()[3] == module.id_bound(),
{
    let cx = module.spec_cx();
    let dialect = module.dialect->Spv_0;
    let debug_info = module.debug_info->Spv_0;
    let miscs = module.miscs();
    let ids = module.new_ids();
    let bound = module.id_bound();
    law_layout(module);
    lemma_stop_none(module.emission());
    lemma_emission_parts(module);
    lemma_ids_cover_needs(module);
    lemma_new_ids_in_range(module);
    assert forall|i: int| 0 <= i < miscs.len() implies lines_have_ids(cx, #[trigger] miscs[i], ids)
        && (miscs[i].spec_result_id() matches Some(id) ==> ids.old_outputs.contains_key(id)) by {
        lemma_misc_needs_covered(module, i);
        if let Some(id) = miscs[i].spec_result_id() {
            assert(misc_needs(cx, miscs[i]).old_outputs.contains(id));
        }
    }
    assert(source_paths(debug_info.source_languages@).subset_of(ids.debug_strings.dom()));
    let capabilities = dialect.capabilities@.map_values(|cap: u32| capability_inst(cap));
    lemma_no_ids_in_range(capabilities, bound);
    lemma_no_ids_in_range(spec_string_insts(OP_EXTENSION, dialect.extensions@), bound);
    lemma_interned_in_range(OP_EXT_INST_IMPORT, cx, ids.ext_inst_imports, bound);
    lemma_no_ids_in_range(seq![dialect.spec_memory_model_inst()], bound);
    lemma_section_in_range(cx, ids, miscs, AttrSection::EntryPoints, bound);
    lemma_section_in_range(cx, ids, miscs, AttrSection::ExecutionModes, bound);
    lemma_interned_in_range(OP_STRING, cx, ids.debug_strings, bound);
    lemma_sources_in_range(debug_info.source_languages@, ids, bound);
    lemma_no_ids_in_range(
        spec_string_insts(OP_SOURCE_EXTENSION, debug_info.source_extensions@),
        bound,
    );
    lemma_section_in_range(cx, ids, miscs, AttrSection::DebugNames, bound);
    lemma_no_ids_in_range(
        spec_string_insts(OP_MODULE_PROCESSED, debug_info.module_processes@),
        bound,
    );
    lemma_section_in_range(cx, ids, miscs, AttrSection::Decorations, bound);
    lemma_body_in_range(cx, miscs, ids, bound);
    let s1 = capabilities;
    let s2 = s1 + spec_string_insts(OP_EXTENSION, dialect.extensions@);
    let s3 = s2 + resolved(interned_insts(OP_EXT_INST_IMPORT, cx, ids.ext_inst_imports));
    let s4 = s3 + seq![dialect.spec_memory_model_inst()];
    let s5 = s4 + section_insts(cx, ids, miscs, AttrSection::EntryPoints);
    let s6 = s5 + section_insts(cx, ids, miscs, AttrSection::ExecutionModes);
    let s7 = s6 + resolved(interned_insts(OP_STRING, cx, ids.debug_strings));
    let s8 = s7 + source_insts(debug_info.source_languages@, ids);
    let s9 = s8 + spec_string_insts(OP_SOURCE_EXTENSION, debug_info.source_extensions@);
    let s10 = s9 + section_insts(cx, ids, miscs, AttrSection::DebugNames);
    let s11 = s10 + spec_string_insts(OP_MODULE_PROCESSED, debug_info.module_processes@);
    let s12 = s11 + section_insts(cx, ids, miscs, AttrSection::Decorations);
    lemma_all_in_range_add(s1, spec_string_insts(OP_EXTENSION, dialect.extensions@), bound);
    lemma_all_in_range_add(
        s2,
        resolved(interned_insts(OP_EXT_INST_IMPORT, cx, ids.ext_inst_imports)),
        bound,
    );
    lemma_all_in_range_add(s3, seq![dialect.spec_memory_model_inst()], bound);
    lemma_all_in_range_add(s4, section_insts(cx, ids, miscs, AttrSection::EntryPoints), bound);
    lemma_all_in_range_add(s5, section_insts(cx, ids, miscs, AttrSection::ExecutionModes), bound);
    lemma_all_in_range_add(
        s6,
        resolved(interned_insts(OP_STRING, cx, ids.debug_strings)),
        bound,
    );
    lemma_all_in_range_add(s7, source_insts(debug_info.source_languages@, ids), bound);
    lemma_all_in_range_add(
        s8,
        spec_string_insts(OP_SOURCE_EXTENSION, debug_info.source_extensions@),
        bound,
    );
    lemma_all_in_range_add(s9, section_insts(cx, ids, miscs, AttrSection::DebugNames), bound);
    lemma_all_in_range_add(
        s10,
        spec_string_insts(OP_MODULE_PROCESSED, debug_info.module_processes@),
        bound,
    );
    lemma_all_in_range_add(s11, section_insts(cx, ids, miscs, AttrSection::Decorations), bound);
    lemma_all_in_range_add(s12, resolved(body_insts(cx, miscs, ids)), bound);
}

} // verus!
