//! What holds where the IDs of a module are changed before it is lifted.
use crate::ir::{Attr, Context, InternedStr, Misc, MiscInput, MiscOutput, Module};
use crate::spv::attrs::{
    attr_inst, attr_resolved, attr_section, attrs_insts, attrs_resolved, misc_attrs_insts,
    misc_attrs_resolved, new_result_id, old_id_operands, section_insts, AttrSection,
};
use crate::spv::body::{
    body_insts, current_block, debug_line, input_operand, input_resolved, last_insts, line_insts,
    misc_line, misc_resolved, spec_misc_inst,
};
use crate::spv::grammar::{OP_EXT_INST_IMPORT, OP_STRING};
use crate::spv::ids::IdMaps;
use crate::spv::laws::ids::law_ids_depend_on_order;
use crate::spv::lift::lemma_ids_cover_needs;
use crate::spv::needs::{attr_file, attr_files, input_imports, misc_needs, miscs_needs};
use crate::spv::sections::interned_insts;
use crate::spv::sources::{files_insts, source_insts};
use crate::spv::{DebugSourceLang, DebugSources, Id};
use vstd::prelude::*;

verus! {

/// Whether `b` is the output `a` with its IDs changed.
pub open spec fn output_renamed(
    a: Option<MiscOutput>,
    b: Option<MiscOutput>,
    f: spec_fn(Id) -> Id,
) -> bool {
    match (a, b) {
        (
            Some(MiscOutput::SpvResult { result_type_id: t1, result_id: r1 }),
            Some(MiscOutput::SpvResult { result_type_id: t2, result_id: r2 }),
        ) => {
            &&& r2 == f(r1)
            &&& match t1 {
                Some(id) => t2 == Some(f(id)),
                None => t2 is None,
            }
        },
        (None, None) => true,
        _ => false,
    }
}

/// Whether `b` is the input `a` with its ID changed.
pub open spec fn input_renamed(a: MiscInput, b: MiscInput, f: spec_fn(Id) -> Id) -> bool {
    match a {
        MiscInput::SpvUntrackedId(id) => b == MiscInput::SpvUntrackedId(f(id)),
        _ => b == a,
    }
}

/// Whether `b` is the instruction `a` with its IDs changed.
pub open spec fn misc_renamed(a: Misc, b: Misc, f: spec_fn(Id) -> Id) -> bool {
    &&& b.kind == a.kind
    &&& b.attrs == a.attrs
    &&& output_renamed(a.output, b.output, f)
    &&& b.inputs@.len() == a.inputs@.len()
    &&& forall|i: int|
        0 <= i < a.inputs@.len() ==> input_renamed(#[trigger] a.inputs@[i], b.inputs@[i], f)
}

/// Whether `b` is the attribute `a` with its IDs changed.
pub open spec fn attr_renamed(a: Attr, b: Attr, f: spec_fn(Id) -> Id) -> bool {
    match (a, b) {
        (
            Attr::SpvEntryPoint { params: p1, interface_ids: i1 },
            Attr::SpvEntryPoint { params: p2, interface_ids: i2 },
        ) => p2@ == p1@ && i2@ == i1@.map_values(f),
        (
            Attr::SpvAnnotation { opcode: o1, params: p1 },
            Attr::SpvAnnotation { opcode: o2, params: p2 },
        ) => o2 == o1 && p2@ == p1@,
        (Attr::SpvDebugLine { .. }, Attr::SpvDebugLine { .. }) => b == a,
        _ => false,
    }
}

/// Whether `b` are the attributes `a` with their IDs changed.
pub open spec fn attrs_renamed(a: Seq<Attr>, b: Seq<Attr>, f: spec_fn(Id) -> Id) -> bool {
    &&& b.len() == a.len()
    &&& forall|i: int| 0 <= i < a.len() ==> attr_renamed(#[trigger] a[i], b[i], f)
}

/// Whether `b` are the tables `a` with the IDs in attributes changed.
pub open spec fn cx_renamed(a: Context, b: Context, f: spec_fn(Id) -> Id) -> bool {
    &&& b.strings@ == a.strings@
    &&& b.attr_sets@.len() == a.attr_sets@.len()
    &&& forall|attrs: u32| #[trigger]
        a.has_attrs(attrs) ==> attrs_renamed(a.spec_attrs(attrs), b.spec_attrs(attrs), f)
}

/// Whether `b` are the instructions `a` with their IDs changed.
pub open spec fn miscs_renamed(a: Seq<Misc>, b: Seq<Misc>, f: spec_fn(Id) -> Id) -> bool {
    &&& b.len() == a.len()
    &&& forall|i: int| 0 <= i < a.len() ==> misc_renamed(#[trigger] a[i], b[i], f)
}

/// Whether `b` is the module `a` with its IDs changed.
pub open spec fn module_renamed(a: Module, b: Module, f: spec_fn(Id) -> Id) -> bool {
    &&& b.dialect == a.dialect
    &&& b.debug_info == a.debug_info
    &&& cx_renamed(a.spec_cx(), b.spec_cx(), f)
    &&& miscs_renamed(a.miscs(), b.miscs(), f)
}

/// Whether two maps give the same new IDs, where one is for old IDs that have been changed.
spec fn ids_renamed(a: IdMaps, b: IdMaps, f: spec_fn(Id) -> Id) -> bool {
    &&& b.ext_inst_imports == a.ext_inst_imports
    &&& b.debug_strings == a.debug_strings
    &&& forall|id: Id| #[trigger]
        a.old_outputs.contains_key(id) ==> b.old_outputs.contains_key(f(id))
            && b.old_outputs[f(id)] == a.old_outputs[id]
}

/// Lifting depends on the IDs of a module only by their order: where they are changed
/// without a change in their order, the words stay.
pub proof fn law_lifting_depends_on_order(a: Module, b: Module, f: spec_fn(Id) -> Id)
    requires
        a.well_formed(),
        module_renamed(a, b, f),
        forall|x: Id, y: Id|
            a.needs_ids().old_outputs.contains(x) && a.needs_ids().old_outputs.contains(y) && x < y
                ==> #[trigger] f(x) < #[trigger] f(y),
    ensures
        b.lifted_words() == a.lifted_words(),
{
    let miscs = a.miscs();
    let ids = a.new_ids();
    let cx = a.spec_cx();
    lemma_needs_renamed(a, b, f);
    lemma_ids_cover_needs(a);
    lemma_ids_cover_needs(b);
    law_ids_depend_on_order(a.needs_ids(), b.needs_ids(), f);
    assert forall|id: Id| #[trigger] ids.old_outputs.contains_key(id) implies {
        &&& b.new_ids().old_outputs.contains_key(f(id))
        &&& b.new_ids().old_outputs[f(id)] == ids.old_outputs[id]
    } by {
        assert(a.needs_ids().old_outputs.contains(id));
        assert(b.needs_ids().old_outputs.contains(f(id)));
    }
    assert forall|i: int| 0 <= i < b.miscs().len() implies b.spec_cx().has_attrs(
        (#[trigger] b.miscs()[i]).attrs,
    ) by {
        assert(misc_renamed(miscs[i], b.miscs()[i], f));
        assert(cx.has_attrs(miscs[i].attrs));
    }
    if a.is_spv() {
        let cx_b = b.spec_cx();
        let miscs_b = b.miscs();
        let ids_b = b.new_ids();
        assert forall|i: int| 0 <= i < miscs.len() implies {
            &&& cx.has_attrs((#[trigger] miscs[i]).attrs)
            &&& misc_resolved(miscs[i], ids)
            &&& misc_attrs_resolved(cx, miscs[i], ids)
        } by {
            assert(misc_resolved(a.miscs()[i], ids));
            assert(misc_attrs_resolved(cx, miscs[i], ids));
        }
        assert(renaming(cx, cx_b, miscs, miscs_b, ids, ids_b, f));
        lemma_interned_renamed(cx, cx_b, f, ids);
        lemma_attrs_still_resolved(cx, cx_b, miscs, miscs_b, ids, ids_b, f);
        lemma_sections_renamed(cx, cx_b, miscs, miscs_b, ids, ids_b, AttrSection::EntryPoints, f);
        lemma_sections_renamed(
            cx,
            cx_b,
            miscs,
            miscs_b,
            ids,
            ids_b,
            AttrSection::ExecutionModes,
            f,
        );
        lemma_sections_renamed(cx, cx_b, miscs, miscs_b, ids, ids_b, AttrSection::DebugNames, f);
        lemma_sections_renamed(cx, cx_b, miscs, miscs_b, ids, ids_b, AttrSection::Decorations, f);
        lemma_body_renamed(cx, cx_b, miscs, miscs_b, ids, ids_b, f);
        lemma_sources_same(a.debug_info->Spv_0.source_languages@, ids, ids_b);
        assert(b.emission() == a.emission());
    }
}

proof fn lemma_interned_renamed(a: Context, b: Context, f: spec_fn(Id) -> Id, ids: IdMaps)
    requires
        cx_renamed(a, b, f),
    ensures
        interned_insts(OP_EXT_INST_IMPORT, b, ids.ext_inst_imports) == interned_insts(
            OP_EXT_INST_IMPORT,
            a,
            ids.ext_inst_imports,
        ),
        interned_insts(OP_STRING, b, ids.debug_strings) == interned_insts(
            OP_STRING,
            a,
            ids.debug_strings,
        ),
{
    assert(interned_insts(OP_EXT_INST_IMPORT, b, ids.ext_inst_imports) =~= interned_insts(
        OP_EXT_INST_IMPORT,
        a,
        ids.ext_inst_imports,
    ));
    assert(interned_insts(OP_STRING, b, ids.debug_strings) =~= interned_insts(
        OP_STRING,
        a,
        ids.debug_strings,
    ));
}

/// Source code refers to strings only.
proof fn lemma_sources_same(
    languages: Seq<(DebugSourceLang, DebugSources)>,
    ids_a: IdMaps,
    ids_b: IdMaps,
)
    requires
        ids_a.debug_strings == ids_b.debug_strings,
    ensures
        source_insts(languages, ids_a) == source_insts(languages, ids_b),
    decreases languages.len(),
{
    if languages.len() > 0 {
        let (lang, sources) = languages.last();
        lemma_sources_same(languages.drop_last(), ids_a, ids_b);
        lemma_files_same(lang, sources.file_contents@, ids_a, ids_b);
    }
}

proof fn lemma_files_same(
    lang: DebugSourceLang,
    files: Seq<(InternedStr, String)>,
    ids_a: IdMaps,
    ids_b: IdMaps,
)
    requires
        ids_a.debug_strings == ids_b.debug_strings,
    ensures
        files_insts(lang, files, ids_a) == files_insts(lang, files, ids_b),
    decreases files.len(),
{
    if files.len() > 0 {
        lemma_files_same(lang, files.drop_last(), ids_a, ids_b);
    }
}

/// What one instruction needs IDs for, after its IDs have been changed.
proof fn lemma_misc_needs_renamed(
    cx_a: Context,
    cx_b: Context,
    a: Misc,
    b: Misc,
    f: spec_fn(Id) -> Id,
)
    requires
        cx_renamed(cx_a, cx_b, f),
        misc_renamed(a, b, f),
        cx_a.has_attrs(a.attrs),
    ensures
        misc_needs(cx_b, b).ext_inst_imports == misc_needs(cx_a, a).ext_inst_imports,
        misc_needs(cx_b, b).debug_strings == misc_needs(cx_a, a).debug_strings,
{
    let attrs_a = cx_a.spec_attrs(a.attrs);
    let attrs_b = cx_b.spec_attrs(b.attrs);
    assert(attrs_renamed(attrs_a, attrs_b, f));
    assert forall|name: u32| input_imports(b.inputs@).contains(name) <==> input_imports(
        a.inputs@,
    ).contains(name) by {
        if input_imports(a.inputs@).contains(name) {
            let i = choose|i: int|
                0 <= i < a.inputs@.len() && #[trigger] a.inputs@[i] == MiscInput::SpvExtInstImport(
                    name,
                );
            assert(input_renamed(a.inputs@[i], b.inputs@[i], f));
        }
        if input_imports(b.inputs@).contains(name) {
            let i = choose|i: int|
                0 <= i < b.inputs@.len() && #[trigger] b.inputs@[i] == MiscInput::SpvExtInstImport(
                    name,
                );
            assert(input_renamed(a.inputs@[i], b.inputs@[i], f));
        }
    }
    assert forall|name: u32| attr_files(attrs_b).contains(name) <==> attr_files(attrs_a).contains(
        name,
    ) by {
        if attr_files(attrs_a).contains(name) {
            let i = choose|i: int|
                0 <= i < attrs_a.len() && attr_file(#[trigger] attrs_a[i]) == Some(name);
            assert(attr_renamed(attrs_a[i], attrs_b[i], f));
        }
        if attr_files(attrs_b).contains(name) {
            let i = choose|i: int|
                0 <= i < attrs_b.len() && attr_file(#[trigger] attrs_b[i]) == Some(name);
            assert(attr_renamed(attrs_a[i], attrs_b[i], f));
        }
    }
    assert(input_imports(b.inputs@) =~= input_imports(a.inputs@));
    assert(attr_files(attrs_b) =~= attr_files(attrs_a));
}

/// What a module needs IDs for, after its IDs have been changed.
proof fn lemma_needs_renamed(a: Module, b: Module, f: spec_fn(Id) -> Id)
    requires
        module_renamed(a, b, f),
        a.attrs_known(),
    ensures
        b.needs_ids().ext_inst_imports == a.needs_ids().ext_inst_imports,
        b.needs_ids().debug_strings == a.needs_ids().debug_strings,
        b.needs_ids().old_outputs == a.needs_ids().old_outputs.map(f),
{
    let cx_a = a.spec_cx();
    let cx_b = b.spec_cx();
    let miscs_a = a.miscs();
    let miscs_b = b.miscs();
    let needs_a = miscs_needs(cx_a, miscs_a);
    let needs_b = miscs_needs(cx_b, miscs_b);
    assert forall|i: int| 0 <= i < miscs_a.len() implies {
        &&& misc_renamed(#[trigger] miscs_a[i], miscs_b[i], f)
        &&& misc_needs(cx_b, miscs_b[i]).ext_inst_imports == misc_needs(
            cx_a,
            miscs_a[i],
        ).ext_inst_imports
        &&& misc_needs(cx_b, miscs_b[i]).debug_strings == misc_needs(cx_a, miscs_a[i]).debug_strings
    } by {
        assert(cx_a.has_attrs(miscs_a[i].attrs));
        lemma_misc_needs_renamed(cx_a, cx_b, miscs_a[i], miscs_b[i], f);
    }
    assert forall|x: u32| needs_b.ext_inst_imports.contains(x)
        <==> needs_a.ext_inst_imports.contains(x) by {
        if needs_a.ext_inst_imports.contains(x) {
            let i = choose|i: int|
                0 <= i < miscs_a.len() && misc_needs(
                    cx_a,
                    #[trigger] miscs_a[i],
                ).ext_inst_imports.contains(x);
            assert(misc_needs(cx_b, miscs_b[i]).ext_inst_imports.contains(x));
        }
        if needs_b.ext_inst_imports.contains(x) {
            let i = choose|i: int|
                0 <= i < miscs_b.len() && misc_needs(
                    cx_b,
                    #[trigger] miscs_b[i],
                ).ext_inst_imports.contains(x);
            assert(misc_renamed(miscs_a[i], miscs_b[i], f));
        }
    }
    assert forall|x: u32| needs_b.debug_strings.contains(x) <==> needs_a.debug_strings.contains(
        x,
    ) by {
        if needs_a.debug_strings.contains(x) {
            let i = choose|i: int|
                0 <= i < miscs_a.len() && misc_needs(
                    cx_a,
                    #[trigger] miscs_a[i],
                ).debug_strings.contains(x);
            assert(misc_needs(cx_b, miscs_b[i]).debug_strings.contains(x));
        }
        if needs_b.debug_strings.contains(x) {
            let i = choose|i: int|
                0 <= i < miscs_b.len() && misc_needs(
                    cx_b,
                    #[trigger] miscs_b[i],
                ).debug_strings.contains(x);
            assert(misc_renamed(miscs_a[i], miscs_b[i], f));
        }
    }
    assert forall|y: Id| needs_b.old_outputs.contains(y) <==> needs_a.old_outputs.map(f).contains(
        y,
    ) by {
        if needs_b.old_outputs.contains(y) {
            let i = choose|i: int|
                0 <= i < miscs_b.len() && misc_needs(
                    cx_b,
                    #[trigger] miscs_b[i],
                ).old_outputs.contains(y);
            assert(misc_renamed(miscs_a[i], miscs_b[i], f));
            let x = miscs_a[i].spec_result_id()->0;
            assert(misc_needs(cx_a, miscs_a[i]).old_outputs.contains(x));
            assert(needs_a.old_outputs.contains(x) && f(x) == y);
        }
        if needs_a.old_outputs.map(f).contains(y) {
            let x = choose|x: Id| needs_a.old_outputs.contains(x) && y == f(x);
            let i = choose|i: int|
                0 <= i < miscs_a.len() && misc_needs(
                    cx_a,
                    #[trigger] miscs_a[i],
                ).old_outputs.contains(x);
            assert(misc_renamed(miscs_a[i], miscs_b[i], f));
            assert(misc_needs(cx_b, miscs_b[i]).old_outputs.contains(y));
        }
    }
    assert(needs_b.ext_inst_imports =~= needs_a.ext_inst_imports);
    assert(needs_b.debug_strings =~= needs_a.debug_strings);
    assert(needs_b.old_outputs =~= needs_a.old_outputs.map(f));
    assert(b.needs_ids().old_outputs =~= needs_b.old_outputs);
    assert(a.needs_ids().old_outputs =~= needs_a.old_outputs);
}

/// Two modules, where one is the other with its IDs changed, and the IDs that they get.
spec fn renaming(
    cx_a: Context,
    cx_b: Context,
    miscs_a: Seq<Misc>,
    miscs_b: Seq<Misc>,
    ids_a: IdMaps,
    ids_b: IdMaps,
    f: spec_fn(Id) -> Id,
) -> bool {
    &&& cx_renamed(cx_a, cx_b, f)
    &&& miscs_renamed(miscs_a, miscs_b, f)
    &&& ids_renamed(ids_a, ids_b, f)
    &&& forall|i: int|
        0 <= i < miscs_a.len() ==> {
            &&& cx_a.has_attrs((#[trigger] miscs_a[i]).attrs)
            &&& misc_resolved(miscs_a[i], ids_a)
            &&& misc_attrs_resolved(cx_a, miscs_a[i], ids_a)
        }
}

proof fn lemma_renaming_drop_last(
    cx_a: Context,
    cx_b: Context,
    miscs_a: Seq<Misc>,
    miscs_b: Seq<Misc>,
    ids_a: IdMaps,
    ids_b: IdMaps,
    f: spec_fn(Id) -> Id,
)
    requires
        renaming(cx_a, cx_b, miscs_a, miscs_b, ids_a, ids_b, f),
        miscs_a.len() > 0,
    ensures
        renaming(cx_a, cx_b, miscs_a.drop_last(), miscs_b.drop_last(), ids_a, ids_b, f),
        miscs_a.last() == miscs_a[miscs_a.len() - 1],
        misc_renamed(miscs_a.last(), miscs_b.last(), f),
        cx_a.has_attrs(miscs_a.last().attrs),
        misc_resolved(miscs_a.last(), ids_a),
        misc_attrs_resolved(cx_a, miscs_a.last(), ids_a),
{
    let n = miscs_a.len() - 1;
    assert(misc_renamed(miscs_a[n], miscs_b[n], f));
    assert(cx_a.has_attrs(miscs_a[n].attrs));
    assert forall|i: int| 0 <= i < n implies misc_renamed(
        #[trigger] miscs_a.drop_last()[i],
        miscs_b.drop_last()[i],
        f,
    ) by {
        assert(misc_renamed(miscs_a[i], miscs_b[i], f));
    }
    assert forall|i: int| 0 <= i < n implies {
        &&& cx_a.has_attrs((#[trigger] miscs_a.drop_last()[i]).attrs)
        &&& misc_resolved(miscs_a.drop_last()[i], ids_a)
        &&& misc_attrs_resolved(cx_a, miscs_a.drop_last()[i], ids_a)
    } by {
        assert(cx_a.has_attrs(miscs_a[i].attrs));
    }
}

/// The attributes of one instruction, after IDs have been changed.
proof fn lemma_attr_renamed(
    misc_a: Misc,
    misc_b: Misc,
    a: Attr,
    b: Attr,
    ids_a: IdMaps,
    ids_b: IdMaps,
    target_id: Id,
    f: spec_fn(Id) -> Id,
)
    requires
        misc_renamed(misc_a, misc_b, f),
        attr_renamed(a, b, f),
        ids_renamed(ids_a, ids_b, f),
        attr_resolved(misc_a, a, ids_a),
    ensures
        attr_resolved(misc_b, b, ids_b),
        attr_section(b) == attr_section(a),
        attr_section(a) is Some ==> attr_inst(b, target_id, ids_b) == attr_inst(
            a,
            target_id,
            ids_a,
        ),
{
    if let Attr::SpvEntryPoint { params, interface_ids } = a {
        if let Attr::SpvEntryPoint { params: params_b, interface_ids: interface_ids_b } = b {
            assert forall|i: int| 0 <= i < interface_ids_b@.len() implies {
                &&& ids_b.old_outputs.contains_key(#[trigger] interface_ids_b@[i])
                &&& ids_b.old_outputs[interface_ids_b@[i]] == ids_a.old_outputs[interface_ids@[i]]
            } by {
                assert(ids_a.old_outputs.contains_key(interface_ids@[i]));
                assert(interface_ids_b@[i] == f(interface_ids@[i]));
            }
            assert(old_id_operands(interface_ids_b@, ids_b) =~= old_id_operands(
                interface_ids@,
                ids_a,
            ));
        }
    }
}

proof fn lemma_attrs_renamed(
    misc_a: Misc,
    misc_b: Misc,
    a: Seq<Attr>,
    b: Seq<Attr>,
    ids_a: IdMaps,
    ids_b: IdMaps,
    target_id: Id,
    section: AttrSection,
    f: spec_fn(Id) -> Id,
)
    requires
        misc_renamed(misc_a, misc_b, f),
        attrs_renamed(a, b, f),
        ids_renamed(ids_a, ids_b, f),
        forall|i: int| 0 <= i < a.len() ==> attr_resolved(misc_a, #[trigger] a[i], ids_a),
    ensures
        attrs_insts(b, target_id, ids_b, section) == attrs_insts(a, target_id, ids_a, section),
    decreases a.len(),
{
    if a.len() > 0 {
        let n = a.len() - 1;
        assert forall|i: int| 0 <= i < n implies attr_renamed(
            #[trigger] a.drop_last()[i],
            b.drop_last()[i],
            f,
        ) by {
            assert(attr_renamed(a[i], b[i], f));
        }
        assert forall|i: int| 0 <= i < n implies attr_resolved(
            misc_a,
            #[trigger] a.drop_last()[i],
            ids_a,
        ) by {
            assert(attr_resolved(misc_a, a[i], ids_a));
        }
        lemma_attrs_renamed(
            misc_a,
            misc_b,
            a.drop_last(),
            b.drop_last(),
            ids_a,
            ids_b,
            target_id,
            section,
            f,
        );
        assert(attr_renamed(a[n], b[n], f));
        assert(attr_resolved(misc_a, a[n], ids_a));
        lemma_attr_renamed(misc_a, misc_b, a[n], b[n], ids_a, ids_b, target_id, f);
    }
}

/// What is made from attributes stays.
proof fn lemma_sections_renamed(
    cx_a: Context,
    cx_b: Context,
    miscs_a: Seq<Misc>,
    miscs_b: Seq<Misc>,
    ids_a: IdMaps,
    ids_b: IdMaps,
    section: AttrSection,
    f: spec_fn(Id) -> Id,
)
    requires
        renaming(cx_a, cx_b, miscs_a, miscs_b, ids_a, ids_b, f),
    ensures
        section_insts(cx_b, ids_b, miscs_b, section) == section_insts(
            cx_a,
            ids_a,
            miscs_a,
            section,
        ),
    decreases miscs_a.len(),
{
    if miscs_a.len() > 0 {
        let a = miscs_a.last();
        let b = miscs_b.last();
        lemma_renaming_drop_last(cx_a, cx_b, miscs_a, miscs_b, ids_a, ids_b, f);
        lemma_sections_renamed(
            cx_a,
            cx_b,
            miscs_a.drop_last(),
            miscs_b.drop_last(),
            ids_a,
            ids_b,
            section,
            f,
        );
        if let Some(id) = new_result_id(a, ids_a) {
            let attrs_a = cx_a.spec_attrs(a.attrs);
            let attrs_b = cx_b.spec_attrs(b.attrs);
            assert(ids_a.old_outputs.contains_key(a.spec_result_id()->0));
            assert(new_result_id(b, ids_b) == Some(id));
            lemma_attrs_renamed(a, b, attrs_a, attrs_b, ids_a, ids_b, id, section, f);
        }
        assert(misc_attrs_insts(cx_b, ids_b, b, section) == misc_attrs_insts(
            cx_a,
            ids_a,
            a,
            section,
        ));
    }
}

/// What attributes refer to is still there.
proof fn lemma_attrs_still_resolved(
    cx_a: Context,
    cx_b: Context,
    miscs_a: Seq<Misc>,
    miscs_b: Seq<Misc>,
    ids_a: IdMaps,
    ids_b: IdMaps,
    f: spec_fn(Id) -> Id,
)
    requires
        renaming(cx_a, cx_b, miscs_a, miscs_b, ids_a, ids_b, f),
    ensures
        attrs_resolved(cx_b, miscs_b, ids_b),
{
    assert forall|i: int| 0 <= i < miscs_b.len() implies misc_attrs_resolved(
        cx_b,
        #[trigger] miscs_b[i],
        ids_b,
    ) by {
        let a = miscs_a[i];
        let b = miscs_b[i];
        assert(misc_renamed(a, b, f));
        assert(cx_a.has_attrs(a.attrs));
        let attrs_a = cx_a.spec_attrs(a.attrs);
        let attrs_b = cx_b.spec_attrs(b.attrs);
        assert(attrs_renamed(attrs_a, attrs_b, f));
        assert forall|j: int| 0 <= j < attrs_b.len() implies attr_resolved(
            b,
            #[trigger] attrs_b[j],
            ids_b,
        ) by {
            assert(attr_renamed(attrs_a[j], attrs_b[j], f));
            assert(attr_resolved(a, attrs_a[j], ids_a));
            lemma_attr_renamed(a, b, attrs_a[j], attrs_b[j], ids_a, ids_b, 0, f);
        }
    }
}

proof fn lemma_line_renamed(
    a: Seq<Attr>,
    b: Seq<Attr>,
    ids_a: IdMaps,
    ids_b: IdMaps,
    f: spec_fn(Id) -> Id,
)
    requires
        attrs_renamed(a, b, f),
        ids_renamed(ids_a, ids_b, f),
    ensures
        debug_line(b, ids_b) == debug_line(a, ids_a),
    decreases a.len(),
{
    if a.len() > 0 {
        assert forall|i: int| 0 <= i < a.len() - 1 implies attr_renamed(
            #[trigger] a.drop_first()[i],
            b.drop_first()[i],
            f,
        ) by {
            assert(attr_renamed(a[i + 1], b[i + 1], f));
        }
        assert(attr_renamed(a[0], b[0], f));
        lemma_line_renamed(a.drop_first(), b.drop_first(), ids_a, ids_b, f);
    }
}

proof fn lemma_misc_renamed(a: Misc, b: Misc, ids_a: IdMaps, ids_b: IdMaps, f: spec_fn(Id) -> Id)
    requires
        misc_renamed(a, b, f),
        ids_renamed(ids_a, ids_b, f),
        misc_resolved(a, ids_a),
    ensures
        misc_resolved(b, ids_b),
        spec_misc_inst(b, ids_b) == spec_misc_inst(a, ids_a),
        new_result_id(b, ids_b) == new_result_id(a, ids_a),
{
    assert forall|i: int| 0 <= i < b.inputs@.len() implies {
        &&& input_resolved(#[trigger] b.inputs@[i], ids_b)
        &&& input_operand(b.inputs@[i], ids_b) == input_operand(a.inputs@[i], ids_a)
    } by {
        assert(input_renamed(a.inputs@[i], b.inputs@[i], f));
        assert(input_resolved(a.inputs@[i], ids_a));
    }
    assert(spec_misc_inst(b, ids_b).operands =~= spec_misc_inst(a, ids_a).operands);
}

/// The instructions of the module itself stay.
proof fn lemma_body_renamed(
    cx_a: Context,
    cx_b: Context,
    miscs_a: Seq<Misc>,
    miscs_b: Seq<Misc>,
    ids_a: IdMaps,
    ids_b: IdMaps,
    f: spec_fn(Id) -> Id,
)
    requires
        renaming(cx_a, cx_b, miscs_a, miscs_b, ids_a, ids_b, f),
    ensures
        body_insts(cx_b, miscs_b, ids_b) == body_insts(cx_a, miscs_a, ids_a),
        current_block(miscs_b, ids_b) == current_block(miscs_a, ids_a),
        miscs_a.len() > 0 ==> misc_line(cx_b, miscs_b.last(), ids_b) == misc_line(
            cx_a,
            miscs_a.last(),
            ids_a,
        ),
    decreases miscs_a.len(),
{
    if miscs_a.len() > 0 {
        let a = miscs_a.last();
        let b = miscs_b.last();
        lemma_renaming_drop_last(cx_a, cx_b, miscs_a, miscs_b, ids_a, ids_b, f);
        lemma_body_renamed(
            cx_a,
            cx_b,
            miscs_a.drop_last(),
            miscs_b.drop_last(),
            ids_a,
            ids_b,
            f,
        );
        lemma_misc_renamed(a, b, ids_a, ids_b, f);
        lemma_line_renamed(
            cx_a.spec_attrs(a.attrs),
            cx_b.spec_attrs(b.attrs),
            ids_a,
            ids_b,
            f,
        );
        assert(line_insts(cx_b, miscs_b, ids_b) == line_insts(cx_a, miscs_a, ids_a));
        assert(last_insts(cx_b, miscs_b, ids_b) == last_insts(cx_a, miscs_a, ids_a));
    }
}

} // verus!
