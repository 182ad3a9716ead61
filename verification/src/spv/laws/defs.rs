//! What IDs the instructions of a lifted module define.
use crate::ir::{Attr, Context, InternedStr, Misc, Module};
use crate::order;
use crate::order::ascending;
use crate::spv::attrs::{attrs_insts, misc_attrs_insts, new_result_id, section_insts, AttrSection};
use crate::spv::body::{body_insts, last_insts, line_insts, misc_resolved, spec_misc_inst};
use crate::spv::grammar::{
    Opcode, OP_EXTENSION, OP_EXT_INST_IMPORT, OP_MODULE_PROCESSED, OP_SOURCE_EXTENSION, OP_STRING,
};
use crate::spv::ids::IdMaps;
use crate::spv::laws::ids::law_ids_are_dense;
use crate::spv::laws::module::{
    all_known, law_layout, lemma_all_known_parts, lemma_emission_parts, lemma_stop_none,
};
use crate::spv::lift::{lemma_ids_cover_needs, lemma_misc_needs_covered};
use crate::spv::needs::{misc_needs, miscs_needs};
use crate::spv::sections::{capability_inst, interned_insts, spec_string_insts};
use crate::spv::sources::{file_insts, files_insts, lang_insts, source_insts};
use crate::spv::write::{optional_id, resolved};
use crate::spv::{DebugSourceLang, DebugSources, Id, InstView};
use vstd::prelude::*;
use vstd::utf8::encode_utf8;

verus! {

/// The IDs that instructions define, in the order of the instructions.
pub open spec fn defined_ids(insts: Seq<InstView>) -> Seq<Id>
    decreases insts.len(),
{
    if insts.len() == 0 {
        seq![]
    } else {
        defined_ids(insts.drop_last()) + optional_id(insts.last().result_id)
    }
}

/// The IDs that the instructions of a module define before it is lifted, in the order of the
/// instructions.
pub open spec fn old_defined_ids(miscs: Seq<Misc>) -> Seq<Id>
    decreases miscs.len(),
{
    if miscs.len() == 0 {
        seq![]
    } else {
        old_defined_ids(miscs.drop_last()) + optional_id(miscs.last().spec_result_id())
    }
}

/// The new IDs of what has got one, in its order.
pub open spec fn ids_in_order(ids: Map<u32, Id>) -> Seq<Id> {
    ascending(ids.dom()).map_values(|x: u32| ids[x])
}

proof fn lemma_defined_ids_add(a: Seq<InstView>, b: Seq<InstView>)
    ensures
        defined_ids(a + b) == defined_ids(a) + defined_ids(b),
    decreases b.len(),
{
    if b.len() == 0 {
        assert(a + b =~= a);
        assert(defined_ids(a) + defined_ids(b) =~= defined_ids(a));
    } else {
        assert((a + b).drop_last() =~= a + b.drop_last());
        lemma_defined_ids_add(a, b.drop_last());
        assert(defined_ids(a + b) =~= defined_ids(a) + defined_ids(b));
    }
}

/// Instructions that define nothing.
proof fn lemma_no_defined_ids(insts: Seq<InstView>)
    requires
        forall|i: int| 0 <= i < insts.len() ==> (#[trigger] insts[i]).result_id is None,
    ensures
        defined_ids(insts) == Seq::<Id>::empty(),
    decreases insts.len(),
{
    if insts.len() > 0 {
        let rest = insts.drop_last();
        assert forall|i: int| 0 <= i < rest.len() implies (#[trigger] rest[i]).result_id is None by {
            assert(insts[i].result_id is None);
        }
        lemma_no_defined_ids(rest);
        assert(insts[insts.len() - 1].result_id is None);
        assert(defined_ids(insts) =~= seq![]);
    }
}

proof fn lemma_interned_defined_ids(opcode: Opcode, cx: Context, ids: Map<InternedStr, Id>)
    requires
        all_known(interned_insts(opcode, cx, ids)),
    ensures
        defined_ids(resolved(interned_insts(opcode, cx, ids))) == ids_in_order(ids),
{
    let names = ascending(ids.dom());
    let insts = resolved(interned_insts(opcode, cx, ids));
    assert forall|n: int| 0 <= n <= names.len() implies defined_ids(#[trigger] insts.take(n))
        == ids_in_order(ids).take(n) by {
        lemma_interned_defined_ids_upto(opcode, cx, ids, n);
    }
    assert(insts.take(names.len() as int) =~= insts);
    assert(ids_in_order(ids).take(names.len() as int) =~= ids_in_order(ids));
}

proof fn lemma_interned_defined_ids_upto(
    opcode: Opcode,
    cx: Context,
    ids: Map<InternedStr, Id>,
    n: int,
)
    requires
        all_known(interned_insts(opcode, cx, ids)),
        0 <= n <= ascending(ids.dom()).len(),
    ensures
        defined_ids(resolved(interned_insts(opcode, cx, ids)).take(n)) == ids_in_order(ids).take(n),
    decreases n,
{
    let insts = resolved(interned_insts(opcode, cx, ids));
    if n > 0 {
        lemma_interned_defined_ids_upto(opcode, cx, ids, n - 1);
        assert(interned_insts(opcode, cx, ids)[n - 1] is Some);
        assert(insts.take(n).drop_last() =~= insts.take(n - 1));
        assert(defined_ids(insts.take(n)) =~= ids_in_order(ids).take(n));
    } else {
        assert(defined_ids(insts.take(n)) =~= ids_in_order(ids).take(n));
    }
}

proof fn lemma_attrs_define_nothing(
    attrs: Seq<Attr>,
    target_id: Id,
    ids: IdMaps,
    section: AttrSection,
)
    ensures
        defined_ids(attrs_insts(attrs, target_id, ids, section)) == Seq::<Id>::empty(),
    decreases attrs.len(),
{
    if attrs.len() > 0 {
        let before = attrs_insts(attrs.drop_last(), target_id, ids, section);
        let insts = attrs_insts(attrs, target_id, ids, section);
        lemma_attrs_define_nothing(attrs.drop_last(), target_id, ids, section);
        if insts.len() > before.len() {
            assert(insts.drop_last() =~= before);
            assert(insts.last().result_id is None);
            assert(defined_ids(insts) =~= seq![]);
        }
    }
}

proof fn lemma_section_defines_nothing(
    cx: Context,
    ids: IdMaps,
    miscs: Seq<Misc>,
    section: AttrSection,
)
    ensures
        defined_ids(section_insts(cx, ids, miscs, section)) == Seq::<Id>::empty(),
    decreases miscs.len(),
{
    if miscs.len() > 0 {
        let misc = miscs.last();
        lemma_section_defines_nothing(cx, ids, miscs.drop_last(), section);
        if let Some(id) = new_result_id(misc, ids) {
            lemma_attrs_define_nothing(cx.spec_attrs(misc.attrs), id, ids, section);
        }
        lemma_defined_ids_add(
            section_insts(cx, ids, miscs.drop_last(), section),
            misc_attrs_insts(cx, ids, misc, section),
        );
    }
}

proof fn lemma_files_define_nothing(
    lang: DebugSourceLang,
    files: Seq<(InternedStr, String)>,
    ids: IdMaps,
)
    ensures
        defined_ids(files_insts(lang, files, ids)) == Seq::<Id>::empty(),
    decreases files.len(),
{
    if files.len() > 0 {
        let (path, contents) = files.last();
        let last = file_insts(lang, ids.debug_strings[path], encode_utf8(contents@));
        lemma_files_define_nothing(lang, files.drop_last(), ids);
        lemma_no_defined_ids(last);
        lemma_defined_ids_add(files_insts(lang, files.drop_last(), ids), last);
    }
}

proof fn lemma_sources_define_nothing(
    languages: Seq<(DebugSourceLang, DebugSources)>,
    ids: IdMaps,
)
    ensures
        defined_ids(source_insts(languages, ids)) == Seq::<Id>::empty(),
    decreases languages.len(),
{
    if languages.len() > 0 {
        let (lang, sources) = languages.last();
        lemma_sources_define_nothing(languages.drop_last(), ids);
        lemma_files_define_nothing(lang, sources.file_contents@, ids);
        if sources.file_contents@.len() == 0 {
            lemma_no_defined_ids(lang_insts(lang, sources, ids));
        }
        lemma_defined_ids_add(
            source_insts(languages.drop_last(), ids),
            lang_insts(lang, sources, ids),
        );
    }
}

proof fn lemma_body_defined_ids(cx: Context, miscs: Seq<Misc>, ids: IdMaps)
    requires
        all_known(body_insts(cx, miscs, ids)),
    ensures
        defined_ids(resolved(body_insts(cx, miscs, ids))) == old_defined_ids(miscs).map_values(
            |old_id: Id| ids.old_outputs[old_id],
        ),
    decreases miscs.len(),
{
    let new_id = |old_id: Id| ids.old_outputs[old_id];
    if miscs.len() == 0 {
        assert(resolved(body_insts(cx, miscs, ids)) =~= seq![]);
        assert(old_defined_ids(miscs).map_values(new_id) =~= seq![]);
    } else {
        let rest = miscs.drop_last();
        let misc = miscs.last();
        let last = last_insts(cx, miscs, ids);
        lemma_all_known_parts(body_insts(cx, rest, ids), last);
        lemma_body_defined_ids(cx, rest, ids);
        if !misc_resolved(misc, ids) {
            assert(last[0] is None);
        }
        let extra = line_insts(cx, miscs, ids);
        let inst = spec_misc_inst(misc, ids);
        let group = extra + seq![inst];
        assert(resolved(last) =~= group);
        lemma_no_defined_ids(extra);
        assert(group.drop_last() =~= extra);
        assert(defined_ids(group) =~= optional_id(new_result_id(misc, ids)));
        assert(resolved(body_insts(cx, miscs, ids)) =~= resolved(body_insts(cx, rest, ids))
            + group);
        lemma_defined_ids_add(resolved(body_insts(cx, rest, ids)), group);
        assert(old_defined_ids(miscs).map_values(new_id) =~= old_defined_ids(rest).map_values(
            new_id,
        ) + optional_id(new_result_id(misc, ids)));
    }
}

/// A lifted module defines the imports first, then the strings, then what its own
/// instructions define, in their order.
pub proof fn law_defined_ids(module: Module)
    requires
        module.lifted_words() is Ok,
    ensures
        ({
            let ids = module.new_ids();
            defined_ids(module.lifted_insts()) == ids_in_order(ids.ext_inst_imports) + ids_in_order(
                ids.debug_strings,
            ) + old_defined_ids(module.miscs()).map_values(|old_id: Id| ids.old_outputs[old_id])
        }),
{
    let cx = module.spec_cx();
    let dialect = module.dialect->Spv_0;
    let debug_info = module.debug_info->Spv_0;
    let miscs = module.miscs();
    let ids = module.new_ids();
    law_layout(module);
    lemma_stop_none(module.emission());
    lemma_emission_parts(module);
    let p1 = dialect.capabilities@.map_values(|cap: u32| capability_inst(cap));
    let p2 = spec_string_insts(OP_EXTENSION, dialect.extensions@);
    let p3 = resolved(interned_insts(OP_EXT_INST_IMPORT, cx, ids.ext_inst_imports));
    let p4 = seq![dialect.spec_memory_model_inst()];
    let p5 = section_insts(cx, ids, miscs, AttrSection::EntryPoints);
    let p6 = section_insts(cx, ids, miscs, AttrSection::ExecutionModes);
    let p7 = resolved(interned_insts(OP_STRING, cx, ids.debug_strings));
    let p8 = source_insts(debug_info.source_languages@, ids);
    let p9 = spec_string_insts(OP_SOURCE_EXTENSION, debug_info.source_extensions@);
    let p10 = section_insts(cx, ids, miscs, AttrSection::DebugNames);
    let p11 = spec_string_insts(OP_MODULE_PROCESSED, debug_info.module_processes@);
    let p12 = section_insts(cx, ids, miscs, AttrSection::Decorations);
    let p13 = resolved(body_insts(cx, miscs, ids));
    lemma_no_defined_ids(p1);
    lemma_no_defined_ids(p2);
    lemma_interned_defined_ids(OP_EXT_INST_IMPORT, cx, ids.ext_inst_imports);
    lemma_no_defined_ids(p4);
    lemma_section_defines_nothing(cx, ids, miscs, AttrSection::EntryPoints);
    lemma_section_defines_nothing(cx, ids, miscs, AttrSection::ExecutionModes);
    lemma_interned_defined_ids(OP_STRING, cx, ids.debug_strings);
    lemma_sources_define_nothing(debug_info.source_languages@, ids);
    lemma_no_defined_ids(p9);
    lemma_section_defines_nothing(cx, ids, miscs, AttrSection::DebugNames);
    lemma_no_defined_ids(p11);
    lemma_section_defines_nothing(cx, ids, miscs, AttrSection::Decorations);
    lemma_body_defined_ids(cx, miscs, ids);
    lemma_defined_ids_add(p1, p2);
    lemma_defined_ids_add(p1 + p2, p3);
    lemma_defined_ids_add(p1 + p2 + p3, p4);
    lemma_defined_ids_add(p1 + p2 + p3 + p4, p5);
    lemma_defined_ids_add(p1 + p2 + p3 + p4 + p5, p6);
    lemma_defined_ids_add(p1 + p2 + p3 + p4 + p5 + p6, p7);
    let s7 = p1 + p2 + p3 + p4 + p5 + p6 + p7;
    lemma_defined_ids_add(s7, p8);
    lemma_defined_ids_add(s7 + p8, p9);
    lemma_defined_ids_add(s7 + p8 + p9, p10);
    lemma_defined_ids_add(s7 + p8 + p9 + p10, p11);
    lemma_defined_ids_add(s7 + p8 + p9 + p10 + p11, p12);
    lemma_defined_ids_add(s7 + p8 + p9 + p10 + p11 + p12, p13);
    assert(defined_ids(s7) =~= defined_ids(p3) + defined_ids(p7));
    assert(defined_ids(module.lifted_insts()) =~= defined_ids(p3) + defined_ids(p7) + defined_ids(
        p13,
    ));
}

proof fn lemma_ids_in_order(ids: Map<u32, Id>)
    requires
        ids.dom().finite(),
        ids.is_injective(),
    ensures
        forall|id: Id| #[trigger]
            ids_in_order(ids).contains(id) <==> ids.values().contains(id),
        ids_in_order(ids).no_duplicates(),
{
    let keys = ascending(ids.dom());
    let s = ids_in_order(ids);
    order::lemma_ascending(ids.dom());
    assert forall|id: Id| #[trigger] s.contains(id) <==> ids.values().contains(id) by {
        if s.contains(id) {
            let i = choose|i: int| 0 <= i < s.len() && s[i] == id;
            assert(keys.to_set().contains(keys[i]));
        }
        if ids.values().contains(id) {
            let x = choose|x: u32| ids.dom().contains(x) && ids[x] == id;
            assert(keys.to_set().contains(x));
            let i = choose|i: int| 0 <= i < keys.len() && keys[i] == x;
            assert(s[i] == id);
        }
    }
    assert forall|i: int, j: int| 0 <= i < s.len() && 0 <= j < s.len() && i != j implies s[i]
        != s[j] by {
        assert(keys.to_set().contains(keys[i]));
        assert(keys.to_set().contains(keys[j]));
        assert(keys[i] != keys[j]);
        assert(s[i] == ids[keys[i]] && s[j] == ids[keys[j]]);
    }
}

proof fn lemma_old_defined_ids(miscs: Seq<Misc>, id: Id)
    ensures
        old_defined_ids(miscs).contains(id) <==> exists|i: int|
            0 <= i < miscs.len() && (#[trigger] miscs[i]).spec_result_id() == Some(id),
    decreases miscs.len(),
{
    if miscs.len() > 0 {
        let rest = miscs.drop_last();
        let last = miscs[miscs.len() - 1];
        let before = old_defined_ids(rest);
        let all = old_defined_ids(miscs);
        lemma_old_defined_ids(rest, id);
        if all.contains(id) {
            let k = choose|k: int| 0 <= k < all.len() && all[k] == id;
            if k < before.len() {
                assert(before[k] == id);
                let i = choose|i: int|
                    0 <= i < rest.len() && (#[trigger] rest[i]).spec_result_id() == Some(id);
                assert(miscs[i].spec_result_id() == Some(id));
            } else {
                assert(last.spec_result_id() == Some(id));
            }
        }
        if exists|i: int|
            0 <= i < miscs.len() && (#[trigger] miscs[i]).spec_result_id() == Some(id) {
            let i = choose|i: int|
                0 <= i < miscs.len() && (#[trigger] miscs[i]).spec_result_id() == Some(id);
            if i < rest.len() {
                assert(rest[i].spec_result_id() == Some(id));
                let k = choose|k: int| 0 <= k < before.len() && before[k] == id;
                assert(all[k] == id);
            } else {
                assert(all[before.len() as int] == id);
            }
        }
    }
}

/// A lifted module defines all IDs from 1 up to the bound in its header, and no others. It
/// defines none twice, if that was so before it was lifted.
pub proof fn law_all_ids_are_defined(module: Module)
    requires
        module.lifted_words() is Ok,
    ensures
        forall|id: Id| #[trigger]
            defined_ids(module.lifted_insts()).contains(id) <==> 1 <= id < module.id_bound(),
        old_defined_ids(module.miscs()).no_duplicates() ==> defined_ids(
            module.lifted_insts(),
        ).no_duplicates(),
{
    let miscs = module.miscs();
    let ids = module.new_ids();
    let needs = module.needs_ids();
    law_defined_ids(module);
    lemma_ids_cover_needs(module);
    law_ids_are_dense(needs);
    lemma_ids_in_order(ids.ext_inst_imports);
    lemma_ids_in_order(ids.debug_strings);
    let a = ids_in_order(ids.ext_inst_imports);
    let b = ids_in_order(ids.debug_strings);
    let old = old_defined_ids(miscs);
    let c = old.map_values(|old_id: Id| ids.old_outputs[old_id]);
    let all = defined_ids(module.lifted_insts());
    assert forall|old_id: Id| #[trigger] old.contains(old_id) <==> ids.old_outputs.contains_key(
        old_id,
    ) by {
        lemma_old_defined_ids(miscs, old_id);
        if old.contains(old_id) {
            let i = choose|i: int|
                0 <= i < miscs.len() && (#[trigger] miscs[i]).spec_result_id() == Some(old_id);
            lemma_misc_needs_covered(module, i);
            assert(misc_needs(module.spec_cx(), miscs[i]).old_outputs.contains(old_id));
        }
        if ids.old_outputs.contains_key(old_id) {
            assert(needs.old_outputs.contains(old_id));
            assert(miscs_needs(module.spec_cx(), miscs).old_outputs.contains(old_id));
            let i = choose|i: int|
                0 <= i < miscs.len() && misc_needs(
                    module.spec_cx(),
                    #[trigger] miscs[i],
                ).old_outputs.contains(old_id);
            assert(miscs[i].spec_result_id() == Some(old_id));
        }
    }
    assert forall|id: Id| #[trigger] c.contains(id) <==> ids.old_outputs.values().contains(id) by {
        if c.contains(id) {
            let k = choose|k: int| 0 <= k < c.len() && c[k] == id;
            assert(old.contains(old[k]));
        }
        if ids.old_outputs.values().contains(id) {
            let x = choose|x: u32| ids.old_outputs.dom().contains(x) && ids.old_outputs[x] == id;
            assert(old.contains(x));
            let k = choose|k: int| 0 <= k < old.len() && old[k] == x;
            assert(c[k] == id);
        }
    }
    assert forall|id: Id| #[trigger] all.contains(id) <==> 1 <= id < module.id_bound() by {
        lemma_contains_add(a + b, c, id);
        lemma_contains_add(a, b, id);
        let union = ids.ext_inst_imports.values().union(ids.debug_strings.values()).union(
            ids.old_outputs.values(),
        );
        assert(union.contains(id) <==> 1 <= id < module.id_bound());
    }
    if old.no_duplicates() {
        assert forall|i: int, j: int| 0 <= i < c.len() && 0 <= j < c.len() && i != j implies c[i]
            != c[j] by {
            assert(old.contains(old[i]) && old.contains(old[j]));
            assert(old[i] != old[j]);
        }
        assert forall|i: int, j: int|
            0 <= i < all.len() && 0 <= j < all.len() && i != j implies all[i] != all[j] by {
            lemma_in_one_part(a, b, c, i);
            lemma_in_one_part(a, b, c, j);
        }
    }
}

proof fn lemma_contains_add(a: Seq<Id>, b: Seq<Id>, id: Id)
    ensures
        (a + b).contains(id) <==> a.contains(id) || b.contains(id),
{
    if a.contains(id) {
        let i = choose|i: int| 0 <= i < a.len() && a[i] == id;
        assert((a + b)[i] == id);
    }
    if b.contains(id) {
        let i = choose|i: int| 0 <= i < b.len() && b[i] == id;
        assert((a + b)[a.len() + i] == id);
    }
}

/// Where in three parts an element of them is.
proof fn lemma_in_one_part(a: Seq<Id>, b: Seq<Id>, c: Seq<Id>, i: int)
    requires
        0 <= i < (a + b + c).len(),
    ensures
        i < a.len() ==> (a + b + c)[i] == a[i] && a.contains((a + b + c)[i]),
        a.len() <= i < a.len() + b.len() ==> (a + b + c)[i] == b[i - a.len()] && b.contains(
            (a + b + c)[i],
        ),
        a.len() + b.len() <= i ==> (a + b + c)[i] == c[i - a.len() - b.len()] && c.contains(
            (a + b + c)[i],
        ),
{
}

} // verus!
