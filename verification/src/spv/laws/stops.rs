//! What a module that cannot be lifted is answered.
use crate::ir::{Attr, InternedStr, Module};
use crate::order::ascending;
use crate::spv::attrs::{attr_section, attrs_resolved, section_insts, AttrSection};
use crate::spv::body::{
    body_insts, last_insts, lemma_body_prefix, line_insts, misc_resolved, spec_misc_inst,
};
use crate::spv::grammar::{
    OP_EXTENSION, OP_EXT_INST_IMPORT, OP_MODULE_PROCESSED, OP_SOURCE_EXTENSION, OP_STRING,
};
use crate::spv::laws::exact::law_one_numbering;
use crate::spv::laws::made::{
    fit_if_known, law_first_stop, lemma_body_fits, lemma_fit_stop, lemma_made, lemma_one_numbering,
    lemma_section_short, lemma_texts_fit, section_is_short,
};
use crate::spv::laws::module::{all_known, lemma_body_known};
use crate::spv::laws::reading::{
    all_interned_good, attr_sets_there, attr_short, attrs_made, attrs_of, attrs_short,
    first_bad_interned, first_bad_misc, interned_good, is_decoration, is_entry_point,
    is_execution_mode, is_name, misc_made, misc_short, numbers, of_spv, own_insts, sources_cut_well,
    texts_short, Numbering,
};
use crate::spv::laws::seen::{lemma_numbering, lemma_own_insts, numbering};
use crate::spv::laws::seen_attrs::belongs;
use crate::spv::laws::sources::law_source_insts_fit;
use crate::spv::lift::{debug_insts, entry_insts, lemma_ids_cover_needs, preamble_insts, provided};
use crate::spv::sections::{capability_inst, interned_insts, spec_string_insts};
use crate::spv::sources::{source_insts, sources_whole};
use crate::spv::write::{
    all_fit, fits, known, lemma_stop_add, lemma_stop_known, lemma_stop_one, stop, LiftError, Stop,
};
use crate::spv::Id;
use vstd::prelude::*;

verus! {

/// What interned strings come to.
proof fn lemma_interned_stop(module: Module, opcode: u16, ids: Map<InternedStr, Id>)
    requires
        ids.dom().finite(),
    ensures
        ({
            let names = ascending(ids.dom());
            let stop = stop(interned_insts(opcode, module.spec_cx(), ids));
            &&& all_interned_good(module, names) <==> stop is None
            &&& forall|k: int| #[trigger]
                first_bad_interned(module, names, k) ==> stop == Some(
                    if names[k] < module.cx.strings@.len() {
                        Stop::Error(LiftError::InstTooLong)
                    } else {
                        Stop::Unresolved
                    },
                )
        }),
{
    let cx = module.spec_cx();
    let names = ascending(ids.dom());
    let insts = interned_insts(opcode, cx, ids);
    assert forall|k: int| 0 <= k < names.len() implies (interned_good(module, #[trigger] names[k])
        <==> (insts[k] matches Some(inst) && fits(inst))) by {}
    assert forall|k: int| #[trigger] first_bad_interned(module, names, k) implies stop(insts) == Some(
        if names[k] < module.cx.strings@.len() {
            Stop::Error(LiftError::InstTooLong)
        } else {
            Stop::Unresolved
        },
    ) by {
        assert forall|l: int| 0 <= l < k implies (#[trigger] insts[l] matches Some(inst) && fits(
            inst,
        )) by {
            assert(interned_good(module, names[l]));
        }
        law_first_stop(insts, k);
    }
    if all_interned_good(module, names) {
        assert forall|l: int| 0 <= l < insts.len() implies (#[trigger] insts[l] matches Some(inst)
            && fits(inst)) by {
            assert(interned_good(module, names[l]));
        }
        assert(fit_if_known(insts));
        assert(all_known(insts)) by {
            assert forall|l: int| 0 <= l < insts.len() implies (#[trigger] insts[l]) is Some by {
                assert(insts[l] matches Some(inst) && fits(inst));
            }
        }
        lemma_fit_stop(insts);
    } else {
        lemma_first_bad(module, names, names.len() as int);
    }
}

/// If not all of some interned strings are good, there is a first that is not.
proof fn lemma_first_bad(module: Module, names: Seq<InternedStr>, n: int)
    requires
        0 <= n <= names.len(),
        !(forall|k: int| 0 <= k < n ==> interned_good(module, #[trigger] names[k])),
    ensures
        exists|k: int| #[trigger] first_bad_interned(module, names, k),
    decreases n,
{
    if forall|k: int| 0 <= k < n - 1 ==> interned_good(module, #[trigger] names[k]) {
        assert(first_bad_interned(module, names, n - 1));
    } else {
        lemma_first_bad(module, names, n - 1);
    }
}

/// What the instructions of a module come to.
proof fn lemma_body_stop(module: Module, i: int)
    requires
        module.is_spv(),
        first_bad_misc(module, i),
    ensures
        stop(body_insts(module.spec_cx(), module.miscs(), module.new_ids())) == Some(
            if misc_made(module, own_insts(module)[i]) {
                Stop::Error(LiftError::InstTooLong)
            } else {
                Stop::Unresolved
            },
        ),
{
    let cx = module.spec_cx();
    let miscs = module.miscs();
    let ids = module.new_ids();
    lemma_own_insts(module);
    lemma_made(module);
    let was = miscs.take(i);
    let now = miscs.take(i + 1);
    let body = body_insts(cx, miscs, ids);
    let before = body_insts(cx, was, ids);
    let part = last_insts(cx, now, ids);
    let rest = lemma_body_prefix(cx, miscs, ids, i + 1);
    assert(now.drop_last() =~= was);
    assert(now.last() == miscs[i]);
    assert forall|k: int| 0 <= k < was.len() implies misc_short(#[trigger] was[k]) by {
        assert(misc_made(module, own_insts(module)[k]) && misc_short(own_insts(module)[k]));
    }
    assert forall|k: int| 0 <= k < was.len() implies misc_resolved(#[trigger] was[k], ids) by {
        assert(misc_made(module, own_insts(module)[k]));
        assert(misc_resolved(miscs[k], ids));
    }
    lemma_body_fits(cx, was, ids);
    lemma_body_known(cx, was, ids);
    lemma_fit_stop(before);
    lemma_stop_add(before, part);
    lemma_stop_add(before + part, rest);
    assert(misc_resolved(miscs[i], ids) <==> misc_made(module, miscs[i]));
    if misc_made(module, miscs[i]) {
        let group = line_insts(cx, now, ids) + seq![spec_misc_inst(miscs[i], ids)];
        lemma_stop_known(group);
        assert(group.last() == spec_misc_inst(miscs[i], ids));
        assert(!fits(group[group.len() - 1]));
    } else {
        lemma_stop_one(None);
    }
}

/// What a module comes to that cannot be lifted, where its IDs can be bounded. What comes
/// first in the lifted module decides. All attributes are gone through before the entry
/// points, and all source code is cut before it is emitted.
pub proof fn law_first_failure(module: Module, n: Numbering)
    requires
        of_spv(module),
        attr_sets_there(module),
        numbers(module, n),
        n.bound() <= u32::MAX,
    ensures
        ({
            let dialect = module.dialect->Spv_0;
            let debug_info = module.debug_info->Spv_0;
            let too_long = Err::<Seq<u32>, Stop>(Stop::Error(LiftError::InstTooLong));
            let not_made = Err::<Seq<u32>, Stop>(Stop::Unresolved);
            let extensions = texts_short(dialect.extensions@);
            let imports = extensions && all_interned_good(module, n.imports);
            let attrs = imports && attrs_made(module);
            let entries = attrs && attrs_short(module, |a: Attr| is_entry_point(a)) && attrs_short(
                module,
                |a: Attr| is_execution_mode(a),
            );
            let strings = entries && all_interned_good(module, n.strings);
            let sources = strings && sources_cut_well(module);
            let debug = sources && texts_short(debug_info.source_extensions@) && attrs_short(
                module,
                |a: Attr| is_name(a),
            ) && texts_short(debug_info.module_processes@) && attrs_short(
                module,
                |a: Attr| is_decoration(a),
            );
            &&& !extensions ==> module.lifted_words() == too_long
            &&& forall|k: int|
                extensions && #[trigger] first_bad_interned(module, n.imports, k)
                    ==> module.lifted_words() == if n.imports[k] < module.cx.strings@.len() {
                    too_long
                } else {
                    not_made
                }
            &&& imports && !attrs ==> module.lifted_words() == not_made
            &&& attrs && !entries ==> module.lifted_words() == too_long
            &&& forall|k: int|
                entries && #[trigger] first_bad_interned(module, n.strings, k)
                    ==> module.lifted_words() == if n.strings[k] < module.cx.strings@.len() {
                    too_long
                } else {
                    not_made
                }
            &&& strings && !sources ==> module.lifted_words() == not_made
            &&& sources && !debug ==> module.lifted_words() == too_long
            &&& forall|i: int|
                debug && #[trigger] first_bad_misc(module, i) ==> module.lifted_words() == if misc_made(
                    module,
                    own_insts(module)[i],
                ) {
                    too_long
                } else {
                    not_made
                }
        }),
{
    let cx = module.spec_cx();
    let dialect = module.dialect->Spv_0;
    let debug_info = module.debug_info->Spv_0;
    let miscs = module.miscs();
    let ids = module.new_ids();
    lemma_own_insts(module);
    lemma_made(module);
    lemma_one_numbering(module, n);
    lemma_numbering(module);
    law_one_numbering(module, n, numbering(module));
    lemma_ids_cover_needs(module);
    let p1 = preamble_insts(cx, dialect, ids);
    let p2 = entry_insts(cx, miscs, ids);
    let p3 = debug_insts(cx, debug_info, miscs, ids);
    let decorations = section_insts(cx, ids, miscs, AttrSection::Decorations);
    let p4 = known(decorations);
    let p5 = body_insts(cx, miscs, ids);
    lemma_stop_add(p1, p2);
    lemma_stop_add(p1 + p2, p3);
    lemma_stop_add(p1 + p2 + p3, p4);
    lemma_stop_add(p1 + p2 + p3 + p4, p5);

    let capabilities = dialect.capabilities@.map_values(|cap: u32| capability_inst(cap));
    let extensions = spec_string_insts(OP_EXTENSION, dialect.extensions@);
    let imports = interned_insts(OP_EXT_INST_IMPORT, cx, ids.ext_inst_imports);
    let model = seq![dialect.spec_memory_model_inst()];
    assert(all_fit(capabilities));
    assert(all_fit(model));
    lemma_stop_known(capabilities);
    lemma_texts_fit(OP_EXTENSION, dialect.extensions@);
    lemma_stop_known(extensions);
    lemma_interned_stop(module, OP_EXT_INST_IMPORT, ids.ext_inst_imports);
    lemma_stop_known(model);
    lemma_stop_add(known(capabilities), known(extensions));
    lemma_stop_add(known(capabilities) + known(extensions), imports);
    lemma_stop_add(known(capabilities) + known(extensions) + imports, known(model));
    assert(ascending(ids.ext_inst_imports.dom()) == n.imports);
    assert(ascending(ids.debug_strings.dom()) == n.strings);

    let check = provided(attrs_resolved(cx, miscs, ids));
    let entry_points = section_insts(cx, ids, miscs, AttrSection::EntryPoints);
    let modes = section_insts(cx, ids, miscs, AttrSection::ExecutionModes);
    lemma_stop_one(None);
    lemma_stop_known(entry_points);
    lemma_stop_known(modes);
    lemma_stop_add(check, known(entry_points));
    lemma_stop_add(check + known(entry_points), known(modes));

    let strings = interned_insts(OP_STRING, cx, ids.debug_strings);
    let whole = provided(sources_whole(debug_info.source_languages@));
    let sources = source_insts(debug_info.source_languages@, ids);
    let source_extensions = spec_string_insts(OP_SOURCE_EXTENSION, debug_info.source_extensions@);
    let names = section_insts(cx, ids, miscs, AttrSection::DebugNames);
    let processes = spec_string_insts(OP_MODULE_PROCESSED, debug_info.module_processes@);
    lemma_interned_stop(module, OP_STRING, ids.debug_strings);
    law_source_insts_fit(debug_info.source_languages@, ids);
    lemma_texts_fit(OP_SOURCE_EXTENSION, debug_info.source_extensions@);
    lemma_texts_fit(OP_MODULE_PROCESSED, debug_info.module_processes@);
    lemma_stop_known(sources);
    lemma_stop_known(source_extensions);
    lemma_stop_known(names);
    lemma_stop_known(processes);
    lemma_stop_known(decorations);
    lemma_stop_add(strings, whole);
    lemma_stop_add(strings + whole, known(sources));
    lemma_stop_add(strings + whole + known(sources), known(source_extensions));
    lemma_stop_add(strings + whole + known(sources) + known(source_extensions), known(names));
    lemma_stop_add(
        strings + whole + known(sources) + known(source_extensions) + known(names),
        known(processes),
    );
    if attrs_made(module) {
        lemma_section_stop(module, AttrSection::EntryPoints, |a: Attr| is_entry_point(a));
        lemma_section_stop(module, AttrSection::ExecutionModes, |a: Attr| is_execution_mode(a));
        lemma_section_stop(module, AttrSection::DebugNames, |a: Attr| is_name(a));
        lemma_section_stop(module, AttrSection::Decorations, |a: Attr| is_decoration(a));
    }
    assert forall|i: int| #[trigger] first_bad_misc(module, i) implies stop(p5) == Some(
        if misc_made(module, own_insts(module)[i]) {
            Stop::Error(LiftError::InstTooLong)
        } else {
            Stop::Unresolved
        },
    ) by {
        lemma_body_stop(module, i);
    }
}

/// What the attributes in a section come to.
proof fn lemma_section_stop(module: Module, section: AttrSection, picks: spec_fn(Attr) -> bool)
    requires
        module.is_spv(),
        attrs_made(module),
        forall|attr: Attr| #[trigger] picks(attr) <==> belongs(attr, section),
    ensures
        all_fit(section_insts(module.spec_cx(), module.new_ids(), module.miscs(), section))
            <==> attrs_short(module, picks),
{
    let cx = module.spec_cx();
    let miscs = module.miscs();
    lemma_own_insts(module);
    lemma_made(module);
    lemma_section_short(cx, module.new_ids(), miscs, section);
    if attrs_short(module, picks) {
        assert forall|i: int, j: int|
            0 <= i < miscs.len() && 0 <= j < cx.spec_attrs(miscs[i].attrs).len()
                && miscs[i].output is Some && attr_section(cx.spec_attrs(miscs[i].attrs)[j])
                == Some(section) implies attr_short(
            #[trigger] cx.spec_attrs(miscs[i].attrs)[j],
        ) by {
            assert(picks(attrs_of(module, own_insts(module)[i])[j]));
            assert(attr_short(attrs_of(module, own_insts(module)[i])[j]));
        }
    }
    if section_is_short(cx, miscs, section) {
        assert forall|i: int, j: int|
            0 <= i < miscs.len() && 0 <= j < attrs_of(module, miscs[i]).len()
                && miscs[i].output is Some && picks(
                attrs_of(module, miscs[i])[j],
            ) implies attr_short(#[trigger] attrs_of(module, miscs[i])[j]) by {
            assert(attr_section(cx.spec_attrs(miscs[i].attrs)[j]) == Some(section));
            assert(attr_short(cx.spec_attrs(miscs[i].attrs)[j]));
        }
    }
}

} // verus!
