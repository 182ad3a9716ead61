//! What holds of lifted modules as a whole.
use crate::ir::{Context, Misc, Module};
use crate::order;
use crate::order::ascending;
use crate::spv;
use crate::spv::attrs::{attrs_resolved, section_insts, AttrSection};
use crate::spv::body::{body_insts, last_insts, misc_resolved};
use crate::spv::grammar::{
    Opcode, OP_EXTENSION, OP_EXT_INST_IMPORT, OP_MODULE_PROCESSED, OP_SOURCE_EXTENSION, OP_STRING,
};
use crate::spv::ids::IdMaps;
use crate::spv::laws::words::{law_insts_read_back, read_insts};
use crate::spv::lift::{debug_insts, entry_insts, lemma_ids_cover_needs, preamble_insts, provided};
use crate::spv::sections::{capability_inst, interned_insts, spec_string_insts};
use crate::spv::sources::{source_insts, sources_whole};
use crate::spv::write::{
    all_fit, fits, inst_words, insts_words, known, lemma_stop_add, lemma_stop_known, resolved, stop,
    Stop,
};
use crate::spv::{Dialect, Id, InstView};
use vstd::prelude::*;

verus! {

impl Module {
    /// Whether all that the module refers to is there, labels and attributes have something
    /// that they are about, and source code is not cut inside a character.
    pub open spec fn well_formed(self) -> bool {
        &&& self.attrs_known()
        &&& forall|name: u32| #[trigger]
            self.needs_ids().ext_inst_imports.contains(name) ==> self.spec_cx().has_str(name)
        &&& forall|name: u32| #[trigger]
            self.needs_ids().debug_strings.contains(name) ==> self.spec_cx().has_str(name)
        &&& attrs_resolved(self.spec_cx(), self.miscs(), self.new_ids())
        &&& forall|i: int|
            0 <= i < self.miscs().len() ==> misc_resolved(
                #[trigger] self.miscs()[i],
                self.new_ids(),
            )
        &&& self.is_spv() ==> sources_whole(self.debug_info->Spv_0.source_languages@)
    }
}

/// Whether all of some instructions can be made.
pub open spec fn all_known(insts: Seq<Option<InstView>>) -> bool {
    forall|i: int| 0 <= i < insts.len() ==> (#[trigger] insts[i]) is Some
}

proof fn lemma_all_known_add(a: Seq<Option<InstView>>, b: Seq<Option<InstView>>)
    requires
        all_known(a),
        all_known(b),
    ensures
        all_known(a + b),
{
    assert forall|i: int| 0 <= i < (a + b).len() implies (#[trigger] (a + b)[i]) is Some by {
        if i < a.len() {
            assert(a[i] is Some);
        } else {
            assert(b[i - a.len()] is Some);
        }
    }
}

pub(crate) proof fn lemma_all_known_parts(a: Seq<Option<InstView>>, b: Seq<Option<InstView>>)
    requires
        all_known(a + b),
    ensures
        all_known(a),
        all_known(b),
{
    assert forall|i: int| 0 <= i < a.len() implies (#[trigger] a[i]) is Some by {
        assert((a + b)[i] is Some);
    }
    assert forall|i: int| 0 <= i < b.len() implies (#[trigger] b[i]) is Some by {
        assert((a + b)[a.len() + i] is Some);
    }
}

/// Where nothing stops the emission, all instructions can be made, and fit.
pub(crate) proof fn lemma_stop_none(insts: Seq<Option<InstView>>)
    requires
        stop(insts) is None,
    ensures
        all_known(insts),
        all_fit(resolved(insts)),
    decreases insts.len(),
{
    if insts.len() > 0 {
        let rest = insts.drop_last();
        lemma_stop_none(rest);
        assert forall|i: int| 0 <= i < insts.len() implies (#[trigger] insts[i]) is Some by {
            if i < rest.len() {
                assert(rest[i] is Some);
            }
        }
        assert forall|i: int| 0 <= i < insts.len() implies #[trigger] fits(
            resolved(insts)[i],
        ) by {
            if i < rest.len() {
                assert(fits(resolved(rest)[i]));
            }
        }
    }
}

proof fn lemma_all_known_stop(insts: Seq<Option<InstView>>)
    requires
        all_known(insts),
    ensures
        stop(insts) != Some(Stop::Unresolved),
    decreases insts.len(),
{
    if insts.len() > 0 {
        let rest = insts.drop_last();
        assert forall|i: int| 0 <= i < rest.len() implies (#[trigger] rest[i]) is Some by {
            assert(insts[i] is Some);
        }
        lemma_all_known_stop(rest);
        assert(insts[insts.len() - 1] is Some);
    }
}

proof fn lemma_interned_known(opcode: Opcode, cx: Context, ids: Map<u32, Id>)
    requires
        ids.dom().finite(),
        forall|name: u32| #[trigger] ids.contains_key(name) ==> cx.has_str(name),
    ensures
        all_known(interned_insts(opcode, cx, ids)),
{
    let names = ascending(ids.dom());
    order::lemma_ascending(ids.dom());
    assert forall|i: int| 0 <= i < names.len() implies (#[trigger] interned_insts(
        opcode,
        cx,
        ids,
    )[i]) is Some by {
        assert(names.to_set().contains(names[i]));
        assert(ids.contains_key(names[i]));
    }
}

pub(crate) proof fn lemma_body_known(cx: Context, miscs: Seq<Misc>, ids: IdMaps)
    requires
        forall|i: int| 0 <= i < miscs.len() ==> misc_resolved(#[trigger] miscs[i], ids),
    ensures
        all_known(body_insts(cx, miscs, ids)),
    decreases miscs.len(),
{
    if miscs.len() > 0 {
        let rest = miscs.drop_last();
        assert forall|i: int| 0 <= i < rest.len() implies misc_resolved(#[trigger] rest[i], ids) by {
            assert(misc_resolved(miscs[i], ids));
        }
        lemma_body_known(cx, rest, ids);
        assert(misc_resolved(miscs[miscs.len() - 1], ids));
        assert(all_known(last_insts(cx, miscs, ids)));
        lemma_all_known_add(body_insts(cx, rest, ids), last_insts(cx, miscs, ids));
    }
}

/// A well-formed module can be lifted.
pub proof fn law_well_formed_is_liftable(module: Module)
    requires
        module.well_formed(),
    ensures
        module.liftable(),
{
    if module.is_spv() {
        let cx = module.spec_cx();
        let dialect = module.dialect->Spv_0;
        let debug_info = module.debug_info->Spv_0;
        let miscs = module.miscs();
        let ids = module.new_ids();
        lemma_ids_cover_needs(module);
        lemma_interned_known(OP_EXT_INST_IMPORT, cx, ids.ext_inst_imports);
        lemma_interned_known(OP_STRING, cx, ids.debug_strings);
        lemma_body_known(cx, miscs, ids);
        assert(all_known(preamble_insts(cx, dialect, ids)));
        assert(all_known(entry_insts(cx, miscs, ids)));
        assert(all_known(debug_insts(cx, debug_info, miscs, ids)));
        assert(all_known(module.emission()));
        lemma_all_known_stop(module.emission());
    }
}

/// A module that has been lifted is well-formed, and the instructions come in the order that
/// SPIR-V prescribes.
pub proof fn law_layout(module: Module)
    requires
        module.lifted_words() is Ok,
    ensures
        module.well_formed(),
        all_fit(module.lifted_insts()),
        ({
            let cx = module.spec_cx();
            let dialect = module.dialect->Spv_0;
            let debug_info = module.debug_info->Spv_0;
            let miscs = module.miscs();
            let ids = module.new_ids();
            module.lifted_insts() == dialect.capabilities@.map_values(
                |cap: u32| capability_inst(cap),
            )
                + spec_string_insts(OP_EXTENSION, dialect.extensions@)
                + resolved(interned_insts(OP_EXT_INST_IMPORT, cx, ids.ext_inst_imports))
                + seq![dialect.spec_memory_model_inst()]
                + section_insts(cx, ids, miscs, AttrSection::EntryPoints)
                + section_insts(cx, ids, miscs, AttrSection::ExecutionModes)
                + resolved(interned_insts(OP_STRING, cx, ids.debug_strings))
                + source_insts(debug_info.source_languages@, ids)
                + spec_string_insts(OP_SOURCE_EXTENSION, debug_info.source_extensions@)
                + section_insts(cx, ids, miscs, AttrSection::DebugNames)
                + spec_string_insts(OP_MODULE_PROCESSED, debug_info.module_processes@)
                + section_insts(cx, ids, miscs, AttrSection::Decorations)
                + resolved(body_insts(cx, miscs, ids))
        }),
{
    let cx = module.spec_cx();
    let ids = module.new_ids();
    lemma_stop_none(module.emission());
    lemma_emission_parts(module);
    lemma_ids_cover_needs(module);
    lemma_interned_names(OP_EXT_INST_IMPORT, cx, ids.ext_inst_imports);
    lemma_interned_names(OP_STRING, cx, ids.debug_strings);
    assert forall|name: u32| #[trigger]
        module.needs_ids().ext_inst_imports.contains(name) implies cx.has_str(name) by {
        assert(ids.ext_inst_imports.contains_key(name));
    }
    assert forall|name: u32| #[trigger]
        module.needs_ids().debug_strings.contains(name) implies cx.has_str(name) by {
        assert(ids.debug_strings.contains_key(name));
    }
    lemma_body_resolved(cx, module.miscs(), ids);
    lemma_layout(module);
}

/// The order of the instructions, where all that are made from attributes and from source code
/// can be made.
pub(crate) proof fn lemma_layout(module: Module)
    requires
        attrs_resolved(module.spec_cx(), module.miscs(), module.new_ids()),
        sources_whole(module.debug_info->Spv_0.source_languages@),
    ensures
        ({
            let cx = module.spec_cx();
            let dialect = module.dialect->Spv_0;
            let debug_info = module.debug_info->Spv_0;
            let miscs = module.miscs();
            let ids = module.new_ids();
            module.lifted_insts() == dialect.capabilities@.map_values(
                |cap: u32| capability_inst(cap),
            )
                + spec_string_insts(OP_EXTENSION, dialect.extensions@)
                + resolved(interned_insts(OP_EXT_INST_IMPORT, cx, ids.ext_inst_imports))
                + seq![dialect.spec_memory_model_inst()]
                + section_insts(cx, ids, miscs, AttrSection::EntryPoints)
                + section_insts(cx, ids, miscs, AttrSection::ExecutionModes)
                + resolved(interned_insts(OP_STRING, cx, ids.debug_strings))
                + source_insts(debug_info.source_languages@, ids)
                + spec_string_insts(OP_SOURCE_EXTENSION, debug_info.source_extensions@)
                + section_insts(cx, ids, miscs, AttrSection::DebugNames)
                + spec_string_insts(OP_MODULE_PROCESSED, debug_info.module_processes@)
                + section_insts(cx, ids, miscs, AttrSection::Decorations)
                + resolved(body_insts(cx, miscs, ids))
        }),
{
    let cx = module.spec_cx();
    let dialect = module.dialect->Spv_0;
    let debug_info = module.debug_info->Spv_0;
    let miscs = module.miscs();
    let ids = module.new_ids();
    lemma_resolved_preamble(cx, dialect, ids);
    lemma_resolved_entries(cx, miscs, ids);
    lemma_resolved_debug(cx, debug_info, miscs, ids);
    let p1 = preamble_insts(cx, dialect, ids);
    let p2 = entry_insts(cx, miscs, ids);
    let p3 = debug_insts(cx, debug_info, miscs, ids);
    let decorations = section_insts(cx, ids, miscs, AttrSection::Decorations);
    let body = body_insts(cx, miscs, ids);
    lemma_stop_known(decorations);
    lemma_stop_add(p1, p2);
    lemma_stop_add(p1 + p2, p3);
    lemma_stop_add(p1 + p2 + p3, known(decorations));
    lemma_stop_add(p1 + p2 + p3 + known(decorations), body);
    assert(module.lifted_insts() =~= resolved(p1) + resolved(p2) + resolved(p3) + decorations
        + resolved(body));
    assert(module.lifted_insts() =~= dialect.capabilities@.map_values(
        |cap: u32| capability_inst(cap),
    ) + spec_string_insts(OP_EXTENSION, dialect.extensions@) + resolved(
        interned_insts(OP_EXT_INST_IMPORT, cx, ids.ext_inst_imports),
    ) + seq![dialect.spec_memory_model_inst()] + section_insts(
        cx,
        ids,
        miscs,
        AttrSection::EntryPoints,
    ) + section_insts(cx, ids, miscs, AttrSection::ExecutionModes) + resolved(
        interned_insts(OP_STRING, cx, ids.debug_strings),
    ) + source_insts(debug_info.source_languages@, ids) + spec_string_insts(
        OP_SOURCE_EXTENSION,
        debug_info.source_extensions@,
    ) + section_insts(cx, ids, miscs, AttrSection::DebugNames) + spec_string_insts(
        OP_MODULE_PROCESSED,
        debug_info.module_processes@,
    ) + decorations + resolved(body));
}

/// Where all of a module's instructions can be made, so can those of each part of it.
pub(crate) proof fn lemma_emission_parts(module: Module)
    requires
        all_known(module.emission()),
    ensures
        attrs_resolved(module.spec_cx(), module.miscs(), module.new_ids()),
        sources_whole(module.debug_info->Spv_0.source_languages@),
        all_known(
            interned_insts(
                OP_EXT_INST_IMPORT,
                module.spec_cx(),
                module.new_ids().ext_inst_imports,
            ),
        ),
        all_known(
            interned_insts(OP_STRING, module.spec_cx(), module.new_ids().debug_strings),
        ),
        all_known(body_insts(module.spec_cx(), module.miscs(), module.new_ids())),
{
    let cx = module.spec_cx();
    let dialect = module.dialect->Spv_0;
    let debug_info = module.debug_info->Spv_0;
    let miscs = module.miscs();
    let ids = module.new_ids();
    let p1 = preamble_insts(cx, dialect, ids);
    let p2 = entry_insts(cx, miscs, ids);
    let p3 = debug_insts(cx, debug_info, miscs, ids);
    let p4 = known(section_insts(cx, ids, miscs, AttrSection::Decorations));
    let p5 = body_insts(cx, miscs, ids);
    lemma_all_known_parts(p1 + p2 + p3 + p4, p5);
    lemma_all_known_parts(p1 + p2 + p3, p4);
    lemma_all_known_parts(p1 + p2, p3);
    lemma_all_known_parts(p1, p2);

    let capabilities = known(dialect.capabilities@.map_values(|cap: u32| capability_inst(cap)));
    let extensions = known(spec_string_insts(OP_EXTENSION, dialect.extensions@));
    let imports = interned_insts(OP_EXT_INST_IMPORT, cx, ids.ext_inst_imports);
    let model = known(seq![dialect.spec_memory_model_inst()]);
    lemma_all_known_parts(capabilities + extensions + imports, model);
    lemma_all_known_parts(capabilities + extensions, imports);

    let check = provided(attrs_resolved(cx, miscs, ids));
    let entry_points = known(section_insts(cx, ids, miscs, AttrSection::EntryPoints));
    let modes = known(section_insts(cx, ids, miscs, AttrSection::ExecutionModes));
    lemma_all_known_parts(check + entry_points, modes);
    lemma_all_known_parts(check, entry_points);
    if !attrs_resolved(cx, miscs, ids) {
        assert(check[0] is None);
    }

    let strings = interned_insts(OP_STRING, cx, ids.debug_strings);
    let whole = provided(sources_whole(debug_info.source_languages@));
    let sources = known(source_insts(debug_info.source_languages@, ids));
    let source_extensions = known(
        spec_string_insts(OP_SOURCE_EXTENSION, debug_info.source_extensions@),
    );
    let names = known(section_insts(cx, ids, miscs, AttrSection::DebugNames));
    let processes = known(spec_string_insts(OP_MODULE_PROCESSED, debug_info.module_processes@));
    lemma_all_known_parts(strings + whole + sources + source_extensions + names, processes);
    lemma_all_known_parts(strings + whole + sources + source_extensions, names);
    lemma_all_known_parts(strings + whole + sources, source_extensions);
    lemma_all_known_parts(strings + whole, sources);
    lemma_all_known_parts(strings, whole);
    if !sources_whole(debug_info.source_languages@) {
        assert(whole[0] is None);
    }
}

proof fn lemma_interned_names(opcode: Opcode, cx: Context, ids: Map<u32, Id>)
    requires
        ids.dom().finite(),
        all_known(interned_insts(opcode, cx, ids)),
    ensures
        forall|name: u32| #[trigger] ids.contains_key(name) ==> cx.has_str(name),
{
    let names = ascending(ids.dom());
    order::lemma_ascending(ids.dom());
    assert forall|name: u32| #[trigger] ids.contains_key(name) implies cx.has_str(name) by {
        assert(names.to_set().contains(name));
        let i = choose|i: int| 0 <= i < names.len() && names[i] == name;
        assert(interned_insts(opcode, cx, ids)[i] is Some);
    }
}

proof fn lemma_body_resolved(cx: Context, miscs: Seq<Misc>, ids: IdMaps)
    requires
        all_known(body_insts(cx, miscs, ids)),
    ensures
        forall|i: int| 0 <= i < miscs.len() ==> misc_resolved(#[trigger] miscs[i], ids),
    decreases miscs.len(),
{
    if miscs.len() > 0 {
        let rest = miscs.drop_last();
        let last = last_insts(cx, miscs, ids);
        lemma_all_known_parts(body_insts(cx, rest, ids), last);
        lemma_body_resolved(cx, rest, ids);
        if !misc_resolved(miscs.last(), ids) {
            assert(last[0] is None);
        }
        assert forall|i: int| 0 <= i < miscs.len() implies misc_resolved(
            #[trigger] miscs[i],
            ids,
        ) by {
            if i < rest.len() {
                assert(misc_resolved(rest[i], ids));
            }
        }
    }
}

proof fn lemma_resolved_preamble(cx: Context, dialect: Dialect, ids: IdMaps)
    ensures
        resolved(preamble_insts(cx, dialect, ids)) == dialect.capabilities@.map_values(
            |cap: u32| capability_inst(cap),
        ) + spec_string_insts(OP_EXTENSION, dialect.extensions@) + resolved(
            interned_insts(OP_EXT_INST_IMPORT, cx, ids.ext_inst_imports),
        ) + seq![dialect.spec_memory_model_inst()],
{
    let capabilities = dialect.capabilities@.map_values(|cap: u32| capability_inst(cap));
    let extensions = spec_string_insts(OP_EXTENSION, dialect.extensions@);
    let imports = interned_insts(OP_EXT_INST_IMPORT, cx, ids.ext_inst_imports);
    let model = seq![dialect.spec_memory_model_inst()];
    lemma_stop_known(capabilities);
    lemma_stop_known(extensions);
    lemma_stop_known(model);
    lemma_stop_add(known(capabilities), known(extensions));
    lemma_stop_add(known(capabilities) + known(extensions), imports);
    lemma_stop_add(known(capabilities) + known(extensions) + imports, known(model));
}

proof fn lemma_resolved_entries(cx: Context, miscs: Seq<Misc>, ids: IdMaps)
    requires
        attrs_resolved(cx, miscs, ids),
    ensures
        resolved(entry_insts(cx, miscs, ids)) == section_insts(
            cx,
            ids,
            miscs,
            AttrSection::EntryPoints,
        ) + section_insts(cx, ids, miscs, AttrSection::ExecutionModes),
{
    let entry_points = section_insts(cx, ids, miscs, AttrSection::EntryPoints);
    let modes = section_insts(cx, ids, miscs, AttrSection::ExecutionModes);
    let check = provided(attrs_resolved(cx, miscs, ids));
    lemma_stop_known(entry_points);
    lemma_stop_known(modes);
    lemma_stop_add(check, known(entry_points));
    lemma_stop_add(check + known(entry_points), known(modes));
    assert(resolved(check) + entry_points =~= entry_points);
}

proof fn lemma_resolved_debug(
    cx: Context,
    debug_info: spv::ModuleDebugInfo,
    miscs: Seq<Misc>,
    ids: IdMaps,
)
    requires
        sources_whole(debug_info.source_languages@),
    ensures
        resolved(debug_insts(cx, debug_info, miscs, ids)) == resolved(
            interned_insts(OP_STRING, cx, ids.debug_strings),
        ) + source_insts(debug_info.source_languages@, ids) + spec_string_insts(
            OP_SOURCE_EXTENSION,
            debug_info.source_extensions@,
        ) + section_insts(cx, ids, miscs, AttrSection::DebugNames) + spec_string_insts(
            OP_MODULE_PROCESSED,
            debug_info.module_processes@,
        ),
{
    let strings = interned_insts(OP_STRING, cx, ids.debug_strings);
    let check = provided(sources_whole(debug_info.source_languages@));
    let sources = source_insts(debug_info.source_languages@, ids);
    let extensions = spec_string_insts(OP_SOURCE_EXTENSION, debug_info.source_extensions@);
    let names = section_insts(cx, ids, miscs, AttrSection::DebugNames);
    let processes = spec_string_insts(OP_MODULE_PROCESSED, debug_info.module_processes@);
    lemma_stop_known(sources);
    lemma_stop_known(extensions);
    lemma_stop_known(names);
    lemma_stop_known(processes);
    lemma_stop_add(strings, check);
    lemma_stop_add(strings + check, known(sources));
    lemma_stop_add(strings + check + known(sources), known(extensions));
    lemma_stop_add(strings + check + known(sources) + known(extensions), known(names));
    lemma_stop_add(
        strings + check + known(sources) + known(extensions) + known(names),
        known(processes),
    );
    assert(resolved(strings) + resolved(check) =~= resolved(strings));
}

/// The header and the instructions of a lifted module can be read back from its words.
pub proof fn law_module_reads_back(module: Module)
    requires
        module.lifted_words() is Ok,
    ensures
        module.lifted_words()->Ok_0.take(5) == module.lifted_header(),
        read_insts(module.lifted_words()->Ok_0.skip(5)) == Some(
            module.lifted_insts().map_values(|inst: InstView| inst_words(inst)),
        ),
{
    let words = module.lifted_words()->Ok_0;
    lemma_stop_none(module.emission());
    law_insts_read_back(module.lifted_insts());
    assert(words.take(5) =~= module.lifted_header());
    assert(words.skip(5) =~= insts_words(module.lifted_insts()));
}

} // verus!
