//! Lifting of whole modules.
use crate::ir::{Context, Misc, Module, ModuleDebugInfo, ModuleDialect};
use crate::order;
use crate::spv;
use crate::spv::attrs::{
    are_attrs_resolved, attrs_resolved, collect_attr_insts, misc_attrs_resolved, section_insts,
    AttrInsts, AttrSection,
};
use crate::spv::body::{body_insts, emit_body, lines_have_ids};
use crate::spv::grammar::{
    OP_EXTENSION, OP_EXT_INST_IMPORT, OP_MODULE_PROCESSED, OP_SOURCE_EXTENSION, OP_STRING,
};
use crate::spv::ids::{
    bound_from_one, ids_from_one, lemma_allocation_from_one, AllocatedIds, IdBound, IdMaps,
};
use crate::spv::needs::{
    lemma_module_needs_finite, misc_needs, module_needs, source_paths, Needs, NeedsIdsCollector,
};
use crate::spv::sections::{
    capability_inst, emit_interned, header, interned_insts, spec_header, spec_string_insts,
};
use crate::spv::sources::{are_sources_whole, list_source_insts, source_insts, sources_whole};
use crate::spv::write::{
    insts_words, known, lemma_insts_words_add, lemma_stop_add, lemma_stop_known, lemma_stop_one,
    resolved, stop, words_bytes, LiftError, ModuleEmitter, Stop,
};
use crate::spv::{inst_views, Dialect, Inst, InstView};
use vstd::prelude::*;

verus! {

/// Nothing, if a condition holds, or else something that stops the emission.
pub open spec fn provided(condition: bool) -> Seq<Option<InstView>> {
    if condition {
        seq![]
    } else {
        seq![None]
    }
}

/// What a module declares before anything else.
pub open spec fn preamble_insts(cx: Context, dialect: Dialect, ids: IdMaps) -> Seq<
    Option<InstView>,
> {
    known(dialect.capabilities@.map_values(|cap: u32| capability_inst(cap)))
        + known(spec_string_insts(OP_EXTENSION, dialect.extensions@))
        + interned_insts(OP_EXT_INST_IMPORT, cx, ids.ext_inst_imports)
        + known(seq![dialect.spec_memory_model_inst()])
}

/// The entry points of a module, and how they are executed.
pub open spec fn entry_insts(cx: Context, miscs: Seq<Misc>, ids: IdMaps) -> Seq<Option<InstView>> {
    provided(attrs_resolved(cx, miscs, ids))
        + known(section_insts(cx, ids, miscs, AttrSection::EntryPoints))
        + known(section_insts(cx, ids, miscs, AttrSection::ExecutionModes))
}

/// The debug information about a module and the names in it.
pub open spec fn debug_insts(
    cx: Context,
    debug_info: spv::ModuleDebugInfo,
    miscs: Seq<Misc>,
    ids: IdMaps,
) -> Seq<Option<InstView>> {
    interned_insts(OP_STRING, cx, ids.debug_strings)
        + provided(sources_whole(debug_info.source_languages@))
        + known(source_insts(debug_info.source_languages@, ids))
        + known(spec_string_insts(OP_SOURCE_EXTENSION, debug_info.source_extensions@))
        + known(section_insts(cx, ids, miscs, AttrSection::DebugNames))
        + known(spec_string_insts(OP_MODULE_PROCESSED, debug_info.module_processes@))
}

/// The instructions of a lifted module, in the order that SPIR-V prescribes.
pub open spec fn module_insts(
    cx: Context,
    dialect: Dialect,
    debug_info: spv::ModuleDebugInfo,
    miscs: Seq<Misc>,
    ids: IdMaps,
) -> Seq<Option<InstView>> {
    preamble_insts(cx, dialect, ids)
        + entry_insts(cx, miscs, ids)
        + debug_insts(cx, debug_info, miscs, ids)
        + known(section_insts(cx, ids, miscs, AttrSection::Decorations))
        + body_insts(cx, miscs, ids)
}

/// What the emission of `insts` comes to: the words are appended, or it stops.
pub(crate) open spec fn emitted(
    insts: Seq<Option<InstView>>,
    before: Seq<u32>,
    after: Seq<u32>,
    r: Result<(), Stop>,
) -> bool {
    match stop(insts) {
        Some(stop) => r == Err::<(), Stop>(stop),
        None => r is Ok && after == before + insts_words(resolved(insts)),
    }
}

/// The words after `part` has been emitted, which comes after `before`.
proof fn lemma_emit_next(
    before: Seq<Option<InstView>>,
    part: Seq<Option<InstView>>,
    start: Seq<u32>,
    was: Seq<u32>,
    now: Seq<u32>,
)
    requires
        was == start + insts_words(resolved(before)),
        now == was + insts_words(resolved(part)),
    ensures
        now == start + insts_words(resolved(before + part)),
{
    lemma_stop_add(before, part);
    lemma_insts_words_add(resolved(before), resolved(part));
    assert(now =~= start + insts_words(resolved(before + part)));
}

/// What comes of a condition.
proof fn lemma_provided(condition: bool)
    ensures
        stop(provided(condition)) == (if condition {
            None
        } else {
            Some(Stop::Unresolved)
        }),
        condition ==> insts_words(resolved(provided(condition))) == Seq::<u32>::empty(),
{
    lemma_stop_one(None);
    assert(condition ==> resolved(provided(condition)) =~= seq![]);
}

/// Emits what a module declares before anything else.
fn emit_preamble(
    emitter: &mut ModuleEmitter,
    cx: &Context,
    dialect: &Dialect,
    ids: &AllocatedIds,
) -> (r: Result<(), Stop>)
    ensures
        emitted(
            preamble_insts(*cx, *dialect, ids@),
            old(emitter).words@,
            final(emitter).words@,
            r,
        ),
{
    let ghost start = emitter.words@;
    let ghost capabilities = dialect.capabilities@.map_values(|cap: u32| capability_inst(cap));
    let ghost extensions = spec_string_insts(OP_EXTENSION, dialect.extensions@);
    let ghost model = seq![dialect.spec_memory_model_inst()];
    let ghost p1 = known(capabilities);
    let ghost p2 = known(extensions);
    let ghost p3 = interned_insts(OP_EXT_INST_IMPORT, *cx, ids@.ext_inst_imports);
    let ghost p4 = known(model);
    proof {
        lemma_stop_known(capabilities);
        lemma_stop_known(extensions);
        lemma_stop_known(model);
        lemma_stop_add(p1, p2);
        lemma_stop_add(p1 + p2, p3);
        lemma_stop_add(p1 + p2 + p3, p4);
    }
    if let Err(e) = emitter.push_insts(&dialect.capability_insts()) {
        return Err(e);
    }
    let ghost w1 = emitter.words@;
    if let Err(e) = emitter.push_insts(&dialect.extension_insts()) {
        return Err(e);
    }
    let ghost w2 = emitter.words@;
    if let Err(e) = emit_interned(emitter, OP_EXT_INST_IMPORT, cx, &ids.ext_inst_imports) {
        return Err(e);
    }
    let ghost w3 = emitter.words@;
    let mut memory_model: Vec<Inst> = Vec::new();
    memory_model.push(dialect.memory_model_inst());
    assert(inst_views(memory_model@) =~= model);
    if let Err(e) = emitter.push_insts(&memory_model) {
        return Err(e);
    }
    proof {
        lemma_emit_next(p1, p2, start, w1, w2);
        lemma_emit_next(p1 + p2, p3, start, w2, w3);
        lemma_emit_next(p1 + p2 + p3, p4, start, w3, emitter.words@);
    }
    Ok(())
}

/// Emits the entry points of a module, and how they are executed. Returns all that is made
/// from attributes.
fn emit_entries(
    emitter: &mut ModuleEmitter,
    cx: &Context,
    miscs: &Vec<&Misc>,
    ids: &AllocatedIds,
) -> (r: Result<AttrInsts, Stop>)
    requires
        forall|i: int|
            0 <= i < miscs@.len() ==> {
                &&& cx.has_attrs((*#[trigger] miscs@[i]).attrs)
                &&& miscs@[i].spec_result_id() matches Some(id) ==> ids.old_outputs@.contains_key(
                    id,
                )
            },
    ensures
        match stop(entry_insts(*cx, miscs@.unref(), ids@)) {
            Some(stop) => r == Err::<AttrInsts, Stop>(stop),
            None => r matches Ok(attr_insts) && {
                &&& final(emitter).words@ == old(emitter).words@ + insts_words(
                    resolved(entry_insts(*cx, miscs@.unref(), ids@)),
                )
                &&& forall|s: AttrSection| #[trigger]
                    attr_insts.section(s) == section_insts(*cx, ids@, miscs@.unref(), s)
            },
        },
{
    let ghost start = emitter.words@;
    let ghost all = miscs@.unref();
    let ghost entry_points = section_insts(*cx, ids@, all, AttrSection::EntryPoints);
    let ghost modes = section_insts(*cx, ids@, all, AttrSection::ExecutionModes);
    let ghost p1 = provided(attrs_resolved(*cx, all, ids@));
    let ghost p2 = known(entry_points);
    let ghost p3 = known(modes);
    proof {
        lemma_provided(attrs_resolved(*cx, all, ids@));
        lemma_stop_known(entry_points);
        lemma_stop_known(modes);
        lemma_stop_add(p1, p2);
        lemma_stop_add(p1 + p2, p3);
    }
    if !are_attrs_resolved(cx, miscs, ids) {
        return Err(Stop::Unresolved);
    }
    assert forall|i: int| 0 <= i < miscs@.len() implies misc_attrs_resolved(
        *cx,
        *#[trigger] miscs@[i],
        ids@,
    ) by {
        assert(all[i] == *miscs@[i]);
    }
    let attr_insts = collect_attr_insts(cx, miscs, ids);
    assert(attr_insts.section(AttrSection::EntryPoints) == entry_points);
    assert(attr_insts.section(AttrSection::ExecutionModes) == modes);
    if let Err(e) = emitter.push_insts(&attr_insts.entry_points) {
        return Err(e);
    }
    let ghost w2 = emitter.words@;
    if let Err(e) = emitter.push_insts(&attr_insts.execution_modes) {
        return Err(e);
    }
    proof {
        assert(start =~= start + insts_words(resolved(p1)));
        lemma_emit_next(p1, p2, start, start, w2);
        lemma_emit_next(p1 + p2, p3, start, w2, emitter.words@);
    }
    Ok(attr_insts)
}

/// Emits the debug information about a module and the names in it.
fn emit_debug(
    emitter: &mut ModuleEmitter,
    cx: &Context,
    debug_info: &spv::ModuleDebugInfo,
    debug_names: &Vec<Inst>,
    miscs: &Vec<&Misc>,
    ids: &AllocatedIds,
) -> (r: Result<(), Stop>)
    requires
        inst_views(debug_names@) == section_insts(
            *cx,
            ids@,
            miscs@.unref(),
            AttrSection::DebugNames,
        ),
        source_paths(debug_info.source_languages@).subset_of(ids.debug_strings@.dom()),
    ensures
        emitted(
            debug_insts(*cx, *debug_info, miscs@.unref(), ids@),
            old(emitter).words@,
            final(emitter).words@,
            r,
        ),
{
    let ghost start = emitter.words@;
    let languages = &debug_info.source_languages;
    let ghost sources = source_insts(languages@, ids@);
    let ghost extensions = spec_string_insts(OP_SOURCE_EXTENSION, debug_info.source_extensions@);
    let ghost names = section_insts(*cx, ids@, miscs@.unref(), AttrSection::DebugNames);
    let ghost processes = spec_string_insts(OP_MODULE_PROCESSED, debug_info.module_processes@);
    let ghost p1 = interned_insts(OP_STRING, *cx, ids@.debug_strings);
    let ghost p2 = provided(sources_whole(languages@));
    let ghost p3 = known(sources);
    let ghost p4 = known(extensions);
    let ghost p5 = known(names);
    let ghost p6 = known(processes);
    proof {
        lemma_provided(sources_whole(languages@));
        lemma_stop_known(sources);
        lemma_stop_known(extensions);
        lemma_stop_known(names);
        lemma_stop_known(processes);
        lemma_stop_add(p1, p2);
        lemma_stop_add(p1 + p2, p3);
        lemma_stop_add(p1 + p2 + p3, p4);
        lemma_stop_add(p1 + p2 + p3 + p4, p5);
        lemma_stop_add(p1 + p2 + p3 + p4 + p5, p6);
    }
    if let Err(e) = emit_interned(emitter, OP_STRING, cx, &ids.debug_strings) {
        return Err(e);
    }
    let ghost w1 = emitter.words@;
    if !are_sources_whole(languages) {
        return Err(Stop::Unresolved);
    }
    if let Err(e) = emitter.push_insts(&list_source_insts(languages, ids)) {
        return Err(e);
    }
    let ghost w3 = emitter.words@;
    if let Err(e) = emitter.push_insts(&debug_info.source_extension_insts()) {
        return Err(e);
    }
    let ghost w4 = emitter.words@;
    if let Err(e) = emitter.push_insts(debug_names) {
        return Err(e);
    }
    let ghost w5 = emitter.words@;
    if let Err(e) = emitter.push_insts(&debug_info.module_processed_insts()) {
        return Err(e);
    }
    proof {
        assert(w1 =~= w1 + insts_words(resolved(p2)));
        lemma_emit_next(p1, p2, start, w1, w1);
        lemma_emit_next(p1 + p2, p3, start, w1, w3);
        lemma_emit_next(p1 + p2 + p3, p4, start, w3, w4);
        lemma_emit_next(p1 + p2 + p3 + p4, p5, start, w4, w5);
        lemma_emit_next(p1 + p2 + p3 + p4 + p5, p6, start, w5, emitter.words@);
    }
    Ok(())
}

impl Module {
    /// Whether the module is in the SPIR-V dialect.
    pub open spec fn is_spv(self) -> bool {
        self.dialect is Spv && self.debug_info is Spv
    }

    /// Whether the attributes of all instructions can be looked up.
    pub open spec fn attrs_known(self) -> bool {
        forall|i: int|
            0 <= i < self.miscs().len() ==> self.spec_cx().has_attrs(
                (#[trigger] self.miscs()[i]).attrs,
            )
    }

    /// What the module needs IDs for.
    pub open spec fn needs_ids(self) -> Needs {
        module_needs(self.spec_cx(), self)
    }

    /// The IDs that the parts of the module get.
    pub open spec fn new_ids(self) -> IdMaps {
        ids_from_one(self.needs_ids())
    }

    /// The smallest number that is larger than all the IDs.
    pub open spec fn id_bound(self) -> nat {
        bound_from_one(self.needs_ids())
    }

    /// The header of the lifted module.
    pub open spec fn lifted_header(self) -> Seq<u32> {
        spec_header(self.dialect->Spv_0, self.debug_info->Spv_0, self.id_bound() as u32)
    }

    /// The instructions of the lifted module, as far as they can be made.
    pub open spec fn emission(self) -> Seq<Option<InstView>> {
        module_insts(
            self.spec_cx(),
            self.dialect->Spv_0,
            self.debug_info->Spv_0,
            self.miscs(),
            self.new_ids(),
        )
    }

    /// The instructions of the lifted module, where all can be made.
    pub open spec fn lifted_insts(self) -> Seq<InstView> {
        resolved(self.emission())
    }

    /// The words of the lifted module, or what stops the lifting.
    pub open spec fn lifted_words(self) -> Result<Seq<u32>, Stop> {
        if !self.is_spv() {
            Err(Stop::Error(LiftError::NotSpv))
        } else if !self.attrs_known() {
            Err(Stop::Unresolved)
        } else if self.id_bound() > u32::MAX {
            Err(Stop::Error(LiftError::IdBoundTooLarge))
        } else {
            match stop(self.emission()) {
                Some(stop) => Err(stop),
                None => Ok(self.lifted_header() + insts_words(self.lifted_insts())),
            }
        }
    }

    /// Whether lifting does not come across an instruction that cannot be made.
    pub open spec fn liftable(self) -> bool {
        self.lifted_words() != Err::<Seq<u32>, Stop>(Stop::Unresolved)
    }

    /// Checks whether the attributes of all instructions can be looked up.
    fn are_attrs_known(&self, miscs: &Vec<&Misc>) -> (r: bool)
        requires
            miscs@.unref() == self.miscs(),
        ensures
            r == self.attrs_known(),
    {
        let mut i: usize = 0;
        while i < miscs.len()
            invariant
                i <= miscs@.len(),
                miscs@.unref() == self.miscs(),
                forall|j: int|
                    0 <= j < i ==> self.spec_cx().has_attrs((#[trigger] self.miscs()[j]).attrs),
            decreases miscs@.len() - i,
        {
            assert(*miscs@[i as int] == self.miscs()[i as int]);
            if miscs[i].attrs as usize >= self.cx.attr_sets.len() {
                assert(!self.spec_cx().has_attrs(self.miscs()[i as int].attrs));
                return false;
            }
            i = i + 1;
        }
        true
    }

    /// Emits the instructions of the lifted module.
    fn emit_insts(
        &self,
        emitter: &mut ModuleEmitter,
        dialect: &Dialect,
        debug_info: &spv::ModuleDebugInfo,
        ids: &AllocatedIds,
    ) -> (r: Result<(), Stop>)
        requires
            self.is_spv(),
            self.attrs_known(),
            *dialect == self.dialect->Spv_0,
            *debug_info == self.debug_info->Spv_0,
            ids@ == self.new_ids(),
        ensures
            emitted(self.emission(), old(emitter).words@, final(emitter).words@, r),
    {
        let cx: &Context = &self.cx;
        let miscs = self.globals_and_func_insts();
        let ghost all = self.miscs();
        let ghost start = emitter.words@;
        let ghost decorations = section_insts(*cx, ids@, all, AttrSection::Decorations);
        let ghost p1 = preamble_insts(*cx, *dialect, ids@);
        let ghost p2 = entry_insts(*cx, all, ids@);
        let ghost p3 = debug_insts(*cx, *debug_info, all, ids@);
        let ghost p4 = known(decorations);
        let ghost p5 = body_insts(*cx, all, ids@);
        proof {
            lemma_stop_add(p1, p2);
            lemma_stop_add(p1 + p2, p3);
            lemma_stop_add(p1 + p2 + p3, p4);
            lemma_stop_add(p1 + p2 + p3 + p4, p5);
            lemma_stop_known(decorations);
            lemma_ids_cover_needs(*self);
            assert forall|i: int| 0 <= i < miscs@.len() implies {
                &&& cx.has_attrs((*#[trigger] miscs@[i]).attrs)
                &&& lines_have_ids(*cx, *miscs@[i], ids@)
                &&& miscs@[i].spec_result_id() matches Some(id) ==> ids.old_outputs@.contains_key(
                    id,
                )
            } by {
                assert(*miscs@[i] == self.miscs()[i]);
                assert(self.spec_cx().has_attrs(self.miscs()[i].attrs));
                lemma_misc_needs_covered(*self, i);
                if let Some(id) = miscs@[i].spec_result_id() {
                    assert(misc_needs(*cx, *miscs@[i]).old_outputs.contains(id));
                }
            }
        }

        if let Err(e) = emit_preamble(emitter, cx, dialect, ids) {
            return Err(e);
        }
        let ghost w1 = emitter.words@;

        let attr_insts = match emit_entries(emitter, cx, &miscs, ids) {
            Ok(attr_insts) => attr_insts,
            Err(e) => {
                return Err(e);
            },
        };
        let ghost w2 = emitter.words@;
        assert(attr_insts.section(AttrSection::DebugNames) == section_insts(
            *cx,
            ids@,
            all,
            AttrSection::DebugNames,
        ));
        if let Err(e) = emit_debug(emitter, cx, debug_info, &attr_insts.debug_names, &miscs, ids) {
            return Err(e);
        }
        let ghost w3 = emitter.words@;
        assert(attr_insts.section(AttrSection::Decorations) == decorations);
        if let Err(e) = emitter.push_insts(&attr_insts.decorations) {
            return Err(e);
        }
        let ghost w4 = emitter.words@;
        if let Err(e) = emit_body(emitter, cx, &miscs, ids) {
            return Err(e);
        }
        proof {
            lemma_emit_next(p1, p2, start, w1, w2);
            lemma_emit_next(p1 + p2, p3, start, w2, w3);
            lemma_emit_next(p1 + p2 + p3, p4, start, w3, w4);
            lemma_emit_next(p1 + p2 + p3 + p4, p5, start, w4, emitter.words@);
        }
        Ok(())
    }

    /// Lifts the module to the words of a SPIR-V module, as far as all of its instructions can
    /// be made.
    pub fn try_lift(&self) -> (r: Result<ModuleEmitter, Stop>)
        ensures
            match self.lifted_words() {
                Ok(words) => r matches Ok(emitter) && emitter.words@ == words,
                Err(stop) => r matches Err(e) && e == stop,
            },
    {
        let cx: &Context = &self.cx;
        let (dialect, debug_info) = match (&self.dialect, &self.debug_info) {
            (ModuleDialect::Spv(dialect), ModuleDebugInfo::Spv(debug_info)) => (
                dialect,
                debug_info,
            ),
            _ => {
                return Err(Stop::Error(LiftError::NotSpv));
            },
        };
        if !self.are_attrs_known(&self.globals_and_func_insts()) {
            return Err(Stop::Unresolved);
        }

        // Collect uses scattered throughout the module, that require def IDs.
        let mut needs_ids_collector = NeedsIdsCollector::new(cx);
        needs_ids_collector.visit_module(self);
        assert(needs_ids_collector@ =~= self.needs_ids());

        // IDs can be allocated once we have the full *sorted* sets needing them.
        let mut id_bound = IdBound { bound: 1 };
        proof {
            lemma_module_needs_finite(*cx, *self);
            lemma_allocation_from_one(self.needs_ids());
        }
        let ids = match needs_ids_collector.alloc_ids(&mut id_bound) {
            Ok(ids) => ids,
            Err(e) => {
                return Err(Stop::Error(e));
            },
        };

        let mut emitter = ModuleEmitter::with_header(header(dialect, debug_info, id_bound.bound));
        match self.emit_insts(&mut emitter, dialect, debug_info, &ids) {
            Ok(()) => Ok(emitter),
            Err(stop) => Err(stop),
        }
    }

    /// Checks whether the module can be lifted.
    pub fn is_liftable(&self) -> (r: bool)
        ensures
            r == self.liftable(),
    {
        match self.try_lift() {
            Err(Stop::Unresolved) => false,
            _ => true,
        }
    }

    /// Lifts the module to the words of a SPIR-V module.
    pub fn lift_to_spv_module_emitter(&self) -> (r: Result<ModuleEmitter, LiftError>)
        requires
            self.liftable(),
        ensures
            match self.lifted_words() {
                Ok(words) => r matches Ok(emitter) && emitter.words@ == words,
                Err(stop) => r matches Err(e) && stop == Stop::Error(e),
            },
    {
        match self.try_lift() {
            Ok(emitter) => Ok(emitter),
            Err(Stop::Error(e)) => Err(e),
            Err(Stop::Unresolved) => vstd::pervasive::unreached(),
        }
    }

    /// Lifts the module to the bytes of a SPIR-V file.
    pub fn lift_to_spv_file(&self) -> (r: Result<Vec<u8>, LiftError>)
        requires
            self.liftable(),
        ensures
            match self.lifted_words() {
                Ok(words) => r matches Ok(bytes) && bytes@ == words_bytes(words),
                Err(stop) => r matches Err(e) && stop == Stop::Error(e),
            },
    {
        match self.lift_to_spv_module_emitter() {
            Ok(emitter) => Ok(emitter.to_bytes()),
            Err(e) => Err(e),
        }
    }
}

/// Exactly what needs an ID gets one.
pub proof fn lemma_ids_cover_needs(module: Module)
    ensures
        module.new_ids().ext_inst_imports.dom() == module.needs_ids().ext_inst_imports,
        module.new_ids().debug_strings.dom() == module.needs_ids().debug_strings,
        module.new_ids().old_outputs.dom() == module.needs_ids().old_outputs,
        module.needs_ids().finite(),
{
    let needs = module.needs_ids();
    lemma_module_needs_finite(module.spec_cx(), module);
    order::lemma_ascending(needs.ext_inst_imports);
    order::lemma_ascending(needs.debug_strings);
    order::lemma_ascending(needs.old_outputs);
    assert(module.new_ids().ext_inst_imports.dom() =~= order::ascending(
        needs.ext_inst_imports,
    ).to_set());
    assert(module.new_ids().debug_strings.dom() =~= order::ascending(
        needs.debug_strings,
    ).to_set());
    assert(module.new_ids().old_outputs.dom() =~= order::ascending(needs.old_outputs).to_set());
}

/// What one instruction of a module needs IDs for gets them.
pub(crate) proof fn lemma_misc_needs_covered(module: Module, i: int)
    requires
        0 <= i < module.miscs().len(),
    ensures
        ({
            let needs = misc_needs(module.spec_cx(), module.miscs()[i]);
            let ids = module.new_ids();
            &&& needs.ext_inst_imports.subset_of(ids.ext_inst_imports.dom())
            &&& needs.debug_strings.subset_of(ids.debug_strings.dom())
            &&& needs.old_outputs.subset_of(ids.old_outputs.dom())
        }),
{
    let cx = module.spec_cx();
    let needs = misc_needs(cx, module.miscs()[i]);
    lemma_ids_cover_needs(module);
    assert forall|x: u32| needs.ext_inst_imports.contains(x) implies #[trigger]
        module.needs_ids().ext_inst_imports.contains(x) by {
        assert(misc_needs(cx, module.miscs()[i]).ext_inst_imports.contains(x));
    }
    assert forall|x: u32| needs.debug_strings.contains(x) implies #[trigger]
        module.needs_ids().debug_strings.contains(x) by {
        assert(misc_needs(cx, module.miscs()[i]).debug_strings.contains(x));
    }
    assert forall|x: u32| needs.old_outputs.contains(x) implies #[trigger]
        module.needs_ids().old_outputs.contains(x) by {
        assert(misc_needs(cx, module.miscs()[i]).old_outputs.contains(x));
    }
}

} // verus!
