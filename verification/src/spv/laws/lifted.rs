//! When a module is lifted, and that a reader then finds in it what the module says.
use crate::ir::{Attr, Misc, Module};
use crate::order;
use crate::spv::attrs::{section_insts, AttrSection};
use crate::spv::body::lines_have_ids;
use crate::spv::grammar::{
    OP_EXTENSION, OP_EXT_INST_IMPORT, OP_MODULE_PROCESSED, OP_SOURCE_EXTENSION, OP_STRING,
};
use crate::spv::laws::ids::law_ids_are_dense;
use crate::spv::laws::made::lemma_made;
use crate::spv::laws::module::{
    law_layout, law_module_reads_back, law_well_formed_is_liftable, lemma_layout,
};
use crate::spv::laws::reading::{
    are_lines, attached, can_be_made, describes, is_decoration, is_entry_point, is_execution_mode,
    is_name, languages_of, numbers, of_spv, own_insts, read_inst, read_module, Line, Numbering,
    Parts,
};
use crate::spv::laws::seen::{
    all_seen, lemma_numbering, lemma_own_insts, lemma_seen, numbering, seen,
};
use crate::spv::laws::seen_attrs::{
    belongs, lemma_interned_seen, lemma_section_says, lemma_texts_seen,
};
use crate::spv::laws::seen_body::{lemma_body_seen, lemma_lines, lines_of, outputs_differ};
use crate::spv::laws::seen_sources::lemma_sources_seen;
use crate::spv::lift::{lemma_ids_cover_needs, lemma_misc_needs_covered};
use crate::spv::needs::{misc_needs, source_paths};
use crate::spv::sections::{capability_inst, interned_insts, spec_string_insts};
use crate::spv::write::{fits, inst_words, resolved, Stop};
use crate::spv::InstView;
use vstd::prelude::*;

verus! {

/// The parts of a lifted module, where all of its instructions can be made.
proof fn lemma_found(module: Module) -> (parts: Parts)
    requires
        module.is_spv(),
        module.well_formed(),
        module.id_bound() <= u32::MAX,
    ensures
        describes(
            module,
            numbering(module),
            lines_of(module.spec_cx(), module.miscs()),
            parts,
        ),
        parts.all() == all_seen(module.lifted_insts()),
{
    let cx = module.spec_cx();
    let dialect = module.dialect->Spv_0;
    let debug_info = module.debug_info->Spv_0;
    let miscs = module.miscs();
    let ids = module.new_ids();
    let needs = module.needs_ids();
    let n = numbering(module);
    lemma_own_insts(module);
    lemma_numbering(module);
    lemma_layout(module);
    lemma_ids_cover_needs(module);
    law_ids_are_dense(needs);
    order::lemma_ascending(needs.ext_inst_imports);
    order::lemma_ascending(needs.debug_strings);
    assert forall|i: int| 0 <= i < miscs.len() implies lines_have_ids(cx, #[trigger] miscs[i], ids)
        && (miscs[i].spec_result_id() matches Some(id) ==> ids.old_outputs.contains_key(id)) by {
        lemma_misc_needs_covered(module, i);
        if let Some(id) = miscs[i].spec_result_id() {
            assert(misc_needs(cx, miscs[i]).old_outputs.contains(id));
        }
    }
    assert(source_paths(languages_of(module)).subset_of(ids.debug_strings.dom()));
    assert(outputs_differ(ids));

    let capabilities = dialect.capabilities@.map_values(|cap: u32| capability_inst(cap));
    assert forall|i: int| 0 <= i < capabilities.len() implies (#[trigger] all_seen(
        capabilities,
    )[i]).args == seq![dialect.capabilities@[i]] by {
        assert(all_seen(capabilities)[i].args =~= seq![dialect.capabilities@[i]]);
    }
    lemma_texts_seen(OP_EXTENSION, dialect.extensions@);
    lemma_interned_seen(OP_EXT_INST_IMPORT, cx, ids.ext_inst_imports, 1);
    let memory_model = seen(dialect.spec_memory_model_inst());
    assert(memory_model.args =~= seq![dialect.addressing_model, dialect.memory_model]);
    lemma_section_says(module, n, AttrSection::EntryPoints);
    lemma_section_says(module, n, AttrSection::ExecutionModes);
    lemma_interned_seen(OP_STRING, cx, ids.debug_strings, 1 + n.imports.len());
    let sources = lemma_sources_seen(module, n);
    lemma_texts_seen(OP_SOURCE_EXTENSION, debug_info.source_extensions@);
    lemma_section_says(module, n, AttrSection::DebugNames);
    lemma_texts_seen(OP_MODULE_PROCESSED, debug_info.module_processes@);
    lemma_section_says(module, n, AttrSection::Decorations);
    let body = lemma_body_seen(cx, miscs, ids, n);
    let parts = Parts {
        capabilities: all_seen(capabilities),
        extensions: all_seen(spec_string_insts(OP_EXTENSION, dialect.extensions@)),
        imports: all_seen(resolved(interned_insts(OP_EXT_INST_IMPORT, cx, ids.ext_inst_imports))),
        memory_model,
        entry_points: all_seen(section_insts(cx, ids, miscs, AttrSection::EntryPoints)),
        execution_modes: all_seen(section_insts(cx, ids, miscs, AttrSection::ExecutionModes)),
        strings: all_seen(resolved(interned_insts(OP_STRING, cx, ids.debug_strings))),
        sources,
        source_extensions: all_seen(
            spec_string_insts(OP_SOURCE_EXTENSION, debug_info.source_extensions@),
        ),
        names: all_seen(section_insts(cx, ids, miscs, AttrSection::DebugNames)),
        processes: all_seen(spec_string_insts(OP_MODULE_PROCESSED, debug_info.module_processes@)),
        decorations: all_seen(section_insts(cx, ids, miscs, AttrSection::Decorations)),
        body,
    };
    let all = attached(module);
    assert((|a: (Misc, Attr)| is_entry_point(a.1)) =~= (|a: (Misc, Attr)|
        belongs(a.1, AttrSection::EntryPoints)));
    assert((|a: (Misc, Attr)| is_execution_mode(a.1)) =~= (|a: (Misc, Attr)|
        belongs(a.1, AttrSection::ExecutionModes)));
    assert((|a: (Misc, Attr)| is_name(a.1)) =~= (|a: (Misc, Attr)|
        belongs(a.1, AttrSection::DebugNames)));
    assert((|a: (Misc, Attr)| is_decoration(a.1)) =~= (|a: (Misc, Attr)|
        belongs(a.1, AttrSection::Decorations)));
    assert(parts.all() =~= all_seen(module.lifted_insts()));
    parts
}

/// A reader of a lifted module finds in it exactly what the module says, in the order that
/// SPIR-V prescribes. Each instruction has its type, its result and all its inputs, with new IDs
/// in place of old ones. The first line among its attributes is in force. The other attributes
/// are said of it in full, and all source code is there.
pub proof fn law_lifted_module(module: Module) -> (found: (
    Numbering,
    Seq<Option<Line>>,
    Parts,
))
    requires
        module.lifted_words() is Ok,
    ensures
        ({
            let words = module.lifted_words()->Ok_0;
            let dialect = module.dialect->Spv_0;
            let (n, lines, parts) = found;
            &&& module.dialect is Spv
            &&& module.debug_info is Spv
            &&& words.len() >= 5
            &&& words[0] == 0x0723_0203
            &&& words[1] == dialect.version_major * 0x1_0000 + dialect.version_minor * 0x100
            &&& words[2] == match module.debug_info->Spv_0.original_generator_magic {
                Some(generator) => generator,
                None => 0,
            }
            &&& words[3] == n.bound()
            &&& words[4] == 0
            &&& numbers(module, n)
            &&& are_lines(module, lines)
            &&& read_module(words) == Some(parts.all())
            &&& describes(module, n, lines, parts)
        }),
{
    let words = module.lifted_words()->Ok_0;
    let insts = module.lifted_insts();
    law_layout(module);
    law_module_reads_back(module);
    lemma_numbering(module);
    lemma_lines(module);
    let parts = lemma_found(module);
    let lists = insts.map_values(|inst: InstView| inst_words(inst));
    assert forall|i: int| 0 <= i < insts.len() implies read_inst(#[trigger] lists[i]) == all_seen(
        insts,
    )[i] by {
        assert(fits(insts[i]));
        lemma_seen(insts[i]);
    }
    assert(lists.map_values(|list: Seq<u32>| read_inst(list)) =~= all_seen(insts));
    assert(words.take(5) == module.lifted_header());
    assert(words[0] == words.take(5)[0]);
    assert(words[1] == words.take(5)[1]);
    assert(words[2] == words.take(5)[2]);
    assert(words[3] == words.take(5)[3]);
    assert(words[4] == words.take(5)[4]);
    (numbering(module), lines_of(module.spec_cx(), module.miscs()), parts)
}

/// The instructions of a module are those outside functions, and then those of the functions,
/// one function after another.
pub proof fn law_own_insts(module: Module)
    ensures
        module.miscs() == own_insts(module),
{
    lemma_own_insts(module);
}

/// A module is liftable unless it is one of SPIR-V and lifting comes across an instruction that
/// cannot be made.
pub proof fn law_liftable(module: Module)
    ensures
        module.lifted_words() is Ok ==> module.liftable(),
        !of_spv(module) ==> module.liftable(),
        of_spv(module) && can_be_made(module) ==> module.liftable(),
        !module.liftable() <==> module.lifted_words() == Err::<Seq<u32>, Stop>(Stop::Unresolved),
{
    if of_spv(module) && can_be_made(module) {
        lemma_made(module);
        law_well_formed_is_liftable(module);
    }
}

} // verus!
