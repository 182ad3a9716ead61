//! That a reader of a lifted module finds in it what the module says.
use crate::ir::{Func, MiscInput, Module};
use crate::order;
use crate::order::ascending;
use crate::spv::ids::IdMaps;
use crate::spv::laws::reading::{
    attrs_of, defines, holds_text, is_defined, is_imported, is_line_in, is_path, languages_of,
    numbers, own_insts, read_inst, word_byte, Numbering, ReadInst,
};
use crate::spv::laws::words::{law_first_word, lemma_word_bytes};
use crate::spv::lift::lemma_ids_cover_needs;
use crate::spv::literal::{literal_operand, literal_string, literal_word};
use crate::spv::needs::{attr_file, file_paths, misc_needs, miscs_needs, source_paths};
use crate::spv::write::{fits, inst_words, operand_word, optional_id};
use crate::spv::{InstView, Operand};
use vstd::prelude::*;

verus! {

/// What a reader sees of an instruction.
pub(crate) open spec fn seen(inst: InstView) -> ReadInst {
    ReadInst {
        opcode: inst.opcode as int,
        args: optional_id(inst.result_type_id) + optional_id(inst.result_id)
            + inst.operands.map_values(|o: Operand| operand_word(o)),
    }
}

/// What a reader sees of several instructions.
pub(crate) open spec fn all_seen(insts: Seq<InstView>) -> Seq<ReadInst> {
    insts.map_values(|inst: InstView| seen(inst))
}

pub(crate) proof fn lemma_seen(inst: InstView)
    requires
        fits(inst),
    ensures
        read_inst(inst_words(inst)) == seen(inst),
{
    law_first_word(inst);
    assert(inst_words(inst).skip(1) =~= seen(inst).args);
}

/// A string can be read from its operands.
pub(crate) proof fn lemma_text_seen(bytes: Seq<u8>)
    ensures
        holds_text(literal_string(bytes).map_values(|o: Operand| operand_word(o)), bytes),
{
    let words = literal_string(bytes).map_values(|o: Operand| operand_word(o));
    assert forall|i: int, j: int| 0 <= i < words.len() && 0 <= j < 4 implies #[trigger] word_byte(
        words[i],
        j,
    ) == (if 4 * i + j < bytes.len() {
        bytes[4 * i + j] as int
    } else {
        0
    }) by {
        assert(literal_string(bytes)[i] == literal_operand(bytes, i));
        assert(words[i] == literal_word(bytes, i));
        lemma_word_bytes(bytes, i);
    }
}

proof fn lemma_func_insts(funcs: Seq<Func>)
    ensures
        crate::ir::func_insts(funcs) == funcs.map_values(|func: Func| func.insts@).flatten(),
    decreases funcs.len(),
{
    let lists = funcs.map_values(|func: Func| func.insts@);
    if funcs.len() > 0 {
        lemma_func_insts(funcs.drop_last());
        let before = funcs.drop_last().map_values(|func: Func| func.insts@);
        assert(lists =~= before.push(funcs.last().insts@));
        before.lemma_flatten_push(funcs.last().insts@);
    }
}

pub(crate) proof fn lemma_own_insts(module: Module)
    ensures
        own_insts(module) == module.miscs(),
{
    lemma_func_insts(module.funcs@);
    assert(own_insts(module) =~= module.miscs());
}

/// The numbering that lifting uses.
pub(crate) open spec fn numbering(module: Module) -> Numbering {
    Numbering {
        imports: ascending(module.needs_ids().ext_inst_imports),
        strings: ascending(module.needs_ids().debug_strings),
        outputs: ascending(module.needs_ids().old_outputs),
    }
}

/// How the IDs in maps are numbers.
pub(crate) open spec fn ids_numbered(ids: IdMaps, n: Numbering) -> bool {
    &&& forall|name: u32| #[trigger]
        ids.ext_inst_imports.contains_key(name) ==> n.is_import(ids.ext_inst_imports[name], name)
    &&& forall|s: u32| #[trigger]
        ids.debug_strings.contains_key(s) ==> n.is_string(ids.debug_strings[s], s)
    &&& forall|id: u32| #[trigger]
        ids.old_outputs.contains_key(id) ==> n.is_output(ids.old_outputs[id], id)
}

pub(crate) proof fn lemma_numbering(module: Module)
    requires
        module.is_spv(),
    ensures
        numbers(module, numbering(module)),
        numbering(module).bound() == module.id_bound(),
        module.id_bound() <= u32::MAX ==> ids_numbered(module.new_ids(), numbering(module)),
{
    let n = numbering(module);
    let needs = module.needs_ids();
    let cx = module.spec_cx();
    let miscs = module.miscs();
    let ids = module.new_ids();
    lemma_own_insts(module);
    lemma_ids_cover_needs(module);
    order::lemma_ascending(needs.ext_inst_imports);
    order::lemma_ascending(needs.debug_strings);
    order::lemma_ascending(needs.old_outputs);
    assert forall|name: u32| #[trigger] n.imports.contains(name) <==> is_imported(module, name) by {
        assert(n.imports.contains(name) <==> n.imports.to_set().contains(name));
        if n.imports.contains(name) {
            assert(miscs_needs(cx, miscs).ext_inst_imports.contains(name));
            let i = choose|i: int|
                0 <= i < miscs.len() && misc_needs(
                    cx,
                    #[trigger] miscs[i],
                ).ext_inst_imports.contains(name);
            let j = choose|j: int|
                0 <= j < miscs[i].inputs@.len() && #[trigger] miscs[i].inputs@[j]
                    == MiscInput::SpvExtInstImport(name);
            assert(own_insts(module)[i].inputs@[j] == MiscInput::SpvExtInstImport(name));
        }
        if is_imported(module, name) {
            let (i, j) = choose|i: int, j: int|
                0 <= i < miscs.len() && 0 <= j < miscs[i].inputs@.len()
                    && #[trigger] miscs[i].inputs@[j] == MiscInput::SpvExtInstImport(name);
            assert(misc_needs(cx, miscs[i]).ext_inst_imports.contains(name));
        }
    }
    assert forall|id: u32| #[trigger] n.outputs.contains(id) <==> is_defined(module, id) by {
        assert(n.outputs.contains(id) <==> n.outputs.to_set().contains(id));
        if n.outputs.contains(id) {
            assert(miscs_needs(cx, miscs).old_outputs.contains(id));
            let i = choose|i: int|
                0 <= i < miscs.len() && misc_needs(cx, #[trigger] miscs[i]).old_outputs.contains(
                    id,
                );
            assert(defines(own_insts(module)[i], id));
        }
        if is_defined(module, id) {
            let i = choose|i: int| 0 <= i < miscs.len() && defines(#[trigger] miscs[i], id);
            assert(misc_needs(cx, miscs[i]).old_outputs.contains(id));
        }
    }
    assert forall|s: u32| #[trigger] n.strings.contains(s) <==> is_path(module, s) by {
        assert(n.strings.contains(s) <==> n.strings.to_set().contains(s));
        let languages = languages_of(module);
        if n.strings.contains(s) {
            if miscs_needs(cx, miscs).debug_strings.contains(s) {
                let i = choose|i: int|
                    0 <= i < miscs.len() && misc_needs(
                        cx,
                        #[trigger] miscs[i],
                    ).debug_strings.contains(s);
                let attrs = cx.spec_attrs(miscs[i].attrs);
                let j = choose|j: int|
                    0 <= j < attrs.len() && attr_file(#[trigger] attrs[j]) == Some(s);
                assert(is_line_in(attrs_of(module, own_insts(module)[i])[j], s));
            } else {
                assert(source_paths(languages).contains(s));
                let i = choose|i: int|
                    0 <= i < languages.len() && file_paths(
                        (#[trigger] languages[i]).1.file_contents@,
                    ).contains(s);
                let files = languages[i].1.file_contents@;
                let j = choose|j: int| 0 <= j < files.len() && (#[trigger] files[j]).0 == s;
                assert(languages_of(module)[i].1.file_contents@[j].0 == s);
            }
        }
        if is_path(module, s) {
            if exists|i: int, j: int|
                0 <= i < miscs.len() && 0 <= j < attrs_of(module, miscs[i]).len() && is_line_in(
                    #[trigger] attrs_of(module, miscs[i])[j],
                    s,
                ) {
                let (i, j) = choose|i: int, j: int|
                    0 <= i < miscs.len() && 0 <= j < attrs_of(module, miscs[i]).len() && is_line_in(
                        #[trigger] attrs_of(module, miscs[i])[j],
                        s,
                    );
                assert(attr_file(cx.spec_attrs(miscs[i].attrs)[j]) == Some(s));
                assert(misc_needs(cx, miscs[i]).debug_strings.contains(s));
            } else {
                let (i, j) = choose|i: int, j: int|
                    0 <= i < languages.len() && 0 <= j < languages[i].1.file_contents@.len() && (
                    #[trigger] languages[i].1.file_contents@[j]).0 == s;
                assert(file_paths(languages[i].1.file_contents@).contains(s));
                assert(source_paths(languages).contains(s));
            }
        }
    }
    if module.id_bound() <= u32::MAX {
        order::lemma_numbered(n.imports, 1);
        order::lemma_numbered(n.strings, 1 + n.imports.len());
        order::lemma_numbered(n.outputs, 1 + n.imports.len() + n.strings.len());
        assert forall|name: u32| #[trigger] ids.ext_inst_imports.contains_key(name) implies n.is_import(
            ids.ext_inst_imports[name],
            name,
        ) by {
            assert(n.imports.to_set().contains(name));
            let k = choose|k: int| 0 <= k < n.imports.len() && n.imports[k] == name;
            assert(ids.ext_inst_imports[n.imports[k]] == 1 + k);
        }
        assert forall|s: u32| #[trigger] ids.debug_strings.contains_key(s) implies n.is_string(
            ids.debug_strings[s],
            s,
        ) by {
            assert(n.strings.to_set().contains(s));
            let k = choose|k: int| 0 <= k < n.strings.len() && n.strings[k] == s;
            assert(ids.debug_strings[n.strings[k]] == 1 + n.imports.len() + k);
        }
        assert forall|id: u32| #[trigger] ids.old_outputs.contains_key(id) implies n.is_output(
            ids.old_outputs[id],
            id,
        ) by {
            assert(n.outputs.to_set().contains(id));
            let k = choose|k: int| 0 <= k < n.outputs.len() && n.outputs[k] == id;
            assert(ids.old_outputs[n.outputs[k]] == 1 + n.imports.len() + n.strings.len() + k);
        }
    }
}

} // verus!
