//! When the instructions of a lifted module can be made, and when they fit.
use crate::ir::{Attr, Context, InternedStr, Misc, MiscInput, Module};
use crate::order;
use crate::order::ascending;
use crate::spv::attrs::{
    attr_inst, attr_resolved, attr_section, attrs_insts, attrs_resolved, misc_attrs_insts,
    misc_attrs_resolved, new_result_id, section_insts, AttrSection,
};
use crate::spv::body::{
    body_insts, input_resolved, last_insts, line_insts, misc_resolved, spec_misc_inst,
};
use crate::spv::grammar::{
    OP_EXTENSION, OP_EXT_INST_IMPORT, OP_MODULE_PROCESSED, OP_SOURCE_EXTENSION, OP_STRING,
};
use crate::spv::ids::IdMaps;
use crate::spv::laws::attrs::law_attrs_are_kept;
use crate::spv::laws::lines::law_body_groups;
use crate::spv::laws::module::{all_known, law_layout, law_well_formed_is_liftable};
use crate::spv::laws::reading::{
    all_short, attr_made, attr_sets_there, attr_short, attrs_made, attrs_of, can_be_made, cut,
    cut_well, defines, interned_short, is_defined, is_imported, is_path, languages_of, misc_made,
    misc_short, numbers, of_spv, own_insts, sources_cut_well, texts_short, Numbering,
};
use crate::spv::laws::seen::{lemma_numbering, lemma_own_insts, numbering};
use crate::spv::laws::sources::law_source_insts_fit;
use crate::spv::lift::{debug_insts, entry_insts, lemma_ids_cover_needs, preamble_insts, provided};
use crate::spv::sections::{capability_inst, interned_insts, spec_string_insts};
use crate::spv::sources::{
    after_initial_chunk, chunks_whole, cont_chunks_whole, files_whole, source_insts, sources_whole,
};
use crate::spv::write::{
    all_fit, fits, known, lemma_stop_add, lemma_stop_one, resolved, stop, LiftError, Stop,
};
use crate::spv::{Id, InstView};
use vstd::prelude::*;
use vstd::utf8::{
    encode_utf8, is_char_boundary, is_char_boundary_iff_not_is_continuation_byte,
    is_char_boundary_start_end_of_seq, is_continuation_byte, valid_utf8, valid_utf8_split,
};

verus! {

/// Whether no cut of some bytes from one on is inside a character.
spec fn cut_well_from(text: Seq<u8>, from: int) -> bool {
    forall|k: int| #![trigger cut(k)]
        from <= k && cut(k) < text.len() ==> !is_continuation_byte(text[cut(k)])
}

proof fn lemma_cont_cut(text: Seq<u8>, k: int)
    requires
        valid_utf8(text),
        k >= 1,
        cut(k) <= text.len(),
        is_char_boundary(text, cut(k)),
    ensures
        cont_chunks_whole(text.skip(cut(k))) <==> cut_well_from(text, k + 1),
    decreases text.len() - cut(k),
{
    let rest = text.skip(cut(k));
    assert(rest =~= text.subrange(cut(k), text.len() as int));
    valid_utf8_split(text, cut(k));
    if rest.len() == 0 {
    } else if rest.len() <= 262135 {
        is_char_boundary_start_end_of_seq(rest);
        assert(rest.skip(rest.len() as int).len() == 0);
        assert(cont_chunks_whole(rest.skip(rest.len() as int)));
        assert(cont_chunks_whole(rest));
        assert(cut(k + 1) >= text.len());
    } else {
        let c = cut(k + 1);
        is_char_boundary_iff_not_is_continuation_byte(text, c);
        is_char_boundary_iff_not_is_continuation_byte(rest, 262135);
        assert(rest[262135] == text[c]);
        assert(rest.skip(262135) =~= text.skip(c));
        if !is_continuation_byte(text[c]) {
            lemma_cont_cut(text, k + 1);
            assert(cut_well_from(text, k + 1) <==> cut_well_from(text, k + 2)) by {
                assert forall|l: int| #![trigger cut(l)]
                    cut_well_from(text, k + 2) && k + 1 <= l && cut(l)
                        < text.len() implies !is_continuation_byte(text[cut(l)]) by {
                    if l > k + 1 {
                        assert(k + 2 <= l);
                    }
                }
            }
        }
    }
}

/// Where the contents of a file are cut, by the bytes there.
proof fn lemma_cut(contents: String)
    ensures
        chunks_whole(encode_utf8(contents@)) <==> cut_well(encode_utf8(contents@)),
{
    let text = encode_utf8(contents@);
    vstd::utf8::encode_utf8_valid_utf8(contents@);
    assert(cut_well(text) <==> cut_well_from(text, 1));
    if text.len() <= 262123 {
        is_char_boundary_start_end_of_seq(text);
        assert(after_initial_chunk(text) =~= seq![]);
        assert(cont_chunks_whole(after_initial_chunk(text)));
        assert forall|k: int| #![trigger cut(k)] 1 <= k implies cut(k) >= text.len() by {}
    } else {
        is_char_boundary_iff_not_is_continuation_byte(text, 262123);
        assert(after_initial_chunk(text) =~= text.skip(cut(1)));
        if is_char_boundary(text, 262123) {
            lemma_cont_cut(text, 1);
            assert(cut_well_from(text, 1) <==> cut_well_from(text, 2)) by {
                assert forall|l: int| #![trigger cut(l)]
                    cut_well_from(text, 2) && 1 <= l && cut(l)
                        < text.len() implies !is_continuation_byte(text[cut(l)]) by {
                    if l > 1 {
                        assert(2 <= l);
                    }
                }
            }
        } else {
            assert(cut(1) < text.len());
        }
    }
}

/// The conditions that lifting tests are those on the fields of the module.
pub(crate) proof fn lemma_made(module: Module)
    requires
        module.is_spv(),
    ensures
        module.attrs_known() <==> attr_sets_there(module),
        module.well_formed() <==> can_be_made(module),
        attrs_resolved(module.spec_cx(), module.miscs(), module.new_ids()) <==> attrs_made(module),
        sources_whole(languages_of(module)) <==> sources_cut_well(module),
        forall|i: int|
            0 <= i < module.miscs().len() ==> (misc_resolved(
                #[trigger] module.miscs()[i],
                module.new_ids(),
            ) <==> misc_made(module, module.miscs()[i])),
{
    let miscs = module.miscs();
    let cx = module.spec_cx();
    let ids = module.new_ids();
    let n = numbering(module);
    let languages = languages_of(module);
    lemma_own_insts(module);
    lemma_numbering(module);
    lemma_ids_cover_needs(module);
    order::lemma_ascending(module.needs_ids().ext_inst_imports);
    order::lemma_ascending(module.needs_ids().debug_strings);
    order::lemma_ascending(module.needs_ids().old_outputs);
    assert forall|name: u32| #[trigger]
        module.needs_ids().ext_inst_imports.contains(name) <==> is_imported(module, name) by {
        assert(n.imports.to_set().contains(name) <==> n.imports.contains(name));
    }
    assert forall|s: u32| #[trigger]
        module.needs_ids().debug_strings.contains(s) <==> is_path(module, s) by {
        assert(n.strings.to_set().contains(s) <==> n.strings.contains(s));
    }
    assert forall|id: u32| #[trigger] ids.old_outputs.contains_key(id) <==> is_defined(
        module,
        id,
    ) by {
        assert(n.outputs.to_set().contains(id) <==> n.outputs.contains(id));
        assert(module.needs_ids().old_outputs.contains(id) <==> n.outputs.contains(id));
    }
    assert forall|misc: Misc, attr: Attr| #[trigger] attr_resolved(misc, attr, ids)
        <==> attr_made(module, misc, attr) by {
        if let Attr::SpvEntryPoint { params, interface_ids } = attr {
            if attr_made(module, misc, attr) {
                assert forall|i: int| 0 <= i < interface_ids@.len() implies ids.old_outputs.contains_key(
                    #[trigger] interface_ids@[i],
                ) by {
                    assert(is_defined(module, interface_ids@[i]));
                }
            }
            if attr_resolved(misc, attr, ids) {
                assert forall|i: int| 0 <= i < interface_ids@.len() implies is_defined(
                    module,
                    #[trigger] interface_ids@[i],
                ) by {
                    assert(ids.old_outputs.contains_key(interface_ids@[i]));
                }
            }
        }
    }
    assert forall|i: int| 0 <= i < miscs.len() implies (misc_resolved(#[trigger] miscs[i], ids)
        <==> misc_made(module, miscs[i])) by {
        let misc = miscs[i];
        if let Some(id) = misc.spec_result_id() {
            assert(defines(own_insts(module)[i], id));
            assert(is_defined(module, id));
            assert(ids.old_outputs.contains_key(id));
        }
        if misc_made(module, misc) {
            if let Some(id) = misc.spec_result_type_id() {
                assert(is_defined(module, id));
                assert(ids.old_outputs.contains_key(id));
            }
            assert forall|k: int| 0 <= k < misc.inputs@.len() implies input_resolved(
                #[trigger] misc.inputs@[k],
                ids,
            ) by {
                match misc.inputs@[k] {
                    MiscInput::SpvImm(_) => {},
                    MiscInput::SpvUntrackedId(id) => {
                        assert(is_defined(module, id));
                        assert(ids.old_outputs.contains_key(id));
                    },
                    MiscInput::SpvExtInstImport(name) => {
                        assert(own_insts(module)[i].inputs@[k] == MiscInput::SpvExtInstImport(
                            name,
                        ));
                        assert(is_imported(module, name));
                        assert(module.needs_ids().ext_inst_imports.contains(name));
                    },
                }
            }
        }
        if misc_resolved(misc, ids) {
            if let Some(id) = misc.spec_result_type_id() {
                assert(ids.old_outputs.contains_key(id));
            }
            assert forall|k: int| 0 <= k < misc.inputs@.len() implies (
            #[trigger] misc.inputs@[k] matches MiscInput::SpvUntrackedId(id) ==> is_defined(
                module,
                id,
            )) by {
                assert(input_resolved(misc.inputs@[k], ids));
                if let MiscInput::SpvUntrackedId(id) = misc.inputs@[k] {
                    assert(ids.old_outputs.contains_key(id));
                }
            }
        }
    }
    assert forall|i: int, j: int|
        0 <= i < languages.len() && 0 <= j < languages[i].1.file_contents@.len() implies (cut_well(
        encode_utf8((#[trigger] languages[i].1.file_contents@[j]).1@),
    ) <==> chunks_whole(encode_utf8(languages[i].1.file_contents@[j].1@))) by {
        lemma_cut(languages[i].1.file_contents@[j].1);
    }
    if attrs_made(module) {
        assert forall|i: int| 0 <= i < miscs.len() implies misc_attrs_resolved(
            cx,
            #[trigger] miscs[i],
            ids,
        ) by {
            assert forall|j: int| 0 <= j < cx.spec_attrs(miscs[i].attrs).len() implies attr_resolved(
                miscs[i],
                #[trigger] cx.spec_attrs(miscs[i].attrs)[j],
                ids,
            ) by {
                assert(attr_made(
                    module,
                    own_insts(module)[i],
                    attrs_of(module, own_insts(module)[i])[j],
                ));
            }
        }
    }
    if sources_cut_well(module) {
        assert forall|i: int| 0 <= i < languages.len() implies files_whole(
            (#[trigger] languages[i]).1.file_contents@,
        ) by {
            let files = languages[i].1.file_contents@;
            assert forall|j: int| 0 <= j < files.len() implies chunks_whole(
                encode_utf8((#[trigger] files[j]).1@),
            ) by {
                assert(cut_well(encode_utf8(languages[i].1.file_contents@[j].1@)));
            }
        }
    }
    if can_be_made(module) {
        assert forall|i: int| 0 <= i < miscs.len() implies cx.has_attrs(
            (#[trigger] miscs[i]).attrs,
        ) by {
            assert(own_insts(module)[i].attrs < module.cx.attr_sets@.len());
        }
        assert(attrs_made(module));
        assert(sources_cut_well(module));
        assert(module.well_formed());
    }
    if attrs_resolved(cx, miscs, ids) {
        assert forall|i: int, j: int|
            0 <= i < miscs.len() && 0 <= j < attrs_of(module, miscs[i]).len() implies attr_made(
            module,
            miscs[i],
            #[trigger] attrs_of(module, miscs[i])[j],
        ) by {
            assert(misc_attrs_resolved(cx, miscs[i], ids));
            assert(attr_resolved(miscs[i], cx.spec_attrs(miscs[i].attrs)[j], ids));
        }
        assert(attrs_made(module));
    }
    if sources_whole(languages) {
        assert forall|i: int, j: int|
            0 <= i < languages.len() && 0 <= j < languages[i].1.file_contents@.len() implies cut_well(
            encode_utf8((#[trigger] languages[i].1.file_contents@[j]).1@),
        ) by {
            assert(files_whole(languages[i].1.file_contents@));
            assert(chunks_whole(encode_utf8(languages[i].1.file_contents@[j].1@)));
        }
        assert(sources_cut_well(module));
    }
    if module.well_formed() {
        assert(attr_sets_there(module));
        assert forall|name: InternedStr| #[trigger] is_imported(module, name) implies name
            < module.cx.strings@.len() by {
            assert(module.needs_ids().ext_inst_imports.contains(name));
        }
        assert forall|path: InternedStr| #[trigger] is_path(module, path) implies path
            < module.cx.strings@.len() by {
            assert(module.needs_ids().debug_strings.contains(path));
        }
        assert forall|i: int| 0 <= i < miscs.len() implies misc_made(
            module,
            #[trigger] miscs[i],
        ) by {
            assert(misc_resolved(miscs[i], ids));
        }
    }
}

/// Whether those of some instructions fit that can be made.
pub(crate) open spec fn fit_if_known(insts: Seq<Option<InstView>>) -> bool {
    forall|i: int| 0 <= i < insts.len() ==> (#[trigger] insts[i] matches Some(inst) ==> fits(inst))
}

proof fn lemma_fit_add(a: Seq<Option<InstView>>, b: Seq<Option<InstView>>)
    requires
        fit_if_known(a),
        fit_if_known(b),
    ensures
        fit_if_known(a + b),
{
    assert forall|i: int| 0 <= i < (a + b).len() implies (#[trigger] (a + b)[i] matches Some(inst)
        ==> fits(inst)) by {
        if i < a.len() {
            assert(a[i] matches Some(inst) ==> fits(inst));
        } else {
            assert(b[i - a.len()] matches Some(inst) ==> fits(inst));
        }
    }
}

pub(crate) proof fn lemma_fit_known(insts: Seq<InstView>)
    requires
        all_fit(insts),
    ensures
        fit_if_known(known(insts)),
{
    assert forall|i: int| 0 <= i < insts.len() implies (#[trigger] known(
        insts,
    )[i] matches Some(inst) ==> fits(inst)) by {
        assert(fits(insts[i]));
    }
}

/// Where no instruction is too long, only one that cannot be made stops the emission.
pub(crate) proof fn lemma_fit_stop(insts: Seq<Option<InstView>>)
    requires
        fit_if_known(insts),
    ensures
        stop(insts) == (if all_known(insts) {
            None
        } else {
            Some(Stop::Unresolved)
        }),
    decreases insts.len(),
{
    if insts.len() > 0 {
        let rest = insts.drop_last();
        let last = insts[insts.len() - 1];
        assert forall|i: int| 0 <= i < rest.len() implies (#[trigger] rest[i] matches Some(inst)
            ==> fits(inst)) by {
            assert(insts[i] matches Some(inst) ==> fits(inst));
        }
        lemma_fit_stop(rest);
        assert(last matches Some(inst) ==> fits(inst));
        if all_known(insts) {
            assert forall|i: int| 0 <= i < rest.len() implies (#[trigger] rest[i]) is Some by {
                assert(insts[i] is Some);
            }
            assert(last is Some);
        } else {
            let i = choose|i: int| 0 <= i < insts.len() && !((#[trigger] insts[i]) is Some);
            if i < rest.len() {
                assert(!(rest[i] is Some));
            }
        }
    }
}

pub(crate) proof fn lemma_texts_fit(opcode: u16, texts: Seq<String>)
    ensures
        all_fit(spec_string_insts(opcode, texts)) <==> texts_short(texts),
{
    let insts = spec_string_insts(opcode, texts);
    assert forall|i: int| 0 <= i < texts.len() implies (#[trigger] fits(insts[i]) <==> encode_utf8(
        texts[i]@,
    ).len() <= 262135) by {}
    if all_fit(insts) {
        assert forall|i: int| 0 <= i < texts.len() implies encode_utf8((#[trigger] texts[i])@).len()
            <= 262135 by {
            assert(fits(insts[i]));
        }
    }
}

pub(crate) proof fn lemma_interned_fit(opcode: u16, cx: Context, ids: Map<u32, Id>)
    requires
        ids.dom().finite(),
        forall|name: u32| #[trigger]
            ids.contains_key(name) ==> (cx.has_str(name) ==> encode_utf8(cx.spec_str(name)).len()
                <= 262131),
    ensures
        fit_if_known(interned_insts(opcode, cx, ids)),
{
    let names = ascending(ids.dom());
    let insts = interned_insts(opcode, cx, ids);
    order::lemma_ascending(ids.dom());
    assert forall|i: int| 0 <= i < insts.len() implies (#[trigger] insts[i] matches Some(inst)
        ==> fits(inst)) by {
        assert(names.to_set().contains(names[i]));
        assert(ids.contains_key(names[i]));
    }
}

proof fn lemma_attr_fits(attr: Attr, target_id: Id, ids: IdMaps)
    requires
        attr_section(attr) is Some,
    ensures
        (attr matches Attr::SpvEntryPoint { params, .. } ==> params@.len() > 0) ==> (fits(
            attr_inst(attr, target_id, ids),
        ) <==> attr_short(attr)),
{
}

proof fn lemma_attrs_fit(
    attrs: Seq<Attr>,
    misc: Misc,
    target_id: Id,
    ids: IdMaps,
    section: AttrSection,
)
    requires
        forall|i: int|
            0 <= i < attrs.len() ==> {
                &&& attr_section(#[trigger] attrs[i]) == Some(section) ==> attr_short(attrs[i])
                &&& attr_resolved(misc, attrs[i], ids)
            },
    ensures
        all_fit(attrs_insts(attrs, target_id, ids, section)),
    decreases attrs.len(),
{
    if attrs.len() > 0 {
        let rest = attrs.drop_last();
        assert forall|i: int| 0 <= i < rest.len() implies {
            &&& attr_section(#[trigger] rest[i]) == Some(section) ==> attr_short(rest[i])
            &&& attr_resolved(misc, rest[i], ids)
        } by {
            assert(attr_resolved(misc, attrs[i], ids));
        }
        lemma_attrs_fit(rest, misc, target_id, ids, section);
        let attr = attrs[attrs.len() - 1];
        assert(attr_resolved(misc, attr, ids));
        let insts = attrs_insts(attrs, target_id, ids, section);
        let before = attrs_insts(rest, target_id, ids, section);
        if attr_section(attr) == Some(section) {
            lemma_attr_fits(attr, target_id, ids);
            assert forall|i: int| 0 <= i < insts.len() implies #[trigger] fits(insts[i]) by {
                if i < before.len() {
                    assert(fits(before[i]));
                }
            }
        }
    }
}

/// Whether what the attributes in a section say is short enough.
pub(crate) open spec fn section_is_short(
    cx: Context,
    miscs: Seq<Misc>,
    section: AttrSection,
) -> bool {
    forall|i: int, j: int|
        0 <= i < miscs.len() && 0 <= j < cx.spec_attrs(miscs[i].attrs).len()
            && miscs[i].output is Some && attr_section(cx.spec_attrs(miscs[i].attrs)[j]) == Some(
            section,
        ) ==> attr_short(#[trigger] cx.spec_attrs(miscs[i].attrs)[j])
}

/// The instructions in a section fit exactly where the attributes are short enough.
pub(crate) proof fn lemma_section_short(
    cx: Context,
    ids: IdMaps,
    miscs: Seq<Misc>,
    section: AttrSection,
)
    requires
        attrs_resolved(cx, miscs, ids),
    ensures
        all_fit(section_insts(cx, ids, miscs, section)) <==> section_is_short(cx, miscs, section),
{
    let insts = section_insts(cx, ids, miscs, section);
    if section_is_short(cx, miscs, section) {
        lemma_section_fits(cx, ids, miscs, section);
    }
    if all_fit(insts) {
        assert forall|i: int, j: int|
            0 <= i < miscs.len() && 0 <= j < cx.spec_attrs(miscs[i].attrs).len()
                && miscs[i].output is Some && attr_section(cx.spec_attrs(miscs[i].attrs)[j])
                == Some(section) implies attr_short(
            #[trigger] cx.spec_attrs(miscs[i].attrs)[j],
        ) by {
            let attr = cx.spec_attrs(miscs[i].attrs)[j];
            law_attrs_are_kept(cx, ids, miscs, i, j);
            let inst = attr_inst(attr, new_result_id(miscs[i], ids)->0, ids);
            let k = choose|k: int| 0 <= k < insts.len() && insts[k] == inst;
            assert(fits(insts[k]));
            assert(misc_attrs_resolved(cx, miscs[i], ids));
            assert(attr_resolved(miscs[i], attr, ids));
            lemma_attr_fits(attr, new_result_id(miscs[i], ids)->0, ids);
        }
    }
}

proof fn lemma_section_fits(cx: Context, ids: IdMaps, miscs: Seq<Misc>, section: AttrSection)
    requires
        attrs_resolved(cx, miscs, ids),
        section_is_short(cx, miscs, section),
    ensures
        all_fit(section_insts(cx, ids, miscs, section)),
    decreases miscs.len(),
{
    if miscs.len() > 0 {
        let rest = miscs.drop_last();
        let misc = miscs[miscs.len() - 1];
        assert forall|i: int| 0 <= i < rest.len() implies misc_attrs_resolved(
            cx,
            #[trigger] rest[i],
            ids,
        ) by {
            assert(misc_attrs_resolved(cx, miscs[i], ids));
        }
        assert forall|i: int, j: int|
            0 <= i < rest.len() && 0 <= j < cx.spec_attrs(rest[i].attrs).len()
                && rest[i].output is Some && attr_section(cx.spec_attrs(rest[i].attrs)[j]) == Some(
                section,
            ) implies attr_short(#[trigger] cx.spec_attrs(rest[i].attrs)[j]) by {
            assert(attr_short(cx.spec_attrs(miscs[i].attrs)[j]));
        }
        lemma_section_fits(cx, ids, rest, section);
        assert(misc_attrs_resolved(cx, misc, ids));
        let before = section_insts(cx, ids, rest, section);
        let new = misc_attrs_insts(cx, ids, misc, section);
        if let Some(id) = new_result_id(misc, ids) {
            let attrs = cx.spec_attrs(misc.attrs);
            assert forall|j: int| 0 <= j < attrs.len() implies {
                &&& attr_section(#[trigger] attrs[j]) == Some(section) ==> attr_short(attrs[j])
                &&& attr_resolved(misc, attrs[j], ids)
            } by {
                if attr_section(attrs[j]) == Some(section) {
                    assert(attr_short(cx.spec_attrs(miscs[miscs.len() - 1].attrs)[j]));
                }
                assert(attr_resolved(misc, attrs[j], ids));
            }
            lemma_attrs_fit(attrs, misc, id, ids, section);
        }
        assert forall|i: int| 0 <= i < (before + new).len() implies #[trigger] fits(
            (before + new)[i],
        ) by {
            if i < before.len() {
                assert(fits(before[i]));
            } else {
                assert(fits(new[i - before.len()]));
            }
        }
    }
}

pub(crate) proof fn lemma_body_fits(cx: Context, miscs: Seq<Misc>, ids: IdMaps)
    requires
        forall|i: int| 0 <= i < miscs.len() ==> misc_short(#[trigger] miscs[i]),
    ensures
        fit_if_known(body_insts(cx, miscs, ids)),
    decreases miscs.len(),
{
    if miscs.len() > 0 {
        let rest = miscs.drop_last();
        assert forall|i: int| 0 <= i < rest.len() implies misc_short(#[trigger] rest[i]) by {
            assert(misc_short(miscs[i]));
        }
        lemma_body_fits(cx, rest, ids);
        assert(misc_short(miscs[miscs.len() - 1]));
        let last = last_insts(cx, miscs, ids);
        if misc_resolved(miscs.last(), ids) {
            let group = line_insts(cx, miscs, ids) + seq![spec_misc_inst(miscs.last(), ids)];
            assert(all_fit(group));
            lemma_fit_known(group);
        }
        assert(fit_if_known(last));
        lemma_fit_add(body_insts(cx, rest, ids), last);
    }
}

/// Where no instruction is too long, that does not stop the emission.
pub(crate) proof fn lemma_short_stop(module: Module)
    requires
        module.is_spv(),
        all_short(module),
    ensures
        stop(module.emission()) is None || stop(module.emission()) == Some(Stop::Unresolved),
{
    let cx = module.spec_cx();
    let dialect = module.dialect->Spv_0;
    let debug_info = module.debug_info->Spv_0;
    let miscs = module.miscs();
    let ids = module.new_ids();
    let n = numbering(module);
    lemma_own_insts(module);
    lemma_numbering(module);
    lemma_ids_cover_needs(module);
    order::lemma_ascending(module.needs_ids().ext_inst_imports);
    order::lemma_ascending(module.needs_ids().debug_strings);
    assert forall|name: u32| #[trigger] ids.ext_inst_imports.contains_key(name) implies (cx.has_str(
        name,
    ) ==> encode_utf8(cx.spec_str(name)).len() <= 262131) by {
        assert(n.imports.to_set().contains(name));
        assert(n.imports.contains(name));
        assert(interned_short(module, name));
    }
    assert forall|name: u32| #[trigger] ids.debug_strings.contains_key(name) implies (cx.has_str(
        name,
    ) ==> encode_utf8(cx.spec_str(name)).len() <= 262131) by {
        assert(n.strings.to_set().contains(name));
        assert(n.strings.contains(name));
        assert(interned_short(module, name));
    }
    assert forall|i: int, j: int|
        0 <= i < miscs.len() && 0 <= j < cx.spec_attrs(miscs[i].attrs).len()
            && miscs[i].output is Some implies attr_short(
        #[trigger] cx.spec_attrs(miscs[i].attrs)[j],
    ) by {
        assert(attr_short(attrs_of(module, own_insts(module)[i])[j]));
    }
    let p1 = preamble_insts(cx, dialect, ids);
    let p2 = entry_insts(cx, miscs, ids);
    let p3 = debug_insts(cx, debug_info, miscs, ids);
    let p4 = known(section_insts(cx, ids, miscs, AttrSection::Decorations));
    let p5 = body_insts(cx, miscs, ids);

    let capabilities = dialect.capabilities@.map_values(|cap: u32| capability_inst(cap));
    let extensions = spec_string_insts(OP_EXTENSION, dialect.extensions@);
    let imports = interned_insts(OP_EXT_INST_IMPORT, cx, ids.ext_inst_imports);
    let model = seq![dialect.spec_memory_model_inst()];
    assert(all_fit(capabilities));
    assert(all_fit(model));
    lemma_fit_known(capabilities);
    lemma_texts_fit(OP_EXTENSION, dialect.extensions@);
    lemma_fit_known(extensions);
    lemma_interned_fit(OP_EXT_INST_IMPORT, cx, ids.ext_inst_imports);
    lemma_fit_known(model);
    lemma_fit_add(known(capabilities), known(extensions));
    lemma_fit_add(known(capabilities) + known(extensions), imports);
    lemma_fit_add(known(capabilities) + known(extensions) + imports, known(model));
    assert(fit_if_known(p1));
    lemma_fit_stop(p1);
    lemma_stop_add(p1, p2);
    lemma_stop_add(p1 + p2, p3);
    lemma_stop_add(p1 + p2 + p3, p4);
    lemma_stop_add(p1 + p2 + p3 + p4, p5);
    let entry_points = section_insts(cx, ids, miscs, AttrSection::EntryPoints);
    let modes = section_insts(cx, ids, miscs, AttrSection::ExecutionModes);
    let check = provided(attrs_resolved(cx, miscs, ids));
    if !attrs_resolved(cx, miscs, ids) {
        lemma_stop_one(None);
        lemma_stop_add(check, known(entry_points));
        lemma_stop_add(check + known(entry_points), known(modes));
        assert(stop(p2) == Some(Stop::Unresolved));
    } else {
        lemma_section_fits(cx, ids, miscs, AttrSection::EntryPoints);
        lemma_section_fits(cx, ids, miscs, AttrSection::ExecutionModes);
        lemma_section_fits(cx, ids, miscs, AttrSection::DebugNames);
        lemma_section_fits(cx, ids, miscs, AttrSection::Decorations);
        lemma_fit_known(entry_points);
        lemma_fit_known(modes);
        lemma_fit_add(check, known(entry_points));
        lemma_fit_add(check + known(entry_points), known(modes));
        assert(fit_if_known(p2));
        lemma_fit_stop(p2);

        let strings = interned_insts(OP_STRING, cx, ids.debug_strings);
        let whole = provided(sources_whole(debug_info.source_languages@));
        let sources = source_insts(debug_info.source_languages@, ids);
        let source_extensions = spec_string_insts(
            OP_SOURCE_EXTENSION,
            debug_info.source_extensions@,
        );
        let names = section_insts(cx, ids, miscs, AttrSection::DebugNames);
        let processes = spec_string_insts(OP_MODULE_PROCESSED, debug_info.module_processes@);
        lemma_interned_fit(OP_STRING, cx, ids.debug_strings);
        law_source_insts_fit(debug_info.source_languages@, ids);
        lemma_texts_fit(OP_SOURCE_EXTENSION, debug_info.source_extensions@);
        lemma_texts_fit(OP_MODULE_PROCESSED, debug_info.module_processes@);
        lemma_fit_known(sources);
        lemma_fit_known(source_extensions);
        lemma_fit_known(names);
        lemma_fit_known(processes);
        lemma_fit_add(strings, whole);
        lemma_fit_add(strings + whole, known(sources));
        lemma_fit_add(strings + whole + known(sources), known(source_extensions));
        lemma_fit_add(
            strings + whole + known(sources) + known(source_extensions),
            known(names),
        );
        lemma_fit_add(
            strings + whole + known(sources) + known(source_extensions) + known(names),
            known(processes),
        );
        assert(fit_if_known(p3));
        lemma_fit_stop(p3);
        lemma_fit_known(section_insts(cx, ids, miscs, AttrSection::Decorations));
        lemma_fit_stop(p4);
        lemma_body_fits(cx, miscs, ids);
        lemma_fit_stop(p5);
    }
}

proof fn lemma_fit_parts(a: Seq<InstView>, b: Seq<InstView>)
    requires
        all_fit(a + b),
    ensures
        all_fit(a),
        all_fit(b),
{
    assert forall|i: int| 0 <= i < a.len() implies #[trigger] fits(a[i]) by {
        assert(fits((a + b)[i]));
    }
    assert forall|i: int| 0 <= i < b.len() implies #[trigger] fits(b[i]) by {
        assert(fits((a + b)[a.len() + i]));
    }
}

proof fn lemma_interned_short(opcode: u16, cx: Context, ids: Map<u32, Id>, name: u32)
    requires
        ids.dom().finite(),
        ids.contains_key(name),
        cx.has_str(name),
        all_fit(resolved(interned_insts(opcode, cx, ids))),
    ensures
        encode_utf8(cx.spec_str(name)).len() <= 262131,
{
    let names = ascending(ids.dom());
    order::lemma_ascending(ids.dom());
    assert(names.to_set().contains(name));
    let i = choose|i: int| 0 <= i < names.len() && names[i] == name;
    assert(fits(resolved(interned_insts(opcode, cx, ids))[i]));
}

/// None of the instructions of a lifted module is too long.
pub(crate) proof fn lemma_lifted_short(module: Module)
    requires
        module.lifted_words() is Ok,
    ensures
        all_short(module),
{
    let cx = module.spec_cx();
    let dialect = module.dialect->Spv_0;
    let debug_info = module.debug_info->Spv_0;
    let miscs = module.miscs();
    let ids = module.new_ids();
    let n = numbering(module);
    lemma_own_insts(module);
    lemma_numbering(module);
    lemma_ids_cover_needs(module);
    law_layout(module);
    order::lemma_ascending(module.needs_ids().ext_inst_imports);
    order::lemma_ascending(module.needs_ids().debug_strings);
    let p1 = dialect.capabilities@.map_values(|cap: u32| capability_inst(cap));
    let p2 = spec_string_insts(OP_EXTENSION, dialect.extensions@);
    let p3 = resolved(interned_insts(OP_EXT_INST_IMPORT, cx, ids.ext_inst_imports));
    let p4 = seq![dialect.spec_memory_model_inst()];
    let p5 = section_insts(cx, ids, miscs, AttrSection::EntryPoints);
    let p6 = section_insts(cx, ids, miscs, AttrSection::ExecutionModes);
    let p7 = resolved(interned_insts(OP_STRING, cx, ids.debug_strings));
    let p8 = source_insts(debug_info.source_languages@, ids);
    let p9 = spec_string_insts(OP_SOURCE_EXTENSION, debug_info.source_extensions@);
    let p10 = section_insts(cx, ids, miscs, AttrSection::DebugNames);
    let p11 = spec_string_insts(OP_MODULE_PROCESSED, debug_info.module_processes@);
    let p12 = section_insts(cx, ids, miscs, AttrSection::Decorations);
    let p13 = resolved(body_insts(cx, miscs, ids));
    let s7 = p1 + p2 + p3 + p4 + p5 + p6 + p7;
    lemma_fit_parts(s7 + p8 + p9 + p10 + p11 + p12, p13);
    lemma_fit_parts(s7 + p8 + p9 + p10 + p11, p12);
    lemma_fit_parts(s7 + p8 + p9 + p10, p11);
    lemma_fit_parts(s7 + p8 + p9, p10);
    lemma_fit_parts(s7 + p8, p9);
    lemma_fit_parts(s7, p8);
    lemma_fit_parts(p1 + p2 + p3 + p4 + p5 + p6, p7);
    lemma_fit_parts(p1 + p2 + p3 + p4 + p5, p6);
    lemma_fit_parts(p1 + p2 + p3 + p4, p5);
    lemma_fit_parts(p1 + p2 + p3, p4);
    lemma_fit_parts(p1 + p2, p3);
    lemma_fit_parts(p1, p2);
    lemma_texts_fit(OP_EXTENSION, dialect.extensions@);
    lemma_texts_fit(OP_SOURCE_EXTENSION, debug_info.source_extensions@);
    lemma_texts_fit(OP_MODULE_PROCESSED, debug_info.module_processes@);
    assert forall|name: InternedStr| #[trigger] is_imported(module, name) implies interned_short(
        module,
        name,
    ) by {
        assert(n.imports.contains(name));
        assert(n.imports.to_set().contains(name));
        if cx.has_str(name) {
            lemma_interned_short(OP_EXT_INST_IMPORT, cx, ids.ext_inst_imports, name);
        }
    }
    assert forall|path: InternedStr| #[trigger] is_path(module, path) implies interned_short(
        module,
        path,
    ) by {
        assert(n.strings.contains(path));
        assert(n.strings.to_set().contains(path));
        if cx.has_str(path) {
            lemma_interned_short(OP_STRING, cx, ids.debug_strings, path);
        }
    }
    assert forall|i: int, j: int|
        0 <= i < miscs.len() && 0 <= j < attrs_of(module, miscs[i]).len()
            && miscs[i].output is Some implies attr_short(
        #[trigger] attrs_of(module, miscs[i])[j],
    ) by {
        let attr = cx.spec_attrs(miscs[i].attrs)[j];
        if let Some(section) = attr_section(attr) {
            lemma_section_short(cx, ids, miscs, section);
            assert(section_is_short(cx, miscs, section));
        }
    }
    assert forall|i: int| 0 <= i < miscs.len() implies misc_short(#[trigger] miscs[i]) by {
        law_body_groups(cx, miscs, ids, i);
        let end = body_insts(cx, miscs.take(i + 1), ids).len();
        assert(fits(p13[end - 1]));
    }
}

/// A numbering of what needs an ID is the one that lifting uses.
pub(crate) proof fn lemma_one_numbering(module: Module, n: Numbering)
    requires
        module.is_spv(),
        numbers(module, n),
    ensures
        n.bound() == module.id_bound(),
{
    let needs = module.needs_ids();
    let own = numbering(module);
    lemma_numbering(module);
    lemma_ids_cover_needs(module);
    order::lemma_ascending(needs.ext_inst_imports);
    order::lemma_ascending(needs.debug_strings);
    order::lemma_ascending(needs.old_outputs);
    assert forall|x: u32| #[trigger] n.imports.to_set().contains(x)
        <==> needs.ext_inst_imports.contains(x) by {
        assert(n.imports.contains(x) <==> own.imports.contains(x));
        assert(own.imports.to_set().contains(x) <==> own.imports.contains(x));
    }
    assert forall|x: u32| #[trigger] n.strings.to_set().contains(x)
        <==> needs.debug_strings.contains(x) by {
        assert(n.strings.contains(x) <==> own.strings.contains(x));
        assert(own.strings.to_set().contains(x) <==> own.strings.contains(x));
    }
    assert forall|x: u32| #[trigger] n.outputs.to_set().contains(x)
        <==> needs.old_outputs.contains(x) by {
        assert(n.outputs.contains(x) <==> own.outputs.contains(x));
        assert(own.outputs.to_set().contains(x) <==> own.outputs.contains(x));
    }
    assert(n.imports.to_set() =~= needs.ext_inst_imports);
    assert(n.strings.to_set() =~= needs.debug_strings);
    assert(n.outputs.to_set() =~= needs.old_outputs);
    order::lemma_ascending_unique(n.imports, needs.ext_inst_imports);
    order::lemma_ascending_unique(n.strings, needs.debug_strings);
    order::lemma_ascending_unique(n.outputs, needs.old_outputs);
}

/// Lifting succeeds exactly where the module is one of SPIR-V, its IDs can be bounded, all
/// instructions can be made, and none is too long. Each error comes from the one of these that
/// does not hold.
pub proof fn law_when_lifted(module: Module, n: Numbering)
    requires
        of_spv(module) ==> numbers(module, n),
    ensures
        module.lifted_words() is Ok <==> of_spv(module) && n.bound() <= u32::MAX && can_be_made(
            module,
        ) && all_short(module),
        module.lifted_words() == Err::<Seq<u32>, Stop>(Stop::Error(LiftError::NotSpv))
            <==> !of_spv(module),
        module.lifted_words() == Err::<Seq<u32>, Stop>(Stop::Error(LiftError::IdBoundTooLarge))
            <==> of_spv(module) && attr_sets_there(module) && n.bound() > u32::MAX,
        module.lifted_words() == Err::<Seq<u32>, Stop>(Stop::Error(LiftError::InstTooLong))
            ==> of_spv(module) && attr_sets_there(module) && n.bound() <= u32::MAX && !all_short(
            module,
        ),
        module.lifted_words() == Err::<Seq<u32>, Stop>(Stop::Unresolved) ==> of_spv(module)
            && !can_be_made(module),
        of_spv(module) && !attr_sets_there(module) ==> module.lifted_words() == Err::<
            Seq<u32>,
            Stop,
        >(Stop::Unresolved),
{
    if module.is_spv() {
        lemma_one_numbering(module, n);
        lemma_made(module);
        if module.lifted_words() is Ok {
            law_layout(module);
            lemma_lifted_short(module);
        }
        if module.well_formed() {
            law_well_formed_is_liftable(module);
        }
        if all_short(module) {
            lemma_short_stop(module);
        }
        lemma_stop_kinds(module.emission());
    }
}

proof fn lemma_stop_kinds(insts: Seq<Option<InstView>>)
    ensures
        stop(insts) matches Some(s) ==> s == Stop::Unresolved || s == Stop::Error(
            LiftError::InstTooLong,
        ),
    decreases insts.len(),
{
    if insts.len() > 0 {
        lemma_stop_kinds(insts.drop_last());
    }
}

/// There is a numbering of what needs an ID in any module of SPIR-V.
pub proof fn law_numbering(module: Module) -> (n: Numbering)
    requires
        of_spv(module),
    ensures
        numbers(module, n),
{
    lemma_numbering(module);
    numbering(module)
}

/// The first instruction that cannot be made or is too long stops the emission.
pub proof fn law_first_stop(insts: Seq<Option<InstView>>, i: int)
    requires
        0 <= i < insts.len(),
        forall|k: int| 0 <= k < i ==> (#[trigger] insts[k] matches Some(inst) && fits(inst)),
    ensures
        insts[i] is None ==> stop(insts) == Some(Stop::Unresolved),
        insts[i] matches Some(inst) ==> !fits(inst) ==> stop(insts) == Some(
            Stop::Error(LiftError::InstTooLong),
        ),
    decreases insts.len(),
{
    let rest = insts.drop_last();
    if i < rest.len() {
        assert forall|k: int| 0 <= k < i implies (#[trigger] rest[k] matches Some(inst) && fits(
            inst,
        )) by {
            assert(insts[k] matches Some(inst) && fits(inst));
        }
        law_first_stop(rest, i);
    } else {
        assert forall|k: int| 0 <= k < rest.len() implies (#[trigger] rest[k] matches Some(inst)
            ==> fits(inst)) by {
            assert(insts[k] matches Some(inst) && fits(inst));
        }
        lemma_fit_stop(rest);
        assert forall|k: int| 0 <= k < rest.len() implies (#[trigger] rest[k]) is Some by {
            assert(insts[k] matches Some(inst) && fits(inst));
        }
    }
}

} // verus!
