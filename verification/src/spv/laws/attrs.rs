//! What becomes of attributes.
use crate::ir::{Attr, Context, Misc};
use crate::spv::attrs::{
    attr_inst, attr_section, attrs_insts, misc_attrs_insts, new_result_id, section_insts,
    AttrSection,
};
use crate::spv::ids::IdMaps;
use crate::spv::Id;
use vstd::prelude::*;

verus! {

/// From each attribute of something that an instruction defines, other than line information,
/// an instruction about what it is attached to is made, in the section for it.
pub proof fn law_attrs_are_kept(cx: Context, ids: IdMaps, miscs: Seq<Misc>, i: int, j: int)
    requires
        0 <= i < miscs.len(),
        0 <= j < cx.spec_attrs(miscs[i].attrs).len(),
        miscs[i].output is Some,
        attr_section(cx.spec_attrs(miscs[i].attrs)[j]) is Some,
    ensures
        ({
            let attr = cx.spec_attrs(miscs[i].attrs)[j];
            section_insts(cx, ids, miscs, attr_section(attr)->0).contains(
                attr_inst(attr, new_result_id(miscs[i], ids)->0, ids),
            )
        }),
    decreases miscs.len(),
{
    let rest = miscs.drop_last();
    let attrs = cx.spec_attrs(miscs[i].attrs);
    let section = attr_section(attrs[j])->0;
    let inst = attr_inst(attrs[j], new_result_id(miscs[i], ids)->0, ids);
    let before = section_insts(cx, ids, rest, section);
    let last = misc_attrs_insts(cx, ids, miscs.last(), section);
    if i < rest.len() {
        assert(rest[i] == miscs[i]);
        law_attrs_are_kept(cx, ids, rest, i, j);
        let k = choose|k: int| 0 <= k < before.len() && before[k] == inst;
        assert((before + last)[k] == inst);
    } else {
        lemma_attr_kept(attrs, new_result_id(miscs[i], ids)->0, ids, j);
        let k = choose|k: int| 0 <= k < last.len() && last[k] == inst;
        assert((before + last)[before.len() + k] == inst);
    }
}

proof fn lemma_attr_kept(attrs: Seq<Attr>, target_id: Id, ids: IdMaps, j: int)
    requires
        0 <= j < attrs.len(),
        attr_section(attrs[j]) is Some,
    ensures
        attrs_insts(attrs, target_id, ids, attr_section(attrs[j])->0).contains(
            attr_inst(attrs[j], target_id, ids),
        ),
    decreases attrs.len(),
{
    let rest = attrs.drop_last();
    let section = attr_section(attrs[j])->0;
    let insts = attrs_insts(attrs, target_id, ids, section);
    let inst = attr_inst(attrs[j], target_id, ids);
    if j < rest.len() {
        assert(rest[j] == attrs[j]);
        lemma_attr_kept(rest, target_id, ids, j);
        let before = attrs_insts(rest, target_id, ids, section);
        let k = choose|k: int| 0 <= k < before.len() && before[k] == inst;
        assert(insts[k] == inst);
    } else {
        assert(insts.last() == inst);
    }
}

/// How many attributes there are other than line information.
pub open spec fn annotation_count(attrs: Seq<Attr>) -> nat
    decreases attrs.len(),
{
    if attrs.len() == 0 {
        0
    } else {
        annotation_count(attrs.drop_last()) + (if attr_section(attrs.last()) is Some {
            1nat
        } else {
            0
        })
    }
}

/// How many attributes, other than line information, there are of what instructions define.
pub open spec fn annotations_count(cx: Context, miscs: Seq<Misc>) -> nat
    decreases miscs.len(),
{
    if miscs.len() == 0 {
        0
    } else {
        annotations_count(cx, miscs.drop_last()) + (if miscs.last().output is Some {
            annotation_count(cx.spec_attrs(miscs.last().attrs))
        } else {
            0
        })
    }
}

/// No more than one instruction is made from an attribute: in the four sections together
/// there are as many instructions as there are attributes to make them from.
pub proof fn law_attrs_are_kept_once(cx: Context, ids: IdMaps, miscs: Seq<Misc>)
    ensures
        section_insts(cx, ids, miscs, AttrSection::EntryPoints).len() + section_insts(
            cx,
            ids,
            miscs,
            AttrSection::ExecutionModes,
        ).len() + section_insts(cx, ids, miscs, AttrSection::DebugNames).len() + section_insts(
            cx,
            ids,
            miscs,
            AttrSection::Decorations,
        ).len() == annotations_count(cx, miscs),
    decreases miscs.len(),
{
    if miscs.len() > 0 {
        law_attrs_are_kept_once(cx, ids, miscs.drop_last());
        if let Some(id) = new_result_id(miscs.last(), ids) {
            lemma_attrs_kept_once(cx.spec_attrs(miscs.last().attrs), id, ids);
        }
    }
}

proof fn lemma_attrs_kept_once(attrs: Seq<Attr>, target_id: Id, ids: IdMaps)
    ensures
        attrs_insts(attrs, target_id, ids, AttrSection::EntryPoints).len() + attrs_insts(
            attrs,
            target_id,
            ids,
            AttrSection::ExecutionModes,
        ).len() + attrs_insts(attrs, target_id, ids, AttrSection::DebugNames).len() + attrs_insts(
            attrs,
            target_id,
            ids,
            AttrSection::Decorations,
        ).len() == annotation_count(attrs),
    decreases attrs.len(),
{
    if attrs.len() > 0 {
        lemma_attrs_kept_once(attrs.drop_last(), target_id, ids);
    }
}

} // verus!
