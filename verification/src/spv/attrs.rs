//! The instructions that are made from attributes.
use crate::ir::{Attr, Context, Misc, MiscOutput};
use crate::order;
use crate::spv::grammar::{
    OperandKind, OP_ENTRY_POINT, OP_EXECUTION_MODE, OP_EXECUTION_MODE_ID, OP_MEMBER_NAME, OP_NAME,
};
use crate::spv::ids::{AllocatedIds, IdMaps};
use crate::spv::{inst_views, plain_inst, Id, Imm, Inst, InstView, Operand};
use vstd::prelude::*;

verus! {

/// Where an instruction that is made from an attribute goes.
#[derive(Clone, Copy, Debug, PartialEq, Eq, Structural)]
pub enum AttrSection {
    EntryPoints,
    ExecutionModes,
    DebugNames,
    Decorations,
}

/// The section for an attribute. There is none for line information, which goes between
/// the instructions of the module.
pub open spec fn attr_section(attr: Attr) -> Option<AttrSection> {
    match attr {
        Attr::SpvEntryPoint { .. } => Some(AttrSection::EntryPoints),
        Attr::SpvAnnotation { opcode, .. } => Some(
            if opcode == OP_EXECUTION_MODE || opcode == OP_EXECUTION_MODE_ID {
                AttrSection::ExecutionModes
            } else if opcode == OP_NAME || opcode == OP_MEMBER_NAME {
                AttrSection::DebugNames
            } else {
                AttrSection::Decorations
            },
        ),
        Attr::SpvDebugLine { .. } => None,
    }
}

/// Immediate operands.
pub open spec fn imm_operands(imms: Seq<Imm>) -> Seq<Operand> {
    imms.map_values(|imm: Imm| Operand::Imm(imm))
}

/// Operands that refer to what had the given IDs.
pub open spec fn old_id_operands(old_ids: Seq<Id>, ids: IdMaps) -> Seq<Operand> {
    old_ids.map_values(|old_id: Id| Operand::Id(OperandKind::IdRef, ids.old_outputs[old_id]))
}

/// The instruction that is made from an attribute of what has got the ID `target_id`. None
/// is made from line information.
pub open spec fn attr_inst(attr: Attr, target_id: Id, ids: IdMaps) -> InstView {
    let target = Operand::Id(OperandKind::IdRef, target_id);
    match attr {
        Attr::SpvEntryPoint { params, interface_ids } => plain_inst(
            OP_ENTRY_POINT,
            seq![Operand::Imm(params@[0]), target] + imm_operands(params@.skip(1))
                + old_id_operands(interface_ids@, ids),
        ),
        Attr::SpvAnnotation { opcode, params } => plain_inst(
            opcode,
            seq![target] + imm_operands(params@),
        ),
        Attr::SpvDebugLine { .. } => arbitrary(),
    }
}

/// The instructions for one section that are made from attributes of what has got the ID
/// `target_id`.
pub open spec fn attrs_insts(
    attrs: Seq<Attr>,
    target_id: Id,
    ids: IdMaps,
    section: AttrSection,
) -> Seq<InstView>
    decreases attrs.len(),
{
    if attrs.len() == 0 {
        seq![]
    } else {
        let before = attrs_insts(attrs.drop_last(), target_id, ids, section);
        if attr_section(attrs.last()) == Some(section) {
            before.push(attr_inst(attrs.last(), target_id, ids))
        } else {
            before
        }
    }
}

/// The ID that what an instruction defines has got.
pub open spec fn new_result_id(misc: Misc, ids: IdMaps) -> Option<Id> {
    match misc.spec_result_id() {
        Some(old_id) => Some(ids.old_outputs[old_id]),
        None => None,
    }
}

/// The instructions for one section that are made from the attributes of an instruction.
pub open spec fn misc_attrs_insts(
    cx: Context,
    ids: IdMaps,
    misc: Misc,
    section: AttrSection,
) -> Seq<InstView> {
    match new_result_id(misc, ids) {
        Some(id) => attrs_insts(cx.spec_attrs(misc.attrs), id, ids, section),
        None => seq![],
    }
}

/// The instructions for one section that are made from the attributes of instructions.
pub open spec fn section_insts(
    cx: Context,
    ids: IdMaps,
    miscs: Seq<Misc>,
    section: AttrSection,
) -> Seq<InstView>
    decreases miscs.len(),
{
    if miscs.len() == 0 {
        seq![]
    } else {
        section_insts(cx, ids, miscs.drop_last(), section) + misc_attrs_insts(
            cx,
            ids,
            miscs.last(),
            section,
        )
    }
}

/// Whether an instruction can be made from an attribute: there is something that the
/// attribute is about, all that it refers to is there, and an entry point has an
/// execution model.
pub open spec fn attr_resolved(misc: Misc, attr: Attr, ids: IdMaps) -> bool {
    match attr {
        Attr::SpvEntryPoint { params, interface_ids } => {
            &&& misc.output is Some
            &&& params@.len() > 0
            &&& forall|i: int|
                0 <= i < interface_ids@.len() ==> ids.old_outputs.contains_key(
                    #[trigger] interface_ids@[i],
                )
        },
        Attr::SpvAnnotation { .. } => misc.output is Some,
        Attr::SpvDebugLine { .. } => true,
    }
}

/// Whether instructions can be made from all the attributes of an instruction.
pub open spec fn misc_attrs_resolved(cx: Context, misc: Misc, ids: IdMaps) -> bool {
    forall|i: int|
        0 <= i < cx.spec_attrs(misc.attrs).len() ==> attr_resolved(
            misc,
            #[trigger] cx.spec_attrs(misc.attrs)[i],
            ids,
        )
}

/// Whether instructions can be made from all the attributes of some instructions.
pub open spec fn attrs_resolved(cx: Context, miscs: Seq<Misc>, ids: IdMaps) -> bool {
    forall|i: int| 0 <= i < miscs.len() ==> misc_attrs_resolved(cx, #[trigger] miscs[i], ids)
}

/// Whether all of some IDs are defined.
fn are_defined(old_ids: &Vec<Id>, ids: &AllocatedIds) -> (r: bool)
    ensures
        r == forall|i: int|
            0 <= i < old_ids@.len() ==> ids@.old_outputs.contains_key(#[trigger] old_ids@[i]),
{
    let mut i: usize = 0;
    while i < old_ids.len()
        invariant
            i <= old_ids@.len(),
            forall|j: int|
                0 <= j < i ==> ids@.old_outputs.contains_key(#[trigger] old_ids@[j]),
        decreases old_ids@.len() - i,
    {
        if !order::has_key(&ids.old_outputs, old_ids[i]) {
            assert(!ids@.old_outputs.contains_key(old_ids@[i as int]));
            return false;
        }
        i = i + 1;
    }
    true
}

fn is_attr_resolved(misc: &Misc, attr: &Attr, ids: &AllocatedIds) -> (r: bool)
    ensures
        r == attr_resolved(*misc, *attr, ids@),
{
    match attr {
        Attr::SpvEntryPoint { params, interface_ids } => {
            misc.output.is_some() && params.len() > 0 && are_defined(interface_ids, ids)
        },
        Attr::SpvAnnotation { .. } => misc.output.is_some(),
        Attr::SpvDebugLine { .. } => true,
    }
}

/// Checks whether instructions can be made from all the attributes of some instructions.
pub(crate) fn are_attrs_resolved(cx: &Context, miscs: &Vec<&Misc>, ids: &AllocatedIds) -> (r: bool)
    requires
        forall|i: int| 0 <= i < miscs@.len() ==> cx.has_attrs((*#[trigger] miscs@[i]).attrs),
    ensures
        r == attrs_resolved(*cx, miscs@.unref(), ids@),
{
    let ghost all = miscs@.unref();
    let mut i: usize = 0;
    while i < miscs.len()
        invariant
            i <= miscs@.len(),
            all == miscs@.unref(),
            forall|i: int| 0 <= i < miscs@.len() ==> cx.has_attrs((*#[trigger] miscs@[i]).attrs),
            forall|k: int| 0 <= k < i ==> misc_attrs_resolved(*cx, #[trigger] all[k], ids@),
        decreases miscs@.len() - i,
    {
        let misc = miscs[i];
        let attrs = cx.attrs(misc.attrs);
        assert(all[i as int] == *misc);
        let mut j: usize = 0;
        while j < attrs.len()
            invariant
                i < all.len(),
                all == miscs@.unref(),
                all[i as int] == *misc,
                j <= attrs@.len(),
                attrs@ == cx.spec_attrs(misc.attrs),
                forall|k: int|
                    0 <= k < j ==> attr_resolved(
                        *misc,
                        #[trigger] cx.spec_attrs(misc.attrs)[k],
                        ids@,
                    ),
            decreases attrs@.len() - j,
        {
            if !is_attr_resolved(misc, &attrs[j], ids) {
                assert(!attr_resolved(*misc, cx.spec_attrs(misc.attrs)[j as int], ids@));
                assert(!misc_attrs_resolved(*cx, all[i as int], ids@));
                return false;
            }
            j = j + 1;
        }
        i = i + 1;
    }
    true
}

/// Instructions that are made from attributes, by their section.
pub(crate) struct AttrInsts {
    pub(crate) entry_points: Vec<Inst>,
    pub(crate) execution_modes: Vec<Inst>,
    pub(crate) debug_names: Vec<Inst>,
    pub(crate) decorations: Vec<Inst>,
}

impl AttrInsts {
    /// The instructions in one section.
    pub(crate) open spec fn section(self, section: AttrSection) -> Seq<InstView> {
        match section {
            AttrSection::EntryPoints => inst_views(self.entry_points@),
            AttrSection::ExecutionModes => inst_views(self.execution_modes@),
            AttrSection::DebugNames => inst_views(self.debug_names@),
            AttrSection::Decorations => inst_views(self.decorations@),
        }
    }

    pub(crate) fn new() -> (r: Self)
        ensures
            forall|section: AttrSection| #[trigger] r.section(section) == Seq::<InstView>::empty(),
    {
        let r = AttrInsts {
            entry_points: Vec::new(),
            execution_modes: Vec::new(),
            debug_names: Vec::new(),
            decorations: Vec::new(),
        };
        assert forall|section: AttrSection| #[trigger] r.section(section) == Seq::<
            InstView,
        >::empty() by {
            assert(r.section(section) =~= Seq::<InstView>::empty());
        }
        r
    }

    /// Adds an instruction to a section.
    fn push(&mut self, section: AttrSection, inst: Inst)
        ensures
            forall|s: AttrSection| #[trigger]
                final(self).section(s) == (if s == section {
                    old(self).section(s).push(inst@)
                } else {
                    old(self).section(s)
                }),
    {
        let ghost before = *self;
        match section {
            AttrSection::EntryPoints => self.entry_points.push(inst),
            AttrSection::ExecutionModes => self.execution_modes.push(inst),
            AttrSection::DebugNames => self.debug_names.push(inst),
            AttrSection::Decorations => self.decorations.push(inst),
        }
        assert forall|s: AttrSection| #[trigger] self.section(s) == (if s == section {
            before.section(s).push(inst@)
        } else {
            before.section(s)
        }) by {
            if s == section {
                assert(self.section(s) =~= before.section(s).push(inst@));
            }
        }
    }

    /// Adds the instruction that is made from an attribute of what has got the ID `target_id`.
    fn push_attr(&mut self, target_id: Id, attr: &Attr, ids: &AllocatedIds)
        requires
            attr matches Attr::SpvEntryPoint { params, interface_ids } ==> params@.len() > 0
                && forall|i: int|
                0 <= i < interface_ids@.len() ==> ids.old_outputs@.contains_key(
                    #[trigger] interface_ids@[i],
                ),
        ensures
            forall|s: AttrSection| #[trigger]
                final(self).section(s) == (if attr_section(*attr) == Some(s) {
                    old(self).section(s).push(attr_inst(*attr, target_id, ids@))
                } else {
                    old(self).section(s)
                }),
    {
        let target = Operand::Id(OperandKind::IdRef, target_id);
        let mut operands: Vec<Operand> = Vec::new();
        match attr {
            Attr::SpvEntryPoint { params, interface_ids } => {
                operands.push(Operand::Imm(params[0]));
                operands.push(target);
                push_imms(&mut operands, params, 1);
                let ghost head = operands@;
                let ghost tail = old_id_operands(interface_ids@, ids@);
                let mut i: usize = 0;
                assert(operands@ =~= head + tail.take(0));
                while i < interface_ids.len()
                    invariant
                        i <= interface_ids@.len(),
                        forall|i: int|
                            0 <= i < interface_ids@.len() ==> ids.old_outputs@.contains_key(
                                #[trigger] interface_ids@[i],
                            ),
                        tail == old_id_operands(interface_ids@, ids@),
                        operands@ == head + tail.take(i as int),
                    decreases interface_ids@.len() - i,
                {
                    let id: Id = order::value_of(&ids.old_outputs, interface_ids[i]);
                    operands.push(Operand::Id(OperandKind::IdRef, id));
                    i = i + 1;
                    assert(operands@ =~= head + tail.take(i as int));
                }
                let inst = Inst {
                    opcode: OP_ENTRY_POINT,
                    result_type_id: None,
                    result_id: None,
                    operands,
                };
                assert(inst@ =~= attr_inst(*attr, target_id, ids@));
                self.push(AttrSection::EntryPoints, inst);
            },
            Attr::SpvAnnotation { opcode, params } => {
                operands.push(target);
                push_imms(&mut operands, params, 0);
                let inst = Inst {
                    opcode: *opcode,
                    result_type_id: None,
                    result_id: None,
                    operands,
                };
                assert(params@.skip(0) =~= params@);
                assert(inst@ =~= attr_inst(*attr, target_id, ids@));
                if *opcode == OP_EXECUTION_MODE || *opcode == OP_EXECUTION_MODE_ID {
                    self.push(AttrSection::ExecutionModes, inst);
                } else if *opcode == OP_NAME || *opcode == OP_MEMBER_NAME {
                    self.push(AttrSection::DebugNames, inst);
                } else {
                    self.push(AttrSection::Decorations, inst);
                }
            },
            Attr::SpvDebugLine { .. } => {},
        }
    }

    /// Adds the instructions that are made from the attributes of an instruction.
    pub(crate) fn push_attrs(&mut self, cx: &Context, misc: &Misc, ids: &AllocatedIds)
        requires
            cx.has_attrs(misc.attrs),
            misc_attrs_resolved(*cx, *misc, ids@),
            misc.spec_result_id() matches Some(id) ==> ids.old_outputs@.contains_key(id),
        ensures
            forall|s: AttrSection| #[trigger]
                final(self).section(s) == old(self).section(s) + misc_attrs_insts(
                    *cx,
                    ids@,
                    *misc,
                    s,
                ),
    {
        let attrs = cx.attrs(misc.attrs);
        let ghost before = *self;
        match misc.output {
            None => {
                assert forall|s: AttrSection| #[trigger]
                    self.section(s) == before.section(s) + misc_attrs_insts(*cx, ids@, *misc, s) by {
                    assert(self.section(s) =~= before.section(s) + seq![]);
                }
            },
            Some(MiscOutput::SpvResult { result_id, .. }) => {
                let target_id: Id = order::value_of(&ids.old_outputs, result_id);
                let mut i: usize = 0;
                assert forall|s: AttrSection| #[trigger]
                    self.section(s) == before.section(s) + attrs_insts(
                        attrs@.take(0),
                        target_id,
                        ids@,
                        s,
                    ) by {
                    assert(self.section(s) =~= before.section(s) + seq![]);
                }
                while i < attrs.len()
                    invariant
                        i <= attrs@.len(),
                        attrs@ == cx.spec_attrs(misc.attrs),
                        misc_attrs_resolved(*cx, *misc, ids@),
                        forall|s: AttrSection| #[trigger]
                            self.section(s) == before.section(s) + attrs_insts(
                                attrs@.take(i as int),
                                target_id,
                                ids@,
                                s,
                            ),
                    decreases attrs@.len() - i,
                {
                    let ghost so_far = *self;
                    let attr = &attrs[i];
                    assert(attr_resolved(*misc, cx.spec_attrs(misc.attrs)[i as int], ids@));
                    self.push_attr(target_id, attr, ids);
                    assert forall|s: AttrSection| #[trigger]
                        self.section(s) == before.section(s) + attrs_insts(
                            attrs@.take(i + 1),
                            target_id,
                            ids@,
                            s,
                        ) by {
                        let ghost _trigger = so_far.section(s);
                        assert(attrs@.take(i + 1).drop_last() =~= attrs@.take(i as int));
                        assert(self.section(s) =~= before.section(s) + attrs_insts(
                            attrs@.take(i + 1),
                            target_id,
                            ids@,
                            s,
                        ));
                    }
                    i = i + 1;
                }
                assert(attrs@.take(i as int) =~= attrs@);
            },
        }
    }
}

/// Appends immediate operands from the position `start` on.
fn push_imms(operands: &mut Vec<Operand>, imms: &Vec<Imm>, start: usize)
    requires
        start <= imms@.len(),
    ensures
        final(operands)@ == old(operands)@ + imm_operands(imms@.skip(start as int)),
{
    let ghost head = operands@;
    let ghost tail = imm_operands(imms@.skip(start as int));
    let mut i: usize = start;
    assert(operands@ =~= head + tail.take(0));
    while i < imms.len()
        invariant
            start <= i <= imms@.len(),
            tail == imm_operands(imms@.skip(start as int)),
            operands@ == head + tail.take(i - start),
        decreases imms@.len() - i,
    {
        operands.push(Operand::Imm(imms[i]));
        i = i + 1;
        assert(operands@ =~= head + tail.take(i - start));
    }
    assert(tail.take(i - start) =~= tail);
}

/// Lists the instructions that are made from the attributes of instructions.
pub(crate) fn collect_attr_insts(cx: &Context, miscs: &Vec<&Misc>, ids: &AllocatedIds) -> (r:
    AttrInsts)
    requires
        forall|i: int|
            0 <= i < miscs@.len() ==> {
                let misc = *#[trigger] miscs@[i];
                &&& cx.has_attrs(misc.attrs)
                &&& misc_attrs_resolved(*cx, misc, ids@)
                &&& misc.spec_result_id() matches Some(id) ==> ids.old_outputs@.contains_key(id)
            },
    ensures
        forall|s: AttrSection| #[trigger]
            r.section(s) == section_insts(*cx, ids@, miscs@.unref(), s),
{
    let ghost all = miscs@.unref();
    let mut r = AttrInsts::new();
    let mut i: usize = 0;
    assert(all.take(0) =~= seq![]);
    while i < miscs.len()
        invariant
            i <= miscs@.len(),
            all == miscs@.unref(),
            forall|i: int|
                0 <= i < miscs@.len() ==> {
                    let misc = *#[trigger] miscs@[i];
                    &&& cx.has_attrs(misc.attrs)
                    &&& misc_attrs_resolved(*cx, misc, ids@)
                    &&& misc.spec_result_id() matches Some(id) ==> ids.old_outputs@.contains_key(id)
                },
            forall|s: AttrSection| #[trigger]
                r.section(s) == section_insts(*cx, ids@, all.take(i as int), s),
        decreases miscs@.len() - i,
    {
        let ghost before = r;
        let misc = miscs[i];
        r.push_attrs(cx, misc, ids);
        assert forall|s: AttrSection| #[trigger]
            r.section(s) == section_insts(*cx, ids@, all.take(i + 1), s) by {
            let ghost _trigger = before.section(s);
            assert(all.take(i + 1).drop_last() =~= all.take(i as int));
            assert(all.take(i + 1).last() == *misc);
        }
        i = i + 1;
    }
    assert(all.take(i as int) =~= all);
    r
}

} // verus!
