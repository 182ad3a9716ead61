//! That attributes, and interned strings, can be read from lifted modules.
use crate::ir::{Attr, Context, InternedStr, Misc, Module};
use crate::order;
use crate::order::ascending;
use crate::spv::attrs::{
    attr_inst, attr_resolved, attr_section, attrs_insts, attrs_resolved, imm_operands,
    misc_attrs_insts, misc_attrs_resolved, new_result_id, old_id_operands, section_insts,
    AttrSection,
};
use crate::spv::grammar::Opcode;
use crate::spv::ids::IdMaps;
use crate::spv::laws::reading::{
    attached, attrs_of, each_interned, each_text, holds_text, imm_word, is_decoration,
    is_entry_point, is_execution_mode, is_name, is_result, own_insts, say_each, says, Numbering,
};
use crate::spv::laws::seen::{all_seen, ids_numbered, lemma_own_insts, lemma_text_seen, seen};
use crate::spv::literal::literal_string;
use crate::spv::sections::{interned_insts, spec_string_insts};
use crate::spv::write::{operand_word, resolved};
use crate::spv::{Id, Operand};
use vstd::prelude::*;
use vstd::utf8::encode_utf8;

verus! {

/// Whether an attribute belongs in a section.
pub(crate) open spec fn belongs(attr: Attr, section: AttrSection) -> bool {
    match section {
        AttrSection::EntryPoints => is_entry_point(attr),
        AttrSection::ExecutionModes => is_execution_mode(attr),
        AttrSection::DebugNames => is_name(attr),
        AttrSection::Decorations => is_decoration(attr),
    }
}

/// The attributes that belong in a section, each with what it is attached to.
pub(crate) open spec fn in_section(
    attached: Seq<(Misc, Attr)>,
    section: AttrSection,
) -> Seq<(Misc, Attr)> {
    attached.filter(|a: (Misc, Attr)| belongs(a.1, section))
}

/// The attributes of an instruction, with the instruction.
spec fn with_misc(misc: Misc, attrs: Seq<Attr>) -> Seq<(Misc, Attr)> {
    attrs.map_values(|attr: Attr| (misc, attr))
}

proof fn lemma_attr_says(misc: Misc, attr: Attr, target_id: Id, ids: IdMaps, n: Numbering)
    requires
        ids_numbered(ids, n),
        attr_resolved(misc, attr, ids),
        attr_section(attr) is Some,
        is_result(target_id, misc, n),
    ensures
        says(seen(attr_inst(attr, target_id, ids)), misc, attr, n),
{
    let inst = seen(attr_inst(attr, target_id, ids));
    let operands = attr_inst(attr, target_id, ids).operands;
    assert(inst.args =~= operands.map_values(|o: Operand| operand_word(o)));
    match attr {
        Attr::SpvEntryPoint { params, interface_ids } => {
            assert(operands[0] == Operand::Imm(params@[0]));
            assert forall|k: int| 1 <= k < params@.len() implies inst.args[1 + k] == imm_word(
                #[trigger] params@[k],
            ) by {
                assert(operands[1 + k] == imm_operands(params@.skip(1))[k - 1]);
            }
            assert forall|k: int| 0 <= k < interface_ids@.len() implies n.is_output(
                inst.args[1 + params@.len() + k],
                #[trigger] interface_ids@[k],
            ) by {
                assert(operands[1 + params@.len() + k] == old_id_operands(interface_ids@, ids)[k]);
                assert(ids.old_outputs.contains_key(interface_ids@[k]));
            }
        },
        Attr::SpvAnnotation { opcode, params } => {
            assert forall|k: int| 0 <= k < params@.len() implies inst.args[1 + k] == imm_word(
                #[trigger] params@[k],
            ) by {
                assert(operands[1 + k] == imm_operands(params@)[k]);
            }
        },
        Attr::SpvDebugLine { .. } => {},
    }
}

proof fn lemma_attrs_say(
    misc: Misc,
    attrs: Seq<Attr>,
    target_id: Id,
    ids: IdMaps,
    n: Numbering,
    section: AttrSection,
)
    requires
        ids_numbered(ids, n),
        forall|i: int| 0 <= i < attrs.len() ==> attr_resolved(misc, #[trigger] attrs[i], ids),
        misc.output is Some ==> is_result(target_id, misc, n),
    ensures
        say_each(
            all_seen(attrs_insts(attrs, target_id, ids, section)),
            in_section(with_misc(misc, attrs), section),
            n,
        ),
    decreases attrs.len(),
{
    let pred = |a: (Misc, Attr)| belongs(a.1, section);
    if attrs.len() == 0 {
        reveal(Seq::filter);
        assert(with_misc(misc, attrs) =~= seq![]);
        assert(in_section(with_misc(misc, attrs), section).len() == 0);
    } else {
        let rest = attrs.drop_last();
        let attr = attrs[attrs.len() - 1];
        assert forall|i: int| 0 <= i < rest.len() implies attr_resolved(
            misc,
            #[trigger] rest[i],
            ids,
        ) by {
            assert(attr_resolved(misc, attrs[i], ids));
        }
        lemma_attrs_say(misc, rest, target_id, ids, n, section);
        assert(with_misc(misc, attrs) =~= with_misc(misc, rest).push((misc, attr)));
        with_misc(misc, rest).lemma_filter_push((misc, attr), pred);
        assert(attr_resolved(misc, attr, ids));
        let before = attrs_insts(rest, target_id, ids, section);
        if attr_section(attr) == Some(section) {
            lemma_attr_says(misc, attr, target_id, ids, n);
            assert(all_seen(attrs_insts(attrs, target_id, ids, section)) =~= all_seen(before).push(
                seen(attr_inst(attr, target_id, ids)),
            ));
        }
    }
}

/// The attributes of instructions, each with what it is attached to.
spec fn attached_to(cx: Context, miscs: Seq<Misc>) -> Seq<(Misc, Attr)> {
    miscs.map_values(|misc: Misc| with_misc(misc, cx.spec_attrs(misc.attrs))).flatten()
}

proof fn lemma_miscs_say(
    cx: Context,
    miscs: Seq<Misc>,
    ids: IdMaps,
    n: Numbering,
    section: AttrSection,
)
    requires
        ids_numbered(ids, n),
        attrs_resolved(cx, miscs, ids),
        forall|i: int|
            0 <= i < miscs.len() ==> ((#[trigger] miscs[i]).spec_result_id() matches Some(id)
                ==> ids.old_outputs.contains_key(id)),
    ensures
        say_each(
            all_seen(section_insts(cx, ids, miscs, section)),
            in_section(attached_to(cx, miscs), section),
            n,
        ),
    decreases miscs.len(),
{
    let pred = |a: (Misc, Attr)| belongs(a.1, section);
    let f = |misc: Misc| with_misc(misc, cx.spec_attrs(misc.attrs));
    if miscs.len() == 0 {
        reveal(Seq::filter);
        assert(attached_to(cx, miscs) =~= seq![]);
        assert(in_section(attached_to(cx, miscs), section).len() == 0);
    } else {
        let rest = miscs.drop_last();
        let misc = miscs[miscs.len() - 1];
        assert forall|i: int| 0 <= i < rest.len() implies misc_attrs_resolved(
            cx,
            #[trigger] rest[i],
            ids,
        ) && (rest[i].spec_result_id() matches Some(id) ==> ids.old_outputs.contains_key(id)) by {
            assert(misc_attrs_resolved(cx, miscs[i], ids));
        }
        lemma_miscs_say(cx, rest, ids, n, section);
        assert(misc_attrs_resolved(cx, misc, ids));
        let attrs = cx.spec_attrs(misc.attrs);
        let target_id = match new_result_id(misc, ids) {
            Some(id) => id,
            None => 0,
        };
        lemma_attrs_say(misc, attrs, target_id, ids, n, section);
        let new = attrs_insts(attrs, target_id, ids, section);
        let pairs = in_section(with_misc(misc, attrs), section);
        if misc.output is None {
            if new.len() > 0 {
                assert(says(all_seen(new)[0], pairs[0].0, pairs[0].1, n));
                with_misc(misc, attrs).lemma_filter_contains_rev(pred, pairs[0]);
                let i = choose|i: int|
                    0 <= i < attrs.len() && with_misc(misc, attrs)[i] == pairs[0];
                assert(pairs[0].0 == misc);
            }
            assert(new =~= misc_attrs_insts(cx, ids, misc, section));
        }
        assert(miscs.map_values(f) =~= rest.map_values(f).push(with_misc(misc, attrs)));
        rest.map_values(f).lemma_flatten_push(with_misc(misc, attrs));
        Seq::filter_distributes_over_add(
            attached_to(cx, rest),
            with_misc(misc, attrs),
            pred,
        );
        let before = section_insts(cx, ids, rest, section);
        assert(all_seen(section_insts(cx, ids, miscs, section)) =~= all_seen(before) + all_seen(
            new,
        ));
    }
}

/// The instructions in a section say what the attributes say that belong there.
pub(crate) proof fn lemma_section_says(module: Module, n: Numbering, section: AttrSection)
    requires
        ids_numbered(module.new_ids(), n),
        attrs_resolved(module.spec_cx(), module.miscs(), module.new_ids()),
        forall|i: int|
            0 <= i < module.miscs().len() ==> ((
            #[trigger] module.miscs()[i]).spec_result_id() matches Some(id)
                ==> module.new_ids().old_outputs.contains_key(id)),
    ensures
        say_each(
            all_seen(
                section_insts(module.spec_cx(), module.new_ids(), module.miscs(), section),
            ),
            in_section(attached(module), section),
            n,
        ),
{
    let cx = module.spec_cx();
    lemma_own_insts(module);
    lemma_miscs_say(cx, module.miscs(), module.new_ids(), n, section);
    let f = |misc: Misc| with_misc(misc, cx.spec_attrs(misc.attrs));
    let g = |misc: Misc| attrs_of(module, misc).map_values(|attr: Attr| (misc, attr));
    assert(own_insts(module).map_values(g) =~= module.miscs().map_values(f));
}

/// Strings can be read from instructions that have one each.
pub(crate) proof fn lemma_texts_seen(opcode: Opcode, strings: Seq<String>)
    ensures
        each_text(all_seen(spec_string_insts(opcode, strings)), opcode as int, strings),
{
    let insts = spec_string_insts(opcode, strings);
    assert forall|i: int| 0 <= i < strings.len() implies {
        &&& (#[trigger] all_seen(insts)[i]).opcode == opcode
        &&& holds_text(all_seen(insts)[i].args, encode_utf8(strings[i]@))
    } by {
        lemma_text_seen(encode_utf8(strings[i]@));
        assert(all_seen(insts)[i].args =~= literal_string(encode_utf8(strings[i]@)).map_values(
            |o: Operand| operand_word(o),
        ));
    }
}

/// Interned strings can be read from their definitions.
pub(crate) proof fn lemma_interned_seen(
    opcode: Opcode,
    cx: Context,
    ids: Map<InternedStr, Id>,
    first: nat,
)
    requires
        ids.dom().finite(),
        first + ids.dom().len() <= u32::MAX + 1,
        ids == order::numbered(ascending(ids.dom()), first),
        forall|name: u32| #[trigger] ids.contains_key(name) ==> cx.has_str(name),
    ensures
        each_interned(
            all_seen(resolved(interned_insts(opcode, cx, ids))),
            opcode as int,
            ascending(ids.dom()),
            first,
            cx.strings@,
        ),
{
    let names = ascending(ids.dom());
    let insts = interned_insts(opcode, cx, ids);
    order::lemma_ascending(ids.dom());
    order::lemma_numbered(names, first);
    assert forall|i: int| 0 <= i < names.len() implies {
        let inst = #[trigger] all_seen(resolved(insts))[i];
        &&& inst.opcode == opcode
        &&& inst.args.len() > 0
        &&& inst.args[0] == first + i
        &&& names[i] < cx.strings@.len()
        &&& holds_text(inst.args.skip(1), encode_utf8(cx.strings@[names[i] as int]@))
    } by {
        assert(names.to_set().contains(names[i]));
        assert(ids.contains_key(names[i]));
        assert(ids[names[i]] == first + i);
        let text = encode_utf8(cx.strings@[names[i] as int]@);
        lemma_text_seen(text);
        let inst = all_seen(resolved(insts))[i];
        assert(inst.args =~= seq![ids[names[i]]] + literal_string(text).map_values(
            |o: Operand| operand_word(o),
        ));
        assert(inst.args.skip(1) =~= literal_string(text).map_values(|o: Operand| operand_word(o)));
    }
}

} // verus!
