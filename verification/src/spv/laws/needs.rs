//! What needs an ID, told by the fields of what needs it.
use crate::ir::{Attr, Context, InternedStr, Misc, MiscInput, Module};
use crate::spv;
use crate::spv::laws::reading::{defines, is_line_in, own_insts};
use crate::spv::laws::seen::lemma_own_insts;
use crate::spv::needs::{
    attr_file, attr_files, debug_info_needs, file_paths, misc_needs, module_needs, source_paths,
    Needs,
};
use crate::spv::Id;
use vstd::prelude::*;

verus! {

/// Of attributes, those with line information need an ID for the path of the file.
pub proof fn law_attr_needs(attrs: Seq<Attr>, path: InternedStr)
    ensures
        forall|attr: Attr| (#[trigger] attr_file(attr) == Some(path)) <==> is_line_in(attr, path),
        attr_files(attrs).contains(path) <==> exists|j: int|
            0 <= j < attrs.len() && is_line_in(#[trigger] attrs[j], path),
{
    if exists|j: int| 0 <= j < attrs.len() && is_line_in(#[trigger] attrs[j], path) {
        let j = choose|j: int| 0 <= j < attrs.len() && is_line_in(#[trigger] attrs[j], path);
        assert(attr_file(attrs[j]) == Some(path));
    }
}

/// An instruction needs IDs for what it imports, for the paths of its lines, and for what it
/// defines.
pub proof fn law_misc_needs(cx: Context, misc: Misc)
    ensures
        forall|name: InternedStr| #[trigger]
            misc_needs(cx, misc).ext_inst_imports.contains(name) <==> exists|j: int|
                0 <= j < misc.inputs@.len() && #[trigger] misc.inputs@[j]
                    == MiscInput::SpvExtInstImport(name),
        forall|path: InternedStr| #[trigger]
            misc_needs(cx, misc).debug_strings.contains(path) <==> exists|j: int|
                0 <= j < cx.attr_sets@[misc.attrs as int].attrs@.len() && is_line_in(
                    #[trigger] cx.attr_sets@[misc.attrs as int].attrs@[j],
                    path,
                ),
        forall|id: Id| #[trigger]
            misc_needs(cx, misc).old_outputs.contains(id) <==> defines(misc, id),
{
    assert forall|path: InternedStr| #[trigger]
        misc_needs(cx, misc).debug_strings.contains(path) <==> exists|j: int|
            0 <= j < cx.attr_sets@[misc.attrs as int].attrs@.len() && is_line_in(
                #[trigger] cx.attr_sets@[misc.attrs as int].attrs@[j],
                path,
            ) by {
        law_attr_needs(cx.attr_sets@[misc.attrs as int].attrs@, path);
    }
}

/// Debug information needs IDs for the paths of source files, and for nothing else.
pub proof fn law_debug_info_needs(debug_info: spv::ModuleDebugInfo)
    ensures
        forall|path: InternedStr| #[trigger]
            debug_info_needs(debug_info).debug_strings.contains(path) <==> exists|i: int, j: int|
                0 <= i < debug_info.source_languages@.len() && 0 <= j
                    < debug_info.source_languages@[i].1.file_contents@.len() && (
                #[trigger] debug_info.source_languages@[i].1.file_contents@[j]).0 == path,
        forall|name: InternedStr| !#[trigger]
            debug_info_needs(debug_info).ext_inst_imports.contains(name),
        forall|id: Id| !#[trigger] debug_info_needs(debug_info).old_outputs.contains(id),
{
    let languages = debug_info.source_languages@;
    assert forall|path: InternedStr| #[trigger]
        debug_info_needs(debug_info).debug_strings.contains(path) <==> exists|i: int, j: int|
            0 <= i < languages.len() && 0 <= j < languages[i].1.file_contents@.len() && (
            #[trigger] languages[i].1.file_contents@[j]).0 == path by {
        if source_paths(languages).contains(path) {
            let i = choose|i: int|
                0 <= i < languages.len() && file_paths(
                    (#[trigger] languages[i]).1.file_contents@,
                ).contains(path);
            let files = languages[i].1.file_contents@;
            let j = choose|j: int| 0 <= j < files.len() && (#[trigger] files[j]).0 == path;
            assert(languages[i].1.file_contents@[j].0 == path);
        }
        if exists|i: int, j: int|
            0 <= i < languages.len() && 0 <= j < languages[i].1.file_contents@.len() && (
            #[trigger] languages[i].1.file_contents@[j]).0 == path {
            let (i, j) = choose|i: int, j: int|
                0 <= i < languages.len() && 0 <= j < languages[i].1.file_contents@.len() && (
                #[trigger] languages[i].1.file_contents@[j]).0 == path;
            assert(file_paths(languages[i].1.file_contents@).contains(path));
        }
    }
}

/// A module needs IDs for what its instructions need them for, and for what its debug
/// information does.
pub proof fn law_module_needs(cx: Context, module: Module)
    ensures
        forall|name: InternedStr| #[trigger]
            module_needs(cx, module).ext_inst_imports.contains(name) <==> exists|i: int|
                0 <= i < own_insts(module).len() && misc_needs(
                    cx,
                    #[trigger] own_insts(module)[i],
                ).ext_inst_imports.contains(name),
        forall|path: InternedStr| #[trigger]
            module_needs(cx, module).debug_strings.contains(path) <==> {
                ||| exists|i: int|
                    0 <= i < own_insts(module).len() && misc_needs(
                        cx,
                        #[trigger] own_insts(module)[i],
                    ).debug_strings.contains(path)
                ||| module.debug_info is Spv && debug_info_needs(
                    module.debug_info->Spv_0,
                ).debug_strings.contains(path)
            },
        forall|id: Id| #[trigger]
            module_needs(cx, module).old_outputs.contains(id) <==> exists|i: int|
                0 <= i < own_insts(module).len() && misc_needs(
                    cx,
                    #[trigger] own_insts(module)[i],
                ).old_outputs.contains(id),
{
    lemma_own_insts(module);
}

/// What either of two things needs an ID for, both need.
pub proof fn law_union_of_needs(a: Needs, b: Needs, x: u32)
    ensures
        a.union(b).ext_inst_imports.contains(x) <==> a.ext_inst_imports.contains(x)
            || b.ext_inst_imports.contains(x),
        a.union(b).debug_strings.contains(x) <==> a.debug_strings.contains(x)
            || b.debug_strings.contains(x),
        a.union(b).old_outputs.contains(x) <==> a.old_outputs.contains(x)
            || b.old_outputs.contains(x),
{
}

} // verus!
