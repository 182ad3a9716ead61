//! Which parts of a module need an ID.
use crate::ir::{
    Attr, AttrSet, Context, InternedStr, Misc, MiscInput, MiscOutput, Module, ModuleDebugInfo,
};
use crate::order;
use crate::spv;
use crate::spv::Id;
use std::collections::BTreeSet;
use vstd::prelude::*;

verus! {

/// What needs an ID.
#[verifier::ext_equal]
pub struct Needs {
    pub ext_inst_imports: Set<InternedStr>,
    pub debug_strings: Set<InternedStr>,
    pub old_outputs: Set<Id>,
}

impl Needs {
    /// What is needed by either of two things.
    pub open spec fn union(self, other: Needs) -> Needs {
        Needs {
            ext_inst_imports: self.ext_inst_imports.union(other.ext_inst_imports),
            debug_strings: self.debug_strings.union(other.debug_strings),
            old_outputs: self.old_outputs.union(other.old_outputs),
        }
    }

    /// Whether there are finitely many needs.
    pub open spec fn finite(self) -> bool {
        &&& self.ext_inst_imports.finite()
        &&& self.debug_strings.finite()
        &&& self.old_outputs.finite()
    }

    /// How many IDs are needed.
    pub open spec fn count(self) -> nat {
        self.ext_inst_imports.len() + self.debug_strings.len() + self.old_outputs.len()
    }
}

/// The file that an attribute names, if it names one.
pub open spec fn attr_file(attr: Attr) -> Option<InternedStr> {
    match attr {
        Attr::SpvDebugLine { file_path, .. } => Some(file_path),
        _ => None,
    }
}

/// The files that attributes name.
pub open spec fn attr_files(attrs: Seq<Attr>) -> Set<InternedStr> {
    Set::new(
        |s: InternedStr|
            exists|i: int| 0 <= i < attrs.len() && attr_file(#[trigger] attrs[i]) == Some(s),
    )
}

/// The instruction sets that inputs are imported from.
pub open spec fn input_imports(inputs: Seq<MiscInput>) -> Set<InternedStr> {
    Set::new(
        |name: InternedStr|
            exists|i: int|
                0 <= i < inputs.len() && #[trigger] inputs[i] == MiscInput::SpvExtInstImport(name),
    )
}

/// What an instruction needs IDs for.
pub open spec fn misc_needs(cx: Context, misc: Misc) -> Needs {
    Needs {
        ext_inst_imports: input_imports(misc.inputs@),
        debug_strings: attr_files(cx.spec_attrs(misc.attrs)),
        old_outputs: Set::new(|id: Id| misc.spec_result_id() == Some(id)),
    }
}

/// What instructions need IDs for.
pub open spec fn miscs_needs(cx: Context, miscs: Seq<Misc>) -> Needs {
    Needs {
        ext_inst_imports: Set::new(
            |name: InternedStr|
                exists|i: int|
                    0 <= i < miscs.len() && misc_needs(
                        cx,
                        #[trigger] miscs[i],
                    ).ext_inst_imports.contains(name),
        ),
        debug_strings: Set::new(
            |s: InternedStr|
                exists|i: int|
                    0 <= i < miscs.len() && misc_needs(
                        cx,
                        #[trigger] miscs[i],
                    ).debug_strings.contains(s),
        ),
        old_outputs: Set::new(
            |id: Id|
                exists|i: int|
                    0 <= i < miscs.len() && misc_needs(cx, #[trigger] miscs[i]).old_outputs.contains(
                        id,
                    ),
        ),
    }
}

/// The paths of source files.
pub open spec fn file_paths(files: Seq<(InternedStr, String)>) -> Set<InternedStr> {
    Set::new(|s: InternedStr| exists|i: int| 0 <= i < files.len() && (#[trigger] files[i]).0 == s)
}

/// The paths of the source files in all languages.
pub open spec fn source_paths(
    source_languages: Seq<(spv::DebugSourceLang, spv::DebugSources)>,
) -> Set<InternedStr> {
    Set::new(
        |s: InternedStr|
            exists|i: int|
                0 <= i < source_languages.len() && file_paths(
                    (#[trigger] source_languages[i]).1.file_contents@,
                ).contains(s),
    )
}

/// What debug information needs IDs for.
pub open spec fn debug_info_needs(debug_info: spv::ModuleDebugInfo) -> Needs {
    Needs {
        ext_inst_imports: Set::empty(),
        debug_strings: source_paths(debug_info.source_languages@),
        old_outputs: Set::empty(),
    }
}

/// What a module needs IDs for, where its interned values are positions in `cx`.
pub open spec fn module_needs(cx: Context, module: Module) -> Needs {
    let misc_needs = miscs_needs(cx, module.miscs());
    match module.debug_info {
        ModuleDebugInfo::Spv(debug_info) => debug_info_needs(debug_info).union(misc_needs),
        ModuleDebugInfo::Unspecified => misc_needs,
    }
}

/// Collects what needs an ID.
pub struct NeedsIdsCollector<'a> {
    pub cx: &'a Context,
    pub ext_inst_imports: BTreeSet<InternedStr>,
    pub debug_strings: BTreeSet<InternedStr>,
    pub old_outputs: BTreeSet<Id>,
}

impl<'a> View for NeedsIdsCollector<'a> {
    type V = Needs;

    open spec fn view(&self) -> Needs {
        Needs {
            ext_inst_imports: self.ext_inst_imports@,
            debug_strings: self.debug_strings@,
            old_outputs: self.old_outputs@,
        }
    }
}

impl<'a> NeedsIdsCollector<'a> {
    /// A collector that has not seen anything yet.
    pub fn new(cx: &'a Context) -> (r: Self)
        ensures
            r.cx == cx,
            r@.ext_inst_imports == Set::<InternedStr>::empty(),
            r@.debug_strings == Set::<InternedStr>::empty(),
            r@.old_outputs == Set::<Id>::empty(),
    {
        NeedsIdsCollector {
            cx,
            ext_inst_imports: BTreeSet::new(),
            debug_strings: BTreeSet::new(),
            old_outputs: BTreeSet::new(),
        }
    }

    /// Collects from an attribute.
    pub fn visit_attr(&mut self, attr: &Attr)
        ensures
            final(self).cx == old(self).cx,
            final(self)@ == (Needs {
                debug_strings: match attr_file(*attr) {
                    Some(s) => old(self)@.debug_strings.insert(s),
                    None => old(self)@.debug_strings,
                },
                ..old(self)@
            }),
    {
        match attr {
            Attr::SpvEntryPoint { .. } => {},
            Attr::SpvAnnotation { .. } => {},
            Attr::SpvDebugLine { file_path, .. } => {
                order::add_element(&mut self.debug_strings, *file_path);
            },
        }
    }

    /// Collects from each attribute of a set.
    pub fn visit_attr_set_def(&mut self, attrs: &Vec<Attr>)
        ensures
            final(self).cx == old(self).cx,
            final(self)@ == (Needs {
                debug_strings: old(self)@.debug_strings.union(attr_files(attrs@)),
                ..old(self)@
            }),
    {
        let ghost start = self@;
        let mut i: usize = 0;
        assert(self@.debug_strings =~= start.debug_strings.union(attr_files(attrs@.take(0))));
        while i < attrs.len()
            invariant
                i <= attrs@.len(),
                self.cx == old(self).cx,
                self@ == (Needs {
                    debug_strings: start.debug_strings.union(attr_files(attrs@.take(i as int))),
                    ..start
                }),
            decreases attrs@.len() - i,
        {
            self.visit_attr(&attrs[i]);
            proof {
                let was = attrs@.take(i as int);
                let now = attrs@.take(i + 1);
                assert forall|s: InternedStr| #[trigger] attr_files(now).contains(s) == (attr_files(
                    was,
                ).contains(s) || attr_file(attrs@[i as int]) == Some(s)) by {
                    if attr_files(was).contains(s) {
                        let k = choose|k: int|
                            0 <= k < was.len() && attr_file(#[trigger] was[k]) == Some(s);
                        assert(attr_file(now[k]) == Some(s));
                    }
                    if attr_files(now).contains(s) {
                        let k = choose|k: int|
                            0 <= k < now.len() && attr_file(#[trigger] now[k]) == Some(s);
                        if k < i {
                            assert(attr_file(was[k]) == Some(s));
                        }
                    }
                    assert(now[i as int] == attrs@[i as int]);
                }
                assert(self@.debug_strings =~= start.debug_strings.union(attr_files(now)));
            }
            i = i + 1;
        }
        assert(attrs@.take(i as int) =~= attrs@);
    }

    /// Collects from the set of attributes that an instruction uses.
    pub fn visit_attr_set_use(&mut self, attrs: AttrSet)
        requires
            old(self).cx.has_attrs(attrs),
        ensures
            final(self).cx == old(self).cx,
            final(self)@ == (Needs {
                debug_strings: old(self)@.debug_strings.union(
                    attr_files(old(self).cx.spec_attrs(attrs)),
                ),
                ..old(self)@
            }),
    {
        let cx = self.cx;
        self.visit_attr_set_def(cx.attrs(attrs));
    }

    /// Collects what an instruction defines.
    pub fn visit_misc_output(&mut self, output: MiscOutput)
        ensures
            final(self).cx == old(self).cx,
            final(self)@ == (Needs {
                old_outputs: old(self)@.old_outputs.insert(output->result_id),
                ..old(self)@
            }),
    {
        match output {
            MiscOutput::SpvResult { result_id, .. } => {
                order::add_element(&mut self.old_outputs, result_id);
            },
        }
    }

    /// Collects from an input of an instruction.
    pub fn visit_misc_input(&mut self, input: MiscInput)
        ensures
            final(self).cx == old(self).cx,
            final(self)@ == (Needs {
                ext_inst_imports: match input {
                    MiscInput::SpvExtInstImport(name) => old(self)@.ext_inst_imports.insert(name),
                    _ => old(self)@.ext_inst_imports,
                },
                ..old(self)@
            }),
    {
        match input {
            MiscInput::SpvImm(_) => {},
            MiscInput::SpvUntrackedId(_) => {},
            MiscInput::SpvExtInstImport(name) => {
                order::add_element(&mut self.ext_inst_imports, name);
            },
        }
    }

    /// Collects from an instruction.
    pub fn visit_misc(&mut self, misc: &Misc)
        requires
            old(self).cx.has_attrs(misc.attrs),
        ensures
            final(self).cx == old(self).cx,
            final(self)@ == old(self)@.union(misc_needs(*old(self).cx, *misc)),
    {
        let ghost start = self@;
        let ghost needs = misc_needs(*self.cx, *misc);
        self.visit_attr_set_use(misc.attrs);
        if let Some(output) = misc.output {
            self.visit_misc_output(output);
        }
        assert(self@.old_outputs =~= start.old_outputs.union(needs.old_outputs));
        let inputs = &misc.inputs;
        let mut i: usize = 0;
        assert(self@.ext_inst_imports =~= start.ext_inst_imports.union(
            input_imports(inputs@.take(0)),
        ));
        while i < inputs.len()
            invariant
                i <= inputs@.len(),
                self.cx == old(self).cx,
                self@ == (Needs {
                    ext_inst_imports: start.ext_inst_imports.union(
                        input_imports(inputs@.take(i as int)),
                    ),
                    ..start.union(needs)
                }),
            decreases inputs@.len() - i,
        {
            self.visit_misc_input(inputs[i]);
            proof {
                let was = inputs@.take(i as int);
                let now = inputs@.take(i + 1);
                assert forall|name: InternedStr| #[trigger] input_imports(now).contains(name) == (
                input_imports(was).contains(name) || inputs@[i as int]
                    == MiscInput::SpvExtInstImport(name)) by {
                    if input_imports(was).contains(name) {
                        let k = choose|k: int|
                            0 <= k < was.len() && #[trigger] was[k] == MiscInput::SpvExtInstImport(
                                name,
                            );
                        assert(now[k] == MiscInput::SpvExtInstImport(name));
                    }
                    if input_imports(now).contains(name) {
                        let k = choose|k: int|
                            0 <= k < now.len() && #[trigger] now[k] == MiscInput::SpvExtInstImport(
                                name,
                            );
                        if k < i {
                            assert(was[k] == MiscInput::SpvExtInstImport(name));
                        }
                    }
                    assert(now[i as int] == inputs@[i as int]);
                }
                assert(self@.ext_inst_imports =~= start.ext_inst_imports.union(input_imports(now)));
            }
            i = i + 1;
        }
        assert(inputs@.take(i as int) =~= inputs@);
    }

    /// Collects from the debug information of a module.
    pub fn visit_spv_module_debug_info(&mut self, debug_info: &spv::ModuleDebugInfo)
        ensures
            final(self).cx == old(self).cx,
            final(self)@ == old(self)@.union(debug_info_needs(*debug_info)),
    {
        let ghost start = self@;
        let languages = &debug_info.source_languages;
        let mut i: usize = 0;
        assert(self@ =~= (Needs {
            debug_strings: start.debug_strings.union(source_paths(languages@.take(0))),
            ..start
        }));
        while i < languages.len()
            invariant
                i <= languages@.len(),
                self.cx == old(self).cx,
                self@ == (Needs {
                    debug_strings: start.debug_strings.union(
                        source_paths(languages@.take(i as int)),
                    ),
                    ..start
                }),
            decreases languages@.len() - i,
        {
            let files = &languages[i].1.file_contents;
            let ghost before = self@;
            let mut j: usize = 0;
            assert(self@ =~= (Needs {
                debug_strings: before.debug_strings.union(file_paths(files@.take(0))),
                ..start
            }));
            while j < files.len()
                invariant
                    j <= files@.len(),
                    self.cx == old(self).cx,
                    self@ == (Needs {
                        debug_strings: before.debug_strings.union(
                            file_paths(files@.take(j as int)),
                        ),
                        ..start
                    }),
                decreases files@.len() - j,
            {
                // The file operand of `OpSource` has to point to an `OpString`.
                order::add_element(&mut self.debug_strings, files[j].0);
                proof {
                    let was = files@.take(j as int);
                    let now = files@.take(j + 1);
                    assert forall|s: InternedStr| #[trigger] file_paths(now).contains(s) == (
                    file_paths(was).contains(s) || files@[j as int].0 == s) by {
                        if file_paths(was).contains(s) {
                            let k = choose|k: int| 0 <= k < was.len() && (#[trigger] was[k]).0 == s;
                            assert(now[k].0 == s);
                        }
                        if file_paths(now).contains(s) {
                            let k = choose|k: int| 0 <= k < now.len() && (#[trigger] now[k]).0 == s;
                            if k < j {
                                assert(was[k].0 == s);
                            }
                        }
                        assert(now[j as int] == files@[j as int]);
                    }
                    assert(self@.debug_strings =~= before.debug_strings.union(file_paths(now)));
                }
                j = j + 1;
            }
            proof {
                assert(files@.take(j as int) =~= files@);
                let was = languages@.take(i as int);
                let now = languages@.take(i + 1);
                assert forall|s: InternedStr| #[trigger] source_paths(now).contains(s) == (
                source_paths(was).contains(s) || file_paths(files@).contains(s)) by {
                    if source_paths(was).contains(s) {
                        let k = choose|k: int|
                            0 <= k < was.len() && file_paths(
                                (#[trigger] was[k]).1.file_contents@,
                            ).contains(s);
                        assert(file_paths(now[k].1.file_contents@).contains(s));
                    }
                    if source_paths(now).contains(s) {
                        let k = choose|k: int|
                            0 <= k < now.len() && file_paths(
                                (#[trigger] now[k]).1.file_contents@,
                            ).contains(s);
                        if k < i {
                            assert(file_paths(was[k].1.file_contents@).contains(s));
                        }
                    }
                    assert(now[i as int] == languages@[i as int]);
                }
                assert(self@.debug_strings =~= start.debug_strings.union(source_paths(now)));
            }
            i = i + 1;
        }
        assert(languages@.take(i as int) =~= languages@);
        assert(self@ =~= start.union(debug_info_needs(*debug_info)));
    }

    /// Collects from a whole module.
    pub fn visit_module(&mut self, module: &Module)
        requires
            forall|i: int|
                0 <= i < module.miscs().len() ==> old(self).cx.has_attrs(
                    (#[trigger] module.miscs()[i]).attrs,
                ),
        ensures
            final(self).cx == old(self).cx,
            final(self)@ == old(self)@.union(module_needs(*old(self).cx, *module)),
    {
        if let ModuleDebugInfo::Spv(debug_info) = &module.debug_info {
            self.visit_spv_module_debug_info(debug_info);
        }
        let ghost start = self@;
        let miscs = module.globals_and_func_insts();
        let ghost all = module.miscs();
        let ghost cx = *self.cx;
        let mut i: usize = 0;
        assert(self@ =~= start.union(miscs_needs(cx, all.take(0))));
        while i < miscs.len()
            invariant
                i <= miscs@.len(),
                miscs@.unref() == all,
                forall|k: int| 0 <= k < all.len() ==> cx.has_attrs((#[trigger] all[k]).attrs),
                self.cx == old(self).cx,
                cx == *self.cx,
                self@ == start.union(miscs_needs(cx, all.take(i as int))),
            decreases miscs@.len() - i,
        {
            assert(*miscs@[i as int] == all[i as int]);
            self.visit_misc(miscs[i]);
            proof {
                lemma_miscs_needs_push(cx, all.take(i as int), all[i as int]);
                assert(all.take(i + 1) =~= all.take(i as int).push(all[i as int]));
                assert(self@ =~= start.union(miscs_needs(cx, all.take(i + 1))));
            }
            i = i + 1;
        }
        assert(all.take(i as int) =~= all);
        assert(self@ =~= old(self)@.union(module_needs(cx, *module)));
    }
}

/// One more instruction adds its own needs, and no others.
pub proof fn lemma_miscs_needs_push(cx: Context, miscs: Seq<Misc>, misc: Misc)
    ensures
        miscs_needs(cx, miscs.push(misc)) == miscs_needs(cx, miscs).union(misc_needs(cx, misc)),
{
    let now = miscs.push(misc);
    assert(now[miscs.len() as int] == misc);
    assert forall|i: int| 0 <= i < miscs.len() implies now[i] == #[trigger] miscs[i] by {}
    let a = miscs_needs(cx, now);
    let b = miscs_needs(cx, miscs).union(misc_needs(cx, misc));
    assert(a.ext_inst_imports =~= b.ext_inst_imports) by {
        assert forall|x: u32| b.ext_inst_imports.contains(x) implies a.ext_inst_imports.contains(
            x,
        ) by {
            if miscs_needs(cx, miscs).ext_inst_imports.contains(x) {
                let i = choose|i: int|
                    0 <= i < miscs.len() && misc_needs(
                        cx,
                        #[trigger] miscs[i],
                    ).ext_inst_imports.contains(x);
                assert(misc_needs(cx, now[i]).ext_inst_imports.contains(x));
            }
        }
    }
    assert(a.debug_strings =~= b.debug_strings) by {
        assert forall|x: u32| b.debug_strings.contains(x) implies a.debug_strings.contains(x) by {
            if miscs_needs(cx, miscs).debug_strings.contains(x) {
                let i = choose|i: int|
                    0 <= i < miscs.len() && misc_needs(
                        cx,
                        #[trigger] miscs[i],
                    ).debug_strings.contains(x);
                assert(misc_needs(cx, now[i]).debug_strings.contains(x));
            }
        }
    }
    assert(a.old_outputs =~= b.old_outputs) by {
        assert forall|x: u32| b.old_outputs.contains(x) implies a.old_outputs.contains(x) by {
            if miscs_needs(cx, miscs).old_outputs.contains(x) {
                let i = choose|i: int|
                    0 <= i < miscs.len() && misc_needs(cx, #[trigger] miscs[i]).old_outputs.contains(
                        x,
                    );
                assert(misc_needs(cx, now[i]).old_outputs.contains(x));
            }
        }
    }
}

proof fn lemma_attr_files_finite(attrs: Seq<Attr>)
    ensures
        attr_files(attrs).finite(),
{
    let files = attrs.map_values(|attr: Attr| attr_file(attr)).to_set();
    vstd::seq_lib::seq_to_set_is_finite(attrs.map_values(|attr: Attr| attr_file(attr)));
    let found = files.map(|file: Option<InternedStr>| file.unwrap_or(0));
    files.lemma_map_finite(|file: Option<InternedStr>| file.unwrap_or(0));
    assert forall|s: InternedStr| attr_files(attrs).contains(s) implies found.contains(s) by {
        let i = choose|i: int| 0 <= i < attrs.len() && attr_file(#[trigger] attrs[i]) == Some(s);
        assert(attrs.map_values(|attr: Attr| attr_file(attr))[i] == Some(s));
        assert(files.contains(Some(s)));
    }
    vstd::set_lib::lemma_set_subset_finite(found, attr_files(attrs));
}

proof fn lemma_input_imports_finite(inputs: Seq<MiscInput>)
    ensures
        input_imports(inputs).finite(),
{
    let all = inputs.to_set();
    vstd::seq_lib::seq_to_set_is_finite(inputs);
    let f = |input: MiscInput|
        match input {
            MiscInput::SpvExtInstImport(name) => name,
            _ => 0,
        };
    all.lemma_map_finite(f);
    assert forall|name: InternedStr| input_imports(inputs).contains(name) implies all.map(
        f,
    ).contains(name) by {
        let input = MiscInput::SpvExtInstImport(name);
        assert(all.contains(input));
        assert(f(input) == name);
    }
    vstd::set_lib::lemma_set_subset_finite(all.map(f), input_imports(inputs));
}

proof fn lemma_misc_needs_finite(cx: Context, misc: Misc)
    ensures
        misc_needs(cx, misc).finite(),
{
    lemma_attr_files_finite(cx.spec_attrs(misc.attrs));
    lemma_input_imports_finite(misc.inputs@);
    let outputs = misc_needs(cx, misc).old_outputs;
    match misc.spec_result_id() {
        Some(id) => {
            assert(outputs =~= set![id]);
        },
        None => {
            assert(outputs =~= set![]);
        },
    }
}

/// Instructions need finitely many IDs.
pub proof fn lemma_miscs_needs_finite(cx: Context, miscs: Seq<Misc>)
    ensures
        miscs_needs(cx, miscs).finite(),
    decreases miscs.len(),
{
    if miscs.len() == 0 {
        let needs = miscs_needs(cx, miscs);
        assert(needs.ext_inst_imports =~= set![]);
        assert(needs.debug_strings =~= set![]);
        assert(needs.old_outputs =~= set![]);
    } else {
        lemma_miscs_needs_finite(cx, miscs.drop_last());
        lemma_misc_needs_finite(cx, miscs.last());
        lemma_miscs_needs_push(cx, miscs.drop_last(), miscs.last());
        assert(miscs =~= miscs.drop_last().push(miscs.last()));
    }
}

proof fn lemma_file_paths_finite(files: Seq<(InternedStr, String)>)
    ensures
        file_paths(files).finite(),
{
    let paths = files.map_values(|file: (InternedStr, String)| file.0);
    vstd::seq_lib::seq_to_set_is_finite(paths);
    assert forall|s: InternedStr| file_paths(files).contains(s) implies paths.to_set().contains(
        s,
    ) by {
        let i = choose|i: int| 0 <= i < files.len() && (#[trigger] files[i]).0 == s;
        assert(paths[i] == s);
    }
    vstd::set_lib::lemma_set_subset_finite(paths.to_set(), file_paths(files));
}

proof fn lemma_source_paths_finite(languages: Seq<(spv::DebugSourceLang, spv::DebugSources)>)
    ensures
        source_paths(languages).finite(),
    decreases languages.len(),
{
    if languages.len() == 0 {
        assert(source_paths(languages) =~= set![]);
    } else {
        let rest = languages.drop_last();
        let last = file_paths(languages.last().1.file_contents@);
        lemma_source_paths_finite(rest);
        lemma_file_paths_finite(languages.last().1.file_contents@);
        let both = source_paths(rest).union(last);
        assert forall|s: InternedStr| source_paths(languages).contains(s) implies both.contains(
            s,
        ) by {
            let i = choose|i: int|
                0 <= i < languages.len() && file_paths(
                    (#[trigger] languages[i]).1.file_contents@,
                ).contains(s);
            if i < rest.len() {
                assert(file_paths(rest[i].1.file_contents@).contains(s));
            }
        }
        vstd::set_lib::lemma_set_subset_finite(both, source_paths(languages));
    }
}

/// A module needs finitely many IDs.
pub proof fn lemma_module_needs_finite(cx: Context, module: Module)
    ensures
        module_needs(cx, module).finite(),
{
    lemma_miscs_needs_finite(cx, module.miscs());
    if let ModuleDebugInfo::Spv(debug_info) = module.debug_info {
        lemma_source_paths_finite(debug_info.source_languages@);
    }
}

} // verus!
