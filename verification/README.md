# spirt

Lifting of an intermediate shader representation to binary SPIR-V, verified with Verus.

A module keeps its instructions in SPIR-V form, but with strings interned, with names,
decorations, entry points and line information attached to the instructions as attributes, and
with the IDs of whatever module it came from. Lifting numbers all IDs afresh, lays the
instructions out in the order that SPIR-V prescribes, and encodes them as words.

- `src/ir.rs`: the representation that modules are lifted from.
- `src/order.rs`: ordered sets and maps of numbers, and the ascending enumeration of a set.
- `src/spv/`: SPIR-V.
  - `grammar.rs`, `literal.rs`, `write.rs`: opcodes, strings as operands, words and bytes.
  - `needs.rs`, `ids.rs`: what needs an ID, and which ID it gets.
  - `sections.rs`, `attrs.rs`, `sources.rs`, `body.rs`: the parts of a lifted module.
  - `lift.rs`: whole modules. `Module::lifted_words` says what lifting comes to.
  - `laws/`: what holds beyond what each function states by itself.
- `tests/`: tests on concrete modules.
- `app/`: writing of lifted modules to files.

Some instructions cannot be made: those that refer to an ID that nothing defines, or to a string
or a set of attributes past the end of its table, labels and attributes without an output, entry
points without an execution model, and source code that would be cut inside a character. A module
that needs one of them has no lifted form. `Module::try_lift` tells so;
`Module::lift_to_spv_module_emitter` and `Module::lift_to_spv_file` ask for a module that
`Module::is_liftable` accepts.
