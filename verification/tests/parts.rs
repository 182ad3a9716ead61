//! Tests of the parts that lifting is made of.
use spirt::spv::grammar::OperandKind;
use spirt::spv::ids::{AllocatedIds, IdBound, IdSource};
use spirt::spv::literal::encode_literal_string;
use spirt::spv::needs::NeedsIdsCollector;
use spirt::spv::write::{LiftError, ModuleEmitter, Stop};
use spirt::spv::{
    DebugSourceLang, DebugSources, Dialect, Imm, Inst, ModuleDebugInfo, Operand,
};
use spirt::{Attr, AttrSetDef, Context, Misc, MiscInput, MiscKind, MiscOutput};
use std::collections::BTreeMap;

const STRING: OperandKind = OperandKind::LiteralString;

fn dialect(capabilities: Vec<u32>, extensions: Vec<String>) -> Dialect {
    Dialect {
        version_major: 1,
        version_minor: 0,
        capabilities,
        extensions,
        addressing_model: 0,
        memory_model: 1,
    }
}

fn debug_info(source_extensions: Vec<String>, module_processes: Vec<String>) -> ModuleDebugInfo {
    ModuleDebugInfo {
        original_generator_magic: None,
        source_languages: vec![],
        source_extensions,
        module_processes,
    }
}

fn plain(opcode: u16, operands: Vec<Operand>) -> Inst {
    Inst {
        opcode,
        result_type_id: None,
        result_id: None,
        operands,
    }
}

fn with_operands(n: usize) -> Inst {
    let word = Operand::Imm(Imm::Short(OperandKind::LiteralInteger, 9));
    plain(1, vec![word; n])
}

fn context() -> Context {
    Context {
        strings: vec![],
        attr_sets: vec![
            AttrSetDef { attrs: vec![] },
            AttrSetDef {
                attrs: vec![
                    Attr::SpvAnnotation {
                        opcode: 5,
                        params: vec![],
                    },
                    Attr::SpvDebugLine {
                        file_path: 8,
                        line: 1,
                        col: 2,
                    },
                    Attr::SpvDebugLine {
                        file_path: 6,
                        line: 1,
                        col: 2,
                    },
                ],
            },
        ],
    }
}

fn collected(set: &std::collections::BTreeSet<u32>) -> Vec<u32> {
    set.iter().copied().collect()
}

#[test]
fn capabilities_keep_their_order() {
    let insts = dialect(vec![5, 1], vec![]).capability_insts();
    let capability = |cap| {
        plain(
            17,
            vec![Operand::Imm(Imm::Short(OperandKind::Capability, cap))],
        )
    };
    assert_eq!(insts, vec![capability(5), capability(1)]);
}

#[test]
fn no_capabilities() {
    assert_eq!(dialect(vec![], vec![]).capability_insts(), vec![]);
}

#[test]
fn extensions_are_strings() {
    let insts = dialect(vec![], vec!["ab".to_string(), "SPV_".to_string()]).extension_insts();
    assert_eq!(
        insts,
        vec![
            plain(10, vec![Operand::Imm(Imm::Short(STRING, 0x6261))]),
            plain(
                10,
                vec![
                    Operand::Imm(Imm::LongStart(STRING, 0x5f565053)),
                    Operand::Imm(Imm::LongCont(STRING, 0)),
                ]
            ),
        ]
    );
}

#[test]
fn source_extensions_are_strings() {
    let insts = debug_info(vec!["E".to_string()], vec![]).source_extension_insts();
    assert_eq!(
        insts,
        vec![plain(4, vec![Operand::Imm(Imm::Short(STRING, 0x45))])]
    );
}

#[test]
fn module_processes_are_strings() {
    let insts = debug_info(vec![], vec!["p".to_string(), "".to_string()]).module_processed_insts();
    assert_eq!(
        insts,
        vec![
            plain(330, vec![Operand::Imm(Imm::Short(STRING, 0x70))]),
            plain(330, vec![Operand::Imm(Imm::Short(STRING, 0))]),
        ]
    );
}

#[test]
fn literal_of_no_bytes() {
    assert_eq!(
        encode_literal_string(""),
        vec![Operand::Imm(Imm::Short(STRING, 0))]
    );
}

#[test]
fn literal_of_three_bytes() {
    assert_eq!(
        encode_literal_string("abc"),
        vec![Operand::Imm(Imm::Short(STRING, 0x00636261))]
    );
}

#[test]
fn literal_of_four_bytes() {
    assert_eq!(
        encode_literal_string("abcd"),
        vec![
            Operand::Imm(Imm::LongStart(STRING, 0x64636261)),
            Operand::Imm(Imm::LongCont(STRING, 0)),
        ]
    );
}

#[test]
fn literal_of_nine_bytes() {
    assert_eq!(
        encode_literal_string("abcdefghi"),
        vec![
            Operand::Imm(Imm::LongStart(STRING, 0x64636261)),
            Operand::Imm(Imm::LongCont(STRING, 0x68676665)),
            Operand::Imm(Imm::LongCont(STRING, 0x69)),
        ]
    );
}

#[test]
fn literal_is_utf8() {
    // Two bytes, then four.
    assert_eq!(
        encode_literal_string("\u{e9}\u{1f600}"),
        vec![
            Operand::Imm(Imm::LongStart(STRING, 0x9ff0a9c3)),
            Operand::Imm(Imm::LongCont(STRING, 0x8098)),
        ]
    );
}

#[test]
fn literal_reads_back() {
    for text in ["", "a", "ab", "abc", "abcd", "abcde", "\u{1f600}\u{e9}!"] {
        let mut emitter = ModuleEmitter { words: vec![] };
        let inst = plain(10, encode_literal_string(text));
        assert_eq!(emitter.push_inst(&inst), Ok(()));
        let bytes = emitter.to_bytes();
        let read = &bytes[4..];
        assert_eq!(&read[..text.len()], text.as_bytes());
        assert_eq!(read.len(), (text.len() / 4 + 1) * 4);
        assert!(read[text.len()..].iter().all(|&b| b == 0));
    }
}

#[test]
fn emitter_starts_with_the_header() {
    let emitter = ModuleEmitter::with_header([1, 2, 3, 4, 5]);
    assert_eq!(emitter.words, vec![1, 2, 3, 4, 5]);
}

#[test]
fn inst_has_type_result_and_operands() {
    let mut emitter = ModuleEmitter { words: vec![77] };
    let inst = Inst {
        opcode: 12,
        result_type_id: Some(3),
        result_id: Some(7),
        operands: vec![
            Operand::Id(OperandKind::IdRef, 1),
            Operand::Imm(Imm::Short(OperandKind::Other(4), 31)),
            Operand::Imm(Imm::LongStart(STRING, 32)),
            Operand::Imm(Imm::LongCont(STRING, 33)),
        ],
    };
    assert_eq!(emitter.push_inst(&inst), Ok(()));
    assert_eq!(emitter.words, vec![77, 0x0007_000c, 3, 7, 1, 31, 32, 33]);
}

#[test]
fn inst_of_one_word() {
    let mut emitter = ModuleEmitter { words: vec![] };
    assert_eq!(emitter.push_inst(&plain(0xffff, vec![])), Ok(()));
    assert_eq!(emitter.words, vec![0x0001_ffff]);
}

#[test]
fn longest_inst_fits() {
    let mut emitter = ModuleEmitter { words: vec![] };
    assert_eq!(emitter.push_inst(&with_operands(0xfffe)), Ok(()));
    assert_eq!(emitter.words.len(), 0xffff);
    assert_eq!(emitter.words[0], 0xffff_0001);
}

#[test]
fn longer_inst_does_not_fit() {
    let mut emitter = ModuleEmitter { words: vec![5] };
    assert_eq!(
        emitter.push_inst(&with_operands(0xffff)),
        Err(LiftError::InstTooLong)
    );
    let mut inst = with_operands(0xfffe);
    inst.result_id = Some(1);
    assert_eq!(emitter.push_inst(&inst), Err(LiftError::InstTooLong));
    assert_eq!(emitter.words, vec![5]);
}

#[test]
fn words_are_little_endian() {
    let emitter = ModuleEmitter {
        words: vec![0x07230203, 0xff],
    };
    assert_eq!(emitter.to_bytes(), vec![3, 2, 0x23, 7, 0xff, 0, 0, 0]);
}

#[test]
fn words_read_back_from_bytes() {
    let words = vec![0, 1, 0xffff_ffff, 0x1234_5678];
    let emitter = ModuleEmitter {
        words: words.clone(),
    };
    let read: Vec<u32> = emitter
        .to_bytes()
        .chunks(4)
        .map(|b| u32::from_le_bytes([b[0], b[1], b[2], b[3]]))
        .collect();
    assert_eq!(read, words);
}

#[test]
fn error_messages() {
    assert_eq!(LiftError::NotSpv.message(), "not a SPIR-V module");
    assert_eq!(
        LiftError::IdBoundTooLarge.message(),
        "ID bound of SPIR-V module doesn't fit in 32 bits"
    );
    assert_eq!(
        LiftError::InstTooLong.message(),
        "word count of SPIR-V instruction doesn't fit in 16 bits"
    );
    assert_ne!(Stop::Error(LiftError::NotSpv), Stop::Unresolved);
}

#[test]
fn id_bound_counts_up() {
    let mut source = IdBound { bound: 1 };
    assert_eq!(source.alloc_id(), Ok(1));
    assert_eq!(source.alloc_id(), Ok(2));
    assert_eq!(source.bound, 3);
}

#[test]
fn id_bound_fits_in_a_word() {
    let mut source = IdBound {
        bound: u32::MAX - 1,
    };
    assert_eq!(source.alloc_id(), Ok(u32::MAX - 1));
    assert_eq!(source.bound, u32::MAX);
    assert_eq!(source.alloc_id(), Err(LiftError::IdBoundTooLarge));
    assert_eq!(source.bound, u32::MAX);
}

#[test]
fn collector_visits_one_thing_at_a_time() {
    let cx = context();
    let mut collector = NeedsIdsCollector::new(&cx);
    collector.visit_misc_output(MiscOutput::SpvResult {
        result_type_id: Some(99),
        result_id: 7,
    });
    collector.visit_misc_input(MiscInput::SpvUntrackedId(98));
    collector.visit_misc_input(MiscInput::SpvImm(Imm::Short(OperandKind::Other(0), 97)));
    collector.visit_misc_input(MiscInput::SpvExtInstImport(4));
    collector.visit_attr(&Attr::SpvEntryPoint {
        params: vec![],
        interface_ids: vec![96],
    });
    collector.visit_attr(&Attr::SpvDebugLine {
        file_path: 5,
        line: 95,
        col: 94,
    });
    collector.visit_attr_set_use(1);
    assert_eq!(collected(&collector.ext_inst_imports), vec![4]);
    assert_eq!(collected(&collector.debug_strings), vec![5, 6, 8]);
    assert_eq!(collected(&collector.old_outputs), vec![7]);
}

#[test]
fn collector_visits_an_instruction() {
    let cx = context();
    let mut collector = NeedsIdsCollector::new(&cx);
    collector.visit_misc(&Misc {
        kind: MiscKind::SpvInst { opcode: 12 },
        output: Some(MiscOutput::SpvResult {
            result_type_id: Some(2),
            result_id: 3,
        }),
        inputs: vec![
            MiscInput::SpvExtInstImport(9),
            MiscInput::SpvUntrackedId(5),
            MiscInput::SpvExtInstImport(1),
        ],
        attrs: 1,
    });
    assert_eq!(collected(&collector.ext_inst_imports), vec![1, 9]);
    assert_eq!(collected(&collector.debug_strings), vec![6, 8]);
    assert_eq!(collected(&collector.old_outputs), vec![3]);
}

#[test]
fn collector_visits_sources() {
    let cx = context();
    let mut collector = NeedsIdsCollector::new(&cx);
    let lang = DebugSourceLang {
        lang: 2,
        version: 450,
    };
    let mut info = debug_info(vec![], vec![]);
    info.source_languages = vec![
        (
            lang,
            DebugSources {
                file_contents: vec![(9, String::new()), (3, String::new())],
            },
        ),
        (
            lang,
            DebugSources {
                file_contents: vec![(9, String::new()), (4, String::new())],
            },
        ),
    ];
    collector.visit_spv_module_debug_info(&info);
    assert_eq!(collected(&collector.debug_strings), vec![3, 4, 9]);
    assert!(collector.ext_inst_imports.is_empty() && collector.old_outputs.is_empty());
}

fn small_collector(cx: &Context) -> NeedsIdsCollector<'_> {
    let mut collector = NeedsIdsCollector::new(cx);
    for name in [30, 10] {
        collector.ext_inst_imports.insert(name);
    }
    for s in [7, 8, 6] {
        collector.debug_strings.insert(s);
    }
    for id in [500, 40] {
        collector.old_outputs.insert(id);
    }
    collector
}

#[test]
fn ids_follow_the_order_of_what_gets_them() {
    let cx = context();
    let mut source = IdBound { bound: 1 };
    let ids: AllocatedIds = match small_collector(&cx).alloc_ids(&mut source) {
        Ok(ids) => ids,
        Err(e) => panic!("{}", e.message()),
    };
    assert_eq!(ids.ext_inst_imports, BTreeMap::from([(10, 1), (30, 2)]));
    assert_eq!(ids.debug_strings, BTreeMap::from([(6, 3), (7, 4), (8, 5)]));
    assert_eq!(ids.old_outputs, BTreeMap::from([(40, 6), (500, 7)]));
    assert_eq!(source.bound, 8);
}

#[test]
fn ids_are_dense() {
    let cx = context();
    let mut source = IdBound { bound: 1 };
    let ids = match small_collector(&cx).alloc_ids(&mut source) {
        Ok(ids) => ids,
        Err(e) => panic!("{}", e.message()),
    };
    let mut all: Vec<u32> = ids.ext_inst_imports.values().copied().collect();
    all.extend(ids.debug_strings.values());
    all.extend(ids.old_outputs.values());
    all.sort();
    assert_eq!(all, (1..source.bound).collect::<Vec<u32>>());
}

#[test]
fn ids_run_out() {
    let cx = context();
    let mut source = IdBound {
        bound: u32::MAX - 6,
    };
    match small_collector(&cx).alloc_ids(&mut source) {
        Ok(_) => panic!("there is one ID too few"),
        Err(e) => assert_eq!(e, LiftError::IdBoundTooLarge),
    }
    assert_eq!(source.bound, u32::MAX);
}

#[test]
fn ids_just_suffice() {
    let cx = context();
    let mut source = IdBound {
        bound: u32::MAX - 7,
    };
    match small_collector(&cx).alloc_ids(&mut source) {
        Ok(ids) => assert_eq!(ids.old_outputs[&500], u32::MAX - 1),
        Err(e) => panic!("{}", e.message()),
    }
    assert_eq!(source.bound, u32::MAX);
}

#[test]
fn dense_ids_stay() {
    let cx = context();
    let mut collector = NeedsIdsCollector::new(&cx);
    collector.ext_inst_imports.insert(0);
    collector.debug_strings.insert(0);
    for id in [5, 4, 3] {
        collector.old_outputs.insert(id);
    }
    match collector.alloc_ids(&mut IdBound { bound: 1 }) {
        Ok(ids) => assert_eq!(ids.old_outputs, BTreeMap::from([(3, 3), (4, 4), (5, 5)])),
        Err(e) => panic!("{}", e.message()),
    }
}
