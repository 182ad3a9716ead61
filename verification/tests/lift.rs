//! Tests of whole modules.
use spirt::spv::grammar::OperandKind;
use spirt::spv::literal::encode_literal_string;
use spirt::spv::write::{LiftError, Stop};
use spirt::spv::{DebugSourceLang, DebugSources, Dialect, Imm, Operand};
use spirt::{
    Attr, AttrSetDef, Context, Func, Global, Misc, MiscInput, MiscKind, MiscOutput, Module,
    ModuleDebugInfo, ModuleDialect,
};
use std::rc::Rc;

const HEADER_LEN: usize = 5;
const MEMORY_MODEL: [u32; 3] = [0x0003_000e, 0, 1];

fn short(word: u32) -> Imm {
    Imm::Short(OperandKind::LiteralInteger, word)
}

fn imms(s: &str) -> Vec<Imm> {
    encode_literal_string(s)
        .into_iter()
        .map(|operand| match operand {
            Operand::Imm(imm) => imm,
            Operand::Id(..) => unreachable!(),
        })
        .collect()
}

fn output(result_type_id: Option<u32>, result_id: u32) -> Option<MiscOutput> {
    Some(MiscOutput::SpvResult {
        result_type_id,
        result_id,
    })
}

fn misc(opcode: u16, output: Option<MiscOutput>, inputs: Vec<MiscInput>, attrs: u32) -> Misc {
    Misc {
        kind: MiscKind::SpvInst { opcode },
        output,
        inputs,
        attrs,
    }
}

fn line(file_path: u32, line: u32, col: u32) -> Attr {
    Attr::SpvDebugLine {
        file_path,
        line,
        col,
    }
}

fn annotation(opcode: u16, params: Vec<Imm>) -> Attr {
    Attr::SpvAnnotation { opcode, params }
}

fn dialect() -> Dialect {
    Dialect {
        version_major: 1,
        version_minor: 5,
        capabilities: vec![],
        extensions: vec![],
        addressing_model: 0,
        memory_model: 1,
    }
}

fn debug_info() -> spirt::spv::ModuleDebugInfo {
    spirt::spv::ModuleDebugInfo {
        original_generator_magic: None,
        source_languages: vec![],
        source_extensions: vec![],
        module_processes: vec![],
    }
}

/// A module with the given tables and function instructions.
fn module(strings: Vec<&str>, attr_sets: Vec<Vec<Attr>>, insts: Vec<Misc>) -> Module {
    Module {
        cx: Rc::new(Context {
            strings: strings.into_iter().map(|s| s.to_string()).collect(),
            attr_sets: attr_sets
                .into_iter()
                .map(|attrs| AttrSetDef { attrs })
                .collect(),
        }),
        dialect: ModuleDialect::Spv(dialect()),
        debug_info: ModuleDebugInfo::Spv(debug_info()),
        globals: vec![],
        funcs: vec![Func { insts }],
    }
}

fn with_dialect(mut module: Module, dialect: Dialect) -> Module {
    module.dialect = ModuleDialect::Spv(dialect);
    module
}

fn with_debug_info(mut module: Module, info: spirt::spv::ModuleDebugInfo) -> Module {
    module.debug_info = ModuleDebugInfo::Spv(info);
    module
}

fn words(module: &Module) -> Vec<u32> {
    assert!(module.is_liftable());
    match module.lift_to_spv_module_emitter() {
        Ok(emitter) => emitter.words,
        Err(e) => panic!("{}", e.message()),
    }
}

/// The words after the header and the memory model.
fn rest(module: &Module) -> Vec<u32> {
    let words = words(module);
    let start = HEADER_LEN + MEMORY_MODEL.len();
    assert_eq!(words[HEADER_LEN..start], MEMORY_MODEL);
    words[start..].to_vec()
}

/// Divides the words after the header into instructions.
fn insts(words: &[u32]) -> Vec<Vec<u32>> {
    let mut insts = vec![];
    let mut words = &words[HEADER_LEN..];
    while !words.is_empty() {
        let (inst, rest) = words.split_at((words[0] >> 16) as usize);
        insts.push(inst.to_vec());
        words = rest;
    }
    insts
}

fn opcode(inst: &[u32]) -> u32 {
    inst[0] & 0xffff
}

fn stop(module: &Module) -> Stop {
    match module.try_lift() {
        Ok(_) => panic!("lifting was not stopped"),
        Err(stop) => stop,
    }
}

/// A module that has something in every section. The IDs in it are multiplied by `scale`.
fn full_module(scale: u32) -> Module {
    let id = |id: u32| id * scale;
    let mut entry_params = vec![short(4)];
    entry_params.extend(imms("main"));
    let mut module = module(
        vec!["GLSL.std.450", "main", "a.glsl"],
        vec![
            vec![],
            vec![
                annotation(5, imms("main")),
                Attr::SpvEntryPoint {
                    params: entry_params,
                    interface_ids: vec![id(20)],
                },
                annotation(16, vec![short(7)]),
            ],
            vec![line(2, 3, 4)],
            vec![annotation(71, vec![short(2)])],
        ],
        vec![
            misc(
                54,
                output(Some(id(10)), id(30)),
                vec![
                    MiscInput::SpvImm(short(0)),
                    MiscInput::SpvUntrackedId(id(20)),
                ],
                1,
            ),
            misc(248, output(None, id(40)), vec![], 0),
            misc(
                12,
                output(Some(id(10)), id(50)),
                vec![
                    MiscInput::SpvExtInstImport(0),
                    MiscInput::SpvImm(short(1)),
                ],
                2,
            ),
            misc(253, None, vec![], 2),
            misc(56, None, vec![], 0),
        ],
    );
    module.globals = vec![
        Global::Misc(misc(19, output(None, id(10)), vec![], 3)),
        Global::Misc(misc(
            33,
            output(None, id(20)),
            vec![MiscInput::SpvUntrackedId(id(10))],
            0,
        )),
    ];
    let mut d = dialect();
    d.capabilities = vec![1];
    d.extensions = vec!["SPV_X".to_string()];
    let mut info = debug_info();
    info.original_generator_magic = Some(0x0008_0001);
    info.source_languages = vec![
        (
            DebugSourceLang {
                lang: 2,
                version: 450,
            },
            DebugSources {
                file_contents: vec![],
            },
        ),
        (
            DebugSourceLang {
                lang: 1,
                version: 100,
            },
            DebugSources {
                file_contents: vec![(2, "x".to_string())],
            },
        ),
    ];
    info.source_extensions = vec!["E".to_string()];
    info.module_processes = vec!["p".to_string()];
    with_debug_info(with_dialect(module, d), info)
}

const FULL_WORDS: [u32; 74] = [
    // Header.
    0x0723_0203, 0x0001_0500, 0x0008_0001, 8, 0,
    // OpCapability, OpExtension, OpExtInstImport, OpMemoryModel.
    0x0002_0011, 1,
    0x0003_000a, 0x5f56_5053, 0x58,
    0x0006_000b, 1, 0x4c53_4c47, 0x6474_732e, 0x3035_342e, 0,
    0x0003_000e, 0, 1,
    // OpEntryPoint, OpExecutionMode.
    0x0006_000f, 4, 5, 0x6e69_616d, 0, 4,
    0x0003_0010, 5, 7,
    // OpString, OpSource, OpSource, OpSourceExtension, OpName, OpModuleProcessed.
    0x0004_0007, 2, 0x6c67_2e61, 0x6c73,
    0x0003_0003, 2, 450,
    0x0005_0003, 1, 100, 2, 0x78,
    0x0002_0004, 0x45,
    0x0004_0005, 5, 0x6e69_616d, 0,
    0x0002_014a, 0x70,
    // OpDecorate.
    0x0003_0047, 3, 2,
    // OpTypeVoid, OpTypeFunction.
    0x0002_0013, 3,
    0x0003_0021, 4, 3,
    // OpFunction, OpLabel, OpLine, OpExtInst, OpReturn, OpFunctionEnd.
    0x0005_0036, 3, 5, 0, 4,
    0x0002_00f8, 6,
    0x0004_0008, 2, 3, 4,
    0x0005_000c, 3, 7, 1, 1,
    0x0001_00fd,
    0x0001_0038,
];

#[test]
fn full_module_words() {
    assert_eq!(words(&full_module(1)), FULL_WORDS);
}

#[test]
fn file_holds_the_words() {
    let module = full_module(1);
    assert!(module.is_liftable());
    let bytes = match module.lift_to_spv_file() {
        Ok(bytes) => bytes,
        Err(e) => panic!("{}", e.message()),
    };
    let expected: Vec<u8> = words(&module).iter().flat_map(|w| w.to_le_bytes()).collect();
    assert_eq!(bytes, expected);
}

#[test]
fn order_of_ids_decides() {
    assert_eq!(words(&full_module(1)), words(&full_module(3)));
    assert_eq!(words(&full_module(1)), words(&full_module(0x0100_0000 / 50)));
}

#[test]
fn every_id_below_the_bound_is_defined_once() {
    let words = words(&full_module(7));
    let mut defined = vec![];
    for inst in insts(&words) {
        match opcode(&inst) {
            // OpString, OpExtInstImport, OpTypeVoid, OpTypeFunction, OpLabel
            7 | 11 | 19 | 33 | 248 => defined.push(inst[1]),
            // OpExtInst, OpFunction
            12 | 54 => defined.push(inst[2]),
            _ => {}
        }
    }
    assert_eq!(defined, vec![1, 2, 3, 4, 5, 6, 7]);
    assert_eq!(words[3], 8);
}

#[test]
fn insts_read_back() {
    let opcodes: Vec<u32> = insts(&words(&full_module(1)))
        .iter()
        .map(|inst| opcode(inst))
        .collect();
    assert_eq!(
        opcodes,
        vec![
            17, 10, 11, 14, 15, 16, 7, 3, 3, 4, 5, 330, 71, 19, 33, 54, 248, 8, 12, 253, 56
        ]
    );
}

#[test]
fn empty_module() {
    let module = module(vec![], vec![], vec![]);
    assert_eq!(
        words(&module),
        vec![0x0723_0203, 0x0001_0500, 0, 1, 0, 0x0003_000e, 0, 1]
    );
}

#[test]
fn version_goes_into_the_middle_bytes() {
    let mut d = dialect();
    d.version_major = 0xff;
    d.version_minor = 0xfe;
    d.addressing_model = 2;
    d.memory_model = 3;
    let module = with_dialect(module(vec![], vec![], vec![]), d);
    assert_eq!(words(&module)[1], 0x00ff_fe00);
    assert_eq!(words(&module)[5..], [0x0003_000e, 2, 3]);
}

#[test]
fn not_a_spv_module() {
    let mut a = module(vec![], vec![], vec![]);
    a.dialect = ModuleDialect::Unspecified;
    assert_eq!(stop(&a), Stop::Error(LiftError::NotSpv));
    let mut b = module(vec![], vec![], vec![]);
    b.debug_info = ModuleDebugInfo::Unspecified;
    assert!(b.is_liftable());
    assert_eq!(b.lift_to_spv_module_emitter(), Err(LiftError::NotSpv));
    assert_eq!(b.lift_to_spv_file(), Err(LiftError::NotSpv));
}

#[test]
fn not_a_spv_module_comes_before_missing_attributes() {
    let mut a = module(vec![], vec![], vec![misc(1, None, vec![], 9)]);
    a.dialect = ModuleDialect::Unspecified;
    assert_eq!(stop(&a), Stop::Error(LiftError::NotSpv));
}

fn with_extension_of(len: usize) -> Module {
    let mut d = dialect();
    d.extensions = vec!["x".repeat(len)];
    with_dialect(module(vec![], vec![], vec![]), d)
}

#[test]
fn longest_extension() {
    let words = words(&with_extension_of(262_135));
    assert_eq!(words[5], 0xffff_000a);
    assert_eq!(words[5 + 0xfffe], 0x0078_7878);
    assert_eq!(words[5 + 0xffff..], MEMORY_MODEL);
}

#[test]
fn extension_that_is_too_long() {
    let module = with_extension_of(262_136);
    assert_eq!(stop(&module), Stop::Error(LiftError::InstTooLong));
    assert!(module.is_liftable());
    assert_eq!(module.lift_to_spv_file(), Err(LiftError::InstTooLong));
}

#[test]
fn first_thing_that_is_wrong_decides() {
    // The extension comes before the label without a result, which comes before the body.
    let label = || misc(248, None, vec![], 0);
    let mut d = dialect();
    d.extensions = vec!["x".repeat(262_136)];
    let early = with_dialect(module(vec![], vec![vec![]], vec![label()]), d);
    assert_eq!(stop(&early), Stop::Error(LiftError::InstTooLong));
    assert!(early.is_liftable());

    let long = misc(1, None, vec![MiscInput::SpvImm(short(0)); 0xffff], 0);
    let late = module(vec![], vec![vec![]], vec![label(), long]);
    assert_eq!(stop(&late), Stop::Unresolved);

    let long = misc(1, None, vec![MiscInput::SpvImm(short(0)); 0xffff], 0);
    let early = module(vec![], vec![vec![]], vec![long, label()]);
    assert_eq!(stop(&early), Stop::Error(LiftError::InstTooLong));
}

#[test]
fn missing_attributes() {
    let module = module(vec![], vec![vec![]], vec![misc(1, None, vec![], 1)]);
    assert_eq!(stop(&module), Stop::Unresolved);
    assert!(!module.is_liftable());
}

#[test]
fn missing_string() {
    let import = vec![MiscInput::SpvExtInstImport(1)];
    let module = module(
        vec!["only"],
        vec![vec![]],
        vec![misc(12, output(None, 5), import, 0)],
    );
    assert_eq!(stop(&module), Stop::Unresolved);
}

#[test]
fn missing_file_path() {
    let module = module(
        vec![],
        vec![vec![line(0, 1, 1)]],
        vec![misc(1, None, vec![], 0)],
    );
    assert_eq!(stop(&module), Stop::Unresolved);
}

#[test]
fn missing_definitions() {
    let undefined_input = vec![MiscInput::SpvUntrackedId(5)];
    let a = module(vec![], vec![vec![]], vec![misc(1, None, undefined_input, 0)]);
    assert_eq!(stop(&a), Stop::Unresolved);
    let b = module(
        vec![],
        vec![vec![]],
        vec![misc(1, output(Some(5), 6), vec![], 0)],
    );
    assert_eq!(stop(&b), Stop::Unresolved);
}

#[test]
fn attribute_without_an_output() {
    let with = |attr, out| module(vec![], vec![vec![attr]], vec![misc(1, out, vec![], 0)]);
    assert_eq!(stop(&with(annotation(5, vec![]), None)), Stop::Unresolved);
    assert!(with(annotation(5, vec![]), output(None, 1)).is_liftable());
}

#[test]
fn entry_points_need_a_model_and_an_interface() {
    let entry_point = |params, interface_ids| {
        module(
            vec![],
            vec![vec![Attr::SpvEntryPoint {
                params,
                interface_ids,
            }]],
            vec![misc(1, output(None, 9), vec![], 0)],
        )
    };
    assert_eq!(stop(&entry_point(vec![], vec![])), Stop::Unresolved);
    assert_eq!(stop(&entry_point(vec![short(0)], vec![8])), Stop::Unresolved);
    assert_eq!(
        rest(&entry_point(vec![short(6)], vec![9, 9])),
        vec![0x0005_000f, 6, 1, 1, 1, 0x0002_0001, 1]
    );
}

#[test]
fn attributes_go_to_their_sections() {
    let module = module(
        vec![],
        vec![
            vec![
                annotation(71, vec![short(1)]),
                annotation(6, vec![short(2)]),
                annotation(331, vec![short(3)]),
                annotation(5, vec![short(4)]),
                annotation(16, vec![short(5)]),
                Attr::SpvEntryPoint {
                    params: vec![short(6)],
                    interface_ids: vec![],
                },
            ],
            vec![
                annotation(72, vec![]),
                annotation(5, vec![short(7)]),
                annotation(16, vec![]),
            ],
        ],
        vec![
            misc(100, output(None, 2), vec![], 0),
            misc(101, output(None, 1), vec![], 1),
        ],
    );
    assert_eq!(
        rest(&module),
        vec![
            0x0003_000f, 6, 2, // entry point
            0x0003_014b, 2, 3, 0x0003_0010, 2, 5, 0x0002_0010, 1, // execution modes
            0x0003_0006, 2, 2, 0x0003_0005, 2, 4, 0x0003_0005, 1, 7, // names
            0x0003_0047, 2, 1, 0x0002_0048, 1, // decorations
            0x0002_0064, 2, 0x0002_0065, 1, // body
        ]
    );
}

/// The body of a module whose instructions have the given opcodes and lines. Lines are
/// numbers in one file, where 0 stands for no line.
fn body_with_lines(insts: &[(u16, Option<u32>, u32)]) -> Vec<u32> {
    let attr_sets = (0..4)
        .map(|n| if n == 0 { vec![] } else { vec![line(0, n, 0)] })
        .collect();
    let miscs = insts
        .iter()
        .map(|&(opcode, id, n)| misc(opcode, id.and_then(|id| output(None, id)), vec![], n))
        .collect();
    let rest = rest(&module(vec!["f"], attr_sets, miscs));
    let string = [0x0003_0007, 1, 0x66];
    if rest.starts_with(&string) {
        rest[string.len()..].to_vec()
    } else {
        rest
    }
}

#[test]
fn line_is_given_once() {
    assert_eq!(
        body_with_lines(&[(1, None, 2), (1, None, 2), (1, None, 3)]),
        vec![
            0x0004_0008, 1, 2, 0, 0x0001_0001, 0x0001_0001, // first line
            0x0004_0008, 1, 3, 0, 0x0001_0001, // second line
        ]
    );
}

#[test]
fn line_is_ended() {
    assert_eq!(
        body_with_lines(&[(1, None, 0), (1, None, 1), (1, None, 0), (1, None, 0)]),
        vec![
            0x0001_0001, 0x0004_0008, 1, 1, 0, 0x0001_0001, // the line
            0x0001_013d, 0x0001_0001, 0x0001_0001, // no line
        ]
    );
}

#[test]
fn line_is_given_again_in_another_block() {
    assert_eq!(
        body_with_lines(&[(248, Some(5), 1), (1, None, 1), (248, Some(6), 1)]),
        vec![
            0x0004_0008, 1, 1, 0, 0x0002_00f8, 2, 0x0001_0001, // first block
            0x0004_0008, 1, 1, 0, 0x0002_00f8, 3, // second block
        ]
    );
}

#[test]
fn line_does_not_have_to_be_ended_at_the_end_of_a_block() {
    assert_eq!(
        body_with_lines(&[
            (248, Some(5), 1),
            (248, Some(6), 0),
            (1, None, 1),
            (56, None, 0),
            (1, None, 0),
        ]),
        vec![
            0x0004_0008, 1, 1, 0, 0x0002_00f8, 2, // first block
            0x0002_00f8, 3, 0x0004_0008, 1, 1, 0, 0x0001_0001, // second block
            0x0001_0038, 0x0001_0001, // after the function
        ]
    );
}

#[test]
fn line_stays_outside_of_blocks() {
    // No block is left where none has been entered.
    assert_eq!(
        body_with_lines(&[(1, None, 1), (56, None, 1), (1, None, 0)]),
        vec![
            0x0004_0008, 1, 1, 0, 0x0001_0001, 0x0001_0038, // the line
            0x0001_013d, 0x0001_0001, // no line
        ]
    );
}

#[test]
fn line_instructions_of_the_module_are_kept() {
    assert_eq!(
        body_with_lines(&[(317, None, 1), (8, None, 1), (1, None, 0)]),
        vec![
            0x0004_0008, 1, 1, 0, 0x0001_013d, 0x0001_0008, // the line, and two of its own
            0x0001_013d, 0x0001_0001, // no line
        ]
    );
}

#[test]
fn lines_read_back() {
    let given = [1, 0, 0, 2, 2, 1, 0, 3, 3];
    let mut miscs = vec![];
    for (i, &n) in given.iter().enumerate() {
        miscs.push(if i % 4 == 0 {
            (248, Some(10 + i as u32), n)
        } else {
            (1, None, n)
        });
    }
    let mut words = vec![0; HEADER_LEN];
    words.extend(body_with_lines(&miscs));
    let mut read = vec![];
    let mut current = 0;
    let mut upcoming = None;
    for inst in insts(&words) {
        match opcode(&inst) {
            8 => upcoming = Some(inst[2]),
            317 => upcoming = Some(0),
            op => {
                if op == 248 {
                    current = 0;
                }
                current = upcoming.take().unwrap_or(current);
                read.push(current);
            }
        }
    }
    assert_eq!(read, given);
}

#[test]
fn first_line_of_an_instruction_counts() {
    let module = module(
        vec!["f", "g"],
        vec![vec![line(1, 5, 6), line(0, 7, 8)]],
        vec![misc(1, None, vec![], 0)],
    );
    assert_eq!(
        rest(&module),
        vec![
            0x0003_0007, 1, 0x66, 0x0003_0007, 2, 0x67, // strings
            0x0004_0008, 2, 5, 6, 0x0001_0001, // body
        ]
    );
}

fn with_source(contents: String) -> Module {
    let mut info = debug_info();
    info.source_languages = vec![(
        DebugSourceLang {
            lang: 1,
            version: 2,
        },
        DebugSources {
            file_contents: vec![(0, contents)],
        },
    )];
    with_debug_info(module(vec!["f"], vec![], vec![]), info)
}

/// The source code in a module, and the lengths of the instructions that hold it.
fn source(module: &Module) -> (Vec<u8>, Vec<usize>) {
    let mut bytes = vec![];
    let mut lens = vec![];
    for inst in insts(&words(module)) {
        let start = match opcode(&inst) {
            2 => 1,
            3 => {
                assert_eq!(inst[1..4], [1, 2, 1]);
                4
            }
            _ => continue,
        };
        lens.push(inst.len());
        let chunk: Vec<u8> = inst[start..].iter().flat_map(|w| w.to_le_bytes()).collect();
        bytes.extend(chunk.iter().copied().take_while(|&b| b != 0));
    }
    (bytes, lens)
}

#[test]
fn source_in_one_instruction() {
    for len in [0, 1, 4, 262_123] {
        let contents = "s".repeat(len);
        let (bytes, lens) = source(&with_source(contents.clone()));
        assert_eq!(bytes, contents.as_bytes());
        assert_eq!(lens, vec![4 + len / 4 + 1]);
    }
}

#[test]
fn source_in_several_instructions() {
    let contents: String = ('a'..='z').cycle().take(262_124).collect();
    let (bytes, lens) = source(&with_source(contents.clone()));
    assert_eq!(bytes, contents.as_bytes());
    assert_eq!(lens, vec![0xffff, 2]);

    let contents: String = ('a'..='z').cycle().take(262_123 + 262_135).collect();
    let (bytes, lens) = source(&with_source(contents.clone()));
    assert_eq!(bytes, contents.as_bytes());
    assert_eq!(lens, vec![0xffff, 0xffff]);

    let contents: String = ('a'..='z').cycle().take(262_123 + 262_135 + 4).collect();
    let (bytes, lens) = source(&with_source(contents.clone()));
    assert_eq!(bytes, contents.as_bytes());
    assert_eq!(lens, vec![0xffff, 0xffff, 3]);
}

#[test]
fn source_that_would_be_cut_inside_a_character() {
    let cut = |before: usize| {
        let mut contents = "s".repeat(before);
        contents.push('\u{e9}');
        with_source(contents)
    };
    assert_eq!(stop(&cut(262_122)), Stop::Unresolved);
    assert!(cut(262_121).is_liftable());
    assert!(cut(262_123).is_liftable());
    assert_eq!(stop(&cut(262_123 + 262_134)), Stop::Unresolved);
    assert!(cut(262_123 + 262_133).is_liftable());
}

#[test]
fn strings_come_in_the_order_of_their_positions() {
    let mut info = debug_info();
    info.source_languages = vec![(
        DebugSourceLang {
            lang: 0,
            version: 0,
        },
        DebugSources {
            file_contents: vec![(2, "".to_string()), (0, "".to_string())],
        },
    )];
    let module = with_debug_info(
        module(
            vec!["a", "b", "c"],
            vec![vec![line(1, 1, 1)]],
            vec![misc(1, None, vec![], 0)],
        ),
        info,
    );
    assert_eq!(
        rest(&module),
        vec![
            0x0003_0007, 1, 0x61, 0x0003_0007, 2, 0x62, 0x0003_0007, 3, 0x63, // strings
            0x0005_0003, 0, 0, 3, 0, 0x0005_0003, 0, 0, 1, 0, // sources
            0x0004_0008, 2, 1, 1, 0x0001_0001, // body
        ]
    );
}

#[test]
fn functions_come_after_globals_in_their_order() {
    let mut module = module(vec![], vec![vec![]], vec![misc(2, None, vec![], 0)]);
    module.funcs.push(Func { insts: vec![] });
    module.funcs.push(Func {
        insts: vec![misc(3, None, vec![], 0), misc(4, None, vec![], 0)],
    });
    module.globals = vec![Global::Misc(misc(1, None, vec![], 0))];
    assert_eq!(
        rest(&module),
        vec![0x0001_0001, 0x0001_0002, 0x0001_0003, 0x0001_0004]
    );
}

#[test]
fn forward_references_are_resolved() {
    let module = module(
        vec![],
        vec![vec![]],
        vec![
            misc(1, output(None, 9), vec![MiscInput::SpvUntrackedId(3)], 0),
            misc(2, output(Some(9), 3), vec![], 0),
        ],
    );
    assert_eq!(
        rest(&module),
        vec![0x0003_0001, 2, 1, 0x0003_0002, 2, 1]
    );
}
