use std::collections::HashMap;

use bbscript::config::{
    ArgType, CodeBlock, InstructionInfo, NamedValueMap, ScriptConfig, SizedInstruction,
    TaggedValue, UnsizedInstruction,
};
use bbscript::endian::Endian;
use bbscript::error::BBScriptError;
use bbscript::parser::{ArgValue, InstructionIdentifier};
use bbscript::rebuilder::{assemble_script, BBSFunction, ParserValue};
use bbscript::script::{parse_script, rebuild_bbscript};
use bimap::BiHashMap;

fn sized(entries: Vec<(u32, SizedInstruction)>) -> InstructionInfo {
    let mut map = HashMap::new();
    for (id, i) in entries {
        map.insert(id, i);
    }
    InstructionInfo::Sized(map)
}

fn instr(size: usize, name: &str, block: CodeBlock, args: Vec<ArgType>) -> SizedInstruction {
    SizedInstruction::new(size, name.to_string(), block, args, String::new())
}

fn catalog(jump_ids: Vec<u32>, instructions: InstructionInfo) -> ScriptConfig {
    ScriptConfig::new(jump_ids, 0, 2, BiHashMap::new(), Vec::new(), instructions).unwrap()
}

fn color_catalog() -> ScriptConfig {
    let mut colors = BiHashMap::new();
    colors.insert(1, "Red".to_string());
    colors.insert(2, "Blue".to_string());
    let maps = vec![NamedValueMap { name: "Color".to_string(), values: colors }];
    let instructions = sized(vec![(
        0x20,
        instr(8, "Foo", CodeBlock::NoBlock, vec![ArgType::Enum("Color".to_string())]),
    )]);
    ScriptConfig::new(Vec::new(), 0, 2, BiHashMap::new(), maps, instructions).unwrap()
}

#[test]
fn number_record_decodes_renders_and_rebuilds() {
    let cfg = catalog(vec![], sized(vec![(1, instr(8, "", CodeBlock::NoBlock, vec![ArgType::Number]))]));
    let input = [0x01, 0, 0, 0, 0x2A, 0, 0, 0];
    let program = cfg.parse(Endian::Little, &input).unwrap();
    assert_eq!(program.len(), 1);
    assert!(matches!(program[0].identifier, InstructionIdentifier::Id(1)));
    assert_eq!(program[0].args.len(), 1);
    assert!(matches!(program[0].args.get(0), ArgValue::Number(42)));
    let text = cfg.parse_to_string(Endian::Little, &input, 12).unwrap();
    assert_eq!(text, "Unknown1: 42\n");
    let bytes = rebuild_bbscript(&cfg, &text, Endian::Little).unwrap();
    assert_eq!(bytes, input.to_vec());
}

#[test]
fn begin_and_end_blocks_render_with_blank_line() {
    let cfg = catalog(
        vec![],
        sized(vec![
            (2, instr(4, "", CodeBlock::Begin, vec![])),
            (3, instr(4, "", CodeBlock::End, vec![])),
        ]),
    );
    let input = [0x02, 0, 0, 0, 0x03, 0, 0, 0];
    let text = cfg.parse_to_string(Endian::Little, &input, 12).unwrap();
    assert_eq!(text, "Unknown2: \nUnknown3: \n\n");
}

#[test]
fn nested_blocks_indent_up_to_the_limit() {
    let cfg = catalog(
        vec![],
        sized(vec![
            (2, instr(4, "Begin", CodeBlock::Begin, vec![])),
            (3, instr(4, "End", CodeBlock::End, vec![])),
            (4, instr(4, "Op", CodeBlock::NoBlock, vec![])),
        ]),
    );
    let input = [2, 0, 0, 0, 2, 0, 0, 0, 4, 0, 0, 0, 3, 0, 0, 0, 3, 0, 0, 0];
    let text = cfg.parse_to_string(Endian::Little, &input, 12).unwrap();
    assert_eq!(text, "Begin: \n  Begin: \n    Op: \n  End: \nEnd: \n\n");
    let limited = cfg.parse_to_string(Endian::Little, &input, 1).unwrap();
    assert_eq!(limited, "Begin: \n  Begin: \n  Op: \n  End: \nEnd: \n\n");
}

#[test]
fn jump_table_lists_entries_with_offsets() {
    let cfg = catalog(
        vec![0x10],
        sized(vec![(0x10, instr(36, "Entry", CodeBlock::Begin, vec![ArgType::String32]))]),
    );
    let text = "Entry: s32'EntryA'\nEntry: s32'EntryB'\n".to_string();
    let bytes = rebuild_bbscript(&cfg, &text, Endian::Little).unwrap();
    let mut expected = vec![2, 0, 0, 0];
    let mut name_a = b"EntryA".to_vec();
    name_a.resize(32, 0);
    let mut name_b = b"EntryB".to_vec();
    name_b.resize(32, 0);
    expected.extend_from_slice(&name_a);
    expected.extend_from_slice(&[0, 0, 0, 0]);
    expected.extend_from_slice(&name_b);
    expected.extend_from_slice(&[36, 0, 0, 0]);
    expected.extend_from_slice(&[0x10, 0, 0, 0]);
    expected.extend_from_slice(&name_a);
    expected.extend_from_slice(&[0x10, 0, 0, 0]);
    expected.extend_from_slice(&name_b);
    assert_eq!(bytes, expected);
    let back = cfg.parse_to_string(Endian::Little, &bytes, 12).unwrap();
    assert_eq!(back, "Entry: s32'EntryA'\n  Entry: s32'EntryB'\n");
}

#[test]
fn jump_table_keeps_catalog_order() {
    let cfg = catalog(
        vec![0x11, 0x10],
        sized(vec![
            (0x10, instr(36, "A", CodeBlock::NoBlock, vec![ArgType::String32])),
            (0x11, instr(36, "B", CodeBlock::NoBlock, vec![ArgType::String32])),
        ]),
    );
    let text = "A: s32'x'\nB: s32'y'\n".to_string();
    let bytes = rebuild_bbscript(&cfg, &text, Endian::Little).unwrap();
    assert_eq!(&bytes[0..8], &[1, 0, 0, 0, 1, 0, 0, 0]);
    assert_eq!(bytes[8], b'y');
    assert_eq!(&bytes[40..44], &[36, 0, 0, 0]);
    assert_eq!(bytes[44], b'x');
    assert_eq!(&bytes[76..80], &[0, 0, 0, 0]);
    assert_eq!(bytes.len(), 8 + 72 + 72);
}

#[test]
fn enum_variant_encodes_and_renders() {
    let cfg = color_catalog();
    let bytes = rebuild_bbscript(&cfg, &"Foo: (Blue)".to_string(), Endian::Little).unwrap();
    assert_eq!(bytes, vec![0x20, 0, 0, 0, 2, 0, 0, 0]);
    let text = cfg.parse_to_string(Endian::Little, &bytes, 12).unwrap();
    assert_eq!(text, "Foo: (Blue)\n");
    let unnamed = cfg.parse_to_string(Endian::Little, &[0x20, 0, 0, 0, 9, 0, 0, 0], 12).unwrap();
    assert_eq!(unnamed, "Foo: 9\n");
}

#[test]
fn unknown_variant_names_variant_and_enum() {
    let cfg = color_catalog();
    let r = rebuild_bbscript(&cfg, &"Foo: (Green)".to_string(), Endian::Little);
    match r {
        Err(BBScriptError::NoAssociatedValue(variant, name)) => {
            assert_eq!(variant, "Green");
            assert_eq!(name, "Color");
        }
        other => panic!("unexpected result {:?}", other),
    }
}

#[test]
fn dynamic_catalog_decodes_unknown_opcode() {
    let cfg = catalog(vec![], InstructionInfo::Unsized(HashMap::new()));
    let input = [99, 0, 0, 0, 16, 0, 0, 0, 1, 2, 3, 4, 5, 6, 7, 8];
    let program = cfg.parse(Endian::Little, &input).unwrap();
    assert_eq!(program.len(), 1);
    assert!(matches!(program[0].identifier, InstructionIdentifier::Id(99)));
    assert_eq!(program[0].args.len(), 1);
    match program[0].args.get(0) {
        ArgValue::Unknown(b) => assert_eq!(b.to_vec(), vec![1, 2, 3, 4, 5, 6, 7, 8]),
        other => panic!("unexpected argument {:?}", other),
    }
    let text = cfg.parse_to_string(Endian::Little, &input, 12).unwrap();
    assert_eq!(text, "Unknown99: 0x0102030405060708\n");
    let bytes = rebuild_bbscript(&cfg, &text, Endian::Little).unwrap();
    assert_eq!(bytes, input.to_vec());
}

#[test]
fn dynamic_catalog_arguments_larger_than_record_fail() {
    let mut map = HashMap::new();
    map.insert(
        5,
        UnsizedInstruction::with_schema("Op".to_string(), CodeBlock::NoBlock, vec![ArgType::String16], String::new()),
    );
    let cfg = catalog(vec![], InstructionInfo::Unsized(map));
    let input = [5, 0, 0, 0, 12, 0, 0, 0, 1, 2, 3, 4];
    assert!(matches!(cfg.parse(Endian::Little, &input), Err(BBScriptError::ArgumentsExceedSize(5, 16, 12))));
}

#[test]
fn jump_table_as_large_as_the_rest_fails() {
    let cfg = catalog(vec![1], sized(vec![(1, instr(4, "", CodeBlock::NoBlock, vec![]))]));
    let mut input = vec![1, 0, 0, 0];
    input.extend_from_slice(&[0u8; 36]);
    match cfg.parse(Endian::Little, &input) {
        Err(BBScriptError::IncorrectJumpTableSize(s)) => assert_eq!(s, "36"),
        other => panic!("unexpected result {:?}", other),
    }
    input.extend_from_slice(&[1, 0, 0, 0]);
    assert_eq!(cfg.parse(Endian::Little, &input).unwrap().len(), 1);
}

#[test]
fn empty_script_has_no_room_for_records() {
    let cfg = catalog(vec![], sized(vec![]));
    match cfg.parse(Endian::Little, &[]) {
        Err(BBScriptError::IncorrectJumpTableSize(s)) => assert_eq!(s, "0"),
        other => panic!("unexpected result {:?}", other),
    }
}

#[test]
fn size_mismatch_names_both_sizes() {
    let cfg = catalog(vec![], sized(vec![(1, instr(8, "", CodeBlock::NoBlock, vec![ArgType::Number]))]));
    match rebuild_bbscript(&cfg, &"Unknown1: 1, 2".to_string(), Endian::Little) {
        Err(BBScriptError::IncorrectFunctionSize(name, got, want)) => {
            assert_eq!(name, "Unknown1");
            assert_eq!(got, 12);
            assert_eq!(want, 8);
        }
        other => panic!("unexpected result {:?}", other),
    }
}

#[test]
fn accessed_values_classify_by_tag() {
    let mut vars = BiHashMap::new();
    vars.insert(7, "Health".to_string());
    let instructions = sized(vec![(1, instr(12, "Op", CodeBlock::NoBlock, vec![ArgType::AccessedValue]))]);
    let cfg = ScriptConfig::new(vec![], 0, 2, vars, vec![], instructions).unwrap();
    let lit = [1, 0, 0, 0, 0, 0, 0, 0, 5, 0, 0, 0];
    let var = [1, 0, 0, 0, 2, 0, 0, 0, 7, 0, 0, 0];
    let other = [1, 0, 0, 0, 2, 0, 0, 0, 8, 0, 0, 0];
    let bad = [1, 0, 0, 0, 5, 0, 0, 0, 9, 0, 0, 0];
    let p = cfg.parse(Endian::Little, &bad).unwrap();
    assert!(matches!(p[0].args.get(0), ArgValue::AccessedValue(TaggedValue::Improper { tag: 5, value: 9 })));
    assert_eq!(cfg.parse_to_string(Endian::Little, &lit, 12).unwrap(), "Op: Val(5)\n");
    assert_eq!(cfg.parse_to_string(Endian::Little, &var, 12).unwrap(), "Op: Mem(Health)\n");
    assert_eq!(cfg.parse_to_string(Endian::Little, &other, 12).unwrap(), "Op: Mem(8)\n");
    let bad_text = cfg.parse_to_string(Endian::Little, &bad, 12).unwrap();
    assert_eq!(bad_text, "Op: BadTag(5, 9)\n");
    for (bytes, text) in [(&lit, "Op: Val(5)"), (&var, "Op: Mem(Health)"), (&other, "Op: Mem(8)"), (&bad, "Op: BadTag(5, 9)")] {
        assert_eq!(rebuild_bbscript(&cfg, &text.to_string(), Endian::Little).unwrap(), bytes.to_vec());
    }
    assert!(matches!(
        rebuild_bbscript(&cfg, &"Op: Mem(Mana)".to_string(), Endian::Little),
        Err(BBScriptError::NoVariableName(ref n)) if n == "Mana"
    ));
}

#[test]
fn leftover_bytes_become_one_unknown_argument() {
    let cfg = catalog(vec![], sized(vec![(1, instr(12, "", CodeBlock::NoBlock, vec![ArgType::Number]))]));
    let input = [1, 0, 0, 0, 42, 0, 0, 0, 0x0A, 0x0B, 0xFC, 0x0D];
    let p = cfg.parse(Endian::Little, &input).unwrap();
    assert_eq!(p[0].args.len(), 2);
    match p[0].args.get(1) {
        ArgValue::Unknown(b) => assert_eq!(b.to_vec(), vec![0x0A, 0x0B, 0xFC, 0x0D]),
        other => panic!("unexpected argument {:?}", other),
    }
    let text = cfg.parse_to_string(Endian::Little, &input, 12).unwrap();
    assert_eq!(text, "Unknown1: 42, 0x0A0BFC0D\n");
    assert_eq!(rebuild_bbscript(&cfg, &text, Endian::Little).unwrap(), input.to_vec());
    let exact = catalog(vec![], sized(vec![(1, instr(8, "", CodeBlock::NoBlock, vec![ArgType::Number]))]));
    assert_eq!(exact.parse(Endian::Little, &input[0..8]).unwrap()[0].args.len(), 1);
    assert_eq!(instr(12, "", CodeBlock::NoBlock, vec![ArgType::Number]).args(), vec![ArgType::Number, ArgType::Unknown(4)]);
}

#[test]
fn big_endian_numbers() {
    let cfg = catalog(vec![], sized(vec![(1, instr(8, "N", CodeBlock::NoBlock, vec![ArgType::Number]))]));
    let input = [0, 0, 0, 1, 0xFF, 0xFF, 0xFF, 0xFE];
    assert_eq!(cfg.parse_to_string(Endian::Big, &input, 12).unwrap(), "N: -2\n");
    assert_eq!(rebuild_bbscript(&cfg, &"N: -2".to_string(), Endian::Big).unwrap(), input.to_vec());
}

#[test]
fn strings_are_padded_and_escaped() {
    let cfg = catalog(vec![], sized(vec![(1, instr(20, "S", CodeBlock::NoBlock, vec![ArgType::String16]))]));
    let bytes = rebuild_bbscript(&cfg, &"S: s16'it\\'s'".to_string(), Endian::Little).unwrap();
    let mut expected = vec![1, 0, 0, 0];
    expected.extend_from_slice(b"it's");
    expected.resize(20, 0);
    assert_eq!(bytes, expected);
    assert_eq!(cfg.parse_to_string(Endian::Little, &bytes, 12).unwrap(), "S: s16'it\\'s'\n");
    assert!(matches!(
        rebuild_bbscript(&cfg, &"S: s16'seventeen chars!!'".to_string(), Endian::Little),
        Err(BBScriptError::StringTooLong(17, 16))
    ));
}

#[test]
fn unknown_opcode_in_fixed_catalog_fails() {
    let cfg = catalog(vec![], sized(vec![]));
    assert!(matches!(cfg.parse(Endian::Little, &[7, 0, 0, 0]), Err(BBScriptError::UnknownInstructionID(7))));
    assert!(matches!(
        rebuild_bbscript(&cfg, &"Unknown7: ".to_string(), Endian::Little),
        Err(BBScriptError::UnknownInstructionID(7))
    ));
    assert!(matches!(
        rebuild_bbscript(&cfg, &"Mystery: 1".to_string(), Endian::Little),
        Err(BBScriptError::UnknownInstructionName(ref n)) if n == "Mystery"
    ));
}

#[test]
fn truncated_record_fails() {
    let cfg = catalog(vec![], sized(vec![(1, instr(8, "", CodeBlock::NoBlock, vec![ArgType::Number]))]));
    assert!(matches!(cfg.parse(Endian::Little, &[1, 0, 0, 0, 1, 2]), Err(BBScriptError::UnexpectedEnd)));
}

#[test]
fn named_variant_needs_an_enum_argument() {
    let cfg = catalog(vec![], sized(vec![(1, instr(8, "N", CodeBlock::NoBlock, vec![ArgType::Number]))]));
    assert!(matches!(
        rebuild_bbscript(&cfg, &"N: (Blue)".to_string(), Endian::Little),
        Err(BBScriptError::NoEnum(0, 1))
    ));
}

#[test]
fn enum_without_table_cannot_render() {
    let cfg = catalog(vec![], sized(vec![(1, instr(8, "E", CodeBlock::NoBlock, vec![ArgType::Enum("Missing".to_string())]))]));
    assert!(matches!(
        cfg.parse_to_string(Endian::Little, &[1, 0, 0, 0, 1, 0, 0, 0], 12),
        Err(BBScriptError::BadEnumReference(ref n)) if n == "Missing"
    ));
}

#[test]
fn duplicate_names_are_rejected() {
    let instructions = sized(vec![
        (1, instr(4, "Same", CodeBlock::NoBlock, vec![])),
        (2, instr(4, "Same", CodeBlock::NoBlock, vec![])),
        (3, instr(4, "", CodeBlock::NoBlock, vec![])),
        (4, instr(4, "", CodeBlock::NoBlock, vec![])),
    ]);
    match ScriptConfig::new(vec![], 0, 2, BiHashMap::new(), vec![], instructions) {
        Err(BBScriptError::ConfigDuplicateName(names)) => assert_eq!(names, vec!["Same".to_string()]),
        other => panic!("unexpected result {:?}", other),
    }
}

#[test]
fn syntax_errors_report_their_line() {
    let cfg = catalog(vec![], sized(vec![(1, instr(8, "N", CodeBlock::NoBlock, vec![ArgType::Number]))]));
    assert!(matches!(
        rebuild_bbscript(&cfg, &"N: 1\n\nN 2\n".to_string(), Endian::Little),
        Err(BBScriptError::SyntaxError(3))
    ));
    assert!(matches!(parse_script(&"N: 0xABC".to_string()), Err(BBScriptError::SyntaxError(1))));
}

#[test]
fn script_text_parses_every_argument_form() {
    let calls = parse_script(
        &"  Op: s32'a,b', s16'x\\'y', 0x0aFF, (Red), Mem(3), Mem(Health), Val(-4), BadTag(5, 6), -7\n".to_string(),
    )
    .unwrap();
    assert_eq!(calls.len(), 1);
    assert_eq!(calls[0].name, "Op");
    let a = &calls[0].args;
    assert_eq!(a.len(), 9);
    assert!(matches!(&a[0], ParserValue::String32(b) if b == b"a,b"));
    assert!(matches!(&a[1], ParserValue::String16(b) if b == b"x'y"));
    assert!(matches!(&a[2], ParserValue::Raw(b) if b == &vec![0x0A, 0xFF]));
    assert!(matches!(&a[3], ParserValue::Named(n) if n == "Red"));
    assert!(matches!(&a[4], ParserValue::Mem(3)));
    assert!(matches!(&a[5], ParserValue::NamedMem(n) if n == "Health"));
    assert!(matches!(&a[6], ParserValue::Val(-4)));
    assert!(matches!(&a[7], ParserValue::BadTag(5, 6)));
    assert!(matches!(&a[8], ParserValue::Number(-7)));
    assert_eq!(a.iter().map(|x| x.size()).sum::<usize>(), 32 + 16 + 2 + 4 + 8 + 8 + 8 + 8 + 4);
}

#[test]
fn dynamic_catalog_builds_records_for_unlisted_opcodes() {
    let cfg = catalog(vec![], InstructionInfo::Unsized(HashMap::new()));
    let calls = vec![BBSFunction { name: "Unknown9".to_string(), args: vec![ParserValue::Number(1)] }];
    assert_eq!(calls[0].total_size(), 8);
    let bytes = assemble_script(&calls, &cfg, Endian::Little).unwrap();
    assert_eq!(bytes, vec![9, 0, 0, 0, 12, 0, 0, 0, 1, 0, 0, 0]);
    assert_eq!(ParserValue::Named("x".to_string()).to_arg_type(), ArgType::Number);
}

#[test]
fn argument_sizes() {
    assert_eq!(ArgType::Unknown(5).size(), 5);
    assert_eq!(ArgType::String16.size(), 16);
    assert_eq!(ArgType::String32.size(), 32);
    assert_eq!(ArgType::Number.size(), 4);
    assert_eq!(ArgType::Enum("E".to_string()).size(), 4);
    assert_eq!(ArgType::AccessedValue.size(), 8);
    assert_eq!(CodeBlock::default(), CodeBlock::NoBlock);
}

#[test]
fn text_round_trip_keeps_every_argument_form() {
    let mut vars = BiHashMap::new();
    vars.insert(3, "Timer".to_string());
    let mut colors = BiHashMap::new();
    colors.insert(1, "Red".to_string());
    let maps = vec![NamedValueMap { name: "Color".to_string(), values: colors }];
    let instructions = sized(vec![
        (0x10, instr(36, "State", CodeBlock::Begin, vec![ArgType::String32])),
        (0x11, instr(4, "EndState", CodeBlock::End, vec![])),
        (
            0x20,
            instr(
                4 + 16 + 4 + 4 + 8 + 8 + 8 + 2,
                "",
                CodeBlock::NoBlock,
                vec![
                    ArgType::String16,
                    ArgType::Enum("Color".to_string()),
                    ArgType::Enum("Color".to_string()),
                    ArgType::AccessedValue,
                    ArgType::AccessedValue,
                    ArgType::AccessedValue,
                ],
            ),
        ),
    ]);
    let cfg = ScriptConfig::new(vec![0x10], 0, 2, vars, maps, instructions).unwrap();
    let text = "State: s32'a,b'\n  Unknown32: s16'q\\'x', (Red), 5, Val(-1), Mem(Timer), BadTag(7, 8), 0xBEEF\nEndState: \n\n";
    for endian in [Endian::Little, Endian::Big] {
        let bytes = rebuild_bbscript(&cfg, &text.to_string(), endian).unwrap();
        let back = cfg.parse_to_string(endian, &bytes, 12).unwrap();
        assert_eq!(back, text);
        let again = rebuild_bbscript(&cfg, &back, endian).unwrap();
        assert_eq!(again, bytes);
    }
}

#[test]
fn oversized_fixed_instruction_is_rejected() {
    let instructions = sized(vec![(1, instr(4, "", CodeBlock::NoBlock, vec![ArgType::Number]))]);
    match ScriptConfig::new(vec![], 0, 2, BiHashMap::new(), vec![], instructions) {
        Err(BBScriptError::ArgumentsExceedSize(id, known, size)) => {
            assert_eq!((id, known, size), (1, 4, 4));
        }
        other => panic!("unexpected result {:?}", other),
    }
    let tiny = sized(vec![(2, instr(2, "", CodeBlock::NoBlock, vec![]))]);
    assert!(matches!(
        ScriptConfig::new(vec![], 0, 2, BiHashMap::new(), vec![], tiny),
        Err(BBScriptError::ArgumentsExceedSize(2, 0, 2))
    ));
}

#[test]
fn duplicate_enum_tables_are_rejected() {
    let maps = vec![
        NamedValueMap { name: "Color".to_string(), values: BiHashMap::new() },
        NamedValueMap { name: "Shape".to_string(), values: BiHashMap::new() },
        NamedValueMap { name: "Color".to_string(), values: BiHashMap::new() },
    ];
    match ScriptConfig::new(vec![], 0, 2, BiHashMap::new(), maps, sized(vec![])) {
        Err(BBScriptError::ConfigDuplicateEnum(n)) => assert_eq!(n, "Color"),
        other => panic!("unexpected result {:?}", other),
    }
}

#[test]
fn every_shared_name_is_listed() {
    let instructions = sized(vec![
        (1, instr(4, "A", CodeBlock::NoBlock, vec![])),
        (2, instr(4, "A", CodeBlock::NoBlock, vec![])),
        (3, instr(4, "B", CodeBlock::NoBlock, vec![])),
        (4, instr(4, "B", CodeBlock::NoBlock, vec![])),
        (5, instr(4, "C", CodeBlock::NoBlock, vec![])),
    ]);
    match ScriptConfig::new(vec![], 0, 2, BiHashMap::new(), vec![], instructions) {
        Err(BBScriptError::ConfigDuplicateName(mut names)) => {
            names.sort();
            assert_eq!(names, vec!["A".to_string(), "B".to_string()]);
        }
        other => panic!("unexpected result {:?}", other),
    }
}

#[test]
fn embedded_zero_bytes_of_strings_are_kept() {
    let cfg = catalog(vec![], sized(vec![(1, instr(20, "S", CodeBlock::NoBlock, vec![ArgType::String16]))]));
    let mut input = vec![1, 0, 0, 0];
    input.extend_from_slice(b"AB\0CD");
    input.resize(20, 0);
    let p = cfg.parse(Endian::Little, &input).unwrap();
    match p[0].args.get(0) {
        ArgValue::String16(s) => assert_eq!(s, "AB\0CD"),
        other => panic!("unexpected argument {:?}", other),
    }
    let text = cfg.parse_to_string(Endian::Little, &input, 12).unwrap();
    assert_eq!(text, "S: s16'AB\0CD'\n");
    assert_eq!(rebuild_bbscript(&cfg, &text, Endian::Little).unwrap(), input);
}

#[test]
fn single_argument_decodes_by_its_type() {
    let cfg = catalog(vec![], sized(vec![]));
    let bytes = [0, 0, 0, 0, 7, 0, 0, 0, 9, 0, 0, 0, 2, 0, 0, 0, 3, 0, 0, 0];
    assert!(matches!(
        cfg.parse_argument(Endian::Little, &ArgType::AccessedValue, &bytes, 0),
        ArgValue::AccessedValue(TaggedValue::Literal(7))
    ));
    assert!(matches!(
        cfg.parse_argument(Endian::Little, &ArgType::AccessedValue, &bytes, 4),
        ArgValue::AccessedValue(TaggedValue::Improper { tag: 7, value: 9 })
    ));
    assert!(matches!(
        cfg.parse_argument(Endian::Little, &ArgType::AccessedValue, &bytes, 12),
        ArgValue::AccessedValue(TaggedValue::Variable(3))
    ));
}
