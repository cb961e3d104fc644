use bbscript::config::{ArgType, CodeBlock as Block};
use bbscript::legacy::{Arg, CodeBlock, Function};

fn function(id: u32, size: u32, args: &str, name: &str, code_block: CodeBlock) -> Function {
    Function { id, size, args: args.to_string(), name: name.to_string(), code_block }
}

#[test]
fn argument_string_lists_arguments_and_leftover() {
    let f = function(7, 64, "16s32si", "", CodeBlock::NoBlock);
    assert_eq!(f.get_args(), vec![Arg::String16, Arg::String32, Arg::Int, Arg::Unknown(8)]);
    let exact = function(7, 8, "i", "", CodeBlock::NoBlock);
    assert_eq!(exact.get_args(), vec![Arg::Int]);
    let skipped = function(7, 4, "x1i6s", "", CodeBlock::NoBlock);
    assert_eq!(skipped.get_args(), vec![Arg::Int]);
    let small = function(7, 2, "", "", CodeBlock::NoBlock);
    assert_eq!(small.get_args(), vec![]);
}

#[test]
fn legacy_names_and_roles() {
    let unnamed = function(42, 4, "", "", CodeBlock::BeginJumpEntry);
    assert_eq!(unnamed.instruction_name(), "Unknown42");
    assert!(unnamed.is_jump_entry());
    let named = function(1, 4, "", "Start", CodeBlock::Begin);
    assert_eq!(named.instruction_name(), "Start");
    assert!(!named.is_jump_entry());
}

#[test]
fn legacy_instruction_converts_to_schema() {
    let f = function(3, 44, "32si", "State", CodeBlock::BeginJumpEntry);
    let s = f.to_sized();
    assert_eq!(s.size, 44);
    assert_eq!(s.name, "State");
    assert_eq!(s.code_block, Block::Begin);
    assert_eq!(s.args.to_vec(), vec![ArgType::String32, ArgType::Number]);
    assert_eq!(s.args(), vec![ArgType::String32, ArgType::Number, ArgType::Unknown(4)]);
}
