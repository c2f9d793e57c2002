//! Linking the output of a real compiler back end.

use codegen_lang::{compile, Op, Program};
use ir_lang::{BinOp, Builder, Type};
use linker_lang::{link, Linker, Object, Width};

/// A stable tag byte for each op kind, standing in for machine code.
fn opcode(op: &Op) -> u8 {
    match op {
        Op::Const { .. } => 0x01,
        Op::Bin { .. } => 0x02,
        Op::Un { .. } => 0x03,
        Op::Move { .. } => 0x04,
        Op::Jump { .. } => 0x05,
        Op::JumpUnless { .. } => 0x06,
        Op::Return { .. } => 0x07,
    }
}

/// One tag byte per op, so a section's length tracks the function's size.
fn encode(program: &Program) -> Vec<u8> {
    program.ops().iter().map(opcode).collect()
}

/// A compiled program as a linkable object: its code in `.text`, its name at offset 0.
fn object_for(program: &Program) -> Object {
    let mut object = Object::new(program.name());
    object.section(".text", &encode(program));
    object.define(program.name(), ".text", 0);
    object
}

fn read_u64(bytes: &[u8], at: usize) -> u64 {
    u64::from_le_bytes(bytes[at..at + 8].try_into().unwrap())
}

/// `fn double(x: int) -> int { x + x }`
fn double() -> Program {
    let mut b = Builder::new("double", &[Type::Int], Type::Int);
    let x = b.block_params(b.entry())[0];
    let sum = b.bin(BinOp::Add, x, x);
    b.ret(Some(sum));
    compile(&b.finish()).expect("double is well-formed")
}

/// `fn square(x: int) -> int { x * x }`
fn square() -> Program {
    let mut b = Builder::new("square", &[Type::Int], Type::Int);
    let x = b.block_params(b.entry())[0];
    let product = b.bin(BinOp::Mul, x, x);
    b.ret(Some(product));
    compile(&b.finish()).expect("square is well-formed")
}

/// `fn main() {}`
fn main_fn() -> Program {
    let mut b = Builder::new("main", &[], Type::Unit);
    b.ret(None);
    compile(&b.finish()).expect("main is well-formed")
}

#[test]
fn test_compiled_functions_merge_into_one_text_section() {
    let (d, s, m) = (double(), square(), main_fn());
    let image = link(&[object_for(&d), object_for(&s), object_for(&m)])
        .expect("three distinct functions link cleanly");

    // The output `.text` is the three functions' code, concatenated in object order.
    let mut expected = encode(&d);
    expected.extend(encode(&s));
    expected.extend(encode(&m));
    assert_eq!(image.section(".text").unwrap().data(), expected.as_slice());

    // Each function's symbol resolves to where its code begins in that merged section.
    assert_eq!(image.symbol("double"), Some(0));
    assert_eq!(image.symbol("square"), Some(encode(&d).len() as u64));
    assert_eq!(
        image.symbol("main"),
        Some((encode(&d).len() + encode(&s).len()) as u64)
    );
}

#[test]
fn test_entry_point_resolves_to_the_main_function() {
    let (d, m) = (double(), main_fn());
    // `main` is given second, so it does not sit at address 0.
    let image = Linker::new()
        .entry("main")
        .link(&[object_for(&d), object_for(&m)])
        .expect("main is defined");

    assert_eq!(image.entry(), image.symbol("main"));
    assert_eq!(image.entry(), Some(encode(&d).len() as u64));
}

#[test]
fn test_a_dispatch_table_relocates_to_compiled_function_addresses() {
    let (d, s, m) = (double(), square(), main_fn());

    let mut loader = Object::new("loader");
    loader.section(".data", &[0u8; 24]);
    loader.relocate(".data", 0, "main", Width::U64, 0);
    loader.relocate(".data", 8, "double", Width::U64, 0);
    loader.relocate(".data", 16, "square", Width::U64, 0);

    let image = Linker::new()
        .base_address(0x40_0000)
        .entry("main")
        .link(&[object_for(&d), object_for(&s), object_for(&m), loader])
        .expect("every referenced symbol is defined");

    let table = image.section(".data").unwrap().data();
    assert_eq!(read_u64(table, 0), image.symbol("main").unwrap());
    assert_eq!(read_u64(table, 8), image.symbol("double").unwrap());
    assert_eq!(read_u64(table, 16), image.symbol("square").unwrap());

    // The table lives in `.data`, which is laid out after `.text`, above the base address.
    assert!(image.section(".data").unwrap().address() >= 0x40_0000);
}

#[test]
fn test_relocation_with_an_addend_points_into_a_function_body() {
    let d = double();
    let code_len = encode(&d).len() as u64;

    let mut loader = Object::new("loader");
    loader.section(".data", &[0u8; 8]);
    loader.relocate(".data", 0, "double", Width::U64, (code_len - 1) as i64);

    let image = link(&[object_for(&d), loader]).expect("double is defined");
    let slot = image.section(".data").unwrap().data();
    assert_eq!(
        read_u64(slot, 0),
        image.symbol("double").unwrap() + code_len - 1
    );
}
