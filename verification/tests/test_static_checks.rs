//! Unit tests for the constant `getelementptr` parser, the protection
//! test, and call elision.

use llvm_sandboxer::IrError;
use llvm_sandboxer::ir::{GlobalInit, GlobalVar, Instruction, IrFunction, IrModule, Opcode, Operand};
use llvm_sandboxer::static_checks::{
    _get_type_as_str_size, _is_address_protected, _parse_gep, remove_function_call,
};

fn n(s: &str) -> Vec<u8> {
    s.as_bytes().to_vec()
}

#[test]
fn test_type_size_i64() {
    assert_eq!(_get_type_as_str_size(&n("i64")), 8);
}

#[test]
fn test_parse_gep_pairs() {
    let text = n("getelementptr inbounds ([4 x i64], ptr @a, i64 0, i64 2)");
    let ops = _parse_gep(&text).expect("the printed form parses");
    assert_eq!(ops.len(), 4);
    assert_eq!(ops[0], (n("4"), n("i64")));
    assert_eq!(ops[1], (n("ptr"), n("@a")));
    assert_eq!(ops[2], (n("i64"), n("0")));
    assert_eq!(ops[3], (n("i64"), n("2")));
}

#[test]
fn test_parse_gep_no_array_type() {
    // No `N x ty` array pattern anywhere.
    assert!(_parse_gep(&n("i8, ptr, hello")).is_none());
}

fn module_with_a() -> IrModule {
    IrModule {
        functions: vec![],
        globals: vec![GlobalVar { name: n("a"), init: GlobalInit::Opaque }],
        decls: vec![],
    }
}

#[test]
fn test_protected_same_base() {
    let m = module_with_a();
    let shadow = Some((Operand::Global(n("a")), 16u64));
    assert!(_is_address_protected(&m, &shadow, &Operand::Global(n("a")), 8));
    assert!(_is_address_protected(&m, &shadow, &Operand::Global(n("a")), 16));
    assert!(!_is_address_protected(&m, &shadow, &Operand::Global(n("a")), 17));
    assert!(!_is_address_protected(&m, &None, &Operand::Global(n("a")), 8));
}

#[test]
fn test_protected_gep_offset() {
    let m = module_with_a();
    let shadow = Some((Operand::Global(n("a")), 32u64));
    let gep = |idx: u64| {
        Operand::ConstGep(n(&format!(
            "getelementptr inbounds ([4 x i64], ptr @a, i64 0, i64 {})",
            idx
        )))
    };
    // idx * 8 + width <= 32
    assert!(_is_address_protected(&m, &shadow, &gep(0), 8));
    assert!(_is_address_protected(&m, &shadow, &gep(3), 8));
    assert!(!_is_address_protected(&m, &shadow, &gep(4), 8));
    assert!(!_is_address_protected(&m, &shadow, &gep(3), 9));
}

#[test]
fn test_protected_rejects_unknown_type() {
    let m = module_with_a();
    let shadow = Some((Operand::Global(n("a")), 320u64));
    let gep = Operand::ConstGep(n("getelementptr inbounds ([4 x i32], ptr @a, i64 0, i64 0)"));
    // Only i64 elements are understood.
    assert!(!_is_address_protected(&m, &shadow, &gep, 4));
}

fn call_to(callee: &str) -> Instruction {
    Instruction {
        opcode: Opcode::Call,
        dest: None,
        operands: vec![],
        width: None,
        ty: Vec::new(),
        text: n(&format!("call void @{}()", callee)),
    }
}

fn ret() -> Instruction {
    Instruction {
        opcode: Opcode::Ret,
        dest: None,
        operands: vec![],
        width: None,
        ty: Vec::new(),
        text: n("ret i64 0"),
    }
}

fn one_fn_module(instrs: Vec<Instruction>) -> IrModule {
    IrModule {
        functions: vec![IrFunction {
            name: n("main"),
            blocks: vec![llvm_sandboxer::ir::Block { name: n("entry"), instrs }],
        }],
        globals: vec![],
        decls: vec![],
    }
}

#[test]
fn test_remove_function_call_strips_calls() {
    let mut m = one_fn_module(vec![call_to("utx0"), call_to("other"), call_to("utx0"), ret()]);
    remove_function_call(&mut m, &n("main"), &n("utx0")).expect("the caller exists");
    let instrs = &m.functions[0].blocks[0].instrs;
    assert_eq!(instrs.len(), 2);
    assert_eq!(instrs[0].text, n("call void @other()"));
    assert!(matches!(instrs[1].opcode, Opcode::Ret));
}

/// Elision twice is elision once.
#[test]
fn test_remove_function_call_idempotent() {
    let mut m = one_fn_module(vec![call_to("utx1"), call_to("keep"), ret()]);
    remove_function_call(&mut m, &n("main"), &n("utx1")).expect("the caller exists");
    let once: Vec<Vec<u8>> = m.functions[0].blocks[0].instrs.iter().map(|i| i.text.clone()).collect();
    remove_function_call(&mut m, &n("main"), &n("utx1")).expect("the caller exists");
    let twice: Vec<Vec<u8>> = m.functions[0].blocks[0].instrs.iter().map(|i| i.text.clone()).collect();
    assert_eq!(once, twice);
}

#[test]
fn test_remove_function_call_missing_function() {
    let mut m = one_fn_module(vec![ret()]);
    let r = remove_function_call(&mut m, &n("absent"), &n("utx0"));
    assert_eq!(r, Err(IrError::MissingFunction));
    // The module is untouched.
    assert_eq!(m.functions[0].blocks[0].instrs.len(), 1);
}

/// A non-call whose printed form names the callee stays.
#[test]
fn test_remove_function_call_only_calls() {
    let load = Instruction {
        opcode: Opcode::Load,
        dest: Some(n("v")),
        operands: vec![Operand::Global(n("utx0_data"))],
        width: Some(8),
        ty: Vec::new(),
        text: n("load i64, ptr @utx0_data"),
    };
    let mut m = one_fn_module(vec![load, ret()]);
    remove_function_call(&mut m, &n("main"), &n("utx0")).expect("the caller exists");
    assert_eq!(m.functions[0].blocks[0].instrs.len(), 2);
}
