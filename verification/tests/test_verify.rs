//! Scenario tests for the standalone static verifier.
//!
//! Each case builds the representation of a small micro-transaction
//! program over a global `i64` array `@a` and checks the verifier's
//! verdict.

use llvm_sandboxer::ir::{GlobalInit, GlobalVar, Instruction, IrFunction, IrModule, Opcode, Operand};
use llvm_sandboxer::static_checks::verify;

fn n(s: &str) -> Vec<u8> {
    s.as_bytes().to_vec()
}

fn instr(opcode: Opcode, operands: Vec<Operand>, width: Option<u64>, text: &str) -> Instruction {
    Instruction { opcode, dest: None, operands, width, ty: Vec::new(), text: n(text) }
}

/// `call void @utx1(ptr @a, i64 len)` with a constant length.
fn utx1_call(len: u64) -> Instruction {
    instr(
        Opcode::Call,
        vec![Operand::Global(n("a")), Operand::ConstInt(len)],
        None,
        "call void @utx1(ptr @a, i64 32)",
    )
}

/// `call void @utx0()`.
fn utx0_call() -> Instruction {
    instr(Opcode::Call, vec![], None, "call void @utx0()")
}

/// The printed form of the constant `getelementptr` for `a[idx]`.
fn gep_a(idx: u64) -> Operand {
    Operand::ConstGep(n(&format!(
        "getelementptr inbounds ([4 x i64], ptr @a, i64 0, i64 {})",
        idx
    )))
}

/// `store i64 v, ptr a[idx], align 8`.
fn store_a(idx: u64, v: u64) -> Instruction {
    instr(
        Opcode::Store,
        vec![Operand::ConstInt(v), gep_a(idx)],
        Some(8),
        "store i64 v, ptr getelementptr, align 8",
    )
}

fn ret() -> Instruction {
    instr(Opcode::Ret, vec![], None, "ret i64 0")
}

/// A module holding the global array `@a` and one function of one block.
fn module_with(name: &str, instrs: Vec<Instruction>) -> IrModule {
    IrModule {
        functions: vec![IrFunction {
            name: n(name),
            blocks: vec![llvm_sandboxer::ir::Block { name: n("entry"), instrs }],
        }],
        globals: vec![GlobalVar { name: n("a"), init: GlobalInit::Opaque }],
        decls: vec![],
    }
}

/// Rejection of unprotected memory: no call to `utx0` or `utx1`, hence
/// no protection for the access.
#[test]
fn test_bad_entry_0() {
    let m = module_with("bad_entry_0", vec![store_a(0, 1), ret()]);
    assert_eq!(verify(&m, &m.functions[0]), false);
}

/// A write one past the end: `a[4]` against a 32-byte window.
#[test]
fn test_bad_entry_1() {
    let m = module_with("bad_entry_1", vec![utx1_call(32), store_a(4, 0), ret()]);
    assert_eq!(verify(&m, &m.functions[0]), false);
}

/// A write past the declared half-length: `a[3]` against a 16-byte
/// window.
#[test]
fn test_bad_entry_2() {
    let m = module_with("bad_entry_2", vec![utx1_call(16), store_a(3, 0), ret()]);
    assert_eq!(verify(&m, &m.functions[0]), false);
}

/// A `utx1` whose length is not a constant clears the shadow window, so
/// the following access cannot be proven.
#[test]
fn test_bad_entry_3() {
    let utx1_dyn = instr(
        Opcode::Call,
        vec![Operand::Global(n("a")), Operand::Ssa(n("len"))],
        None,
        "call void @utx1(ptr @a, i64 %len)",
    );
    let m = module_with("bad_entry_3", vec![utx1_dyn, store_a(0, 1), ret()]);
    assert_eq!(verify(&m, &m.functions[0]), false);
}

/// `utx1(a, 32); a[0] = 1; a[3] = 4; utx0();` — every access fits.
#[test]
fn test_good_entry_0() {
    let m = module_with(
        "good_entry_0",
        vec![utx1_call(32), store_a(0, 1), store_a(3, 4), utx0_call(), ret()],
    );
    assert_eq!(verify(&m, &m.functions[0]), true);
}

/// A constant-index `getelementptr` within bounds.
#[test]
fn test_good_entry_2() {
    let m = module_with("good_entry_2", vec![utx1_call(32), store_a(2, 9), ret()]);
    assert_eq!(verify(&m, &m.functions[0]), true);
}

/// The accessed pointer is literally the window base.
#[test]
fn test_good_entry_3() {
    let store_base = instr(
        Opcode::Store,
        vec![Operand::ConstInt(1), Operand::Global(n("a"))],
        Some(8),
        "store i64 1, ptr @a, align 8",
    );
    let m = module_with("good_entry_3", vec![utx1_call(8), store_base, ret()]);
    assert_eq!(verify(&m, &m.functions[0]), true);
}

/// The exact boundary: `a[3]` with width 8 ends exactly at 32.
#[test]
fn test_verify_exact_boundary() {
    let m = module_with("exact", vec![utx1_call(32), store_a(3, 0), ret()]);
    assert_eq!(verify(&m, &m.functions[0]), true);
    let m = module_with("exact_over", vec![utx1_call(31), store_a(3, 0), ret()]);
    assert_eq!(verify(&m, &m.functions[0]), false);
}

/// A later `utx1` overwrites the shadow window: the old window no
/// longer protects.
#[test]
fn test_verify_window_overwritten() {
    let utx1_b = instr(
        Opcode::Call,
        vec![Operand::Global(n("b")), Operand::ConstInt(32)],
        None,
        "call void @utx1(ptr @b, i64 32)",
    );
    let m = module_with("overwritten", vec![utx1_call(32), utx1_b, store_a(0, 1), ret()]);
    assert_eq!(verify(&m, &m.functions[0]), false);
}

/// A load with no recorded width cannot be proven safe.
#[test]
fn test_verify_missing_width() {
    let bad_load = instr(
        Opcode::Load,
        vec![Operand::Global(n("a"))],
        None,
        "load i64, ptr @a",
    );
    let m = module_with("missing_width", vec![utx1_call(32), bad_load, ret()]);
    assert_eq!(verify(&m, &m.functions[0]), false);
}

/// An outer index other than zero leaves the array.
#[test]
fn test_verify_outer_index() {
    let store_outer = instr(
        Opcode::Store,
        vec![
            Operand::ConstInt(0),
            Operand::ConstGep(n("getelementptr inbounds ([4 x i64], ptr @a, i64 1, i64 0)")),
        ],
        Some(8),
        "store i64 0, ptr getelementptr, align 8",
    );
    let m = module_with("outer", vec![utx1_call(32), store_outer, ret()]);
    assert_eq!(verify(&m, &m.functions[0]), false);
}

/// A `getelementptr` over a global the module does not hold.
#[test]
fn test_verify_unknown_global() {
    let store_b = instr(
        Opcode::Store,
        vec![
            Operand::ConstInt(0),
            Operand::ConstGep(n("getelementptr inbounds ([4 x i64], ptr @b, i64 0, i64 0)")),
        ],
        Some(8),
        "store i64 0, ptr getelementptr, align 8",
    );
    let m = module_with("unknown", vec![utx1_call(32), store_b, ret()]);
    assert_eq!(verify(&m, &m.functions[0]), false);
}
