//! Scenario tests for the window-list verifier.

use llvm_sandboxer::ir::{Instruction, IrFunction, Opcode, Operand};
use llvm_sandboxer::sandboxer::verify;

fn n(s: &str) -> Vec<u8> {
    s.as_bytes().to_vec()
}

fn instr(opcode: Opcode, operands: Vec<Operand>, width: Option<u64>, text: &str) -> Instruction {
    Instruction { opcode, dest: None, operands, width, ty: Vec::new(), text: n(text) }
}

fn utx1(global: &str, len: u64) -> Instruction {
    instr(
        Opcode::Call,
        vec![Operand::Global(n(global)), Operand::ConstInt(len)],
        None,
        "call void @utx1(ptr, i64)",
    )
}

fn store_to(global: &str, w: u64) -> Instruction {
    instr(
        Opcode::Store,
        vec![Operand::ConstInt(1), Operand::Global(n(global))],
        Some(w),
        "store i64 1, ptr, align 8",
    )
}

fn load_from(global: &str, w: u64) -> Instruction {
    instr(
        Opcode::Load,
        vec![Operand::Global(n(global))],
        Some(w),
        "load i64, ptr, align 8",
    )
}

fn ret() -> Instruction {
    instr(Opcode::Ret, vec![], None, "ret i64 0")
}

fn fun_of(name: &str, instrs: Vec<Instruction>) -> IrFunction {
    IrFunction {
        name: n(name),
        blocks: vec![llvm_sandboxer::ir::Block { name: n("entry"), instrs }],
    }
}

/// No `utx1` ever declares a window: the first access rejects.
#[test]
fn test_sandboxer_bad_entry_0() {
    let f = fun_of("bad_entry_0", vec![store_to("a", 8), ret()]);
    assert_eq!(verify(&f), false);
}

/// An access wider than the declared window rejects.
#[test]
fn test_sandboxer_bad_width() {
    let f = fun_of("bad_width", vec![utx1("a", 4), store_to("a", 8), ret()]);
    assert_eq!(verify(&f), false);
}

/// The declared base covers accesses through it.
#[test]
fn test_sandboxer_good_entry_0() {
    let f = fun_of(
        "good_entry_0",
        vec![utx1("a", 32), store_to("a", 8), load_from("a", 8), ret()],
    );
    assert_eq!(verify(&f), true);
}

/// Unlike the shadow-window verifier, every declared window stays: a
/// second `utx1` does not revoke the first.
#[test]
fn test_sandboxer_windows_accumulate() {
    let f = fun_of(
        "both",
        vec![utx1("a", 8), utx1("b", 8), store_to("a", 8), store_to("b", 8), ret()],
    );
    assert_eq!(verify(&f), true);
}

/// A write one past the end — a constant `getelementptr` to `a[4]`
/// against a 32-byte window — rejects.  This variant has no
/// `getelementptr` reasoning at all, so any such access rejects, the
/// out-of-bounds ones included.  (The original suite also had two
/// accepting programs for this verifier; their verdicts depended on the
/// exact shape the C compiler gave the accesses, which cannot be
/// reproduced here, so only the rejections are carried over.)
#[test]
fn test_sandboxer_bad_entry_1() {
    let gep = Operand::ConstGep(n("getelementptr inbounds ([4 x i64], ptr @a, i64 0, i64 4)"));
    let store_gep = instr(
        Opcode::Store,
        vec![Operand::ConstInt(0), gep],
        Some(8),
        "store i64 0, ptr getelementptr, align 8",
    );
    let f = fun_of("bad_entry_1", vec![utx1("a", 32), store_gep, ret()]);
    assert_eq!(verify(&f), false);
}

/// A write past the declared half-length — `a[3]` against a 16-byte
/// window — rejects.
#[test]
fn test_sandboxer_bad_entry_2() {
    let gep = Operand::ConstGep(n("getelementptr inbounds ([4 x i64], ptr @a, i64 0, i64 3)"));
    let store_gep = instr(
        Opcode::Store,
        vec![Operand::ConstInt(0), gep],
        Some(8),
        "store i64 0, ptr getelementptr, align 8",
    );
    let f = fun_of("bad_entry_2", vec![utx1("a", 16), store_gep, ret()]);
    assert_eq!(verify(&f), false);
}

/// This variant knows nothing of `getelementptr` arithmetic: an access
/// through a constant expression is never covered.
#[test]
fn test_sandboxer_no_gep_reasoning() {
    let gep = Operand::ConstGep(n("getelementptr inbounds ([4 x i64], ptr @a, i64 0, i64 0)"));
    let store_gep = instr(
        Opcode::Store,
        vec![Operand::ConstInt(1), gep],
        Some(8),
        "store i64 1, ptr getelementptr, align 8",
    );
    let f = fun_of("gep", vec![utx1("a", 32), store_gep, ret()]);
    assert_eq!(verify(&f), false);
}

/// A `utx1` with a non-constant length records no window.
#[test]
fn test_sandboxer_dynamic_length() {
    let dynamic = instr(
        Opcode::Call,
        vec![Operand::Global(n("a")), Operand::Ssa(n("len"))],
        None,
        "call void @utx1(ptr, i64 %len)",
    );
    let f = fun_of("dynamic", vec![dynamic, store_to("a", 8), ret()]);
    assert_eq!(verify(&f), false);
}
