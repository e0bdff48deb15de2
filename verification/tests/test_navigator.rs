//! Unit tests for operand access and phi entry parsing and rendering.

use llvm_sandboxer::IrError;
use llvm_sandboxer::ir::{Instruction, Opcode, Operand};
use llvm_sandboxer::navigator::{
    get_alignment, operand_as_int, operand_as_pointer, parse_phi_entries, render_phi_bytes,
};

fn n(s: &str) -> Vec<u8> {
    s.as_bytes().to_vec()
}

fn phi(text: &str, operands: Vec<Operand>) -> Instruction {
    Instruction {
        opcode: Opcode::Phi,
        dest: Some(n("i")),
        operands,
        width: None,
        ty: n("i64"),
        text: n(text),
    }
}

#[test]
fn test_parse_phi_entries_pairs() {
    let i = phi(
        "%i = phi i64 [ 0, %entry ], [ %inc, %loop ]",
        vec![Operand::ConstInt(0), Operand::Ssa(n("inc"))],
    );
    let es = parse_phi_entries(&i).expect("the printed form parses");
    assert_eq!(es.len(), 2);
    assert!(matches!(es[0].0, Operand::ConstInt(0)));
    assert_eq!(es[0].1, n("entry"));
    assert!(matches!(&es[1].0, Operand::Ssa(v) if *v == n("inc")));
    assert_eq!(es[1].1, n("loop"));
}

#[test]
fn test_parse_phi_entries_not_a_phi() {
    let mut i = phi("%i = phi i64 [ 0, %entry ]", vec![Operand::ConstInt(0)]);
    i.opcode = Opcode::Load;
    assert!(matches!(parse_phi_entries(&i), Err(IrError::MalformedIr)));
}

#[test]
fn test_parse_phi_entries_operand_missing() {
    // Two entries in the printed form, one operand: no operand to pair.
    let i = phi("%i = phi i64 [ 0, %entry ], [ %inc, %loop ]", vec![Operand::ConstInt(0)]);
    assert!(matches!(parse_phi_entries(&i), Err(IrError::MalformedIr)));
}

/// Rendering entries and parsing the rendered form round-trips.
#[test]
fn test_render_phi_round_trip() {
    let entries = vec![
        (Operand::ConstInt(7), n("bb0")),
        (Operand::Ssa(n("x")), n("load0")),
        (Operand::Ssa(n("y")), n("store2")),
    ];
    let text = render_phi_bytes(&n("p"), &n("i64"), &entries);
    assert_eq!(
        String::from_utf8(text.clone()).unwrap(),
        "%p = phi i64 [ 7, %bb0 ], [ %x, %load0 ], [ %y, %store2 ]"
    );
    let rebuilt = Instruction {
        opcode: Opcode::Phi,
        dest: Some(n("p")),
        operands: vec![Operand::ConstInt(7), Operand::Ssa(n("x")), Operand::Ssa(n("y"))],
        width: None,
        ty: n("i64"),
        text,
    };
    let es = parse_phi_entries(&rebuilt).expect("the rendered form parses");
    assert_eq!(es.len(), 3);
    assert_eq!(es[0].1, n("bb0"));
    assert_eq!(es[1].1, n("load0"));
    assert_eq!(es[2].1, n("store2"));
}

#[test]
fn test_operand_as_pointer() {
    let i = Instruction {
        opcode: Opcode::Store,
        dest: None,
        operands: vec![Operand::ConstInt(1), Operand::Global(n("a"))],
        width: Some(8),
        ty: Vec::new(),
        text: n("store i64 1, ptr @a, align 8"),
    };
    assert!(matches!(operand_as_pointer(&i, 1), Ok(Operand::Global(_))));
    assert_eq!(operand_as_pointer(&i, 0).err(), Some(IrError::MalformedIr));
    assert_eq!(operand_as_pointer(&i, 2).err(), Some(IrError::MalformedIr));
}

#[test]
fn test_operand_as_int() {
    let i = Instruction {
        opcode: Opcode::Call,
        dest: None,
        operands: vec![Operand::Global(n("a")), Operand::ConstInt(32)],
        width: None,
        ty: Vec::new(),
        text: n("call void @utx1(ptr @a, i64 32)"),
    };
    assert!(matches!(operand_as_int(&i, 1), Ok(Operand::ConstInt(32))));
    assert_eq!(operand_as_int(&i, 0).err(), Some(IrError::MalformedIr));
}

#[test]
fn test_get_alignment() {
    let mut i = Instruction {
        opcode: Opcode::Load,
        dest: Some(n("v")),
        operands: vec![Operand::Global(n("a"))],
        width: Some(8),
        ty: Vec::new(),
        text: n("load i64, ptr @a, align 8"),
    };
    assert_eq!(get_alignment(&i), Ok(8));
    i.width = None;
    assert_eq!(get_alignment(&i), Err(IrError::MalformedIr));
}
