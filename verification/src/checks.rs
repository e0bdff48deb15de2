//! The bounds check builder.
//!
//! Before each unproven load or store the instrumentation pass emits the
//! sequence built here: it loads the window base and length, compares the
//! accessed pointer against the window, and branches to the abort block
//! when the access violates, to the continuation block when it does not.
//! The comparison implements the predicate [`window_violated`]: the
//! window base is still the null sentinel, or the access starts below the
//! base, or it ends past the base plus the length.

use vstd::prelude::*;

use crate::bytes::dec_digits;
use crate::ir::{Instruction, InstrV, Opcode, Operand, OpV};

verus! {

/// Whether an access of width `w` at address `a` violates the window
/// `[pb, pb + pl)`, with `pb_null` standing for a window still holding
/// the null sentinel.  This is the predicate the emitted check sequence
/// computes, with the null test first so that the range comparison never
/// decides alone while no window is set.
pub open spec fn window_violated(pb_null: bool, pb: int, pl: int, a: int, w: int) -> bool {
    pb_null || a < pb || a + w > pb + pl
}

/// Bounds soundness: an access the check lets through lies inside the
/// window — it starts at or after the base and ends at or before the
/// base plus the length.
pub proof fn lemma_bounds_soundness(pb: int, pl: int, a: int, w: int)
    ensures
        !window_violated(false, pb, pl, a, w) ==> pb <= a && a + w <= pb + pl,
{
}

/// Null-sentinel soundness: while no window has been declared, every
/// access violates, whatever its address and width.
pub proof fn lemma_null_sentinel(pb: int, pl: int, a: int, w: int)
    ensures
        window_violated(true, pb, pl, a, w),
{
}

/// The name prefix of the `k`-th value the check sequence computes, in
/// emission order: the loaded window base `pb_`, the null test
/// `is_null_`, the low-bound test `below_`, the loaded window length
/// `pl_`, the base as an integer `pb_i_`, the end of the window
/// `last_p_`, the address as an integer `a_i_`, the end of the access
/// `last_a_`, the high-bound test `above_`, the range verdict
/// `range_bad_`, and the overall verdict `violated_`.
pub open spec fn step_prefix(k: int) -> Seq<u8> {
    if k == 0 {
        seq![112u8, 98u8, 95u8]
    } else if k == 1 {
        seq![105u8, 115u8, 95u8, 110u8, 117u8, 108u8, 108u8, 95u8]
    } else if k == 2 {
        seq![98u8, 101u8, 108u8, 111u8, 119u8, 95u8]
    } else if k == 3 {
        seq![112u8, 108u8, 95u8]
    } else if k == 4 {
        seq![112u8, 98u8, 95u8, 105u8, 95u8]
    } else if k == 5 {
        seq![108u8, 97u8, 115u8, 116u8, 95u8, 112u8, 95u8]
    } else if k == 6 {
        seq![97u8, 95u8, 105u8, 95u8]
    } else if k == 7 {
        seq![108u8, 97u8, 115u8, 116u8, 95u8, 97u8, 95u8]
    } else if k == 8 {
        seq![97u8, 98u8, 111u8, 118u8, 101u8, 95u8]
    } else if k == 9 {
        seq![114u8, 97u8, 110u8, 103u8, 101u8, 95u8, 98u8, 97u8, 100u8, 95u8]
    } else {
        seq![118u8, 105u8, 111u8, 108u8, 97u8, 116u8, 101u8, 100u8, 95u8]
    }
}

/// The name of the `k`-th value of the check for the block named `sfx`.
pub open spec fn step_name(k: int, sfx: Seq<u8>) -> Seq<u8> {
    step_prefix(k) + sfx
}

/// Builds the name of the `k`-th value of the check for block `sfx`.
pub fn step_name_bytes(k: usize, sfx: &Vec<u8>) -> (r: Vec<u8>)
    requires
        k <= 10,
    ensures
        r@ == step_name(k as int, sfx@),
{
    let mut r: Vec<u8> = Vec::new();
    if k == 0 {
        r.push(112);
        r.push(98);
        r.push(95);
    } else if k == 1 {
        r.push(105);
        r.push(115);
        r.push(95);
        r.push(110);
        r.push(117);
        r.push(108);
        r.push(108);
        r.push(95);
    } else if k == 2 {
        r.push(98);
        r.push(101);
        r.push(108);
        r.push(111);
        r.push(119);
        r.push(95);
    } else if k == 3 {
        r.push(112);
        r.push(108);
        r.push(95);
    } else if k == 4 {
        r.push(112);
        r.push(98);
        r.push(95);
        r.push(105);
        r.push(95);
    } else if k == 5 {
        r.push(108);
        r.push(97);
        r.push(115);
        r.push(116);
        r.push(95);
        r.push(112);
        r.push(95);
    } else if k == 6 {
        r.push(97);
        r.push(95);
        r.push(105);
        r.push(95);
    } else if k == 7 {
        r.push(108);
        r.push(97);
        r.push(115);
        r.push(116);
        r.push(95);
        r.push(97);
        r.push(95);
    } else if k == 8 {
        r.push(97);
        r.push(98);
        r.push(111);
        r.push(118);
        r.push(101);
        r.push(95);
    } else if k == 9 {
        r.push(114);
        r.push(97);
        r.push(110);
        r.push(103);
        r.push(101);
        r.push(95);
        r.push(98);
        r.push(97);
        r.push(100);
        r.push(95);
    } else {
        r.push(118);
        r.push(105);
        r.push(111);
        r.push(108);
        r.push(97);
        r.push(116);
        r.push(101);
        r.push(100);
        r.push(95);
    }
    proof {
        assert(r@ =~= step_prefix(k as int));
    }
    crate::bytes::append_bytes(&mut r, sfx);
    r
}

/// A value-computing instruction of the check: no width, no type token,
/// no printed form of its own.
pub open spec fn step_instr(opcode: Opcode, dest: Seq<u8>, operands: Seq<OpV>) -> InstrV {
    InstrV {
        opcode,
        dest: Some(dest),
        operands,
        width: None,
        ty: Seq::empty(),
        text: Seq::empty(),
    }
}

/// The check sequence guarding an access through `a` of width `w`,
/// emitted at the end of the block named `sfx`'s predecessor, branching
/// to `abort` on violation and to the block named `cont` otherwise:
///
/// 1. load the window base, 2. test it against null, 3. test the address
/// against the base, 4. load the window length, 5.–6. compute the end of
/// the window, 7.–8. compute the end of the access, 9. test the two
/// ends, 10. or the two range tests, 11. or in the null test, 12. branch
/// on the verdict.
pub open spec fn check_seq(sfx: Seq<u8>, a: OpV, w: u64, cont: Seq<u8>) -> Seq<InstrV> {
    seq![
        InstrV {
            opcode: Opcode::Load,
            dest: Some(step_name(0, sfx)),
            operands: seq![OpV::Global(crate::ir::spec_protected_ptr())],
            width: Some(8u64),
            ty: Seq::empty(),
            text: Seq::empty(),
        },
        step_instr(
            Opcode::ICmpEq,
            step_name(1, sfx),
            seq![OpV::Ssa(step_name(0, sfx)), OpV::Null],
        ),
        step_instr(Opcode::ICmpSlt, step_name(2, sfx), seq![a, OpV::Ssa(step_name(0, sfx))]),
        InstrV {
            opcode: Opcode::Load,
            dest: Some(step_name(3, sfx)),
            operands: seq![OpV::Global(crate::ir::spec_protected_offset())],
            width: Some(8u64),
            ty: Seq::empty(),
            text: Seq::empty(),
        },
        step_instr(Opcode::PtrToInt, step_name(4, sfx), seq![OpV::Ssa(step_name(0, sfx))]),
        step_instr(
            Opcode::Add,
            step_name(5, sfx),
            seq![OpV::Ssa(step_name(4, sfx)), OpV::Ssa(step_name(3, sfx))],
        ),
        step_instr(Opcode::PtrToInt, step_name(6, sfx), seq![a]),
        step_instr(
            Opcode::Add,
            step_name(7, sfx),
            seq![OpV::Ssa(step_name(6, sfx)), OpV::ConstInt(w)],
        ),
        step_instr(
            Opcode::ICmpSgt,
            step_name(8, sfx),
            seq![OpV::Ssa(step_name(7, sfx)), OpV::Ssa(step_name(5, sfx))],
        ),
        step_instr(
            Opcode::Or,
            step_name(9, sfx),
            seq![OpV::Ssa(step_name(2, sfx)), OpV::Ssa(step_name(8, sfx))],
        ),
        step_instr(
            Opcode::Or,
            step_name(10, sfx),
            seq![OpV::Ssa(step_name(1, sfx)), OpV::Ssa(step_name(9, sfx))],
        ),
        InstrV {
            opcode: Opcode::Br,
            dest: None,
            operands: seq![
                OpV::Ssa(step_name(10, sfx)),
                OpV::Label(crate::ir::spec_abort()),
                OpV::Label(cont),
            ],
            width: None,
            ty: Seq::empty(),
            text: Seq::empty(),
        },
    ]
}

/// The check sequence ends in its only terminator.
pub proof fn lemma_check_seq_shape(sfx: Seq<u8>, a: OpV, w: u64, cont: Seq<u8>)
    ensures
        check_seq(sfx, a, w, cont).len() == 12,
        crate::ir::is_terminator(check_seq(sfx, a, w, cont).last()),
        forall|k: int|
            0 <= k < 11 ==> !crate::ir::is_terminator(#[trigger] check_seq(sfx, a, w, cont)[k]),
        forall|k: int|
            0 <= k < 12 ==> (#[trigger] check_seq(sfx, a, w, cont)[k]).opcode != Opcode::Call,
        forall|k: int|
            0 <= k < 12 ==> (#[trigger] check_seq(sfx, a, w, cont)[k]).opcode != Opcode::Phi,
{
}

/// Builds a step instruction.
fn mk_step(opcode: Opcode, dest: Vec<u8>, operands: Vec<Operand>) -> (r: Instruction)
    ensures
        r@ == step_instr(opcode, dest@, operands@.map_values(|o: Operand| o@)),
{
    let r = Instruction { opcode, dest: Some(dest), operands, width: None, ty: Vec::new(), text: Vec::new() };
    proof {
        assert(r@ =~= step_instr(r.opcode, r@.dest->Some_0, r@.operands));
    }
    r
}

/// Emits the check sequence for an access through `a` of width `w` onto
/// the end of `acc`: the instructions of [`check_seq`] for the block
/// named `sfx`, branching to the abort block or to the block named
/// `cont`.
pub fn build_check(acc: &mut Vec<Instruction>, sfx: &Vec<u8>, a: &Operand, w: u64, cont: &Vec<u8>)
    ensures
        crate::ir::instrs_view(final(acc)@) == crate::ir::instrs_view(old(acc)@) + check_seq(
            sfx@,
            a@,
            w,
            cont@,
        ),
{
    let ghost pre = crate::ir::instrs_view(acc@);
    let ghost goal = check_seq(sfx@, a@, w, cont@);
    // 1. pb <- load protected_ptr
    let ld_base = Instruction {
        opcode: Opcode::Load,
        dest: Some(step_name_bytes(0, sfx)),
        operands: vec![Operand::Global(crate::ir::name_protected_ptr())],
        width: Some(8),
        ty: Vec::new(),
        text: Vec::new(),
    };
    proof {
        assert(ld_base@ =~= goal[0]) by {
            assert(ld_base@.operands =~= goal[0].operands);
        }
    }
    acc.push(ld_base);
    // 2. is_null <- pb == null
    let mut ops: Vec<Operand> = Vec::new();
    ops.push(Operand::Ssa(step_name_bytes(0, sfx)));
    ops.push(Operand::Null);
    let i2 = mk_step(Opcode::ICmpEq, step_name_bytes(1, sfx), ops);
    proof {
        assert(i2@ =~= goal[1]) by {
            assert(i2@.operands =~= goal[1].operands);
        }
    }
    acc.push(i2);
    // 3. below <- a < pb (signed)
    let mut ops: Vec<Operand> = Vec::new();
    ops.push(crate::ir::copy_operand(a));
    ops.push(Operand::Ssa(step_name_bytes(0, sfx)));
    let i3 = mk_step(Opcode::ICmpSlt, step_name_bytes(2, sfx), ops);
    proof {
        assert(i3@ =~= goal[2]) by {
            assert(i3@.operands =~= goal[2].operands);
        }
    }
    acc.push(i3);
    // 4. pl <- load protected_offset
    let ld_len = Instruction {
        opcode: Opcode::Load,
        dest: Some(step_name_bytes(3, sfx)),
        operands: vec![Operand::Global(crate::ir::name_protected_offset())],
        width: Some(8),
        ty: Vec::new(),
        text: Vec::new(),
    };
    proof {
        assert(ld_len@ =~= goal[3]) by {
            assert(ld_len@.operands =~= goal[3].operands);
        }
    }
    acc.push(ld_len);
    // 5. pb_i <- ptr_to_int pb
    let mut ops: Vec<Operand> = Vec::new();
    ops.push(Operand::Ssa(step_name_bytes(0, sfx)));
    let i5 = mk_step(Opcode::PtrToInt, step_name_bytes(4, sfx), ops);
    proof {
        assert(i5@ =~= goal[4]) by {
            assert(i5@.operands =~= goal[4].operands);
        }
    }
    acc.push(i5);
    // 6. last_p <- pb_i + pl
    let mut ops: Vec<Operand> = Vec::new();
    ops.push(Operand::Ssa(step_name_bytes(4, sfx)));
    ops.push(Operand::Ssa(step_name_bytes(3, sfx)));
    let i6 = mk_step(Opcode::Add, step_name_bytes(5, sfx), ops);
    proof {
        assert(i6@ =~= goal[5]) by {
            assert(i6@.operands =~= goal[5].operands);
        }
    }
    acc.push(i6);
    // 7. a_i <- ptr_to_int a
    let mut ops: Vec<Operand> = Vec::new();
    ops.push(crate::ir::copy_operand(a));
    let i7 = mk_step(Opcode::PtrToInt, step_name_bytes(6, sfx), ops);
    proof {
        assert(i7@ =~= goal[6]) by {
            assert(i7@.operands =~= goal[6].operands);
        }
    }
    acc.push(i7);
    // 8. last_a <- a_i + w
    let mut ops: Vec<Operand> = Vec::new();
    ops.push(Operand::Ssa(step_name_bytes(6, sfx)));
    ops.push(Operand::ConstInt(w));
    let i8 = mk_step(Opcode::Add, step_name_bytes(7, sfx), ops);
    proof {
        assert(i8@ =~= goal[7]) by {
            assert(i8@.operands =~= goal[7].operands);
        }
    }
    acc.push(i8);
    // 9. above <- last_a > last_p (signed)
    let mut ops: Vec<Operand> = Vec::new();
    ops.push(Operand::Ssa(step_name_bytes(7, sfx)));
    ops.push(Operand::Ssa(step_name_bytes(5, sfx)));
    let i9 = mk_step(Opcode::ICmpSgt, step_name_bytes(8, sfx), ops);
    proof {
        assert(i9@ =~= goal[8]) by {
            assert(i9@.operands =~= goal[8].operands);
        }
    }
    acc.push(i9);
    // 10. range_bad <- below || above
    let mut ops: Vec<Operand> = Vec::new();
    ops.push(Operand::Ssa(step_name_bytes(2, sfx)));
    ops.push(Operand::Ssa(step_name_bytes(8, sfx)));
    let i10 = mk_step(Opcode::Or, step_name_bytes(9, sfx), ops);
    proof {
        assert(i10@ =~= goal[9]) by {
            assert(i10@.operands =~= goal[9].operands);
        }
    }
    acc.push(i10);
    // 11. violated <- is_null || range_bad
    let mut ops: Vec<Operand> = Vec::new();
    ops.push(Operand::Ssa(step_name_bytes(1, sfx)));
    ops.push(Operand::Ssa(step_name_bytes(9, sfx)));
    let i11 = mk_step(Opcode::Or, step_name_bytes(10, sfx), ops);
    proof {
        assert(i11@ =~= goal[10]) by {
            assert(i11@.operands =~= goal[10].operands);
        }
    }
    acc.push(i11);
    // 12. br violated, abort, cont
    let mut ops: Vec<Operand> = Vec::new();
    ops.push(Operand::Ssa(step_name_bytes(10, sfx)));
    ops.push(Operand::Label(crate::ir::name_abort()));
    ops.push(Operand::Label(crate::bytes::copy_bytes(cont)));
    let br = Instruction {
        opcode: Opcode::Br,
        dest: None,
        operands: ops,
        width: None,
        ty: Vec::new(),
        text: Vec::new(),
    };
    proof {
        assert(br@ =~= goal[11]) by {
            assert(br@.operands =~= goal[11].operands);
        }
    }
    acc.push(br);
    proof {
        assert(crate::ir::instrs_view(acc@) =~= pre + goal);
    }
}

} // verus!
