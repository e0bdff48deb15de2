//! A simpler window-list variant of the static verifier.
//!
//! Instead of one shadow window overwritten by each `utx1`, this variant
//! keeps every window ever declared and accepts an access when any of
//! them covers it: the accessed pointer is literally a declared base and
//! the access width fits in that declaration's length.  It knows nothing
//! of `getelementptr` arithmetic.

use vstd::prelude::*;

use crate::IrError;
use crate::bytes::has_sub;
use crate::ir::{BlockV, FunV, InstrV, IrFunction, IrModule, ModuleV, Opcode, Operand, OpV};
use crate::static_checks::{access_ptr, utx1_shadow};

verus! {

/// The view of an executable window list.
pub open spec fn windows_view(s: Seq<(Operand, u64)>) -> Seq<(OpV, u64)> {
    s.map_values(|w: (Operand, u64)| (w.0@, w.1))
}

/// How one instruction changes the window list: a call whose printed
/// form names `utx1` and carries a pointer and a constant length adds a
/// window, everything else leaves the list alone.
pub open spec fn step_windows(ws: Seq<(OpV, u64)>, i: InstrV) -> Seq<(OpV, u64)> {
    if i.opcode == Opcode::Call && has_sub(i.text, crate::ir::spec_utx1()) {
        match utx1_shadow(i) {
            Some(w) => ws.push(w),
            None => ws,
        }
    } else {
        ws
    }
}

/// Whether some declared window covers an access through `ptr` of width
/// `w`: the pointer is literally that window's base and the width fits
/// in its length.
pub open spec fn windows_protect(ws: Seq<(OpV, u64)>, ptr: OpV, w: u64) -> bool {
    exists|j: int| 0 <= j < ws.len() && (#[trigger] ws[j]).0 == ptr && ws[j].1 >= w
}

/// Whether a load or store is covered by some declared window; an access
/// whose pointer or width cannot be read never is.
pub open spec fn sb_access_ok(ws: Seq<(OpV, u64)>, i: InstrV) -> bool {
    match (access_ptr(i), i.width) {
        (Some(p), Some(w)) => windows_protect(ws, p, w),
        _ => false,
    }
}

/// Whether every load and store of `is` from position `k` on is covered,
/// threading the window list through the calls.
pub open spec fn sb_instrs_safe(is: Seq<InstrV>, k: int, ws: Seq<(OpV, u64)>) -> bool
    decreases is.len() - k,
    when 0 <= k <= is.len()
{
    if k >= is.len() {
        true
    } else {
        (match is[k].opcode {
            Opcode::Load => sb_access_ok(ws, is[k]),
            Opcode::Store => sb_access_ok(ws, is[k]),
            _ => true,
        }) && sb_instrs_safe(is, k + 1, step_windows(ws, is[k]))
    }
}

/// The window list after the instructions of `is` from position `k` on.
pub open spec fn sb_windows_after(is: Seq<InstrV>, k: int, ws: Seq<(OpV, u64)>) -> Seq<(OpV, u64)>
    decreases is.len() - k,
    when 0 <= k <= is.len()
{
    if k >= is.len() {
        ws
    } else {
        sb_windows_after(is, k + 1, step_windows(ws, is[k]))
    }
}

/// Whether every load and store of the blocks from position `b` on is
/// covered by some declared window.
pub open spec fn sb_blocks_safe(bs: Seq<BlockV>, b: int, ws: Seq<(OpV, u64)>) -> bool
    decreases bs.len() - b,
    when 0 <= b <= bs.len()
{
    if b >= bs.len() {
        true
    } else {
        sb_instrs_safe(bs[b].instrs, 0, ws) && sb_blocks_safe(
            bs,
            b + 1,
            sb_windows_after(bs[b].instrs, 0, ws),
        )
    }
}

/// The verdict of the window-list verifier on a function: every load and
/// store is covered by some window a `utx1` call declared before it in
/// program order.
pub open spec fn verify_spec(f: FunV) -> bool {
    sb_blocks_safe(f.blocks, 0, Seq::empty())
}

/// Checks whether some declared window covers a pointer value: the
/// pointer is literally the window's base and the width fits in its
/// length.
pub fn _is_address_protected(
    protected_ptrs: &Vec<(Operand, u64)>,
    ptr: &Operand,
    size: u64,
) -> (r: bool)
    ensures
        r == windows_protect(windows_view(protected_ptrs@), ptr@, size),
{
    let mut j: usize = 0;
    while j < protected_ptrs.len()
        invariant
            j <= protected_ptrs@.len(),
            forall|i: int|
                0 <= i < j ==> !((#[trigger] windows_view(protected_ptrs@)[i]).0 == ptr@
                    && windows_view(protected_ptrs@)[i].1 >= size),
        decreases protected_ptrs@.len() - j,
    {
        let (p, n) = &protected_ptrs[j];
        proof {
            assert(windows_view(protected_ptrs@)[j as int] == (protected_ptrs@[j as int].0@, protected_ptrs@[j as int].1));
        }
        if crate::ir::operand_eq(p, ptr) && *n >= size {
            return true;
        }
        j += 1;
    }
    false
}

/// Statically verifies that every memory access of `function` is safe.
///
/// Sweeps the function in program order, collecting the window of every
/// `utx1` call whose length is constant, and returns `true` exactly when
/// every load and store is covered by some window declared before it.
pub fn verify(function: &IrFunction) -> (r: bool)
    ensures
        r == verify_spec(function@),
{
    let mut protected_ptrs: Vec<(Operand, u64)> = Vec::new();
    proof {
        assert(windows_view(protected_ptrs@) =~= Seq::<(OpV, u64)>::empty());
    }
    let utx1 = crate::ir::name_utx1();
    let mut b: usize = 0;
    while b < function.blocks.len()
        invariant
            utx1@ == crate::ir::spec_utx1(),
            b <= function@.blocks.len(),
            verify_spec(function@) == sb_blocks_safe(
                function@.blocks,
                b as int,
                windows_view(protected_ptrs@),
            ),
        decreases function@.blocks.len() - b,
    {
        let block = &function.blocks[b];
        let ghost ws0 = windows_view(protected_ptrs@);
        let mut k: usize = 0;
        while k < block.instrs.len()
            invariant
                utx1@ == crate::ir::spec_utx1(),
                k <= block@.instrs.len(),
                block@ == function@.blocks[b as int],
                b < function@.blocks.len(),
                sb_instrs_safe(block@.instrs, k as int, windows_view(protected_ptrs@))
                    == sb_instrs_safe(block@.instrs, 0, ws0),
                sb_windows_after(block@.instrs, k as int, windows_view(protected_ptrs@))
                    == sb_windows_after(block@.instrs, 0, ws0),
                verify_spec(function@) == sb_blocks_safe(function@.blocks, b as int, ws0),
            decreases block@.instrs.len() - k,
        {
            let instr = &block.instrs[k];
            let safe = match instr.opcode {
                Opcode::Load => {
                    let w = match crate::navigator::get_alignment(instr) {
                        Ok(w) => w,
                        Err(_) => {
                            return false;
                        },
                    };
                    let p = match crate::navigator::operand_as_pointer(instr, 0) {
                        Ok(p) => p,
                        Err(_) => {
                            return false;
                        },
                    };
                    _is_address_protected(&protected_ptrs, p, w)
                },
                Opcode::Store => {
                    let w = match crate::navigator::get_alignment(instr) {
                        Ok(w) => w,
                        Err(_) => {
                            return false;
                        },
                    };
                    let p = match crate::navigator::operand_as_pointer(instr, 1) {
                        Ok(p) => p,
                        Err(_) => {
                            return false;
                        },
                    };
                    _is_address_protected(&protected_ptrs, p, w)
                },
                _ => true,
            };
            if !safe {
                return false;
            }
            if matches!(instr.opcode, Opcode::Call) && crate::bytes::contains_sub(
                &instr.text,
                &utx1,
            ) {
                if instr.operands.len() >= 2 {
                    let is_ptr = match crate::navigator::operand_as_pointer(instr, 0) {
                        Ok(_) => true,
                        Err(_) => false,
                    };
                    if is_ptr {
                        match &instr.operands[1] {
                            Operand::ConstInt(n) => {
                                let p = crate::ir::copy_operand(&instr.operands[0]);
                                let nn = *n;
                                let ghost wpre = windows_view(protected_ptrs@);
                                protected_ptrs.push((p, nn));
                                proof {
                                    assert(windows_view(protected_ptrs@) =~= wpre.push(
                                        (instr@.operands[0], nn),
                                    ));
                                }
                            },
                            _ => (),
                        }
                    }
                }
            }
            k += 1;
        }
        b += 1;
    }
    true
}

/// Removes every call naming `callee_name` from the body of the function
/// named `caller_name`; fails with [`IrError::MissingFunction`], leaving
/// the module unchanged, when there is no such function.
pub fn remove_function_call(
    module: &mut IrModule,
    caller_name: &Vec<u8>,
    callee_name: &Vec<u8>,
) -> (r: Result<(), IrError>)
    ensures
        match r {
            Ok(()) => exists|fi: int|
                0 <= fi < old(module)@.functions.len() && (#[trigger] old(
                    module,
                )@.functions[fi]).name == caller_name@ && (forall|j: int|
                    0 <= j < fi ==> (#[trigger] old(module)@.functions[j]).name != caller_name@)
                    && final(module)@ == (ModuleV {
                    functions: old(module)@.functions.update(
                        fi,
                        crate::static_checks::elide_fun(old(module)@.functions[fi], callee_name@),
                    ),
                    ..old(module)@
                }),
            Err(e) => e == IrError::MissingFunction && !crate::ir::has_function(
                old(module)@,
                caller_name@,
            ) && final(module)@ == old(module)@,
        },
{
    crate::static_checks::remove_function_call(module, caller_name, callee_name)
}

} // verus!
