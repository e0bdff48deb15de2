//! The instrumentation pass.
//!
//! [`instrument`] rewrites one function of a module so that every load
//! and store is guarded by a bounds check against the protected window:
//!
//! - every pre-existing block is renamed `bb0, bb1, …` and every stack
//!   slot `stack_0, stack_1, …`;
//! - the globals `protected_ptr` (null) and `protected_offset` (zero) and
//!   a declaration of the external `abort` are installed, and an abort
//!   block — `call abort()` then `unreachable` — is appended;
//! - each `utx1(p, n)` call is replaced by stores of `p` and `n` into the
//!   globals, each `utx0()` call is erased;
//! - each load and store whose pointer is not a named stack slot, and
//!   which the static pre-pass cannot prove in bounds, is split off into
//!   a fresh block entered through the check of [`crate::checks`];
//! - phi entries naming a split block are retargeted to the last block
//!   split off from it.

use vstd::prelude::*;

use crate::IrError;
use crate::bytes::{dec_digits, has_sub};
use crate::ir::{
    Block, BlockV, FunV, GlobalInit, GlobalVar, Instruction, InstrV, IrFunction, IrModule,
    ModuleV, Opcode, Operand, OpV,
};

verus! {

broadcast use crate::ir::lemma_instrs_view_push, crate::ir::lemma_blocks_view_push;

/// The name of the `i`-th renamed block: `bb` and the decimal of `i`.
pub open spec fn spec_bb_name(i: nat) -> Seq<u8> {
    crate::ir::spec_bb() + dec_digits(i)
}

/// Builds the name of the `i`-th renamed block.
pub fn bb_name(i: u64) -> (r: Vec<u8>)
    ensures
        r@ == spec_bb_name(i as nat),
{
    let mut r = crate::ir::name_bb();
    let d = crate::bytes::u64_to_dec(i);
    crate::bytes::append_bytes(&mut r, &d);
    r
}

/// The name of the `k`-th renamed stack slot: `stack_` and the decimal
/// of `k`.
pub open spec fn spec_stack_name(k: nat) -> Seq<u8> {
    crate::ir::spec_stack_prefix() + dec_digits(k)
}

/// Builds the name of the `k`-th renamed stack slot.
pub fn stack_name(k: u64) -> (r: Vec<u8>)
    ensures
        r@ == spec_stack_name(k as nat),
{
    let mut r = crate::ir::name_stack_prefix();
    let d = crate::bytes::u64_to_dec(k);
    crate::bytes::append_bytes(&mut r, &d);
    r
}

/// The name of the block split off before the `k`-th guarded load or
/// store: `load` or `store` and the decimal of `k`.
pub open spec fn spec_split_name(is_load: bool, k: nat) -> Seq<u8> {
    (if is_load {
        crate::ir::spec_load()
    } else {
        crate::ir::spec_store()
    }) + dec_digits(k)
}

/// Builds the name of the `k`-th split block.
pub fn split_name(is_load: bool, k: u64) -> (r: Vec<u8>)
    ensures
        r@ == spec_split_name(is_load, k as nat),
{
    let mut r = if is_load {
        crate::ir::name_load()
    } else {
        crate::ir::name_store()
    };
    let d = crate::bytes::u64_to_dec(k);
    crate::bytes::append_bytes(&mut r, &d);
    r
}

/// A name the rewriting pass hands out: a renamed block, or a split
/// block of either kind.
pub open spec fn pass_name_any(n: Seq<u8>) -> bool {
    ||| exists|j: int| 0 <= j && n == #[trigger] spec_bb_name(j as nat)
    ||| exists|j: int| 0 <= j && n == #[trigger] spec_split_name(true, j as nat)
    ||| exists|j: int| 0 <= j && n == #[trigger] spec_split_name(false, j as nat)
}

/// A name the pass has handed out so far, each kind bounded by its
/// counter: a renamed block below `d`, a load split below `lc`, a store
/// split below `sc`.
pub open spec fn pass_name(n: Seq<u8>, d: int, lc: int, sc: int) -> bool {
    ||| exists|j: int| 0 <= j < d && n == #[trigger] spec_bb_name(j as nat)
    ||| exists|j: int| 0 <= j < lc && n == #[trigger] spec_split_name(true, j as nat)
    ||| exists|j: int| 0 <= j < sc && n == #[trigger] spec_split_name(false, j as nat)
}

/// The names the pass hands out are pairwise distinct across kinds and
/// counters, and none is the abort block's name.
pub proof fn lemma_pass_name_facts(i: nat, j: nat)
    ensures
        spec_bb_name(i) == spec_bb_name(j) ==> i == j,
        spec_split_name(true, i) == spec_split_name(true, j) ==> i == j,
        spec_split_name(false, i) == spec_split_name(false, j) ==> i == j,
        spec_bb_name(i) != spec_split_name(true, j),
        spec_bb_name(i) != spec_split_name(false, j),
        spec_split_name(true, i) != spec_split_name(false, j),
        spec_bb_name(i) != crate::ir::spec_abort(),
        spec_split_name(true, i) != crate::ir::spec_abort(),
        spec_split_name(false, i) != crate::ir::spec_abort(),
{
    crate::bytes::lemma_dec_digits_injective(i, j);
    if spec_bb_name(i) == spec_bb_name(j) {
        assert(dec_digits(i) =~= spec_bb_name(i).subrange(2, spec_bb_name(i).len() as int));
        assert(dec_digits(j) =~= spec_bb_name(j).subrange(2, spec_bb_name(j).len() as int));
    }
    if spec_split_name(true, i) == spec_split_name(true, j) {
        assert(dec_digits(i) =~= spec_split_name(true, i).subrange(
            4,
            spec_split_name(true, i).len() as int,
        ));
        assert(dec_digits(j) =~= spec_split_name(true, j).subrange(
            4,
            spec_split_name(true, j).len() as int,
        ));
    }
    if spec_split_name(false, i) == spec_split_name(false, j) {
        assert(dec_digits(i) =~= spec_split_name(false, i).subrange(
            5,
            spec_split_name(false, i).len() as int,
        ));
        assert(dec_digits(j) =~= spec_split_name(false, j).subrange(
            5,
            spec_split_name(false, j).len() as int,
        ));
    }
    // The kinds differ in their first byte: `b`, `l`, `s`, `a`.
    assert(spec_bb_name(i)[0] == 98);
    assert(spec_bb_name(j)[0] == 98);
    assert(spec_split_name(true, i)[0] == 108);
    assert(spec_split_name(true, j)[0] == 108);
    assert(spec_split_name(false, i)[0] == 115);
    assert(spec_split_name(false, j)[0] == 115);
    assert(crate::ir::spec_abort()[0] == 97);
}

/// A name of a block split off before a guarded access, of either kind.
pub open spec fn is_split_name(n: Seq<u8>) -> bool {
    ||| exists|j: int| 0 <= j && n == #[trigger] spec_split_name(true, j as nat)
    ||| exists|j: int| 0 <= j && n == #[trigger] spec_split_name(false, j as nat)
}

/// Whether the block `(name, instrs)` is entered through its own bounds
/// check: it starts with a load or store whose pointer and width can be
/// read, and `prev` — its one predecessor — ends with exactly the check
/// sequence for that pointer and width, branching to the abort block or
/// to this block.
pub open spec fn guarded_by_check(prev: BlockV, name: Seq<u8>, instrs: Seq<InstrV>) -> bool {
    &&& instrs.len() >= 1
    &&& (instrs[0].opcode == Opcode::Load || instrs[0].opcode == Opcode::Store)
    &&& crate::static_checks::access_ptr(instrs[0]) is Some
    &&& instrs[0].width is Some
    &&& prev.instrs.len() >= 12
    &&& prev.instrs.skip(prev.instrs.len() - 12) == crate::checks::check_seq(
        name,
        crate::static_checks::access_ptr(instrs[0])->Some_0,
        instrs[0].width->Some_0,
        name,
    )
}

/// A handed-out name stays one under larger counter bounds.
proof fn lemma_pass_name_mono(n: Seq<u8>, d: int, lc: int, sc: int, d2: int, lc2: int, sc2: int)
    requires
        pass_name(n, d, lc, sc),
        d <= d2,
        lc <= lc2,
        sc <= sc2,
    ensures
        pass_name(n, d2, lc2, sc2),
        pass_name_any(n),
{
}

/// A name handed out under the given bounds is neither the next name of
/// any kind nor the abort block's.
proof fn lemma_pass_name_fresh(n: Seq<u8>, d: int, lc: int, sc: int)
    requires
        pass_name(n, d, lc, sc),
        0 <= d,
        0 <= lc,
        0 <= sc,
    ensures
        n != spec_bb_name(d as nat),
        n != spec_split_name(true, lc as nat),
        n != spec_split_name(false, sc as nat),
        n != crate::ir::spec_abort(),
{
    if exists|j: int| 0 <= j < d && n == #[trigger] spec_bb_name(j as nat) {
        let j = choose|j: int| 0 <= j < d && n == #[trigger] spec_bb_name(j as nat);
        lemma_pass_name_facts(j as nat, d as nat);
        lemma_pass_name_facts(j as nat, lc as nat);
        lemma_pass_name_facts(j as nat, sc as nat);
    } else if exists|j: int| 0 <= j < lc && n == #[trigger] spec_split_name(true, j as nat) {
        let j = choose|j: int| 0 <= j < lc && n == #[trigger] spec_split_name(true, j as nat);
        lemma_pass_name_facts(j as nat, lc as nat);
        lemma_pass_name_facts(d as nat, j as nat);
        lemma_pass_name_facts(j as nat, sc as nat);
    } else {
        let j = choose|j: int| 0 <= j < sc && n == #[trigger] spec_split_name(false, j as nat);
        lemma_pass_name_facts(j as nat, sc as nat);
        lemma_pass_name_facts(d as nat, j as nat);
        lemma_pass_name_facts(lc as nat, j as nat);
    }
}

/// The position of the first name of `names` equal to `n`, or the length
/// when none is.
pub fn find_name(names: &Vec<Vec<u8>>, n: &Vec<u8>) -> (r: usize)
    ensures
        r <= names@.len(),
        r < names@.len() ==> names@[r as int]@ == n@,
        forall|j: int| 0 <= j < r ==> (#[trigger] names@[j])@ != n@,
{
    let mut i: usize = 0;
    while i < names.len()
        invariant
            i <= names@.len(),
            forall|j: int| 0 <= j < i ==> (#[trigger] names@[j])@ != n@,
        decreases names@.len() - i,
    {
        if crate::bytes::eq_bytes(&names[i], n) {
            return i;
        }
        i += 1;
    }
    i
}

/// Structural agreement between two functions: the same name, the same
/// number of blocks, block for block the same number of instructions,
/// instruction for instruction the same opcode.  Both rename passes
/// change nothing beyond names, labels and phi texts, so they promise
/// this much; it is what preserves block well-formedness.
pub open spec fn same_shape(a: FunV, b: FunV) -> bool {
    &&& a.name == b.name
    &&& a.blocks.len() == b.blocks.len()
    &&& forall|bi: int|
        0 <= bi < a.blocks.len() ==> (#[trigger] a.blocks[bi]).instrs.len()
            == b.blocks[bi].instrs.len()
    &&& forall|bi: int, k: int|
        0 <= bi < a.blocks.len() && 0 <= k < a.blocks[bi].instrs.len() ==> (#[trigger] a.blocks[bi].instrs[k]).opcode == b.blocks[bi].instrs[k].opcode
}

/// A function whose shape is preserved keeps its blocks well formed.
pub proof fn lemma_same_shape_wf(a: FunV, b: FunV)
    requires
        same_shape(a, b),
        forall|bi: int| 0 <= bi < a.blocks.len() ==> crate::ir::wf_block(#[trigger] a.blocks[bi]),
    ensures
        forall|bi: int| 0 <= bi < b.blocks.len() ==> crate::ir::wf_block(#[trigger] b.blocks[bi]),
{
    assert forall|bi: int| 0 <= bi < b.blocks.len() implies crate::ir::wf_block(
        #[trigger] b.blocks[bi],
    ) by {
        assert(crate::ir::wf_block(a.blocks[bi]));
        let n = a.blocks[bi].instrs.len() as int;
        assert(b.blocks[bi].instrs.last().opcode == a.blocks[bi].instrs[n - 1].opcode);
        assert forall|k: int| 0 <= k < n - 1 implies !crate::ir::is_terminator(
            #[trigger] b.blocks[bi].instrs[k],
        ) by {
            assert(a.blocks[bi].instrs[k].opcode == b.blocks[bi].instrs[k].opcode);
            assert(!crate::ir::is_terminator(a.blocks[bi].instrs[k]));
        }
    }
}

/// The position of the first name of `names` at or after `i` equal to
/// `n`, or the length of `names` when none is.
pub open spec fn name_idx(names: Seq<Seq<u8>>, n: Seq<u8>, i: int) -> int
    decreases names.len() - i,
    when 0 <= i <= names.len()
{
    if i >= names.len() {
        i
    } else if names[i] == n {
        i
    } else {
        name_idx(names, n, i + 1)
    }
}

/// What the block renaming maps a predecessor name to: `bbj` when `n`
/// is the `j`-th old block name, `n` itself when it names no block.
pub open spec fn map_block_name(names: Seq<Seq<u8>>, n: Seq<u8>) -> Seq<u8> {
    if name_idx(names, n, 0) < names.len() {
        spec_bb_name(name_idx(names, n, 0) as nat)
    } else {
        n
    }
}

/// A label operand follows the block renaming; every other operand is
/// untouched.
pub open spec fn map_label_operand(names: Seq<Seq<u8>>, o: OpV) -> OpV {
    match o {
        OpV::Label(nm) => OpV::Label(map_block_name(names, nm)),
        other => other,
    }
}

/// The views of a list of names.
pub open spec fn names_view(s: Seq<Vec<u8>>) -> Seq<Seq<u8>> {
    s.map_values(|v: Vec<u8>| v@)
}

/// The names of a function's blocks, in order.
pub open spec fn block_names(f: FunV) -> Seq<Seq<u8>> {
    f.blocks.map_values(|b: BlockV| b.name)
}

/// Whether the block renaming can rebuild this instruction: any
/// non-phi, or a phi whose printed form shows exactly one entry per
/// operand and which names a destination.
pub open spec fn phi_renameable(i: InstrV) -> bool {
    i.opcode == Opcode::Phi ==> crate::navigator::phi_labels_from(i.text, 0).len()
        == i.operands.len() && i.dest is Some
}

/// One renamed instruction: every label operand follows the renaming; a
/// phi's predecessor labels follow it too and its printed form is
/// rebuilt from the mapped entries.  Opcode, destination, width, type
/// token, and — for non-phis — the printed form are untouched.
pub open spec fn rename_instr_spec(names: Seq<Seq<u8>>, i: InstrV) -> InstrV {
    let ops = i.operands.map_values(|o: OpV| map_label_operand(names, o));
    if i.opcode == Opcode::Phi {
        let labels = crate::navigator::phi_labels_from(i.text, 0);
        let entries = Seq::new(
            labels.len(),
            |k: int| (ops[k], map_block_name(names, labels[k])),
        );
        InstrV {
            operands: ops,
            text: crate::navigator::render_phi_text(i.dest->Some_0, i.ty, entries),
            ..i
        }
    } else {
        InstrV { operands: ops, ..i }
    }
}

/// The first match the name search finds is the first-index spec.
proof fn lemma_name_idx_of(names: Seq<Seq<u8>>, n: Seq<u8>, r: int, i: int)
    requires
        0 <= i <= r <= names.len(),
        forall|j: int| i <= j < r ==> names[j] != n,
        r < names.len() ==> names[r] == n,
    ensures
        name_idx(names, n, i) == r,
    decreases r - i,
{
    if i < r {
        lemma_name_idx_of(names, n, r, i + 1);
    }
}

/// Renames every block of `f` to `bb0, bb1, …` in order: each block's
/// instructions become exactly [`rename_instr_spec`] of the old ones —
/// label operands and phi predecessor labels follow the renaming, phi
/// printed forms are rebuilt, everything else is untouched.  Fails with
/// [`IrError::MalformedIr`] exactly when some phi's printed form does
/// not show one entry per operand or names no destination.
pub fn rename_blocks(f: &mut IrFunction) -> (r: Result<(), IrError>)
    ensures
        r is Err ==> r->Err_0 == IrError::MalformedIr,
        r is Ok <==> forall|bi: int, k: int|
            0 <= bi < old(f)@.blocks.len() && 0 <= k < old(f)@.blocks[bi].instrs.len()
                ==> phi_renameable(#[trigger] old(f)@.blocks[bi].instrs[k]),
        r is Ok ==> same_shape(old(f)@, final(f)@) && final(f)@.blocks.len() == old(
            f,
        )@.blocks.len() && forall|bi: int|
            0 <= bi < final(f)@.blocks.len() ==> (#[trigger] final(f)@.blocks[bi]).name
                == spec_bb_name(bi as nat) && final(f)@.blocks[bi].instrs == old(
                f,
            )@.blocks[bi].instrs.map_values(
                |i: InstrV| rename_instr_spec(block_names(old(f)@), i),
            ),
{
    let ghost f0 = f@;
    let ghost nv = block_names(f0);
    // Collect the old names, in block order.
    let mut old_names: Vec<Vec<u8>> = Vec::new();
    let mut bi: usize = 0;
    while bi < f.blocks.len()
        invariant
            bi <= f@.blocks.len(),
            f@ == f0,
            old_names@.len() == bi,
            forall|j: int| 0 <= j < bi ==> (#[trigger] old_names@[j])@ == f0.blocks[j].name,
        decreases f@.blocks.len() - bi,
    {
        let n = crate::bytes::copy_bytes(&f.blocks[bi].name);
        old_names.push(n);
        bi += 1;
    }
    proof {
        assert(names_view(old_names@) =~= nv) by {
            assert forall|j: int| 0 <= j < f0.blocks.len() implies #[trigger] names_view(
                old_names@,
            )[j] == nv[j] by {
                assert(names_view(old_names@)[j] == old_names@[j]@);
                assert(nv[j] == f0.blocks[j].name);
            }
        }
    }
    // Rebuild each block under its new name.
    let mut out: Vec<Block> = Vec::new();
    while f.blocks.len() > 0
        invariant
            old_names@.len() == f0.blocks.len(),
            names_view(old_names@) == nv,
            nv == block_names(f0),
            f@.name == f0.name,
            out@.len() + f.blocks@.len() == f0.blocks.len(),
            crate::ir::blocks_view(f.blocks@) =~= f0.blocks.skip(out@.len() as int),
            forall|bi: int|
                0 <= bi < out@.len() ==> (#[trigger] out@[bi]@).name == spec_bb_name(bi as nat),
            forall|bi: int|
                0 <= bi < out@.len() ==> (#[trigger] out@[bi]@).instrs
                    == f0.blocks[bi].instrs.map_values(|i: InstrV| rename_instr_spec(nv, i)),
            forall|bi: int, k: int|
                0 <= bi < out@.len() && 0 <= k < f0.blocks[bi].instrs.len() ==> phi_renameable(
                    #[trigger] f0.blocks[bi].instrs[k],
                ),
        decreases f.blocks@.len(),
    {
        let done_x = out.len();
        let ghost done = done_x as int;
        proof {
            crate::ir::lemma_blocks_view_remove_front(f.blocks@, f0.blocks, done);
        }
        let mut b: Block = f.blocks.remove(0);
        let ghost b0 = b@;
        b.name = bb_name(done_x as u64);
        // Rewrite the instructions: label operands everywhere, the
        // printed form of each phi.
        let mut new_instrs: Vec<Instruction> = Vec::new();
        let ghost mut consumed: int = 0;
        while b.instrs.len() > 0
            invariant
                old_names@.len() == f0.blocks.len(),
                names_view(old_names@) == nv,
                b@.name == spec_bb_name(done as nat),
                0 <= consumed <= b0.instrs.len(),
                consumed == b0.instrs.len() - b.instrs@.len(),
                crate::ir::instrs_view(b.instrs@) =~= b0.instrs.skip(consumed),
                new_instrs@.len() == consumed,
                forall|k: int|
                    0 <= k < consumed ==> (#[trigger] new_instrs@[k]@) == rename_instr_spec(
                        nv,
                        b0.instrs[k],
                    ),
                forall|k: int|
                    0 <= k < consumed ==> phi_renameable(#[trigger] b0.instrs[k]),
            decreases b.instrs@.len(),
        {
            proof {
                crate::ir::lemma_instrs_view_remove_front(b.instrs@, b0.instrs, consumed);
            }
            let ins: Instruction = b.instrs.remove(0);
            let ghost insv = ins@;
            let renamed = match rename_instr_labels(ins, &old_names) {
                Ok(renamed) => renamed,
                Err(e) => {
                    proof {
                        assert(insv == f0.blocks[done].instrs[consumed]);
                        assert(!phi_renameable(f0.blocks[done].instrs[consumed]));
                    }
                    return Err(e);
                },
            };
            new_instrs.push(renamed);
            proof {
                consumed = consumed + 1;
            }
        }
        b.instrs = new_instrs;
        proof {
            assert(b@.instrs =~= f0.blocks[done].instrs.map_values(
                |i: InstrV| rename_instr_spec(nv, i),
            )) by {
                assert forall|k: int| 0 <= k < b0.instrs.len() implies #[trigger] b@.instrs[k]
                    == f0.blocks[done].instrs.map_values(|i: InstrV| rename_instr_spec(nv, i))[k]
                by {
                    assert(b@.instrs[k] == new_instrs@[k]@);
                    assert(f0.blocks[done].instrs.map_values(
                        |i: InstrV| rename_instr_spec(nv, i),
                    )[k] == rename_instr_spec(nv, f0.blocks[done].instrs[k]));
                }
            }
        }
        out.push(b);
    }
    f.blocks = out;
    proof {
        assert forall|bi: int, k: int|
            0 <= bi < f0.blocks.len() && 0 <= k < f0.blocks[bi].instrs.len() implies phi_renameable(
            #[trigger] f0.blocks[bi].instrs[k],
        ) by {}
        assert forall|bi: int| 0 <= bi < f@.blocks.len() implies (#[trigger] f@.blocks[bi]).name
            == spec_bb_name(bi as nat) && f@.blocks[bi].instrs == f0.blocks[bi].instrs.map_values(
            |i: InstrV| rename_instr_spec(nv, i),
        ) by {
            assert(f@.blocks[bi] == f.blocks@[bi]@);
        }
        assert(same_shape(f0, f@)) by {
            assert forall|bi: int, k: int|
                0 <= bi < f0.blocks.len() && 0 <= k < f0.blocks[bi].instrs.len() implies (
            #[trigger] f0.blocks[bi].instrs[k]).opcode == f@.blocks[bi].instrs[k].opcode by {
                assert(f@.blocks[bi].instrs[k] == rename_instr_spec(nv, f0.blocks[bi].instrs[k]));
            }
        }
    }
    Ok(())
}

/// One instruction of [`rename_blocks`]: returns exactly
/// [`rename_instr_spec`] of the input, or fails with
/// [`IrError::MalformedIr`] exactly when the input is a phi whose
/// printed form does not show one entry per operand or which names no
/// destination.
fn rename_instr_labels(ins: Instruction, old_names: &Vec<Vec<u8>>) -> (r: Result<
    Instruction,
    IrError,
>)
    ensures
        r is Err ==> r->Err_0 == IrError::MalformedIr,
        r is Ok <==> phi_renameable(ins@),
        r is Ok ==> r->Ok_0@ == rename_instr_spec(names_view(old_names@), ins@),
{
    let ghost i0 = ins@;
    let ghost nv = names_view(old_names@);
    let ghost mapped_ops = i0.operands.map_values(|o: OpV| map_label_operand(nv, o));
    let mut ins = ins;
    // Label operands: point them at the renamed blocks.
    let ghost ops0 = i0.operands;
    let mut new_ops: Vec<Operand> = Vec::new();
    let ghost mut oc: int = 0;
    while ins.operands.len() > 0
        invariant
            ins@.opcode == i0.opcode,
            ins@.text == i0.text,
            ins@.dest == i0.dest,
            ins@.ty == i0.ty,
            ins@.width == i0.width,
            nv == names_view(old_names@),
            mapped_ops == ops0.map_values(|o: OpV| map_label_operand(nv, o)),
            0 <= oc <= ops0.len(),
            oc == ops0.len() - ins.operands@.len(),
            crate::ir::ops_view(ins.operands@) =~= ops0.skip(oc),
            crate::ir::ops_view(new_ops@) =~= mapped_ops.subrange(0, oc),
        decreases ins.operands@.len(),
    {
        proof {
            crate::ir::lemma_ops_view_remove_front(ins.operands@, ops0, oc);
        }
        let o = ins.operands.remove(0);
        let ghost ov = o@;
        let mapped = match o {
            Operand::Label(n) => {
                let j = find_name(old_names, &n);
                proof {
                    assert forall|jj: int| 0 <= jj < j implies nv[jj] != n@ by {
                        assert(nv[jj] == old_names@[jj]@);
                    }
                    if j < old_names@.len() {
                        assert(nv[j as int] == old_names@[j as int]@);
                    }
                    lemma_name_idx_of(nv, n@, j as int, 0);
                }
                if j < old_names.len() {
                    Operand::Label(bb_name(j as u64))
                } else {
                    Operand::Label(n)
                }
            },
            other => other,
        };
        proof {
            assert(mapped@ == map_label_operand(nv, ov));
            assert(mapped_ops[oc] == map_label_operand(nv, ov));
            assert(mapped_ops.subrange(0, oc).push(mapped@) =~= mapped_ops.subrange(0, oc + 1));
        }
        new_ops.push(mapped);
        proof {
            oc = oc + 1;
        }
    }
    ins.operands = new_ops;
    proof {
        assert(mapped_ops.subrange(0, mapped_ops.len() as int) =~= mapped_ops);
        assert(ins@.operands == mapped_ops);
    }
    if !matches!(ins.opcode, Opcode::Phi) {
        proof {
            assert(ins@ =~= rename_instr_spec(nv, i0));
        }
        return Ok(ins);
    }
    // A phi: map its predecessor labels and rebuild its printed form.
    let ghost labels = crate::navigator::phi_labels_from(i0.text, 0);
    let es = match crate::navigator::parse_phi_entries(&ins) {
        Ok(es) => es,
        Err(e) => {
            proof {
                assert(labels.len() > i0.operands.len());
                assert(!phi_renameable(i0));
            }
            return Err(e);
        },
    };
    let ghost evs = crate::navigator::phi_entry_views(ins@);
    if es.len() != ins.operands.len() {
        proof {
            assert(crate::navigator::entry_views(es@).len() == es@.len());
            assert(evs.len() == labels.len());
            assert(ins@.operands.len() == i0.operands.len());
            assert(!phi_renameable(i0));
        }
        return Err(IrError::MalformedIr);
    }
    let dest = match &ins.dest {
        Some(d) => crate::bytes::copy_bytes(d),
        None => {
            proof {
                assert(!phi_renameable(i0));
            }
            return Err(IrError::MalformedIr);
        },
    };
    let ghost target = Seq::new(
        labels.len(),
        |k: int| (mapped_ops[k], map_block_name(nv, labels[k])),
    );
    proof {
        assert(crate::navigator::entry_views(es@).len() == es@.len());
        assert(labels.len() == mapped_ops.len());
        assert(evs =~= Seq::new(labels.len(), |k: int| (mapped_ops[k], labels[k])));
    }
    let mut mapped: Vec<(Operand, Vec<u8>)> = Vec::new();
    let mut es = es;
    let ghost mut ec: int = 0;
    while es.len() > 0
        invariant
            ins@.opcode == i0.opcode,
            ins@.text == i0.text,
            ins@.dest == i0.dest,
            ins@.ty == i0.ty,
            ins@.width == i0.width,
            ins@.operands == mapped_ops,
            nv == names_view(old_names@),
            labels.len() == mapped_ops.len(),
            evs == Seq::new(labels.len(), |k: int| (mapped_ops[k], labels[k])),
            target == Seq::new(
                labels.len(),
                |k: int| (mapped_ops[k], map_block_name(nv, labels[k])),
            ),
            0 <= ec <= evs.len(),
            ec == evs.len() - es@.len(),
            crate::navigator::entry_views(es@) =~= evs.skip(ec),
            crate::navigator::entry_views(mapped@) =~= target.subrange(0, ec),
        decreases es@.len(),
    {
        let ghost epre = es@;
        let (v, l) = es.remove(0);
        proof {
            assert(crate::navigator::entry_views(epre)[0] == (epre[0].0@, epre[0].1@));
            assert((v@, l@) == evs[ec]);
            assert forall|m: int|
                #![trigger evs.skip(ec + 1)[m]]
                0 <= m < es@.len() implies crate::navigator::entry_views(es@)[m] == evs.skip(
                ec + 1,
            )[m] by {
                assert(es@[m] == epre[m + 1]);
                assert(crate::navigator::entry_views(epre)[m + 1] == (epre[m + 1].0@, epre[m
                    + 1].1@));
                assert(crate::navigator::entry_views(es@)[m] == (es@[m].0@, es@[m].1@));
                assert(crate::navigator::entry_views(epre)[m + 1] == evs.skip(ec)[m + 1]);
            }
            assert(crate::navigator::entry_views(es@) =~= evs.skip(ec + 1));
        }
        let j = find_name(old_names, &l);
        proof {
            assert forall|jj: int| 0 <= jj < j implies nv[jj] != l@ by {
                assert(nv[jj] == old_names@[jj]@);
            }
            if j < old_names@.len() {
                assert(nv[j as int] == old_names@[j as int]@);
            }
            lemma_name_idx_of(nv, l@, j as int, 0);
        }
        if j < old_names.len() {
            mapped.push((v, bb_name(j as u64)));
        } else {
            mapped.push((v, l));
        }
        proof {
            assert(target[ec] == (mapped_ops[ec], map_block_name(nv, labels[ec])));
            assert(crate::navigator::entry_views(mapped@) =~= target.subrange(0, ec + 1));
            ec = ec + 1;
        }
    }
    ins.text = crate::navigator::render_phi_bytes(&dest, &ins.ty, &mapped);
    proof {
        assert(crate::navigator::entry_views(mapped@) =~= target);
        assert(ins@.text == crate::navigator::render_phi_text(i0.dest->Some_0, i0.ty, target));
        assert(ins@ =~= rename_instr_spec(nv, i0));
    }
    Ok(ins)
}

/// Whether an instruction is an alloca that names its result.
pub open spec fn is_named_alloca(i: InstrV) -> bool {
    i.opcode == Opcode::Alloca && i.dest is Some
}

/// How many named allocas the first `k` instructions of `is` hold.
pub open spec fn acount_instrs(is: Seq<InstrV>, k: int) -> nat
    decreases k,
    when 0 <= k <= is.len()
{
    if k <= 0 {
        0
    } else {
        acount_instrs(is, k - 1) + (if is_named_alloca(is[k - 1]) {
            1nat
        } else {
            0nat
        })
    }
}

/// How many named allocas the first `bi` blocks of `bs` hold.
pub open spec fn acount_blocks(bs: Seq<BlockV>, bi: int) -> nat
    decreases bi,
    when 0 <= bi <= bs.len()
{
    if bi <= 0 {
        0
    } else {
        acount_blocks(bs, bi - 1) + acount_instrs(
            bs[bi - 1].instrs,
            bs[bi - 1].instrs.len() as int,
        )
    }
}

/// Longer prefixes hold at least as many named allocas.
proof fn lemma_acount_instrs_mono(is: Seq<InstrV>, k1: int, k2: int)
    requires
        0 <= k1 <= k2 <= is.len(),
    ensures
        acount_instrs(is, k1) <= acount_instrs(is, k2),
    decreases k2 - k1,
{
    if k1 < k2 {
        lemma_acount_instrs_mono(is, k1, k2 - 1);
    }
}

/// Longer block prefixes hold at least as many named allocas.
proof fn lemma_acount_blocks_mono(bs: Seq<BlockV>, b1: int, b2: int)
    requires
        0 <= b1 <= b2 <= bs.len(),
    ensures
        acount_blocks(bs, b1) <= acount_blocks(bs, b2),
    decreases b2 - b1,
{
    if b1 < b2 {
        lemma_acount_blocks_mono(bs, b1, b2 - 1);
    }
}

/// The rename pairs the first `k` instructions of `is` contribute with
/// the counter starting at `c`: each named alloca's destination paired
/// with the stack name its counter value gives.
pub open spec fn apairs_instrs(is: Seq<InstrV>, k: int, c: nat) -> Seq<(Seq<u8>, Seq<u8>)>
    decreases k,
    when 0 <= k <= is.len()
{
    if k <= 0 {
        Seq::empty()
    } else {
        let pre = apairs_instrs(is, k - 1, c);
        if is_named_alloca(is[k - 1]) {
            pre.push(
                (is[k - 1].dest->Some_0, spec_stack_name((c + acount_instrs(is, k - 1)) as nat)),
            )
        } else {
            pre
        }
    }
}

/// The rename pairs the first `bi` blocks of `bs` contribute.
pub open spec fn apairs_blocks(bs: Seq<BlockV>, bi: int) -> Seq<(Seq<u8>, Seq<u8>)>
    decreases bi,
    when 0 <= bi <= bs.len()
{
    if bi <= 0 {
        Seq::empty()
    } else {
        apairs_blocks(bs, bi - 1) + apairs_instrs(
            bs[bi - 1].instrs,
            bs[bi - 1].instrs.len() as int,
            acount_blocks(bs, bi - 1),
        )
    }
}

/// Every rename pair of the function: old alloca destinations to stack
/// names, in scan order.
pub open spec fn alloca_map(f: FunV) -> Seq<(Seq<u8>, Seq<u8>)> {
    apairs_blocks(f.blocks, f.blocks.len() as int)
}

/// The first stack-renaming pass on one instruction: the `c`-th named
/// alloca's destination becomes `stack_c`; everything else is untouched.
pub open spec fn alloca_dest_spec(i: InstrV, c: nat) -> InstrV {
    if is_named_alloca(i) {
        InstrV { dest: Some(spec_stack_name(c)), ..i }
    } else {
        i
    }
}

/// The second pass on one instruction: every SSA operand follows the
/// renames; everything else is untouched.
pub open spec fn alloca_ops_spec(i: InstrV, amap: Seq<(Seq<u8>, Seq<u8>)>) -> InstrV {
    InstrV {
        operands: i.operands.map_values(
            |o: OpV| match o {
                OpV::Ssa(n) => OpV::Ssa(chase_spec(amap, n, 0)),
                other => other,
            },
        ),
        ..i
    }
}

/// Both passes on one instruction.
pub open spec fn alloca_renamed_spec(i: InstrV, c: nat, amap: Seq<(Seq<u8>, Seq<u8>)>) -> InstrV {
    alloca_ops_spec(alloca_dest_spec(i, c), amap)
}

/// Counts the named allocas of the function; nothing when there are at
/// least `u64::MAX` of them.
fn count_named_allocas(f: &IrFunction) -> (r: Option<u64>)
    ensures
        match r {
            Some(c) => c as nat == acount_blocks(f@.blocks, f@.blocks.len() as int) && c
                < u64::MAX,
            None => acount_blocks(f@.blocks, f@.blocks.len() as int) >= u64::MAX,
        },
{
    let mut c: u64 = 0;
    let mut bi: usize = 0;
    while bi < f.blocks.len()
        invariant
            bi <= f@.blocks.len(),
            c as nat == acount_blocks(f@.blocks, bi as int),
            c < u64::MAX,
        decreases f@.blocks.len() - bi,
    {
        let b = &f.blocks[bi];
        let mut k: usize = 0;
        while k < b.instrs.len()
            invariant
                bi < f@.blocks.len(),
                b@ == f@.blocks[bi as int],
                k <= b@.instrs.len(),
                c as nat == acount_blocks(f@.blocks, bi as int) + acount_instrs(
                    b@.instrs,
                    k as int,
                ),
                c < u64::MAX,
            decreases b@.instrs.len() - k,
        {
            let i = &b.instrs[k];
            if matches!(i.opcode, Opcode::Alloca) && i.dest.is_some() {
                proof {
                    assert(is_named_alloca(b@.instrs[k as int]));
                }
                if c == u64::MAX - 1 {
                    proof {
                        lemma_acount_instrs_mono(b@.instrs, k + 1, b@.instrs.len() as int);
                        lemma_acount_blocks_mono(f@.blocks, bi + 1, f@.blocks.len() as int);
                    }
                    return None;
                }
                c += 1;
            } else {
                proof {
                    assert(!is_named_alloca(b@.instrs[k as int]));
                }
            }
            k += 1;
        }
        bi += 1;
    }
    Some(c)
}

/// Renames every stack slot of `f`: the destination of the `k`-th named
/// alloca, in scan order, becomes `stack_k`, and every SSA operand that
/// named an old destination follows the renames.  Each instruction of
/// the result is exactly [`alloca_renamed_spec`] of the old one.
pub fn rename_allocas(f: &mut IrFunction)
    requires
        acount_blocks(old(f)@.blocks, old(f)@.blocks.len() as int) < u64::MAX,
    ensures
        same_shape(old(f)@, final(f)@),
        final(f)@.blocks.len() == old(f)@.blocks.len(),
        forall|bi: int|
            0 <= bi < final(f)@.blocks.len() ==> (#[trigger] final(f)@.blocks[bi]).name == old(
                f,
            )@.blocks[bi].name,
        forall|bi: int, k: int|
            0 <= bi < final(f)@.blocks.len() && 0 <= k < final(f)@.blocks[bi].instrs.len() ==> (
            #[trigger] final(f)@.blocks[bi].instrs[k]) == alloca_renamed_spec(
                old(f)@.blocks[bi].instrs[k],
                (acount_blocks(old(f)@.blocks, bi) + acount_instrs(
                    old(f)@.blocks[bi].instrs,
                    k,
                )) as nat,
                alloca_map(old(f)@),
            ),
{
    let ghost f0 = f@;
    let ghost amap = alloca_map(f0);
    // First pass: rename each alloca's destination, collecting the map.
    let mut map: Vec<(Vec<u8>, Vec<u8>)> = Vec::new();
    let mut alloca_counter: u64 = 0;
    let mut out: Vec<Block> = Vec::new();
    while f.blocks.len() > 0
        invariant
            amap == alloca_map(f0),
            acount_blocks(f0.blocks, f0.blocks.len() as int) < u64::MAX,
            f@.name == f0.name,
            out@.len() + f.blocks@.len() == f0.blocks.len(),
            crate::ir::blocks_view(f.blocks@) =~= f0.blocks.skip(out@.len() as int),
            alloca_counter as nat == acount_blocks(f0.blocks, out@.len() as int),
            crate::static_checks::pairs_view(map@) =~= apairs_blocks(f0.blocks, out@.len() as int),
            forall|bi: int|
                0 <= bi < out@.len() ==> (#[trigger] out@[bi]@).name == f0.blocks[bi].name,
            forall|bi: int|
                0 <= bi < out@.len() ==> (#[trigger] out@[bi]@).instrs.len()
                    == f0.blocks[bi].instrs.len(),
            forall|bi: int, k: int|
                0 <= bi < out@.len() && 0 <= k < out@[bi]@.instrs.len() ==> (#[trigger] out@[bi]@.instrs[k]) == alloca_dest_spec(
                    f0.blocks[bi].instrs[k],
                    (acount_blocks(f0.blocks, bi) + acount_instrs(f0.blocks[bi].instrs, k)) as nat,
                ),
        decreases f.blocks@.len(),
    {
        let ghost done = out@.len() as int;
        proof {
            crate::ir::lemma_blocks_view_remove_front(f.blocks@, f0.blocks, done);
            lemma_acount_blocks_mono(f0.blocks, done + 1, f0.blocks.len() as int);
        }
        let mut b: Block = f.blocks.remove(0);
        let ghost b0 = b@;
        let ghost base = acount_blocks(f0.blocks, done);
        let mut new_instrs: Vec<Instruction> = Vec::new();
        let ghost mut consumed: int = 0;
        while b.instrs.len() > 0
            invariant
                b@.name == b0.name,
                b0 == f0.blocks[done],
                base == acount_blocks(f0.blocks, done),
                0 <= done < f0.blocks.len(),
                acount_blocks(f0.blocks, f0.blocks.len() as int) < u64::MAX,
                acount_blocks(f0.blocks, done + 1) == base + acount_instrs(
                    b0.instrs,
                    b0.instrs.len() as int,
                ),
                acount_blocks(f0.blocks, done + 1) <= acount_blocks(
                    f0.blocks,
                    f0.blocks.len() as int,
                ),
                0 <= consumed <= b0.instrs.len(),
                consumed == b0.instrs.len() - b.instrs@.len(),
                crate::ir::instrs_view(b.instrs@) =~= b0.instrs.skip(consumed),
                alloca_counter as nat == base + acount_instrs(b0.instrs, consumed),
                crate::static_checks::pairs_view(map@) =~= apairs_blocks(f0.blocks, done)
                    + apairs_instrs(b0.instrs, consumed, base),
                new_instrs@.len() == consumed,
                forall|k: int|
                    0 <= k < consumed ==> (#[trigger] new_instrs@[k]@) == alloca_dest_spec(
                        b0.instrs[k],
                        (base + acount_instrs(b0.instrs, k)) as nat,
                    ),
            decreases b.instrs@.len(),
        {
            proof {
                crate::ir::lemma_instrs_view_remove_front(b.instrs@, b0.instrs, consumed);
                lemma_acount_instrs_mono(b0.instrs, consumed + 1, b0.instrs.len() as int);
            }
            let mut ins: Instruction = b.instrs.remove(0);
            let ghost insv = ins@;
            if matches!(ins.opcode, Opcode::Alloca) {
                if let Some(d) = &ins.dest {
                    let new_name = stack_name(alloca_counter);
                    alloca_counter += 1;
                    let ghost mpre = crate::static_checks::pairs_view(map@);
                    map.push((crate::bytes::copy_bytes(d), crate::bytes::copy_bytes(&new_name)));
                    proof {
                        assert(crate::static_checks::pairs_view(map@) =~= mpre.push(
                            (
                                insv.dest->Some_0,
                                spec_stack_name((base + acount_instrs(b0.instrs, consumed)) as nat),
                            ),
                        ));
                    }
                    ins.dest = Some(new_name);
                }
            }
            new_instrs.push(ins);
            proof {
                consumed = consumed + 1;
            }
        }
        b.instrs = new_instrs;
        out.push(b);
    }
    f.blocks = out;
    proof {
        assert(crate::static_checks::pairs_view(map@) =~= amap);
    }
    // Second pass: follow the renames in every SSA operand.
    let ghost f1 = f@;
    let mut out: Vec<Block> = Vec::new();
    while f.blocks.len() > 0
        invariant
            crate::static_checks::pairs_view(map@) == amap,
            f@.name == f1.name,
            out@.len() + f.blocks@.len() == f1.blocks.len(),
            crate::ir::blocks_view(f.blocks@) =~= f1.blocks.skip(out@.len() as int),
            forall|bi: int|
                0 <= bi < out@.len() ==> (#[trigger] out@[bi]@).name == f1.blocks[bi].name,
            forall|bi: int|
                0 <= bi < out@.len() ==> (#[trigger] out@[bi]@).instrs.len()
                    == f1.blocks[bi].instrs.len(),
            forall|bi: int, k: int|
                0 <= bi < out@.len() && 0 <= k < out@[bi]@.instrs.len() ==> (#[trigger] out@[bi]@.instrs[k]) == alloca_ops_spec(f1.blocks[bi].instrs[k], amap),
        decreases f.blocks@.len(),
    {
        let ghost done = out@.len() as int;
        proof {
            crate::ir::lemma_blocks_view_remove_front(f.blocks@, f1.blocks, done);
        }
        let mut b: Block = f.blocks.remove(0);
        let ghost b0 = b@;
        let mut new_instrs: Vec<Instruction> = Vec::new();
        let ghost mut consumed: int = 0;
        while b.instrs.len() > 0
            invariant
                crate::static_checks::pairs_view(map@) == amap,
                b@.name == b0.name,
                0 <= consumed <= b0.instrs.len(),
                consumed == b0.instrs.len() - b.instrs@.len(),
                crate::ir::instrs_view(b.instrs@) =~= b0.instrs.skip(consumed),
                new_instrs@.len() == consumed,
                forall|k: int|
                    0 <= k < consumed ==> (#[trigger] new_instrs@[k]@) == alloca_ops_spec(
                        b0.instrs[k],
                        amap,
                    ),
            decreases b.instrs@.len(),
        {
            proof {
                crate::ir::lemma_instrs_view_remove_front(b.instrs@, b0.instrs, consumed);
            }
            let mut ins: Instruction = b.instrs.remove(0);
            let ghost i0 = ins@;
            let ghost ops0 = i0.operands;
            let ghost mapped_ops = ops0.map_values(
                |o: OpV| match o {
                    OpV::Ssa(n) => OpV::Ssa(chase_spec(amap, n, 0)),
                    other => other,
                },
            );
            let mut new_ops: Vec<Operand> = Vec::new();
            let ghost mut oc: int = 0;
            while ins.operands.len() > 0
                invariant
                    crate::static_checks::pairs_view(map@) == amap,
                    ins@.opcode == i0.opcode,
                    ins@.text == i0.text,
                    ins@.dest == i0.dest,
                    ins@.ty == i0.ty,
                    ins@.width == i0.width,
                    mapped_ops == ops0.map_values(
                        |o: OpV| match o {
                            OpV::Ssa(n) => OpV::Ssa(chase_spec(amap, n, 0)),
                            other => other,
                        },
                    ),
                    0 <= oc <= ops0.len(),
                    oc == ops0.len() - ins.operands@.len(),
                    crate::ir::ops_view(ins.operands@) =~= ops0.skip(oc),
                    crate::ir::ops_view(new_ops@) =~= mapped_ops.subrange(0, oc),
                decreases ins.operands@.len(),
            {
                proof {
                    crate::ir::lemma_ops_view_remove_front(ins.operands@, ops0, oc);
                }
                let o = ins.operands.remove(0);
                let ghost ov = o@;
                let mapped = match o {
                    Operand::Ssa(n) => Operand::Ssa(chase_renames(&map, n)),
                    other => other,
                };
                proof {
                    assert(mapped_ops[oc] == mapped@);
                    assert(mapped_ops.subrange(0, oc).push(mapped@) =~= mapped_ops.subrange(
                        0,
                        oc + 1,
                    ));
                }
                new_ops.push(mapped);
                proof {
                    oc = oc + 1;
                }
            }
            ins.operands = new_ops;
            proof {
                assert(mapped_ops.subrange(0, mapped_ops.len() as int) =~= mapped_ops);
                assert(ins@ =~= alloca_ops_spec(i0, amap));
            }
            new_instrs.push(ins);
            proof {
                consumed = consumed + 1;
            }
        }
        b.instrs = new_instrs;
        out.push(b);
    }
    f.blocks = out;
    proof {
        assert forall|bi: int, k: int|
            0 <= bi < f@.blocks.len() && 0 <= k < f@.blocks[bi].instrs.len() implies (
        #[trigger] f@.blocks[bi].instrs[k]) == alloca_renamed_spec(
            f0.blocks[bi].instrs[k],
            (acount_blocks(f0.blocks, bi) + acount_instrs(f0.blocks[bi].instrs, k)) as nat,
            amap,
        ) by {
            assert(f@.blocks[bi] == f.blocks@[bi]@);
            assert(f@.blocks[bi].instrs[k] == alloca_ops_spec(f1.blocks[bi].instrs[k], amap));
            assert(f1.blocks[bi].instrs[k] == alloca_dest_spec(
                f0.blocks[bi].instrs[k],
                (acount_blocks(f0.blocks, bi) + acount_instrs(f0.blocks[bi].instrs, k)) as nat,
            ));
        }
        assert(same_shape(f0, f@)) by {
            assert forall|bi: int, k: int|
                0 <= bi < f0.blocks.len() && 0 <= k < f0.blocks[bi].instrs.len() implies (
            #[trigger] f0.blocks[bi].instrs[k]).opcode == f@.blocks[bi].instrs[k].opcode by {}
        }
        assert forall|bi: int| 0 <= bi < f@.blocks.len() implies (#[trigger] f@.blocks[bi]).name
            == f0.blocks[bi].name by {
            assert(f@.blocks[bi].name == f1.blocks[bi].name);
        }
    }
}

/// How many instructions the first `bi` blocks of `bs` hold.
pub open spec fn icount_blocks(bs: Seq<BlockV>, bi: int) -> nat
    decreases bi,
    when 0 <= bi <= bs.len()
{
    if bi <= 0 {
        0
    } else {
        icount_blocks(bs, bi - 1) + bs[bi - 1].instrs.len()
    }
}

/// Longer block prefixes hold at least as many instructions.
proof fn lemma_icount_blocks_mono(bs: Seq<BlockV>, b1: int, b2: int)
    requires
        0 <= b1 <= b2 <= bs.len(),
    ensures
        icount_blocks(bs, b1) <= icount_blocks(bs, b2),
    decreases b2 - b1,
{
    if b1 < b2 {
        lemma_icount_blocks_mono(bs, b1, b2 - 1);
    }
}

/// Functions of the same shape hold the same number of instructions.
proof fn lemma_icount_blocks_eq(a: Seq<BlockV>, b: Seq<BlockV>, bi: int)
    requires
        a.len() == b.len(),
        0 <= bi <= a.len(),
        forall|i: int| 0 <= i < a.len() ==> (#[trigger] a[i]).instrs.len() == b[i].instrs.len(),
    ensures
        icount_blocks(a, bi) == icount_blocks(b, bi),
    decreases bi,
{
    if bi > 0 {
        lemma_icount_blocks_eq(a, b, bi - 1);
    }
}

/// Instruction lists that agree on which positions are named allocas
/// hold the same count of them.
proof fn lemma_acount_instrs_eq(a: Seq<InstrV>, b: Seq<InstrV>, k: int)
    requires
        a.len() == b.len(),
        0 <= k <= a.len(),
        forall|i: int| 0 <= i < a.len() ==> is_named_alloca(#[trigger] a[i]) == is_named_alloca(
            b[i],
        ),
    ensures
        acount_instrs(a, k) == acount_instrs(b, k),
    decreases k,
{
    if k > 0 {
        lemma_acount_instrs_eq(a, b, k - 1);
    }
}

/// Functions that agree, block for block and position for position, on
/// which instructions are named allocas hold the same count of them.
proof fn lemma_acount_blocks_eq(a: Seq<BlockV>, b: Seq<BlockV>, bi: int)
    requires
        a.len() == b.len(),
        0 <= bi <= a.len(),
        forall|i: int| 0 <= i < a.len() ==> (#[trigger] a[i]).instrs.len() == b[i].instrs.len(),
        forall|i: int, j: int|
            0 <= i < a.len() && 0 <= j < a[i].instrs.len() ==> is_named_alloca(
                #[trigger] a[i].instrs[j],
            ) == is_named_alloca(b[i].instrs[j]),
    ensures
        acount_blocks(a, bi) == acount_blocks(b, bi),
    decreases bi,
{
    if bi > 0 {
        lemma_acount_blocks_eq(a, b, bi - 1);
        lemma_acount_instrs_eq(a[bi - 1].instrs, b[bi - 1].instrs, a[bi - 1].instrs.len() as int);
    }
}

/// Counts the instructions of the function; nothing when there are at
/// least `u64::MAX` of them.
fn count_instructions(f: &IrFunction) -> (r: Option<u64>)
    ensures
        match r {
            Some(c) => c as nat == icount_blocks(f@.blocks, f@.blocks.len() as int) && c
                < u64::MAX,
            None => icount_blocks(f@.blocks, f@.blocks.len() as int) >= u64::MAX,
        },
{
    let mut c: u64 = 0;
    let mut bi: usize = 0;
    while bi < f.blocks.len()
        invariant
            bi <= f@.blocks.len(),
            c as nat == icount_blocks(f@.blocks, bi as int),
            c < u64::MAX,
        decreases f@.blocks.len() - bi,
    {
        let len = f.blocks[bi].instrs.len() as u64;
        proof {
            assert(f@.blocks[bi as int].instrs.len() == f.blocks@[bi as int].instrs@.len());
        }
        if len >= u64::MAX - c {
            proof {
                lemma_icount_blocks_mono(f@.blocks, bi + 1, f@.blocks.len() as int);
            }
            return None;
        }
        c += len;
        bi += 1;
    }
    Some(c)
}

/// Whether the rewriting sweep can read this instruction: a call whose
/// printed form names `utx1` (and not `utx0`) carries a pointer and an
/// integer operand; a load carries its pointer operand and its width; a
/// store likewise.
pub open spec fn sweep_shape_ok(i: InstrV) -> bool {
    &&& (i.opcode == Opcode::Call && !has_sub(i.text, crate::ir::spec_utx0()) && has_sub(
        i.text,
        crate::ir::spec_utx1(),
    )) ==> (i.operands.len() >= 2 && crate::ir::spec_is_pointer(i.operands[0])
        && crate::navigator::spec_is_int(i.operands[1]))
    &&& i.opcode == Opcode::Load ==> (i.operands.len() >= 1 && crate::ir::spec_is_pointer(
        i.operands[0],
    ) && i.width is Some)
    &&& i.opcode == Opcode::Store ==> (i.operands.len() >= 2 && crate::ir::spec_is_pointer(
        i.operands[1],
    ) && i.width is Some)
}

/// The two rename passes change nothing the sweep reads: opcode, the
/// printed form of calls, widths, operand counts, and whether each
/// operand is a pointer or an integer all stay — so the sweep can read
/// the renamed instruction exactly when it could read the original, and
/// a named alloca stays one.
proof fn lemma_shape_after_renames(
    names: Seq<Seq<u8>>,
    i: InstrV,
    c: nat,
    amap: Seq<(Seq<u8>, Seq<u8>)>,
)
    ensures
        sweep_shape_ok(alloca_renamed_spec(rename_instr_spec(names, i), c, amap))
            == sweep_shape_ok(i),
        is_named_alloca(rename_instr_spec(names, i)) == is_named_alloca(i),
        alloca_renamed_spec(rename_instr_spec(names, i), c, amap).operands.len()
            == i.operands.len(),
{
    let r1 = rename_instr_spec(names, i);
    let r2 = alloca_renamed_spec(r1, c, amap);
    assert(r1.operands.len() == i.operands.len());
    assert(r2.operands.len() == r1.operands.len());
    assert forall|oi: int| 0 <= oi < i.operands.len() implies crate::ir::spec_is_pointer(
        #[trigger] r2.operands[oi],
    ) == crate::ir::spec_is_pointer(i.operands[oi]) && crate::navigator::spec_is_int(
        r2.operands[oi],
    ) == crate::navigator::spec_is_int(i.operands[oi]) by {
        assert(r1.operands[oi] == map_label_operand(names, i.operands[oi]));
        assert(r2.operands[oi] == match r1.operands[oi] {
            OpV::Ssa(n) => OpV::Ssa(chase_spec(amap, n, 0)),
            other => other,
        });
    }
}

/// A pointer the sweep leaves unguarded: a named stack slot, or one of
/// the two window globals the emitted code itself reads and writes.
pub open spec fn guard_exempt_ptr(o: OpV) -> bool {
    ||| (o is Ssa && crate::bytes::has_prefix(o->Ssa_0, crate::ir::spec_stack_prefix()))
    ||| o == OpV::Global(crate::ir::spec_protected_ptr())
    ||| o == OpV::Global(crate::ir::spec_protected_offset())
}

/// Whether a rewritten instruction is an access that must sit behind a
/// bounds check: a load or store whose pointer is neither a named stack
/// slot nor a window global.
pub open spec fn needs_guard(i: InstrV) -> bool {
    if i.opcode == Opcode::Load {
        i.operands.len() >= 1 && !guard_exempt_ptr(i.operands[0])
    } else if i.opcode == Opcode::Store {
        i.operands.len() >= 2 && !guard_exempt_ptr(i.operands[1])
    } else {
        false
    }
}

/// Whether an instruction is anything but a call naming a micro-transaction
/// intrinsic in its printed form.
pub open spec fn no_utx_call(i: InstrV) -> bool {
    i.opcode == Opcode::Call ==> !has_sub(i.text, crate::ir::spec_utx0()) && !has_sub(
        i.text,
        crate::ir::spec_utx1(),
    )
}

/// The store lifted out of a `utx1` call: its value operand written to
/// the named global.
fn mk_store_to_global(value: Operand, global: Vec<u8>) -> (r: Instruction)
    ensures
        r@.opcode == Opcode::Store,
        r@.operands == seq![value@, OpV::Global(global@)],
{
    let mut ops: Vec<Operand> = Vec::new();
    ops.push(value);
    ops.push(Operand::Global(global));
    let r = Instruction {
        opcode: Opcode::Store,
        dest: None,
        operands: ops,
        width: Some(8),
        ty: Vec::new(),
        text: Vec::new(),
    };
    proof {
        assert(r@.operands =~= seq![r.operands@[0]@, r.operands@[1]@]);
    }
    r
}

/// Rewrites the body of one function: erases `utx0` calls, lifts `utx1`
/// calls into stores to the window globals, and splits every load and
/// store that is neither a named stack slot nor — when `static_analysis`
/// is set — provably inside the shadow window into a fresh block entered
/// through a bounds check.  Returns the rewritten function and the list
/// of `(block, split block)` renames the splits caused, in order.
///
/// Fails with [`IrError::MalformedIr`] exactly when some instruction
/// lacks what the sweep reads: a `utx1` call its pointer and integer
/// operands, a load or store its pointer operand or width.
#[verifier::rlimit(100)]
#[verifier::spinoff_prover]
fn instrument_blocks(module: &IrModule, f: IrFunction, static_analysis: bool) -> (r: Result<
    (IrFunction, Vec<(Vec<u8>, Vec<u8>)>),
    IrError,
>)
    requires
        forall|bi: int|
            0 <= bi < f@.blocks.len() ==> crate::ir::wf_block(#[trigger] f@.blocks[bi]),
        forall|bi: int|
            0 <= bi < f@.blocks.len() ==> (#[trigger] f@.blocks[bi]).name == spec_bb_name(
                bi as nat,
            ),
        icount_blocks(f@.blocks, f@.blocks.len() as int) < u64::MAX,
    ensures
        r is Err ==> r->Err_0 == IrError::MalformedIr,
        r is Err <==> exists|bi: int, k: int|
            0 <= bi < f@.blocks.len() && 0 <= k < f@.blocks[bi].instrs.len() && !sweep_shape_ok(
                #[trigger] f@.blocks[bi].instrs[k],
            ),
        r is Ok ==> ({
            let nf = r->Ok_0.0@;
            &&& nf.name == f@.name
            &&& forall|bi: int| 0 <= bi < nf.blocks.len() ==> crate::ir::wf_block(#[trigger] nf.blocks[bi])
            &&& forall|bi: int, k: int|
                0 <= bi < nf.blocks.len() && 0 <= k < nf.blocks[bi].instrs.len() ==> no_utx_call(
                    #[trigger] nf.blocks[bi].instrs[k],
                )
            &&& forall|b1: int, b2: int|
                0 <= b1 < b2 < nf.blocks.len() ==> (#[trigger] nf.blocks[b1]).name
                    != (#[trigger] nf.blocks[b2]).name
            &&& forall|bi: int|
                0 <= bi < nf.blocks.len() ==> pass_name_any((#[trigger] nf.blocks[bi]).name)
            &&& forall|bi: int|
                1 <= bi < nf.blocks.len() && is_split_name((#[trigger] nf.blocks[bi]).name)
                    ==> guarded_by_check(
                    nf.blocks[bi - 1],
                    nf.blocks[bi].name,
                    nf.blocks[bi].instrs,
                )
            &&& !static_analysis ==> forall|bi: int, k: int|
                0 <= bi < nf.blocks.len() && 0 <= k < nf.blocks[bi].instrs.len() && needs_guard(
                    #[trigger] nf.blocks[bi].instrs[k],
                ) ==> k == 0 && is_split_name(nf.blocks[bi].name)
        }),
{
    let ghost f0 = f@;
    let mut f = f;
    let utx0 = crate::ir::name_utx0();
    let utx1 = crate::ir::name_utx1();
    let stack_prefix = crate::ir::name_stack_prefix();
    let protected_ptr = crate::ir::name_protected_ptr();
    let protected_offset = crate::ir::name_protected_offset();
    let mut shadow: Option<(Operand, u64)> = None;
    let mut load_counter: u64 = 0;
    let mut store_counter: u64 = 0;
    let mut splits: Vec<(Vec<u8>, Vec<u8>)> = Vec::new();
    let mut out: Vec<Block> = Vec::new();
    let ghost mut done: int = 0;
    while f.blocks.len() > 0
        invariant
            utx0@ == crate::ir::spec_utx0(),
            utx1@ == crate::ir::spec_utx1(),
            stack_prefix@ == crate::ir::spec_stack_prefix(),
            protected_ptr@ == crate::ir::spec_protected_ptr(),
            protected_offset@ == crate::ir::spec_protected_offset(),
            f@.name == f0.name,
            0 <= done,
            done + f.blocks@.len() == f0.blocks.len(),
            crate::ir::blocks_view(f.blocks@) =~= f0.blocks.skip(done),
            forall|bi: int|
                0 <= bi < f0.blocks.len() ==> crate::ir::wf_block(#[trigger] f0.blocks[bi]),
            forall|bi: int|
                0 <= bi < f0.blocks.len() ==> (#[trigger] f0.blocks[bi]).name == spec_bb_name(
                    bi as nat,
                ),
            forall|bi: int| 0 <= bi < out@.len() ==> crate::ir::wf_block(#[trigger] out@[bi]@),
            forall|bi: int, k: int|
                0 <= bi < out@.len() && 0 <= k < out@[bi]@.instrs.len() ==> no_utx_call(
                    #[trigger] out@[bi]@.instrs[k],
                ),
            forall|b1: int, b2: int|
                0 <= b1 < b2 < out@.len() ==> (#[trigger] out@[b1]@).name != (#[trigger] out@[b2]@).name,
            forall|bi: int|
                0 <= bi < out@.len() ==> pass_name(
                    (#[trigger] out@[bi]@).name,
                    done,
                    load_counter as int,
                    store_counter as int,
                ),
            forall|bi: int|
                1 <= bi < out@.len() && is_split_name((#[trigger] out@[bi]@).name)
                    ==> guarded_by_check(out@[bi - 1]@, out@[bi]@.name, out@[bi]@.instrs),
            icount_blocks(f0.blocks, f0.blocks.len() as int) < u64::MAX,
            load_counter as nat + store_counter as nat <= icount_blocks(f0.blocks, done),
            forall|bi: int, k: int|
                0 <= bi < done && 0 <= k < f0.blocks[bi].instrs.len() ==> sweep_shape_ok(
                    #[trigger] f0.blocks[bi].instrs[k],
                ),
            !static_analysis ==> forall|bi: int, k: int|
                0 <= bi < out@.len() && 0 <= k < out@[bi]@.instrs.len() && needs_guard(
                    #[trigger] out@[bi]@.instrs[k],
                ) ==> k == 0 && is_split_name(out@[bi]@.name),
        decreases f.blocks@.len(),
    {
        proof {
            crate::ir::lemma_blocks_view_remove_front(f.blocks@, f0.blocks, done);
        }
        let mut b: Block = f.blocks.remove(0);
        let ghost b0 = b@;
        proof {
            assert(crate::ir::wf_block(b0));
            done = done + 1;
            lemma_icount_blocks_mono(f0.blocks, done, f0.blocks.len() as int);
        }
        let mut cur_name: Vec<u8> = b.name;
        proof {
            assert(cur_name@ == spec_bb_name((done - 1) as nat));
            assert(!is_split_name(cur_name@)) by {
                if exists|j: int|
                    0 <= j && cur_name@ == #[trigger] spec_split_name(true, j as nat) {
                    let j = choose|j: int|
                        0 <= j && cur_name@ == #[trigger] spec_split_name(true, j as nat);
                    lemma_pass_name_facts((done - 1) as nat, j as nat);
                }
                if exists|j: int|
                    0 <= j && cur_name@ == #[trigger] spec_split_name(false, j as nat) {
                    let j = choose|j: int|
                        0 <= j && cur_name@ == #[trigger] spec_split_name(false, j as nat);
                    lemma_pass_name_facts((done - 1) as nat, j as nat);
                }
            }
            assert(pass_name(cur_name@, done, load_counter as int, store_counter as int));
            assert forall|bi: int| 0 <= bi < out@.len() implies (#[trigger] out@[bi]@).name
                != cur_name@ by {
                lemma_pass_name_fresh(
                    out@[bi]@.name,
                    done - 1,
                    load_counter as int,
                    store_counter as int,
                );
            }
            assert forall|bi: int| 0 <= bi < out@.len() implies pass_name(
                (#[trigger] out@[bi]@).name,
                done,
                load_counter as int,
                store_counter as int,
            ) by {
                lemma_pass_name_mono(
                    out@[bi]@.name,
                    done - 1,
                    load_counter as int,
                    store_counter as int,
                    done,
                    load_counter as int,
                    store_counter as int,
                );
            }
        }
        let mut acc: Vec<Instruction> = Vec::new();
        let ghost mut consumed: int = 0;
        while b.instrs.len() > 0
            invariant
                utx0@ == crate::ir::spec_utx0(),
                utx1@ == crate::ir::spec_utx1(),
                stack_prefix@ == crate::ir::spec_stack_prefix(),
                protected_ptr@ == crate::ir::spec_protected_ptr(),
                protected_offset@ == crate::ir::spec_protected_offset(),
                crate::ir::wf_block(b0),
                0 <= consumed <= b0.instrs.len(),
                consumed == b0.instrs.len() - b.instrs@.len(),
                crate::ir::instrs_view(b.instrs@) =~= b0.instrs.skip(consumed),
                consumed < b0.instrs.len() ==> forall|j: int|
                    0 <= j < acc@.len() ==> !crate::ir::is_terminator(
                        #[trigger] crate::ir::instrs_view(acc@)[j],
                    ),
                consumed == b0.instrs.len() ==> acc@.len() > 0 && crate::ir::is_terminator(
                    crate::ir::instrs_view(acc@).last(),
                ) && forall|j: int|
                    0 <= j < acc@.len() - 1 ==> !crate::ir::is_terminator(
                        #[trigger] crate::ir::instrs_view(acc@)[j],
                    ),
                forall|j: int|
                    0 <= j < acc@.len() ==> no_utx_call(#[trigger] crate::ir::instrs_view(acc@)[j]),
                forall|bi: int| 0 <= bi < out@.len() ==> crate::ir::wf_block(#[trigger] out@[bi]@),
                forall|bi: int, k: int|
                    0 <= bi < out@.len() && 0 <= k < out@[bi]@.instrs.len() ==> no_utx_call(
                        #[trigger] out@[bi]@.instrs[k],
                    ),
                0 <= done,
                forall|b1: int, b2: int|
                    0 <= b1 < b2 < out@.len() ==> (#[trigger] out@[b1]@).name != (
                    #[trigger] out@[b2]@).name,
                forall|bi: int|
                    0 <= bi < out@.len() ==> pass_name(
                        (#[trigger] out@[bi]@).name,
                        done,
                        load_counter as int,
                        store_counter as int,
                    ),
                pass_name(cur_name@, done, load_counter as int, store_counter as int),
                forall|bi: int| 0 <= bi < out@.len() ==> (#[trigger] out@[bi]@).name != cur_name@,
                forall|bi: int|
                    1 <= bi < out@.len() && is_split_name((#[trigger] out@[bi]@).name)
                        ==> guarded_by_check(out@[bi - 1]@, out@[bi]@.name, out@[bi]@.instrs),
                is_split_name(cur_name@) ==> out@.len() >= 1 && guarded_by_check(
                    out@[out@.len() - 1]@,
                    cur_name@,
                    crate::ir::instrs_view(acc@),
                ),
                b0 == f0.blocks[done - 1],
                1 <= done <= f0.blocks.len(),
                icount_blocks(f0.blocks, f0.blocks.len() as int) < u64::MAX,
                icount_blocks(f0.blocks, done) == icount_blocks(f0.blocks, done - 1)
                    + b0.instrs.len(),
                icount_blocks(f0.blocks, done) <= icount_blocks(
                    f0.blocks,
                    f0.blocks.len() as int,
                ),
                load_counter as nat + store_counter as nat <= icount_blocks(f0.blocks, done - 1)
                    + consumed,
                forall|bi: int, k: int|
                    0 <= bi < done - 1 && 0 <= k < f0.blocks[bi].instrs.len() ==> sweep_shape_ok(
                        #[trigger] f0.blocks[bi].instrs[k],
                    ),
                forall|k: int| 0 <= k < consumed ==> sweep_shape_ok(#[trigger] b0.instrs[k]),
                !static_analysis ==> forall|bi: int, k: int|
                    0 <= bi < out@.len() && 0 <= k < out@[bi]@.instrs.len() && needs_guard(
                        #[trigger] out@[bi]@.instrs[k],
                    ) ==> k == 0 && is_split_name(out@[bi]@.name),
                !static_analysis ==> forall|j: int|
                    0 <= j < acc@.len() && needs_guard(
                        #[trigger] crate::ir::instrs_view(acc@)[j],
                    ) ==> j == 0 && is_split_name(cur_name@),
            decreases b.instrs@.len(),
        {
            proof {
                crate::ir::lemma_instrs_view_remove_front(b.instrs@, b0.instrs, consumed);
            }
            let ins: Instruction = b.instrs.remove(0);
            let ghost insv = ins@;
            proof {
                assert(insv == b0.instrs[consumed]);
                consumed = consumed + 1;
                assert(consumed < b0.instrs.len() ==> !crate::ir::is_terminator(insv));
                assert(consumed == b0.instrs.len() ==> crate::ir::is_terminator(insv));
            }
            match ins.opcode {
                Opcode::Call => {
                    if crate::bytes::contains_sub(&ins.text, &utx0) {
                        // utx0(): closes the region; erase the call.
                        proof {
                            assert(sweep_shape_ok(insv));
                        }
                    } else if crate::bytes::contains_sub(&ins.text, &utx1) {
                        // utx1(p, n): store p and n into the window
                        // globals, update the shadow window, erase the
                        // call.
                        let p = match crate::navigator::operand_as_pointer(&ins, 0) {
                            Ok(p) => crate::ir::copy_operand(p),
                            Err(e) => {
                                proof {
                                    assert(!sweep_shape_ok(insv));
                                    assert(insv == f0.blocks[done - 1].instrs[consumed - 1]);
                                }
                                return Err(e);
                            },
                        };
                        let n_op = match crate::navigator::operand_as_int(&ins, 1) {
                            Ok(o) => crate::ir::copy_operand(o),
                            Err(e) => {
                                proof {
                                    assert(!sweep_shape_ok(insv));
                                    assert(insv == f0.blocks[done - 1].instrs[consumed - 1]);
                                }
                                return Err(e);
                            },
                        };
                        proof {
                            assert(sweep_shape_ok(insv));
                        }
                        shadow = match &n_op {
                            Operand::ConstInt(n) => Some((crate::ir::copy_operand(&p), *n)),
                            _ => None,
                        };
                        acc.push(
                            mk_store_to_global(p, crate::bytes::copy_bytes(&protected_ptr)),
                        );
                        acc.push(
                            mk_store_to_global(n_op, crate::bytes::copy_bytes(&protected_offset)),
                        );
                    } else {
                        proof {
                            assert(sweep_shape_ok(insv));
                        }
                        acc.push(ins);
                    }
                },
                Opcode::Load | Opcode::Store => {
                    let is_load = matches!(ins.opcode, Opcode::Load);
                    let ptr_index: usize = if is_load {
                        0
                    } else {
                        1
                    };
                    let ptr = match crate::navigator::operand_as_pointer(&ins, ptr_index) {
                        Ok(p) => crate::ir::copy_operand(p),
                        Err(e) => {
                            proof {
                                assert(!sweep_shape_ok(insv));
                                assert(insv == f0.blocks[done - 1].instrs[consumed - 1]);
                            }
                            return Err(e);
                        },
                    };
                    let w = match crate::navigator::get_alignment(&ins) {
                        Ok(w) => w,
                        Err(e) => {
                            proof {
                                assert(!sweep_shape_ok(insv));
                                assert(insv == f0.blocks[done - 1].instrs[consumed - 1]);
                            }
                            return Err(e);
                        },
                    };
                    proof {
                        assert(sweep_shape_ok(insv));
                    }
                    // A named stack slot is trusted.
                    let on_stack = match &ptr {
                        Operand::Ssa(n) => crate::bytes::starts_with(n, &stack_prefix),
                        _ => false,
                    };
                    if on_stack {
                        proof {
                            assert(guard_exempt_ptr(insv.operands[ptr_index as int]));
                            assert(!needs_guard(insv));
                        }
                        acc.push(ins);
                    } else {
                        let proven = static_analysis
                            && crate::static_checks::_is_address_protected(
                            module,
                            &shadow,
                            &ptr,
                            w,
                        );
                        if proven {
                            acc.push(ins);
                        } else {
                            // Split: close the current block with the
                            // check, move the access into a fresh block.
                            let counter = if is_load {
                                let c = load_counter;
                                load_counter += 1;
                                c
                            } else {
                                let c = store_counter;
                                store_counter += 1;
                                c
                            };
                            let new_name = split_name(is_load, counter);
                            proof {
                                let lc_old: int = if is_load {
                                    counter as int
                                } else {
                                    load_counter as int
                                };
                                let sc_old: int = if is_load {
                                    store_counter as int
                                } else {
                                    counter as int
                                };
                                assert forall|bi: int| 0 <= bi < out@.len() implies (
                                #[trigger] out@[bi]@).name != new_name@ by {
                                    lemma_pass_name_fresh(out@[bi]@.name, done, lc_old, sc_old);
                                }
                                lemma_pass_name_fresh(cur_name@, done, lc_old, sc_old);
                            }
                            let ghost acc_head = crate::ir::instrs_view(acc@);
                            crate::checks::build_check(&mut acc, &new_name, &ptr, w, &new_name);
                            proof {
                                crate::checks::lemma_check_seq_shape(
                                    new_name@,
                                    ptr@,
                                    w,
                                    new_name@,
                                );
                                assert forall|m: int| 0 <= m < 12 implies !needs_guard(
                                    #[trigger] crate::checks::check_seq(
                                        new_name@,
                                        ptr@,
                                        w,
                                        new_name@,
                                    )[m],
                                ) by {
                                    let ck = crate::checks::check_seq(new_name@, ptr@, w, new_name@);
                                    if m == 0 {
                                        assert(ck[0].operands[0] == OpV::Global(
                                            crate::ir::spec_protected_ptr(),
                                        ));
                                    } else if m == 3 {
                                        assert(ck[3].operands[0] == OpV::Global(
                                            crate::ir::spec_protected_offset(),
                                        ));
                                    }
                                }
                            }
                            splits.push(
                                (
                                    crate::bytes::copy_bytes(&cur_name),
                                    crate::bytes::copy_bytes(&new_name),
                                ),
                            );
                            let ghost out_pre = out@;
                            let ghost acc_closed = crate::ir::instrs_view(acc@);
                            let closed = Block { name: cur_name, instrs: acc };
                            proof {
                                assert(crate::ir::wf_block(closed@));
                            }
                            out.push(closed);
                            cur_name = new_name;
                            acc = Vec::new();
                            acc.push(ins);
                            proof {
                                // The split block is entered through the
                                // check just emitted, and guards exactly
                                // the access that begins it.
                                assert(is_split_name(cur_name@));
                                assert(crate::ir::instrs_view(acc@) =~= Seq::<
                                    InstrV,
                                >::empty().push(insv));
                                assert(crate::static_checks::access_ptr(insv) == Some(ptr@));
                                assert(acc_closed.len() >= 12);
                                assert(acc_closed.skip(acc_closed.len() - 12)
                                    =~= crate::checks::check_seq(cur_name@, ptr@, w, cur_name@));
                                assert(out@[out@.len() - 1]@ == closed@);
                                assert(guarded_by_check(
                                    out@[out@.len() - 1]@,
                                    cur_name@,
                                    crate::ir::instrs_view(acc@),
                                ));
                                // Earlier split blocks keep their guards;
                                // the block just closed gets its own from
                                // what was pending for it.
                                assert forall|bi: int|
                                    1 <= bi < out@.len() && is_split_name(
                                        (#[trigger] out@[bi]@).name,
                                    ) implies guarded_by_check(
                                    out@[bi - 1]@,
                                    out@[bi]@.name,
                                    out@[bi]@.instrs,
                                ) by {
                                    if bi < out@.len() - 1 {
                                        assert(out@[bi]@ == out_pre[bi]@);
                                        assert(out@[bi - 1]@ == out_pre[bi - 1]@);
                                    } else {
                                        assert(out@[bi]@ == closed@);
                                        if is_split_name(closed@.name) {
                                            assert(out_pre.len() >= 1 && guarded_by_check(
                                                out_pre[out_pre.len() - 1]@,
                                                closed@.name,
                                                acc_head,
                                            ));
                                            assert(acc_closed =~= acc_head
                                                + crate::checks::check_seq(
                                                cur_name@,
                                                ptr@,
                                                w,
                                                cur_name@,
                                            ));
                                            assert(closed@.instrs[0] == acc_head[0]);
                                            assert(out@[bi - 1]@ == out_pre[bi - 1]@);
                                        }
                                    }
                                }
                                let lc_old: int = if is_load {
                                    counter as int
                                } else {
                                    load_counter as int
                                };
                                let sc_old: int = if is_load {
                                    store_counter as int
                                } else {
                                    counter as int
                                };
                                assert(cur_name@ == spec_split_name(is_load, counter as nat));
                                assert(pass_name(
                                    cur_name@,
                                    done,
                                    load_counter as int,
                                    store_counter as int,
                                ));
                                assert forall|bi: int| 0 <= bi < out@.len() implies pass_name(
                                    (#[trigger] out@[bi]@).name,
                                    done,
                                    load_counter as int,
                                    store_counter as int,
                                ) by {
                                    lemma_pass_name_mono(
                                        out@[bi]@.name,
                                        done,
                                        lc_old,
                                        sc_old,
                                        done,
                                        load_counter as int,
                                        store_counter as int,
                                    );
                                }
                            }
                        }
                    }
                },
                Opcode::Alloca => {
                    acc.push(ins);
                },
                _ => {
                    acc.push(ins);
                },
            }
        }
        let ghost out_pre = out@;
        let closed = Block { name: cur_name, instrs: acc };
        proof {
            assert(crate::ir::wf_block(closed@));
        }
        out.push(closed);
        proof {
            assert forall|bi: int|
                1 <= bi < out@.len() && is_split_name((#[trigger] out@[bi]@).name) implies guarded_by_check(
                out@[bi - 1]@,
                out@[bi]@.name,
                out@[bi]@.instrs,
            ) by {
                if bi < out@.len() - 1 {
                    assert(out@[bi]@ == out_pre[bi]@);
                    assert(out@[bi - 1]@ == out_pre[bi - 1]@);
                } else {
                    assert(out@[bi]@ == closed@);
                    if is_split_name(closed@.name) {
                        assert(out_pre.len() >= 1 && guarded_by_check(
                            out_pre[out_pre.len() - 1]@,
                            closed@.name,
                            closed@.instrs,
                        ));
                        assert(out@[bi - 1]@ == out_pre[bi - 1]@);
                    }
                }
            }
        }
    }
    let nf = IrFunction { name: f.name, blocks: out };
    proof {
        assert forall|bi: int| 0 <= bi < nf@.blocks.len() implies pass_name_any(
            (#[trigger] nf@.blocks[bi]).name,
        ) by {
            assert(nf@.blocks[bi] == nf.blocks@[bi]@);
            lemma_pass_name_mono(
                nf.blocks@[bi]@.name,
                done,
                load_counter as int,
                store_counter as int,
                done,
                load_counter as int,
                store_counter as int,
            );
        }
        assert forall|b1: int, b2: int| 0 <= b1 < b2 < nf@.blocks.len() implies (
        #[trigger] nf@.blocks[b1]).name != (#[trigger] nf@.blocks[b2]).name by {
            assert(nf@.blocks[b1] == nf.blocks@[b1]@);
            assert(nf@.blocks[b2] == nf.blocks@[b2]@);
        }
        assert forall|bi: int|
            1 <= bi < nf@.blocks.len() && is_split_name(
                (#[trigger] nf@.blocks[bi]).name,
            ) implies guarded_by_check(
            nf@.blocks[bi - 1],
            nf@.blocks[bi].name,
            nf@.blocks[bi].instrs,
        ) by {
            assert(nf@.blocks[bi] == nf.blocks@[bi]@);
            assert(nf@.blocks[bi - 1] == nf.blocks@[bi - 1]@);
        }
        assert forall|bi: int, k: int|
            0 <= bi < f0.blocks.len() && 0 <= k < f0.blocks[bi].instrs.len() implies sweep_shape_ok(
            #[trigger] f0.blocks[bi].instrs[k],
        ) by {}
        if !static_analysis {
            assert forall|bi: int, k: int|
                0 <= bi < nf@.blocks.len() && 0 <= k < nf@.blocks[bi].instrs.len() && needs_guard(
                    #[trigger] nf@.blocks[bi].instrs[k],
                ) implies k == 0 && is_split_name(nf@.blocks[bi].name) by {
                assert(nf@.blocks[bi] == nf.blocks@[bi]@);
            }
        }
    }
    Ok((nf, splits))
}

/// No name the pass hands out is the abort block's.
proof fn lemma_pass_name_any_not_abort(n: Seq<u8>)
    requires
        pass_name_any(n),
    ensures
        n != crate::ir::spec_abort(),
{
    if exists|j: int| 0 <= j && n == #[trigger] spec_bb_name(j as nat) {
        let j = choose|j: int| 0 <= j && n == #[trigger] spec_bb_name(j as nat);
        lemma_pass_name_facts(j as nat, 0);
    } else if exists|j: int| 0 <= j && n == #[trigger] spec_split_name(true, j as nat) {
        let j = choose|j: int| 0 <= j && n == #[trigger] spec_split_name(true, j as nat);
        lemma_pass_name_facts(j as nat, 0);
    } else {
        let j = choose|j: int| 0 <= j && n == #[trigger] spec_split_name(false, j as nat);
        lemma_pass_name_facts(j as nat, 0);
    }
}

/// The destination a rebuilt phi is rendered under: its own name, or
/// nothing when it has none — the prototype's fresh phi needed no old
/// name either.
pub open spec fn dest_or_empty(i: InstrV) -> Seq<u8> {
    if i.dest is Some {
        i.dest->Some_0
    } else {
        Seq::empty()
    }
}

/// A phi's `(value, predecessor label)` entries: the labels of its
/// printed form paired positionally with its operands, stopping at the
/// shorter of the two lists — an entry the printed form does not show,
/// or shows without an operand to pair with, carries nothing to
/// retarget.
pub open spec fn phi_trunc_entries(i: InstrV) -> Seq<(OpV, Seq<u8>)> {
    let labels = crate::navigator::phi_labels_from(i.text, 0);
    let m = if labels.len() <= i.operands.len() {
        labels.len() as int
    } else {
        i.operands.len() as int
    };
    Seq::new(m as nat, |k: int| (i.operands[k], labels[k]))
}

/// What retargeting makes of one instruction: a non-phi, and a phi none
/// of whose predecessor labels names a split block, are untouched; any
/// other phi keeps its opcode, type, destination and width, its entries'
/// values become its operands, and its printed form is re-rendered with
/// every label followed through the splits.
pub open spec fn update_phi_spec(rv: Seq<(Seq<u8>, Seq<u8>)>, i: InstrV) -> InstrV {
    if i.opcode != Opcode::Phi {
        i
    } else {
        let es = phi_trunc_entries(i);
        if !touched(rv, es) {
            i
        } else {
            InstrV {
                text: crate::navigator::render_phi_text(
                    dest_or_empty(i),
                    i.ty,
                    chased_entries(rv, es),
                ),
                operands: es.map_values(|e: (OpV, Seq<u8>)| e.0),
                ..i
            }
        }
    }
}

/// Retargets phi entries after splits: every phi entry whose predecessor
/// label names a split block is rewritten, in split order, to the last
/// block split off from it.  A phi that names a split block as
/// predecessor necessarily sits in a successor of that block's final
/// segment, so walking every phi of the function is the same walk as
/// following each split segment's terminator.  Each instruction of the
/// result is exactly [`update_phi_spec`] of the old one.
pub fn update_phis(f: &mut IrFunction, renames: &Vec<(Vec<u8>, Vec<u8>)>)
    ensures
        same_shape(old(f)@, final(f)@),
        final(f)@.blocks.len() == old(f)@.blocks.len(),
        forall|bi: int|
            0 <= bi < final(f)@.blocks.len() ==> (#[trigger] final(f)@.blocks[bi]).name == old(
                f,
            )@.blocks[bi].name,
        forall|bi: int, k: int|
            0 <= bi < final(f)@.blocks.len() && 0 <= k < final(f)@.blocks[bi].instrs.len() ==> (
            #[trigger] final(f)@.blocks[bi].instrs[k]) == update_phi_spec(
                crate::static_checks::pairs_view(renames@),
                old(f)@.blocks[bi].instrs[k],
            ),
        forall|bi: int, k: int|
            0 <= bi < final(f)@.blocks.len() && 0 <= k < final(f)@.blocks[bi].instrs.len() ==> ({
                let old_i = old(f)@.blocks[bi].instrs[k];
                let new_i = (#[trigger] final(f)@.blocks[bi].instrs[k]);
                &&& new_i.ty == old_i.ty
                &&& new_i.dest == old_i.dest
                &&& (old_i.opcode != Opcode::Phi ==> new_i == old_i)
            }),
{
    let ghost f0 = f@;
    let ghost rv = crate::static_checks::pairs_view(renames@);
    let mut out: Vec<Block> = Vec::new();
    let ghost mut done: int = 0;
    while f.blocks.len() > 0
        invariant
            rv == crate::static_checks::pairs_view(renames@),
            f@.name == f0.name,
            0 <= done,
            done + f.blocks@.len() == f0.blocks.len(),
            crate::ir::blocks_view(f.blocks@) =~= f0.blocks.skip(done),
            out@.len() == done,
            forall|bi: int|
                0 <= bi < done ==> (#[trigger] out@[bi]@).name == f0.blocks[bi].name,
            forall|bi: int|
                0 <= bi < done ==> (#[trigger] out@[bi]@).instrs.len()
                    == f0.blocks[bi].instrs.len(),
            forall|bi: int, k: int|
                0 <= bi < done && 0 <= k < out@[bi]@.instrs.len() ==> (#[trigger] out@[bi]@.instrs[k]) == update_phi_spec(rv, f0.blocks[bi].instrs[k]),
        decreases f.blocks@.len(),
    {
        proof {
            crate::ir::lemma_blocks_view_remove_front(f.blocks@, f0.blocks, done);
        }
        let mut b: Block = f.blocks.remove(0);
        let ghost b0 = b@;
        proof {
            done = done + 1;
        }
        let mut new_instrs: Vec<Instruction> = Vec::new();
        let ghost mut consumed: int = 0;
        while b.instrs.len() > 0
            invariant
                rv == crate::static_checks::pairs_view(renames@),
                b@.name == b0.name,
                0 <= consumed <= b0.instrs.len(),
                consumed == b0.instrs.len() - b.instrs@.len(),
                crate::ir::instrs_view(b.instrs@) =~= b0.instrs.skip(consumed),
                new_instrs@.len() == consumed,
                forall|k: int|
                    0 <= k < consumed ==> (#[trigger] new_instrs@[k]@) == update_phi_spec(
                        rv,
                        b0.instrs[k],
                    ),
            decreases b.instrs@.len(),
        {
            proof {
                crate::ir::lemma_instrs_view_remove_front(b.instrs@, b0.instrs, consumed);
            }
            let ins: Instruction = b.instrs.remove(0);
            proof {
                consumed = consumed + 1;
            }
            let updated = update_phi(ins, renames);
            new_instrs.push(updated);
        }
        b.instrs = new_instrs;
        out.push(b);
    }
    f.blocks = out;
    proof {
        assert forall|bi: int, k: int|
            0 <= bi < f@.blocks.len() && 0 <= k < f@.blocks[bi].instrs.len() implies ({
            let old_i = f0.blocks[bi].instrs[k];
            let new_i = (#[trigger] f@.blocks[bi].instrs[k]);
            &&& new_i == update_phi_spec(rv, old_i)
            &&& new_i.ty == old_i.ty
            &&& new_i.dest == old_i.dest
            &&& (old_i.opcode != Opcode::Phi ==> new_i == old_i)
        }) by {
            assert(f@.blocks[bi] == f.blocks@[bi]@);
            assert(f@.blocks[bi].instrs[k] == update_phi_spec(rv, f0.blocks[bi].instrs[k]));
        }
        assert(same_shape(f0, f@)) by {
            assert forall|bi: int, k: int|
                0 <= bi < f0.blocks.len() && 0 <= k < f0.blocks[bi].instrs.len() implies (
            #[trigger] f0.blocks[bi].instrs[k]).opcode == f@.blocks[bi].instrs[k].opcode by {}
        }
    }
}

/// Whether some entry's predecessor label names a split block.
pub open spec fn touched(renames: Seq<(Seq<u8>, Seq<u8>)>, es: Seq<(OpV, Seq<u8>)>) -> bool {
    exists|k: int, l: int|
        0 <= k < es.len() && 0 <= l < renames.len() && (#[trigger] es[k]).1 == (
        #[trigger] renames[l]).0
}

/// A phi's entries with every predecessor label followed through the
/// splits.
pub open spec fn chased_entries(renames: Seq<(Seq<u8>, Seq<u8>)>, es: Seq<(OpV, Seq<u8>)>) -> Seq<
    (OpV, Seq<u8>),
> {
    Seq::new(es.len(), |k: int| (es[k].0, chase_spec(renames, es[k].1, 0)))
}

/// Retargets one instruction: exactly [`update_phi_spec`] of the input
/// — a phi whose entries name a split block is rebuilt with the labels
/// followed through `renames` and a freshly rendered printed form;
/// everything else passes through untouched.
fn update_phi(ins: Instruction, renames: &Vec<(Vec<u8>, Vec<u8>)>) -> (r: Instruction)
    ensures
        r@ == update_phi_spec(crate::static_checks::pairs_view(renames@), ins@),
{
    if !matches!(ins.opcode, Opcode::Phi) {
        return ins;
    }
    let ghost rv = crate::static_checks::pairs_view(renames@);
    let mut ins = ins;
    let ghost i0 = ins@;
    // The entries: labels from the printed form, values paired
    // positionally, stopping at the shorter list.
    let labels = crate::navigator::phi_labels(&ins.text);
    let ghost lv = crate::navigator::phi_labels_from(i0.text, 0);
    let m = if labels.len() <= ins.operands.len() {
        labels.len()
    } else {
        ins.operands.len()
    };
    let ghost evs = phi_trunc_entries(i0);
    proof {
        assert(labels@.map_values(|l: Vec<u8>| l@).len() == labels@.len());
        assert(evs.len() == m);
    }
    let mut es: Vec<(Operand, Vec<u8>)> = Vec::new();
    let mut ki: usize = 0;
    while ki < m
        invariant
            ins@ == i0,
            lv == crate::navigator::phi_labels_from(i0.text, 0),
            labels@.map_values(|l: Vec<u8>| l@) == lv,
            m <= labels@.len(),
            m <= i0.operands.len(),
            evs == phi_trunc_entries(i0),
            evs.len() == m,
            ki <= m,
            crate::navigator::entry_views(es@) =~= evs.subrange(0, ki as int),
        decreases m - ki,
    {
        let value = crate::ir::copy_operand(&ins.operands[ki]);
        let label = crate::bytes::copy_bytes(&labels[ki]);
        es.push((value, label));
        proof {
            assert(labels@.map_values(|l: Vec<u8>| l@)[ki as int] == labels@[ki as int]@);
            assert(evs[ki as int] == (i0.operands[ki as int], lv[ki as int]));
            assert(crate::navigator::entry_views(es@) =~= evs.subrange(0, ki + 1));
        }
        ki += 1;
    }
    proof {
        assert(evs.subrange(0, evs.len() as int) =~= evs);
        assert(crate::navigator::entry_views(es@) =~= evs);
    }
    // Only a phi that names a split block is rebuilt.
    let mut affected = false;
    let mut j: usize = 0;
    while j < es.len()
        invariant
            ins@ == i0,
            rv == crate::static_checks::pairs_view(renames@),
            evs == crate::navigator::entry_views(es@),
            affected ==> touched(rv, evs),
            !affected ==> forall|k: int, l: int|
                0 <= k < j && 0 <= l < rv.len() ==> (#[trigger] evs[k]).1 != (#[trigger] rv[l]).0,
        decreases es@.len() - j,
    {
        let mut l: usize = 0;
        while l < renames.len()
            invariant
                ins@ == i0,
                rv == crate::static_checks::pairs_view(renames@),
                evs == crate::navigator::entry_views(es@),
                j < es@.len(),
                affected ==> touched(rv, evs),
                !affected ==> forall|k: int, l2: int|
                    0 <= k < j && 0 <= l2 < rv.len() ==> (#[trigger] evs[k]).1 != (
                    #[trigger] rv[l2]).0,
                !affected ==> forall|l2: int|
                    0 <= l2 < l ==> evs[j as int].1 != (#[trigger] rv[l2]).0,
            decreases renames@.len() - l,
        {
            proof {
                assert(rv[l as int] == (renames@[l as int].0@, renames@[l as int].1@));
                assert(evs[j as int] == (es@[j as int].0@, es@[j as int].1@));
            }
            if crate::bytes::eq_bytes(&renames[l].0, &es[j].1) {
                affected = true;
            }
            l += 1;
        }
        j += 1;
    }
    if !affected {
        proof {
            assert(!touched(rv, evs));
            assert(ins@ == update_phi_spec(rv, i0));
        }
        return ins;
    }
    let dest = match &ins.dest {
        Some(d) => crate::bytes::copy_bytes(d),
        None => Vec::new(),
    };
    proof {
        assert(dest@ == dest_or_empty(i0));
    }
    let mut mapped: Vec<(Operand, Vec<u8>)> = Vec::new();
    let mut es = es;
    let ghost mut k: int = 0;
    while es.len() > 0
        invariant
            ins@ == i0,
            rv == crate::static_checks::pairs_view(renames@),
            0 <= k <= evs.len(),
            k == evs.len() - es@.len(),
            crate::navigator::entry_views(es@) =~= evs.skip(k),
            crate::navigator::entry_views(mapped@) =~= chased_entries(rv, evs).subrange(0, k),
        decreases es@.len(),
    {
        let ghost epre = es@;
        let (v, l) = es.remove(0);
        proof {
            assert(crate::navigator::entry_views(epre)[0] == (epre[0].0@, epre[0].1@));
            assert((v@, l@) == evs[k]);
            assert forall|m: int|
                #![trigger evs.skip(k + 1)[m]]
                0 <= m < es@.len() implies crate::navigator::entry_views(es@)[m] == evs.skip(
                k + 1,
            )[m] by {
                assert(es@[m] == epre[m + 1]);
                assert(crate::navigator::entry_views(epre)[m + 1] == (epre[m + 1].0@, epre[m
                    + 1].1@));
                assert(crate::navigator::entry_views(es@)[m] == (es@[m].0@, es@[m].1@));
                assert(crate::navigator::entry_views(epre)[m + 1] == evs.skip(k)[m + 1]);
            }
            assert(crate::navigator::entry_views(es@) =~= evs.skip(k + 1));
        }
        mapped.push((v, chase_renames(renames, l)));
        proof {
            assert(crate::navigator::entry_views(mapped@) =~= chased_entries(rv, evs).subrange(
                0,
                k + 1,
            ));
            k = k + 1;
        }
    }
    ins.text = crate::navigator::render_phi_bytes(&dest, &ins.ty, &mapped);
    proof {
        assert(crate::navigator::entry_views(mapped@) =~= chased_entries(rv, evs));
        assert(ins@.text == crate::navigator::render_phi_text(
            dest_or_empty(i0),
            i0.ty,
            chased_entries(rv, evs),
        ));
    }
    // The rebuilt phi keeps one value operand per entry, as the fresh
    // phi built from the old entries does.
    let mut new_ops: Vec<Operand> = Vec::new();
    let mut j: usize = 0;
    while j < mapped.len()
        invariant
            ins@.opcode == i0.opcode && ins@.ty == i0.ty && ins@.dest == i0.dest
                && ins@.width == i0.width,
            ins@.text == crate::navigator::render_phi_text(
                dest_or_empty(i0),
                i0.ty,
                chased_entries(rv, evs),
            ),
            rv == crate::static_checks::pairs_view(renames@),
            crate::navigator::entry_views(mapped@) =~= chased_entries(rv, evs),
            j <= mapped@.len(),
            mapped@.len() == evs.len(),
            new_ops@.map_values(|o: Operand| o@) =~= evs.map_values(|e: (OpV, Seq<u8>)| e.0)
                .subrange(0, j as int),
        decreases mapped@.len() - j,
    {
        new_ops.push(crate::ir::copy_operand(&mapped[j].0));
        proof {
            assert(crate::navigator::entry_views(mapped@)[j as int] == (mapped@[j as int].0@, mapped@[j as int].1@));
            assert(chased_entries(rv, evs)[j as int].0 == evs[j as int].0);
            assert(evs.map_values(|e: (OpV, Seq<u8>)| e.0)[j as int] == evs[j as int].0);
            assert(new_ops@.map_values(|o: Operand| o@) =~= evs.map_values(
                |e: (OpV, Seq<u8>)| e.0,
            ).subrange(0, j + 1));
        }
        j += 1;
    }
    ins.operands = new_ops;
    proof {
        assert(evs.map_values(|e: (OpV, Seq<u8>)| e.0).subrange(
            0,
            evs.len() as int,
        ) =~= evs.map_values(|e: (OpV, Seq<u8>)| e.0));
        assert(ins@ =~= update_phi_spec(rv, i0));
    }
    ins
}

/// The printed form of the abort call: `call void @abort()`.
pub open spec fn spec_abort_call_text() -> Seq<u8> {
    seq![
        99u8,
        97u8,
        108u8,
        108u8,
        32u8,
        118u8,
        111u8,
        105u8,
        100u8,
        32u8,
        64u8,
        97u8,
        98u8,
        111u8,
        114u8,
        116u8,
        40u8,
        41u8,
    ]
}

/// The abort block appended to an instrumented function: a call to the
/// external `abort` followed by `unreachable`.  Every violation edge
/// targets it.
pub open spec fn spec_abort_block() -> BlockV {
    BlockV {
        name: crate::ir::spec_abort(),
        instrs: seq![
            InstrV {
                opcode: Opcode::Call,
                dest: None,
                operands: Seq::empty(),
                width: None,
                ty: Seq::empty(),
                text: spec_abort_call_text(),
            },
            InstrV {
                opcode: Opcode::Unreachable,
                dest: None,
                operands: Seq::empty(),
                width: None,
                ty: Seq::empty(),
                text: Seq::empty(),
            },
        ],
    }
}

/// The abort block ends in its only terminator and calls nothing that
/// names a micro-transaction intrinsic.
pub proof fn lemma_abort_block_shape()
    ensures
        crate::ir::wf_block(spec_abort_block()),
        forall|k: int|
            0 <= k < spec_abort_block().instrs.len() ==> no_utx_call(
                #[trigger] spec_abort_block().instrs[k],
            ),
{
    let text = spec_abort_call_text();
    assert forall|i: int| 0 <= i < text.len() implies text[i] != 117u8 by {}
    assert(!has_sub(text, crate::ir::spec_utx0())) by {
        assert forall|i: int|
            0 <= i && i + crate::ir::spec_utx0().len() <= text.len() implies #[trigger] text
            .subrange(i, i + crate::ir::spec_utx0().len()) != crate::ir::spec_utx0() by {
            assert(text.subrange(i, i + crate::ir::spec_utx0().len())[0] == text[i]);
            assert(text[i] != 117u8);
            assert(crate::ir::spec_utx0()[0] == 117u8);
        }
    }
    assert(!has_sub(text, crate::ir::spec_utx1())) by {
        assert forall|i: int|
            0 <= i && i + crate::ir::spec_utx1().len() <= text.len() implies #[trigger] text
            .subrange(i, i + crate::ir::spec_utx1().len()) != crate::ir::spec_utx1() by {
            assert(text.subrange(i, i + crate::ir::spec_utx1().len())[0] == text[i]);
            assert(text[i] != 117u8);
            assert(crate::ir::spec_utx1()[0] == 117u8);
        }
    }
}

/// Builds the abort block.
fn abort_block() -> (b: Block)
    ensures
        b@ == spec_abort_block(),
{
    let mut text: Vec<u8> = Vec::new();
    text.push(99);
    text.push(97);
    text.push(108);
    text.push(108);
    text.push(32);
    text.push(118);
    text.push(111);
    text.push(105);
    text.push(100);
    text.push(32);
    text.push(64);
    text.push(97);
    text.push(98);
    text.push(111);
    text.push(114);
    text.push(116);
    text.push(40);
    text.push(41);
    proof {
        assert(text@ =~= spec_abort_call_text());
    }
    let call = Instruction {
        opcode: Opcode::Call,
        dest: None,
        operands: Vec::new(),
        width: None,
        ty: Vec::new(),
        text,
    };
    let stop = Instruction {
        opcode: Opcode::Unreachable,
        dest: None,
        operands: Vec::new(),
        width: None,
        ty: Vec::new(),
        text: Vec::new(),
    };
    let mut instrs: Vec<Instruction> = Vec::new();
    instrs.push(call);
    instrs.push(stop);
    let b = Block { name: crate::ir::name_abort(), instrs };
    proof {
        assert(b@.instrs =~= spec_abort_block().instrs) by {
            assert(b@.instrs[0] =~= spec_abort_block().instrs[0]);
            assert(b@.instrs[1] =~= spec_abort_block().instrs[1]);
        }
        assert(b@ =~= spec_abort_block());
    }
    b
}

/// Whether every function of `m` named `name` has only well-formed
/// blocks — the data-model invariant [`instrument`] asks of its target.
pub open spec fn function_wf(m: ModuleV, name: Seq<u8>) -> bool {
    forall|fi: int, bi: int|
        0 <= fi < m.functions.len() && m.functions[fi].name == name && 0 <= bi
            < m.functions[fi].blocks.len() ==> crate::ir::wf_block(
            #[trigger] m.functions[fi].blocks[bi],
        )
}

/// Adds runtime memory checks to the function named `function_name`.
///
/// On success the module gains the globals `protected_ptr` (null) and
/// `protected_offset` (zero), a declaration of `abort` if none was
/// present, and the target function is rewritten: its blocks stay well
/// formed under pairwise-distinct names, no call to `utx0` or `utx1`
/// remains, its last block is the abort block, every split block is
/// entered through the check guarding its own first access, and — when
/// the suppression pre-pass is off — every load and store that is not a
/// named stack slot or a window global sits at the head of such a split
/// block.  Every other function is untouched.
///
/// Succeeds exactly when the first function of the given name is
/// [`instrument_ready`].  Fails with [`IrError::MissingFunction`] —
/// leaving the module unchanged — exactly when no function has the
/// name, and with [`IrError::MalformedIr`] when the function is not
/// ready; the partially rewritten module is then the caller's to
/// discard.
/// Whether the pass can rewrite this function: its instruction and
/// named-alloca counts fit the machine's counters, every phi's printed
/// form shows one entry per operand and names a destination, and every
/// `utx1` call and every load and store carries the operands and width
/// the sweep reads.
pub open spec fn instrument_ready(f: FunV) -> bool {
    &&& icount_blocks(f.blocks, f.blocks.len() as int) < u64::MAX
    &&& acount_blocks(f.blocks, f.blocks.len() as int) < u64::MAX
    &&& forall|bi: int, k: int|
        0 <= bi < f.blocks.len() && 0 <= k < f.blocks[bi].instrs.len() ==> phi_renameable(
            #[trigger] f.blocks[bi].instrs[k],
        ) && sweep_shape_ok(f.blocks[bi].instrs[k])
}

/// Through both rename passes — blocks renamed, stack slots renamed —
/// every instruction keeps the shape the sweep reads: position for
/// position, the sweep can read the twice-renamed function exactly
/// where it could read the original.
proof fn lemma_ready_transfer(forig: FunV, renamed: FunV, fpost: FunV)
    requires
        renamed.blocks.len() == forig.blocks.len(),
        fpost.blocks.len() == renamed.blocks.len(),
        forall|bi: int|
            0 <= bi < renamed.blocks.len() ==> (#[trigger] renamed.blocks[bi]).instrs
                == forig.blocks[bi].instrs.map_values(
                |i: InstrV| rename_instr_spec(block_names(forig), i),
            ),
        forall|bi: int|
            0 <= bi < fpost.blocks.len() ==> (#[trigger] fpost.blocks[bi]).instrs.len()
                == renamed.blocks[bi].instrs.len(),
        forall|bi: int, k: int|
            0 <= bi < fpost.blocks.len() && 0 <= k < fpost.blocks[bi].instrs.len() ==> (
            #[trigger] fpost.blocks[bi].instrs[k]) == alloca_renamed_spec(
                renamed.blocks[bi].instrs[k],
                (acount_blocks(renamed.blocks, bi) + acount_instrs(
                    renamed.blocks[bi].instrs,
                    k,
                )) as nat,
                alloca_map(renamed),
            ),
    ensures
        forall|bi: int, k: int|
            0 <= bi < forig.blocks.len() && 0 <= k < forig.blocks[bi].instrs.len()
                ==> sweep_shape_ok(#[trigger] forig.blocks[bi].instrs[k]) == sweep_shape_ok(
                fpost.blocks[bi].instrs[k],
            ),
{
    assert forall|bi: int, k: int|
        0 <= bi < forig.blocks.len() && 0 <= k < forig.blocks[bi].instrs.len() implies sweep_shape_ok(
        #[trigger] forig.blocks[bi].instrs[k],
    ) == sweep_shape_ok(fpost.blocks[bi].instrs[k]) by {
        assert(renamed.blocks[bi].instrs[k] == rename_instr_spec(
            block_names(forig),
            forig.blocks[bi].instrs[k],
        ));
        lemma_shape_after_renames(
            block_names(forig),
            forig.blocks[bi].instrs[k],
            (acount_blocks(renamed.blocks, bi) + acount_instrs(
                renamed.blocks[bi].instrs,
                k,
            )) as nat,
            alloca_map(renamed),
        );
    }
}

/// When the first function of the name is not ready for the pass, no
/// function witnesses readiness under the first-of-its-name pattern.
proof fn lemma_only_first_ready(m: ModuleV, name: Seq<u8>, fi: int)
    requires
        0 <= fi < m.functions.len(),
        m.functions[fi].name == name,
        forall|j: int| 0 <= j < fi ==> (#[trigger] m.functions[j]).name != name,
        !instrument_ready(m.functions[fi]),
    ensures
        !(exists|fi2: int|
            0 <= fi2 < m.functions.len() && (#[trigger] m.functions[fi2]).name == name && (
            forall|j: int| 0 <= j < fi2 ==> (#[trigger] m.functions[j]).name != name)
                && instrument_ready(m.functions[fi2])),
{
    if exists|fi2: int|
        0 <= fi2 < m.functions.len() && (#[trigger] m.functions[fi2]).name == name && (forall|
            j: int,
        |
            0 <= j < fi2 ==> (#[trigger] m.functions[j]).name != name) && instrument_ready(
            m.functions[fi2],
        ) {
        let fi2 = choose|fi2: int|
            0 <= fi2 < m.functions.len() && (#[trigger] m.functions[fi2]).name == name && (forall|
                j: int,
            |
                0 <= j < fi2 ==> (#[trigger] m.functions[j]).name != name) && instrument_ready(
                m.functions[fi2],
            );
        if fi2 < fi {
            assert(m.functions[fi2].name != name);
        } else if fi < fi2 {
            assert(m.functions[fi].name != name);
        }
    }
}

#[verifier::rlimit(100)]
#[verifier::spinoff_prover]
pub fn instrument(
    function_name: &Vec<u8>,
    module: &mut IrModule,
    static_analysis: bool,
) -> (r: Result<(), IrError>)
    requires
        function_wf(old(module)@, function_name@),
    ensures
        r is Ok <==> exists|fi: int|
            0 <= fi < old(module)@.functions.len() && (#[trigger] old(
                module,
            )@.functions[fi]).name == function_name@ && (forall|j: int|
                0 <= j < fi ==> (#[trigger] old(module)@.functions[j]).name != function_name@)
                && instrument_ready(old(module)@.functions[fi]),
        match r {
            Ok(()) => exists|fi: int|
                {
                    &&& 0 <= fi < old(module)@.functions.len()
                    &&& (#[trigger] old(module)@.functions[fi]).name == function_name@
                    &&& forall|j: int|
                        0 <= j < fi ==> (#[trigger] old(module)@.functions[j]).name
                            != function_name@
                    &&& final(module)@.functions.len() == old(module)@.functions.len()
                    &&& forall|j: int|
                        0 <= j < old(module)@.functions.len() && j != fi
                            ==> final(module)@.functions[j] == #[trigger] old(module)@.functions[j]
                    &&& final(module)@.functions[fi].name == old(module)@.functions[fi].name
                    &&& final(module)@.functions[fi].blocks.len() >= 1
                    &&& final(module)@.functions[fi].blocks.last() == spec_abort_block()
                    &&& forall|bi: int|
                        0 <= bi < final(module)@.functions[fi].blocks.len()
                            ==> crate::ir::wf_block(
                            #[trigger] final(module)@.functions[fi].blocks[bi],
                        )
                    &&& forall|b1: int, b2: int|
                        0 <= b1 < b2 < final(module)@.functions[fi].blocks.len()
                            ==> (#[trigger] final(module)@.functions[fi].blocks[b1]).name
                            != (#[trigger] final(module)@.functions[fi].blocks[b2]).name
                    &&& forall|bi: int|
                        1 <= bi < final(module)@.functions[fi].blocks.len() && is_split_name(
                            (#[trigger] final(module)@.functions[fi].blocks[bi]).name,
                        ) ==> guarded_by_check(
                            final(module)@.functions[fi].blocks[bi - 1],
                            final(module)@.functions[fi].blocks[bi].name,
                            final(module)@.functions[fi].blocks[bi].instrs,
                        )
                    &&& forall|bi: int, k: int|
                        0 <= bi < final(module)@.functions[fi].blocks.len() && 0 <= k
                            < final(module)@.functions[fi].blocks[bi].instrs.len() ==> no_utx_call(
                            #[trigger] final(module)@.functions[fi].blocks[bi].instrs[k],
                        )
                    &&& !static_analysis ==> forall|bi: int, k: int|
                        0 <= bi < final(module)@.functions[fi].blocks.len() && 0 <= k
                            < final(module)@.functions[fi].blocks[bi].instrs.len() && needs_guard(
                            #[trigger] final(module)@.functions[fi].blocks[bi].instrs[k],
                        ) ==> k == 0 && is_split_name(final(module)@.functions[fi].blocks[bi].name)
                },
            Err(e) => e == IrError::MissingFunction ==> !crate::ir::has_function(
                old(module)@,
                function_name@,
            ) && final(module)@ == old(module)@,
        },
        !crate::ir::has_function(old(module)@, function_name@) ==> r == Err::<
            (),
            IrError,
        >(IrError::MissingFunction),
        r is Ok ==> final(module)@.globals == old(module)@.globals + seq![
            crate::ir::GlobalV { name: crate::ir::spec_protected_ptr(), init: GlobalInit::NullPtr },
            crate::ir::GlobalV {
                name: crate::ir::spec_protected_offset(),
                init: GlobalInit::IntVal(0),
            },
        ],
        r is Ok ==> final(module)@.decls == (if crate::ir::has_decl(
            old(module)@,
            crate::ir::spec_abort(),
        ) {
            old(module)@.decls
        } else {
            old(module)@.decls.push(crate::ir::spec_abort())
        }),
{
    let ghost m0 = module@;
    let fi = match crate::ir::find_function(module, function_name) {
        Some(fi) => fi,
        None => {
            proof {
                assert(!(exists|fi2: int|
                    0 <= fi2 < m0.functions.len() && (#[trigger] m0.functions[fi2]).name
                        == function_name@ && (forall|j: int|
                        0 <= j < fi2 ==> (#[trigger] m0.functions[j]).name != function_name@)
                        && instrument_ready(m0.functions[fi2]))) by {
                    if exists|fi2: int|
                        0 <= fi2 < m0.functions.len() && (#[trigger] m0.functions[fi2]).name
                            == function_name@ && (forall|j: int|
                            0 <= j < fi2 ==> (#[trigger] m0.functions[j]).name != function_name@)
                            && instrument_ready(m0.functions[fi2]) {
                        let fi2 = choose|fi2: int|
                            0 <= fi2 < m0.functions.len() && (#[trigger] m0.functions[fi2]).name
                                == function_name@ && (forall|j: int|
                                0 <= j < fi2 ==> (#[trigger] m0.functions[j]).name
                                    != function_name@) && instrument_ready(m0.functions[fi2]);
                        assert(crate::ir::has_function(m0, function_name@));
                    }
                }
            }
            return Err(IrError::MissingFunction);
        },
    };
    proof {
        assert(crate::ir::has_function(m0, function_name@)) by {
            assert(m0.functions[fi as int].name == function_name@);
        }
    }
    // Declare the external abort if it is not present.
    let abort_name = crate::ir::name_abort();
    let ghost d0 = module@.decls;
    if !crate::ir::find_decl(module, &abort_name) {
        module.decls.push(abort_name);
        proof {
            assert(module@.decls =~= d0.push(crate::ir::spec_abort()));
        }
    }
    // Install the window globals, initialised to the null sentinel.
    let ghost g0 = module@.globals;
    module.globals.push(
        GlobalVar { name: crate::ir::name_protected_ptr(), init: GlobalInit::NullPtr },
    );
    module.globals.push(
        GlobalVar { name: crate::ir::name_protected_offset(), init: GlobalInit::IntVal(0) },
    );
    proof {
        assert(module@.globals =~= g0 + seq![
            crate::ir::GlobalV { name: crate::ir::spec_protected_ptr(), init: GlobalInit::NullPtr },
            crate::ir::GlobalV {
                name: crate::ir::spec_protected_offset(),
                init: GlobalInit::IntVal(0),
            },
        ]);
        assert(module@.decls == (if crate::ir::has_decl(m0, crate::ir::spec_abort()) {
            m0.decls
        } else {
            m0.decls.push(crate::ir::spec_abort())
        }));
        assert(module@.functions == m0.functions);
    }
    let ghost fv0 = module.functions@;
    let mut f: IrFunction = module.functions.remove(fi);
    let ghost forig = f@;
    proof {
        assert(forig == m0.functions[fi as int]) by {
            assert(m0.functions[fi as int] == fv0[fi as int]@);
        }
    }
    // The counters of the passes must be able to number what they see.
    match count_instructions(&f) {
        Some(_) => (),
        None => {
            proof {
                assert(!instrument_ready(forig));
                lemma_only_first_ready(m0, function_name@, fi as int);
            }
            return Err(IrError::MalformedIr);
        },
    }
    match count_named_allocas(&f) {
        Some(_) => (),
        None => {
            proof {
                assert(!instrument_ready(forig));
                lemma_only_first_ready(m0, function_name@, fi as int);
            }
            return Err(IrError::MalformedIr);
        },
    }
    // Name the blocks, name the stack slots.
    let ghost nv0 = block_names(forig);
    match rename_blocks(&mut f) {
        Ok(()) => (),
        Err(e) => {
            proof {
                assert(!instrument_ready(forig)) by {
                    if instrument_ready(forig) {
                        let (bi, k) = choose|bi: int, k: int|
                            0 <= bi < forig.blocks.len() && 0 <= k < forig.blocks[bi].instrs.len()
                                && !phi_renameable(#[trigger] forig.blocks[bi].instrs[k]);
                        assert(phi_renameable(forig.blocks[bi].instrs[k]));
                    }
                }
                lemma_only_first_ready(m0, function_name@, fi as int);
            }
            return Err(e);
        },
    }
    let ghost renamed = f@;
    proof {
        // The stack renaming numbers the same allocas the original
        // shows, so its counter bound carries over.
        assert forall|bi: int, k: int|
            0 <= bi < renamed.blocks.len() && 0 <= k < renamed.blocks[bi].instrs.len() implies is_named_alloca(
            #[trigger] renamed.blocks[bi].instrs[k],
        ) == is_named_alloca(forig.blocks[bi].instrs[k]) by {
            assert(renamed.blocks[bi].instrs[k] == rename_instr_spec(
                nv0,
                forig.blocks[bi].instrs[k],
            ));
            lemma_shape_after_renames(
                nv0,
                forig.blocks[bi].instrs[k],
                0,
                Seq::<(Seq<u8>, Seq<u8>)>::empty(),
            );
        }
        lemma_acount_blocks_eq(renamed.blocks, forig.blocks, renamed.blocks.len() as int);
    }
    rename_allocas(&mut f);
    let ghost fpost = f@;
    let ghost amap1 = alloca_map(renamed);
    proof {
        assert forall|bi: int| 0 <= bi < f@.blocks.len() implies crate::ir::wf_block(
            #[trigger] f@.blocks[bi],
        ) by {
            assert(crate::ir::wf_block(forig.blocks[bi]));
            lemma_same_shape_wf(forig, f@);
        }
        assert forall|bi: int| 0 <= bi < f@.blocks.len() implies (#[trigger] f@.blocks[bi]).name
            == spec_bb_name(bi as nat) by {
            assert(f@.blocks[bi].name == renamed.blocks[bi].name);
        }
        // Shapes survive both renames, so the sweep's counter bound
        // carries over too.
        lemma_icount_blocks_eq(fpost.blocks, forig.blocks, fpost.blocks.len() as int);
    }
    proof {
        lemma_ready_transfer(forig, renamed, fpost);
    }
    // The sweep: lift the intrinsics, guard the accesses.
    let (nf, splits) = match instrument_blocks(module, f, static_analysis) {
        Ok(r) => r,
        Err(e) => {
            proof {
                let (bi, k) = choose|bi: int, k: int|
                    0 <= bi < fpost.blocks.len() && 0 <= k < fpost.blocks[bi].instrs.len()
                        && !sweep_shape_ok(#[trigger] fpost.blocks[bi].instrs[k]);
                assert(!sweep_shape_ok(forig.blocks[bi].instrs[k]));
                assert(!instrument_ready(forig));
                lemma_only_first_ready(m0, function_name@, fi as int);
            }
            return Err(e);
        },
    };
    proof {
        // Every stage accepted, so the original was ready for the pass.
        assert(instrument_ready(forig)) by {
            assert forall|bi: int, k: int|
                0 <= bi < forig.blocks.len() && 0 <= k < forig.blocks[bi].instrs.len() implies phi_renameable(
                #[trigger] forig.blocks[bi].instrs[k],
            ) && sweep_shape_ok(forig.blocks[bi].instrs[k]) by {
                assert(sweep_shape_ok(fpost.blocks[bi].instrs[k]));
            }
        }
    }
    let mut nf = nf;
    let ghost nf0 = nf@;
    // Retarget the phis the splits affected.
    update_phis(&mut nf, &splits);
    let ghost before_abort = nf@;
    // Append the abort block.
    nf.blocks.push(abort_block());
    proof {
        lemma_abort_block_shape();
        assert forall|b1: int, b2: int| 0 <= b1 < b2 < nf@.blocks.len() implies (
        #[trigger] nf@.blocks[b1]).name != (#[trigger] nf@.blocks[b2]).name by {
            if b2 < before_abort.blocks.len() {
                assert(nf@.blocks[b1] == before_abort.blocks[b1]);
                assert(nf@.blocks[b2] == before_abort.blocks[b2]);
            } else {
                assert(nf@.blocks[b1] == before_abort.blocks[b1]);
                assert(nf@.blocks[b2] == spec_abort_block());
                lemma_pass_name_any_not_abort(before_abort.blocks[b1].name);
            }
        }
        assert forall|bi: int| 0 <= bi < nf@.blocks.len() implies crate::ir::wf_block(
            #[trigger] nf@.blocks[bi],
        ) by {
            if bi < before_abort.blocks.len() {
                assert(nf@.blocks[bi] == before_abort.blocks[bi]);
            } else {
                assert(nf@.blocks[bi] == spec_abort_block());
            }
        }
        assert forall|bi: int, k: int|
            0 <= bi < nf@.blocks.len() && 0 <= k < nf@.blocks[bi].instrs.len() implies no_utx_call(
            #[trigger] nf@.blocks[bi].instrs[k],
        ) by {
            if bi < before_abort.blocks.len() {
                assert(nf@.blocks[bi] == before_abort.blocks[bi]);
            } else {
                assert(nf@.blocks[bi] == spec_abort_block());
            }
        }
        if !static_analysis {
            assert forall|bi: int, k: int|
                0 <= bi < nf@.blocks.len() && 0 <= k < nf@.blocks[bi].instrs.len() && needs_guard(
                    #[trigger] nf@.blocks[bi].instrs[k],
                ) implies k == 0 && is_split_name(nf@.blocks[bi].name) by {
                if bi < before_abort.blocks.len() {
                    assert(nf@.blocks[bi] == before_abort.blocks[bi]);
                    // A guarded access is a load or store, never a phi:
                    // the retargeting pass left it where it stood.
                    assert(before_abort.blocks[bi].instrs[k].opcode != Opcode::Phi);
                    assert(before_abort.blocks[bi].instrs[k] == nf0.blocks[bi].instrs[k]);
                    assert(before_abort.blocks[bi].name == nf0.blocks[bi].name);
                } else {
                    assert(nf@.blocks[bi] == spec_abort_block());
                }
            }
        }
        assert forall|bi: int|
            1 <= bi < nf@.blocks.len() && is_split_name(
                (#[trigger] nf@.blocks[bi]).name,
            ) implies guarded_by_check(
            nf@.blocks[bi - 1],
            nf@.blocks[bi].name,
            nf@.blocks[bi].instrs,
        ) by {
            if bi < before_abort.blocks.len() {
                assert(nf@.blocks[bi] == before_abort.blocks[bi]);
                assert(nf@.blocks[bi - 1] == before_abort.blocks[bi - 1]);
                // The phi retargeting changed no split block's first
                // access and none of the check's instructions: none of
                // them is a phi.
                assert(before_abort.blocks[bi].name == nf0.blocks[bi].name);
                assert(is_split_name(nf0.blocks[bi].name));
                assert(guarded_by_check(
                    nf0.blocks[bi - 1],
                    nf0.blocks[bi].name,
                    nf0.blocks[bi].instrs,
                ));
                assert(nf0.blocks[bi].instrs[0].opcode != Opcode::Phi);
                assert(before_abort.blocks[bi].instrs[0] == nf0.blocks[bi].instrs[0]);
                let p0 = nf0.blocks[bi - 1];
                let p1 = before_abort.blocks[bi - 1];
                let name0 = nf0.blocks[bi].name;
                let ap = crate::static_checks::access_ptr(nf0.blocks[bi].instrs[0])->Some_0;
                let w0 = nf0.blocks[bi].instrs[0].width->Some_0;
                assert(p1.instrs.len() == p0.instrs.len());
                crate::checks::lemma_check_seq_shape(name0, ap, w0, name0);
                assert forall|m: int| 0 <= m < 12 implies #[trigger] p1.instrs.skip(
                    p1.instrs.len() - 12,
                )[m] == p0.instrs.skip(p0.instrs.len() - 12)[m] by {
                    assert(p0.instrs.skip(p0.instrs.len() - 12)[m] == p0.instrs[p0.instrs.len()
                        - 12 + m]);
                    assert(p1.instrs.skip(p1.instrs.len() - 12)[m] == p1.instrs[p1.instrs.len()
                        - 12 + m]);
                    assert(p0.instrs[p0.instrs.len() - 12 + m] == crate::checks::check_seq(
                        name0,
                        ap,
                        w0,
                        name0,
                    )[m]);
                    assert(p0.instrs[p0.instrs.len() - 12 + m].opcode != Opcode::Phi);
                    assert(p1.instrs[p1.instrs.len() - 12 + m] == p0.instrs[p0.instrs.len() - 12
                        + m]);
                }
                assert(p1.instrs.skip(p1.instrs.len() - 12) =~= p0.instrs.skip(
                    p0.instrs.len() - 12,
                ));
            } else {
                assert(nf@.blocks[bi] == spec_abort_block());
                assert(!is_split_name(crate::ir::spec_abort())) by {
                    if exists|j: int|
                        0 <= j && crate::ir::spec_abort() == #[trigger] spec_split_name(
                            true,
                            j as nat,
                        ) {
                        let j = choose|j: int|
                            0 <= j && crate::ir::spec_abort() == #[trigger] spec_split_name(
                                true,
                                j as nat,
                            );
                        lemma_pass_name_facts(j as nat, j as nat);
                    }
                    if exists|j: int|
                        0 <= j && crate::ir::spec_abort() == #[trigger] spec_split_name(
                            false,
                            j as nat,
                        ) {
                        let j = choose|j: int|
                            0 <= j && crate::ir::spec_abort() == #[trigger] spec_split_name(
                                false,
                                j as nat,
                            );
                        lemma_pass_name_facts(j as nat, j as nat);
                    }
                }
            }
        }
    }
    let ghost fpre = module.functions@;
    module.functions.insert(fi, nf);
    proof {
        assert forall|j: int|
            0 <= j < m0.functions.len() && j != fi as int implies module@.functions[j]
            == #[trigger] m0.functions[j] by {
            assert(module@.functions[j] == module.functions@[j]@);
            if j < fi as int {
                assert(module.functions@[j] == fpre[j]);
                assert(fpre[j] == fv0[j]);
                assert(m0.functions[j] == fv0[j]@);
            } else {
                assert(module.functions@[j] == fpre[j - 1]);
                assert(fpre[j - 1] == fv0[j]);
                assert(m0.functions[j] == fv0[j]@);
            }
        }
        assert(module@.functions.len() == m0.functions.len());
        assert(module@.functions[fi as int] == module.functions@[fi as int]@);
    }
    Ok(())
}

/// What following the renames from position `i` on leaves of the name
/// `n`: each pair whose first name matches the running name replaces it
/// with its second, so a chain of splits is followed to its last block.
pub open spec fn chase_spec(renames: Seq<(Seq<u8>, Seq<u8>)>, n: Seq<u8>, i: int) -> Seq<u8>
    decreases renames.len() - i,
    when 0 <= i <= renames.len()
{
    if i >= renames.len() {
        n
    } else {
        chase_spec(
            renames,
            if n == renames[i].0 {
                renames[i].1
            } else {
                n
            },
            i + 1,
        )
    }
}

/// Follows `renames` through `n`, in order.
fn chase_renames(renames: &Vec<(Vec<u8>, Vec<u8>)>, n: Vec<u8>) -> (r: Vec<u8>)
    ensures
        r@ == chase_spec(crate::static_checks::pairs_view(renames@), n@, 0),
{
    let ghost rv = crate::static_checks::pairs_view(renames@);
    let ghost n0 = n@;
    let mut cur = n;
    let mut i: usize = 0;
    while i < renames.len()
        invariant
            i <= renames@.len(),
            rv == crate::static_checks::pairs_view(renames@),
            chase_spec(rv, cur@, i as int) == chase_spec(rv, n0, 0),
        decreases renames@.len() - i,
    {
        proof {
            assert(rv[i as int] == (renames@[i as int].0@, renames@[i as int].1@));
        }
        if crate::bytes::eq_bytes(&renames[i].0, &cur) {
            cur = crate::bytes::copy_bytes(&renames[i].1);
        }
        i += 1;
    }
    cur
}

} // verus!
