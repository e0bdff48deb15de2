//! Static checks for protected memory accesses.
//!
//! The standalone verifier walks a function in program order, maintains a
//! shadow of the protected window — set by each `utx1(p, n)` call whose
//! length is a constant — and accepts the function only if every load and
//! store is provably inside the window: either the accessed pointer is
//! literally the window base, or it is a constant `getelementptr`
//! expression over the same base global whose constant offset plus the
//! access width fits in the declared length.  Anything it cannot prove is
//! a rejection, never an error.
//!
//! The same per-access test serves the instrumentation pass as a
//! suppression pre-pass: a proven access needs no runtime check.
//!
//! The module also provides call elision: removing every call to a named
//! callee from a function.

use vstd::prelude::*;

use crate::IrError;
use crate::bytes::{has_sub, parse_dec_spec};
use crate::ir::{
    Block, BlockV, FunV, GlobalVar, Instruction, InstrV, IrFunction, IrModule, ModuleV, Opcode,
    Operand, OpV,
};
use crate::navigator::word_end;

verus! {

/// The byte string `i64`, the one element type the constant-offset
/// reasoning understands.
pub open spec fn spec_i64_token() -> Seq<u8> {
    seq![105u8, 54u8, 52u8]
}

/// The byte string `i64`.
pub fn name_i64_token() -> (r: Vec<u8>)
    ensures
        r@ == spec_i64_token(),
{
    let mut r: Vec<u8> = Vec::new();
    r.push(105);
    r.push(54);
    r.push(52);
    proof {
        assert(r@ =~= spec_i64_token());
    }
    r
}

/// The byte size of the element type named by a type token.  Only `i64`
/// is understood; callers test the token first.
pub fn _get_type_as_str_size(type_as_str: &Vec<u8>) -> (r: i64)
    requires
        type_as_str@ == spec_i64_token(),
    ensures
        r == 8,
{
    8
}

/// The array type pattern matched at position `i` of a printed constant
/// `getelementptr`: a word run (the element count), ` x `, and a second
/// word run (the element type).  Yields the bounds of both runs.
pub open spec fn type_match_at(t: Seq<u8>, i: int) -> Option<(int, int, int, int)> {
    if !(0 <= i && i <= t.len()) {
        None
    } else {
        let c1 = word_end(t, i);
        if c1 == i {
            None
        } else if !(c1 + 2 < t.len() && t[c1] == 32 && t[c1 + 1] == 120 && t[c1 + 2] == 32) {
            None
        } else {
            let y0 = c1 + 3;
            let y1 = word_end(t, y0);
            if y1 == y0 {
                None
            } else {
                Some((i, c1, y0, y1))
            }
        }
    }
}

/// The first position at or after `i` where the array type pattern
/// matches, with its bounds.
pub open spec fn find_type_match(t: Seq<u8>, i: int) -> Option<(int, int, int, int)>
    decreases t.len() - i,
    when 0 <= i <= t.len()
{
    if i >= t.len() {
        None
    } else {
        match type_match_at(t, i) {
            Some(m) => Some(m),
            None => find_type_match(t, i + 1),
        }
    }
}

/// A matched array type pattern lies inside the text.
pub proof fn lemma_type_match_at(t: Seq<u8>, i: int)
    requires
        type_match_at(t, i) is Some,
    ensures
        ({
            let (c0, c1, y0, y1) = type_match_at(t, i)->Some_0;
            i == c0 < c1 && c1 + 3 == y0 < y1 <= t.len()
        }),
{
    crate::navigator::lemma_word_end(t, i);
    let c1 = word_end(t, i);
    crate::navigator::lemma_word_end(t, c1 + 3);
}

/// The array type pattern matched at position `i`, if any.
pub fn type_match(t: &Vec<u8>, i: usize) -> (r: Option<(usize, usize, usize, usize)>)
    requires
        i <= t@.len(),
    ensures
        match r {
            Some((c0, c1, y0, y1)) => type_match_at(t@, i as int) == Some(
                (c0 as int, c1 as int, y0 as int, y1 as int),
            ),
            None => type_match_at(t@, i as int) is None,
        },
{
    proof {
        assert(t@.len() == t.len());
    }
    let c1 = crate::navigator::find_word_end(t, i);
    proof {
        crate::navigator::lemma_word_end(t@, i as int);
    }
    if c1 == i {
        return None;
    }
    if !(t.len() - c1 > 2 && t[c1] == 32 && t[c1 + 1] == 120 && t[c1 + 2] == 32) {
        return None;
    }
    let y0 = c1 + 3;
    let y1 = crate::navigator::find_word_end(t, y0);
    proof {
        crate::navigator::lemma_word_end(t@, y0 as int);
    }
    if y1 == y0 {
        return None;
    }
    Some((i, c1, y0, y1))
}

/// The first match of the array type pattern in `t`, if any.
pub fn find_type(t: &Vec<u8>) -> (r: Option<(usize, usize, usize, usize)>)
    ensures
        match r {
            Some((c0, c1, y0, y1)) => find_type_match(t@, 0) == Some(
                (c0 as int, c1 as int, y0 as int, y1 as int),
            ),
            None => find_type_match(t@, 0) is None,
        },
{
    proof {
        assert(t@.len() == t.len());
    }
    let mut i: usize = 0;
    while i < t.len()
        invariant
            i <= t@.len(),
            find_type_match(t@, 0) == find_type_match(t@, i as int),
        decreases t@.len() - i,
    {
        match type_match(t, i) {
            Some(m) => {
                return Some(m);
            },
            None => {
                i += 1;
            },
        }
    }
    None
}

/// A found array type pattern is the match at its own first position.
pub proof fn lemma_find_type_match(t: Seq<u8>, i: int)
    requires
        0 <= i <= t.len(),
        find_type_match(t, i) is Some,
    ensures
        type_match_at(t, find_type_match(t, i)->Some_0.0) == find_type_match(t, i),
    decreases t.len() - i,
{
    if i < t.len() && type_match_at(t, i) is None {
        lemma_find_type_match(t, i + 1);
    }
}

/// The operand pattern matched at position `i` of a printed constant
/// `getelementptr`: `, `, a word run (the operand's type token), a space,
/// and a symbol — an optional `@` followed by a word run.  Yields the
/// bounds of the type token and of the symbol (the `@` included); the
/// match ends where the symbol does.
pub open spec fn op_match_at(t: Seq<u8>, i: int) -> Option<(int, int, int, int)> {
    if !(0 <= i && i + 1 < t.len() && t[i] == 44 && t[i + 1] == 32) {
        None
    } else {
        let t0 = i + 2;
        let t1 = word_end(t, t0);
        if t1 == t0 {
            None
        } else if !(t1 < t.len() && t[t1] == 32) {
            None
        } else {
            let s0 = t1 + 1;
            if s0 < t.len() && t[s0] == 64 {
                let s1 = word_end(t, s0 + 1);
                if s1 == s0 + 1 {
                    None
                } else {
                    Some((t0, t1, s0, s1))
                }
            } else {
                let s1 = word_end(t, s0);
                if s1 == s0 {
                    None
                } else {
                    Some((t0, t1, s0, s1))
                }
            }
        }
    }
}

/// A matched operand pattern lies inside the text, after the position it
/// was found at.
pub proof fn lemma_op_match_at(t: Seq<u8>, i: int)
    requires
        op_match_at(t, i) is Some,
    ensures
        ({
            let (t0, t1, s0, s1) = op_match_at(t, i)->Some_0;
            i + 2 == t0 < t1 && t1 + 1 == s0 < s1 <= t.len()
        }),
{
    crate::navigator::lemma_word_end(t, i + 2);
    let t1 = word_end(t, i + 2);
    crate::navigator::lemma_word_end(t, t1 + 1);
    crate::navigator::lemma_word_end(t, t1 + 2);
}

/// The operand pattern matched at position `i`, if any.
pub fn op_match(t: &Vec<u8>, i: usize) -> (r: Option<(usize, usize, usize, usize)>)
    ensures
        match r {
            Some((t0, t1, s0, s1)) => op_match_at(t@, i as int) == Some(
                (t0 as int, t1 as int, s0 as int, s1 as int),
            ),
            None => op_match_at(t@, i as int) is None,
        },
{
    proof {
        assert(t@.len() == t.len());
    }
    if !(i < t.len() && t.len() - i > 1 && t[i] == 44 && t[i + 1] == 32) {
        return None;
    }
    let t0 = i + 2;
    let t1 = crate::navigator::find_word_end(t, t0);
    proof {
        crate::navigator::lemma_word_end(t@, t0 as int);
    }
    if t1 == t0 {
        return None;
    }
    if !(t1 < t.len() && t[t1] == 32) {
        return None;
    }
    let s0 = t1 + 1;
    if s0 < t.len() && t[s0] == 64 {
        let s1 = crate::navigator::find_word_end(t, s0 + 1);
        proof {
            crate::navigator::lemma_word_end(t@, s0 + 1);
        }
        if s1 == s0 + 1 {
            return None;
        }
        Some((t0, t1, s0, s1))
    } else {
        let s1 = crate::navigator::find_word_end(t, s0);
        proof {
            crate::navigator::lemma_word_end(t@, s0 as int);
        }
        if s1 == s0 {
            return None;
        }
        Some((t0, t1, s0, s1))
    }
}

/// The `(type token, symbol)` pairs of the operand pattern matches from
/// position `i` on, in order, skipping unmatched bytes and continuing
/// after each match.
pub open spec fn gep_ops_from(t: Seq<u8>, i: int) -> Seq<(Seq<u8>, Seq<u8>)>
    decreases t.len() - i,
    when 0 <= i <= t.len()
    via gep_ops_from_decreases
{
    if i >= t.len() {
        Seq::empty()
    } else {
        match op_match_at(t, i) {
            Some((t0, t1, s0, s1)) => seq![(t.subrange(t0, t1), t.subrange(s0, s1))]
                + gep_ops_from(t, s1),
            None => gep_ops_from(t, i + 1),
        }
    }
}

#[via_fn]
proof fn gep_ops_from_decreases(t: Seq<u8>, i: int) {
    if 0 <= i < t.len() && op_match_at(t, i) is Some {
        lemma_op_match_at(t, i);
    }
}

/// The view of a list of byte-string pairs.
pub open spec fn pairs_view(v: Seq<(Vec<u8>, Vec<u8>)>) -> Seq<(Seq<u8>, Seq<u8>)> {
    v.map_values(|p: (Vec<u8>, Vec<u8>)| (p.0@, p.1@))
}

/// What parsing a printed constant `getelementptr` yields: the element
/// count and element type of the array operand, then one `(type token,
/// symbol)` pair per matched operand — the base symbol first, then the
/// indices.  Nothing when the array type pattern does not occur.
pub open spec fn parse_gep_spec(t: Seq<u8>) -> Option<Seq<(Seq<u8>, Seq<u8>)>> {
    match find_type_match(t, 0) {
        Some((c0, c1, y0, y1)) => Some(
            seq![(t.subrange(c0, c1), t.subrange(y0, y1))] + gep_ops_from(t, 0),
        ),
        None => None,
    }
}

/// Parses a printed constant `getelementptr` into `(type token, value)`
/// pairs: the `(element count, element type)` pair first, then one pair
/// per operand.  Yields nothing when the printed form does not show an
/// array type.
pub fn _parse_gep(gep: &Vec<u8>) -> (r: Option<Vec<(Vec<u8>, Vec<u8>)>>)
    ensures
        match r {
            Some(v) => parse_gep_spec(gep@) == Some(pairs_view(v@)),
            None => parse_gep_spec(gep@) is None,
        },
{
    proof {
        assert(gep@.len() == gep.len());
    }
    let tm = match find_type(gep) {
        Some(m) => m,
        None => {
            return None;
        },
    };
    let (c0, c1, y0, y1) = tm;
    proof {
        lemma_find_type_match(gep@, 0);
        lemma_type_match_at(gep@, c0 as int);
    }
    let mut ops: Vec<(Vec<u8>, Vec<u8>)> = Vec::new();
    ops.push((crate::bytes::copy_range(gep, c0, c1), crate::bytes::copy_range(gep, y0, y1)));
    let ghost head = seq![(gep@.subrange(c0 as int, c1 as int), gep@.subrange(y0 as int, y1 as int))];
    proof {
        assert(pairs_view(ops@) =~= head);
    }
    let mut i: usize = 0;
    while i < gep.len()
        invariant
            i <= gep@.len(),
            head + gep_ops_from(gep@, 0) == pairs_view(ops@) + gep_ops_from(gep@, i as int),
        decreases gep@.len() - i,
    {
        match op_match(gep, i) {
            Some((t0, t1, s0, s1)) => {
                proof {
                    lemma_op_match_at(gep@, i as int);
                }
                ops.push(
                    (crate::bytes::copy_range(gep, t0, t1), crate::bytes::copy_range(gep, s0, s1)),
                );
                proof {
                    assert(head + gep_ops_from(gep@, 0) =~= pairs_view(ops@) + gep_ops_from(
                        gep@,
                        s1 as int,
                    ));
                }
                i = s1;
            },
            None => {
                i += 1;
            },
        }
    }
    proof {
        assert(gep_ops_from(gep@, i as int) =~= Seq::<(Seq<u8>, Seq<u8>)>::empty());
        assert(pairs_view(ops@) =~= head + gep_ops_from(gep@, 0));
    }
    Some(ops)
}

/// `s` with every `@` removed.
pub open spec fn strip_at(s: Seq<u8>) -> Seq<u8> {
    s.filter(|c: u8| c != 64)
}

/// Filtering keeps a sequence all of whose elements it keeps.
proof fn lemma_filter_all<A>(s: Seq<A>, pred: spec_fn(A) -> bool)
    requires
        forall|i: int| 0 <= i < s.len() ==> pred(#[trigger] s[i]),
    ensures
        s.filter(pred) == s,
    decreases s.len(),
{
    reveal(Seq::filter);
    if s.len() > 0 {
        lemma_filter_all(s.drop_last(), pred);
        assert(s.drop_last().push(s.last()) =~= s);
    }
}

/// Filtering a single element keeps it exactly when the predicate holds.
proof fn lemma_filter_singleton<A>(x: A, pred: spec_fn(A) -> bool)
    ensures
        pred(x) ==> seq![x].filter(pred) == seq![x],
        !pred(x) ==> seq![x].filter(pred) == Seq::<A>::empty(),
{
    reveal(Seq::filter);
    assert(seq![x].drop_last() =~= Seq::<A>::empty());
    assert(Seq::<A>::empty().filter(pred) =~= Seq::<A>::empty());
    if pred(x) {
        assert(seq![x].filter(pred) =~= seq![x]);
    }
}

/// Removes every `@` from a byte string.
pub fn remove_at(v: &Vec<u8>) -> (r: Vec<u8>)
    ensures
        r@ == strip_at(v@),
{
    broadcast use vstd::seq_lib::group_filter_ensures;

    let mut r: Vec<u8> = Vec::new();
    let mut k: usize = 0;
    while k < v.len()
        invariant
            k <= v@.len(),
            r@ == strip_at(v@.subrange(0, k as int)),
        decreases v@.len() - k,
    {
        proof {
            assert(v@.subrange(0, k + 1) =~= v@.subrange(0, k as int) + seq![v@[k as int]]);
            lemma_filter_singleton(v@[k as int], |c: u8| c != 64);
        }
        if v[k] != 64 {
            r.push(v[k]);
        }
        k += 1;
    }
    proof {
        assert(v@.subrange(0, v@.len() as int) =~= v@);
    }
    r
}

/// The shadow of the protected window: the base pointer and the constant
/// length of the most recent `utx1` whose length was constant, if any.
pub type ShadowV = Option<(OpV, u64)>;

/// What a `utx1` call sets the shadow window to: its pointer and length
/// operands when they have the expected shapes, nothing otherwise.
pub open spec fn utx1_shadow(i: InstrV) -> ShadowV {
    if i.operands.len() >= 2 && crate::ir::spec_is_pointer(i.operands[0]) && i.operands[1] is ConstInt {
        Some((i.operands[0], i.operands[1]->ConstInt_0))
    } else {
        None
    }
}

/// How one instruction changes the shadow window: a call whose printed
/// form names `utx1` resets it, everything else leaves it alone.
pub open spec fn step_shadow(s: ShadowV, i: InstrV) -> ShadowV {
    if i.opcode == Opcode::Call && has_sub(i.text, crate::ir::spec_utx1()) {
        utx1_shadow(i)
    } else {
        s
    }
}

/// The pointer a load or store accesses: operand 0 of a load, operand 1
/// of a store, provided it is a pointer value.
pub open spec fn access_ptr(i: InstrV) -> Option<OpV> {
    if i.opcode == Opcode::Load {
        if i.operands.len() >= 1 && crate::ir::spec_is_pointer(i.operands[0]) {
            Some(i.operands[0])
        } else {
            None
        }
    } else if i.opcode == Opcode::Store {
        if i.operands.len() >= 2 && crate::ir::spec_is_pointer(i.operands[1]) {
            Some(i.operands[1])
        } else {
            None
        }
    } else {
        None
    }
}

/// Whether a constant `getelementptr` with the given printed form is
/// provably inside the window `(p, n)`: the element type is `i64`, the
/// base symbol names a global of the module and that global is the window
/// base, the outer index is zero, and the element offset times the
/// element size plus the access width fits in the length.
pub open spec fn gep_protected(m: ModuleV, p: OpV, n: u64, text: Seq<u8>, w: u64) -> bool {
    match parse_gep_spec(text) {
        Some(ops) => ops.len() >= 4 && ops[0].1 == spec_i64_token() && {
            let base = strip_at(ops[1].1);
            let idx0 = parse_dec_spec(ops[2].1);
            let idx1 = parse_dec_spec(ops[3].1);
            idx0 == Some(0u64) && idx1 is Some && crate::ir::has_global(m, base) && p == OpV::Global(
                base,
            ) && idx1->Some_0 * 8 + w <= n
        },
        None => false,
    }
}

/// Whether an access through `ptr` of width `w` is provably inside the
/// shadow window: the pointer is literally the window base and the width
/// fits, or it is a constant `getelementptr` that [`gep_protected`]
/// accepts.
pub open spec fn protected_spec(m: ModuleV, s: ShadowV, ptr: OpV, w: u64) -> bool {
    match s {
        Some((p, n)) => (ptr == p && n >= w) || match ptr {
            OpV::ConstGep(text) => gep_protected(m, p, n, text, w),
            _ => false,
        },
        None => false,
    }
}

/// The view of an executable shadow window.
pub open spec fn shadow_view(s: Option<(Operand, u64)>) -> ShadowV {
    match s {
        Some((p, n)) => Some((p@, n)),
        None => None,
    }
}

/// Checks whether a pointer value is provably in the protected range.
///
/// The pointer is protected when it is literally the shadow base and the
/// width fits in the shadow length, or when it is a constant
/// `getelementptr` whose parsed base global is the shadow base and whose
/// constant offset plus the width fits in the shadow length.
pub fn _is_address_protected(
    module: &IrModule,
    protected_mem: &Option<(Operand, u64)>,
    ptr: &Operand,
    alignment: u64,
) -> (r: bool)
    ensures
        r == protected_spec(module@, shadow_view(*protected_mem), ptr@, alignment),
{
    let (protected_ptr, protected_offset) = match protected_mem {
        Some((p, n)) => (p, *n),
        None => {
            return false;
        },
    };
    // Protected pointer and pointer accessed are the same value.
    if crate::ir::operand_eq(protected_ptr, ptr) && protected_offset >= alignment {
        return true;
    }
    // Otherwise only a constant getelementptr can be decided statically.
    let gep_text = match ptr {
        Operand::ConstGep(text) => text,
        _ => {
            return false;
        },
    };
    let ops = match _parse_gep(gep_text) {
        Some(ops) => ops,
        None => {
            return false;
        },
    };
    if ops.len() < 4 {
        return false;
    }
    let i64_token = name_i64_token();
    if !crate::bytes::eq_bytes(&ops[0].1, &i64_token) {
        return false;
    }
    let size = _get_type_as_str_size(&ops[0].1);
    // The first operand is the base pointer; remove the `@`.
    let base = remove_at(&ops[1].1);
    let first_index = match crate::bytes::parse_dec(&ops[2].1) {
        Some(v) => v,
        None => {
            return false;
        },
    };
    // Any outer offset leaves the array.
    if first_index > 0 {
        return false;
    }
    let offset = match crate::bytes::parse_dec(&ops[3].1) {
        Some(v) => v,
        None => {
            return false;
        },
    };
    // The base symbol must name a global of the module.
    if crate::ir::find_global(module, &base).is_none() {
        return false;
    }
    // The shadow base must be that same global.
    let same_base = match protected_ptr {
        Operand::Global(g) => crate::bytes::eq_bytes(g, &base),
        _ => false,
    };
    if !same_base {
        return false;
    }
    // offset * size + alignment <= protected_offset, without overflowing.
    let size_u = 8u64;
    proof {
        assert(size == 8);
    }
    if alignment > protected_offset {
        return false;
    }
    let room = (protected_offset - alignment) / size_u;
    let r = offset <= room;
    proof {
        assert(r == (offset * 8 + alignment <= protected_offset)) by (nonlinear_arith)
            requires
                room == (protected_offset - alignment) / 8 && alignment <= protected_offset && r
                    == (offset <= room),
        ;
    }
    r
}

/// Suppression soundness, base case: when the accessed pointer is
/// literally the window base at address `b` and the width fits in the
/// declared length, the access does not violate the window — so
/// suppressing its runtime check loses nothing.
pub proof fn lemma_protected_base_in_window(b: int, n: u64, w: u64)
    requires
        w <= n,
    ensures
        !crate::checks::window_violated(false, b, n as int, b, w as int),
{
}

/// Suppression soundness, constant `getelementptr` case: under the
/// natural address reading of the accepted expression — the base
/// global's address plus eight bytes per element index — an access that
/// [`gep_protected`] accepts lies inside the window `[base_addr,
/// base_addr + n)`, so suppressing its runtime check loses nothing.
pub proof fn lemma_protected_gep_in_window(
    m: ModuleV,
    p: OpV,
    n: u64,
    text: Seq<u8>,
    w: u64,
    base_addr: int,
)
    requires
        gep_protected(m, p, n, text, w),
    ensures
        ({
            let ops = parse_gep_spec(text)->Some_0;
            let idx = parse_dec_spec(ops[3].1)->Some_0;
            !crate::checks::window_violated(
                false,
                base_addr,
                n as int,
                base_addr + idx * 8,
                w as int,
            )
        }),
{
}

/// Whether a load or store is provably inside the shadow window; an
/// access whose pointer or width cannot be read is never provable.
pub open spec fn access_ok(m: ModuleV, s: ShadowV, i: InstrV) -> bool {
    match (access_ptr(i), i.width) {
        (Some(p), Some(w)) => protected_spec(m, s, p, w),
        _ => false,
    }
}

/// Whether every load and store of `is` from position `k` on is provably
/// inside the shadow window, threading the shadow through the calls.
pub open spec fn instrs_safe(m: ModuleV, is: Seq<InstrV>, k: int, s: ShadowV) -> bool
    decreases is.len() - k,
    when 0 <= k <= is.len()
{
    if k >= is.len() {
        true
    } else {
        (match is[k].opcode {
            Opcode::Load => access_ok(m, s, is[k]),
            Opcode::Store => access_ok(m, s, is[k]),
            _ => true,
        }) && instrs_safe(m, is, k + 1, step_shadow(s, is[k]))
    }
}

/// The shadow window after the instructions of `is` from position `k` on.
pub open spec fn shadow_after(is: Seq<InstrV>, k: int, s: ShadowV) -> ShadowV
    decreases is.len() - k,
    when 0 <= k <= is.len()
{
    if k >= is.len() {
        s
    } else {
        shadow_after(is, k + 1, step_shadow(s, is[k]))
    }
}

/// Whether every load and store of the blocks from position `b` on is
/// provably inside the shadow window.
pub open spec fn blocks_safe(m: ModuleV, bs: Seq<BlockV>, b: int, s: ShadowV) -> bool
    decreases bs.len() - b,
    when 0 <= b <= bs.len()
{
    if b >= bs.len() {
        true
    } else {
        instrs_safe(m, bs[b].instrs, 0, s) && blocks_safe(
            m,
            bs,
            b + 1,
            shadow_after(bs[b].instrs, 0, s),
        )
    }
}

/// The verdict of the standalone verifier on a function: every load and
/// store is provably inside the window declared by the most recent
/// constant-length `utx1`, sweeping blocks and instructions in program
/// order from an unset window.
pub open spec fn verify_spec(m: ModuleV, f: FunV) -> bool {
    blocks_safe(m, f.blocks, 0, None)
}

/// What one instruction does to the executable shadow window, mirroring
/// [`step_shadow`].
fn step_shadow_exec(s: Option<(Operand, u64)>, instr: &Instruction) -> (r: Option<(Operand, u64)>)
    ensures
        shadow_view(r) == step_shadow(shadow_view(s), instr@),
{
    if matches!(instr.opcode, Opcode::Call) {
        let utx1 = crate::ir::name_utx1();
        if crate::bytes::contains_sub(&instr.text, &utx1) {
            // A utx1 call: take its pointer and constant length, if they
            // have the expected shapes.
            if instr.operands.len() >= 2 {
                let is_ptr = match crate::navigator::operand_as_pointer(instr, 0) {
                    Ok(_) => true,
                    Err(_) => false,
                };
                if is_ptr {
                    match &instr.operands[1] {
                        Operand::ConstInt(n) => {
                            let p = crate::ir::copy_operand(&instr.operands[0]);
                            return Some((p, *n));
                        },
                        _ => {
                            return None;
                        },
                    }
                }
            }
            return None;
        }
    }
    s
}

/// Statically verifies that every memory access of `function` is safe.
///
/// Sweeps the function in program order, tracking the window declared by
/// `utx1` calls, and returns `true` exactly when every load and store is
/// provably inside the current window.
pub fn verify(module: &IrModule, function: &IrFunction) -> (r: bool)
    ensures
        r == verify_spec(module@, function@),
{
    let mut protected_mem: Option<(Operand, u64)> = None;
    let mut b: usize = 0;
    while b < function.blocks.len()
        invariant
            b <= function@.blocks.len(),
            verify_spec(module@, function@) == blocks_safe(
                module@,
                function@.blocks,
                b as int,
                shadow_view(protected_mem),
            ),
        decreases function@.blocks.len() - b,
    {
        let block = &function.blocks[b];
        let ghost s0 = shadow_view(protected_mem);
        let mut k: usize = 0;
        while k < block.instrs.len()
            invariant
                k <= block@.instrs.len(),
                block@ == function@.blocks[b as int],
                b < function@.blocks.len(),
                instrs_safe(module@, block@.instrs, k as int, shadow_view(protected_mem))
                    == instrs_safe(module@, block@.instrs, 0, s0),
                shadow_after(block@.instrs, k as int, shadow_view(protected_mem)) == shadow_after(
                    block@.instrs,
                    0,
                    s0,
                ),
                verify_spec(module@, function@) == blocks_safe(
                    module@,
                    function@.blocks,
                    b as int,
                    s0,
                ),
            decreases block@.instrs.len() - k,
        {
            let instr = &block.instrs[k];
            let safe = match instr.opcode {
                Opcode::Load => {
                    let w = match crate::navigator::get_alignment(instr) {
                        Ok(w) => w,
                        Err(_) => {
                            return false;
                        },
                    };
                    let p = match crate::navigator::operand_as_pointer(instr, 0) {
                        Ok(p) => p,
                        Err(_) => {
                            return false;
                        },
                    };
                    _is_address_protected(module, &protected_mem, p, w)
                },
                Opcode::Store => {
                    let w = match crate::navigator::get_alignment(instr) {
                        Ok(w) => w,
                        Err(_) => {
                            return false;
                        },
                    };
                    let p = match crate::navigator::operand_as_pointer(instr, 1) {
                        Ok(p) => p,
                        Err(_) => {
                            return false;
                        },
                    };
                    _is_address_protected(module, &protected_mem, p, w)
                },
                _ => true,
            };
            if !safe {
                return false;
            }
            protected_mem = step_shadow_exec(protected_mem, instr);
            k += 1;
        }
        b += 1;
    }
    true
}

/// Whether an instruction is a call whose printed form names `callee`.
pub open spec fn is_call_to(i: InstrV, callee: Seq<u8>) -> bool {
    i.opcode == Opcode::Call && has_sub(i.text, callee)
}

/// A block's instructions with every call to `callee` removed.
pub open spec fn elide_instrs(is: Seq<InstrV>, callee: Seq<u8>) -> Seq<InstrV> {
    is.filter(|i: InstrV| !is_call_to(i, callee))
}

/// A block with every call to `callee` removed.
pub open spec fn elide_block(b: BlockV, callee: Seq<u8>) -> BlockV {
    BlockV { name: b.name, instrs: elide_instrs(b.instrs, callee) }
}

/// A function with every call to `callee` removed from every block.
pub open spec fn elide_fun(f: FunV, callee: Seq<u8>) -> FunV {
    FunV { name: f.name, blocks: f.blocks.map_values(|b: BlockV| elide_block(b, callee)) }
}

/// Removing calls to a callee twice is the same as removing them once.
pub proof fn lemma_elision_idempotent(f: FunV, callee: Seq<u8>)
    ensures
        elide_fun(elide_fun(f, callee), callee) == elide_fun(f, callee),
{
    broadcast use vstd::seq_lib::group_filter_ensures;

    let pred = |i: InstrV| !is_call_to(i, callee);
    assert forall|b: int| 0 <= b < f.blocks.len() implies #[trigger] elide_block(
        elide_block(f.blocks[b], callee),
        callee,
    ) == elide_block(f.blocks[b], callee) by {
        lemma_filter_all(f.blocks[b].instrs.filter(pred), pred);
    }
    assert(elide_fun(elide_fun(f, callee), callee).blocks =~= elide_fun(f, callee).blocks);
    assert(elide_fun(elide_fun(f, callee), callee) =~= elide_fun(f, callee));
}

/// Removes every call naming `callee_name` from the body of the function
/// named `caller_name`; fails with [`IrError::MissingFunction`], leaving
/// the module unchanged, when there is no such function.
pub fn remove_function_call(
    module: &mut IrModule,
    caller_name: &Vec<u8>,
    callee_name: &Vec<u8>,
) -> (r: Result<(), IrError>)
    ensures
        match r {
            Ok(()) => exists|fi: int|
                0 <= fi < old(module)@.functions.len() && (#[trigger] old(
                    module,
                )@.functions[fi]).name == caller_name@ && (forall|j: int|
                    0 <= j < fi ==> (#[trigger] old(module)@.functions[j]).name != caller_name@)
                    && final(module)@ == (ModuleV {
                    functions: old(module)@.functions.update(
                        fi,
                        elide_fun(old(module)@.functions[fi], callee_name@),
                    ),
                    ..old(module)@
                }),
            Err(e) => e == IrError::MissingFunction && !crate::ir::has_function(
                old(module)@,
                caller_name@,
            ) && final(module)@ == old(module)@,
        },
{
    let fi = match crate::ir::find_function(module, caller_name) {
        Some(fi) => fi,
        None => {
            return Err(IrError::MissingFunction);
        },
    };
    let ghost m0 = module@;
    let ghost fv0 = module.functions@;
    let mut f: IrFunction = module.functions.remove(fi);
    let ghost f0 = f@;
    let mut new_blocks: Vec<Block> = Vec::new();
    while f.blocks.len() > 0
        invariant
            f@.name == f0.name,
            new_blocks@.len() + f.blocks@.len() == f0.blocks.len(),
            f.blocks@.map_values(|b: Block| b@) =~= f0.blocks.skip(new_blocks@.len() as int),
            new_blocks@.map_values(|b: Block| b@) =~= f0.blocks.subrange(
                0,
                new_blocks@.len() as int,
            ).map_values(|b: BlockV| elide_block(b, callee_name@)),
        decreases f.blocks@.len(),
    {
        let ghost done = new_blocks@.len() as int;
        proof {
            assert(crate::ir::blocks_view(f.blocks@) == f.blocks@.map_values(|b: Block| b@));
            crate::ir::lemma_blocks_view_remove_front(f.blocks@, f0.blocks, done);
        }
        let mut b: Block = f.blocks.remove(0);
        let ghost b0 = b@;
        let mut kept: Vec<Instruction> = Vec::new();
        let ghost mut consumed: int = 0;
        while b.instrs.len() > 0
            invariant
                b@.name == b0.name,
                0 <= consumed <= b0.instrs.len(),
                consumed == b0.instrs.len() - b.instrs@.len(),
                b.instrs@.map_values(|i: Instruction| i@) =~= b0.instrs.skip(consumed),
                kept@.map_values(|i: Instruction| i@) =~= elide_instrs(
                    b0.instrs.subrange(0, consumed),
                    callee_name@,
                ),
            decreases b.instrs@.len(),
        {
            proof {
                crate::ir::lemma_instrs_view_remove_front(b.instrs@, b0.instrs, consumed);
            }
            let ins: Instruction = b.instrs.remove(0);
            proof {
                assert(b0.instrs.subrange(0, consumed + 1) =~= b0.instrs.subrange(0, consumed)
                    + seq![ins@]);
                lemma_filter_singleton(ins@, |i: InstrV| !is_call_to(i, callee_name@));
                assert(elide_instrs(b0.instrs.subrange(0, consumed + 1), callee_name@)
                    == elide_instrs(b0.instrs.subrange(0, consumed), callee_name@) + seq![
                    ins@,
                ].filter(|i: InstrV| !is_call_to(i, callee_name@))) by {
                    Seq::filter_distributes_over_add(
                        b0.instrs.subrange(0, consumed),
                        seq![ins@],
                        |i: InstrV| !is_call_to(i, callee_name@),
                    );
                }
            }
            let is_call = matches!(ins.opcode, Opcode::Call);
            let drop_it = is_call && crate::bytes::contains_sub(&ins.text, callee_name);
            if !drop_it {
                kept.push(ins);
            }
            proof {
                assert(kept@.map_values(|i: Instruction| i@) =~= elide_instrs(
                    b0.instrs.subrange(0, consumed + 1),
                    callee_name@,
                ));
                consumed = consumed + 1;
            }
        }
        b.instrs = kept;
        proof {
            assert(b0.instrs.subrange(0, consumed) =~= b0.instrs);
            assert(b@.instrs =~= elide_instrs(b0.instrs, callee_name@));
            assert(b@ =~= elide_block(b0, callee_name@));
        }
        let ghost nb_pre = new_blocks@;
        new_blocks.push(b);
        proof {
            let target = f0.blocks.subrange(0, done + 1).map_values(
                |b: BlockV| elide_block(b, callee_name@),
            );
            assert(new_blocks@.map_values(|b: Block| b@) =~= target) by {
                assert forall|j: int|
                    #![trigger new_blocks@[j]]
                    0 <= j < new_blocks@.len() implies new_blocks@.map_values(|b: Block| b@)[j]
                    == target[j] by {
                    assert(new_blocks@.map_values(|b: Block| b@)[j] == new_blocks@[j]@);
                    assert(target[j] == elide_block(f0.blocks.subrange(0, done + 1)[j], callee_name@));
                    if j < done {
                        assert(new_blocks@[j] == nb_pre[j]);
                        assert(nb_pre.map_values(|b: Block| b@)[j] == nb_pre[j]@);
                        assert(f0.blocks.subrange(0, done).map_values(
                            |b: BlockV| elide_block(b, callee_name@),
                        )[j] == elide_block(f0.blocks.subrange(0, done)[j], callee_name@));
                    } else {
                        assert(new_blocks@[j]@ == elide_block(b0, callee_name@));
                    }
                }
            }
        }
    }
    f.blocks = new_blocks;
    proof {
        assert(f0.blocks.subrange(0, f0.blocks.len() as int) =~= f0.blocks);
        assert(f@.blocks =~= elide_fun(f0, callee_name@).blocks);
        assert(f@ =~= elide_fun(f0, callee_name@));
    }
    let ghost fpre = module.functions@;
    module.functions.insert(fi, f);
    proof {
        let target = m0.functions.update(fi as int, elide_fun(m0.functions[fi as int], callee_name@));
        assert(m0.functions[fi as int] == f0) by {
            assert(m0.functions[fi as int] == fv0[fi as int]@);
        }
        assert(module@.functions =~= target) by {
            assert forall|j: int|
                #![trigger module.functions@[j]]
                0 <= j < module.functions@.len() implies module.functions@.map_values(
                |f: IrFunction| f@,
            )[j] == target[j] by {
                assert(module.functions@.map_values(|f: IrFunction| f@)[j] == module.functions@[j]@);
                if j < fi as int {
                    assert(module.functions@[j] == fpre[j]);
                    assert(fpre[j] == fv0[j]);
                    assert(m0.functions[j] == fv0[j]@);
                } else if j == fi as int {
                    assert(module.functions@[j] == f);
                } else {
                    assert(module.functions@[j] == fpre[j - 1]);
                    assert(fpre[j - 1] == fv0[j]);
                    assert(m0.functions[j] == fv0[j]@);
                }
            }
        }
        assert(module@ =~= (ModuleV { functions: target, ..m0 }));
    }
    Ok(())
}

} // verus!
