//! Read-only queries over the representation.
//!
//! Operand extraction with typed expectations, access widths, and the
//! recovery of a phi's `(value, predecessor label)` entries from its
//! printed form.  The labels are matched in the printed form as runs
//! ` value, %label` — with the value either an SSA name (`%name`) or an
//! immediate — and the in-memory values are recovered by positional
//! correspondence with the instruction's operands.

use vstd::prelude::*;

use crate::IrError;
use crate::bytes::{copy_range, dec_digits, is_dec_digit};
use crate::ir::{Instruction, InstrV, Opcode, Operand, OpV};

verus! {

/// Returns the pointer operand at index `k`; fails with
/// [`IrError::MalformedIr`] when there is no such operand or it is not a
/// pointer value.
pub fn operand_as_pointer<'a>(i: &'a Instruction, k: usize) -> (r: Result<&'a Operand, IrError>)
    ensures
        match r {
            Ok(o) => k < i@.operands.len() && o@ == i@.operands[k as int] && crate::ir::spec_is_pointer(o@),
            Err(e) => e == IrError::MalformedIr && (k >= i@.operands.len()
                || !crate::ir::spec_is_pointer(i@.operands[k as int])),
        },
{
    if k >= i.operands.len() {
        return Err(IrError::MalformedIr);
    }
    let o = &i.operands[k];
    match o {
        Operand::Ssa(_) => Ok(o),
        Operand::Global(_) => Ok(o),
        Operand::ConstGep(_) => Ok(o),
        Operand::Null => Ok(o),
        _ => Err(IrError::MalformedIr),
    }
}

/// Whether the operand denotes an integer value: an immediate or a named
/// SSA value.
pub open spec fn spec_is_int(o: OpV) -> bool {
    match o {
        OpV::ConstInt(_) => true,
        OpV::Ssa(_) => true,
        _ => false,
    }
}

/// Returns the integer operand at index `k`; fails with
/// [`IrError::MalformedIr`] when there is no such operand or it is not an
/// integer value.
pub fn operand_as_int<'a>(i: &'a Instruction, k: usize) -> (r: Result<&'a Operand, IrError>)
    ensures
        match r {
            Ok(o) => k < i@.operands.len() && o@ == i@.operands[k as int] && spec_is_int(o@),
            Err(e) => e == IrError::MalformedIr && (k >= i@.operands.len() || !spec_is_int(
                i@.operands[k as int],
            )),
        },
{
    if k >= i.operands.len() {
        return Err(IrError::MalformedIr);
    }
    let o = &i.operands[k];
    match o {
        Operand::ConstInt(_) => Ok(o),
        Operand::Ssa(_) => Ok(o),
        _ => Err(IrError::MalformedIr),
    }
}

/// Returns the natural access width of the instruction in bytes; fails
/// with [`IrError::MalformedIr`] when the instruction carries none.
pub fn get_alignment(i: &Instruction) -> (r: Result<u64, IrError>)
    ensures
        match r {
            Ok(w) => i@.width == Some(w),
            Err(e) => e == IrError::MalformedIr && i@.width is None,
        },
{
    match i.width {
        Some(w) => Ok(w),
        None => Err(IrError::MalformedIr),
    }
}

/// Whether `c` is a word byte: a letter, a digit or an underscore.
pub open spec fn is_word_byte(c: u8) -> bool {
    is_dec_digit(c) || (65 <= c <= 90) || (97 <= c <= 122) || c == 95
}

/// Whether `c` is a word byte.
pub fn word_byte(c: u8) -> (r: bool)
    ensures
        r == is_word_byte(c),
{
    (48 <= c && c <= 57) || (65 <= c && c <= 90) || (97 <= c && c <= 122) || c == 95
}

/// The end of the run of word bytes starting at `i`.
pub open spec fn word_end(t: Seq<u8>, i: int) -> int
    decreases t.len() - i,
    when 0 <= i <= t.len()
{
    if i >= t.len() || !is_word_byte(t[i]) {
        i
    } else {
        word_end(t, i + 1)
    }
}

/// A word run ends between its start and the end of the text, and every
/// byte inside it is a word byte while the byte after it is not.
pub proof fn lemma_word_end(t: Seq<u8>, i: int)
    requires
        0 <= i <= t.len(),
    ensures
        i <= word_end(t, i) <= t.len(),
        forall|j: int| i <= j < word_end(t, i) ==> is_word_byte(#[trigger] t[j]),
        word_end(t, i) < t.len() ==> !is_word_byte(t[word_end(t, i)]),
    decreases t.len() - i,
{
    if i < t.len() && is_word_byte(t[i]) {
        lemma_word_end(t, i + 1);
    }
}

/// The end of the run of word bytes starting at `i`.
pub fn find_word_end(t: &Vec<u8>, i: usize) -> (r: usize)
    requires
        i <= t@.len(),
    ensures
        r == word_end(t@, i as int),
{
    proof {
        assert(t@.len() == t.len());
    }
    let mut j = i;
    while j < t.len() && word_byte(t[j])
        invariant
            i <= j <= t@.len(),
            word_end(t@, i as int) == word_end(t@, j as int),
        decreases t@.len() - j,
    {
        proof {
            assert(word_end(t@, j as int) == word_end(t@, j + 1));
        }
        j += 1;
    }
    proof {
        assert(word_end(t@, j as int) == j);
    }
    j
}

/// The entry pattern matched at position `i` of a printed phi: a space, an
/// optional `%`, a word run, `, %`, and a second word run — the
/// predecessor label.  Yields the label's bounds, the second of which is
/// also where the match ends.
pub open spec fn entry_at(t: Seq<u8>, i: int) -> Option<(int, int)> {
    if !(0 <= i && i < t.len() && t[i] == 32) {
        None
    } else {
        let v0 = if i + 1 < t.len() && t[i + 1] == 37 {
            i + 2
        } else {
            i + 1
        };
        let v1 = word_end(t, v0);
        if v1 == v0 {
            None
        } else if !(v1 + 2 < t.len() && t[v1] == 44 && t[v1 + 1] == 32 && t[v1 + 2] == 37) {
            None
        } else {
            let l0 = v1 + 3;
            let l1 = word_end(t, l0);
            if l1 == l0 {
                None
            } else {
                Some((l0, l1))
            }
        }
    }
}

/// A match lies inside the text, after the position it was found at.
pub proof fn lemma_entry_at(t: Seq<u8>, i: int)
    requires
        entry_at(t, i) is Some,
    ensures
        i + 5 <= entry_at(t, i)->Some_0.0 < entry_at(t, i)->Some_0.1 <= t.len(),
{
    let v0 = if i + 1 < t.len() && t[i + 1] == 37 {
        i + 2
    } else {
        i + 1
    };
    lemma_word_end(t, v0);
    let v1 = word_end(t, v0);
    lemma_word_end(t, v1 + 3);
}

/// The entry pattern matched at position `i`, if any.
pub fn entry_match(t: &Vec<u8>, i: usize) -> (r: Option<(usize, usize)>)
    ensures
        match r {
            Some((l0, l1)) => entry_at(t@, i as int) == Some((l0 as int, l1 as int)),
            None => entry_at(t@, i as int) is None,
        },
{
    proof {
        assert(t@.len() == t.len());
    }
    if !(i < t.len() && t[i] == 32) {
        return None;
    }
    let v0 = if i + 1 < t.len() && t[i + 1] == 37 {
        i + 2
    } else {
        i + 1
    };
    proof {
        assert(v0 <= t@.len());
    }
    let v1 = find_word_end(t, v0);
    proof {
        lemma_word_end(t@, v0 as int);
    }
    if v1 == v0 {
        return None;
    }
    if !(t.len() - v1 > 2 && t[v1] == 44 && t[v1 + 1] == 32 && t[v1 + 2] == 37) {
        return None;
    }
    let l0 = v1 + 3;
    let l1 = find_word_end(t, l0);
    proof {
        lemma_word_end(t@, l0 as int);
    }
    if l1 == l0 {
        return None;
    }
    Some((l0, l1))
}

/// The predecessor labels found in the printed form from position `i` on,
/// in order, skipping unmatched bytes and continuing after each match.
pub open spec fn phi_labels_from(t: Seq<u8>, i: int) -> Seq<Seq<u8>>
    decreases t.len() - i,
    when 0 <= i <= t.len()
    via phi_labels_from_decreases
{
    if i >= t.len() {
        Seq::empty()
    } else {
        match entry_at(t, i) {
            Some((l0, l1)) => seq![t.subrange(l0, l1)] + phi_labels_from(t, l1),
            None => phi_labels_from(t, i + 1),
        }
    }
}

#[via_fn]
proof fn phi_labels_from_decreases(t: Seq<u8>, i: int) {
    if 0 <= i < t.len() && entry_at(t, i) is Some {
        lemma_entry_at(t, i);
    }
}

/// The predecessor labels of a printed phi, in order.
pub fn phi_labels(t: &Vec<u8>) -> (r: Vec<Vec<u8>>)
    ensures
        r@.map_values(|l: Vec<u8>| l@) == phi_labels_from(t@, 0),
{
    proof {
        assert(t@.len() == t.len());
    }
    let mut acc: Vec<Vec<u8>> = Vec::new();
    let mut i: usize = 0;
    while i < t.len()
        invariant
            i <= t@.len(),
            phi_labels_from(t@, 0) == acc@.map_values(|l: Vec<u8>| l@) + phi_labels_from(
                t@,
                i as int,
            ),
        decreases t@.len() - i,
    {
        match entry_match(t, i) {
            Some((l0, l1)) => {
                proof {
                    lemma_entry_at(t@, i as int);
                }
                let label = copy_range(t, l0, l1);
                acc.push(label);
                proof {
                    assert(acc@.map_values(|l: Vec<u8>| l@) =~= acc@.map_values(
                        |l: Vec<u8>| l@,
                    ).subrange(0, acc@.len() - 1) + seq![t@.subrange(l0 as int, l1 as int)]);
                    assert(phi_labels_from(t@, 0) =~= acc@.map_values(|l: Vec<u8>| l@)
                        + phi_labels_from(t@, l1 as int));
                }
                i = l1;
            },
            None => {
                i += 1;
            },
        }
    }
    proof {
        assert(phi_labels_from(t@, i as int) =~= Seq::<Seq<u8>>::empty());
        assert(phi_labels_from(t@, 0) =~= acc@.map_values(|l: Vec<u8>| l@));
    }
    acc
}

/// Whether the phi's printed form and operands agree well enough to pair
/// them: the instruction is a phi and its printed form does not show more
/// entries than the instruction has operands.
pub open spec fn phi_parse_ok(i: InstrV) -> bool {
    i.opcode == Opcode::Phi && phi_labels_from(i.text, 0).len() <= i.operands.len()
}

/// The `(value, predecessor label)` entries of a phi: the k-th label in
/// the printed form paired with the k-th operand.
pub open spec fn phi_entry_views(i: InstrV) -> Seq<(OpV, Seq<u8>)> {
    Seq::new(
        phi_labels_from(i.text, 0).len(),
        |k: int| (i.operands[k], phi_labels_from(i.text, 0)[k]),
    )
}

/// The view of a list of phi entries.
pub open spec fn entry_views(es: Seq<(Operand, Vec<u8>)>) -> Seq<(OpV, Seq<u8>)> {
    es.map_values(|e: (Operand, Vec<u8>)| (e.0@, e.1@))
}

/// Extracts the ordered `(value, predecessor label)` entries of a phi
/// instruction.  The labels come from the printed form; the values are the
/// instruction's operands, paired positionally.  Fails with
/// [`IrError::MalformedIr`] when the instruction is not a phi or an entry
/// in the printed form has no operand to pair with.
pub fn parse_phi_entries(i: &Instruction) -> (r: Result<Vec<(Operand, Vec<u8>)>, IrError>)
    ensures
        match r {
            Ok(es) => phi_parse_ok(i@) && entry_views(es@) == phi_entry_views(i@),
            Err(e) => e == IrError::MalformedIr && !phi_parse_ok(i@),
        },
{
    if !matches!(i.opcode, Opcode::Phi) {
        return Err(IrError::MalformedIr);
    }
    let labels = phi_labels(&i.text);
    if labels.len() > i.operands.len() {
        return Err(IrError::MalformedIr);
    }
    let mut es: Vec<(Operand, Vec<u8>)> = Vec::new();
    let mut k: usize = 0;
    while k < labels.len()
        invariant
            k <= labels@.len(),
            labels@.len() <= i@.operands.len(),
            labels@.map_values(|l: Vec<u8>| l@) == phi_labels_from(i@.text, 0),
            entry_views(es@) =~= phi_entry_views(i@).subrange(0, k as int),
        decreases labels@.len() - k,
    {
        let value = crate::ir::copy_operand(&i.operands[k]);
        let label = crate::bytes::copy_bytes(&labels[k]);
        es.push((value, label));
        proof {
            assert(entry_views(es@) =~= phi_entry_views(i@).subrange(0, k + 1));
        }
        k += 1;
    }
    proof {
        assert(phi_entry_views(i@).subrange(0, phi_entry_views(i@).len() as int) =~= phi_entry_views(
            i@,
        ));
    }
    Ok(es)
}

/// The printed form of a phi entry value: `%name` for an SSA value, the
/// decimal digits for an immediate, nothing for anything else.
pub open spec fn render_value(v: OpV) -> Seq<u8> {
    match v {
        OpV::Ssa(n) => seq![37u8] + n,
        OpV::ConstInt(k) => dec_digits(k as nat),
        _ => Seq::empty(),
    }
}

/// The printed form of the phi entry at position `k` of a list:
/// `` [ value, %label ]`` for the first, with a leading comma for the
/// rest.
pub open spec fn render_entry(e: (OpV, Seq<u8>), k: int) -> Seq<u8> {
    (if k == 0 {
        seq![32u8, 91u8, 32u8]
    } else {
        seq![44u8, 32u8, 91u8, 32u8]
    }) + render_value(e.0) + seq![44u8, 32u8, 37u8] + e.1 + seq![32u8, 93u8]
}

/// The printed forms of the phi entries from position `k` on.
pub open spec fn render_entries(es: Seq<(OpV, Seq<u8>)>, k: int) -> Seq<u8>
    decreases es.len() - k,
    when 0 <= k <= es.len()
{
    if k >= es.len() {
        Seq::empty()
    } else {
        render_entry(es[k], k) + render_entries(es, k + 1)
    }
}

/// The printed form of a phi: `%dest = phi ty` followed by its entries.
pub open spec fn render_phi_text(dest: Seq<u8>, ty: Seq<u8>, es: Seq<(OpV, Seq<u8>)>) -> Seq<u8> {
    seq![37u8] + dest + seq![32u8, 61u8, 32u8, 112u8, 104u8, 105u8, 32u8] + ty + render_entries(
        es,
        0,
    )
}

/// Renders a phi entry value.
pub fn render_value_bytes(v: &Operand) -> (r: Vec<u8>)
    ensures
        r@ == render_value(v@),
{
    match v {
        Operand::Ssa(n) => {
            let mut r: Vec<u8> = Vec::new();
            r.push(37);
            crate::bytes::append_bytes(&mut r, n);
            proof {
                assert(r@ =~= render_value(v@));
            }
            r
        },
        Operand::ConstInt(k) => crate::bytes::u64_to_dec(*k),
        _ => Vec::new(),
    }
}

/// Renders the printed form of a phi from its destination name, its type
/// token and its entries.
pub fn render_phi_bytes(dest: &Vec<u8>, ty: &Vec<u8>, es: &Vec<(Operand, Vec<u8>)>) -> (r: Vec<u8>)
    ensures
        r@ == render_phi_text(dest@, ty@, entry_views(es@)),
{
    let ghost evs = entry_views(es@);
    let mut r: Vec<u8> = Vec::new();
    r.push(37);
    crate::bytes::append_bytes(&mut r, dest);
    r.push(32);
    r.push(61);
    r.push(32);
    r.push(112);
    r.push(104);
    r.push(105);
    r.push(32);
    crate::bytes::append_bytes(&mut r, ty);
    proof {
        assert(r@ =~= seq![37u8] + dest@ + seq![32u8, 61u8, 32u8, 112u8, 104u8, 105u8, 32u8]
            + ty@);
    }
    let mut k: usize = 0;
    while k < es.len()
        invariant
            k <= es@.len(),
            evs == entry_views(es@),
            evs.len() == es@.len(),
            r@ == seq![37u8] + dest@ + seq![32u8, 61u8, 32u8, 112u8, 104u8, 105u8, 32u8] + ty@
                + render_entries(evs, 0).subrange(
                0,
                render_entries(evs, 0).len() - render_entries(evs, k as int).len(),
            ),
            render_entries(evs, k as int).len() <= render_entries(evs, 0).len(),
        decreases es@.len() - k,
    {
        if k == 0 {
            r.push(32);
            r.push(91);
            r.push(32);
        } else {
            r.push(44);
            r.push(32);
            r.push(91);
            r.push(32);
        }
        let vb = render_value_bytes(&es[k].0);
        crate::bytes::append_bytes(&mut r, &vb);
        r.push(44);
        r.push(32);
        r.push(37);
        crate::bytes::append_bytes(&mut r, &es[k].1);
        r.push(32);
        r.push(93);
        proof {
            lemma_render_entries_split(evs, k as int);
            assert(evs[k as int] == (es@[k as int].0@, es@[k as int].1@));
            assert(r@ =~= seq![37u8] + dest@ + seq![32u8, 61u8, 32u8, 112u8, 104u8, 105u8, 32u8]
                + ty@ + render_entries(evs, 0).subrange(
                0,
                render_entries(evs, 0).len() - render_entries(evs, k + 1).len(),
            ));
        }
        k += 1;
    }
    proof {
        assert(render_entries(evs, es@.len() as int) =~= Seq::<u8>::empty());
        assert(render_entries(evs, 0).subrange(0, render_entries(evs, 0).len() as int) =~= render_entries(
            evs,
            0,
        ));
        assert(r@ =~= render_phi_text(dest@, ty@, evs));
    }
    r
}

/// A byte string of word bytes only.
pub open spec fn word_only(s: Seq<u8>) -> bool {
    forall|i: int| 0 <= i < s.len() ==> is_word_byte(#[trigger] s[i])
}

/// A phi entry the renderer and the parser agree on: a nonempty label of
/// word bytes, and a value that is a nonempty word-byte SSA name or an
/// immediate.
pub open spec fn wf_entry(e: (OpV, Seq<u8>)) -> bool {
    &&& e.1.len() > 0
    &&& word_only(e.1)
    &&& match e.0 {
        OpV::Ssa(n) => n.len() > 0 && word_only(n),
        OpV::ConstInt(_) => true,
        _ => false,
    }
}

/// A run of word bytes bounded by a non-word byte (or the end) is
/// exactly what the word scan finds.
proof fn lemma_word_end_of_run(t: Seq<u8>, i: int, j: int)
    requires
        0 <= i <= j <= t.len(),
        forall|m: int| i <= m < j ==> is_word_byte(#[trigger] t[m]),
        j < t.len() ==> !is_word_byte(t[j]),
    ensures
        word_end(t, i) == j,
    decreases j - i,
{
    if i < j {
        lemma_word_end_of_run(t, i + 1, j);
    }
}

/// The word scan does not look behind its start: scanning a
/// concatenation past the first part scans the second.
proof fn lemma_word_end_shift(u: Seq<u8>, v: Seq<u8>, i: int)
    requires
        0 <= i <= v.len(),
    ensures
        word_end(u + v, u.len() + i) == u.len() + word_end(v, i),
    decreases v.len() - i,
{
    lemma_word_end(v, i);
    if i < v.len() && is_word_byte(v[i]) {
        assert((u + v)[u.len() + i] == v[i]);
        lemma_word_end_shift(u, v, i + 1);
    } else {
        if i < v.len() {
            assert((u + v)[u.len() + i] == v[i]);
        }
    }
}

/// Neither does the entry pattern: matching a concatenation past the
/// first part matches the second, with the bounds shifted.
proof fn lemma_entry_at_shift(u: Seq<u8>, v: Seq<u8>, i: int)
    requires
        0 <= i <= v.len(),
    ensures
        match entry_at(v, i) {
            Some((l0, l1)) => entry_at(u + v, u.len() + i) == Some((u.len() + l0, u.len() + l1)),
            None => entry_at(u + v, u.len() + i) is None,
        },
{
    let t = u + v;
    let p = u.len() + i;
    assert forall|m: int| 0 <= m < v.len() implies #[trigger] t[u.len() + m] == v[m] by {}
    if i < v.len() {
        assert(t[p] == v[i]);
    }
    if 0 <= i && i < v.len() && v[i] == 32 {
        if i + 1 < v.len() {
            assert(t[p + 1] == v[i + 1]);
        }
        let v0 = if i + 1 < v.len() && v[i + 1] == 37 {
            i + 2
        } else {
            i + 1
        };
        assert(i + 1 < v.len() && v[i + 1] == 37 <==> p + 1 < t.len() && t[p + 1] == 37);
        lemma_word_end_shift(u, v, v0);
        let v1 = word_end(v, v0);
        lemma_word_end(v, v0);
        if v1 != v0 {
            if v1 + 2 < v.len() {
                assert(t[u.len() + v1] == v[v1]);
                assert(t[u.len() + v1 + 1] == v[v1 + 1]);
                assert(t[u.len() + v1 + 2] == v[v1 + 2]);
            }
            assert((v1 + 2 < v.len() && v[v1] == 44 && v[v1 + 1] == 32 && v[v1 + 2] == 37) <==> (
            u.len() + v1 + 2 < t.len() && t[u.len() + v1] == 44 && t[u.len() + v1 + 1] == 32
                && t[u.len() + v1 + 2] == 37));
            if v1 + 2 < v.len() && v[v1] == 44 && v[v1 + 1] == 32 && v[v1 + 2] == 37 {
                lemma_word_end_shift(u, v, v1 + 3);
            }
        }
    }
}

/// Nor does the label scan: the labels found in a concatenation from the
/// second part on are the labels of the second part.
proof fn lemma_labels_shift(u: Seq<u8>, v: Seq<u8>, i: int)
    requires
        0 <= i <= v.len(),
    ensures
        phi_labels_from(u + v, u.len() + i) == phi_labels_from(v, i),
    decreases v.len() - i,
{
    let t = u + v;
    lemma_entry_at_shift(u, v, i);
    if i >= v.len() {
        assert(phi_labels_from(t, u.len() + i) =~= phi_labels_from(v, i));
    } else {
        match entry_at(v, i) {
            Some((l0, l1)) => {
                lemma_entry_at(v, i);
                lemma_labels_shift(u, v, l1);
                assert(t.subrange(u.len() + l0, u.len() + l1) =~= v.subrange(l0, l1));
                assert(phi_labels_from(t, u.len() + i) =~= phi_labels_from(v, i));
            },
            None => {
                lemma_labels_shift(u, v, i + 1);
            },
        }
    }
}

/// Positions where the entry pattern does not match contribute no label:
/// the scan moves past them.
proof fn lemma_scan_none_range(t: Seq<u8>, p: int, m: int)
    requires
        0 <= p <= m <= t.len(),
        forall|i: int| p <= i < m ==> entry_at(t, i) is None,
    ensures
        phi_labels_from(t, p) == phi_labels_from(t, m),
    decreases m - p,
{
    if p < m {
        lemma_scan_none_range(t, p + 1, m);
    }
}

/// The labels of the rendered entries from position `k` on are exactly
/// the entries' labels.
proof fn lemma_render_entries_labels(es: Seq<(OpV, Seq<u8>)>, k: int)
    requires
        0 <= k <= es.len(),
        forall|j: int| 0 <= j < es.len() ==> wf_entry(#[trigger] es[j]),
    ensures
        phi_labels_from(render_entries(es, k), 0) == es.map_values(|e: (OpV, Seq<u8>)| e.1).skip(
            k,
        ),
    decreases es.len() - k,
{
    let labels = es.map_values(|e: (OpV, Seq<u8>)| e.1);
    if k >= es.len() {
        assert(phi_labels_from(render_entries(es, k), 0) =~= labels.skip(k));
    } else {
        let chunk = render_entry(es[k], k);
        let rest = render_entries(es, k + 1);
        let t = chunk + rest;
        assert(render_entries(es, k) == t);
        let sep: int = if k == 0 {
            3
        } else {
            4
        };
        let val = render_value(es[k].0);
        let vl = val.len() as int;
        let lbl = es[k].1;
        let ll = lbl.len() as int;
        // The chunk's layout: sep, the value, `, %`, the label, ` ]`.
        assert(chunk.len() == sep + vl + 3 + ll + 2);
        let vs = sep - 1;  // the space before the value
        let v1 = sep + vl;  // the comma after the value
        let l0 = v1 + 3;  // the label's start
        let l1 = l0 + ll;  // the label's end
        assert forall|x: int| 0 <= x < chunk.len() implies #[trigger] t[x] == chunk[x] by {}
        // Byte facts about the chunk.
        assert(chunk[vs] == 32);
        assert(chunk[v1] == 44);
        assert(chunk[v1 + 1] == 32);
        assert(chunk[v1 + 2] == 37);
        assert(chunk[l1] == 32);
        assert(chunk[l1 + 1] == 93);
        assert forall|m: int| l0 <= m < l1 implies is_word_byte(#[trigger] t[m]) by {
            assert(chunk[m] == lbl[m - l0]);
        }
        // No match before the space that precedes the value.
        assert forall|i: int| 0 <= i < vs implies entry_at(t, i) is None by {
            if k == 0 {
                assert(chunk[0] == 32 && chunk[1] == 91);
                if i == 0 {
                    assert(t[1] == 91);
                    assert(word_end(t, 1) == 1) by {
                        lemma_word_end_of_run(t, 1, 1);
                    }
                }
            } else {
                assert(chunk[0] == 44 && chunk[1] == 32 && chunk[2] == 91);
                if i == 1 {
                    assert(t[2] == 91);
                    assert(word_end(t, 2) == 2) by {
                        lemma_word_end_of_run(t, 2, 2);
                    }
                }
            }
        }
        // The match at the space before the value.
        assert(entry_at(t, vs) == Some((l0, l1))) by {
            match es[k].0 {
                OpV::Ssa(name) => {
                    assert(val == seq![37u8] + name);
                    assert(chunk[vs + 1] == 37);
                    assert forall|m: int| vs + 2 <= m < v1 implies is_word_byte(
                        #[trigger] t[m],
                    ) by {
                        assert(chunk[m] == val[m - sep]);
                        assert(val[m - sep] == name[m - sep - 1]);
                    }
                    lemma_word_end_of_run(t, vs + 2, v1);
                },
                OpV::ConstInt(c) => {
                    crate::bytes::lemma_dec_digits_are_digits(c as nat);
                    assert(chunk[vs + 1] == val[0]);
                    assert(is_dec_digit(val[0]));
                    assert(t[vs + 1] != 37);
                    assert forall|m: int| vs + 1 <= m < v1 implies is_word_byte(
                        #[trigger] t[m],
                    ) by {
                        assert(chunk[m] == val[m - sep]);
                        assert(is_dec_digit(val[m - sep]));
                    }
                    lemma_word_end_of_run(t, vs + 1, v1);
                },
                _ => {
                    assert(false);
                },
            }
            lemma_word_end_of_run(t, l0, l1);
        }
        // The label is what the match extracts.
        assert(t.subrange(l0, l1) =~= lbl);
        // After the label: the closing ` ]` matches nothing.
        assert forall|i: int| l1 <= i < l1 + 2 implies entry_at(t, i) is None by {
            if i == l1 {
                assert(t[l1 + 1] == 93);
                assert(word_end(t, l1 + 1) == l1 + 1) by {
                    lemma_word_end_of_run(t, l1 + 1, l1 + 1);
                }
            } else {
                assert(t[i] == 93);
            }
        }
        // Assemble: skip to the match, take the label, skip the closing,
        // and the rest is the next chunk's own rendering.
        lemma_scan_none_range(t, 0, vs);
        assert(phi_labels_from(t, vs) == seq![lbl] + phi_labels_from(t, l1));
        lemma_scan_none_range(t, l1, l1 + 2);
        assert(l1 + 2 == chunk.len());
        lemma_labels_shift(chunk, rest, 0);
        lemma_render_entries_labels(es, k + 1);
        assert(phi_labels_from(t, 0) =~= labels.skip(k)) by {
            assert(labels.skip(k) =~= seq![lbl] + labels.skip(k + 1));
        }
    }
}

/// Rendering a phi and parsing the rendered form yields exactly the
/// labels that were rendered: the printed form a rebuilt phi carries
/// shows the same entries the rebuild was given.
pub proof fn lemma_phi_round_trip(dest: Seq<u8>, ty: Seq<u8>, es: Seq<(OpV, Seq<u8>)>)
    requires
        word_only(dest),
        word_only(ty),
        forall|j: int| 0 <= j < es.len() ==> wf_entry(#[trigger] es[j]),
    ensures
        phi_labels_from(render_phi_text(dest, ty, es), 0) == es.map_values(
            |e: (OpV, Seq<u8>)| e.1,
        ),
{
    let head = seq![37u8] + dest + seq![32u8, 61u8, 32u8, 112u8, 104u8, 105u8, 32u8] + ty;
    let body = render_entries(es, 0);
    let t = render_phi_text(dest, ty, es);
    assert(t =~= head + body);
    let hl = head.len() as int;
    let dl = dest.len() as int;
    let s1 = 1 + dl;  // the space before `=`
    assert forall|x: int| 0 <= x < hl implies #[trigger] t[x] == head[x] by {}
    assert(head[0] == 37);
    assert forall|m: int| 1 <= m < s1 implies is_word_byte(#[trigger] t[m]) by {
        assert(head[m] == dest[m - 1]);
    }
    assert(head[s1] == 32 && head[s1 + 1] == 61 && head[s1 + 2] == 32 && head[s1 + 3] == 112
        && head[s1 + 4] == 104 && head[s1 + 5] == 105 && head[s1 + 6] == 32);
    assert forall|m: int| s1 + 7 <= m < hl implies is_word_byte(#[trigger] t[m]) by {
        assert(head[m] == ty[m - s1 - 7]);
    }
    // Nothing in the head matches the entry pattern.
    assert forall|i: int| 0 <= i < hl implies entry_at(t, i) is None by {
        if t[i] == 32 {
            if i == s1 {
                // The byte after is `=`: no word run starts there.
                assert(word_end(t, s1 + 1) == s1 + 1) by {
                    lemma_word_end_of_run(t, s1 + 1, s1 + 1);
                }
            } else if i == s1 + 2 {
                // The run is `phi`, ended by a space, not a comma.
                assert(word_end(t, s1 + 3) == s1 + 6) by {
                    lemma_word_end_of_run(t, s1 + 3, s1 + 6);
                }
            } else {
                // The space before the type: the run is the type itself,
                // ended by the entry list's opening space or the end.
                assert(i == s1 + 6);
                if es.len() == 0 {
                    assert(body =~= Seq::<u8>::empty());
                    assert(word_end(t, s1 + 7) == hl) by {
                        lemma_word_end_of_run(t, s1 + 7, hl);
                    }
                } else {
                    assert(t[hl] == body[0]);
                    assert(body[0] == render_entry(es[0], 0)[0]);
                    assert(body[0] == 32);
                    assert(word_end(t, s1 + 7) == hl) by {
                        lemma_word_end_of_run(t, s1 + 7, hl);
                    }
                    assert(t[hl] != 44);
                }
            }
        }
    }
    lemma_scan_none_range(t, 0, hl);
    lemma_labels_shift(head, body, 0);
    lemma_render_entries_labels(es, 0);
    assert(es.map_values(|e: (OpV, Seq<u8>)| e.1).skip(0) =~= es.map_values(
        |e: (OpV, Seq<u8>)| e.1,
    ));
}

/// Splitting the rendered entries at `k`: the part already rendered plus
/// the entry at `k` is the part rendered once `k + 1` entries are done.
proof fn lemma_render_entries_split(es: Seq<(OpV, Seq<u8>)>, k: int)
    requires
        0 <= k < es.len(),
    ensures
        render_entries(es, k).len() >= render_entry(es[k], k).len(),
        render_entries(es, 0).len() >= render_entries(es, k).len(),
        render_entries(es, 0).subrange(
            0,
            render_entries(es, 0).len() - render_entries(es, k).len(),
        ) + render_entry(es[k], k) =~= render_entries(es, 0).subrange(
            0,
            render_entries(es, 0).len() - render_entries(es, k + 1).len(),
        ),
    decreases k,
{
    lemma_render_entries_concat(es, k);
    lemma_render_entries_concat(es, k + 1);
    assert(render_entries(es, k) == render_entry(es[k], k) + render_entries(es, k + 1));
}

/// The whole rendering is what comes before position `k` plus the
/// rendering from `k` on.
proof fn lemma_render_entries_concat(es: Seq<(OpV, Seq<u8>)>, k: int)
    requires
        0 <= k <= es.len(),
    ensures
        render_entries(es, 0).len() >= render_entries(es, k).len(),
        render_entries(es, 0).subrange(
            0,
            render_entries(es, 0).len() - render_entries(es, k).len(),
        ) + render_entries(es, k) =~= render_entries(es, 0),
    decreases k,
{
    if k > 0 {
        lemma_render_entries_concat(es, k - 1);
        assert(render_entries(es, k - 1) == render_entry(es[k - 1], k - 1) + render_entries(
            es,
            k,
        ));
        assert(render_entries(es, 0).subrange(
            0,
            render_entries(es, 0).len() - render_entries(es, k).len(),
        ) =~= render_entries(es, 0).subrange(
            0,
            render_entries(es, 0).len() - render_entries(es, k - 1).len(),
        ) + render_entry(es[k - 1], k - 1));
    } else {
        assert(render_entries(es, 0).subrange(
            0,
            render_entries(es, 0).len() - render_entries(es, 0).len(),
        ) =~= Seq::<u8>::empty());
    }
}

} // verus!
