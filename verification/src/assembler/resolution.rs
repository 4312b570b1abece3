//! What resolving labels guarantees: every reference ends up holding its
//! label's address, and no other byte changes.

use vstd::prelude::*;

use crate::utils::spec_set_byte;
use super::AsmState;
use super::LabelCall;
use super::LabelKind;
use super::LabelView;
use super::Step;
use super::addr_hi;
use super::addr_lo;
use super::call_width;
use super::rel_byte;
use super::rel_in_range;
use super::spec_assemble;
use super::spec_patch_calls;
use super::spec_resolve;
use super::spec_run_words;
use super::words_of;
use super::with_bytes;

verus! {

/// Byte `q` is one of the bytes of reference `c`.
pub open spec fn in_slot(q: int, c: LabelCall) -> bool {
    c.pos <= q < c.pos + call_width(c.kind)
}

/// Two references share a byte.
pub open spec fn overlap(c1: LabelCall, c2: LabelCall) -> bool {
    c1.pos < c2.pos + call_width(c2.kind) && c2.pos < c1.pos + call_width(c1.kind)
}

/// No two references of one label share a byte.
pub open spec fn calls_disjoint(cs: Seq<LabelCall>) -> bool {
    forall|a: int, b: int|
        0 <= a < cs.len() && 0 <= b < cs.len() && a != b ==> !overlap(#[trigger] cs[a], #[trigger] cs[b])
}

/// No two references to any labels share a byte.
pub open spec fn slots_disjoint(ls: Seq<LabelView>) -> bool {
    &&& forall|i: int| 0 <= i < ls.len() ==> calls_disjoint(#[trigger] ls[i].calls)
    &&& forall|i1: int, i2: int, a: int, b: int|
        0 <= i1 < ls.len() && 0 <= i2 < ls.len() && i1 != i2 && 0 <= a < ls[i1].calls.len() && 0
            <= b < ls[i2].calls.len() ==> !overlap(
            #[trigger] ls[i1].calls[a],
            #[trigger] ls[i2].calls[b],
        )
}

/// Byte `q` belongs to some reference of the labels from the `i`th on.
pub open spec fn in_any_slot(q: int, ls: Seq<LabelView>, i: int) -> bool {
    exists|i2: int, k: int|
        i <= i2 < ls.len() && 0 <= k < ls[i2].calls.len() && in_slot(q, #[trigger] ls[i2].calls[k])
}

/// The bytes of reference `c` encode the address `addr` as its kind says: a
/// big-endian short, a relative offset or a zero-page byte.
pub open spec fn slot_holds(bytes: Seq<u8>, addr: int, c: LabelCall) -> bool {
    let p = c.pos as int;
    match c.kind {
        LabelKind::Abs => p + 1 < bytes.len() && bytes[p] == addr_hi(addr) && bytes[p + 1] == addr_lo(
            addr,
        ),
        LabelKind::Rel => p < bytes.len() && bytes[p] == rel_byte(addr, p),
        LabelKind::Zpg => p < bytes.len() && bytes[p] == addr as u8,
    }
}

proof fn lemma_set_byte(b: Seq<u8>, p: int, v: u8)
    requires
        0 <= p,
    ensures
        spec_set_byte(b, p, v).len() == if p < b.len() { b.len() } else { (p + 1) as nat },
        spec_set_byte(b, p, v)[p] == v,
        forall|q: int| 0 <= q < b.len() && q != p ==> #[trigger] spec_set_byte(b, p, v)[q] == b[q],
{
}

proof fn lemma_patch_calls(s: AsmState, l: LabelView, j: int, t: AsmState)
    requires
        0 <= j,
        spec_patch_calls(s, l, j) == Step::Next(t),
    ensures
        t == with_bytes(s, t.bytes),
        t.bytes.len() >= s.bytes.len(),
        forall|q: int|
            0 <= q < s.bytes.len() && (forall|k: int|
                j <= k < l.calls.len() ==> !in_slot(q, #[trigger] l.calls[k])) ==> #[trigger] t.bytes[q]
                == s.bytes[q],
        calls_disjoint(l.calls) ==> forall|k: int|
            j <= k < l.calls.len() ==> slot_holds(t.bytes, l.addr, #[trigger] l.calls[k]),
    decreases l.calls.len() - j,
{
    if j >= l.calls.len() {
        return;
    }
    let c = l.calls[j];
    let p = c.pos as int;
    let b1 = match c.kind {
        LabelKind::Abs => spec_set_byte(spec_set_byte(s.bytes, p, addr_hi(l.addr)), p + 1, addr_lo(l.addr)),
        LabelKind::Rel => spec_set_byte(s.bytes, p, rel_byte(l.addr, p)),
        LabelKind::Zpg => spec_set_byte(s.bytes, p, l.addr as u8),
    };
    let s1 = with_bytes(s, b1);
    lemma_patch_calls(s1, l, j + 1, t);
    match c.kind {
        LabelKind::Abs => {
            lemma_set_byte(s.bytes, p, addr_hi(l.addr));
            lemma_set_byte(spec_set_byte(s.bytes, p, addr_hi(l.addr)), p + 1, addr_lo(l.addr));
        },
        LabelKind::Rel => {
            lemma_set_byte(s.bytes, p, rel_byte(l.addr, p));
        },
        LabelKind::Zpg => {
            lemma_set_byte(s.bytes, p, l.addr as u8);
        },
    }
    if calls_disjoint(l.calls) {
        // The bytes of the `j`th reference lie outside every later one.
        assert forall|k2: int| j + 1 <= k2 < l.calls.len() implies !in_slot(p, #[trigger] l.calls[k2]) && (
        c.kind == LabelKind::Abs ==> !in_slot(p + 1, l.calls[k2])) by {
            assert(!overlap(l.calls[j], l.calls[k2]));
        }
    }
}

proof fn lemma_resolve(s: AsmState, ls: Seq<LabelView>, i: int, t: AsmState)
    requires
        0 <= i,
        spec_resolve(s, ls, i) == Step::Next(t),
    ensures
        t == with_bytes(s, t.bytes),
        t.bytes.len() >= s.bytes.len(),
        forall|i2: int| i <= i2 < ls.len() ==> (#[trigger] ls[i2]).defined,
        forall|q: int|
            0 <= q < s.bytes.len() && !in_any_slot(q, ls, i) ==> #[trigger] t.bytes[q] == s.bytes[q],
        slots_disjoint(ls) ==> forall|i2: int, k: int|
            i <= i2 < ls.len() && 0 <= k < ls[i2].calls.len() ==> slot_holds(
                t.bytes,
                ls[i2].addr,
                #[trigger] ls[i2].calls[k],
            ),
    decreases ls.len() - i,
{
    if i >= ls.len() {
        return;
    }
    let l = ls[i];
    let s1 = match spec_patch_calls(s, l, 0) {
        Step::Next(s1) => s1,
        _ => s,
    };
    lemma_patch_calls(s, l, 0, s1);
    lemma_resolve(s1, ls, i + 1, t);
    assert forall|q: int| 0 <= q < s.bytes.len() && !in_any_slot(q, ls, i) implies #[trigger] t.bytes[q]
        == s.bytes[q] by {
        assert forall|k: int| 0 <= k < l.calls.len() implies !in_slot(q, #[trigger] l.calls[k]) by {
            if in_slot(q, l.calls[k]) {
                assert(in_any_slot(q, ls, i));
            }
        }
    }
    if slots_disjoint(ls) {
        assert forall|i2: int, k: int| i <= i2 < ls.len() && 0 <= k < ls[i2].calls.len() implies slot_holds(
            t.bytes,
            ls[i2].addr,
            #[trigger] ls[i2].calls[k],
        ) by {
            if i2 == i {
                let c = l.calls[k];
                let p = c.pos as int;
                // No later label's reference covers the bytes of this one.
                assert(!in_any_slot(p, ls, i + 1));
                assert(c.kind == LabelKind::Abs ==> !in_any_slot(p + 1, ls, i + 1));
            }
        }
    }
}

/// Once assembling succeeds, every label that was referred to is defined,
/// and, where no two references share a byte, every reference holds the
/// address of its label: a big-endian short for `;` and `:`, the offset from
/// the end of the two-byte literal for `,`, and the address itself for `.`.
pub proof fn lemma_assemble_fills_references(s: AsmState, t: AsmState)
    requires
        spec_assemble(s) == Step::Next(t),
    ensures
        forall|i: int| 0 <= i < t.labels.len() ==> (#[trigger] t.labels[i]).defined,
        slots_disjoint(t.labels) ==> forall|i: int, k: int|
            0 <= i < t.labels.len() && 0 <= k < t.labels[i].calls.len() ==> slot_holds(
                t.bytes,
                t.labels[i].addr,
                #[trigger] t.labels[i].calls[k],
            ),
{
    let s1 = match spec_run_words(s, words_of(s.code)) {
        Step::Next(s1) => s1,
        _ => s,
    };
    lemma_resolve(s1, s1.labels, 0, t);
}

/// Resolving labels changes only the bytes of the references: every byte of
/// the image that no reference covers keeps the value the words gave it.
pub proof fn lemma_resolve_frame(s: AsmState, t: AsmState, q: int)
    requires
        spec_resolve(s, s.labels, 0) == Step::Next(t),
        0 <= q < s.bytes.len(),
        !in_any_slot(q, s.labels, 0),
    ensures
        t.bytes[q] == s.bytes[q],
        t.labels == s.labels,
        t.counter == s.counter,
{
    lemma_resolve(s, s.labels, 0, t);
}

/// Reference `c` to a label at `addr` can be filled in: its bytes lie below
/// the last `usize`, a relative offset fits in a signed byte, and a
/// zero-page target fits in a byte.
pub open spec fn call_fits(addr: int, c: LabelCall) -> bool {
    let p = c.pos as int;
    match c.kind {
        LabelKind::Abs => p + 1 < usize::MAX,
        LabelKind::Rel => p < usize::MAX && rel_in_range(addr, p),
        LabelKind::Zpg => addr <= 0xff && p < usize::MAX,
    }
}

/// Label `l` is defined and each of its references can be filled in.
pub open spec fn label_resolvable(l: LabelView) -> bool {
    &&& l.defined
    &&& forall|k: int| 0 <= k < l.calls.len() ==> call_fits(l.addr, #[trigger] l.calls[k])
}

proof fn lemma_patch_calls_succeeds(s: AsmState, l: LabelView, j: int)
    requires
        0 <= j,
    ensures
        (spec_patch_calls(s, l, j) is Next) <==> forall|k: int|
            j <= k < l.calls.len() ==> call_fits(l.addr, #[trigger] l.calls[k]),
    decreases l.calls.len() - j,
{
    if j < l.calls.len() {
        let c = l.calls[j];
        let p = c.pos as int;
        let bytes = match c.kind {
            LabelKind::Abs => spec_set_byte(spec_set_byte(s.bytes, p, addr_hi(l.addr)), p + 1, addr_lo(l.addr)),
            LabelKind::Rel => spec_set_byte(s.bytes, p, rel_byte(l.addr, p)),
            LabelKind::Zpg => spec_set_byte(s.bytes, p, l.addr as u8),
        };
        lemma_patch_calls_succeeds(with_bytes(s, bytes), l, j + 1);
        if !call_fits(l.addr, c) {
            assert(!(spec_patch_calls(s, l, j) is Next));
        }
    }
}

proof fn lemma_resolve_succeeds(s: AsmState, ls: Seq<LabelView>, i: int)
    requires
        0 <= i,
    ensures
        (spec_resolve(s, ls, i) is Next) <==> forall|i2: int|
            i <= i2 < ls.len() ==> label_resolvable(#[trigger] ls[i2]),
    decreases ls.len() - i,
{
    if i < ls.len() {
        let l = ls[i];
        lemma_patch_calls_succeeds(s, l, 0);
        if l.defined {
            match spec_patch_calls(s, l, 0) {
                Step::Next(s1) => {
                    lemma_resolve_succeeds(s1, ls, i + 1);
                    if forall|i2: int| i + 1 <= i2 < ls.len() ==> label_resolvable(#[trigger] ls[i2]) {
                        assert forall|i2: int| i <= i2 < ls.len() implies label_resolvable(#[trigger] ls[i2]) by {
                            if i2 == i {
                                assert(label_resolvable(l));
                            }
                        }
                    }
                },
                _ => {
                    assert(!label_resolvable(ls[i]));
                },
            }
        } else {
            assert(!label_resolvable(ls[i]));
        }
    }
}

/// Once every word has gone through, assembling succeeds exactly when every
/// label that was referred to is defined, every zero-page target fits in a
/// byte, every relative offset fits in a signed byte, and every reference
/// lies below the last `usize`.
pub proof fn lemma_assemble_succeeds(s: AsmState, t: AsmState)
    requires
        spec_run_words(s, words_of(s.code)) == Step::Next(t),
    ensures
        (spec_assemble(s) is Next) <==> forall|i: int|
            0 <= i < t.labels.len() ==> label_resolvable(#[trigger] t.labels[i]),
{
    lemma_resolve_succeeds(t, t.labels, 0);
}

/// The signed value of a byte, as the machine reads a relative offset.
pub open spec fn signed_byte(b: u8) -> int {
    if b < 128 {
        b as int
    } else {
        b - 256
    }
}

/// Reading the bytes of reference `c` as the machine does gives back the
/// address `addr`: a big-endian short (addresses are 16 bits wide), a jump
/// whose target is two bytes past the offset plus the signed offset, or a
/// zero-page byte (for a label at a non-negative address).
pub open spec fn slot_points_at(bytes: Seq<u8>, addr: int, c: LabelCall) -> bool {
    let p = c.pos as int;
    match c.kind {
        LabelKind::Abs => p + 1 < bytes.len() && bytes[p] * 256 + bytes[p + 1] == addr % 0x10000,
        LabelKind::Rel => p < bytes.len() && p + 2 + signed_byte(bytes[p]) == addr,
        LabelKind::Zpg => p < bytes.len() && addr <= 0xff && (0 <= addr ==> bytes[p] == addr),
    }
}

proof fn lemma_slot_points_at(bytes: Seq<u8>, addr: int, c: LabelCall)
    requires
        slot_holds(bytes, addr, c),
        call_fits(addr, c),
    ensures
        slot_points_at(bytes, addr, c),
{
    let p = c.pos as int;
    match c.kind {
        LabelKind::Abs => {
            let q = addr / 256;
            let r = addr % 256;
            let qq = q / 256;
            let qr = q % 256;
            vstd::arithmetic::div_mod::lemma_fundamental_div_mod(addr, 256);
            vstd::arithmetic::div_mod::lemma_fundamental_div_mod(q, 256);
            assert(addr == (qq * 0x10000) + (qr * 256 + r)) by (nonlinear_arith)
                requires
                    addr == 256 * q + r,
                    q == 256 * qq + qr,
            ;
            vstd::arithmetic::div_mod::lemma_fundamental_div_mod_converse(addr, 0x10000, qq, qr * 256 + r);
        },
        LabelKind::Rel => {},
        LabelKind::Zpg => {},
    }
}

/// Once assembling succeeds, and where no two references share a byte, each
/// reference reads back as the address of its label: a short reference as
/// the 16-bit address, a zero-page reference as the address itself, and a
/// relative reference as the offset that lands on the label from just past
/// its literal.
pub proof fn lemma_references_point_at_labels(s: AsmState, t: AsmState)
    requires
        spec_assemble(s) == Step::Next(t),
        slots_disjoint(t.labels),
    ensures
        forall|i: int, k: int|
            0 <= i < t.labels.len() && 0 <= k < t.labels[i].calls.len() ==> slot_points_at(
                t.bytes,
                t.labels[i].addr,
                #[trigger] t.labels[i].calls[k],
            ),
{
    let t1 = spec_run_words(s, words_of(s.code))->Next_0;
    lemma_resolve(t1, t1.labels, 0, t);
    lemma_assemble_succeeds(s, t1);
    lemma_assemble_fills_references(s, t);
    assert forall|i: int, k: int|
        0 <= i < t.labels.len() && 0 <= k < t.labels[i].calls.len() implies slot_points_at(
        t.bytes,
        t.labels[i].addr,
        #[trigger] t.labels[i].calls[k],
    ) by {
        assert(label_resolvable(t1.labels[i]));
        lemma_slot_points_at(t.bytes, t.labels[i].addr, t.labels[i].calls[k]);
    }
}

} // verus!
