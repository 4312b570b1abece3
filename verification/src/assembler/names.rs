//! Every name occurs at most once in the label table and in the macro
//! table, whatever the assembler reads.

use vstd::prelude::*;

use crate::utils::ByteOrShort;
use crate::utils::spec_parse_hex;
use super::AsmState;
use super::LabelKind;
use super::LabelView;
use super::Step;
use super::emit_then_ref;
use super::find_label_from;
use super::find_macro;
use super::find_macro_from;
use super::insert_macro;
use super::lit_byte;
use super::lit_short;
use super::raw_short;
use super::ref_name;
use super::spec_add_label;
use super::spec_add_label_call;
use super::spec_assemble;
use super::spec_do_word;
use super::spec_emit;
use super::spec_emit_all;
use super::spec_label_ref;
use super::spec_patch_calls;
use super::spec_resolve;
use super::spec_run_words;
use super::spec_word_to_bytes;
use super::spec_words_to_bytes;
use super::words_of;
use super::uxn_macro::MacroView;

verus! {

/// No two labels share a name.
pub open spec fn labels_unique(ls: Seq<LabelView>) -> bool {
    forall|i: int, j: int| 0 <= i < j < ls.len() ==> #[trigger] ls[i].name != #[trigger] ls[j].name
}

/// No two macros share a name.
pub open spec fn macros_unique(ms: Seq<(Seq<char>, MacroView)>) -> bool {
    forall|i: int, j: int| 0 <= i < j < ms.len() ==> #[trigger] ms[i].0 != #[trigger] ms[j].0
}

pub open spec fn names_unique(s: AsmState) -> bool {
    labels_unique(s.labels) && macros_unique(s.macros)
}

/// The state that a step leaves, if it leaves one, has unique names.
pub open spec fn step_keeps(st: Step) -> bool {
    match st {
        Step::Next(t) => names_unique(t),
        Step::Stop(t, _) => names_unique(t),
        Step::Fault => true,
    }
}

pub(crate) proof fn lemma_find_label_from(ls: Seq<LabelView>, name: Seq<char>, i: int)
    requires
        0 <= i,
    ensures
        find_label_from(ls, name, i) is None ==> forall|j: int| i <= j < ls.len() ==> #[trigger] ls[j].name != name,
        find_label_from(ls, name, i) matches Some(k) ==> i <= k < ls.len() && ls[k].name == name,
    decreases ls.len() - i,
{
    if i < ls.len() && ls[i].name != name {
        lemma_find_label_from(ls, name, i + 1);
    }
}

pub(crate) proof fn lemma_find_macro_from(ms: Seq<(Seq<char>, MacroView)>, name: Seq<char>, i: int)
    requires
        0 <= i,
    ensures
        find_macro_from(ms, name, i) is None ==> forall|j: int| i <= j < ms.len() ==> #[trigger] ms[j].0 != name,
        find_macro_from(ms, name, i) matches Some(k) ==> i <= k < ms.len() && ms[k].0 == name,
    decreases ms.len() - i,
{
    if i < ms.len() && ms[i].0 != name {
        lemma_find_macro_from(ms, name, i + 1);
    }
}

proof fn lemma_add_label(s: AsmState, name: Seq<char>)
    requires
        labels_unique(s.labels),
    ensures
        labels_unique(spec_add_label(s, name).labels),
        spec_add_label(s, name).macros == s.macros,
{
    lemma_find_label_from(s.labels, name, 0);
}

proof fn lemma_add_label_call(s: AsmState, name: Seq<char>, kind: LabelKind)
    requires
        labels_unique(s.labels),
    ensures
        labels_unique(spec_add_label_call(s, name, kind).labels),
        spec_add_label_call(s, name, kind).macros == s.macros,
{
    lemma_find_label_from(s.labels, name, 0);
}

proof fn lemma_insert_macro(ms: Seq<(Seq<char>, MacroView)>, name: Seq<char>, m: MacroView)
    requires
        macros_unique(ms),
    ensures
        macros_unique(insert_macro(ms, name, m)),
{
    lemma_find_macro_from(ms, name, 0);
}

proof fn lemma_emit_keeps(s: AsmState, bs: Seq<u8>)
    ensures
        spec_emit_all(s, bs) matches Some(t) ==> t.labels == s.labels && t.macros == s.macros,
        spec_emit(s, if bs.len() > 0 { bs[0] } else { 0 }) matches Some(t) ==> t.labels == s.labels
            && t.macros == s.macros,
    decreases bs.len(),
{
    if bs.len() > 0 {
        if let Some(s1) = spec_emit(s, bs[0]) {
            lemma_emit_keeps(s1, bs.drop_first());
        }
    }
}

proof fn lemma_ref_keeps(s: AsmState, b: u8, name: Seq<char>, kind: LabelKind)
    requires
        names_unique(s),
    ensures
        step_keeps(emit_then_ref(s, b, name, kind)),
        step_keeps(spec_label_ref(s, name, kind)),
{
    lemma_add_label_call(s, name, kind);
    lemma_emit_keeps(s, seq![b]);
    if let Some(s1) = spec_emit(s, b) {
        lemma_add_label_call(s1, name, kind);
    }
}

proof fn lemma_word_keeps(s: AsmState, w: Seq<char>, d: nat)
    requires
        names_unique(s),
    ensures
        step_keeps(spec_word_to_bytes(s, w, d)),
    decreases d, 0int,
{
    if w.len() == 0 {
        return;
    }
    let c = w[0];
    let rest = w.drop_first();
    let name = ref_name(s.last_main_lbl, rest);
    lemma_ref_keeps(s, 0xa0, name, LabelKind::Abs);
    lemma_ref_keeps(s, 0x80, name, LabelKind::Zpg);
    lemma_ref_keeps(s, 0x80, name, LabelKind::Rel);
    if c == '#' {
        match spec_parse_hex(rest) {
            Ok(ByteOrShort::Byte(b)) => lemma_emit_keeps(s, lit_byte(b)),
            Ok(ByteOrShort::Short(v)) => lemma_emit_keeps(s, lit_short(v)),
            Err(_) => {},
        }
    } else if c == '\'' {
        if w.len() >= 2 {
            lemma_emit_keeps(s, seq![w[1] as u8]);
        }
    } else if c == '"' {
        lemma_emit_keeps(s, vstd::utf8::encode_utf8(rest));
    } else if c != ';' && c != ':' && c != '.' && c != ',' {
        if let Ok(ByteOrShort::Byte(b)) = spec_parse_hex(w) {
            lemma_emit_keeps(s, seq![b]);
        }
        if let Ok(ByteOrShort::Short(v)) = spec_parse_hex(w) {
            lemma_emit_keeps(s, raw_short(v));
        }
        if let Ok(b) = super::instr::spec_instr_new(w) {
            lemma_emit_keeps(s, seq![b]);
        }
        if let Some(i) = find_macro(s.macros, w) {
            if d > 0 {
                lemma_words_keeps(s, s.macros[i].1.code, (d - 1) as nat);
            }
        }
    }
}

proof fn lemma_words_keeps(s: AsmState, ws: Seq<Seq<char>>, d: nat)
    requires
        names_unique(s),
    ensures
        step_keeps(spec_words_to_bytes(s, ws, d)),
    decreases d, ws.len(),
{
    if ws.len() > 0 {
        lemma_word_keeps(s, ws[0], d);
        if let Step::Next(s1) = spec_word_to_bytes(s, ws[0], d) {
            lemma_words_keeps(s1, ws.drop_first(), d);
        }
    }
}

/// Reading any word keeps every name unique in the label table and in the
/// macro table: a label or macro that is named again is updated in place.
pub proof fn lemma_do_word_keeps_names_unique(s: AsmState, w: Seq<char>)
    requires
        names_unique(s),
    ensures
        step_keeps(spec_do_word(s, w)),
{
    lemma_add_label(s, w.drop_first());
    lemma_add_label(AsmState { last_main_lbl: w.drop_first(), ..s }, w.drop_first());
    lemma_add_label(s, s.last_main_lbl + seq!['/'] + w.drop_first());
    lemma_insert_macro(s.macros, s.cur_macro_name, MacroView { args: Seq::empty(), code: Seq::empty(), times_used: 0 });
    if let Ok(m) = super::uxn_macro::spec_macro_new(s.cur_macro_buf.push(w)) {
        lemma_insert_macro(s.macros, s.cur_macro_name, m);
    }
    lemma_word_keeps(s, w, s.macros.len());
}

proof fn lemma_run_keeps(s: AsmState, ws: Seq<Seq<char>>)
    requires
        names_unique(s),
    ensures
        step_keeps(spec_run_words(s, ws)),
    decreases ws.len(),
{
    if ws.len() > 0 {
        lemma_do_word_keeps_names_unique(s, ws[0]);
        if let Step::Next(s1) = spec_do_word(s, ws[0]) {
            lemma_run_keeps(s1, ws.drop_first());
        }
    }
}

proof fn lemma_patch_keeps(s: AsmState, l: LabelView, j: int)
    ensures
        match spec_patch_calls(s, l, j) {
            Step::Next(t) => t.labels == s.labels && t.macros == s.macros,
            Step::Stop(t, _) => t.labels == s.labels && t.macros == s.macros,
            Step::Fault => true,
        },
    decreases l.calls.len() - j,
{
    if 0 <= j < l.calls.len() {
        let p = l.calls[j].pos as int;
        let b1 = match l.calls[j].kind {
            LabelKind::Abs => crate::utils::spec_set_byte(
                crate::utils::spec_set_byte(s.bytes, p, super::addr_hi(l.addr)),
                p + 1,
                super::addr_lo(l.addr),
            ),
            LabelKind::Rel => crate::utils::spec_set_byte(s.bytes, p, super::rel_byte(l.addr, p)),
            LabelKind::Zpg => crate::utils::spec_set_byte(s.bytes, p, l.addr as u8),
        };
        lemma_patch_keeps(super::with_bytes(s, b1), l, j + 1);
    }
}

proof fn lemma_resolve_keeps(s: AsmState, ls: Seq<LabelView>, i: int)
    ensures
        match spec_resolve(s, ls, i) {
            Step::Next(t) => t.labels == s.labels && t.macros == s.macros,
            Step::Stop(t, _) => t.labels == s.labels && t.macros == s.macros,
            Step::Fault => true,
        },
    decreases ls.len() - i,
{
    if 0 <= i < ls.len() && ls[i].defined {
        lemma_patch_keeps(s, ls[i], 0);
        if let Step::Next(s1) = spec_patch_calls(s, ls[i], 0) {
            lemma_resolve_keeps(s1, ls, i + 1);
        }
    }
}

/// Assembling keeps every name unique in the label table and in the macro
/// table; a fresh assembler starts with both tables empty.
pub proof fn lemma_assemble_keeps_names_unique(s: AsmState)
    requires
        names_unique(s),
    ensures
        step_keeps(spec_assemble(s)),
{
    lemma_run_keeps(s, words_of(s.code));
    if let Step::Next(s1) = spec_run_words(s, words_of(s.code)) {
        lemma_resolve_keeps(s1, s1.labels, 0);
    }
}

/// The macro that the table `ms` holds under `name`, if any.
pub open spec fn macro_lookup(ms: Seq<(Seq<char>, MacroView)>, name: Seq<char>) -> Option<MacroView> {
    match find_macro(ms, name) {
        Some(i) => Some(ms[i].1),
        None => None,
    }
}

proof fn lemma_find_macro_first(ms: Seq<(Seq<char>, MacroView)>, name: Seq<char>, i: int)
    requires
        0 <= i,
    ensures
        find_macro_from(ms, name, i) matches Some(k) ==> forall|j: int| i <= j < k ==> #[trigger] ms[j].0 != name,
    decreases ms.len() - i,
{
    if i < ms.len() && ms[i].0 != name {
        lemma_find_macro_first(ms, name, i + 1);
    }
}

proof fn lemma_find_macro_at(ms: Seq<(Seq<char>, MacroView)>, name: Seq<char>, i: int, k: int)
    requires
        0 <= i <= k <= ms.len(),
        k < ms.len() ==> ms[k].0 == name,
        forall|j: int| i <= j < k ==> #[trigger] ms[j].0 != name,
    ensures
        find_macro_from(ms, name, i) == (if k < ms.len() { Some(k) } else { None::<int> }),
    decreases k - i,
{
    if i < k {
        lemma_find_macro_at(ms, name, i + 1, k);
    }
}

/// Defining a macro makes its name look up the new definition, replacing
/// any earlier one, and leaves what every other name looks up unchanged.
pub proof fn lemma_insert_macro_lookup(
    ms: Seq<(Seq<char>, MacroView)>,
    name: Seq<char>,
    m: MacroView,
    other: Seq<char>,
)
    ensures
        macro_lookup(insert_macro(ms, name, m), name) == Some(m),
        other != name ==> macro_lookup(insert_macro(ms, name, m), other) == macro_lookup(ms, other),
{
    let ms2 = insert_macro(ms, name, m);
    lemma_find_macro_from(ms, name, 0);
    lemma_find_macro_first(ms, name, 0);
    lemma_find_macro_from(ms, other, 0);
    lemma_find_macro_first(ms, other, 0);
    let i = match find_macro(ms, name) {
        Some(i) => i,
        None => ms.len() as int,
    };
    assert(ms2[i] == (name, m));
    assert forall|j: int| 0 <= j < i implies #[trigger] ms2[j].0 != name by {
        assert(ms2[j] == ms[j]);
    }
    lemma_find_macro_at(ms2, name, 0, i);
    if other != name {
        let k = match find_macro(ms, other) {
            Some(k) => k,
            None => ms.len() as int,
        };
        assert forall|j: int| 0 <= j < k implies #[trigger] ms2[j].0 != other by {
            if j != i {
                assert(ms2[j] == ms[j]);
            }
        }
        if k < ms.len() {
            assert(k != i);
            assert(ms2[k] == ms[k]);
            lemma_find_macro_at(ms2, other, 0, k);
        } else {
            assert forall|j: int| 0 <= j < ms2.len() implies #[trigger] ms2[j].0 != other by {
                if j != i {
                    assert(ms2[j] == ms[j]);
                }
            }
            lemma_find_macro_at(ms2, other, 0, ms2.len() as int);
        }
    }
}

/// The label that the table `ls` holds under `name`, if any.
pub open spec fn label_lookup(ls: Seq<LabelView>, name: Seq<char>) -> Option<LabelView> {
    match super::find_label(ls, name) {
        Some(i) => Some(ls[i]),
        None => None,
    }
}

proof fn lemma_find_label_first(ls: Seq<LabelView>, name: Seq<char>, i: int)
    requires
        0 <= i,
    ensures
        find_label_from(ls, name, i) matches Some(k) ==> forall|j: int| i <= j < k ==> #[trigger] ls[j].name != name,
    decreases ls.len() - i,
{
    if i < ls.len() && ls[i].name != name {
        lemma_find_label_first(ls, name, i + 1);
    }
}

proof fn lemma_find_label_at(ls: Seq<LabelView>, name: Seq<char>, i: int, k: int)
    requires
        0 <= i <= k <= ls.len(),
        k < ls.len() ==> ls[k].name == name,
        forall|j: int| i <= j < k ==> #[trigger] ls[j].name != name,
    ensures
        find_label_from(ls, name, i) == (if k < ls.len() { Some(k) } else { None::<int> }),
    decreases k - i,
{
    if i < k {
        lemma_find_label_at(ls, name, i + 1, k);
    }
}

/// Changing the entry of `name` (or adding one at the end when there is
/// none) to `l`, named `name`, makes `name` look up `l` and leaves every
/// other name's lookup unchanged.
proof fn lemma_label_table_update(ls: Seq<LabelView>, name: Seq<char>, l: LabelView, other: Seq<char>)
    requires
        l.name == name,
    ensures
        ({
            let ls2 = match super::find_label(ls, name) {
                Some(i) => ls.update(i, l),
                None => ls.push(l),
            };
            &&& label_lookup(ls2, name) == Some(l)
            &&& other != name ==> label_lookup(ls2, other) == label_lookup(ls, other)
        }),
{
    let ls2 = match super::find_label(ls, name) {
        Some(i) => ls.update(i, l),
        None => ls.push(l),
    };
    lemma_find_label_from(ls, name, 0);
    lemma_find_label_first(ls, name, 0);
    lemma_find_label_from(ls, other, 0);
    lemma_find_label_first(ls, other, 0);
    let i = match super::find_label(ls, name) {
        Some(i) => i,
        None => ls.len() as int,
    };
    assert(ls2[i] == l);
    assert forall|j: int| 0 <= j < i implies #[trigger] ls2[j].name != name by {
        assert(ls2[j] == ls[j]);
    }
    lemma_find_label_at(ls2, name, 0, i);
    if other != name {
        let k = match super::find_label(ls, other) {
            Some(k) => k,
            None => ls.len() as int,
        };
        assert forall|j: int| 0 <= j < k implies #[trigger] ls2[j].name != other by {
            if j != i {
                assert(ls2[j] == ls[j]);
            }
        }
        if k < ls.len() {
            assert(ls2[k] == ls[k]);
            lemma_find_label_at(ls2, other, 0, k);
        } else {
            assert forall|j: int| 0 <= j < ls2.len() implies #[trigger] ls2[j].name != other by {
                if j != i {
                    assert(ls2[j] == ls[j]);
                }
            }
            lemma_find_label_at(ls2, other, 0, ls2.len() as int);
        }
    }
}

/// Defining label `name` makes it defined at the current address, keeps
/// the references already made to it, and leaves every other label as it
/// was.
pub proof fn lemma_add_label_lookup(s: AsmState, name: Seq<char>, other: Seq<char>)
    ensures
        label_lookup(spec_add_label(s, name).labels, name) == Some(
            LabelView {
                name,
                defined: true,
                addr: s.counter,
                calls: match label_lookup(s.labels, name) {
                    Some(l) => l.calls,
                    None => Seq::empty(),
                },
            },
        ),
        other != name ==> label_lookup(spec_add_label(s, name).labels, other) == label_lookup(
            s.labels,
            other,
        ),
{
    lemma_find_label_from(s.labels, name, 0);
    let l = LabelView {
        name,
        defined: true,
        addr: s.counter,
        calls: match label_lookup(s.labels, name) {
            Some(l) => l.calls,
            None => Seq::empty(),
        },
    };
    lemma_label_table_update(s.labels, name, l, other);
}

/// A reference to label `name` appends the reference to that label's list
/// (creating the label, not yet defined, when there is none), keeps whether
/// and where it is defined, and leaves every other label as it was.
pub proof fn lemma_add_label_call_lookup(s: AsmState, name: Seq<char>, kind: LabelKind, other: Seq<char>)
    ensures
        label_lookup(spec_add_label_call(s, name, kind).labels, name) == Some(
            match label_lookup(s.labels, name) {
                Some(l) => LabelView {
                    calls: l.calls.push(super::LabelCall { pos: s.counter as usize, kind }),
                    ..l
                },
                None => LabelView {
                    name,
                    defined: false,
                    addr: 0,
                    calls: seq![super::LabelCall { pos: s.counter as usize, kind }],
                },
            },
        ),
        other != name ==> label_lookup(spec_add_label_call(s, name, kind).labels, other)
            == label_lookup(s.labels, other),
{
    lemma_find_label_from(s.labels, name, 0);
    let call = super::LabelCall { pos: s.counter as usize, kind };
    let l = match label_lookup(s.labels, name) {
        Some(l) => LabelView { calls: l.calls.push(call), ..l },
        None => LabelView { name, defined: false, addr: 0, calls: seq![call] },
    };
    lemma_label_table_update(s.labels, name, l, other);
}

} // verus!
