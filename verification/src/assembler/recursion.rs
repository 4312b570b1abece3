//! Why the nesting allowance of macro calls never changes what a word does
//! once it is as large as the macro table: a nesting deeper than that repeats
//! a macro within its own expansion, and such an expansion faults however
//! deep it is allowed to go.

use vstd::prelude::*;
use vstd::set_lib::lemma_int_range;
use vstd::set_lib::lemma_len_subset;
use vstd::set_lib::set_int_range;

use crate::utils::spec_parse_hex;
use crate::utils::ByteOrShort;
use super::AsmState;
use super::Step;
use super::find_macro;
use super::spec_word_to_bytes;
use super::spec_words_to_bytes;
use super::names::lemma_find_macro_from;
use super::reading::lemma_word_budget;
use super::reading::lemma_word_keeps_macros;
use super::uxn_macro::MacroView;

verus! {

/// The index of the macro that word `w` calls, when it is a macro call: a
/// word with no rune, not two hex digits, that names a defined macro.
pub open spec fn macro_called(s: AsmState, w: Seq<char>) -> Option<int> {
    if w.len() > 0 && w[0] != '#' && w[0] != ';' && w[0] != ':' && w[0] != '.' && w[0] != ','
        && w[0] != '\'' && w[0] != '"' && !(spec_parse_hex(w) matches Ok(ByteOrShort::Byte(_))) {
        find_macro(s.macros, w)
    } else {
        None
    }
}

/// Reading word `w` with `d` nested calls allowed gets as far as a call of
/// macro `m`.
pub open spec fn reaches_word(s: AsmState, w: Seq<char>, d: nat, m: int) -> bool
    decreases d, 0int,
{
    match macro_called(s, w) {
        Some(i) => i == m || (d > 0 && reaches_words(s, s.macros[i].1.code, (d - 1) as nat, m)),
        None => false,
    }
}

/// Reading the words `ws` with `d` nested calls allowed gets as far as a
/// call of macro `m`.
pub open spec fn reaches_words(s: AsmState, ws: Seq<Seq<char>>, d: nat, m: int) -> bool
    decreases d, ws.len(),
{
    if ws.len() == 0 {
        false
    } else {
        reaches_word(s, ws[0], d, m) || match spec_word_to_bytes(s, ws[0], d) {
            Step::Next(s1) => reaches_words(s1, ws.drop_first(), d, m),
            _ => false,
        }
    }
}

/// The body of macro `j` faults from every state with this macro table,
/// whatever nesting it is allowed.
pub open spec fn always_faults(ms: Seq<(Seq<char>, MacroView)>, j: int) -> bool {
    forall|s: AsmState, d: nat|
        s.macros == ms ==> (#[trigger] spec_words_to_bytes(s, ms[j].1.code, d)) is Fault
}

/// A word that goes through from one state never stops with an error from
/// another state with the same macros: its errors depend on the word alone.
proof fn lemma_word_no_new_stop(s1: AsmState, s2: AsmState, w: Seq<char>, d: nat)
    requires
        s1.macros == s2.macros,
        spec_word_to_bytes(s1, w, d) is Next,
    ensures
        !(spec_word_to_bytes(s2, w, d) is Stop),
    decreases d, 0int,
{
    if let Some(i) = macro_called(s1, w) {
        if d > 0 {
            lemma_words_no_new_stop(s1, s2, s1.macros[i].1.code, (d - 1) as nat);
        }
    }
}

proof fn lemma_words_no_new_stop(s1: AsmState, s2: AsmState, ws: Seq<Seq<char>>, d: nat)
    requires
        s1.macros == s2.macros,
        spec_words_to_bytes(s1, ws, d) is Next,
    ensures
        !(spec_words_to_bytes(s2, ws, d) is Stop),
    decreases d, ws.len(),
{
    if ws.len() > 0 {
        lemma_word_no_new_stop(s1, s2, ws[0], d);
        lemma_word_keeps_macros(s1, ws[0], d);
        lemma_word_keeps_macros(s2, ws[0], d);
        if let Step::Next(t1) = spec_word_to_bytes(s1, ws[0], d) {
            if let Step::Next(t2) = spec_word_to_bytes(s2, ws[0], d) {
                lemma_words_no_new_stop(t1, t2, ws.drop_first(), d);
            }
        }
    }
}

/// Nor does it stop with an error under a smaller allowance.
proof fn lemma_word_no_stop_below(s1: AsmState, s2: AsmState, w: Seq<char>, d1: nat, d2: nat)
    requires
        s1.macros == s2.macros,
        d2 <= d1,
        spec_word_to_bytes(s1, w, d1) is Next,
    ensures
        !(spec_word_to_bytes(s2, w, d2) is Stop),
{
    if !(spec_word_to_bytes(s2, w, d2) is Fault) {
        lemma_word_budget(s2, w, d2, d1);
        lemma_word_no_new_stop(s1, s2, w, d1);
    }
}

/// A call that is reached stays reached under a larger allowance.
proof fn lemma_reach_word_budget(s: AsmState, w: Seq<char>, d: nat, d2: nat, m: int)
    requires
        d <= d2,
        reaches_word(s, w, d, m),
    ensures
        reaches_word(s, w, d2, m),
    decreases d, 0int,
{
    let i = macro_called(s, w)->0;
    if i != m {
        lemma_reach_words_budget(s, s.macros[i].1.code, (d - 1) as nat, (d2 - 1) as nat, m);
    }
}

proof fn lemma_reach_words_budget(s: AsmState, ws: Seq<Seq<char>>, d: nat, d2: nat, m: int)
    requires
        d <= d2,
        reaches_words(s, ws, d, m),
    ensures
        reaches_words(s, ws, d2, m),
    decreases d, ws.len(),
{
    if reaches_word(s, ws[0], d, m) {
        lemma_reach_word_budget(s, ws[0], d, d2, m);
    } else {
        lemma_word_budget(s, ws[0], d, d2);
        let s1 = spec_word_to_bytes(s, ws[0], d)->Next_0;
        lemma_reach_words_budget(s1, ws.drop_first(), d, d2, m);
    }
}

/// Where reading `w` from one state reaches a call of `m`, reading it from
/// another state with the same macros, with no larger allowance, faults, as
/// long as the body of `m` faults under every smaller allowance.
proof fn lemma_reach_word_faults(s1: AsmState, w: Seq<char>, d1: nat, m: int, s2: AsmState, d2: nat)
    requires
        reaches_word(s1, w, d1, m),
        d2 <= d1,
        s2.macros == s1.macros,
        forall|s: AsmState, d: nat|
            s.macros == s1.macros && d < d2 ==> (#[trigger] spec_words_to_bytes(
                s,
                s1.macros[m].1.code,
                d,
            )) is Fault,
    ensures
        spec_word_to_bytes(s2, w, d2) is Fault,
    decreases d2, 0int,
{
    let i = macro_called(s1, w)->0;
    assert(macro_called(s2, w) == Some(i));
    if d2 > 0 {
        if i == m {
            assert(spec_words_to_bytes(s2, s1.macros[m].1.code, (d2 - 1) as nat) is Fault);
        } else {
            lemma_reach_words_faults(s1, s1.macros[i].1.code, (d1 - 1) as nat, m, s2, (d2 - 1) as nat);
        }
    }
}

proof fn lemma_reach_words_faults(
    s1: AsmState,
    ws: Seq<Seq<char>>,
    d1: nat,
    m: int,
    s2: AsmState,
    d2: nat,
)
    requires
        reaches_words(s1, ws, d1, m),
        d2 <= d1,
        s2.macros == s1.macros,
        forall|s: AsmState, d: nat|
            s.macros == s1.macros && d < d2 ==> (#[trigger] spec_words_to_bytes(
                s,
                s1.macros[m].1.code,
                d,
            )) is Fault,
    ensures
        spec_words_to_bytes(s2, ws, d2) is Fault,
    decreases d2, ws.len(),
{
    if reaches_word(s1, ws[0], d1, m) {
        lemma_reach_word_faults(s1, ws[0], d1, m, s2, d2);
    } else {
        let t1 = spec_word_to_bytes(s1, ws[0], d1)->Next_0;
        lemma_word_no_stop_below(s1, s2, ws[0], d1, d2);
        lemma_word_keeps_macros(s1, ws[0], d1);
        lemma_word_keeps_macros(s2, ws[0], d2);
        if let Step::Next(t2) = spec_word_to_bytes(s2, ws[0], d2) {
            lemma_reach_words_faults(t1, ws.drop_first(), d1, m, t2, d2);
        }
    }
}

/// A macro whose body reaches a call of itself faults from every state and
/// under every allowance: the call inside repeats the same words.
proof fn lemma_self_call_faults(s1: AsmState, m: int, d1: nat, s2: AsmState, d2: nat)
    requires
        reaches_words(s1, s1.macros[m].1.code, d1, m),
        s2.macros == s1.macros,
    ensures
        spec_words_to_bytes(s2, s1.macros[m].1.code, d2) is Fault,
    decreases d2,
{
    let code = s1.macros[m].1.code;
    let d: nat = if d1 >= d2 { d1 } else { d2 };
    lemma_reach_words_budget(s1, code, d1, d, m);
    assert forall|s: AsmState, dd: nat| s.macros == s1.macros && dd < d2 implies (
    #[trigger] spec_words_to_bytes(s, code, dd)) is Fault by {
        lemma_self_call_faults(s1, m, d1, s, dd);
    }
    lemma_reach_words_faults(s1, code, d, m, s2, d2);
}

proof fn lemma_self_call_always_faults(s1: AsmState, m: int, d1: nat)
    requires
        reaches_words(s1, s1.macros[m].1.code, d1, m),
    ensures
        always_faults(s1.macros, m),
{
    assert forall|s: AsmState, d: nat| s.macros == s1.macros implies (#[trigger] spec_words_to_bytes(
        s,
        s1.macros[m].1.code,
        d,
    )) is Fault by {
        lemma_self_call_faults(s1, m, d1, s, d);
    }
}

/// With the macros `a` open around it (each of which faults if called
/// again) and no fewer nested calls allowed than macros outside `a`, a word
/// does what it does under any larger allowance.
proof fn lemma_word_enough(s: AsmState, w: Seq<char>, d: nat, d2: nat, a: Set<int>)
    requires
        d <= d2,
        a.finite(),
        forall|j: int| a.contains(j) ==> 0 <= j < s.macros.len(),
        a.len() + d >= s.macros.len(),
        forall|j: int| a.contains(j) && reaches_word(s, w, d, j) ==> always_faults(s.macros, j),
    ensures
        spec_word_to_bytes(s, w, d2) == spec_word_to_bytes(s, w, d),
    decreases d, 0int,
{
    if let Some(i) = macro_called(s, w) {
        lemma_find_macro_from(s.macros, w, 0);
        let code = s.macros[i].1.code;
        if a.contains(i) {
            assert(reaches_word(s, w, d, i));
            if d > 0 {
                assert(spec_words_to_bytes(s, code, (d - 1) as nat) is Fault);
            }
            if d2 > 0 {
                assert(spec_words_to_bytes(s, code, (d2 - 1) as nat) is Fault);
            }
        } else {
            let n = s.macros.len() as int;
            let a2 = a.insert(i);
            lemma_int_range(0, n);
            assert(a2.subset_of(set_int_range(0, n)));
            lemma_len_subset(a2, set_int_range(0, n));
            assert(d > 0);
            assert forall|j: int| a2.contains(j) && reaches_words(s, code, (d - 1) as nat, j) implies always_faults(
                s.macros,
                j,
            ) by {
                if j == i {
                    lemma_self_call_always_faults(s, i, (d - 1) as nat);
                } else {
                    assert(reaches_word(s, w, d, j));
                }
            }
            lemma_words_enough(s, code, (d - 1) as nat, (d2 - 1) as nat, a2);
        }
    }
}

proof fn lemma_words_enough(s: AsmState, ws: Seq<Seq<char>>, d: nat, d2: nat, a: Set<int>)
    requires
        d <= d2,
        a.finite(),
        forall|j: int| a.contains(j) ==> 0 <= j < s.macros.len(),
        a.len() + d >= s.macros.len(),
        forall|j: int| a.contains(j) && reaches_words(s, ws, d, j) ==> always_faults(s.macros, j),
    ensures
        spec_words_to_bytes(s, ws, d2) == spec_words_to_bytes(s, ws, d),
    decreases d, ws.len(),
{
    if ws.len() > 0 {
        lemma_word_enough(s, ws[0], d, d2, a);
        lemma_word_keeps_macros(s, ws[0], d);
        if let Step::Next(s1) = spec_word_to_bytes(s, ws[0], d) {
            lemma_words_enough(s1, ws.drop_first(), d, d2, a);
        }
    }
}

/// The body of a macro read one nesting level down does what it does at the
/// level of the call, faults included.
pub proof fn lemma_body_allowance(s: AsmState, i: int)
    requires
        0 <= i < s.macros.len(),
    ensures
        spec_words_to_bytes(s, s.macros[i].1.code, (s.macros.len() - 1) as nat) == spec_words_to_bytes(
            s,
            s.macros[i].1.code,
            s.macros.len(),
        ),
{
    let code = s.macros[i].1.code;
    let d = (s.macros.len() - 1) as nat;
    let a = Set::<int>::empty().insert(i);
    assert forall|j: int| a.contains(j) && reaches_words(s, code, d, j) implies always_faults(s.macros, j) by {
        lemma_self_call_always_faults(s, i, d);
    }
    lemma_words_enough(s, code, d, s.macros.len(), a);
}

} // verus!
