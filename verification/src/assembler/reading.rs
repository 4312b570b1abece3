//! What reading source words guarantees: written bytes land at the next
//! addresses, comments are skipped, a macro definition records its body, and
//! a macro call does what its body does.

use vstd::prelude::*;

use crate::utils::spec_parse_hex;
use crate::utils::ByteOrShort;
use super::AsmState;
use super::Step;
use super::find_macro;
use super::insert_macro;
use super::spec_do_word;
use super::spec_run_words;
use super::spec_word_to_bytes;
use super::spec_words_to_bytes;
use super::starts_with;
use super::spec_do_word_to_bytes;
use super::lit_byte;
use super::lit_short;
use super::raw_short;
use super::names::lemma_find_macro_from;
use super::recursion::lemma_body_allowance;
use super::spec_emit_all;
use crate::utils::spec_set_byte;
use super::uxn_macro::MacroView;
use super::uxn_macro::lacks;
use super::uxn_macro::lemma_macro_body_only;
use super::uxn_macro::single;

verus! {

/// Writing bytes puts each at the next address, in order, moves the address
/// past them, and leaves every other byte and the rest of the state as they
/// were.
pub proof fn lemma_emit_all_writes(s: AsmState, bs: Seq<u8>, t: AsmState)
    requires
        spec_emit_all(s, bs) == Some(t),
    ensures
        t == (AsmState { bytes: t.bytes, counter: s.counter + bs.len(), ..s }),
        t.bytes.len() >= s.bytes.len(),
        bs.len() > 0 ==> t.bytes.len() >= s.counter + bs.len(),
        forall|k: int| 0 <= k < bs.len() ==> t.bytes[s.counter + k] == #[trigger] bs[k],
        forall|q: int|
            0 <= q < s.bytes.len() && !(s.counter <= q < s.counter + bs.len()) ==> #[trigger] t.bytes[q]
                == s.bytes[q],
    decreases bs.len(),
{
    if bs.len() > 0 {
        let b1 = spec_set_byte(s.bytes, s.counter, bs[0]);
        let s1 = AsmState { bytes: b1, counter: s.counter + 1, ..s };
        lemma_emit_all_writes(s1, bs.drop_first(), t);
        assert forall|k: int| 0 <= k < bs.len() implies t.bytes[s.counter + k] == #[trigger] bs[k] by {
            if k > 0 {
                assert(bs.drop_first()[k - 1] == bs[k]);
            }
        }
    }
}

/// No word of `ws` starts with `c`.
pub open spec fn none_start_with(ws: Seq<Seq<char>>, c: char) -> bool {
    forall|i: int| 0 <= i < ws.len() ==> !starts_with(#[trigger] ws[i], c)
}

proof fn lemma_run_append(s: AsmState, w: Seq<char>, rest: Seq<Seq<char>>)
    ensures
        spec_run_words(s, seq![w] + rest) == match spec_do_word(s, w) {
            Step::Next(s1) => spec_run_words(s1, rest),
            other => other,
        },
{
    assert((seq![w] + rest).drop_first() =~= rest);
}

proof fn lemma_skip_comment_body(t: AsmState, inner: Seq<Seq<char>>, tail: Seq<Seq<char>>)
    requires
        t.in_comment,
        none_start_with(inner, ')'),
    ensures
        spec_run_words(t, inner + tail) == spec_run_words(t, tail),
    decreases inner.len(),
{
    if inner.len() > 0 {
        let rest = inner.drop_first();
        assert(inner + tail =~= seq![inner[0]] + (rest + tail));
        lemma_run_append(t, inner[0], rest + tail);
        lemma_skip_comment_body(t, rest, tail);
    }
}

/// A comment, from a word that starts with `(` to the next word that starts
/// with `)`, changes nothing: reading it and then `rest` is reading `rest`.
pub proof fn lemma_comment_is_skipped(
    s: AsmState,
    open: Seq<char>,
    inner: Seq<Seq<char>>,
    close: Seq<char>,
    rest: Seq<Seq<char>>,
)
    requires
        !s.in_comment,
        starts_with(open, '('),
        none_start_with(inner, ')'),
        starts_with(close, ')'),
    ensures
        spec_run_words(s, seq![open] + inner + seq![close] + rest) == spec_run_words(s, rest),
{
    let t = AsmState { in_comment: true, ..s };
    assert(seq![open] + inner + seq![close] + rest =~= seq![open] + (inner + (seq![close] + rest)));
    lemma_run_append(s, open, inner + (seq![close] + rest));
    lemma_skip_comment_body(t, inner, seq![close] + rest);
    lemma_run_append(t, close, rest);
}

proof fn lemma_collect_macro_words(t: AsmState, ws: Seq<Seq<char>>, tail: Seq<Seq<char>>)
    requires
        t.in_macro,
        !t.in_comment,
        lacks(ws, '}'),
        none_start_with(ws, '('),
    ensures
        spec_run_words(t, ws + tail) == spec_run_words(
            AsmState { cur_macro_buf: t.cur_macro_buf + ws, ..t },
            tail,
        ),
    decreases ws.len(),
{
    if ws.len() > 0 {
        let rest = ws.drop_first();
        assert(ws + tail =~= seq![ws[0]] + (rest + tail));
        lemma_run_append(t, ws[0], rest + tail);
        let t1 = AsmState { cur_macro_buf: t.cur_macro_buf.push(ws[0]), ..t };
        lemma_collect_macro_words(t1, rest, tail);
        assert(t1.cur_macro_buf + rest =~= t.cur_macro_buf + ws);
    }
}

/// Reading the definition `%name { body }`, where no word of the body is `}`
/// or starts with `(`, records a macro `name` with that body and no
/// arguments, replacing any earlier macro of that name.
pub proof fn lemma_define_macro(s: AsmState, name: Seq<char>, body: Seq<Seq<char>>)
    requires
        !s.in_comment,
        !s.in_macro,
        lacks(body, '}'),
        none_start_with(body, '('),
    ensures
        spec_run_words(s, seq![seq!['%'] + name, single('{')] + body + seq![single('}')])
            == Step::Next(
            AsmState {
                macros: insert_macro(s.macros, name, MacroView { args: Seq::empty(), code: body, times_used: 0 }),
                in_macro: false,
                cur_macro_name: name,
                cur_macro_buf: seq![single('{')] + body + seq![single('}')],
                ..s
            },
        ),
{
    let head = seq!['%'] + name;
    let ws = seq![head, single('{')] + body + seq![single('}')];
    let t0 = AsmState { cur_macro_name: name, in_macro: true, cur_macro_buf: Seq::empty(), ..s };
    assert(head.drop_first() =~= name);
    assert(ws =~= seq![head] + (seq![single('{')] + body + seq![single('}')]));
    lemma_run_append(s, head, seq![single('{')] + body + seq![single('}')]);
    let ws2 = seq![single('{')] + body;
    assert forall|i: int| 0 <= i < ws2.len() implies #[trigger] ws2[i] != single('}') && !starts_with(
        ws2[i],
        '(',
    ) by {
        if i > 0 {
            assert(ws2[i] == body[i - 1]);
        }
    }
    lemma_collect_macro_words(t0, ws2, seq![single('}')]);
    let t1 = AsmState { cur_macro_buf: t0.cur_macro_buf + ws2, ..t0 };
    lemma_run_append(t1, single('}'), Seq::empty());
    let buf = t1.cur_macro_buf.push(single('}'));
    assert(buf =~= seq![single('{')] + body + seq![single('}')]);
    lemma_macro_body_only(body);
}

/// Calling a defined macro (a word that is not two hex digits and starts
/// with no rune)
/// does what the words of its body do, one nesting level deeper.
pub proof fn lemma_macro_call_is_body(s: AsmState, w: Seq<char>, d: nat)
    requires
        w.len() > 0,
        w[0] != '#' && w[0] != ';' && w[0] != ':' && w[0] != '.' && w[0] != ',' && w[0] != '\''
            && w[0] != '"',
        !(spec_parse_hex(w) matches Ok(ByteOrShort::Byte(_))),
        find_macro(s.macros, w) is Some,
    ensures
        spec_word_to_bytes(s, w, d + 1) == spec_words_to_bytes(
            s,
            s.macros[find_macro(s.macros, w)->0].1.code,
            d,
        ),
{
}

/// The state that a step leaves, if it leaves one, has the macro table `ms`.
pub open spec fn leaves_macros(st: Step, ms: Seq<(Seq<char>, MacroView)>) -> bool {
    match st {
        Step::Next(t) => t.macros == ms,
        Step::Stop(t, _) => t.macros == ms,
        Step::Fault => true,
    }
}

proof fn lemma_emit_all_macros(s: AsmState, bs: Seq<u8>)
    ensures
        spec_emit_all(s, bs) matches Some(t) ==> t.macros == s.macros,
{
    if let Some(t) = spec_emit_all(s, bs) {
        lemma_emit_all_writes(s, bs, t);
    }
}

/// A word that produces bytes never changes the macro table.
pub proof fn lemma_word_keeps_macros(s: AsmState, w: Seq<char>, d: nat)
    ensures
        leaves_macros(spec_word_to_bytes(s, w, d), s.macros),
    decreases d, 0int,
{
    if w.len() > 0 {
        let rest = w.drop_first();
        if let Ok(ByteOrShort::Byte(b)) = spec_parse_hex(rest) {
            lemma_emit_all_macros(s, lit_byte(b));
        }
        if let Ok(ByteOrShort::Short(v)) = spec_parse_hex(rest) {
            lemma_emit_all_macros(s, lit_short(v));
        }
        lemma_emit_all_macros(s, vstd::utf8::encode_utf8(rest));
        if let Ok(ByteOrShort::Short(v)) = spec_parse_hex(w) {
            lemma_emit_all_macros(s, raw_short(v));
        }
        if let Some(i) = find_macro(s.macros, w) {
            if d > 0 {
                lemma_words_keep_macros(s, s.macros[i].1.code, (d - 1) as nat);
            }
        }
    }
}

/// The words of a macro body never change the macro table.
pub proof fn lemma_words_keep_macros(s: AsmState, ws: Seq<Seq<char>>, d: nat)
    ensures
        leaves_macros(spec_words_to_bytes(s, ws, d), s.macros),
    decreases d, ws.len(),
{
    if ws.len() > 0 {
        lemma_word_keeps_macros(s, ws[0], d);
        if let Step::Next(s1) = spec_word_to_bytes(s, ws[0], d) {
            lemma_words_keep_macros(s1, ws.drop_first(), d);
        }
    }
}

/// A word that does not fault with `d` nested macro calls allowed does the
/// same with any larger allowance.
pub proof fn lemma_word_budget(s: AsmState, w: Seq<char>, d: nat, d2: nat)
    requires
        d <= d2,
        !(spec_word_to_bytes(s, w, d) is Fault),
    ensures
        spec_word_to_bytes(s, w, d2) == spec_word_to_bytes(s, w, d),
    decreases d, 0int,
{
    if w.len() > 0 {
        if let Some(i) = find_macro(s.macros, w) {
            if d > 0 {
                let body = s.macros[i].1.code;
                if !(spec_words_to_bytes(s, body, (d - 1) as nat) is Fault) {
                    lemma_words_budget(s, body, (d - 1) as nat, (d2 - 1) as nat);
                }
            }
        }
    }
}

/// Words that do not fault with `d` nested macro calls allowed do the same
/// with any larger allowance.
pub proof fn lemma_words_budget(s: AsmState, ws: Seq<Seq<char>>, d: nat, d2: nat)
    requires
        d <= d2,
        !(spec_words_to_bytes(s, ws, d) is Fault),
    ensures
        spec_words_to_bytes(s, ws, d2) == spec_words_to_bytes(s, ws, d),
    decreases d, ws.len(),
{
    if ws.len() > 0 {
        lemma_word_budget(s, ws[0], d, d2);
        if let Step::Next(s1) = spec_word_to_bytes(s, ws[0], d) {
            lemma_words_budget(s1, ws.drop_first(), d, d2);
        }
    }
}

/// Words handed one by one to `do_word_to_bytes`, stopping at the first
/// error or fault.
pub open spec fn spec_each_word_to_bytes(s: AsmState, ws: Seq<Seq<char>>) -> Step
    decreases ws.len(),
{
    if ws.len() == 0 {
        Step::Next(s)
    } else {
        match spec_do_word_to_bytes(s, ws[0]) {
            Step::Next(s1) => spec_each_word_to_bytes(s1, ws.drop_first()),
            other => other,
        }
    }
}

proof fn lemma_each_is_words(s: AsmState, ws: Seq<Seq<char>>)
    ensures
        spec_each_word_to_bytes(s, ws) == spec_words_to_bytes(s, ws, s.macros.len()),
    decreases ws.len(),
{
    if ws.len() > 0 {
        lemma_word_keeps_macros(s, ws[0], s.macros.len());
        if let Step::Next(s1) = spec_word_to_bytes(s, ws[0], s.macros.len()) {
            lemma_each_is_words(s1, ws.drop_first());
        }
    }
}

/// Calling a defined macro (a word that is not two hex digits and starts
/// with no rune) does what handing the words of its body one by one to
/// `do_word_to_bytes` does, stopping at the first error or fault.
pub proof fn lemma_macro_call_is_each_word(s: AsmState, w: Seq<char>)
    requires
        w.len() > 0,
        w[0] != '#' && w[0] != ';' && w[0] != ':' && w[0] != '.' && w[0] != ',' && w[0] != '\''
            && w[0] != '"',
        !(spec_parse_hex(w) matches Ok(ByteOrShort::Byte(_))),
        find_macro(s.macros, w) is Some,
    ensures
        spec_do_word_to_bytes(s, w) == spec_each_word_to_bytes(
            s,
            s.macros[find_macro(s.macros, w)->0].1.code,
        ),
{
    lemma_find_macro_from(s.macros, w, 0);
    let i = find_macro(s.macros, w)->0;
    lemma_body_allowance(s, i);
    lemma_each_is_words(s, s.macros[i].1.code);
}

/// Outside comments and macro definitions, a word that starts with none of
/// `(`, `%`, `@`, `&`, `|` and `$` does in `do_word` exactly what it does in
/// `do_word_to_bytes`, faults included.
pub proof fn lemma_do_word_is_word_to_bytes(s: AsmState, w: Seq<char>)
    requires
        !s.in_comment,
        !s.in_macro,
        w.len() > 0,
        w[0] != '(' && w[0] != '%' && w[0] != '@' && w[0] != '&' && w[0] != '|' && w[0] != '$',
    ensures
        spec_do_word(s, w) == spec_do_word_to_bytes(s, w),
{
}

} // verus!
