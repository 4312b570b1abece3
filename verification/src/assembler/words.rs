//! What single words do to the address and the image: references reserve
//! their bytes, character literals write one byte, and padding words set or
//! advance the address.

use vstd::prelude::*;

use crate::utils::byte_hex;
use crate::utils::byte_hex_upper;
use crate::utils::lemma_parse_hex_byte_roundtrip;
use crate::utils::lemma_parse_hex_byte_upper_roundtrip;
use crate::utils::lemma_parse_hex_short_roundtrip;
use crate::utils::short_hex;
use super::AsmState;
use super::LabelCall;
use super::LabelKind;
use super::Step;
use super::find_label;
use super::ref_name;
use super::spec_do_word;
use super::spec_word_to_bytes;
use super::names::lemma_find_label_from;
use super::reading::lemma_emit_all_writes;
use super::spec_emit_all;
use super::find_macro;
use super::words_from;
use super::words_of;
use crate::utils::lemma_parse_hex_short_upper_roundtrip;

verus! {

/// State `t` holds a label named `name` whose latest reference is `call`.
pub open spec fn records_call(t: AsmState, name: Seq<char>, call: LabelCall) -> bool {
    exists|i: int|
        #![trigger t.labels[i]]
        0 <= i < t.labels.len() && t.labels[i].name == name && t.labels[i].calls.len() > 0
            && t.labels[i].calls.last() == call
}

/// Every byte of `s` but the one at `q0` is the same in `t`.
pub open spec fn bytes_kept_but(s: AsmState, t: AsmState, q0: int) -> bool {
    forall|q: int| 0 <= q < s.bytes.len() && q != q0 ==> #[trigger] t.bytes[q] == s.bytes[q]
}

proof fn lemma_label_call_recorded(s: AsmState, t: AsmState, name: Seq<char>, call: LabelCall)
    requires
        t.labels == (match find_label(s.labels, name) {
            Some(i) => s.labels.update(
                i,
                super::LabelView { calls: s.labels[i].calls.push(call), ..s.labels[i] },
            ),
            None => s.labels.push(super::LabelView { name, defined: false, addr: 0, calls: seq![call] }),
        }),
    ensures
        records_call(t, name, call),
{
    lemma_find_label_from(s.labels, name, 0);
    match find_label(s.labels, name) {
        Some(i) => {
            assert(t.labels[i].calls.last() == call);
        },
        None => {
            let i = s.labels.len() as int;
            assert(t.labels[i].calls.last() == call);
        },
    }
}

/// A raw absolute reference `:name` writes nothing yet, reserves the two
/// bytes of the address at the current address, and moves past both; the
/// label records a reference there.
pub proof fn lemma_raw_absolute_reference(s: AsmState, w: Seq<char>, d: nat)
    requires
        w.len() >= 1,
        w[0] == ':',
        0 <= s.counter,
        s.counter + 2 <= usize::MAX,
    ensures
        spec_word_to_bytes(s, w, d) matches Step::Next(t) && t.counter == s.counter + 2 && t.bytes
            == s.bytes && records_call(
            t,
            ref_name(s.last_main_lbl, w.drop_first()),
            LabelCall { pos: s.counter as usize, kind: LabelKind::Abs },
        ),
{
    let t = spec_word_to_bytes(s, w, d)->Next_0;
    lemma_label_call_recorded(
        s,
        t,
        ref_name(s.last_main_lbl, w.drop_first()),
        LabelCall { pos: s.counter as usize, kind: LabelKind::Abs },
    );
}

/// A literal reference (`;name` a short, `.name` a zero-page byte, `,name`
/// a relative byte) writes the literal opcode (0xa0 for a short, 0x80 for a
/// byte) at the current address, reserves the address bytes after it, and
/// moves past all of them; the label records a reference just after the
/// opcode.
pub proof fn lemma_literal_reference(s: AsmState, w: Seq<char>, d: nat)
    requires
        w.len() >= 1,
        w[0] == ';' || w[0] == '.' || w[0] == ',',
        0 <= s.counter,
        s.counter + (if w[0] == ';' { 3int } else { 2int }) <= usize::MAX,
    ensures
        spec_word_to_bytes(s, w, d) matches Step::Next(t) && t.counter == s.counter + (if w[0] == ';' {
            3int
        } else {
            2int
        }) && t.bytes.len() > s.counter && t.bytes[s.counter] == (if w[0] == ';' {
            0xa0u8
        } else {
            0x80u8
        }) && bytes_kept_but(s, t, s.counter) && records_call(
            t,
            ref_name(s.last_main_lbl, w.drop_first()),
            LabelCall {
                pos: (s.counter + 1) as usize,
                kind: if w[0] == ';' {
                    LabelKind::Abs
                } else if w[0] == '.' {
                    LabelKind::Zpg
                } else {
                    LabelKind::Rel
                },
            },
        ),
{
    let t = spec_word_to_bytes(s, w, d)->Next_0;
    let b: u8 = if w[0] == ';' { 0xa0u8 } else { 0x80u8 };
    let s1 = AsmState {
        bytes: crate::utils::spec_set_byte(s.bytes, s.counter, b),
        counter: s.counter + 1,
        ..s
    };
    let kind = if w[0] == ';' {
        LabelKind::Abs
    } else if w[0] == '.' {
        LabelKind::Zpg
    } else {
        LabelKind::Rel
    };
    lemma_label_call_recorded(
        s1,
        t,
        ref_name(s.last_main_lbl, w.drop_first()),
        LabelCall { pos: (s.counter + 1) as usize, kind },
    );
}

/// A character literal `'c`, for an ASCII `c`, writes the code of `c` at the
/// current address, moves one byte on, and leaves every other byte and the
/// labels as they were.
pub proof fn lemma_char_literal(s: AsmState, w: Seq<char>, d: nat)
    requires
        w.len() >= 2,
        w[0] == '\'',
        (w[1] as u32) < 0x80,
        0 <= s.counter < usize::MAX,
    ensures
        spec_word_to_bytes(s, w, d) matches Step::Next(t) && t.counter == s.counter + 1
            && t.bytes.len() > s.counter && t.bytes[s.counter] == w[1] as u8 && bytes_kept_but(
            s,
            t,
            s.counter,
        ) && t.labels == s.labels,
{
}

/// Outside comments and macro definitions, `|` with two hex digits sets the
/// address to the byte that they spell, whatever it was before, and changes
/// nothing else.
pub proof fn lemma_absolute_pad_byte(s: AsmState, b: u8)
    requires
        !s.in_comment,
        !s.in_macro,
    ensures
        spec_do_word(s, seq!['|'] + byte_hex(b)) == Step::Next(AsmState { counter: b as int, ..s }),
        spec_do_word(s, seq!['|'] + byte_hex_upper(b)) == Step::Next(AsmState { counter: b as int, ..s }),
{
    lemma_parse_hex_byte_roundtrip(b);
    lemma_parse_hex_byte_upper_roundtrip(b);
    assert((seq!['|'] + byte_hex(b)).drop_first() =~= byte_hex(b));
    assert((seq!['|'] + byte_hex_upper(b)).drop_first() =~= byte_hex_upper(b));
}

/// Outside comments and macro definitions, `|` with four hex digits sets the
/// address to the short that they spell, and changes nothing else.
pub proof fn lemma_absolute_pad_short(s: AsmState, v: u16)
    requires
        !s.in_comment,
        !s.in_macro,
    ensures
        spec_do_word(s, seq!['|'] + short_hex(v)) == Step::Next(AsmState { counter: v as int, ..s }),
{
    lemma_parse_hex_short_roundtrip(v);
    assert((seq!['|'] + short_hex(v)).drop_first() =~= short_hex(v));
}

/// Outside comments and macro definitions, `$` with two hex digits moves the
/// address on by the byte that they spell, and changes nothing else.
pub proof fn lemma_relative_pad_byte(s: AsmState, b: u8)
    requires
        !s.in_comment,
        !s.in_macro,
        s.counter + b <= usize::MAX,
    ensures
        spec_do_word(s, seq!['$'] + byte_hex(b)) == Step::Next(AsmState { counter: s.counter + b, ..s }),
{
    lemma_parse_hex_byte_roundtrip(b);
    assert((seq!['$'] + byte_hex(b)).drop_first() =~= byte_hex(b));
}

/// Every byte of `s` outside the `n` bytes from `q0` on is the same in `t`.
pub open spec fn bytes_kept_outside(s: AsmState, t: AsmState, q0: int, n: int) -> bool {
    forall|q: int| 0 <= q < s.bytes.len() && !(q0 <= q < q0 + n) ==> #[trigger] t.bytes[q] == s.bytes[q]
}

/// State `t` holds a defined label named `name` at address `addr`.
pub open spec fn defines(t: AsmState, name: Seq<char>, addr: int) -> bool {
    exists|i: int|
        #![trigger t.labels[i]]
        0 <= i < t.labels.len() && t.labels[i].name == name && t.labels[i].defined && t.labels[i].addr
            == addr
}

proof fn lemma_bytes_written(s: AsmState, bs: Seq<u8>)
    requires
        spec_emit_all(s, bs) is Some,
    ensures
        ({
            let t = spec_emit_all(s, bs)->0;
            &&& t.counter == s.counter + bs.len()
            &&& t.labels == s.labels
            &&& bs.len() > 0 ==> t.bytes.len() >= s.counter + bs.len()
            &&& forall|k: int| 0 <= k < bs.len() ==> t.bytes[s.counter + k] == #[trigger] bs[k]
            &&& bytes_kept_outside(s, t, s.counter, bs.len() as int)
        }),
{
    lemma_emit_all_writes(s, bs, spec_emit_all(s, bs)->0);
}

proof fn lemma_emit_all_fits(s: AsmState, bs: Seq<u8>)
    requires
        0 <= s.counter,
        s.counter + bs.len() <= usize::MAX,
    ensures
        spec_emit_all(s, bs) is Some,
    decreases bs.len(),
{
    if bs.len() > 0 {
        let s1 = AsmState {
            bytes: crate::utils::spec_set_byte(s.bytes, s.counter, bs[0]),
            counter: s.counter + 1,
            ..s
        };
        lemma_emit_all_fits(s1, bs.drop_first());
    }
}

/// `#` with two hex digits writes the byte literal opcode 0x80 and then the
/// byte, at the current address, and moves two bytes on.
pub proof fn lemma_byte_literal(s: AsmState, b: u8, d: nat)
    requires
        0 <= s.counter,
        s.counter + 2 <= usize::MAX,
    ensures
        spec_word_to_bytes(s, seq!['#'] + byte_hex(b), d) matches Step::Next(t) && t.counter == s.counter
            + 2 && t.bytes.len() >= s.counter + 2 && t.bytes[s.counter] == 0x80u8 && t.bytes[s.counter
            + 1] == b && bytes_kept_outside(s, t, s.counter, 2) && t.labels == s.labels,
{
    lemma_parse_hex_byte_roundtrip(b);
    let w = seq!['#'] + byte_hex(b);
    assert(w.drop_first() =~= byte_hex(b));
    let bs = super::lit_byte(b);
    lemma_emit_all_fits(s, bs);
    lemma_bytes_written(s, bs);
    assert(bs[0] == 0x80u8 && bs[1] == b);
}

/// `#` with four hex digits writes the short literal opcode 0xa0 and then
/// the short, high byte first, and moves three bytes on.
pub proof fn lemma_short_literal(s: AsmState, v: u16, d: nat)
    requires
        0 <= s.counter,
        s.counter + 3 <= usize::MAX,
    ensures
        spec_word_to_bytes(s, seq!['#'] + short_hex(v), d) matches Step::Next(t) && t.counter
            == s.counter + 3 && t.bytes.len() >= s.counter + 3 && t.bytes[s.counter] == 0xa0u8
            && t.bytes[s.counter + 1] * 256 + t.bytes[s.counter + 2] == v && bytes_kept_outside(
            s,
            t,
            s.counter,
            3,
        ) && t.labels == s.labels,
{
    lemma_parse_hex_short_roundtrip(v);
    let w = seq!['#'] + short_hex(v);
    assert(w.drop_first() =~= short_hex(v));
    let bs = super::lit_short(v);
    lemma_emit_all_fits(s, bs);
    lemma_bytes_written(s, bs);
    assert(bs[0] == 0xa0u8 && bs[1] == super::addr_hi(v as int) && bs[2] == super::addr_lo(v as int));
    assert(bs[1] * 256 + bs[2] == v);
}

/// Two hex digits with no rune write that byte at the current address and
/// move one byte on.
pub proof fn lemma_raw_byte(s: AsmState, b: u8, d: nat)
    requires
        0 <= s.counter < usize::MAX,
    ensures
        spec_word_to_bytes(s, byte_hex(b), d) matches Step::Next(t) && t.counter == s.counter + 1
            && t.bytes.len() > s.counter && t.bytes[s.counter] == b && bytes_kept_but(s, t, s.counter)
            && t.labels == s.labels,
        spec_word_to_bytes(s, byte_hex_upper(b), d) == spec_word_to_bytes(s, byte_hex(b), d),
{
    lemma_parse_hex_byte_roundtrip(b);
    lemma_parse_hex_byte_upper_roundtrip(b);
    crate::utils::lemma_hex_digit_chars(b);
}

/// Four hex digits with no rune that name no macro write the short, high
/// byte first, and move two bytes on.
pub proof fn lemma_raw_short(s: AsmState, v: u16, d: nat)
    requires
        0 <= s.counter,
        s.counter + 2 <= usize::MAX,
        find_macro(s.macros, short_hex(v)) is None,
    ensures
        spec_word_to_bytes(s, short_hex(v), d) matches Step::Next(t) && t.counter == s.counter + 2
            && t.bytes.len() >= s.counter + 2 && t.bytes[s.counter] * 256 + t.bytes[s.counter + 1] == v
            && bytes_kept_outside(s, t, s.counter, 2) && t.labels == s.labels,
{
    lemma_parse_hex_short_roundtrip(v);
    crate::utils::lemma_short_hex_chars(v);
    let w = short_hex(v);
    assert(super::instr::three_byte_prefix(w) == Some(3nat));
    assert(w.subrange(0, 3) =~= seq![w[0], w[1], w[2]]);
    assert(super::instr::mnemonic_index(w[0], w[1], w[2]) is None);
    let bs = super::raw_short(v);
    lemma_emit_all_fits(s, bs);
    lemma_bytes_written(s, bs);
    assert(bs[0] * 256 + bs[1] == v);
}

/// Outside comments and macro definitions, `@name` defines the label `name`
/// at the current address, makes it the parent of later `&` labels, and
/// writes nothing.
pub proof fn lemma_label_definition(s: AsmState, name: Seq<char>)
    requires
        !s.in_comment,
        !s.in_macro,
    ensures
        spec_do_word(s, seq!['@'] + name) matches Step::Next(t) && t.last_main_lbl == name && defines(
            t,
            name,
            s.counter,
        ) && t.counter == s.counter && t.bytes == s.bytes,
{
    let w = seq!['@'] + name;
    assert(w.drop_first() =~= name);
    let s0 = AsmState { last_main_lbl: name, ..s };
    let t = spec_do_word(s, w)->Next_0;
    lemma_find_label_from(s0.labels, name, 0);
    match find_label(s0.labels, name) {
        Some(i) => {
            assert(t.labels[i].defined);
        },
        None => {
            assert(t.labels[s.labels.len() as int].defined);
        },
    }
}

/// Outside comments and macro definitions, `&sub` defines the label
/// `parent/sub`, where `parent` is the last `@` label, at the current
/// address, and writes nothing.
pub proof fn lemma_child_label_definition(s: AsmState, sub: Seq<char>)
    requires
        !s.in_comment,
        !s.in_macro,
    ensures
        spec_do_word(s, seq!['&'] + sub) matches Step::Next(t) && t.last_main_lbl == s.last_main_lbl
            && defines(t, s.last_main_lbl + seq!['/'] + sub, s.counter) && t.counter == s.counter
            && t.bytes == s.bytes,
{
    let w = seq!['&'] + sub;
    assert(w.drop_first() =~= sub);
    let name = s.last_main_lbl + seq!['/'] + sub;
    let t = spec_do_word(s, w)->Next_0;
    lemma_find_label_from(s.labels, name, 0);
    match find_label(s.labels, name) {
        Some(i) => {
            assert(t.labels[i].defined);
        },
        None => {
            assert(t.labels[s.labels.len() as int].defined);
        },
    }
}

/// The characters that separate words: space, tab, line feed, form feed and
/// carriage return.
pub open spec fn is_blank(c: char) -> bool {
    c == ' ' || c == '\t' || c == '\n' || c == '\x0C' || c == '\r'
}

pub open spec fn has_no_blank(w: Seq<char>) -> bool {
    forall|j: int| 0 <= j < w.len() ==> !is_blank(#[trigger] w[j])
}

proof fn lemma_words_from_unbroken(s: Seq<char>, cur: Seq<char>)
    requires
        has_no_blank(s),
    ensures
        words_from(s, cur) == (if cur.len() + s.len() > 0 {
            seq![cur + s]
        } else {
            Seq::<Seq<char>>::empty()
        }),
    decreases s.len(),
{
    if s.len() > 0 {
        assert(!is_blank(s[0]));
        lemma_words_from_unbroken(s.drop_first(), cur.push(s[0]));
        assert(cur.push(s[0]) + s.drop_first() =~= cur + s);
    } else {
        assert(cur + s =~= cur);
    }
}

/// A non-empty text with no blank in it is one word.
pub proof fn lemma_unbroken_text_is_one_word(s: Seq<char>)
    requires
        s.len() > 0,
        has_no_blank(s),
    ensures
        words_of(s) == seq![s],
{
    lemma_words_from_unbroken(s, Seq::empty());
    assert(Seq::<char>::empty() + s =~= s);
}

proof fn lemma_words_from_clean(s: Seq<char>, cur: Seq<char>)
    requires
        has_no_blank(cur),
    ensures
        forall|k: int|
            0 <= k < words_from(s, cur).len() ==> (#[trigger] words_from(s, cur)[k]).len() > 0
                && has_no_blank(words_from(s, cur)[k]),
    decreases s.len(),
{
    if s.len() == 0 {
        if cur.len() > 0 {
            assert(words_from(s, cur)[0] == cur);
        }
    } else {
        if is_blank(s[0]) {
            let r = words_from(s.drop_first(), Seq::empty());
            lemma_words_from_clean(s.drop_first(), Seq::empty());
            if cur.len() > 0 {
                let all = words_from(s, cur);
                assert(all == seq![cur] + r);
                assert forall|k: int| 0 <= k < all.len() implies (#[trigger] all[k]).len() > 0
                    && has_no_blank(all[k]) by {
                    if k > 0 {
                        assert(all[k] == r[k - 1]);
                    }
                }
            } else {
                assert(words_from(s, cur) == r);
            }
        } else {
            assert(has_no_blank(cur.push(s[0]))) by {
                assert forall|j: int| 0 <= j < cur.push(s[0]).len() implies !is_blank(
                    #[trigger] cur.push(s[0])[j],
                ) by {
                    if j < cur.len() {
                        assert(cur.push(s[0])[j] == cur[j]);
                    }
                }
            }
            lemma_words_from_clean(s.drop_first(), cur.push(s[0]));
            assert(words_from(s, cur) == words_from(s.drop_first(), cur.push(s[0])));
        }
    }
}

/// Every word of a text is non-empty and holds no blank.
pub proof fn lemma_words_have_no_blank(s: Seq<char>)
    ensures
        forall|k: int|
            0 <= k < words_of(s).len() ==> (#[trigger] words_of(s)[k]).len() > 0 && has_no_blank(
                words_of(s)[k],
            ),
{
    lemma_words_from_clean(s, Seq::empty());
}

proof fn lemma_words_from_split(a: Seq<char>, b: Seq<char>, cur: Seq<char>, c: char)
    requires
        is_blank(c),
    ensures
        words_from(a + seq![c] + b, cur) == words_from(a, cur) + words_of(b),
    decreases a.len(),
{
    if a.len() == 0 {
        assert(a + seq![c] + b =~= seq![c] + b);
        assert((seq![c] + b).drop_first() =~= b);
        if cur.len() == 0 {
            assert(words_from(a, cur) =~= Seq::<Seq<char>>::empty());
            assert(Seq::<Seq<char>>::empty() + words_of(b) =~= words_of(b));
        }
    } else {
        assert((a + seq![c] + b).drop_first() =~= a.drop_first() + seq![c] + b);
        assert((a + seq![c] + b)[0] == a[0]);
        if is_blank(a[0]) {
            lemma_words_from_split(a.drop_first(), b, Seq::empty(), c);
            if cur.len() > 0 {
                assert(seq![cur] + words_from(a.drop_first(), Seq::empty()) + words_of(b) =~= seq![cur]
                    + (words_from(a.drop_first(), Seq::empty()) + words_of(b)));
            }
        } else {
            lemma_words_from_split(a.drop_first(), b, cur.push(a[0]), c);
        }
    }
}

/// A blank between two texts splits their words: the words of the whole are
/// the words of the first followed by the words of the second.
pub proof fn lemma_blank_splits_words(a: Seq<char>, b: Seq<char>, c: char)
    requires
        is_blank(c),
    ensures
        words_of(a + seq![c] + b) == words_of(a) + words_of(b),
{
    lemma_words_from_split(a, b, Seq::empty(), c);
}

/// A string word `"text`, for an ASCII text, writes the code of each
/// character at successive addresses from the current one, and moves past
/// them.
pub proof fn lemma_string_literal(s: AsmState, text: Seq<char>, d: nat)
    requires
        forall|i: int| 0 <= i < text.len() ==> '\0' <= #[trigger] text[i] <= '\u{7f}',
        0 <= s.counter,
        s.counter + text.len() <= usize::MAX,
    ensures
        spec_word_to_bytes(s, seq!['"'] + text, d) matches Step::Next(t) && t.counter == s.counter
            + text.len() && (forall|k: int|
            0 <= k < text.len() ==> t.bytes[s.counter + k] == #[trigger] text[k] as u8)
            && bytes_kept_outside(s, t, s.counter, text.len() as int) && t.labels == s.labels,
{
    let w = seq!['"'] + text;
    assert(w.drop_first() =~= text);
    assert(vstd::utf8::is_ascii_chars(text));
    vstd::utf8::is_ascii_chars_encode_utf8(text);
    let bs = vstd::utf8::encode_utf8(text);
    lemma_emit_all_fits(s, bs);
    lemma_bytes_written(s, bs);
    let t = spec_emit_all(s, bs)->0;
    assert forall|k: int| 0 <= k < text.len() implies t.bytes[s.counter + k] == #[trigger] text[k] as u8 by {
        assert(t.bytes[s.counter + k] == bs[k]);
    }
}

} // verus!
