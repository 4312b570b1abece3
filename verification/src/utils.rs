//! Helpers shared by the assembler: hex literals, macro names and a
//! growable byte buffer.

use vstd::prelude::*;
use vstd::utf8::encode_utf8;
use vstd::utf8::encode_scalar;

verus! {

/// A parsed hex literal: two hex digits give a byte, four give a short.
#[derive(Debug, Clone, Copy, PartialEq, Eq)]
pub enum ByteOrShort {
    Byte(u8),
    Short(u16),
}

/// Why a hex literal was refused.
#[derive(Debug)]
pub enum UxnHexErr {
    EmptyHex,
    InvalidHex(String),
    BigHex(String),
}

/// `UxnHexErr` with its text taken as a character sequence.
pub enum HexErrView {
    EmptyHex,
    InvalidHex(Seq<char>),
    BigHex(Seq<char>),
}

impl View for UxnHexErr {
    type V = HexErrView;

    open spec fn view(&self) -> HexErrView {
        match self {
            UxnHexErr::EmptyHex => HexErrView::EmptyHex,
            UxnHexErr::InvalidHex(s) => HexErrView::InvalidHex(s@),
            UxnHexErr::BigHex(s) => HexErrView::BigHex(s@),
        }
    }
}

/// The number of bytes of the UTF-8 encoding of `s`.
pub open spec fn byte_len(s: Seq<char>) -> nat {
    encode_utf8(s).len()
}

pub open spec fn is_hex_digit(c: char) -> bool {
    ||| '0' <= c <= '9'
    ||| 'a' <= c <= 'f'
    ||| 'A' <= c <= 'F'
}

pub open spec fn hex_digit_value(c: char) -> nat {
    if '0' <= c <= '9' {
        (c as nat - '0' as nat) as nat
    } else if 'a' <= c <= 'f' {
        (c as nat - 'a' as nat + 10) as nat
    } else {
        (c as nat - 'A' as nat + 10) as nat
    }
}

pub open spec fn all_hex_digits(s: Seq<char>) -> bool {
    forall|i: int| 0 <= i < s.len() ==> #[trigger] is_hex_digit(s[i])
}

/// The value of a string of hex digits, most significant digit first.
pub open spec fn hex_digits_value(s: Seq<char>) -> nat
    decreases s.len(),
{
    if s.len() == 0 {
        0
    } else {
        hex_digits_value(s.drop_last()) * 16 + hex_digit_value(s.last())
    }
}

/// The value of `s` read in base 16, when `s` is a non-empty string of hex
/// digits and nothing else.
pub open spec fn radix16_value(s: Seq<char>) -> Option<nat> {
    if s.len() > 0 && all_hex_digits(s) {
        Some(hex_digits_value(s))
    } else {
        None
    }
}

/// A hex literal is read by its length in bytes: two bytes give a byte, four
/// a short, when every character is an ASCII hex digit; an empty literal and
/// one of any other length are refused, and one of the right length with any
/// other character is invalid.
pub open spec fn spec_parse_hex(s: Seq<char>) -> Result<ByteOrShort, HexErrView> {
    let n = byte_len(s);
    if n == 0 {
        Err(HexErrView::EmptyHex)
    } else if n == 2 {
        match radix16_value(s) {
            Some(v) => Ok(ByteOrShort::Byte(v as u8)),
            None => Err(HexErrView::InvalidHex(s)),
        }
    } else if n == 4 {
        match radix16_value(s) {
            Some(v) => Ok(ByteOrShort::Short(v as u16)),
            None => Err(HexErrView::InvalidHex(s)),
        }
    } else {
        Err(HexErrView::BigHex(s))
    }
}

pub open spec fn parse_hex_view(r: Result<ByteOrShort, UxnHexErr>) -> Result<ByteOrShort, HexErrView> {
    match r {
        Ok(v) => Ok(v),
        Err(e) => Err(e@),
    }
}

/// Each character takes at least one byte in UTF-8.
proof fn lemma_byte_len_at_least_chars(s: Seq<char>)
    ensures
        s.len() <= byte_len(s),
        byte_len(s) == 0 <==> s.len() == 0,
    decreases s.len(),
{
    if s.len() > 0 {
        lemma_byte_len_at_least_chars(s.drop_first());
    }
}

fn hex_digit(c: char) -> (r: Option<u32>)
    ensures
        r is Some <==> is_hex_digit(c),
        r matches Some(v) ==> v == hex_digit_value(c) && v < 16,
{
    if '0' <= c && c <= '9' {
        Some(c as u32 - '0' as u32)
    } else if 'a' <= c && c <= 'f' {
        Some(c as u32 - 'a' as u32 + 10)
    } else if 'A' <= c && c <= 'F' {
        Some(c as u32 - 'A' as u32 + 10)
    } else {
        None
    }
}

spec fn pow16(n: nat) -> nat
    decreases n,
{
    if n == 0 {
        1
    } else {
        16 * pow16((n - 1) as nat)
    }
}

/// Reads `s` as an unsigned base-16 number; `s` holds at most four characters.
fn radix16(s: &str) -> (r: Option<u32>)
    requires
        s@.len() <= 4,
    ensures
        r is Some <==> radix16_value(s@) is Some,
        r matches Some(v) ==> v == radix16_value(s@)->0 && v < pow16(s@.len()) && byte_len(s@)
            == s@.len(),
{
    let n = s.unicode_len();
    if n == 0 {
        return None;
    }
    let mut i: usize = 0;
    let mut v: u32 = 0;
    while i < n
        invariant
            n == s@.len(),
            n <= 4,
            i <= n,
            all_hex_digits(s@.subrange(0, i as int)),
            v == hex_digits_value(s@.subrange(0, i as int)),
            v < pow16(i as nat),
        decreases n - i,
    {
        let c = s.get_char(i);
        match hex_digit(c) {
            Some(d) => {
                assert(pow16(0) == 1);
                assert(pow16(1) == 16);
                assert(pow16(2) == 256);
                assert(pow16(3) == 4096);
                assert(s@.subrange(0, i + 1).drop_last() =~= s@.subrange(0, i as int));
                v = v * 16 + d;
                i = i + 1;
            }
            None => {
                return None;
            }
        }
    }
    assert(s@.subrange(0, n as int) =~= s@);
    proof {
        assert forall|j: int| 0 <= j < s@.len() implies '\0' <= #[trigger] s@[j] <= '\u{7f}' by {
            assert(is_hex_digit(s@[j]));
        }
        vstd::utf8::is_ascii_chars_encode_utf8(s@);
    }
    Some(v)
}

/// The lowercase hex digit for `d`, which is below 16.
pub open spec fn hex_digit_char(d: nat) -> char {
    if d == 0 {
        '0'
    } else if d == 1 {
        '1'
    } else if d == 2 {
        '2'
    } else if d == 3 {
        '3'
    } else if d == 4 {
        '4'
    } else if d == 5 {
        '5'
    } else if d == 6 {
        '6'
    } else if d == 7 {
        '7'
    } else if d == 8 {
        '8'
    } else if d == 9 {
        '9'
    } else if d == 10 {
        'a'
    } else if d == 11 {
        'b'
    } else if d == 12 {
        'c'
    } else if d == 13 {
        'd'
    } else if d == 14 {
        'e'
    } else {
        'f'
    }
}

/// The two-digit hex text of a byte.
pub open spec fn byte_hex(b: u8) -> Seq<char> {
    seq![hex_digit_char((b / 16) as nat), hex_digit_char((b % 16) as nat)]
}

/// The four-digit hex text of a short.
pub open spec fn short_hex(v: u16) -> Seq<char> {
    seq![
        hex_digit_char((v / 4096) as nat),
        hex_digit_char(((v / 256) % 16) as nat),
        hex_digit_char(((v / 16) % 16) as nat),
        hex_digit_char((v % 16) as nat),
    ]
}

proof fn lemma_hex_digit_char(d: nat)
    requires
        d < 16,
    ensures
        is_hex_digit(hex_digit_char(d)),
        hex_digit_value(hex_digit_char(d)) == d,
        hex_digit_char(d) != '+',
        '\0' <= hex_digit_char(d) <= '\u{7f}',
{
}

/// The uppercase hex digit for `d`, which is below 16.
pub open spec fn hex_digit_char_upper(d: nat) -> char {
    if d < 10 {
        hex_digit_char(d)
    } else if d == 10 {
        'A'
    } else if d == 11 {
        'B'
    } else if d == 12 {
        'C'
    } else if d == 13 {
        'D'
    } else if d == 14 {
        'E'
    } else {
        'F'
    }
}

/// The two-digit uppercase hex text of a byte.
pub open spec fn byte_hex_upper(b: u8) -> Seq<char> {
    seq![hex_digit_char_upper((b / 16) as nat), hex_digit_char_upper((b % 16) as nat)]
}

/// The four-digit uppercase hex text of a short.
pub open spec fn short_hex_upper(v: u16) -> Seq<char> {
    seq![
        hex_digit_char_upper((v / 4096) as nat),
        hex_digit_char_upper(((v / 256) % 16) as nat),
        hex_digit_char_upper(((v / 16) % 16) as nat),
        hex_digit_char_upper((v % 16) as nat),
    ]
}

proof fn lemma_hex_digit_char_upper(d: nat)
    requires
        d < 16,
    ensures
        is_hex_digit(hex_digit_char_upper(d)),
        hex_digit_value(hex_digit_char_upper(d)) == d,
        '\0' <= hex_digit_char_upper(d) <= '\u{7f}',
{
}

/// `c` is a hex digit, of either case, for the value `d`.
pub open spec fn spells_digit(c: char, d: nat) -> bool {
    c == hex_digit_char(d) || c == hex_digit_char_upper(d)
}

proof fn lemma_hex_text_value(s: Seq<char>, ds: Seq<nat>)
    requires
        s.len() == ds.len(),
        forall|i: int| 0 <= i < s.len() ==> ds[i] < 16 && #[trigger] spells_digit(s[i], ds[i]),
    ensures
        all_hex_digits(s),
        vstd::utf8::is_ascii_chars(s),
        byte_len(s) == s.len(),
        s.len() > 0 ==> s[0] != '+',
{
    assert forall|i: int| 0 <= i < s.len() implies is_hex_digit(#[trigger] s[i]) && '\0' <= s[i] <= '\u{7f}' by {
        assert(spells_digit(s[i], ds[i]));
        lemma_hex_digit_char(ds[i]);
        lemma_hex_digit_char_upper(ds[i]);
    }
    vstd::utf8::is_ascii_chars_encode_utf8(s);
    if s.len() > 0 {
        assert(spells_digit(s[0], ds[0]));
        lemma_hex_digit_char(ds[0]);
        lemma_hex_digit_char_upper(ds[0]);
    }
}

/// Two hex digits read back as the byte that they spell.
pub proof fn lemma_parse_hex_byte_roundtrip(b: u8)
    ensures
        spec_parse_hex(byte_hex(b)) == Ok::<ByteOrShort, HexErrView>(ByteOrShort::Byte(b)),
{
    let s = byte_hex(b);
    let hi = (b / 16) as nat;
    let lo = (b % 16) as nat;
    lemma_hex_text_value(s, seq![hi, lo]);
    lemma_hex_digit_char(hi);
    lemma_hex_digit_char(lo);
    let s1 = s.drop_last();
    assert(hex_digits_value(s1.drop_last()) == 0);
    assert(hex_digits_value(s1) == hi);
}

/// Four hex digits read back as the short that they spell.
pub proof fn lemma_parse_hex_short_roundtrip(v: u16)
    ensures
        spec_parse_hex(short_hex(v)) == Ok::<ByteOrShort, HexErrView>(ByteOrShort::Short(v)),
{
    let s = short_hex(v);
    let a = (v / 4096) as nat;
    let b = ((v / 256) % 16) as nat;
    let c = ((v / 16) % 16) as nat;
    let d = (v % 16) as nat;
    lemma_hex_text_value(s, seq![a, b, c, d]);
    lemma_hex_digit_char(a);
    lemma_hex_digit_char(b);
    lemma_hex_digit_char(c);
    lemma_hex_digit_char(d);
    let s3 = s.drop_last();
    let s2 = s3.drop_last();
    let s1 = s2.drop_last();
    assert(hex_digits_value(s1.drop_last()) == 0);
    assert(hex_digits_value(s1) == a);
    assert(hex_digits_value(s2) == a * 16 + b);
    assert(hex_digits_value(s3) == (a * 16 + b) * 16 + c);
}

/// The characters of a byte's hex text are digits and lowercase letters up
/// to `f` (uppercase up to `F` in its uppercase text).
pub proof fn lemma_hex_digit_chars(b: u8)
    ensures
        forall|i: int| 0 <= i < 2 ==> ('0' <= #[trigger] byte_hex(b)[i] <= '9' || 'a' <= byte_hex(b)[i] <= 'f'),
        forall|i: int| 0 <= i < 2 ==> ('0' <= #[trigger] byte_hex_upper(b)[i] <= '9' || 'A' <= byte_hex_upper(b)[i] <= 'F'),
{
}

/// The characters of a short's hex text are digits and lowercase letters up
/// to `f`.
pub proof fn lemma_short_hex_chars(v: u16)
    ensures
        forall|i: int| 0 <= i < 4 ==> ('0' <= #[trigger] short_hex(v)[i] <= '9' || 'a' <= short_hex(v)[i] <= 'f'),
{
}

proof fn lemma_digit_spelled(c: char)
    requires
        is_hex_digit(c),
    ensures
        hex_digit_value(c) < 16,
        spells_digit(c, hex_digit_value(c)),
        '\0' <= c <= '\u{7f}',
{
}

proof fn lemma_hex_text_ascii(s: Seq<char>)
    requires
        all_hex_digits(s),
    ensures
        byte_len(s) == s.len(),
{
    assert forall|i: int| 0 <= i < s.len() implies '\0' <= #[trigger] s[i] <= '\u{7f}' by {
        assert(is_hex_digit(s[i]));
        lemma_digit_spelled(s[i]);
    }
    vstd::utf8::is_ascii_chars_encode_utf8(s);
}

/// A text reads as a byte only when it is two hex digits, of either case,
/// that spell that byte, high digit first.
pub proof fn lemma_parse_hex_byte_text(s: Seq<char>, b: u8)
    requires
        spec_parse_hex(s) == Ok::<ByteOrShort, HexErrView>(ByteOrShort::Byte(b)),
    ensures
        s.len() == 2,
        spells_digit(s[0], (b / 16) as nat),
        spells_digit(s[1], (b % 16) as nat),
{
    assert(byte_len(s) == 2 && radix16_value(s) is Some);
    assert(all_hex_digits(s));
    lemma_hex_text_ascii(s);
    assert(s.len() == 2);
    assert(is_hex_digit(s[0]) && is_hex_digit(s[1]));
    lemma_digit_spelled(s[0]);
    lemma_digit_spelled(s[1]);
    let v0 = hex_digit_value(s[0]);
    let v1 = hex_digit_value(s[1]);
    assert(s.drop_last().drop_last().len() == 0);
    assert(hex_digits_value(s.drop_last().drop_last()) == 0);
    assert(s.drop_last().last() == s[0]);
    assert(hex_digits_value(s.drop_last()) == v0);
    assert(hex_digits_value(s) == v0 * 16 + v1);
    assert(b == v0 * 16 + v1);
}

/// A text reads as a short only when it is four hex digits, of either case,
/// that spell that short, high digit first.
#[verifier::rlimit(40)]
pub proof fn lemma_parse_hex_short_text(s: Seq<char>, v: u16)
    requires
        spec_parse_hex(s) == Ok::<ByteOrShort, HexErrView>(ByteOrShort::Short(v)),
    ensures
        s.len() == 4,
        spells_digit(s[0], (v / 4096) as nat),
        spells_digit(s[1], ((v / 256) % 16) as nat),
        spells_digit(s[2], ((v / 16) % 16) as nat),
        spells_digit(s[3], (v % 16) as nat),
{
    assert(byte_len(s) == 4 && radix16_value(s) is Some);
    assert(all_hex_digits(s));
    lemma_hex_text_ascii(s);
    assert(s.len() == 4);
    assert(is_hex_digit(s[0]) && is_hex_digit(s[1]) && is_hex_digit(s[2]) && is_hex_digit(s[3]));
    lemma_digit_spelled(s[0]);
    lemma_digit_spelled(s[1]);
    lemma_digit_spelled(s[2]);
    lemma_digit_spelled(s[3]);
    let a = hex_digit_value(s[0]);
    let b = hex_digit_value(s[1]);
    let c = hex_digit_value(s[2]);
    let d = hex_digit_value(s[3]);
    let s3 = s.drop_last();
    let s2 = s3.drop_last();
    let s1 = s2.drop_last();
    assert(s1.drop_last().len() == 0);
    assert(hex_digits_value(s1.drop_last()) == 0);
    assert(s1.last() == s[0] && s2.last() == s[1] && s3.last() == s[2] && s.last() == s[3]);
    assert(hex_digits_value(s1) == a);
    assert(hex_digits_value(s2) == a * 16 + b);
    assert(hex_digits_value(s3) == (a * 16 + b) * 16 + c);
    assert(hex_digits_value(s) == ((a * 16 + b) * 16 + c) * 16 + d);
    assert(v == ((a * 16 + b) * 16 + c) * 16 + d);
}

/// Uppercase hex digits read like lowercase ones: two uppercase digits read
/// back as the byte that they spell.
pub proof fn lemma_parse_hex_byte_upper_roundtrip(b: u8)
    ensures
        spec_parse_hex(byte_hex_upper(b)) == Ok::<ByteOrShort, HexErrView>(ByteOrShort::Byte(b)),
{
    let s = byte_hex_upper(b);
    let hi = (b / 16) as nat;
    let lo = (b % 16) as nat;
    assert(spells_digit(s[0], hi) && spells_digit(s[1], lo));
    lemma_hex_text_value(s, seq![hi, lo]);
    lemma_hex_digit_char_upper(hi);
    lemma_hex_digit_char_upper(lo);
    let s1 = s.drop_last();
    assert(hex_digits_value(s1.drop_last()) == 0);
    assert(hex_digits_value(s1) == hi);
}

/// Four uppercase hex digits read back as the short that they spell.
pub proof fn lemma_parse_hex_short_upper_roundtrip(v: u16)
    ensures
        spec_parse_hex(short_hex_upper(v)) == Ok::<ByteOrShort, HexErrView>(ByteOrShort::Short(v)),
{
    let s = short_hex_upper(v);
    let a = (v / 4096) as nat;
    let b = ((v / 256) % 16) as nat;
    let c = ((v / 16) % 16) as nat;
    let d = (v % 16) as nat;
    assert(spells_digit(s[0], a) && spells_digit(s[1], b) && spells_digit(s[2], c) && spells_digit(s[3], d));
    lemma_hex_text_value(s, seq![a, b, c, d]);
    lemma_hex_digit_char_upper(a);
    lemma_hex_digit_char_upper(b);
    lemma_hex_digit_char_upper(c);
    lemma_hex_digit_char_upper(d);
    let s3 = s.drop_last();
    let s2 = s3.drop_last();
    let s1 = s2.drop_last();
    assert(hex_digits_value(s1.drop_last()) == 0);
    assert(hex_digits_value(s1) == a);
    assert(hex_digits_value(s2) == a * 16 + b);
    assert(hex_digits_value(s3) == (a * 16 + b) * 16 + c);
}

/// Parses a hex literal (the text after a rune such as `#`, `|` or `$`).
pub fn parse_hex(hex: &str) -> (r: Result<ByteOrShort, UxnHexErr>)
    ensures
        parse_hex_view(r) == spec_parse_hex(hex@),
{
    let n = hex.as_bytes().len();
    proof {
        lemma_byte_len_at_least_chars(hex@);
    }
    if n == 0 {
        Err(UxnHexErr::EmptyHex)
    } else if n == 2 {
        match radix16(hex) {
            Some(v) => {
                assert(pow16(2) == 256) by {
                    assert(pow16(0) == 1);
                    assert(pow16(1) == 16);
                }
                Ok(ByteOrShort::Byte(v as u8))
            },
            None => Err(UxnHexErr::InvalidHex(hex.to_owned())),
        }
    } else if n == 4 {
        match radix16(hex) {
            Some(v) => {
                assert(pow16(4) == 65536) by {
                    assert(pow16(0) == 1);
                    assert(pow16(1) == 16);
                    assert(pow16(2) == 256);
                    assert(pow16(3) == 4096);
                }
                Ok(ByteOrShort::Short(v as u16))
            },
            None => Err(UxnHexErr::InvalidHex(hex.to_owned())),
        }
    } else {
        Err(UxnHexErr::BigHex(hex.to_owned()))
    }
}

/// The index of the first `[` in `s`, if there is one.
pub open spec fn first_open_bracket(s: Seq<char>) -> Option<int> {
    if exists|i: int| 0 <= i < s.len() && s[i] == '[' {
        Some(choose|i: int| 0 <= i < s.len() && s[i] == '[' && forall|j: int| 0 <= j < i ==> s[j] != '[')
    } else {
        None
    }
}

/// The name of a macro call `name[args]`: the text before the first `[`;
/// `None` for a word without `[`.
pub fn until_macro_args(word: &str) -> (r: Option<&str>)
    ensures
        r is Some <==> first_open_bracket(word@) is Some,
        r matches Some(p) ==> p@ == word@.subrange(0, first_open_bracket(word@)->0),
{
    let n = word.unicode_len();
    let mut i: usize = 0;
    while i < n
        invariant
            n == word@.len(),
            i <= n,
            forall|j: int| 0 <= j < i ==> word@[j] != '[',
        decreases n - i,
    {
        if word.get_char(i) == '[' {
            proof {
                let k = choose|k: int|
                    0 <= k < word@.len() && word@[k] == '[' && forall|j: int| 0 <= j < k ==> word@[j] != '[';
                assert(k == i);
            }
            return Some(word.substring_char(0, i));
        }
        i = i + 1;
    }
    None
}

/// `new` is `old` with `val` written at `idx`, grown first when `old` is
/// too short: the slots added before `idx` hold clones of a default value.
pub open spec fn set_vec_result<T: Default + Clone>(old: Seq<T>, new: Seq<T>, val: T, idx: int) -> bool {
    &&& new.len() == if idx < old.len() { old.len() } else { (idx + 1) as nat }
    &&& new[idx] == val
    &&& forall|j: int| 0 <= j < old.len() && j != idx ==> new[j] == old[j]
    &&& idx >= old.len() ==> exists|d: T|
        call_ensures(T::default, (), d) && forall|j: int|
            old.len() <= j < idx ==> cloned::<T>(d, #[trigger] new[j])
}

/// Writing the same value at the same index twice gives what writing it
/// once gave: in particular the vector does not grow again.
pub proof fn lemma_set_vec_twice<T: Default + Clone>(v0: Seq<T>, v1: Seq<T>, v2: Seq<T>, x: T, i: int)
    requires
        0 <= i,
        set_vec_result(v0, v1, x, i),
        set_vec_result(v1, v2, x, i),
    ensures
        v2 == v1,
{
    assert(v2 =~= v1);
}

/// Writes `val` at `idx`, first growing `vec` with default values when it is
/// too short to hold that index.
pub fn set_vec<T: Default + Clone>(vec: &mut Vec<T>, val: T, idx: usize)
    requires
        idx < usize::MAX,
    ensures
        set_vec_result(old(vec)@, final(vec)@, val, idx as int),
{
    let l = vec.len();
    if l > idx {
        vec.set(idx, val);
    } else {
        let d = T::default();
        vec.resize(idx + 1, d);
        vec.set(idx, val);
    }
}

/// `set_vec` on bytes: new slots hold zero.
pub open spec fn spec_set_byte(bytes: Seq<u8>, idx: int, val: u8) -> Seq<u8> {
    if idx < bytes.len() {
        bytes.update(idx, val)
    } else {
        (bytes + Seq::new((idx - bytes.len()) as nat, |i: int| 0u8)).push(val)
    }
}

} // verus!
