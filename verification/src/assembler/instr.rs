//! Opcode words: a three-letter mnemonic followed by mode letters.

use vstd::prelude::*;
use vstd::utf8::encode_scalar;

verus! {

/// Why an opcode word was refused.
#[derive(Debug)]
pub enum UxnrInstrErr {
    BadInstr(String),
    BadMode(char),
    ModesOnBrk,
}

/// `UxnrInstrErr` with its text taken as a character sequence.
pub enum InstrErrView {
    BadInstr(Seq<char>),
    BadMode(char),
    ModesOnBrk,
}

impl View for UxnrInstrErr {
    type V = InstrErrView;

    open spec fn view(&self) -> InstrErrView {
        match self {
            UxnrInstrErr::BadInstr(s) => InstrErrView::BadInstr(s@),
            UxnrInstrErr::BadMode(c) => InstrErrView::BadMode(*c),
            UxnrInstrErr::ModesOnBrk => InstrErrView::ModesOnBrk,
        }
    }
}

/// The index of a mnemonic in the opcode table: `BRK` is 0, `SFT` is 31 and
/// `LIT` comes last, at 32.
pub open spec fn mnemonic_index(a: char, b: char, c: char) -> Option<u8> {
    match (a, b, c) {
        ('B', 'R', 'K') => Some(0u8),
        ('I', 'N', 'C') => Some(1u8),
        ('P', 'O', 'P') => Some(2u8),
        ('N', 'I', 'P') => Some(3u8),
        ('S', 'W', 'P') => Some(4u8),
        ('R', 'O', 'T') => Some(5u8),
        ('D', 'U', 'P') => Some(6u8),
        ('O', 'V', 'R') => Some(7u8),
        ('E', 'Q', 'U') => Some(8u8),
        ('N', 'E', 'Q') => Some(9u8),
        ('G', 'T', 'H') => Some(10u8),
        ('L', 'T', 'H') => Some(11u8),
        ('J', 'M', 'P') => Some(12u8),
        ('J', 'C', 'N') => Some(13u8),
        ('J', 'S', 'R') => Some(14u8),
        ('S', 'T', 'H') => Some(15u8),
        ('L', 'D', 'Z') => Some(16u8),
        ('S', 'T', 'Z') => Some(17u8),
        ('L', 'D', 'R') => Some(18u8),
        ('S', 'T', 'R') => Some(19u8),
        ('L', 'D', 'A') => Some(20u8),
        ('S', 'T', 'A') => Some(21u8),
        ('D', 'E', 'I') => Some(22u8),
        ('D', 'E', 'O') => Some(23u8),
        ('A', 'D', 'D') => Some(24u8),
        ('S', 'U', 'B') => Some(25u8),
        ('M', 'U', 'L') => Some(26u8),
        ('D', 'I', 'V') => Some(27u8),
        ('A', 'N', 'D') => Some(28u8),
        ('O', 'R', 'A') => Some(29u8),
        ('E', 'O', 'R') => Some(30u8),
        ('S', 'F', 'T') => Some(31u8),
        ('L', 'I', 'T') => Some(32u8),
        _ => None,
    }
}

fn lookup_mnemonic(a: char, b: char, c: char) -> (r: Option<u8>)
    ensures
        r == mnemonic_index(a, b, c),
{
    match (a, b, c) {
        ('B', 'R', 'K') => Some(0u8),
        ('I', 'N', 'C') => Some(1u8),
        ('P', 'O', 'P') => Some(2u8),
        ('N', 'I', 'P') => Some(3u8),
        ('S', 'W', 'P') => Some(4u8),
        ('R', 'O', 'T') => Some(5u8),
        ('D', 'U', 'P') => Some(6u8),
        ('O', 'V', 'R') => Some(7u8),
        ('E', 'Q', 'U') => Some(8u8),
        ('N', 'E', 'Q') => Some(9u8),
        ('G', 'T', 'H') => Some(10u8),
        ('L', 'T', 'H') => Some(11u8),
        ('J', 'M', 'P') => Some(12u8),
        ('J', 'C', 'N') => Some(13u8),
        ('J', 'S', 'R') => Some(14u8),
        ('S', 'T', 'H') => Some(15u8),
        ('L', 'D', 'Z') => Some(16u8),
        ('S', 'T', 'Z') => Some(17u8),
        ('L', 'D', 'R') => Some(18u8),
        ('S', 'T', 'R') => Some(19u8),
        ('L', 'D', 'A') => Some(20u8),
        ('S', 'T', 'A') => Some(21u8),
        ('D', 'E', 'I') => Some(22u8),
        ('D', 'E', 'O') => Some(23u8),
        ('A', 'D', 'D') => Some(24u8),
        ('S', 'U', 'B') => Some(25u8),
        ('M', 'U', 'L') => Some(26u8),
        ('D', 'I', 'V') => Some(27u8),
        ('A', 'N', 'D') => Some(28u8),
        ('O', 'R', 'A') => Some(29u8),
        ('E', 'O', 'R') => Some(30u8),
        ('S', 'F', 'T') => Some(31u8),
        ('L', 'I', 'T') => Some(32u8),
        _ => None,
    }
}

/// The number of bytes that `c` takes in UTF-8.
pub open spec fn char_width(c: char) -> nat {
    encode_scalar(c as u32).len()
}

fn width(c: char) -> (r: usize)
    ensures
        r == char_width(c),
        1 <= r <= 4,
{
    proof {
        vstd::utf8::char_is_scalar(c);
    }
    let v = c as u32;
    if v <= 0x7f {
        1
    } else if v <= 0x7ff {
        2
    } else if v <= 0xffff {
        3
    } else {
        4
    }
}

/// The number of leading characters of `s` whose UTF-8 encoding is exactly
/// three bytes long, if there is such a prefix (that is, if the word has at
/// least three bytes and a character boundary after the third).
pub open spec fn three_byte_prefix(s: Seq<char>) -> Option<nat> {
    if s.len() >= 1 && char_width(s[0]) == 3 {
        Some(1)
    } else if s.len() >= 2 && char_width(s[0]) + char_width(s[1]) == 3 {
        Some(2)
    } else if s.len() >= 3 && char_width(s[0]) == 1 && char_width(s[1]) == 1 && char_width(s[2])
        == 1 {
        Some(3)
    } else {
        None
    }
}

/// Whether the word has a character boundary after its third byte, which
/// `new` needs to cut out the mnemonic.
pub fn has_three_byte_prefix(word: &str) -> (r: bool)
    ensures
        r == (three_byte_prefix(word@) is Some),
{
    let n = word.unicode_len();
    if n == 0 {
        return false;
    }
    let w0 = width(word.get_char(0));
    if w0 == 3 {
        return true;
    }
    if n < 2 {
        return false;
    }
    let w1 = width(word.get_char(1));
    if w0 + w1 == 3 {
        return true;
    }
    if n < 3 {
        return false;
    }
    let w2 = width(word.get_char(2));
    w0 == 1 && w1 == 1 && w2 == 1
}

/// The opcode table index named by the first three bytes of a word.
pub open spec fn instr_kind(instr: Seq<char>) -> Option<u8> {
    if instr.len() == 3 {
        mnemonic_index(instr[0], instr[1], instr[2])
    } else {
        None
    }
}

pub open spec fn is_mode_char(c: char) -> bool {
    c == 'k' || c == 'r' || c == '2'
}

/// The first character of `m` that is not a mode letter (`k`, `r` or `2`).
pub open spec fn first_bad_mode(m: Seq<char>) -> Option<char> {
    if exists|i: int| 0 <= i < m.len() && !is_mode_char(m[i]) {
        let i = choose|i: int|
            0 <= i < m.len() && !is_mode_char(m[i]) && forall|j: int|
                0 <= j < i ==> is_mode_char(#[trigger] m[j]);
        Some(m[i])
    } else {
        None
    }
}

/// The opcode byte: the table index with the keep (0x80), return (0x40) and
/// short (0x20) bits switched on by exclusive or. `LIT` (table index 32) is
/// `BRK`'s opcode 0 with the keep bit always set: `LIT` is 0x80, `LIT2` 0xa0,
/// `LITr` 0xc0 and `LIT2r` 0xe0.
pub open spec fn opcode_byte(kind: u8, keep: bool, rst: bool, short: bool) -> u8 {
    if kind == 32 {
        opcode_bits(0, true, rst, short)
    } else {
        opcode_bits(kind, keep, rst, short)
    }
}

pub open spec fn opcode_bits(kind: u8, keep: bool, rst: bool, short: bool) -> u8 {
    kind ^ (if keep { 0x80u8 } else { 0u8 }) ^ (if rst { 0x40u8 } else { 0u8 }) ^ (if short {
        0x20u8
    } else {
        0u8
    })
}

/// What an opcode word assembles to: its first three bytes must name an
/// opcode; `BRK` takes no modes; every mode character must be `k`, `r` or `2`.
pub open spec fn spec_instr_new(word: Seq<char>) -> Result<u8, InstrErrView>
    recommends
        three_byte_prefix(word) is Some,
{
    let k = three_byte_prefix(word)->0 as int;
    let instr = word.subrange(0, k);
    let modes = word.subrange(k, word.len() as int);
    match instr_kind(instr) {
        None => Err(InstrErrView::BadInstr(instr)),
        Some(kind) => if kind == 0 && modes.len() > 0 {
            Err(InstrErrView::ModesOnBrk)
        } else {
            match first_bad_mode(modes) {
                Some(c) => Err(InstrErrView::BadMode(c)),
                None => Ok(
                    opcode_byte(kind, modes.contains('k'), modes.contains('r'), modes.contains('2')),
                ),
            }
        },
    }
}

/// Every `LIT` word whose modes are all valid assembles to 0x80, with 0x40
/// added for return mode and 0x20 for short mode.
pub proof fn lemma_lit_opcode(word: Seq<char>)
    requires
        word.len() >= 3,
        word[0] == 'L' && word[1] == 'I' && word[2] == 'T',
        forall|i: int| 3 <= i < word.len() ==> is_mode_char(#[trigger] word[i]),
    ensures
        spec_instr_new(word) == Ok::<u8, InstrErrView>(
            (0x80 + (if word.subrange(3, word.len() as int).contains('r') { 0x40int } else { 0 }) + (
            if word.subrange(3, word.len() as int).contains('2') {
                0x20int
            } else {
                0
            })) as u8,
        ),
{
    let modes = word.subrange(3, word.len() as int);
    assert(first_bad_mode(modes) is None) by {
        assert forall|i: int| 0 <= i < modes.len() implies is_mode_char(modes[i]) by {
            assert(modes[i] == word[i + 3]);
        }
    }
    assert(word.subrange(0, 3) =~= seq!['L', 'I', 'T']);
    let r = modes.contains('r');
    let sh = modes.contains('2');
    assert(0u8 ^ 0x80u8 ^ 0x40u8 ^ 0x20u8 == 0xe0u8) by (bit_vector);
    assert(0u8 ^ 0x80u8 ^ 0x40u8 ^ 0u8 == 0xc0u8) by (bit_vector);
    assert(0u8 ^ 0x80u8 ^ 0u8 ^ 0x20u8 == 0xa0u8) by (bit_vector);
    assert(0u8 ^ 0x80u8 ^ 0u8 ^ 0u8 == 0x80u8) by (bit_vector);
}

/// The Uxn opcode table, in opcode order: `BRK` is 0x00 and `SFT` is 0x1f.
pub open spec fn opcode_names() -> Seq<Seq<char>> {
    seq![
        seq!['B', 'R', 'K'], seq!['I', 'N', 'C'], seq!['P', 'O', 'P'], seq!['N', 'I', 'P'],
        seq!['S', 'W', 'P'], seq!['R', 'O', 'T'], seq!['D', 'U', 'P'], seq!['O', 'V', 'R'],
        seq!['E', 'Q', 'U'], seq!['N', 'E', 'Q'], seq!['G', 'T', 'H'], seq!['L', 'T', 'H'],
        seq!['J', 'M', 'P'], seq!['J', 'C', 'N'], seq!['J', 'S', 'R'], seq!['S', 'T', 'H'],
        seq!['L', 'D', 'Z'], seq!['S', 'T', 'Z'], seq!['L', 'D', 'R'], seq!['S', 'T', 'R'],
        seq!['L', 'D', 'A'], seq!['S', 'T', 'A'], seq!['D', 'E', 'I'], seq!['D', 'E', 'O'],
        seq!['A', 'D', 'D'], seq!['S', 'U', 'B'], seq!['M', 'U', 'L'], seq!['D', 'I', 'V'],
        seq!['A', 'N', 'D'], seq!['O', 'R', 'A'], seq!['E', 'O', 'R'], seq!['S', 'F', 'T'],
    ]
}

/// Each mnemonic written without modes assembles to its place in the Uxn
/// opcode table.
pub proof fn lemma_mnemonic_opcodes(i: int)
    requires
        0 <= i < 32,
    ensures
        spec_instr_new(opcode_names()[i]) == Ok::<u8, InstrErrView>(i as u8),
{
    let w = opcode_names()[i];
    assert(w.len() == 3);
    assert(three_byte_prefix(w) == Some(3nat));
    assert(w.subrange(0, 3) =~= w);
    assert(w.subrange(3, 3) =~= Seq::<char>::empty());
    assert(first_bad_mode(Seq::<char>::empty()) is None);
    assert(mnemonic_index(w[0], w[1], w[2]) == Some(i as u8));
    let k = i as u8;
    assert(k ^ 0u8 ^ 0u8 ^ 0u8 == k) by (bit_vector);
}

proof fn lemma_mode_xor(k: u8, keep: bool, rst: bool, short: bool)
    by (bit_vector)
    requires
        k < 32,
    ensures
        (k ^ (if keep { 0x80u8 } else { 0u8 }) ^ (if rst { 0x40u8 } else { 0u8 }) ^ (if short {
            0x20u8
        } else {
            0u8
        })) == k + (if keep { 0x80u8 } else { 0u8 }) + (if rst { 0x40u8 } else { 0u8 }) + (if short {
            0x20u8
        } else {
            0u8
        }),
{
}

/// A mnemonic other than `BRK`, followed by mode letters, assembles to its
/// place in the opcode table plus 0x80 when `k` (keep) is among the modes,
/// 0x40 when `r` (return stack) is, and 0x20 when `2` (short) is.
pub proof fn lemma_mode_bits(i: int, modes: Seq<char>)
    requires
        1 <= i < 32,
        forall|j: int| 0 <= j < modes.len() ==> is_mode_char(#[trigger] modes[j]),
    ensures
        spec_instr_new(opcode_names()[i] + modes) == Ok::<u8, InstrErrView>(
            (i + (if modes.contains('k') { 0x80int } else { 0 }) + (if modes.contains('r') {
                0x40int
            } else {
                0
            }) + (if modes.contains('2') { 0x20int } else { 0 })) as u8,
        ),
{
    let name = opcode_names()[i];
    let w = name + modes;
    assert(name.len() == 3);
    assert(w[0] == name[0] && w[1] == name[1] && w[2] == name[2]);
    assert(three_byte_prefix(w) == Some(3nat));
    assert(w.subrange(0, 3) =~= name);
    assert(w.subrange(3, w.len() as int) =~= modes);
    assert(mnemonic_index(name[0], name[1], name[2]) == Some(i as u8));
    assert(first_bad_mode(modes) is None);
    lemma_mode_xor(i as u8, modes.contains('k'), modes.contains('r'), modes.contains('2'));
}

pub open spec fn instr_view(r: Result<u8, UxnrInstrErr>) -> Result<u8, InstrErrView> {
    match r {
        Ok(b) => Ok(b),
        Err(e) => Err(e@),
    }
}

/// Assembles an opcode word (a mnemonic with optional mode letters) to its
/// byte. The word must have a character boundary after its third byte.
pub fn new(word: &str) -> (r: Result<u8, UxnrInstrErr>)
    requires
        three_byte_prefix(word@) is Some,
    ensures
        instr_view(r) == spec_instr_new(word@),
{
    let n = word.unicode_len();
    let c0 = word.get_char(0);
    let w0 = width(c0);
    let k: usize = if w0 == 3 {
        1
    } else {
        let c1 = word.get_char(1);
        if w0 + width(c1) == 3 {
            2
        } else {
            3
        }
    };
    let kind = if k == 3 {
        lookup_mnemonic(c0, word.get_char(1), word.get_char(2))
    } else {
        None
    };
    let ghost instr_s = word@.subrange(0, k as int);
    let ghost modes_s = word@.subrange(k as int, n as int);
    let kind = match kind {
        Some(v) => v,
        None => {
            let instr = word.substring_char(0, k);
            return Err(UxnrInstrErr::BadInstr(instr.to_owned()));
        }
    };
    if kind == 0 && k < n {
        return Err(UxnrInstrErr::ModesOnBrk);
    }
    let mut keep = false;
    let mut rst = false;
    let mut short = false;
    let mut i = k;
    while i < n
        invariant
            n == word@.len(),
            k <= i <= n,
            modes_s == word@.subrange(k as int, n as int),
            instr_s == word@.subrange(0, k as int),
            k == three_byte_prefix(word@)->0,
            three_byte_prefix(word@) is Some,
            instr_kind(instr_s) == Some(kind),
            !(kind == 0 && k < n),
            forall|j: int| 0 <= j < i - k ==> is_mode_char(#[trigger] modes_s[j]),
            keep == (exists|j: int| 0 <= j < i - k && modes_s[j] == 'k'),
            rst == (exists|j: int| 0 <= j < i - k && modes_s[j] == 'r'),
            short == (exists|j: int| 0 <= j < i - k && modes_s[j] == '2'),
        decreases n - i,
    {
        let c = word.get_char(i);
        assert(modes_s[i - k] == c);
        if c == 'k' {
            keep = true;
        } else if c == 'r' {
            rst = true;
        } else if c == '2' {
            short = true;
        } else {
            return Err(UxnrInstrErr::BadMode(c));
        }
        i = i + 1;
    }
    let mut kind = kind;
    if kind == 32 {
        keep = true;
        kind = 0;
    }
    let keep_bit: u8 = if keep { 0x80 } else { 0 };
    let rst_bit: u8 = if rst { 0x40 } else { 0 };
    let short_bit: u8 = if short { 0x20 } else { 0 };
    Ok(kind ^ keep_bit ^ rst_bit ^ short_bit)
}

} // verus!
