//! The assembler: turns uxntal source into a ROM image.

pub mod instr;
pub mod uxn_macro;
pub mod resolution;
pub mod reading;
pub mod names;
pub mod recursion;
pub mod words;

use vstd::prelude::*;
use vstd::utf8::encode_utf8;
use vstd::string::StringExecFns;
use vstd::slice::slice_subrange;

use crate::utils::ByteOrShort;
use crate::utils::UxnHexErr;
use crate::utils::HexErrView;
use crate::utils::parse_hex;
use crate::utils::spec_parse_hex;
use crate::utils::set_vec;
use crate::utils::spec_set_byte;
use instr::UxnrInstrErr;
use instr::InstrErrView;
use instr::spec_instr_new;
use instr::three_byte_prefix;
use instr::has_three_byte_prefix;
use uxn_macro::UxnMacro;
use uxn_macro::UxnMacroErr;
use uxn_macro::MacroView;
use uxn_macro::words_view;
use uxn_macro::single;
use uxn_macro::spec_macro_new;
use uxn_macro::is_single;
use uxn_macro::lemma_words_view_push;

verus! {

/// How a label reference is patched once the label's address is known.
#[derive(Debug, Clone, Copy, PartialEq, Eq)]
pub enum LabelKind {
    /// A two-byte absolute address.
    Abs,
    /// A one-byte offset from the reference.
    Rel,
    /// A one-byte zero-page address.
    Zpg,
}

/// A reference to a label: where its bytes go and how they are computed.
#[derive(Debug, Clone, Copy)]
pub struct LabelCall {
    pub pos: usize,
    pub kind: LabelKind,
}

/// A label: its name, whether it has been defined yet, its address, and the
/// references to it met so far.
struct Label {
    name: String,
    defined: bool,
    addr: usize,
    calls: Vec<LabelCall>,
}

/// A label as values.
pub struct LabelView {
    pub name: Seq<char>,
    pub defined: bool,
    pub addr: int,
    pub calls: Seq<LabelCall>,
}

impl View for Label {
    type V = LabelView;

    closed spec fn view(&self) -> LabelView {
        LabelView {
            name: self.name@,
            defined: self.defined,
            addr: self.addr as int,
            calls: self.calls@,
        }
    }
}

/// The assembler's state while it reads the source, word by word.
///
/// The macro and label tables are vectors searched in order rather than
/// `HashMap`s: with string keys a `HashMap` offers contracts nothing that
/// pins down lookups, while a vector's search is proved, and its order fixes
/// which of several undefined labels is reported (the one met first).
pub struct UxnAssembler<'a> {
    macros: Vec<(&'a str, UxnMacro<'a>)>,
    bytes: Vec<u8>,
    labels: Vec<Label>,
    code: &'a str,
    last_main_lbl: &'a str,
    in_comment: bool,
    in_macro: bool,
    cur_macro_name: &'a str,
    cur_macro_buf: Vec<&'a str>,
    counter: usize,
}

/// The assembler's state as values. Macros and labels are kept in the order
/// in which they were first defined or mentioned; a name occurs at most once.
pub struct AsmState {
    pub macros: Seq<(Seq<char>, MacroView)>,
    pub bytes: Seq<u8>,
    pub labels: Seq<LabelView>,
    pub code: Seq<char>,
    pub last_main_lbl: Seq<char>,
    pub in_comment: bool,
    pub in_macro: bool,
    pub cur_macro_name: Seq<char>,
    pub cur_macro_buf: Seq<Seq<char>>,
    pub counter: int,
}

impl<'a> View for UxnAssembler<'a> {
    type V = AsmState;

    closed spec fn view(&self) -> AsmState {
        AsmState {
            macros: macros_view(self.macros@),
            bytes: self.bytes@,
            labels: labels_view(self.labels@),
            code: self.code@,
            last_main_lbl: self.last_main_lbl@,
            in_comment: self.in_comment,
            in_macro: self.in_macro,
            cur_macro_name: self.cur_macro_name@,
            cur_macro_buf: words_view(self.cur_macro_buf@),
            counter: self.counter as int,
        }
    }
}

/// Why assembling failed.
#[derive(Debug)]
pub enum UxnAssemblerErr {
    MacrErr(UxnMacroErr),
    HexErr(UxnHexErr),
    InstrErr(UxnrInstrErr),
    UndefinedSymbol(String),
    NotInZpg(String),
}

/// `UxnAssemblerErr` with its texts taken as character sequences.
pub enum AsmErrView {
    MacrErr(UxnMacroErr),
    HexErr(HexErrView),
    InstrErr(InstrErrView),
    UndefinedSymbol(Seq<char>),
    NotInZpg(Seq<char>),
}

impl View for UxnAssemblerErr {
    type V = AsmErrView;

    open spec fn view(&self) -> AsmErrView {
        match self {
            UxnAssemblerErr::MacrErr(e) => AsmErrView::MacrErr(*e),
            UxnAssemblerErr::HexErr(e) => AsmErrView::HexErr(e@),
            UxnAssemblerErr::InstrErr(e) => AsmErrView::InstrErr(e@),
            UxnAssemblerErr::UndefinedSymbol(s) => AsmErrView::UndefinedSymbol(s@),
            UxnAssemblerErr::NotInZpg(s) => AsmErrView::NotInZpg(s@),
        }
    }
}

impl From<UxnMacroErr> for UxnAssemblerErr {
    fn from(e: UxnMacroErr) -> (r: UxnAssemblerErr) {
        UxnAssemblerErr::MacrErr(e)
    }
}

impl vstd::std_specs::convert::FromSpecImpl<UxnMacroErr> for UxnAssemblerErr {
    open spec fn obeys_from_spec() -> bool {
        true
    }

    open spec fn from_spec(v: UxnMacroErr) -> UxnAssemblerErr {
        UxnAssemblerErr::MacrErr(v)
    }
}

impl From<UxnHexErr> for UxnAssemblerErr {
    fn from(e: UxnHexErr) -> (r: UxnAssemblerErr) {
        UxnAssemblerErr::HexErr(e)
    }
}

impl vstd::std_specs::convert::FromSpecImpl<UxnHexErr> for UxnAssemblerErr {
    open spec fn obeys_from_spec() -> bool {
        true
    }

    open spec fn from_spec(v: UxnHexErr) -> UxnAssemblerErr {
        UxnAssemblerErr::HexErr(v)
    }
}

impl From<UxnrInstrErr> for UxnAssemblerErr {
    fn from(e: UxnrInstrErr) -> (r: UxnAssemblerErr) {
        UxnAssemblerErr::InstrErr(e)
    }
}

impl vstd::std_specs::convert::FromSpecImpl<UxnrInstrErr> for UxnAssemblerErr {
    open spec fn obeys_from_spec() -> bool {
        true
    }

    open spec fn from_spec(v: UxnrInstrErr) -> UxnAssemblerErr {
        UxnAssemblerErr::InstrErr(v)
    }
}

/// How an assembler step ends when it does not succeed: with an error that
/// the source deserves, or with a fault, where the input drives the assembler
/// out of what it can do: an empty word, a character literal without a
/// one-byte character after the quote, an opcode word without a character
/// boundary after its third byte, a `$` pad of four digits, an address or
/// counter past the last `usize`, a relative reference whose offset from the
/// end of its literal, `addr - pos - 2`, leaves -128..=127, or a macro that
/// calls itself without end.
#[derive(Debug)]
pub enum AsmFailure {
    Error(UxnAssemblerErr),
    Fault,
}

/// The outcome of an assembler step, as values.
pub enum Step {
    /// The step succeeded and left this state.
    Next(AsmState),
    /// The step failed with this error and left this state.
    Stop(AsmState, AsmErrView),
    /// The step faulted.
    Fault,
}

/// `r`, returned by a step whose outcome is `st`, together with the state
/// `s` that the step left, agrees with `st`.
pub open spec fn failure_matches(st: Step, s: AsmState, r: Result<(), AsmFailure>) -> bool {
    match st {
        Step::Next(t) => r is Ok && s == t,
        Step::Stop(t, e) => s == t && (r matches Err(AsmFailure::Error(x)) && x@ == e),
        Step::Fault => r matches Err(AsmFailure::Fault),
    }
}

/// As `failure_matches`, for a step known not to fault.
pub open spec fn error_matches(st: Step, s: AsmState, r: Result<(), UxnAssemblerErr>) -> bool {
    match st {
        Step::Next(t) => r is Ok && s == t,
        Step::Stop(t, e) => s == t && (r matches Err(x) && x@ == e),
        Step::Fault => false,
    }
}

pub open spec fn opt_step(o: Option<AsmState>) -> Step {
    match o {
        Some(s) => Step::Next(s),
        None => Step::Fault,
    }
}

pub open spec fn starts_with(w: Seq<char>, c: char) -> bool {
    w.len() > 0 && w[0] == c
}

/// The state a fresh assembler starts from.
pub open spec fn initial_state(code: Seq<char>) -> AsmState {
    AsmState {
        macros: Seq::empty(),
        bytes: Seq::empty(),
        labels: Seq::empty(),
        code,
        last_main_lbl: Seq::empty(),
        in_comment: false,
        in_macro: false,
        cur_macro_name: Seq::empty(),
        cur_macro_buf: Seq::empty(),
        counter: 0,
    }
}

/// The first index at or after `i` of a label named `name`.
pub open spec fn find_label_from(ls: Seq<LabelView>, name: Seq<char>, i: int) -> Option<int>
    decreases ls.len() - i,
{
    if i < 0 || i >= ls.len() {
        None
    } else if ls[i].name == name {
        Some(i)
    } else {
        find_label_from(ls, name, i + 1)
    }
}

pub open spec fn find_label(ls: Seq<LabelView>, name: Seq<char>) -> Option<int> {
    find_label_from(ls, name, 0)
}

/// The first index at or after `i` of a macro named `name`.
pub open spec fn find_macro_from(ms: Seq<(Seq<char>, MacroView)>, name: Seq<char>, i: int) -> Option<int>
    decreases ms.len() - i,
{
    if i < 0 || i >= ms.len() {
        None
    } else if ms[i].0 == name {
        Some(i)
    } else {
        find_macro_from(ms, name, i + 1)
    }
}

pub open spec fn find_macro(ms: Seq<(Seq<char>, MacroView)>, name: Seq<char>) -> Option<int> {
    find_macro_from(ms, name, 0)
}

/// Defining a macro replaces an earlier one of the same name.
pub open spec fn insert_macro(
    ms: Seq<(Seq<char>, MacroView)>,
    name: Seq<char>,
    m: MacroView,
) -> Seq<(Seq<char>, MacroView)> {
    match find_macro(ms, name) {
        Some(i) => ms.update(i, (name, m)),
        None => ms.push((name, m)),
    }
}

/// Defines label `name` at the current address, keeping its references.
pub open spec fn spec_add_label(s: AsmState, name: Seq<char>) -> AsmState {
    match find_label(s.labels, name) {
        Some(i) => AsmState {
            labels: s.labels.update(i, LabelView { defined: true, addr: s.counter, ..s.labels[i] }),
            ..s
        },
        None => AsmState {
            labels: s.labels.push(
                LabelView { name, defined: true, addr: s.counter, calls: Seq::empty() },
            ),
            ..s
        },
    }
}

/// The number of bytes a reference of this kind takes.
pub open spec fn call_width(kind: LabelKind) -> int {
    match kind {
        LabelKind::Abs => 2,
        _ => 1,
    }
}

/// Records a reference to label `name` at the current address and moves past
/// the bytes it takes.
pub open spec fn spec_add_label_call(s: AsmState, name: Seq<char>, kind: LabelKind) -> AsmState {
    let call = LabelCall { pos: s.counter as usize, kind };
    let labels = match find_label(s.labels, name) {
        Some(i) => s.labels.update(i, LabelView { calls: s.labels[i].calls.push(call), ..s.labels[i] }),
        None => s.labels.push(
            LabelView { name, defined: false, addr: 0, calls: seq![call] },
        ),
    };
    AsmState { labels, counter: s.counter + call_width(kind), ..s }
}

/// A reference, which faults when its bytes would run past the last address.
pub open spec fn spec_label_ref(s: AsmState, name: Seq<char>, kind: LabelKind) -> Step {
    if s.counter + call_width(kind) > usize::MAX {
        Step::Fault
    } else {
        Step::Next(spec_add_label_call(s, name, kind))
    }
}

/// Writes `b` at the current address and moves past it.
pub open spec fn spec_emit(s: AsmState, b: u8) -> Option<AsmState> {
    if 0 <= s.counter < usize::MAX {
        Some(AsmState { bytes: spec_set_byte(s.bytes, s.counter, b), counter: s.counter + 1, ..s })
    } else {
        None
    }
}

/// Writes the bytes `bs` one after another.
pub open spec fn spec_emit_all(s: AsmState, bs: Seq<u8>) -> Option<AsmState>
    decreases bs.len(),
{
    if bs.len() == 0 {
        Some(s)
    } else {
        match spec_emit(s, bs[0]) {
            Some(s1) => spec_emit_all(s1, bs.drop_first()),
            None => None,
        }
    }
}

/// The high byte of the 16-bit address `a` (addresses wrap at 0x10000).
pub open spec fn addr_hi(a: int) -> u8 {
    ((a / 256) % 256) as u8
}

/// The low byte of `a`.
pub open spec fn addr_lo(a: int) -> u8 {
    (a % 256) as u8
}

/// The offset byte of a relative reference at `pos` to `addr`: counted from
/// the end of the two-byte literal, and wrapping modulo 256.
pub open spec fn rel_byte(addr: int, pos: int) -> u8 {
    ((addr - pos - 2) % 256) as u8
}

/// A relative reference reaches its label when the true offset, counted from
/// the end of the two-byte literal, fits in a signed byte.
pub open spec fn rel_in_range(addr: int, pos: int) -> bool {
    -128 <= addr - pos - 2 <= 127
}

/// The name a reference word points to: `&sub` names a child of the last
/// parent label.
pub open spec fn ref_name(last_main: Seq<char>, rest: Seq<char>) -> Seq<char> {
    if starts_with(rest, '&') {
        last_main + seq!['/'] + rest.drop_first()
    } else {
        rest
    }
}

pub open spec fn emit_then_ref(s: AsmState, b: u8, name: Seq<char>, kind: LabelKind) -> Step {
    match spec_emit(s, b) {
        Some(s1) => spec_label_ref(s1, name, kind),
        None => Step::Fault,
    }
}

/// Bytes of a literal byte, a literal short and a raw short.
pub open spec fn lit_byte(b: u8) -> Seq<u8> {
    seq![0x80u8, b]
}

pub open spec fn lit_short(v: u16) -> Seq<u8> {
    seq![0xa0u8, addr_hi(v as int), addr_lo(v as int)]
}

pub open spec fn raw_short(v: u16) -> Seq<u8> {
    seq![addr_hi(v as int), addr_lo(v as int)]
}

/// What a word that produces bytes does, with `d` more macro calls allowed
/// to nest (a deeper nesting repeats a macro within its own expansion, which
/// never ends). A word with no rune is a raw byte when it is two hex digits;
/// otherwise it calls the macro of that name, or else it is an opcode; a
/// four-digit hex word that names neither is a raw short.
pub open spec fn spec_word_to_bytes(s: AsmState, w: Seq<char>, d: nat) -> Step
    decreases d, 0int,
{
    if w.len() == 0 {
        Step::Fault
    } else {
        let c = w[0];
        let rest = w.drop_first();
        if c == '#' {
            match spec_parse_hex(rest) {
                Ok(ByteOrShort::Byte(b)) => opt_step(spec_emit_all(s, lit_byte(b))),
                Ok(ByteOrShort::Short(v)) => opt_step(spec_emit_all(s, lit_short(v))),
                Err(e) => Step::Stop(s, AsmErrView::HexErr(e)),
            }
        } else if c == ';' {
            emit_then_ref(s, 0xa0, ref_name(s.last_main_lbl, rest), LabelKind::Abs)
        } else if c == ':' {
            spec_label_ref(s, ref_name(s.last_main_lbl, rest), LabelKind::Abs)
        } else if c == '.' {
            emit_then_ref(s, 0x80, ref_name(s.last_main_lbl, rest), LabelKind::Zpg)
        } else if c == ',' {
            emit_then_ref(s, 0x80, ref_name(s.last_main_lbl, rest), LabelKind::Rel)
        } else if c == '\'' {
            if w.len() >= 2 && (w[1] as u32) < 0x80 {
                opt_step(spec_emit(s, w[1] as u8))
            } else {
                Step::Fault
            }
        } else if c == '"' {
            opt_step(spec_emit_all(s, encode_utf8(rest)))
        } else {
            match spec_parse_hex(w) {
                Ok(ByteOrShort::Byte(b)) => opt_step(spec_emit(s, b)),
                hex => match find_macro(s.macros, w) {
                    Some(i) => if d == 0 {
                        Step::Fault
                    } else {
                        spec_words_to_bytes(s, s.macros[i].1.code, (d - 1) as nat)
                    },
                    None => if three_byte_prefix(w) is None {
                        match hex {
                            Ok(ByteOrShort::Short(v)) => opt_step(spec_emit_all(s, raw_short(v))),
                            _ => Step::Fault,
                        }
                    } else {
                        match spec_instr_new(w) {
                            Ok(b) => opt_step(spec_emit(s, b)),
                            Err(e) => match hex {
                                Ok(ByteOrShort::Short(v)) => opt_step(spec_emit_all(s, raw_short(v))),
                                _ => Step::Stop(s, AsmErrView::InstrErr(e)),
                            },
                        }
                    },
                },
            }
        }
    }
}

/// The words of a macro body, one after another, stopping at the first
/// error or fault.
pub open spec fn spec_words_to_bytes(s: AsmState, ws: Seq<Seq<char>>, d: nat) -> Step
    decreases d, ws.len(),
{
    if ws.len() == 0 {
        Step::Next(s)
    } else {
        match spec_word_to_bytes(s, ws[0], d) {
            Step::Next(s1) => spec_words_to_bytes(s1, ws.drop_first(), d),
            other => other,
        }
    }
}

/// A word that produces bytes, read with as many nested macro calls allowed
/// as there are macros.
pub open spec fn spec_do_word_to_bytes(s: AsmState, w: Seq<char>) -> Step {
    spec_word_to_bytes(s, w, s.macros.len())
}

/// What one word of source does: comments, macro definitions, labels and
/// padding are handled here; every other word produces bytes.
pub open spec fn spec_do_word(s: AsmState, w: Seq<char>) -> Step {
    if s.in_comment {
        if starts_with(w, ')') {
            Step::Next(AsmState { in_comment: false, ..s })
        } else {
            Step::Next(s)
        }
    } else if starts_with(w, '(') {
        Step::Next(AsmState { in_comment: true, ..s })
    } else if s.in_macro {
        let buf = s.cur_macro_buf.push(w);
        if w == single('}') {
            let s1 = AsmState { cur_macro_buf: buf, in_macro: false, ..s };
            match spec_macro_new(buf) {
                Ok(m) => Step::Next(
                    AsmState { macros: insert_macro(s.macros, s.cur_macro_name, m), ..s1 },
                ),
                Err(e) => Step::Stop(s1, AsmErrView::MacrErr(e)),
            }
        } else {
            Step::Next(AsmState { cur_macro_buf: buf, ..s })
        }
    } else if starts_with(w, '%') {
        Step::Next(
            AsmState {
                cur_macro_name: w.drop_first(),
                in_macro: true,
                cur_macro_buf: Seq::empty(),
                ..s
            },
        )
    } else if starts_with(w, '@') {
        Step::Next(spec_add_label(AsmState { last_main_lbl: w.drop_first(), ..s }, w.drop_first()))
    } else if starts_with(w, '&') {
        Step::Next(spec_add_label(s, s.last_main_lbl + seq!['/'] + w.drop_first()))
    } else if starts_with(w, '|') {
        match spec_parse_hex(w.drop_first()) {
            Ok(ByteOrShort::Byte(b)) => Step::Next(AsmState { counter: b as int, ..s }),
            Ok(ByteOrShort::Short(v)) => Step::Next(AsmState { counter: v as int, ..s }),
            Err(e) => Step::Stop(s, AsmErrView::HexErr(e)),
        }
    } else if starts_with(w, '$') {
        match spec_parse_hex(w.drop_first()) {
            Ok(ByteOrShort::Byte(b)) => if s.counter + b > usize::MAX {
                Step::Fault
            } else {
                Step::Next(AsmState { counter: s.counter + b, ..s })
            },
            Ok(ByteOrShort::Short(_)) => Step::Fault,
            Err(e) => Step::Stop(s, AsmErrView::HexErr(e)),
        }
    } else {
        spec_do_word_to_bytes(s, w)
    }
}


/// The whitespace that separates words: space, tab, line feed, form feed and
/// carriage return.
pub open spec fn is_ascii_ws(c: char) -> bool {
    c == ' ' || c == '\t' || c == '\n' || c == '\x0C' || c == '\r'
}

/// The words of `s`, after a word `cur` already begun: the maximal runs of
/// characters that are not whitespace, in order.
pub open spec fn words_from(s: Seq<char>, cur: Seq<char>) -> Seq<Seq<char>>
    decreases s.len(),
{
    if s.len() == 0 {
        if cur.len() > 0 {
            seq![cur]
        } else {
            Seq::empty()
        }
    } else if is_ascii_ws(s[0]) {
        if cur.len() > 0 {
            seq![cur] + words_from(s.drop_first(), Seq::empty())
        } else {
            words_from(s.drop_first(), Seq::empty())
        }
    } else {
        words_from(s.drop_first(), cur.push(s[0]))
    }
}

/// The words of the source text `s`.
pub open spec fn words_of(s: Seq<char>) -> Seq<Seq<char>> {
    words_from(s, Seq::empty())
}

/// Reads words one after another, stopping at the first error or fault.
pub open spec fn spec_run_words(s: AsmState, ws: Seq<Seq<char>>) -> Step
    decreases ws.len(),
{
    if ws.len() == 0 {
        Step::Next(s)
    } else {
        match spec_do_word(s, ws[0]) {
            Step::Next(s1) => spec_run_words(s1, ws.drop_first()),
            other => other,
        }
    }
}

pub open spec fn with_bytes(s: AsmState, bytes: Seq<u8>) -> AsmState {
    AsmState { bytes, ..s }
}

/// Fills in the references of label `l` from the `j`th on, in the order in
/// which they were met.
pub open spec fn spec_patch_calls(s: AsmState, l: LabelView, j: int) -> Step
    decreases l.calls.len() - j,
{
    if j < 0 || j >= l.calls.len() {
        Step::Next(s)
    } else {
        let p = l.calls[j].pos as int;
        match l.calls[j].kind {
            LabelKind::Abs => if p + 1 < usize::MAX {
                spec_patch_calls(
                    with_bytes(
                        s,
                        spec_set_byte(spec_set_byte(s.bytes, p, addr_hi(l.addr)), p + 1, addr_lo(l.addr)),
                    ),
                    l,
                    j + 1,
                )
            } else {
                Step::Fault
            },
            LabelKind::Rel => if p < usize::MAX && rel_in_range(l.addr, p) {
                spec_patch_calls(with_bytes(s, spec_set_byte(s.bytes, p, rel_byte(l.addr, p))), l, j + 1)
            } else {
                Step::Fault
            },
            LabelKind::Zpg => if l.addr > 0xff {
                Step::Stop(s, AsmErrView::NotInZpg(l.name))
            } else if p < usize::MAX {
                spec_patch_calls(with_bytes(s, spec_set_byte(s.bytes, p, l.addr as u8)), l, j + 1)
            } else {
                Step::Fault
            },
        }
    }
}

/// Resolves the labels `ls` from the `i`th on: each must be defined, and its
/// references are filled in.
pub open spec fn spec_resolve(s: AsmState, ls: Seq<LabelView>, i: int) -> Step
    decreases ls.len() - i,
{
    if i < 0 || i >= ls.len() {
        Step::Next(s)
    } else if !ls[i].defined {
        Step::Stop(s, AsmErrView::UndefinedSymbol(ls[i].name))
    } else {
        match spec_patch_calls(s, ls[i], 0) {
            Step::Next(s1) => spec_resolve(s1, ls, i + 1),
            other => other,
        }
    }
}

/// Assembling: every word of the source in turn, then the labels in the
/// order in which they were first met.
pub open spec fn spec_assemble(s: AsmState) -> Step {
    match spec_run_words(s, words_of(s.code)) {
        Step::Next(s1) => spec_resolve(s1, s1.labels, 0),
        other => other,
    }
}

impl<'a> Default for UxnAssembler<'a> {
    /// A fresh assembler for the empty source.
    fn default() -> (r: UxnAssembler<'a>)
        ensures
            r@ == initial_state(Seq::empty()),
    {
        let r = UxnAssembler::new("");
        proof {
            reveal_strlit("");
            assert(r@.code =~= Seq::<char>::empty());
        }
        r
    }
}

/// Whether two strings hold the same characters.
fn str_eq(a: &str, b: &str) -> (r: bool)
    ensures
        r == (a@ == b@),
{
    let n = a.unicode_len();
    if n != b.unicode_len() {
        return false;
    }
    let mut i: usize = 0;
    while i < n
        invariant
            n == a@.len(),
            n == b@.len(),
            i <= n,
            forall|j: int| 0 <= j < i ==> a@[j] == b@[j],
        decreases n - i,
    {
        if a.get_char(i) != b.get_char(i) {
            return false;
        }
        i = i + 1;
    }
    assert(a@ =~= b@);
    true
}

/// The macro table as values.
pub open spec fn macros_view<'a>(ms: Seq<(&'a str, UxnMacro<'a>)>) -> Seq<(Seq<char>, MacroView)> {
    ms.map_values(|m: (&'a str, UxnMacro<'a>)| (m.0@, m.1@))
}

proof fn lemma_macros_update<'a>(ms: Seq<(&'a str, UxnMacro<'a>)>, i: int, m: (&'a str, UxnMacro<'a>))
    requires
        0 <= i < ms.len(),
    ensures
        macros_view(ms.update(i, m)) == macros_view(ms).update(i, (m.0@, m.1@)),
{
}

proof fn lemma_macros_push<'a>(ms: Seq<(&'a str, UxnMacro<'a>)>, m: (&'a str, UxnMacro<'a>))
    ensures
        macros_view(ms.push(m)) == macros_view(ms).push((m.0@, m.1@)),
{
}

/// The label table as values.
spec fn labels_view(ls: Seq<Label>) -> Seq<LabelView> {
    ls.map_values(|l: Label| l@)
}

proof fn lemma_labels_update(ls: Seq<Label>, i: int, l: Label)
    requires
        0 <= i < ls.len(),
    ensures
        labels_view(ls.update(i, l)) == labels_view(ls).update(i, l@),
{
}

proof fn lemma_labels_push(ls: Seq<Label>, l: Label)
    ensures
        labels_view(ls.push(l)) == labels_view(ls).push(l@),
{
}

impl<'a> UxnAssembler<'a> {
    /// A fresh assembler for `code`.
    pub fn new(code: &'a str) -> (r: UxnAssembler<'a>)
        ensures
            r@ == initial_state(code@),
    {
        let r = UxnAssembler {
            macros: Vec::new(),
            bytes: Vec::new(),
            labels: Vec::new(),
            code,
            last_main_lbl: "",
            in_comment: false,
            in_macro: false,
            cur_macro_name: "",
            cur_macro_buf: Vec::new(),
            counter: 0,
        };
        proof {
            reveal_strlit("");
            assert(r@.macros =~= Seq::empty());
            assert(r@.labels =~= Seq::empty());
            assert(r@.cur_macro_buf =~= Seq::empty());
            assert(r@.cur_macro_name =~= Seq::empty());
        }
        r
    }

    /// The address counter of every assembler lies within `usize`.
    pub proof fn lemma_counter_in_range(&self)
        ensures
            0 <= self@.counter <= usize::MAX,
    {
    }

    /// The number of bytes written so far, counted from address 0.
    pub fn bytes_len(&self) -> (r: usize)
        ensures
            r == self@.bytes.len(),
    {
        self.bytes.len()
    }

    /// The ROM image: everything from address 0x0100 on.
    pub fn output(&self) -> (r: &[u8])
        requires
            self@.bytes.len() >= 0x0100,
        ensures
            r@ == self@.bytes.subrange(0x0100, self@.bytes.len() as int),
    {
        slice_subrange(self.bytes.as_slice(), 0x0100, self.bytes.len())
    }

    /// Writes `v` at `idx`, growing the image with zeros as needed.
    fn set_byte(&mut self, idx: usize, v: u8)
        requires
            idx < usize::MAX,
        ensures
            final(self)@ == with_bytes(old(self)@, spec_set_byte(old(self)@.bytes, idx as int, v)),
    {
        let ghost old_bytes = self.bytes@;
        set_vec(&mut self.bytes, v, idx);
        proof {
            if idx >= old_bytes.len() {
                let d = choose|d: u8| call_ensures(u8::default, (), d) && forall|j: int|
                    old_bytes.len() <= j < idx ==> cloned::<u8>(d, #[trigger] self.bytes@[j]);
            }
            assert(self.bytes@ =~= spec_set_byte(old_bytes, idx as int, v));
        }
    }

    /// Writes `b` at the current address and moves past it.
    fn emit(&mut self, b: u8) -> (r: Result<(), AsmFailure>)
        ensures
            failure_matches(opt_step(spec_emit(old(self)@, b)), final(self)@, r),
    {
        if self.counter == usize::MAX {
            return Err(AsmFailure::Fault);
        }
        self.set_byte(self.counter, b);
        self.counter = self.counter + 1;
        Ok(())
    }
}

impl<'a> UxnAssembler<'a> {
    /// The index of the label named `name`.
    fn find_label(&self, name: &str) -> (r: Option<usize>)
        ensures
            match r {
                Some(i) => find_label(self@.labels, name@) == Some(i as int) && i < self@.labels.len(),
                None => find_label(self@.labels, name@) is None,
            },
    {
        let ghost ls = self@.labels;
        let n = self.labels.len();
        let mut i: usize = 0;
        while i < n
            invariant
                n == self.labels@.len(),
                ls == labels_view(self.labels@),
                i <= n,
                find_label_from(ls, name@, 0) == find_label_from(ls, name@, i as int),
            decreases n - i,
        {
            if str_eq(self.labels[i].name.as_str(), name) {
                return Some(i);
            }
            i = i + 1;
        }
        None
    }

    /// The index of the macro named `name`.
    fn find_macro(&self, name: &str) -> (r: Option<usize>)
        ensures
            match r {
                Some(i) => find_macro(self@.macros, name@) == Some(i as int) && i < self@.macros.len(),
                None => find_macro(self@.macros, name@) is None,
            },
    {
        let ghost ms = self@.macros;
        let n = self.macros.len();
        let mut i: usize = 0;
        while i < n
            invariant
                n == self.macros@.len(),
                ms == self@.macros,
                i <= n,
                find_macro_from(ms, name@, 0) == find_macro_from(ms, name@, i as int),
            decreases n - i,
        {
            if str_eq(self.macros[i].0, name) {
                return Some(i);
            }
            i = i + 1;
        }
        None
    }

    /// Defines label `lbl` at the current address.
    fn add_label(&mut self, lbl: &str)
        ensures
            final(self)@ == spec_add_label(old(self)@, lbl@),
    {
        match self.find_label(lbl) {
            Some(i) => {
                let mut tmp = Label { name: String::new(), defined: false, addr: 0, calls: Vec::new() };
                self.labels.set_and_swap(i, &mut tmp);
                tmp.addr = self.counter;
                tmp.defined = true;
                let ghost mid = self.labels@;
                self.labels.set_and_swap(i, &mut tmp);
                proof {
                    lemma_labels_update(mid, i as int, self.labels@[i as int]);
                }
            },
            None => {
                let ghost before = self.labels@;
                self.labels.push(
                    Label { name: lbl.to_owned(), defined: true, addr: self.counter, calls: Vec::new() },
                );
                proof {
                    lemma_labels_push(before, self.labels@.last());
                }
            },
        }
        proof {
            assert(self@.labels =~= spec_add_label(old(self)@, lbl@).labels);
        }
    }

    /// Records a reference to `lbl` at the current address and moves past the
    /// bytes it takes.
    fn add_label_call(&mut self, lbl: &str, kind: LabelKind)
        requires
            old(self)@.counter + call_width(kind) <= usize::MAX,
        ensures
            final(self)@ == spec_add_label_call(old(self)@, lbl@, kind),
    {
        let is_abs = match kind {
            LabelKind::Abs => true,
            _ => false,
        };
        let call = LabelCall { pos: self.counter, kind };
        if is_abs {
            self.counter = self.counter + 1;
        }
        self.counter = self.counter + 1;
        match self.find_label(lbl) {
            Some(i) => {
                let mut tmp = Label { name: String::new(), defined: false, addr: 0, calls: Vec::new() };
                self.labels.set_and_swap(i, &mut tmp);
                tmp.calls.push(call);
                let ghost mid = self.labels@;
                self.labels.set_and_swap(i, &mut tmp);
                proof {
                    lemma_labels_update(mid, i as int, self.labels@[i as int]);
                }
            },
            None => {
                let ghost before = self.labels@;
                let mut calls = Vec::new();
                calls.push(call);
                self.labels.push(Label { name: lbl.to_owned(), defined: false, addr: 0, calls });
                proof {
                    lemma_labels_push(before, self.labels@.last());
                }
            },
        }
        proof {
            assert(self@.labels =~= spec_add_label_call(old(self)@, lbl@, kind).labels);
        }
    }
}

impl<'a> UxnAssembler<'a> {
    /// Writes the bytes `bs` one after another.
    fn emit_bytes(&mut self, bs: &[u8]) -> (r: Result<(), AsmFailure>)
        ensures
            failure_matches(opt_step(spec_emit_all(old(self)@, bs@)), final(self)@, r),
    {
        let n = bs.len();
        let mut i: usize = 0;
        assert(bs@.skip(0) =~= bs@);
        while i < n
            invariant
                n == bs@.len(),
                i <= n,
                spec_emit_all(old(self)@, bs@) == spec_emit_all(self@, bs@.skip(i as int)),
            decreases n - i,
        {
            assert(bs@.skip(i as int).drop_first() =~= bs@.skip(i + 1));
            match self.emit(bs[i]) {
                Ok(()) => {},
                Err(e) => {
                    return Err(e);
                },
            }
            i = i + 1;
        }
        Ok(())
    }

    /// A reference to `name`, faulting when its bytes would run past the
    /// last address.
    fn label_ref(&mut self, name: &str, kind: LabelKind) -> (r: Result<(), AsmFailure>)
        ensures
            failure_matches(spec_label_ref(old(self)@, name@, kind), final(self)@, r),
    {
        let w: usize = match kind {
            LabelKind::Abs => 2,
            _ => 1,
        };
        if self.counter > usize::MAX - w {
            return Err(AsmFailure::Fault);
        }
        self.add_label_call(name, kind);
        Ok(())
    }

    /// The name that a reference word (without its rune) points to.
    fn ref_name(&self, rest: &str) -> (r: String)
        ensures
            r@ == ref_name(self@.last_main_lbl, rest@),
    {
        let n = rest.unicode_len();
        if n > 0 && rest.get_char(0) == '&' {
            let mut name = self.last_main_lbl.to_owned();
            name.append("/");
            let sub = rest.substring_char(1, n);
            name.append(sub);
            proof {
                reveal_strlit("/");
            }
            name
        } else {
            rest.to_owned()
        }
    }
}

impl<'a> UxnAssembler<'a> {
    /// A word that produces bytes, with `depth` more nested macro calls allowed.
    fn word_to_bytes(&mut self, word: &str, depth: usize) -> (r: Result<(), AsmFailure>)
        ensures
            failure_matches(spec_word_to_bytes(old(self)@, word@, depth as nat), final(self)@, r),
        decreases depth,
    {
        let n = word.unicode_len();
        if n == 0 {
            return Err(AsmFailure::Fault);
        }
        let c = word.get_char(0);
        if c == '#' {
            let rest = word.substring_char(1, n);
            match parse_hex(rest) {
                Ok(ByteOrShort::Byte(b)) => {
                    let bs = vec![0x80u8, b];
                    self.emit_bytes(bs.as_slice())
                },
                Ok(ByteOrShort::Short(v)) => {
                    let bs = vec![0xa0u8, (v / 256) as u8, (v % 256) as u8];
                    self.emit_bytes(bs.as_slice())
                },
                Err(e) => Err(AsmFailure::Error(UxnAssemblerErr::HexErr(e))),
            }
        } else if c == ';' || c == ':' || c == '.' || c == ',' {
            let rest = word.substring_char(1, n);
            let lbl = self.ref_name(rest);
            if c == ':' {
                self.label_ref(lbl.as_str(), LabelKind::Abs)
            } else {
                let (lit, kind) = if c == ';' {
                    (0xa0u8, LabelKind::Abs)
                } else if c == '.' {
                    (0x80u8, LabelKind::Zpg)
                } else {
                    (0x80u8, LabelKind::Rel)
                };
                match self.emit(lit) {
                    Ok(()) => {},
                    Err(e) => {
                        return Err(e);
                    },
                }
                self.label_ref(lbl.as_str(), kind)
            }
        } else if c == '\'' {
            if n >= 2 {
                let c1 = word.get_char(1);
                if (c1 as u32) < 0x80 {
                    self.emit(c1 as u8)
                } else {
                    Err(AsmFailure::Fault)
                }
            } else {
                Err(AsmFailure::Fault)
            }
        } else if c == '"' {
            let rest = word.substring_char(1, n);
            self.emit_bytes(rest.as_bytes())
        } else {
            let hex = parse_hex(word);
            let byte: Option<u8> = match hex {
                Ok(ByteOrShort::Byte(b)) => Some(b),
                _ => None,
            };
            let short: Option<u16> = match hex {
                Ok(ByteOrShort::Short(v)) => Some(v),
                _ => None,
            };
            if let Some(b) = byte {
                return self.emit(b);
            }
            match self.find_macro(word) {
                Some(i) => {
                    if depth == 0 {
                        return Err(AsmFailure::Fault);
                    }
                    let no_args: Vec<&str> = Vec::new();
                    let words = self.macros[i].1.expand(no_args.as_slice());
                    let ghost body = self@.macros[i as int].1.code;
                    let ghost d = (depth - 1) as nat;
                    assert(body.skip(0) =~= body);
                    let mut j: usize = 0;
                    while j < words.len()
                        invariant
                            0 < depth,
                            d == depth - 1,
                            j <= words@.len(),
                            words@.map_values(|s: String| s@) == body,
                            spec_word_to_bytes(old(self)@, word@, depth as nat) == spec_words_to_bytes(old(self)@, body, d),
                            spec_words_to_bytes(old(self)@, body, d) == spec_words_to_bytes(self@, body.skip(j as int), d),
                        decreases words@.len() - j,
                    {
                        assert(body.skip(j as int).drop_first() =~= body.skip(j + 1));
                        match self.word_to_bytes(words[j].as_str(), depth - 1) {
                            Ok(()) => {},
                            Err(e) => {
                                return Err(e);
                            },
                        }
                        j = j + 1;
                    }
                    Ok(())
                },
                None => {
                    let op = if has_three_byte_prefix(word) {
                        match instr::new(word) {
                            Ok(b) => Ok(b),
                            Err(e) => Err(Some(e)),
                        }
                    } else {
                        Err(None)
                    };
                    match op {
                        Ok(b) => self.emit(b),
                        Err(e) => match short {
                            Some(v) => {
                                let bs = vec![(v / 256) as u8, (v % 256) as u8];
                                assert(bs@ =~= raw_short(v));
                                self.emit_bytes(bs.as_slice())
                            },
                            None => match e {
                                Some(e) => Err(AsmFailure::Error(UxnAssemblerErr::InstrErr(e))),
                                None => Err(AsmFailure::Fault),
                            },
                        },
                    }
                },
            }
        }
    }
}

/// Whether `w` starts with the character `c`.
fn starts_with_char(w: &str, c: char) -> (r: bool)
    ensures
        r == starts_with(w@, c),
{
    w.unicode_len() > 0 && w.get_char(0) == c
}

impl<'a> UxnAssembler<'a> {
    /// One word of source, as `spec_do_word` says.
    fn do_word_impl(&mut self, word: &'a str) -> (r: Result<(), AsmFailure>)
        ensures
            failure_matches(spec_do_word(old(self)@, word@), final(self)@, r),
    {
        let n = word.unicode_len();
        if self.in_comment {
            if starts_with_char(word, ')') {
                self.in_comment = false;
            }
            return Ok(());
        }
        if starts_with_char(word, '(') {
            self.in_comment = true;
            return Ok(());
        }
        if self.in_macro {
            let ghost before = self.cur_macro_buf@;
            self.cur_macro_buf.push(word);
            proof {
                lemma_words_view_push(before, word);
            }
            if is_single(word, '}') {
                self.in_macro = false;
                match UxnMacro::new(self.cur_macro_buf.as_slice()) {
                    Ok(mac) => {
                        let name = self.cur_macro_name;
                        let ghost ms = self.macros@;
                        match self.find_macro(name) {
                            Some(i) => {
                                self.macros.set(i, (name, mac));
                                proof {
                                    lemma_macros_update(ms, i as int, (name, mac));
                                }
                            },
                            None => {
                                self.macros.push((name, mac));
                                proof {
                                    lemma_macros_push(ms, (name, mac));
                                }
                            },
                        }
                        return Ok(());
                    },
                    Err(e) => {
                        return Err(AsmFailure::Error(UxnAssemblerErr::MacrErr(e)));
                    },
                }
            }
            return Ok(());
        }
        if starts_with_char(word, '%') {
            self.cur_macro_name = word.substring_char(1, n);
            self.in_macro = true;
            self.cur_macro_buf = Vec::new();
            proof {
                assert(self@.cur_macro_buf =~= Seq::empty());
            }
            return Ok(());
        }
        if starts_with_char(word, '@') {
            self.last_main_lbl = word.substring_char(1, n);
            self.add_label(self.last_main_lbl);
            return Ok(());
        }
        if starts_with_char(word, '&') {
            let sub = word.substring_char(1, n);
            let mut name = self.last_main_lbl.to_owned();
            name.append("/");
            name.append(sub);
            proof {
                reveal_strlit("/");
                assert(name@ =~= self@.last_main_lbl + seq!['/'] + word@.drop_first());
            }
            self.add_label(name.as_str());
            return Ok(());
        }
        if starts_with_char(word, '|') {
            let rest = word.substring_char(1, n);
            match parse_hex(rest) {
                Ok(ByteOrShort::Byte(b)) => {
                    self.counter = b as usize;
                },
                Ok(ByteOrShort::Short(v)) => {
                    self.counter = v as usize;
                },
                Err(e) => {
                    return Err(AsmFailure::Error(UxnAssemblerErr::HexErr(e)));
                },
            }
            return Ok(());
        }
        if starts_with_char(word, '$') {
            let rest = word.substring_char(1, n);
            match parse_hex(rest) {
                Ok(ByteOrShort::Byte(b)) => {
                    if self.counter > usize::MAX - (b as usize) {
                        return Err(AsmFailure::Fault);
                    }
                    self.counter = self.counter + b as usize;
                },
                Ok(ByteOrShort::Short(_)) => {
                    return Err(AsmFailure::Fault);
                },
                Err(e) => {
                    return Err(AsmFailure::Error(UxnAssemblerErr::HexErr(e)));
                },
            }
            return Ok(());
        }
        let depth = self.macros.len();
        self.word_to_bytes(word, depth)
    }

    /// Reads one word of source. The word must not drive the assembler into a
    /// fault (see `AsmFailure`).
    pub fn do_word(&mut self, word: &'a str, line: usize) -> (r: Result<(), UxnAssemblerErr>)
        requires
            !(spec_do_word(old(self)@, word@) is Fault),
        ensures
            error_matches(spec_do_word(old(self)@, word@), final(self)@, r),
    {
        match self.do_word_impl(word) {
            Ok(()) => Ok(()),
            Err(AsmFailure::Error(e)) => Err(e),
            Err(AsmFailure::Fault) => {
                proof {
                    assert(false);
                }
                Ok(())
            },
        }
    }

    /// Assembles one word that produces bytes: a literal, a label reference,
    /// a character or string, raw hex, a macro call or an opcode. The word
    /// must not drive the assembler into a fault (see `AsmFailure`).
    pub fn do_word_to_bytes(&mut self, word: &str, line: usize) -> (r: Result<(), UxnAssemblerErr>)
        requires
            !(spec_do_word_to_bytes(old(self)@, word@) is Fault),
        ensures
            error_matches(spec_do_word_to_bytes(old(self)@, word@), final(self)@, r),
    {
        let depth = self.macros.len();
        match self.word_to_bytes(word, depth) {
            Ok(()) => Ok(()),
            Err(AsmFailure::Error(e)) => Err(e),
            Err(AsmFailure::Fault) => {
                proof {
                    assert(false);
                }
                Ok(())
            },
        }
    }
}

/// The characters of `s`.
fn chars_of(s: &str) -> (r: Vec<char>)
    ensures
        r@ == s@,
{
    broadcast use vstd::string::axiom_spec_iter;
    let mut chars: Vec<char> = Vec::new();
    for ch in it: s.chars()
        invariant
            chars@ == it.history(),
    {
        chars.push(ch);
    }
    chars
}

/// The offset byte of a relative reference, computed from the low bytes.
fn rel_offset(addr: usize, pos: usize) -> (r: u8)
    ensures
        r == rel_byte(addr as int, pos as int),
{
    let a = addr % 256;
    let p = pos % 256;
    ((a + 510 - p) % 256) as u8
}

/// Whether the true offset of a relative reference, `addr - pos - 2`, stays
/// in the signed byte range.
fn rel_fits(addr: usize, pos: usize) -> (r: bool)
    ensures
        r == rel_in_range(addr as int, pos as int),
{
    if addr >= pos {
        addr - pos <= 129
    } else {
        pos - addr <= 126
    }
}

impl<'a> UxnAssembler<'a> {
    /// Fills in the references of every label, in the order in which the
    /// labels were first met.
    fn resolve(&mut self) -> (r: Result<(), AsmFailure>)
        ensures
            failure_matches(spec_resolve(old(self)@, old(self)@.labels, 0), final(self)@, r),
    {
        let ghost ls = self@.labels;
        let nl = self.labels.len();
        let mut i: usize = 0;
        while i < nl
            invariant
                nl == ls.len(),
                ls == self@.labels,
                ls == old(self)@.labels,
                i <= nl,
                spec_resolve(old(self)@, ls, 0) == spec_resolve(self@, ls, i as int),
            decreases nl - i,
        {
            let ghost l = ls[i as int];
            if !self.labels[i].defined {
                return Err(AsmFailure::Error(UxnAssemblerErr::UndefinedSymbol(self.labels[i].name.clone())));
            }
            let addr = self.labels[i].addr;
            let nc = self.labels[i].calls.len();
            let ghost s_i = self@;
            let mut j: usize = 0;
            while j < nc
                invariant
                    nl == ls.len(),
                    i < nl,
                    ls == self@.labels,
                    ls == old(self)@.labels,
                    l == ls[i as int],
                    nc == l.calls.len(),
                    addr == l.addr,
                    j <= nc,
                    spec_resolve(old(self)@, ls, 0) == spec_resolve(s_i, ls, i as int),
                    l.defined,
                    spec_resolve(s_i, ls, i as int) == match spec_patch_calls(s_i, l, 0) {
                        Step::Next(s1) => spec_resolve(s1, ls, i + 1),
                        other => other,
                    },
                    spec_patch_calls(s_i, l, 0) == spec_patch_calls(self@, l, j as int),
                decreases nc - j,
            {
                let c = self.labels[i].calls[j];
                match c.kind {
                    LabelKind::Abs => {
                        if c.pos >= usize::MAX - 1 {
                            return Err(AsmFailure::Fault);
                        }
                        self.set_byte(c.pos, ((addr / 256) % 256) as u8);
                        self.set_byte(c.pos + 1, (addr % 256) as u8);
                    },
                    LabelKind::Rel => {
                        if c.pos == usize::MAX || !rel_fits(addr, c.pos) {
                            return Err(AsmFailure::Fault);
                        }
                        self.set_byte(c.pos, rel_offset(addr, c.pos));
                    },
                    LabelKind::Zpg => {
                        if addr > 0xff {
                            return Err(AsmFailure::Error(UxnAssemblerErr::NotInZpg(self.labels[i].name.clone())));
                        }
                        if c.pos == usize::MAX {
                            return Err(AsmFailure::Fault);
                        }
                        self.set_byte(c.pos, addr as u8);
                    },
                }
                j = j + 1;
            }
            i = i + 1;
        }
        Ok(())
    }
}

impl<'a> UxnAssembler<'a> {
    /// Reads every word of the source, then resolves the labels.
    fn assemble_impl(&mut self) -> (r: Result<(), AsmFailure>)
        ensures
            failure_matches(spec_assemble(old(self)@), final(self)@, r),
    {
        let code: &'a str = self.code;
        let chars = chars_of(code);
        let n = chars.len();
        let ghost text = code@;
        let mut start: usize = 0;
        let mut i: usize = 0;
        assert(text.skip(0) =~= text);
        assert(text.subrange(0, 0) =~= Seq::<char>::empty());
        while i < n
            invariant
                n == text.len(),
                chars@ == text,
                code@ == text,
                text == old(self)@.code,
                start <= i <= n,
                spec_run_words(old(self)@, words_of(text)) == spec_run_words(
                    self@,
                    words_from(text.skip(i as int), text.subrange(start as int, i as int)),
                ),
            decreases n - i,
        {
            let c = chars[i];
            let ghost cur = text.subrange(start as int, i as int);
            assert(text.skip(i as int).drop_first() =~= text.skip(i + 1));
            if c == ' ' || c == '\t' || c == '\n' || c == '\x0C' || c == '\r' {
                let ghost rest = words_from(text.skip(i + 1), Seq::empty());
                if start < i {
                    let w = code.substring_char(start, i);
                    assert((seq![cur] + rest).drop_first() =~= rest);
                    match self.do_word_impl(w) {
                        Ok(()) => {},
                        Err(e) => {
                            return Err(e);
                        },
                    }
                }
                start = i + 1;
                assert(text.subrange(start as int, i + 1) =~= Seq::<char>::empty());
            } else {
                assert(cur.push(c) =~= text.subrange(start as int, i + 1));
            }
            i = i + 1;
        }
        if start < n {
            let w = code.substring_char(start, n);
            let ghost cur = text.subrange(start as int, n as int);
            assert(seq![w@].drop_first() =~= Seq::<Seq<char>>::empty());
            assert(spec_run_words(self@, seq![cur]) == match spec_do_word(self@, cur) {
                Step::Next(s1) => spec_run_words(s1, Seq::<Seq<char>>::empty()),
                other => other,
            });
            match self.do_word_impl(w) {
                Ok(()) => {},
                Err(e) => {
                    return Err(e);
                },
            }
        }
        self.resolve()
    }

    /// Assembles the whole source: every word in turn, then every label
    /// reference filled in. The source must not drive the assembler into a
    /// fault (see `AsmFailure`).
    pub fn assemble(&mut self) -> (r: Result<(), UxnAssemblerErr>)
        requires
            !(spec_assemble(old(self)@) is Fault),
        ensures
            error_matches(spec_assemble(old(self)@), final(self)@, r),
    {
        match self.assemble_impl() {
            Ok(()) => Ok(()),
            Err(AsmFailure::Error(e)) => Err(e),
            Err(AsmFailure::Fault) => {
                proof {
                    assert(false);
                }
                Ok(())
            },
        }
    }

    /// Assembles the whole source, reporting a fault rather than requiring
    /// that there is none.
    pub fn try_assemble(&mut self) -> (r: Result<(), AsmFailure>)
        ensures
            failure_matches(spec_assemble(old(self)@), final(self)@, r),
    {
        self.assemble_impl()
    }
}

} // verus!
