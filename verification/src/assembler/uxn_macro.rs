//! Macro definitions: `%name [ args ] { body }`.

use vstd::prelude::*;

verus! {

/// A macro: its argument names and the words of its body.
#[derive(Debug)]
pub struct UxnMacro<'a> {
    args: Vec<&'a str>,
    code: Vec<&'a str>,
    times_used: usize,
}

/// Why a macro definition was refused.
#[derive(Debug, Clone, Copy, PartialEq, Eq)]
pub enum UxnMacroErr {
    NoArgEndDelim,
    NoBody,
}

/// A macro as sequences of words, each word a character sequence, with the
/// count of its uses.
pub struct MacroView {
    pub args: Seq<Seq<char>>,
    pub code: Seq<Seq<char>>,
    pub times_used: nat,
}

/// The text of each word of a sequence of words.
pub open spec fn words_view(ws: Seq<&str>) -> Seq<Seq<char>> {
    ws.map_values(|w: &str| w@)
}

impl<'a> View for UxnMacro<'a> {
    type V = MacroView;

    closed spec fn view(&self) -> MacroView {
        MacroView {
            args: words_view(self.args@),
            code: words_view(self.code@),
            times_used: self.times_used as nat,
        }
    }
}

pub proof fn lemma_words_view_push(ws: Seq<&str>, w: &str)
    ensures
        words_view(ws.push(w)) == words_view(ws).push(w@),
{
}

proof fn lemma_strings_view_push(ws: Seq<String>, w: String)
    ensures
        ws.push(w).map_values(|s: String| s@) == ws.map_values(|s: String| s@).push(w@),
{
}

/// The one-character word `c`.
pub open spec fn single(c: char) -> Seq<char> {
    seq![c]
}

/// The first index at or after `i` that holds `]` or `}`, or the length of
/// `mac` when there is none.
pub open spec fn find_arg_end(mac: Seq<Seq<char>>, i: int) -> int
    decreases mac.len() - i,
{
    if i < 0 || i >= mac.len() {
        mac.len() as int
    } else if mac[i] == single(']') || mac[i] == single('}') {
        i
    } else {
        find_arg_end(mac, i + 1)
    }
}

/// The first index at or after `i` that holds `}`, or the length of `mac`.
pub open spec fn find_close(mac: Seq<Seq<char>>, i: int) -> int
    decreases mac.len() - i,
{
    if i < 0 || i >= mac.len() {
        mac.len() as int
    } else if mac[i] == single('}') {
        i
    } else {
        find_close(mac, i + 1)
    }
}

/// A definition that ends in `}` has the form `[ args ] { body }` or
/// `{ body }`: the arguments run from `[` to the first `]` (a `}` met first
/// is an error), and the body from the `{` that must follow to the first `}`.
pub open spec fn spec_macro_new(mac: Seq<Seq<char>>) -> Result<MacroView, UxnMacroErr> {
    let has_args = mac.len() > 0 && mac[0] == single('[');
    let j = find_arg_end(mac, 1);
    if has_args && mac[j] == single('}') {
        Err(UxnMacroErr::NoArgEndDelim)
    } else {
        let args = if has_args { mac.subrange(1, j) } else { Seq::empty() };
        let idx = if has_args { j + 1 } else { 0 };
        if mac[idx] == single('{') {
            Ok(MacroView { args, code: mac.subrange(idx + 1, find_close(mac, idx + 1)), times_used: 0 })
        } else {
            Err(UxnMacroErr::NoBody)
        }
    }
}

/// No word of `ws` is the one-character word `c`.
pub open spec fn lacks(ws: Seq<Seq<char>>, c: char) -> bool {
    forall|i: int| 0 <= i < ws.len() ==> ws[i] != single(c)
}

proof fn lemma_find_close(mac: Seq<Seq<char>>, i: int, k: int)
    requires
        0 <= i <= k < mac.len(),
        mac[k] == single('}'),
        forall|j: int| i <= j < k ==> mac[j] != single('}'),
    ensures
        find_close(mac, i) == k,
    decreases k - i,
{
    if i < k {
        lemma_find_close(mac, i + 1, k);
    }
}

proof fn lemma_find_arg_end(mac: Seq<Seq<char>>, i: int, k: int)
    requires
        0 <= i <= k < mac.len(),
        mac[k] == single(']'),
        forall|j: int| i <= j < k ==> mac[j] != single('}') && mac[j] != single(']'),
    ensures
        find_arg_end(mac, i) == k,
    decreases k - i,
{
    if i < k {
        lemma_find_arg_end(mac, i + 1, k);
    }
}

/// A definition `{ body }` whose body holds no `}` reads back with no
/// arguments and exactly that body.
pub proof fn lemma_macro_body_only(body: Seq<Seq<char>>)
    requires
        lacks(body, '}'),
    ensures
        spec_macro_new(seq![single('{')] + body + seq![single('}')])
            == Ok::<MacroView, UxnMacroErr>(MacroView { args: Seq::empty(), code: body, times_used: 0 }),
{
    let mac = seq![single('{')] + body + seq![single('}')];
    let k = body.len() + 1int;
    assert(single('{')[0] != single('[')[0]);
    assert(forall|j: int| 1 <= j < k ==> mac[j] != single('}'));
    lemma_find_close(mac, 1, k);
    assert(mac.subrange(1, k) =~= body);
}

/// A definition `[ args ] { body }` whose arguments hold no `]` or `}` and
/// whose body holds no `}` reads back with exactly those arguments and body.
pub proof fn lemma_macro_with_args(args: Seq<Seq<char>>, body: Seq<Seq<char>>)
    requires
        lacks(args, ']'),
        lacks(args, '}'),
        lacks(body, '}'),
    ensures
        spec_macro_new(
            seq![single('[')] + args + seq![single(']'), single('{')] + body + seq![single('}')],
        ) == Ok::<MacroView, UxnMacroErr>(MacroView { args, code: body, times_used: 0 }),
{
    let mac = seq![single('[')] + args + seq![single(']'), single('{')] + body + seq![single('}')];
    let j = args.len() + 1int;
    let k = args.len() + 3 + body.len() as int;
    assert(single(']')[0] != single('}')[0]);
    assert(forall|x: int| 1 <= x < j ==> mac[x] != single('}') && mac[x] != single(']'));
    lemma_find_arg_end(mac, 1, j);
    assert(forall|x: int| j + 2 <= x < k ==> mac[x] != single('}'));
    lemma_find_close(mac, j + 2, k);
    assert(mac.subrange(1, j) =~= args);
    assert(mac.subrange(j + 2, k) =~= body);
}

/// A definition as the assembler collects it: at least one word, the last `}`.
pub open spec fn ends_in_close(mac: Seq<Seq<char>>) -> bool {
    mac.len() > 0 && mac.last() == single('}')
}

pub open spec fn macro_new_view(r: Result<UxnMacro, UxnMacroErr>) -> Result<MacroView, UxnMacroErr> {
    match r {
        Ok(m) => Ok(m@),
        Err(e) => Err(e),
    }
}

/// Whether `w` is the one-character word `c`.
pub(crate) fn is_single(w: &str, c: char) -> (r: bool)
    ensures
        r == (w@ == single(c)),
{
    if w.unicode_len() == 1 && w.get_char(0) == c {
        assert(w@ =~= single(c));
        true
    } else {
        false
    }
}

impl<'a> UxnMacro<'a> {
    /// Reads a macro definition: `[ arg1 arg2 ] { ins ins }` or `{ ins ins }`,
    /// always ending in `}`.
    pub fn new(mac: &[&'a str]) -> (r: Result<UxnMacro<'a>, UxnMacroErr>)
        requires
            ends_in_close(words_view(mac@)),
        ensures
            macro_new_view(r) == spec_macro_new(words_view(mac@)),
    {
        let ghost m = words_view(mac@);
        let n = mac.len();
        let mut args: Vec<&'a str> = Vec::new();
        let mut code: Vec<&'a str> = Vec::new();
        let mut idx: usize = 0;
        if is_single(mac[idx], '[') {
            assert(m[0][0] != m[n - 1][0]);
            idx = 1;
            while !is_single(mac[idx], ']')
                invariant
                    n == mac@.len(),
                    m == words_view(mac@),
                    m[n - 1] == single('}'),
                    1 <= idx < n,
                    m[0] == single('['),
                    find_arg_end(m, 1) == find_arg_end(m, idx as int),
                    words_view(args@) == m.subrange(1, idx as int),
                decreases n - idx,
            {
                if is_single(mac[idx], '}') {
                    return Err(UxnMacroErr::NoArgEndDelim);
                }
                let ghost before = args@;
                args.push(mac[idx]);
                proof {
                    lemma_words_view_push(before, mac@[idx as int]);
                }
                idx = idx + 1;
            }
            idx = idx + 1;
        } else {
            assert(words_view(args@) =~= Seq::<Seq<char>>::empty());
        }
        if is_single(mac[idx], '{') {
            assert(m[idx as int][0] != m[n - 1][0]);
            idx = idx + 1;
            let start = idx;
            while !is_single(mac[idx], '}')
                invariant
                    n == mac@.len(),
                    m == words_view(mac@),
                    m[n - 1] == single('}'),
                    start <= idx < n,
                    find_close(m, start as int) == find_close(m, idx as int),
                    words_view(code@) == m.subrange(start as int, idx as int),
                decreases n - idx,
            {
                let ghost before = code@;
                code.push(mac[idx]);
                proof {
                    lemma_words_view_push(before, mac@[idx as int]);
                }
                idx = idx + 1;
            }
            Ok(UxnMacro { args, code, times_used: 0 })
        } else {
            Err(UxnMacroErr::NoBody)
        }
    }

    /// The words of the macro's body, as owned strings. The call's arguments
    /// are not substituted.
    pub fn expand(&self, call: &[&str]) -> (r: Vec<String>)
        ensures
            r@.map_values(|s: String| s@) == self@.code,
    {
        let mut ret: Vec<String> = Vec::new();
        let mut i: usize = 0;
        while i < self.code.len()
            invariant
                i <= self.code@.len(),
                ret@.map_values(|s: String| s@) == words_view(self.code@).subrange(0, i as int),
            decreases self.code@.len() - i,
        {
            let ghost before = ret@;
            let w = self.code[i].to_owned();
            ret.push(w);
            proof {
                lemma_strings_view_push(before, w);
            }
            i = i + 1;
        }
        ret
    }
}

} // verus!
