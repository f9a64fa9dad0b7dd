//! What reading a document means: a state machine over the lines of the text,
//! with the state that the reader keeps (open containers, pending key, a string
//! that goes over lines) and the error each bad line gives.

use vstd::prelude::*;

use crate::text::{
    all_digits, all_ws, digits_value, find_char, find_sep, is_digit, is_ws, trim_start,
};
use crate::Value;

verus! {

// ---------------------------------------------------------------------------
// The reading of a document, as a state machine over its lines.
// ---------------------------------------------------------------------------
/// A container under construction.
pub enum SBuild {
    Obj(Seq<(Seq<char>, Value)>),
    Arr(Seq<Value>),
}

/// An open container and the key it will be stored under in its parent
/// (`None` for the top-level container).
pub struct SFrame {
    pub build: SBuild,
    pub key: Option<Seq<char>>,
}

/// Reader state: the open containers (innermost last), the key of the object
/// entry being read, the text of a string that spans lines, and whether such a
/// string is being read.
pub struct PState {
    pub stack: Seq<SFrame>,
    pub key: Seq<char>,
    pub strbuf: Seq<char>,
    pub in_string: bool,
}

/// The state before the first line.
pub open spec fn init_state() -> PState {
    PState { stack: Seq::empty(), key: Seq::empty(), strbuf: Seq::empty(), in_string: false }
}

/// The value of a finished container.
pub open spec fn frame_value(f: SFrame) -> Value {
    match f.build {
        SBuild::Obj(cs) => Value::Object(cs),
        SBuild::Arr(xs) => Value::Array(xs),
    }
}

/// Whether the innermost open container is an object.
pub open spec fn top_is_obj(st: PState) -> bool {
    st.stack.len() > 0 && st.stack.last().build is Obj
}

/// Adds `v` to the innermost open container: under the pending key (which is
/// then cleared) in an object, at the end of an array. At the top level nothing
/// changes.
pub open spec fn push_child(st: PState, v: Value) -> PState {
    if st.stack.len() == 0 {
        st
    } else {
        let top = st.stack.last();
        let i = st.stack.len() - 1;
        match top.build {
            SBuild::Obj(cs) => PState {
                stack: st.stack.update(
                    i,
                    SFrame { build: SBuild::Obj(cs.push((st.key, v))), key: top.key },
                ),
                key: Seq::empty(),
                strbuf: st.strbuf,
                in_string: st.in_string,
            },
            SBuild::Arr(xs) => PState {
                stack: st.stack.update(i, SFrame { build: SBuild::Arr(xs.push(v)), key: top.key }),
                key: st.key,
                strbuf: st.strbuf,
                in_string: st.in_string,
            },
        }
    }
}

/// Opens a container (an object when `is_obj`). A nested container takes the
/// pending key with it.
pub open spec fn open_frame(st: PState, is_obj: bool) -> PState {
    let build = if is_obj {
        SBuild::Obj(Seq::empty())
    } else {
        SBuild::Arr(Seq::empty())
    };
    if st.stack.len() == 0 {
        PState {
            stack: st.stack.push(SFrame { build, key: None }),
            key: st.key,
            strbuf: st.strbuf,
            in_string: st.in_string,
        }
    } else {
        PState {
            stack: st.stack.push(SFrame { build, key: Some(st.key) }),
            key: Seq::empty(),
            strbuf: st.strbuf,
            in_string: st.in_string,
        }
    }
}

/// Closes the innermost container and adds it to its parent under the key it
/// was opened with.
pub open spec fn pop_one(st: PState) -> PState {
    let f = st.stack.last();
    let key = match f.key {
        Some(k) => k,
        None => Seq::empty(),
    };
    push_child(
        PState { stack: st.stack.drop_last(), key, strbuf: st.strbuf, in_string: st.in_string },
        frame_value(f),
    )
}

/// Closes `m` containers (fewer if fewer are open).
pub open spec fn pop_n(st: PState, m: nat) -> PState
    decreases m,
{
    if m == 0 || st.stack.len() == 0 {
        st
    } else {
        pop_n(pop_one(st), (m - 1) as nat)
    }
}

/// Closes `n` containers, but never the top-level one.
pub open spec fn pop_layers(st: PState, n: nat) -> PState {
    let limit: nat = if st.stack.len() == 0 {
        0
    } else {
        (st.stack.len() - 1) as nat
    };
    pop_n(
        st,
        if n <= limit {
            n
        } else {
            limit
        },
    )
}

// ---------------------------------------------------------------------------
// Error messages
// ---------------------------------------------------------------------------
pub open spec fn msg_empty_line() -> Seq<char> {
    "empty line not allowed in message body"@
}

pub open spec fn msg_unclosed() -> Seq<char> {
    "unclosed string at end of input"@
}

pub open spec fn msg_empty_input() -> Seq<char> {
    "empty input"@
}

pub open spec fn msg_empty_value() -> Seq<char> {
    "empty value"@
}

pub open spec fn msg_root_multiline() -> Seq<char> {
    "multi-line strings not supported at root"@
}

pub open spec fn msg_object_line(rest: Seq<char>) -> Seq<char> {
    "object line must be 'key: value': '"@ + rest + "'"@
}

pub open spec fn msg_invalid_key(key: Seq<char>) -> Seq<char> {
    "invalid key: '"@ + key + "'"@
}

pub open spec fn msg_bare(s: Seq<char>) -> Seq<char> {
    "bare string must be quoted: '"@ + s + "'"@
}

pub open spec fn msg_extra(t: Seq<char>) -> Seq<char> {
    "extra after closing quote: '"@ + t + "'"@
}

pub open spec fn msg_pop_range(t: Seq<char>) -> Seq<char> {
    "pop count out of range: '"@ + t + "'"@
}

pub open spec fn msg_root_scalar(line: Seq<char>) -> Seq<char> {
    "top-level value must be an object or array: '"@ + line + "'"@
}

// ---------------------------------------------------------------------------
// Pieces of a line
// ---------------------------------------------------------------------------
/// `[` or `{`.
pub open spec fn is_open_bracket(c: char) -> bool {
    c == '[' || c == '{'
}

/// A key: not empty, and none of `:"{[#`, space, tab, line feed or carriage
/// return.
pub open spec fn key_char_ok(c: char) -> bool {
    !(c == ':' || c == '"' || c == '{' || c == '[' || c == '#' || c == ' ' || c == '\t' || c
        == '\n' || c == '\r')
}

pub open spec fn key_valid(key: Seq<char>) -> bool {
    key.len() > 0 && forall|i: int| 0 <= i < key.len() ==> key_char_ok(#[trigger] key[i])
}

/// A pop count as written: its value, or 0 when it does not fit in `usize`.
pub open spec fn pop_count(d: Seq<char>) -> nat {
    if digits_value(d) <= usize::MAX {
        digits_value(d)
    } else {
        0
    }
}

/// A value text that ends in a pop suffix (a space and one or more digits)
/// splits into the value and the count; any other text is the value alone.
/// Such a split is unique, as the digits hold no space.
pub open spec fn has_pop_suffix(s: Seq<char>, i: int) -> bool {
    &&& 0 <= i
    &&& i + 1 < s.len()
    &&& s[i] == ' '
    &&& all_digits(s.skip(i + 1))
}

pub open spec fn trim_pop_suffix(s: Seq<char>) -> (Seq<char>, nat) {
    if exists|i: int| has_pop_suffix(s, i) {
        let i = choose|i: int| has_pop_suffix(s, i);
        (s.take(i), pop_count(s.skip(i + 1)))
    } else {
        (s, 0)
    }
}

/// What follows a closing quote: nothing (no pops), or a space and a count.
pub open spec fn pop_after(t: Seq<char>) -> Result<nat, Seq<char>> {
    if t.len() == 0 {
        Ok(0)
    } else if t[0] == ' ' && t.len() >= 2 && all_digits(t.skip(1)) {
        if digits_value(t.skip(1)) <= usize::MAX {
            Ok(digits_value(t.skip(1)))
        } else {
            Err(msg_pop_range(t))
        }
    } else {
        Err(msg_extra(t))
    }
}

/// Reads string content up to its closing quote: `""` stands for one `"`. The
/// result is the characters read and, when a closing quote was found, the text
/// after it.
pub open spec fn scan_quoted(c: Seq<char>) -> (Seq<char>, Option<Seq<char>>)
    decreases c.len(),
{
    if c.len() == 0 {
        (Seq::empty(), None)
    } else if c[0] == '"' {
        if c.len() > 1 && c[1] == '"' {
            let r = scan_quoted(c.skip(2));
            (seq!['"'] + r.0, r.1)
        } else {
            (Seq::empty(), Some(c.skip(1)))
        }
    } else {
        let r = scan_quoted(c.skip(1));
        (seq![c[0]] + r.0, r.1)
    }
}

// ---------------------------------------------------------------------------
// Numbers
// ---------------------------------------------------------------------------
/// The number of leading decimal digits of `s`.
pub open spec fn digit_run(s: Seq<char>) -> nat
    decreases s.len(),
{
    if s.len() > 0 && is_digit(s[0]) {
        1 + digit_run(s.skip(1))
    } else {
        0
    }
}

/// An exponent's digits after `e`/`E`: an optional sign and one or more digits.
pub open spec fn exponent_ok(e: Seq<char>) -> bool {
    let d = if e.len() > 0 && (e[0] == '+' || e[0] == '-') {
        e.skip(1)
    } else {
        e
    };
    d.len() > 0 && all_digits(d)
}

/// The decimal floating-point syntax that `f64::from_str` accepts, for texts
/// that begin with an optional `-` and a digit: digits, optionally a `.` and
/// more digits, optionally an exponent.
pub open spec fn float_syntax(s: Seq<char>) -> bool {
    let b = if s.len() > 0 && s[0] == '-' {
        s.skip(1)
    } else {
        s
    };
    let m = digit_run(b);
    let r = b.skip(m as int);
    let r2 = if r.len() > 0 && r[0] == '.' {
        r.skip(1).skip(digit_run(r.skip(1)) as int)
    } else {
        r
    };
    &&& m >= 1
    &&& (r2.len() == 0 || ((r2[0] == 'e' || r2[0] == 'E') && exponent_ok(r2.skip(1))))
}

/// Whether `s` holds `.`, `e` or `E`.
pub open spec fn has_float_mark(s: Seq<char>) -> bool {
    exists|i: int| 0 <= i < s.len() && (s[i] == '.' || s[i] == 'e' || s[i] == 'E')
}

/// The `i64` that is congruent to `x` modulo 2^64.
pub open spec fn wrap_i64(x: int) -> i64 {
    let m = x % 0x1_0000_0000_0000_0000int;
    if m > i64::MAX {
        (m - 0x1_0000_0000_0000_0000int) as i64
    } else {
        m as i64
    }
}

/// A number: an optional `-`, then a digit; with `.`, `e` or `E` it is a float
/// (kept as its text) when the float syntax holds; otherwise it must be all
/// digits, and its value wraps modulo 2^64.
pub open spec fn number_value(s: Seq<char>) -> Option<Value> {
    let neg = s.len() > 0 && s[0] == '-';
    let body = if neg {
        s.skip(1)
    } else {
        s
    };
    if body.len() == 0 || !is_digit(body[0]) {
        None
    } else if has_float_mark(body) {
        if float_syntax(s) {
            Some(Value::Float(s))
        } else {
            None
        }
    } else if all_digits(body) {
        Some(
            Value::Int(
                wrap_i64(
                    if neg {
                        -digits_value(body)
                    } else {
                        digits_value(body) as int
                    },
                ),
            ),
        )
    } else {
        None
    }
}

// ---------------------------------------------------------------------------
// Values in a line
// ---------------------------------------------------------------------------
/// A string value after its opening quote, inside a container: closed (with
/// only white space after it) or going on over the next lines (`Ok(None)`).
pub open spec fn quoted_value(content: Seq<char>) -> Result<Option<Value>, Seq<char>> {
    let r = scan_quoted(content);
    match r.1 {
        Some(t) => if all_ws(t) {
            Ok(Some(Value::Str(r.0)))
        } else {
            Err(msg_extra(t))
        },
        None => Ok(None),
    }
}

/// A string value after its opening quote, at the top level, where it must
/// close on its line.
pub open spec fn quoted_root(content: Seq<char>) -> Result<Value, Seq<char>> {
    let r = scan_quoted(content);
    match r.1 {
        Some(t) => if all_ws(t) {
            Ok(Value::Str(r.0))
        } else {
            Err(msg_extra(t))
        },
        None => Err(msg_root_multiline()),
    }
}

/// A leaf value inside a container. `Ok(None)` means a string that goes on
/// over the next lines.
pub open spec fn scalar_value(s: Seq<char>) -> Result<Option<Value>, Seq<char>> {
    if s.len() == 0 {
        Err(msg_empty_value())
    } else if s[0] == '"' {
        quoted_value(s.skip(1))
    } else if s == seq!['t', 'r', 'u', 'e'] {
        Ok(Some(Value::Bool(true)))
    } else if s == seq!['f', 'a', 'l', 's', 'e'] {
        Ok(Some(Value::Bool(false)))
    } else if s == seq!['n', 'u', 'l', 'l'] {
        Ok(Some(Value::Null))
    } else {
        match number_value(s) {
            Some(v) => Ok(Some(v)),
            None => Err(msg_bare(s)),
        }
    }
}

/// A leaf value at the top level.
pub open spec fn scalar_root(s: Seq<char>) -> Result<Value, Seq<char>> {
    if s.len() == 0 {
        Err(msg_empty_value())
    } else if s[0] == '"' {
        quoted_root(s.skip(1))
    } else if s == seq!['t', 'r', 'u', 'e'] {
        Ok(Value::Bool(true))
    } else if s == seq!['f', 'a', 'l', 's', 'e'] {
        Ok(Value::Bool(false))
    } else if s == seq!['n', 'u', 'l', 'l'] {
        Ok(Value::Null)
    } else {
        match number_value(s) {
            Some(v) => Ok(v),
            None => Err(msg_bare(s)),
        }
    }
}

/// The state while a string goes on over lines, with `buf` read so far.
pub open spec fn in_string_state(st: PState, buf: Seq<char>) -> PState {
    PState { stack: st.stack, key: st.key, strbuf: buf, in_string: true }
}

/// The state with `key` pending.
pub open spec fn with_key(st: PState, key: Seq<char>) -> PState {
    PState { stack: st.stack, key, strbuf: st.strbuf, in_string: st.in_string }
}

/// A value text as written after a key or as an array element: a text not
/// starting with a bracket may end in a pop suffix.
pub open spec fn value_split(s: Seq<char>) -> (Seq<char>, nat) {
    if s.len() > 0 && !is_open_bracket(s[0]) {
        trim_pop_suffix(s)
    } else {
        (s, 0)
    }
}

/// Reads a leaf value and its pops.
pub open spec fn value_line(st: PState, s: Seq<char>) -> Result<PState, Seq<char>> {
    let (val, n) = value_split(s);
    match scalar_value(val) {
        Err(e) => Err(e),
        Ok(Some(v)) => Ok(pop_layers(push_child(st, v), n)),
        Ok(None) => Ok(in_string_state(st, val.skip(1).push('\n'))),
    }
}

/// Reads `key: value` in an object.
pub open spec fn object_line(st: PState, rest: Seq<char>) -> Result<PState, Seq<char>> {
    match find_sep(rest) {
        None => Err(msg_object_line(rest)),
        Some(sep) => {
            let key = rest.take(sep);
            if !key_valid(key) {
                Err(msg_invalid_key(key))
            } else {
                let val_part = rest.skip(sep + 2);
                let st1 = with_key(st, key);
                if val_part == seq!['{'] {
                    Ok(open_frame(st1, true))
                } else if val_part == seq!['['] {
                    Ok(open_frame(st1, false))
                } else {
                    value_line(st1, val_part)
                }
            }
        },
    }
}

/// A line of brackets that opens several containers at once: a bracket
/// followed (after white space) by another. At the top level it must start
/// with `[`.
pub open spec fn inline_start(line: Seq<char>, at_root: bool) -> bool {
    &&& line.len() > 1
    &&& if at_root {
        line[0] == '['
    } else {
        is_open_bracket(line[0])
    }
    &&& trim_start(line.skip(1)).len() > 0
    &&& is_open_bracket(trim_start(line.skip(1))[0])
}

/// Opens one container per non-white-space character: an object for `{`, an
/// array for anything else.
pub open spec fn open_inline(st: PState, s: Seq<char>) -> PState
    decreases s.len(),
{
    if s.len() == 0 {
        st
    } else {
        open_inline(
            if is_ws(s[0]) {
                st
            } else {
                open_frame(st, s[0] == '{')
            },
            s.skip(1),
        )
    }
}

/// The number of leading decimal digits, as a prefix pop: `N rest` closes `N`
/// containers and then reads `rest`. In an object any line may start so (a key
/// holds no space); in an array only a line whose `rest` starts with a bracket
/// (`N value` there is a value and its pops).
pub open spec fn prefix_pop(line: Seq<char>, in_obj: bool) -> Option<(nat, Seq<char>)> {
    let k = digit_run(line) as int;
    if k > 0 && k < line.len() && line[k] == ' ' && (in_obj || (k + 1 < line.len()
        && is_open_bracket(line[k + 1]))) {
        Some((pop_count(line.take(k)), line.skip(k + 1)))
    } else {
        None
    }
}

/// A line inside a container.
pub open spec fn body_line(st: PState, line: Seq<char>) -> Result<PState, Seq<char>> {
    let in_obj = top_is_obj(st);
    if !in_obj && inline_start(line, false) {
        Ok(open_inline(st, line))
    } else if line == seq!['{'] {
        Ok(open_frame(st, true))
    } else if line == seq!['['] {
        Ok(open_frame(st, false))
    } else if in_obj {
        object_line(st, line)
    } else {
        value_line(st, line)
    }
}

/// A line at the top level: the document must open a container.
pub open spec fn root_line(st: PState, line: Seq<char>) -> Result<PState, Seq<char>> {
    if inline_start(line, true) {
        Ok(open_inline(st, line))
    } else if line == seq!['{'] {
        Ok(open_frame(st, true))
    } else if line == seq!['['] {
        Ok(open_frame(st, false))
    } else {
        match scalar_root(line) {
            Err(e) => Err(e),
            Ok(_) => Err(msg_root_scalar(line)),
        }
    }
}

/// A line of a string that spans lines.
pub open spec fn string_line(st: PState, line: Seq<char>) -> Result<PState, Seq<char>> {
    let r = scan_quoted(line);
    match r.1 {
        None => Ok(in_string_state(st, st.strbuf + r.0 + seq!['\n'])),
        Some(t) => match pop_after(t) {
            Err(e) => Err(e),
            Ok(n) => Ok(
                pop_layers(
                    push_child(
                        PState {
                            stack: st.stack,
                            key: st.key,
                            strbuf: Seq::empty(),
                            in_string: false,
                        },
                        Value::Str(st.strbuf + r.0),
                    ),
                    n,
                ),
            ),
        },
    }
}

/// One line.
#[verifier::opaque]
pub open spec fn step(st: PState, line: Seq<char>) -> Result<PState, Seq<char>> {
    if st.in_string {
        string_line(st, line)
    } else if line.len() == 0 {
        if st.stack.len() > 0 {
            Err(msg_empty_line())
        } else {
            Ok(st)
        }
    } else if st.stack.len() == 0 {
        root_line(st, line)
    } else {
        match prefix_pop(line, top_is_obj(st)) {
            Some((n, rest)) => body_line(pop_layers(st, n), rest),
            None => body_line(st, line),
        }
    }
}

/// A line without its carriage return, if it ends in one.
pub open spec fn strip_cr(l: Seq<char>) -> Seq<char> {
    if l.len() > 0 && l.last() == '\r' {
        l.drop_last()
    } else {
        l
    }
}

/// The lines of a text: split at each line feed; a final line feed ends the
/// last line and starts no new one.
pub open spec fn lines(t: Seq<char>) -> Seq<Seq<char>>
    decreases t.len(),
{
    if t.len() == 0 {
        Seq::empty()
    } else {
        match find_char(t, '\n') {
            Some(i) => {
                proof {
                    lemma_find_char_bound(t, '\n');
                }
                seq![strip_cr(t.take(i))] + lines(t.skip(i + 1))
            },
            None => seq![strip_cr(t)],
        }
    }
}

/// Reads lines one after another from `r`, stopping at the first error.
pub open spec fn run(r: Result<PState, Seq<char>>, ls: Seq<Seq<char>>) -> Result<
    PState,
    Seq<char>,
>
    decreases ls.len(),
{
    if ls.len() == 0 {
        r
    } else {
        match r {
            Err(e) => Err(e),
            Ok(st) => run(step(st, ls[0]), ls.drop_first()),
        }
    }
}

/// After the last line: a string must not be open; the open containers are
/// closed into the top-level one, which is the document.
pub open spec fn finish(st: PState) -> Result<Value, Seq<char>> {
    if st.in_string {
        Err(msg_unclosed())
    } else {
        let st1 = pop_n(
            st,
            if st.stack.len() == 0 {
                0
            } else {
                (st.stack.len() - 1) as nat
            },
        );
        if st1.stack.len() == 0 {
            Err(msg_empty_input())
        } else {
            Ok(frame_value(st1.stack.last()))
        }
    }
}

/// What [`crate::from_str`] gives for a text: the document, or the message of
/// the first error.
pub open spec fn parse(text: Seq<char>) -> Result<Value, Seq<char>> {
    match run(Ok(init_state()), lines(text)) {
        Err(e) => Err(e),
        Ok(st) => finish(st),
    }
}

/// A digit run is made of digits, and the character after it is not one.
pub proof fn lemma_digit_run(s: Seq<char>)
    ensures
        digit_run(s) <= s.len(),
        forall|i: int| 0 <= i < digit_run(s) ==> is_digit(#[trigger] s[i]),
        digit_run(s) < s.len() ==> !is_digit(s[digit_run(s) as int]),
    decreases s.len(),
{
    if s.len() > 0 && is_digit(s[0]) {
        lemma_digit_run(s.skip(1));
        assert forall|i: int| 0 <= i < digit_run(s) implies is_digit(#[trigger] s[i]) by {
            if i > 0 {
                assert(s[i] == s.skip(1)[i - 1]);
            }
        }
        if digit_run(s) < s.len() {
            assert(s[digit_run(s) as int] == s.skip(1)[digit_run(s.skip(1)) as int]);
        }
    }
}

/// `find_char` gives an index into the text, of the character sought, with no
/// earlier one.
pub proof fn lemma_find_char_bound(s: Seq<char>, c: char)
    ensures
        find_char(s, c) matches Some(i) ==> 0 <= i < s.len() && s[i] == c && forall|j: int|
            0 <= j < i ==> s[j] != c,
        find_char(s, c) is None ==> forall|j: int| 0 <= j < s.len() ==> s[j] != c,
    decreases s.len(),
{
    if s.len() > 0 {
        lemma_find_char_bound(s.drop_first(), c);
        if s[0] != c {
            assert forall|j: int| 0 < j < s.len() implies s[j] == s.drop_first()[j - 1] by {}
        }
    }
}

} // verus!
