//! The reader, proved to follow the state machine of `syntax` line by line.

use vstd::prelude::*;
use vstd::slice::slice_subrange;
use vstd::utf8::{encode_utf8, encode_utf8_decode_utf8};

use crate::syntax::{
    body_line, digit_run, exponent_ok, float_syntax, frame_value, has_float_mark, has_pop_suffix,
    in_string_state, init_state, inline_start, is_open_bracket, key_char_ok, key_valid,
    lemma_digit_run, lemma_find_char_bound, lines, msg_extra, msg_pop_range, number_value,
    object_line, open_frame, open_inline, parse, pop_after, pop_count, pop_layers, pop_n,
    push_child, quoted_root, quoted_value, root_line, run, scalar_root, scalar_value, scan_quoted,
    step, strip_cr, top_is_obj, trim_pop_suffix, value_line, value_split, wrap_i64, PState, SBuild,
    SFrame,
};
use crate::text::{
    all_digits, chars_of, digit_value, digits_value, find_char, find_sep, find_sep_index,
    first_byte, is_digit, is_ws_char, lemma_no_line_feed, lemma_split_at_line_feed, push_char,
    push_chars, trim_start_index,
};
use crate::{element_models, entry_models, lemma_model_children, PlnValue, Value};

verus! {

// ---------------------------------------------------------------------------
// Pieces of a line
// ---------------------------------------------------------------------------
/// The value of the decimal digits `d`, when it fits in `usize`.
fn digits_to_usize(d: &[char]) -> (r: Option<usize>)
    requires
        all_digits(d@),
    ensures
        r matches Some(n) ==> digits_value(d@) <= usize::MAX && n == digits_value(d@),
        r is None ==> digits_value(d@) > usize::MAX,
{
    let mut n: usize = 0;
    let mut fits: bool = true;
    let mut i: usize = 0;
    while i < d.len()
        invariant
            0 <= i <= d@.len(),
            all_digits(d@),
            fits ==> n == digits_value(d@.take(i as int)),
            !fits ==> digits_value(d@.take(i as int)) > usize::MAX,
        decreases d@.len() - i,
    {
        assert(d@.take(i + 1).drop_last() =~= d@.take(i as int));
        assert(is_digit(d@[i as int]));
        let c = d[i];
        let dv: usize = if c == '0' { 0 }
            else if c == '1' { 1 } else if c == '2' { 2 } else if c == '3' { 3 }
            else if c == '4' { 4 } else if c == '5' { 5 } else if c == '6' { 6 }
            else if c == '7' { 7 } else if c == '8' { 8 } else { 9 };
        assert(dv == digit_value(d@[i as int]));
        if fits {
            match n.checked_mul(10) {
                Some(m) => match m.checked_add(dv) {
                    Some(k) => {
                        n = k;
                    },
                    None => {
                        fits = false;
                    },
                },
                None => {
                    fits = false;
                },
            }
        }
        i = i + 1;
    }
    assert(d@.take(i as int) =~= d@);
    if fits {
        Some(n)
    } else {
        None
    }
}

/// Whether every character of `s` is a decimal digit.
fn chars_all_digits(s: &[char]) -> (r: bool)
    ensures
        r == all_digits(s@),
{
    let mut i: usize = 0;
    while i < s.len()
        invariant
            0 <= i <= s@.len(),
            forall|j: int| 0 <= j < i ==> is_digit(#[trigger] s@[j]),
        decreases s@.len() - i,
    {
        if !('0' <= s[i] && s[i] <= '9') {
            return false;
        }
        i = i + 1;
    }
    true
}

/// A pop suffix position is unique.
pub proof fn lemma_pop_suffix_unique(s: Seq<char>, i: int, j: int)
    requires
        has_pop_suffix(s, i),
        has_pop_suffix(s, j),
    ensures
        i == j,
{
    if i < j {
        assert(s.skip(i + 1)[j - i - 1] == s[j]);
        assert(is_digit(s.skip(i + 1)[j - i - 1]));
    } else if j < i {
        assert(s.skip(j + 1)[i - j - 1] == s[i]);
        assert(is_digit(s.skip(j + 1)[i - j - 1]));
    }
}

/// Splits a value text into the value and its pop suffix count, as
/// `trim_pop_suffix` says: the result is the length of the value part and the
/// count.
fn trim_pop_suffix_chars(s: &[char]) -> (r: (usize, usize))
    ensures
        r.0 <= s@.len(),
        trim_pop_suffix(s@) == (s@.take(r.0 as int), r.1 as nat),
{
    let len: usize = s.len();
    let mut i: usize = 0;
    while i < len
        invariant
            len == s@.len(),
            0 <= i <= len,
            forall|j: int| 0 <= j < i ==> !has_pop_suffix(s@, j),
        decreases len - i,
    {
        if s[i] == ' ' && i + 1 < len {
            let rest = slice_subrange(s, i + 1, len);
            if chars_all_digits(rest) {
                assert(rest@ =~= s@.skip(i + 1));
                assert(has_pop_suffix(s@, i as int));
                proof {
                    let k = choose|k: int| has_pop_suffix(s@, k);
                    lemma_pop_suffix_unique(s@, k, i as int);
                }
                let n: usize = match digits_to_usize(rest) {
                    Some(n) => n,
                    None => 0,
                };
                return (i, n);
            }
        }
        assert(!has_pop_suffix(s@, i as int)) by {
            if has_pop_suffix(s@, i as int) {
                assert(s@.subrange(i + 1, len as int) =~= s@.skip(i + 1));
            }
        }
        i = i + 1;
    }
    assert(s@.take(len as int) =~= s@);
    (len, 0)
}

/// Splits a value text into the value and the number of containers a pop
/// suffix (a space and digits at the end) closes; without such a suffix the
/// count is 0. A count too large for `usize` counts as 0.
pub fn fwd_trim_pop_suffix<'a>(s: &'a str) -> (r: (&'a str, usize))
    ensures
        trim_pop_suffix(s@) == (r.0@, r.1 as nat),
{
    let cs = chars_of(s);
    let (k, n) = trim_pop_suffix_chars(cs.as_slice());
    (s.substring_char(0, k), n)
}

/// A message with `mid` between `a` and `b`.
fn message(a: &str, mid: &[char], b: &str) -> (m: String)
    ensures
        m@ == a@ + mid@ + b@,
{
    let mut m = String::from_str(a);
    push_chars(&mut m, mid);
    m.append(b);
    m
}

/// What follows a closing quote, as `pop_after` says: nothing, or a space and a
/// count of containers to close.
fn pop_after_chars(t: &[char]) -> (r: Result<usize, String>)
    ensures
        match pop_after(t@) {
            Ok(n) => r == Ok::<usize, String>(n as usize),
            Err(e) => r is Err && r->Err_0@ == e,
        },
{
    if t.len() == 0 {
        return Ok(0);
    }
    if t[0] != ' ' || t.len() < 2 {
        return Err(message("extra after closing quote: '", t, "'"));
    }
    let digits = slice_subrange(t, 1, t.len());
    assert(digits@ =~= t@.skip(1));
    if !chars_all_digits(digits) {
        return Err(message("extra after closing quote: '", t, "'"));
    }
    match digits_to_usize(digits) {
        Some(n) => Ok(n),
        None => Err(message("pop count out of range: '", t, "'")),
    }
}

/// The number of containers that the text after a closing quote closes: 0
/// for nothing, `n` for a space and the digits of `n`. Anything else is an
/// error, and so is a count too large for `usize`.
pub fn pop_suffix_after(s: &str) -> (r: Result<usize, String>)
    ensures
        match pop_after(s@) {
            Ok(n) => r == Ok::<usize, String>(n as usize),
            Err(e) => r is Err && r->Err_0@ == e,
        },
{
    let cs = chars_of(s);
    pop_after_chars(cs.as_slice())
}

/// Whether `key` can be an object key.
fn key_valid_chars(key: &[char]) -> (r: bool)
    ensures
        r == key_valid(key@),
{
    if key.len() == 0 {
        return false;
    }
    let mut i: usize = 0;
    while i < key.len()
        invariant
            0 <= i <= key@.len(),
            forall|j: int| 0 <= j < i ==> key_char_ok(#[trigger] key@[j]),
        decreases key@.len() - i,
    {
        let b = key[i];
        if b == ':' || b == '"' || b == '{' || b == '[' || b == '#' || b == ' ' || b == '\t' || b
            == '\n' || b == '\r' {
            return false;
        }
        i = i + 1;
    }
    true
}

/// Whether `key` can be an object key: not empty, and holding none of
/// `:"{[#`, space, tab, line feed or carriage return.
pub fn is_key_valid(key: &str) -> (r: bool)
    ensures
        r == key_valid(key@),
{
    let cs = chars_of(key);
    key_valid_chars(cs.as_slice())
}

/// Reads string content as `scan_quoted` says: the characters read, and the
/// index of the closing quote if there is one.
fn scan_quoted_chars(c: &[char]) -> (r: (String, Option<usize>))
    ensures
        r.0@ == scan_quoted(c@).0,
        match r.1 {
            Some(i) => i < c@.len() && scan_quoted(c@).1 == Some(c@.skip(i + 1)),
            None => scan_quoted(c@).1 is None,
        },
{
    let mut res = String::new();
    let mut i: usize = 0;
    let n: usize = c.len();
    assert(c@.skip(0) =~= c@);
    while i < n
        invariant
            n == c@.len(),
            0 <= i <= n,
            scan_quoted(c@) == (res@ + scan_quoted(c@.skip(i as int)).0, scan_quoted(
                c@.skip(i as int),
            ).1),
        decreases n - i,
    {
        let ghost rest = c@.skip(i as int);
        if c[i] == '"' {
            if i + 1 < n && c[i + 1] == '"' {
                assert(rest.skip(2) =~= c@.skip(i + 2));
                push_char(&mut res, '"');
                assert(seq!['"'] + scan_quoted(rest.skip(2)).0 == scan_quoted(rest).0);
                i = i + 2;
            } else {
                assert(rest.skip(1) =~= c@.skip(i + 1));
                assert(scan_quoted(rest).0 =~= Seq::<char>::empty());
                assert(res@ + scan_quoted(rest).0 =~= res@);
                return (res, Some(i));
            }
        } else {
            assert(rest.skip(1) =~= c@.skip(i + 1));
            push_char(&mut res, c[i]);
            i = i + 1;
        }
    }
    assert(c@.skip(i as int) =~= Seq::<char>::empty());
    assert(res@ + Seq::<char>::empty() =~= res@);
    (res, None)
}


// ---------------------------------------------------------------------------
// Numbers
// ---------------------------------------------------------------------------
/// Two integers that differ by a multiple of 2^64 wrap to the same `i64`.
proof fn lemma_wrap_congruent(y: int, j: int)
    ensures
        wrap_i64(y + 0x1_0000_0000_0000_0000int * j) == wrap_i64(y),
{
    let m = 0x1_0000_0000_0000_0000int;
    assert((y + m * j) % m == y % m) by {
        vstd::arithmetic::div_mod::lemma_mod_multiples_vanish(j, y, m);
    }
}

/// `wrap_i64` differs from its argument by a multiple of 2^64.
proof fn lemma_wrap_offset(y: int) -> (j: int)
    ensures
        wrap_i64(y) == y + 0x1_0000_0000_0000_0000int * j,
{
    let m = 0x1_0000_0000_0000_0000int;
    vstd::arithmetic::div_mod::lemma_fundamental_div_mod(y, m);
    if y % m > i64::MAX {
        -(y / m) - 1
    } else {
        -(y / m)
    }
}

/// One step of the wrapping decimal accumulation.
proof fn lemma_wrap_step(x: int, d: int)
    requires
        0 <= d < 10,
    ensures
        vstd::wrapping::i64_specs::wrapping_add(
            vstd::wrapping::i64_specs::wrapping_mul(wrap_i64(x), 10),
            d as i64,
        ) == wrap_i64(x * 10 + d),
{
    let m = 0x1_0000_0000_0000_0000int;
    let w = wrap_i64(x);
    let j1 = lemma_wrap_offset(x);
    let p = vstd::wrapping::i64_specs::wrapping_mul(w, 10);
    assert(p == wrap_i64(w * 10));
    let j2 = lemma_wrap_offset(w * 10);
    let q = vstd::wrapping::i64_specs::wrapping_add(p, d as i64);
    assert(q == wrap_i64(p + d));
    assert(p + d == x * 10 + d + m * (10 * j1 + j2)) by (nonlinear_arith)
        requires
            w == x + m * j1,
            p == w * 10 + m * j2,
    ;
    lemma_wrap_congruent(x * 10 + d, 10 * j1 + j2);
}

/// Negation with wrap-around.
proof fn lemma_wrap_neg(x: int)
    ensures
        vstd::wrapping::i64_specs::wrapping_sub(0, wrap_i64(x)) == wrap_i64(-x),
{
    let m = 0x1_0000_0000_0000_0000int;
    let j = lemma_wrap_offset(x);
    let r = vstd::wrapping::i64_specs::wrapping_sub(0, wrap_i64(x));
    assert(r == wrap_i64(-wrap_i64(x)));
    assert(-wrap_i64(x) == -x + m * (-j));
    lemma_wrap_congruent(-x, -j);
}

/// The number of decimal digits from `start` on, as `digit_run` says.
fn digit_run_from(s: &[char], start: usize) -> (k: usize)
    requires
        start <= s@.len(),
    ensures
        start + k <= s@.len(),
        k == digit_run(s@.skip(start as int)),
{
    let mut i: usize = start;
    while i < s.len() && '0' <= s[i] && s[i] <= '9'
        invariant
            start <= i <= s@.len(),
            digit_run(s@.skip(start as int)) == (i - start) + digit_run(s@.skip(i as int)),
        decreases s@.len() - i,
    {
        assert(s@.skip(i as int).skip(1) =~= s@.skip(i + 1));
        i = i + 1;
    }
    i - start
}

/// Whether `s` has the floating-point syntax.
#[verifier::spinoff_prover]
#[verifier::rlimit(40)]
fn float_syntax_chars(s: &[char]) -> (r: bool)
    ensures
        r == float_syntax(s@),
{
    let len: usize = s.len();
    let b0: usize = if len > 0 && s[0] == '-' {
        1
    } else {
        0
    };
    let ghost b = if len > 0 && s@[0] == '-' {
        s@.skip(1)
    } else {
        s@
    };
    assert(b =~= s@.skip(b0 as int));
    let m = digit_run_from(s, b0);
    if m == 0 {
        return false;
    }
    let mut p: usize = b0 + m;
    assert(b.skip(m as int) =~= s@.skip(p as int));
    let ghost r = s@.skip(p as int);
    if p < len && s[p] == '.' {
        assert(r.skip(1) =~= s@.skip(p + 1));
        let q = digit_run_from(s, p + 1);
        assert(r.skip(1).skip(q as int) =~= s@.skip(p + 1 + q));
        p = p + 1 + q;
    }
    let ghost r2 = s@.skip(p as int);
    if p == len {
        return true;
    }
    if s[p] != 'e' && s[p] != 'E' {
        return false;
    }
    let e: usize = p + 1;
    let ghost ex = s@.skip(e as int);
    assert(r2.skip(1) =~= ex);
    let e2: usize = if e < len && (s[e] == '+' || s[e] == '-') {
        e + 1
    } else {
        e
    };
    if e < len && (s[e] == '+' || s[e] == '-') {
        assert(ex.skip(1) =~= s@.skip(e2 as int));
    }
    if e2 >= len {
        return false;
    }
    let tail = slice_subrange(s, e2, len);
    assert(tail@ =~= s@.skip(e2 as int));
    chars_all_digits(tail)
}

/// Whether `s` holds `.`, `e` or `E`.
fn has_float_mark_chars(s: &[char]) -> (r: bool)
    ensures
        r == has_float_mark(s@),
{
    let mut i: usize = 0;
    while i < s.len()
        invariant
            0 <= i <= s@.len(),
            forall|j: int| 0 <= j < i ==> !(s@[j] == '.' || s@[j] == 'e' || s@[j] == 'E'),
        decreases s@.len() - i,
    {
        if s[i] == '.' || s[i] == 'e' || s[i] == 'E' {
            return true;
        }
        i = i + 1;
    }
    false
}

/// Reads a number as `number_value` says: an optional `-` and a digit; with
/// `.`, `e` or `E` a float (kept as its text) when it has the float syntax,
/// otherwise all digits, with the value wrapping modulo 2^64.
pub fn parse_number(s: &str) -> (r: Option<PlnValue>)
    ensures
        match r {
            Some(v) => number_value(s@) == Some(v@),
            None => number_value(s@) is None,
        },
{
    let cs = chars_of(s);
    parse_number_chars(cs.as_slice())
}

/// Reads a number as `number_value` says: a float is kept as its text, an
/// integer's value wraps modulo 2^64.
fn parse_number_chars(s: &[char]) -> (r: Option<PlnValue>)
    ensures
        match r {
            Some(v) => number_value(s@) == Some(v@),
            None => number_value(s@) is None,
        },
{
    let len: usize = s.len();
    if len == 0 {
        return None;
    }
    let neg: bool = s[0] == '-';
    let start: usize = if neg {
        1
    } else {
        0
    };
    let body = slice_subrange(s, start, len);
    assert(body@ =~= (if neg {
        s@.skip(1)
    } else {
        s@
    }));
    if start >= len || !('0' <= s[start] && s[start] <= '9') {
        return None;
    }
    if has_float_mark_chars(body) {
        if float_syntax_chars(s) {
            let t = crate::text::string_of(s);
            return Some(PlnValue::Float(t));
        } else {
            return None;
        }
    }
    let mut val: i64 = 0;
    let mut i: usize = 0;
    let blen: usize = body.len();
    while i < blen
        invariant
            blen == body@.len(),
            0 <= i <= blen,
            !has_float_mark(body@),
            neg == (s@.len() > 0 && s@[0] == '-'),
            body@ == (if neg {
                s@.skip(1)
            } else {
                s@
            }),
            body@.len() > 0 && is_digit(body@[0]),
            all_digits(body@.take(i as int)),
            val == wrap_i64(digits_value(body@.take(i as int)) as int),
        decreases blen - i,
    {
        let c = body[i];
        if !('0' <= c && c <= '9') {
            assert(!all_digits(body@)) by {
                assert(!is_digit(body@[i as int]));
            }
            return None;
        }
        let d: i64 = if c == '0' { 0 }
            else if c == '1' { 1 } else if c == '2' { 2 } else if c == '3' { 3 }
            else if c == '4' { 4 } else if c == '5' { 5 } else if c == '6' { 6 }
            else if c == '7' { 7 } else if c == '8' { 8 } else { 9 };
        assert(d == digit_value(c));
        assert(body@.take(i + 1).drop_last() =~= body@.take(i as int));
        proof {
            lemma_wrap_step(digits_value(body@.take(i as int)) as int, d as int);
        }
        val = val.wrapping_mul(10).wrapping_add(d);
        i = i + 1;
    }
    assert(body@.take(i as int) =~= body@);
    if neg {
        proof {
            lemma_wrap_neg(digits_value(body@) as int);
        }
        Some(PlnValue::Int(0i64.wrapping_sub(val)))
    } else {
        Some(PlnValue::Int(val))
    }
}


// ---------------------------------------------------------------------------
// The reader
// ---------------------------------------------------------------------------
/// Reads a document.
///
/// The result is what `parse` says of the text: the document's value, or the
/// message of the first error.
pub fn from_str(text: &str) -> (r: Result<PlnValue, String>)
    ensures
        root_outcome(r) == parse(text@),
{
    let mut p = Parser::new();
    p.parse(text)
}

/// A container under construction.
enum BuildState {
    Obj(Vec<(String, PlnValue)>),
    Arr(Vec<PlnValue>),
}

/// An open container and the key it will be stored under in its parent.
struct Frame {
    state: BuildState,
    key: Option<String>,
}

/// The models of object entries.
pub open spec fn entries_view(cs: Seq<(String, PlnValue)>) -> Seq<(Seq<char>, Value)> {
    cs.map_values(|p: (String, PlnValue)| (p.0@, p.1@))
}

/// The models of array elements.
pub open spec fn elements_view(xs: Seq<PlnValue>) -> Seq<Value> {
    xs.map_values(|x: PlnValue| x@)
}

/// The model of an optional key.
pub open spec fn key_view(k: Option<String>) -> Option<Seq<char>> {
    match k {
        Some(s) => Some(s@),
        None => None,
    }
}

impl View for Frame {
    type V = SFrame;

    closed spec fn view(&self) -> SFrame {
        SFrame {
            build: match self.state {
                BuildState::Obj(cs) => SBuild::Obj(entries_view(cs@)),
                BuildState::Arr(xs) => SBuild::Arr(elements_view(xs@)),
            },
            key: key_view(self.key),
        }
    }
}

/// Reader state; see `PState`.
struct Parser {
    stack: Vec<Frame>,
    key: String,
    strbuf: String,
    in_string: bool,
}

impl View for Parser {
    type V = PState;

    closed spec fn view(&self) -> PState {
        PState {
            stack: self.stack@.map_values(|f: Frame| f@),
            key: self.key@,
            strbuf: self.strbuf@,
            in_string: self.in_string,
        }
    }
}

/// The model of an object value is its entries' models.
proof fn lemma_object_model(c: Vec<(String, PlnValue)>)
    ensures
        PlnValue::Object(c)@ == Value::Object(entries_view(c@)),
{
    let v = PlnValue::Object(c);
    lemma_model_children(v, c@.len() as int);
    assert(entry_models(v, c@.len() as int) =~= entries_view(c@));
}

/// The model of an array value is its elements' models.
proof fn lemma_array_model(c: Vec<PlnValue>)
    ensures
        PlnValue::Array(c)@ == Value::Array(elements_view(c@)),
{
    let v = PlnValue::Array(c);
    lemma_model_children(v, c@.len() as int);
    assert(element_models(v, c@.len() as int) =~= elements_view(c@));
}

/// The state with its innermost container removed.
pub open spec fn without_top(st: PState) -> PState {
    PState { stack: st.stack.drop_last(), key: st.key, strbuf: st.strbuf, in_string: st.in_string }
}

/// Adding a child keeps the number of open containers.
proof fn lemma_push_child_len(st: PState, v: Value)
    ensures
        push_child(st, v).stack.len() == st.stack.len(),
{
}

impl Parser {
    fn new() -> (p: Parser)
        ensures
            p@ == init_state(),
    {
        let p = Parser {
            stack: Vec::new(),
            key: String::new(),
            strbuf: String::new(),
            in_string: false,
        };
        assert(p@.stack =~= Seq::<SFrame>::empty());
        p
    }

    /// Adds `val` to the innermost open container, as `push_child` says.
    fn push_child(&mut self, val: PlnValue)
        ensures
            final(self)@ == push_child(old(self)@, val@),
    {
        if self.stack.len() > 0 {
            let frame = self.stack.pop().unwrap();
            let Frame { state, key } = frame;
            let ghost fkey = key;
            let new_state = match state {
                BuildState::Obj(mut children) => {
                    let mut k = String::new();
                    std::mem::swap(&mut k, &mut self.key);
                    let ghost old_children = children@;
                    children.push((k, val));
                    assert(entries_view(children@) =~= entries_view(old_children).push(
                        (k@, val@),
                    ));
                    BuildState::Obj(children)
                },
                BuildState::Arr(mut children) => {
                    let ghost old_children = children@;
                    children.push(val);
                    assert(elements_view(children@) =~= elements_view(old_children).push(val@));
                    BuildState::Arr(children)
                },
            };
            self.stack.push(Frame { state: new_state, key });
            assert(self@.stack =~= push_child(old(self)@, val@).stack);
        }
    }

    /// Opens a container, as `open_frame` says.
    fn open(&mut self, is_obj: bool)
        ensures
            final(self)@ == open_frame(old(self)@, is_obj),
    {
        let state = if is_obj {
            BuildState::Obj(Vec::new())
        } else {
            BuildState::Arr(Vec::new())
        };
        let key = if self.stack.len() == 0 {
            None
        } else {
            let mut k = String::new();
            std::mem::swap(&mut k, &mut self.key);
            Some(k)
        };
        let ghost f = Frame { state, key };
        assert(f@.build == (if is_obj {
            SBuild::Obj(Seq::empty())
        } else {
            SBuild::Arr(Seq::empty())
        })) by {
            assert(entries_view(Seq::empty()) =~= Seq::empty());
            assert(elements_view(Seq::empty()) =~= Seq::empty());
        }
        self.stack.push(Frame { state, key });
        assert(self@.stack =~= open_frame(old(self)@, is_obj).stack);
    }

    /// Closes the innermost container: its value and the key it was opened
    /// with.
    fn close(&mut self) -> (r: Option<(PlnValue, Option<String>)>)
        ensures
            old(self)@.stack.len() == 0 ==> r is None && final(self)@ == old(self)@,
            old(self)@.stack.len() > 0 ==> (r matches Some((v, k)) && v@ == frame_value(
                old(self)@.stack.last(),
            ) && key_view(k) == old(self)@.stack.last().key && final(self)@ == without_top(
                old(self)@,
            )),
    {
        match self.stack.pop() {
            None => None,
            Some(frame) => {
                assert(self@.stack =~= old(self)@.stack.drop_last());
                let val = match frame.state {
                    BuildState::Obj(c) => {
                        proof {
                            lemma_object_model(c);
                        }
                        PlnValue::Object(c)
                    },
                    BuildState::Arr(c) => {
                        proof {
                            lemma_array_model(c);
                        }
                        PlnValue::Array(c)
                    },
                };
                Some((val, frame.key))
            },
        }
    }

    /// Closes `n` containers, never the top-level one, as `pop_layers` says.
    fn pop_layers(&mut self, n: usize)
        ensures
            final(self)@ == pop_layers(old(self)@, n as nat),
    {
        let limit: usize = if self.stack.len() == 0 {
            0
        } else {
            self.stack.len() - 1
        };
        let m: usize = if n <= limit {
            n
        } else {
            limit
        };
        let mut k: usize = 0;
        while k < m
            invariant
                0 <= k <= m,
                m <= limit,
                limit == (if old(self)@.stack.len() == 0 {
                    0
                } else {
                    old(self)@.stack.len() - 1
                }),
                self@.stack.len() == old(self)@.stack.len() - k,
                pop_layers(old(self)@, n as nat) == pop_n(self@, (m - k) as nat),
            decreases m - k,
        {
            let ghost before = self@;
            if let Some((val, key)) = self.close() {
                self.key = match key {
                    Some(k) => k,
                    None => String::new(),
                };
                self.push_child(val);
                proof {
                    lemma_push_child_len(
                        PState {
                            stack: before.stack.drop_last(),
                            key: self@.key,
                            strbuf: before.strbuf,
                            in_string: before.in_string,
                        },
                        frame_value(before.stack.last()),
                    );
                }
            }
            k = k + 1;
        }
    }

    /// Whether the innermost open container is an object.
    fn top_is_obj(&self) -> (r: bool)
        ensures
            r == top_is_obj(self@),
    {
        let n: usize = self.stack.len();
        if n == 0 {
            false
        } else {
            match &self.stack[n - 1].state {
                BuildState::Obj(_) => true,
                BuildState::Arr(_) => false,
            }
        }
    }

    /// Reads a line of a string that spans lines: up to the closing quote (and
    /// then the pops after it) or, with no closing quote, the whole line and a
    /// line feed.
    fn handle_string_line(&mut self, line: &[char]) -> (r: Result<Option<(String, usize)>, String>)
        ensures
            final(self).stack == old(self).stack,
            final(self).key == old(self).key,
            final(self).in_string == old(self).in_string,
            string_outcome(r) == string_line_outcome(old(self).strbuf@, line@),
            r matches Ok(None) ==> final(self).strbuf@ == old(self).strbuf@ + scan_quoted(line@).0
                + seq!['\n'],
            r matches Ok(Some(_)) ==> final(self).strbuf@.len() == 0,
    {
        let len: usize = line.len();
        let (read, close) = scan_quoted_chars(line);
        match close {
            None => {
                self.strbuf.append(read.as_str());
                push_char(&mut self.strbuf, '\n');
                Ok(None)
            },
            Some(i) => {
                let trailing = slice_subrange(line, i + 1, len);
                assert(trailing@ =~= line@.skip(i + 1));
                let n_pop = pop_after_chars(trailing);
                match n_pop {
                    Err(e) => Err(e),
                    Ok(n) => {
                        self.strbuf.append(read.as_str());
                        let mut ss = String::new();
                        std::mem::swap(&mut ss, &mut self.strbuf);
                        Ok(Some((ss, n)))
                    },
                }
            },
        }
    }

    /// Reads a quoted string inside a container; with no closing quote the
    /// string goes on over the next lines.
    fn parse_quoted(&mut self, content: &[char]) -> (r: Result<Option<PlnValue>, String>)
        ensures
            scalar_outcome(r) == quoted_value(content@),
            final(self)@ == (if quoted_value(content@) == Ok::<Option<Value>, Seq<char>>(None) {
                in_string_state(old(self)@, content@.push('\n'))
            } else {
                old(self)@
            }),
    {
        let len: usize = content.len();
        let (res, close) = scan_quoted_chars(content);
        match close {
            Some(i) => {
                let trailing = slice_subrange(content, i + 1, len);
                assert(trailing@ =~= content@.skip(i + 1));
                if !crate::text::chars_all_ws(trailing) {
                    return Err(message("extra after closing quote: '", trailing, "'"));
                }
                Ok(Some(PlnValue::String(res)))
            },
            None => {
                self.in_string = true;
                self.strbuf = String::new();
                push_chars(&mut self.strbuf, content);
                push_char(&mut self.strbuf, '\n');
                Ok(None)
            },
        }
    }

    /// Reads a quoted string at the top level, where it must close on its line.
    fn parse_quoted_string(&self, content: &[char]) -> (r: Result<PlnValue, String>)
        ensures
            root_outcome(r) == quoted_root(content@),
    {
        let len: usize = content.len();
        let (res, close) = scan_quoted_chars(content);
        match close {
            Some(i) => {
                let trailing = slice_subrange(content, i + 1, len);
                assert(trailing@ =~= content@.skip(i + 1));
                if !crate::text::chars_all_ws(trailing) {
                    return Err(message("extra after closing quote: '", trailing, "'"));
                }
                Ok(PlnValue::String(res))
            },
            None => Err(String::from_str("multi-line strings not supported at root")),
        }
    }

    /// Reads a leaf value inside a container.
    fn parse_scalar_value(&mut self, s: &[char]) -> (r: Result<Option<PlnValue>, String>)
        ensures
            scalar_outcome(r) == scalar_value(s@),
            final(self)@ == (if scalar_value(s@) == Ok::<Option<Value>, Seq<char>>(None) {
                in_string_state(old(self)@, s@.skip(1).push('\n'))
            } else {
                old(self)@
            }),
    {
        if s.len() == 0 {
            return Err(String::from_str("empty value"));
        }
        if s[0] == '"' {
            let content = slice_subrange(s, 1, s.len());
            assert(content@ =~= s@.skip(1));
            return self.parse_quoted(content);
        }
        match word_of(s) {
            1u8 => {
                return Ok(Some(PlnValue::Bool(true)));
            },
            2u8 => {
                return Ok(Some(PlnValue::Bool(false)));
            },
            3u8 => {
                return Ok(Some(PlnValue::Null));
            },
            _ => {},
        }
        match parse_number_chars(s) {
            Some(n) => Ok(Some(n)),
            None => Err(message("bare string must be quoted: '", s, "'")),
        }
    }

    /// Reads a leaf value at the top level.
    fn parse_scalar_root(&mut self, s: &[char]) -> (r: Result<PlnValue, String>)
        ensures
            root_outcome(r) == scalar_root(s@),
            final(self)@ == old(self)@,
    {
        if s.len() == 0 {
            return Err(String::from_str("empty value"));
        }
        if s[0] == '"' {
            let content = slice_subrange(s, 1, s.len());
            assert(content@ =~= s@.skip(1));
            return self.parse_quoted_string(content);
        }
        match word_of(s) {
            1u8 => {
                return Ok(PlnValue::Bool(true));
            },
            2u8 => {
                return Ok(PlnValue::Bool(false));
            },
            3u8 => {
                return Ok(PlnValue::Null);
            },
            _ => {},
        }
        match parse_number_chars(s) {
            Some(n) => Ok(n),
            None => Err(message("bare string must be quoted: '", s, "'")),
        }
    }

    /// Reads a leaf value with its pops (or the start of a string that spans
    /// lines), as `value_line` says.
    fn parse_value_part(&mut self, s: &[char]) -> (r: Result<(), String>)
        ensures
            value_line(old(self)@, s@) == state_outcome(r, final(self)@),
    {
        let len: usize = s.len();
        let (vlen, n_pop) = if len > 0 && s[0] != '{' && s[0] != '[' {
            trim_pop_suffix_chars(s)
        } else {
            (len, 0)
        };
        let val = slice_subrange(s, 0, vlen);
        assert(val@ =~= s@.take(vlen as int));
        assert(value_split(s@) == (val@, n_pop as nat)) by {
            if !(s@.len() > 0 && !is_open_bracket(s@[0])) {
                assert(s@.take(len as int) =~= s@);
            }
        }
        match self.parse_scalar_value(val) {
            Err(e) => Err(e),
            Ok(Some(pv)) => {
                self.push_child(pv);
                self.pop_layers(n_pop);
                Ok(())
            },
            Ok(None) => Ok(()),
        }
    }

    /// Reads `key: value` in an object, as `object_line` says.
    fn parse_object_line(&mut self, rest: &[char]) -> (r: Result<(), String>)
        ensures
            object_line(old(self)@, rest@) == state_outcome(r, final(self)@),
            find_sep(rest@) is None ==> final(self)@ == old(self)@,
            find_sep(rest@) matches Some(i) && !key_valid(rest@.take(i)) ==> final(self)@ == old(
                self,
            )@,
    {
        let len: usize = rest.len();
        let sep = match find_sep_index(rest) {
            Some(i) => i,
            None => {
                return Err(message("object line must be 'key: value': '", rest, "'"));
            },
        };
        proof {
            lemma_find_sep_bound(rest@);
        }
        let key = slice_subrange(rest, 0, sep);
        assert(key@ =~= rest@.take(sep as int));
        if !key_valid_chars(key) {
            return Err(message("invalid key: '", key, "'"));
        }
        let val_part = slice_subrange(rest, sep + 2, len);
        assert(val_part@ =~= rest@.skip(sep + 2));
        self.key = crate::text::string_of(key);
        if val_part.len() == 1 && val_part[0] == '{' {
            assert(val_part@ =~= seq!['{']);
            self.open(true);
            return Ok(());
        }
        if val_part.len() == 1 && val_part[0] == '[' {
            assert(val_part@ =~= seq!['[']);
            self.open(false);
            return Ok(());
        }
        assert(val_part@ != seq!['{'] && val_part@ != seq!['[']);
        self.parse_value_part(val_part)
    }

    /// Reads an array element line, as `value_line` says.
    fn parse_array_line(&mut self, rest: &[char]) -> (r: Result<(), String>)
        ensures
            value_line(old(self)@, rest@) == state_outcome(r, final(self)@),
    {
        self.parse_value_part(rest)
    }

    /// Opens one container per non-white-space character of `s`, as
    /// `open_inline` says.
    fn parse_inline_containers(&mut self, s: &[char])
        ensures
            final(self)@ == open_inline(old(self)@, s@),
    {
        let n: usize = s.len();
        let mut i: usize = 0;
        assert(s@.skip(0) =~= s@);
        while i < n
            invariant
                n == s@.len(),
                0 <= i <= n,
                open_inline(old(self)@, s@) == open_inline(self@, s@.skip(i as int)),
            decreases n - i,
        {
            assert(s@.skip(i as int).skip(1) =~= s@.skip(i + 1));
            let c = s[i];
            if !is_ws_char(c) {
                self.open(c == '{');
            }
            i = i + 1;
        }
    }

    /// A line inside a container, as `body_line` says.
    fn parse_body_line(&mut self, line: &[char]) -> (r: Result<(), String>)
        ensures
            body_line(old(self)@, line@) == state_outcome(r, final(self)@),
    {
        let is_obj = self.top_is_obj();
        if !is_obj && starts_inline(line, false) {
            self.parse_inline_containers(line);
            return Ok(());
        }
        if line.len() == 1 && line[0] == '{' {
            assert(line@ =~= seq!['{']);
            self.open(true);
            return Ok(());
        }
        if line.len() == 1 && line[0] == '[' {
            assert(line@ =~= seq!['[']);
            self.open(false);
            return Ok(());
        }
        assert(line@ != seq!['{'] && line@ != seq!['[']);
        if is_obj {
            self.parse_object_line(line)
        } else {
            self.parse_array_line(line)
        }
    }

    /// A line at the top level, as `root_line` says.
    fn parse_root_line(&mut self, line: &[char]) -> (r: Result<(), String>)
        ensures
            root_line(old(self)@, line@) == state_outcome(r, final(self)@),
    {
        if starts_inline(line, true) {
            self.parse_inline_containers(line);
            return Ok(());
        }
        if line.len() == 1 && line[0] == '{' {
            assert(line@ =~= seq!['{']);
            self.open(true);
            return Ok(());
        }
        if line.len() == 1 && line[0] == '[' {
            assert(line@ =~= seq!['[']);
            self.open(false);
            return Ok(());
        }
        assert(line@ != seq!['{'] && line@ != seq!['[']);
        match self.parse_scalar_root(line) {
            Err(e) => Err(e),
            Ok(_) => Err(message("top-level value must be an object or array: '", line, "'")),
        }
    }

    /// One line, as `step` says.
    fn parse_line(&mut self, line: &[char]) -> (r: Result<(), String>)
        ensures
            step(old(self)@, line@) == state_outcome(r, final(self)@),
    {
        reveal(step);
        if self.in_string {
            match self.handle_string_line(line) {
                Err(e) => {
                    return Err(e);
                },
                Ok(None) => {
                    return Ok(());
                },
                Ok(Some((ss, n_pop))) => {
                    self.in_string = false;
                    self.strbuf = String::new();
                    self.push_child(PlnValue::String(ss));
                    self.pop_layers(n_pop);
                    return Ok(());
                },
            }
        }
        if line.len() == 0 {
            if self.stack.len() > 0 {
                return Err(String::from_str("empty line not allowed in message body"));
            }
            return Ok(());
        }
        if self.stack.len() == 0 {
            return self.parse_root_line(line);
        }
        let is_obj = self.top_is_obj();
        let len: usize = line.len();
        let k = digit_run_from(line, 0);
        assert(line@.skip(0) =~= line@);
        if k > 0 && k < len && line[k] == ' ' && (is_obj || (k + 1 < len && (line[k + 1] == '['
            || line[k + 1] == '{'))) {
            let digits = slice_subrange(line, 0, k);
            assert(digits@ =~= line@.take(k as int));
            proof {
                lemma_digit_run(line@);
                assert(all_digits(line@.take(k as int)));
            }
            let n: usize = match digits_to_usize(digits) {
                Some(n) => n,
                None => 0,
            };
            let rest = slice_subrange(line, k + 1, len);
            assert(rest@ =~= line@.skip(k + 1));
            self.pop_layers(n);
            return self.parse_body_line(rest);
        }
        self.parse_body_line(line)
    }

    /// Reads a whole text, as `parse` says.
    fn parse(&mut self, text: &str) -> (r: Result<PlnValue, String>)
        requires
            old(self)@ == init_state(),
        ensures
            root_outcome(r) == parse(text@),
    {
        let mut rest: &str = text;
        while !rest.is_empty()
            invariant
                run(Ok(init_state()), lines(text@)) == run(Ok(self@), lines(rest@)),
            decreases rest@.len(),
        {
            let bytes = rest.as_bytes();
            let ghost r = rest@;
            let ghost enc = encode_utf8(r);
            assert(bytes@ == enc);
            let line: &str;
            let next: &str;
            match first_byte(10u8, bytes) {
                Some(nl) => {
                    proof {
                        lemma_split_at_line_feed(r, nl as int);
                    }
                    let (head, after) = rest.split_at(nl);
                    let (_, tail) = after.split_at(1);
                    proof {
                        encode_utf8_decode_utf8(head@);
                        encode_utf8_decode_utf8(tail@);
                        assert(encode_utf8(head@) =~= enc.subrange(0, nl as int));
                        assert(encode_utf8(tail@) =~= enc.subrange(nl + 1, enc.len() as int));
                    }
                    line = head;
                    next = tail;
                },
                None => {
                    proof {
                        lemma_no_line_feed(r);
                        reveal_strlit("");
                    }
                    line = rest;
                    next = "";
                },
            }
            proof {
                lemma_line_and_rest(r, line@, next@);
            }
            let cs = chars_of(line);
            let mut n: usize = cs.len();
            if n > 0 && cs[n - 1] == '\r' {
                n = n - 1;
            }
            let l = slice_subrange(cs.as_slice(), 0, n);
            assert(l@ =~= strip_cr(line@));
            proof {
                let ls = seq![l@] + lines(next@);
                assert(lines(r) == ls);
                assert(ls[0] == l@);
                assert(ls.drop_first() =~= lines(next@));
            }
            match self.parse_line(l) {
                Ok(()) => {},
                Err(e) => {
                    proof {
                        lemma_run_err(e@, lines(next@));
                    }
                    return Err(e);
                },
            }
            rest = next;
        }
        assert(lines(rest@) =~= Seq::<Seq<char>>::empty());
        if self.in_string {
            return Err(String::from_str("unclosed string at end of input"));
        }
        let ghost before = self@;
        let mut remaining: usize = if self.stack.len() == 0 {
            0
        } else {
            self.stack.len() - 1
        };
        while self.stack.len() > 1
            invariant
                remaining == (if self@.stack.len() == 0 {
                    0
                } else {
                    self@.stack.len() - 1
                }),
                !self@.in_string,
                pop_n(
                    before,
                    (if before.stack.len() == 0 {
                        0
                    } else {
                        before.stack.len() - 1
                    }) as nat,
                ) == pop_n(self@, remaining as nat),
            decreases remaining,
        {
            let ghost prev = self@;
            if let Some((val, key)) = self.close() {
                self.key = match key {
                    Some(k) => k,
                    None => String::new(),
                };
                self.push_child(val);
                proof {
                    lemma_push_child_len(
                        PState {
                            stack: prev.stack.drop_last(),
                            key: self@.key,
                            strbuf: prev.strbuf,
                            in_string: prev.in_string,
                        },
                        frame_value(prev.stack.last()),
                    );
                }
            }
            remaining = remaining - 1;
        }
        match self.close() {
            Some((val, _key)) => Ok(val),
            None => Err(String::from_str("empty input")),
        }
    }
}

/// Which of the words `true` (1), `false` (2), `null` (3) `s` is, or 0.
fn word_of(s: &[char]) -> (r: u8)
    ensures
        r == 1 <==> s@ == seq!['t', 'r', 'u', 'e'],
        r == 2 <==> s@ == seq!['f', 'a', 'l', 's', 'e'],
        r == 3 <==> s@ == seq!['n', 'u', 'l', 'l'],
        r <= 3,
{
    if s.len() == 4 && s[0] == 't' && s[1] == 'r' && s[2] == 'u' && s[3] == 'e' {
        assert(s@ =~= seq!['t', 'r', 'u', 'e']);
        1
    } else if s.len() == 5 && s[0] == 'f' && s[1] == 'a' && s[2] == 'l' && s[3] == 's' && s[4]
        == 'e' {
        assert(s@ =~= seq!['f', 'a', 'l', 's', 'e']);
        2
    } else if s.len() == 4 && s[0] == 'n' && s[1] == 'u' && s[2] == 'l' && s[3] == 'l' {
        assert(s@ =~= seq!['n', 'u', 'l', 'l']);
        3
    } else {
        0
    }
}

/// Whether `line` opens several containers at once (see `inline_start`).
fn starts_inline(line: &[char], at_root: bool) -> (r: bool)
    ensures
        r == inline_start(line@, at_root),
{
    let len: usize = line.len();
    if len <= 1 {
        return false;
    }
    let first_ok = if at_root {
        line[0] == '['
    } else {
        line[0] == '[' || line[0] == '{'
    };
    if !first_ok {
        return false;
    }
    let rest = slice_subrange(line, 1, len);
    assert(rest@ =~= line@.skip(1));
    let k = trim_start_index(rest);
    k < rest.len() && (rest[k] == '[' || rest[k] == '{')
}

/// The model of a line's outcome.
pub open spec fn state_outcome(r: Result<(), String>, st: PState) -> Result<PState, Seq<char>> {
    match r {
        Ok(()) => Ok(st),
        Err(e) => Err(e@),
    }
}

/// A text is a line and the text after it: either the line, a line feed and
/// the rest, or the whole text with no line feed and nothing after it.
proof fn lemma_line_and_rest(r: Seq<char>, line: Seq<char>, next: Seq<char>)
    requires
        r.len() > 0,
        (r == line + seq!['\n'] + next && forall|i: int| 0 <= i < line.len() ==> line[i] != '\n')
            || (r == line && next.len() == 0 && forall|i: int| 0 <= i < r.len() ==> r[i] != '\n'),
    ensures
        lines(r) == seq![strip_cr(line)] + lines(next),
        next.len() < r.len(),
{
    lemma_find_char_bound(r, '\n');
    if r == line + seq!['\n'] + next && forall|i: int| 0 <= i < line.len() ==> line[i] != '\n' {
        let i = line.len() as int;
        assert(r[i] == '\n');
        assert(find_char(r, '\n') == Some(i)) by {
            match find_char(r, '\n') {
                Some(j) => {
                    if j < i {
                        assert(r[j] == line[j]);
                    }
                },
                None => {},
            }
        }
        assert(r.take(i) =~= line);
        assert(r.skip(i + 1) =~= next);
    } else {
        assert(find_char(r, '\n') is None) by {
            if find_char(r, '\n') is Some {
                let j = find_char(r, '\n')->0;
                assert(r[j] == '\n');
            }
        }
        assert(lines(next) =~= Seq::<Seq<char>>::empty());
        assert(seq![strip_cr(line)] + lines(next) =~= seq![strip_cr(line)]);
    }
}

/// Reading stops at the first error.
proof fn lemma_run_err(e: Seq<char>, ls: Seq<Seq<char>>)
    ensures
        run(Err(e), ls) == Err::<PState, Seq<char>>(e),
    decreases ls.len(),
{
}

/// `find_sep` gives an index at which `": "` starts.
proof fn lemma_find_sep_bound(s: Seq<char>)
    ensures
        find_sep(s) matches Some(i) ==> 0 <= i && i + 2 <= s.len(),
    decreases s.len(),
{
    if s.len() >= 2 {
        lemma_find_sep_bound(s.drop_first());
    }
}

/// The model of a leaf reading.
pub open spec fn scalar_outcome(r: Result<Option<PlnValue>, String>) -> Result<
    Option<Value>,
    Seq<char>,
> {
    match r {
        Ok(Some(v)) => Ok(Some(v@)),
        Ok(None) => Ok(None),
        Err(e) => Err(e@),
    }
}

/// The model of a top-level leaf reading.
pub open spec fn root_outcome(r: Result<PlnValue, String>) -> Result<Value, Seq<char>> {
    match r {
        Ok(v) => Ok(v@),
        Err(e) => Err(e@),
    }
}

/// The model of a string-line reading.
pub open spec fn string_outcome(r: Result<Option<(String, usize)>, String>) -> Result<
    Option<(Seq<char>, nat)>,
    Seq<char>,
> {
    match r {
        Ok(Some((s, n))) => Ok(Some((s@, n as nat))),
        Ok(None) => Ok(None),
        Err(e) => Err(e@),
    }
}

/// What a line of a string that spans lines gives: the whole string and the
/// pops when it closes, or nothing when it goes on.
pub open spec fn string_line_outcome(strbuf: Seq<char>, line: Seq<char>) -> Result<
    Option<(Seq<char>, nat)>,
    Seq<char>,
> {
    let r = scan_quoted(line);
    match r.1 {
        None => Ok(None),
        Some(t) => match pop_after(t) {
            Err(e) => Err(e),
            Ok(n) => Ok(Some((strbuf + r.0, n))),
        },
    }
}

} // verus!
