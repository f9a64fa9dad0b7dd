//! Reading back what the writer wrote gives the value again, for every value
//! that can be written so (`round_trips`), and other facts of reading.

use vstd::prelude::*;

use crate::Value;
use crate::serializer::{
    child, child_count, child_pop, depth, escape, is_container, leaf_text,
    lemma_entries_depth_bound, pop_text, ser, ser_entries, serialize,
};
use crate::syntax::{
    digit_run, exponent_ok, finish, float_syntax, frame_value, has_float_mark, has_pop_suffix,
    in_string_state, init_state, inline_start, is_open_bracket, key_char_ok, key_valid,
    lemma_digit_run, lemma_find_char_bound, lines, number_value, open_frame, parse, pop_after,
    pop_count, pop_layers, pop_n, pop_one, prefix_pop, push_child, quoted_value, run, scan_quoted,
    step, string_line, strip_cr, top_is_obj, trim_pop_suffix, value_line, with_key, wrap_i64,
    PState, SBuild, SFrame,
};
use crate::text::{
    all_digits, all_ws, digits_value, find_char, find_sep, int_text, is_digit, nat_text,
};

verus! {

// ---------------------------------------------------------------------------
// Lines
// ---------------------------------------------------------------------------
/// The first line feed of `a + b` is that of `a`, when `a` has one.
proof fn lemma_find_char_concat(a: Seq<char>, b: Seq<char>, c: char)
    requires
        find_char(a, c) is Some,
    ensures
        find_char(a + b, c) == find_char(a, c),
    decreases a.len(),
{
    if a[0] != c {
        assert((a + b).drop_first() =~= a.drop_first() + b);
        lemma_find_char_concat(a.drop_first(), b, c);
    }
}

/// Lines split across a text that ends a line: the lines of `a + b` are those
/// of `a` and then those of `b`.
pub proof fn lemma_lines_concat(a: Seq<char>, b: Seq<char>)
    requires
        a.len() == 0 || a.last() == '\n',
    ensures
        lines(a + b) == lines(a) + lines(b),
    decreases a.len(),
{
    if a.len() == 0 {
        assert(a + b =~= b);
        assert(lines(a) =~= Seq::<Seq<char>>::empty());
        assert(lines(a) + lines(b) =~= lines(b));
    } else {
        assert(find_char(a, '\n') is Some) by {
            lemma_find_char_bound(a, '\n');
            if find_char(a, '\n') is None {
                assert(a[a.len() - 1] == '\n');
            }
        }
        lemma_find_char_concat(a, b, '\n');
        lemma_find_char_bound(a, '\n');
        let i = find_char(a, '\n')->0;
        assert((a + b).take(i) =~= a.take(i));
        assert((a + b).skip(i + 1) =~= a.skip(i + 1) + b);
        lemma_lines_concat(a.skip(i + 1), b);
        assert(lines(a + b) =~= seq![strip_cr(a.take(i))] + (lines(a.skip(i + 1)) + lines(b)));
        assert(lines(a) =~= seq![strip_cr(a.take(i))] + lines(a.skip(i + 1)));
    }
}

/// A line and its line feed make one line.
pub proof fn lemma_lines_one(l: Seq<char>)
    requires
        forall|i: int| 0 <= i < l.len() ==> l[i] != '\n',
    ensures
        lines(l + seq!['\n']) == seq![strip_cr(l)],
{
    let t = l + seq!['\n'];
    lemma_find_char_bound(t, '\n');
    match find_char(t, '\n') {
        Some(i) => {
            assert(i == l.len()) by {
                if i < l.len() {
                    assert(t[i] == l[i]);
                }
            }
            assert(t.take(i) =~= l);
            assert(t.skip(i + 1) =~= Seq::<char>::empty());
            assert(lines(t.skip(i + 1)) =~= Seq::<Seq<char>>::empty());
            assert(lines(t) =~= seq![strip_cr(l)]);
        },
        None => {
            assert(t[l.len() as int] == '\n');
        },
    }
}

/// Reading lines in two parts.
pub proof fn lemma_run_concat(r: Result<PState, Seq<char>>, l1: Seq<Seq<char>>, l2: Seq<Seq<char>>)
    ensures
        run(r, l1 + l2) == run(run(r, l1), l2),
    decreases l1.len(),
{
    if l1.len() == 0 {
        assert(l1 + l2 =~= l2);
    } else {
        assert((l1 + l2)[0] == l1[0]);
        assert((l1 + l2).drop_first() =~= l1.drop_first() + l2);
        match r {
            Ok(st) => {
                lemma_run_concat(crate::syntax::step(st, l1[0]), l1.drop_first(), l2);
            },
            Err(e) => {
                lemma_run_concat(r, l1.drop_first(), l2);
            },
        }
    }
}

/// Reading a single line.
pub proof fn lemma_run_one(st: PState, l: Seq<char>)
    ensures
        run(Ok(st), seq![l]) == crate::syntax::step(st, l),
{
    assert(seq![l].drop_first() =~= Seq::<Seq<char>>::empty());
    assert(run(crate::syntax::step(st, l), Seq::<Seq<char>>::empty()) == crate::syntax::step(st, l));
}

// ---------------------------------------------------------------------------
// Escaping and reading strings back
// ---------------------------------------------------------------------------
/// The escape of one character.
pub open spec fn escape_char(c: char) -> Seq<char> {
    if c == '"' {
        seq!['"', '"']
    } else {
        seq![c]
    }
}

/// Escaping distributes over concatenation.
pub proof fn lemma_escape_concat(a: Seq<char>, b: Seq<char>)
    ensures
        escape(a + b) == escape(a) + escape(b),
    decreases b.len(),
{
    if b.len() == 0 {
        assert(a + b =~= a);
        assert(escape(b) =~= Seq::<char>::empty());
        assert(escape(a) + escape(b) =~= escape(a));
    } else {
        assert((a + b).drop_last() =~= a + b.drop_last());
        assert((a + b).last() == b.last());
        lemma_escape_concat(a, b.drop_last());
        assert(escape(a + b) =~= escape(a) + escape(b));
    }
}

/// The escape of a single character.
pub proof fn lemma_escape_one(c: char)
    ensures
        escape(seq![c]) == escape_char(c),
{
    assert(seq![c].drop_last() =~= Seq::<char>::empty());
    assert(escape(Seq::<char>::empty()) =~= Seq::<char>::empty());
    assert(escape(seq![c]) =~= escape_char(c));
}

/// Escaping keeps every character other than `"`, and line feeds in
/// particular.
pub proof fn lemma_escape_no_char(s: Seq<char>, c: char)
    requires
        c != '"',
        forall|i: int| 0 <= i < s.len() ==> s[i] != c,
    ensures
        forall|i: int| 0 <= i < escape(s).len() ==> escape(s)[i] != c,
    decreases s.len(),
{
    if s.len() > 0 {
        lemma_escape_no_char(s.drop_last(), c);
        let e = escape(s.drop_last());
        let l = s.last();
        assert(l == s[s.len() - 1]);
        assert forall|i: int| 0 <= i < escape(s).len() implies escape(s)[i] != c by {
            if i < e.len() {
                assert(escape(s)[i] == e[i]);
            } else {
                assert(escape(s)[i] == escape_char(l)[i - e.len()]);
            }
        }
    }
}

/// A text without `"` escapes to itself.
pub proof fn lemma_escape_plain(s: Seq<char>)
    requires
        forall|i: int| 0 <= i < s.len() ==> s[i] != '"',
    ensures
        escape(s) == s,
    decreases s.len(),
{
    if s.len() > 0 {
        lemma_escape_plain(s.drop_last());
        assert(escape(s) =~= s.drop_last() + seq![s.last()]);
        assert(s.drop_last() + seq![s.last()] =~= s);
    }
}

/// Reading an escaped text gives it back, and goes on with what follows.
pub proof fn lemma_scan_escape(s: Seq<char>, r: Seq<char>)
    ensures
        scan_quoted(escape(s) + r) == (s + scan_quoted(r).0, scan_quoted(r).1),
    decreases s.len(),
{
    if s.len() == 0 {
        assert(escape(s) + r =~= r);
        assert(s + scan_quoted(r).0 =~= scan_quoted(r).0);
    } else {
        let c = s[0];
        let rest = s.drop_first();
        assert(s =~= seq![c] + rest);
        lemma_escape_concat(seq![c], rest);
        lemma_escape_one(c);
        lemma_scan_escape(rest, r);
        let t = escape(s) + r;
        assert(t =~= escape_char(c) + (escape(rest) + r));
        if c == '"' {
            assert(t.skip(2) =~= escape(rest) + r);
        } else {
            assert(t.skip(1) =~= escape(rest) + r);
        }
        assert(s + scan_quoted(r).0 =~= seq![c] + (rest + scan_quoted(r).0));
    }
}

/// A closing quote ends the string; what follows is the rest.
pub proof fn lemma_scan_close(t: Seq<char>)
    requires
        t.len() == 0 || t[0] != '"',
    ensures
        scan_quoted(seq!['"'] + t) == (Seq::<char>::empty(), Some(t)),
{
    assert((seq!['"'] + t).skip(1) =~= t);
}

/// With no quote at all, the whole text is read and no closing quote found.
pub proof fn lemma_scan_open(t: Seq<char>)
    requires
        forall|i: int| 0 <= i < t.len() ==> t[i] != '"',
    ensures
        scan_quoted(t) == (t, Option::<Seq<char>>::None),
    decreases t.len(),
{
    if t.len() > 0 {
        lemma_scan_open(t.skip(1));
        assert(seq![t[0]] + t.skip(1) =~= t);
    }
}

// ---------------------------------------------------------------------------
// Numbers
// ---------------------------------------------------------------------------
/// The decimal text of a number is digits that read back as the number.
pub proof fn lemma_nat_text(n: nat)
    ensures
        nat_text(n).len() > 0,
        all_digits(nat_text(n)),
        digits_value(nat_text(n)) == n,
    decreases n,
{
    if n >= 10 {
        lemma_nat_text(n / 10);
        let t = nat_text(n);
        assert(t.drop_last() =~= nat_text(n / 10));
        assert(t.last() == crate::text::digit_char(n % 10));
        lemma_digit_char(n % 10);
        assert(digits_value(t) == digits_value(nat_text(n / 10)) * 10 + (n % 10));
        assert((n / 10) * 10 + n % 10 == n);
        assert forall|i: int| 0 <= i < t.len() implies is_digit(#[trigger] t[i]) by {
            if i < t.len() - 1 {
                assert(t[i] == nat_text(n / 10)[i]);
            }
        }
    } else {
        assert(nat_text(n).drop_last() =~= Seq::<char>::empty());
        assert(digits_value(Seq::<char>::empty()) == 0);
        lemma_digit_char(n);
    }
}

/// A digit character reads back as its digit.
pub proof fn lemma_digit_char(d: nat)
    requires
        d < 10,
    ensures
        is_digit(crate::text::digit_char(d)),
        crate::text::digit_value(crate::text::digit_char(d)) == d,
{
    let c = crate::text::digit_char(d);
    assert(c as int == '0' as int + d);
}

/// What follows a closing quote in written text reads back as its count.
pub proof fn lemma_pop_after_text(n: nat)
    requires
        n <= usize::MAX,
    ensures
        pop_after(pop_text(n)) == Ok::<nat, Seq<char>>(n),
{
    if n > 0 {
        lemma_nat_text(n);
        assert(pop_text(n).skip(1) =~= nat_text(n));
    }
}

/// A pop suffix written after a value text is found again.
pub proof fn lemma_trim_pop_text(t: Seq<char>, n: nat)
    requires
        n <= usize::MAX,
        n == 0 ==> !(exists|i: int| has_pop_suffix(t, i)),
    ensures
        trim_pop_suffix(t + pop_text(n)) == (t, n),
{
    let s = t + pop_text(n);
    if n == 0 {
        assert(s =~= t);
    } else {
        lemma_nat_text(n);
        let k = t.len() as int;
        assert(s.skip(k + 1) =~= nat_text(n));
        assert(has_pop_suffix(s, k));
        let j = choose|j: int| has_pop_suffix(s, j);
        crate::parser::lemma_pop_suffix_unique(s, j, k);
        assert(s.take(k) =~= t);
    }
}


/// A decimal integer's text reads back as the integer.
pub proof fn lemma_parse_int_text(n: i64)
    ensures
        number_value(int_text(n)) == Some(Value::Int(n)),
{
    let t = int_text(n);
    let m: nat = if n < 0 {
        (-n) as nat
    } else {
        n as nat
    };
    lemma_nat_text(m);
    let body = nat_text(m);
    if n < 0 {
        assert(t.skip(1) =~= body);
        assert(t[0] == '-');
    } else {
        assert(body[0] != '-') by {
            assert(is_digit(body[0]));
        }
    }
    assert(!has_float_mark(body)) by {
        if has_float_mark(body) {
            let i = choose|i: int| 0 <= i < body.len() && (body[i] == '.' || body[i] == 'e' || body[i] == 'E');
            assert(is_digit(body[i]));
        }
    }
    assert(is_digit(body[0]));
    assert(wrap_i64(if n < 0 { -m } else { m as int }) == n);
}

/// The text of a leaf value that is not a string: no space, no line feed,
/// no bracket, no quote.
pub open spec fn plain_char(c: char) -> bool {
    c != ' ' && c != '\n' && c != '\r' && c != '"' && c != '{' && c != '['
}

pub open spec fn plain_text(t: Seq<char>) -> bool {
    forall|i: int| 0 <= i < t.len() ==> plain_char(#[trigger] t[i])
}

/// Decimal digits are plain.
pub proof fn lemma_digits_plain(t: Seq<char>)
    requires
        all_digits(t),
    ensures
        plain_text(t),
{
    assert forall|i: int| 0 <= i < t.len() implies plain_char(#[trigger] t[i]) by {
        assert(is_digit(t[i]));
    }
}

/// A decimal integer's text is plain.
pub proof fn lemma_int_text_plain(n: i64)
    ensures
        plain_text(int_text(n)),
        int_text(n).len() > 0,
        int_text(n)[0] == '-' || is_digit(int_text(n)[0]),
{
    let m: nat = if n < 0 {
        (-n) as nat
    } else {
        n as nat
    };
    lemma_nat_text(m);
    lemma_digits_plain(nat_text(m));
    if n < 0 {
        let t = int_text(n);
        assert forall|i: int| 0 <= i < t.len() implies plain_char(#[trigger] t[i]) by {
            if i > 0 {
                assert(t[i] == nat_text(m)[i - 1]);
            }
        }
    }
}

/// A float text has only digits, signs, points and exponent marks; in
/// particular it is plain.
pub proof fn lemma_float_plain(s: Seq<char>)
    requires
        float_syntax(s),
    ensures
        plain_text(s),
{
    let neg = s.len() > 0 && s[0] == '-';
    let b0: int = if neg { 1 } else { 0 };
    let b = s.skip(b0);
    assert(b =~= (if neg { s.skip(1) } else { s }));
    let m = digit_run(b);
    lemma_digit_run(b);
    let p1 = b0 + m;
    let r = s.skip(p1);
    assert(b.skip(m as int) =~= r);
    let has_point = r.len() > 0 && r[0] == '.';
    let q: int = if has_point { digit_run(r.skip(1)) as int } else { 0 };
    if has_point {
        lemma_digit_run(r.skip(1));
    }
    let p2: int = if has_point { p1 + 1 + q } else { p1 };
    let r2 = s.skip(p2);
    if has_point {
        assert(r.skip(1).skip(q) =~= r2);
    }
    assert(r2 == (if has_point { r.skip(1).skip(digit_run(r.skip(1)) as int) } else { r }));
    assert(r2.len() == 0 || ((r2[0] == 'e' || r2[0] == 'E') && exponent_ok(r2.skip(1))));
    assert forall|i: int| 0 <= i < s.len() implies plain_char(#[trigger] s[i]) by {
        if i < b0 {
        } else if i < p1 {
            assert(s[i] == b[i - b0]);
            assert(is_digit(b[i - b0]));
        } else if i < p2 {
            if i > p1 {
                assert(s[i] == r.skip(1)[i - p1 - 1]);
                assert(is_digit(r.skip(1)[i - p1 - 1]));
            }
        } else {
            assert(s[i] == r2[i - p2]);
            let e = r2.skip(1);
            if i > p2 {
                assert(s[i] == e[i - p2 - 1]);
                let d = if e.len() > 0 && (e[0] == '+' || e[0] == '-') {
                    e.skip(1)
                } else {
                    e
                };
                if e.len() > 0 && (e[0] == '+' || e[0] == '-') {
                    if i > p2 + 1 {
                        assert(e[i - p2 - 1] == d[i - p2 - 2]);
                        assert(is_digit(d[i - p2 - 2]));
                    }
                } else {
                    assert(is_digit(d[i - p2 - 1]));
                }
            }
        }
    }
}


/// A string that reads back: on one line, or over several lines when its first
/// line holds no quote and does not end in a pop suffix, and no carriage
/// return stands before a line feed.
pub open spec fn str_ok(s: Seq<char>) -> bool {
    match find_char(s, '\n') {
        None => true,
        Some(i) => {
            let seg0 = s.take(i);
            &&& forall|j: int| 0 <= j < seg0.len() ==> seg0[j] != '"'
            &&& !(exists|j: int| has_pop_suffix(seq!['"'] + seg0, j))
            &&& no_cr_lf(s)
        },
    }
}

/// No carriage return stands before a line feed.
pub open spec fn no_cr_lf(s: Seq<char>) -> bool {
    forall|j: int| 0 < j < s.len() && #[trigger] s[j] == '\n' ==> s[j - 1] != '\r'
}

/// A leaf written on one line that reads back: a string without line feeds,
/// a float whose text reads back as that float, any other leaf.
pub open spec fn leaf_ok(v: Value) -> bool {
    match v {
        Value::Str(s) => find_char(s, '\n') is None,
        Value::Float(t) => number_value(t) == Some(Value::Float(t)),
        _ => true,
    }
}

/// A plain text has no pop suffix.
pub proof fn lemma_plain_no_suffix(t: Seq<char>)
    requires
        plain_text(t),
    ensures
        !(exists|i: int| has_pop_suffix(t, i)),
{
    if exists|i: int| has_pop_suffix(t, i) {
        let i = choose|i: int| has_pop_suffix(t, i);
        assert(plain_char(t[i]));
    }
}

/// A text ending in a quote has no pop suffix.
pub proof fn lemma_quote_end_no_suffix(t: Seq<char>)
    requires
        t.len() > 0,
        t.last() == '"',
    ensures
        !(exists|i: int| has_pop_suffix(t, i)),
{
    if exists|i: int| has_pop_suffix(t, i) {
        let i = choose|i: int| has_pop_suffix(t, i);
        let d = t.skip(i + 1);
        assert(d[d.len() - 1] == t.last());
        assert(is_digit(d[d.len() - 1]));
    }
}

/// A string literal as written reads back as the string.
pub proof fn lemma_quoted_value(s: Seq<char>)
    ensures
        quoted_value(escape(s) + seq!['"']) == Ok::<Option<Value>, Seq<char>>(Some(Value::Str(s))),
{
    lemma_scan_escape(s, seq!['"']);
    lemma_scan_close(Seq::<char>::empty());
    assert(seq!['"'] + Seq::<char>::empty() =~= seq!['"']);
    assert(s + Seq::<char>::empty() =~= s);
    assert(all_ws(Seq::<char>::empty()));
}

/// A leaf value that is not a string going over lines, as written with its
/// pops, reads back as the value followed by those pops.
pub proof fn lemma_leaf_value_line(st: PState, v: Value, cp: nat)
    requires
        !is_container(v),
        leaf_ok(v),
        cp <= usize::MAX,
    ensures
        value_line(st, leaf_text(v) + pop_text(cp)) == Ok::<PState, Seq<char>>(
            pop_layers(push_child(st, v), cp),
        ),
        leaf_text(v).len() > 0,
        !is_open_bracket(leaf_text(v)[0]),
{
    let t = leaf_text(v);
    match v {
        Value::Str(s) => {
            lemma_quote_end_no_suffix(t);
            assert(t.skip(1) =~= escape(s) + seq!['"']);
            lemma_quoted_value(s);
        },
        Value::Int(n) => {
            lemma_int_text_plain(n);
            lemma_plain_no_suffix(t);
            lemma_parse_int_text(n);
        },
        Value::Float(f) => {
            lemma_float_plain(f);
            lemma_plain_no_suffix(t);
            let b = if f.len() > 0 && f[0] == '-' { f.skip(1) } else { f };
            assert(b.len() > 0 && is_digit(b[0]));
            if !(f.len() > 0 && f[0] == '-') {
                assert(is_digit(f[0]));
            }
        },
        Value::Null => {
            assert(plain_text(t));
            lemma_plain_no_suffix(t);
        },
        Value::Bool(b) => {
            assert(plain_text(t));
            lemma_plain_no_suffix(t);
        },
        _ => {},
    }
    lemma_trim_pop_text(t, cp);
    assert((t + pop_text(cp))[0] == t[0]);
}


/// No line feed in `s`.
pub open spec fn no_lf(s: Seq<char>) -> bool {
    forall|i: int| 0 <= i < s.len() ==> s[i] != '\n'
}

/// A line read while a string goes over lines.
pub proof fn lemma_step_in_string(st: PState, l: Seq<char>)
    requires
        st.in_string,
    ensures
        step(st, l) == string_line(st, l),
{
    reveal(step);
}

/// The last line of a string that goes over lines: its escaped rest, the
/// closing quote and the pops.
proof fn lemma_string_last_line(st: PState, tail: Seq<char>, cp: nat)
    requires
        st.in_string,
        no_lf(tail),
        cp <= usize::MAX,
    ensures
        run(Ok(st), lines(escape(tail) + seq!['"'] + pop_text(cp) + seq!['\n'])) == Ok::<
            PState,
            Seq<char>,
        >(
            pop_layers(
                push_child(
                    PState { stack: st.stack, key: st.key, strbuf: Seq::empty(), in_string: false },
                    Value::Str(st.strbuf + tail),
                ),
                cp,
            ),
        ),
{
    lemma_pop_after_text(cp);
    lemma_nat_text_no_lf(cp);
    let l = escape(tail) + seq!['"'] + pop_text(cp);
    lemma_escape_no_char(tail, '\n');
    assert(no_lf(l));
    lemma_lines_one(l);
    assert(escape(tail) + seq!['"'] + pop_text(cp) + seq!['\n'] =~= l + seq!['\n']);
    assert(strip_cr(l) == l) by {
        if pop_text(cp).len() > 0 {
            lemma_nat_text(cp);
            assert(l.last() == nat_text(cp).last());
            assert(is_digit(nat_text(cp)[nat_text(cp).len() - 1]));
        }
    }
    lemma_run_one(st, l);
    lemma_step_in_string(st, l);
    lemma_scan_escape(tail, seq!['"'] + pop_text(cp));
    assert(l =~= escape(tail) + (seq!['"'] + pop_text(cp)));
    lemma_pop_text_start(cp);
    lemma_scan_close(pop_text(cp));
    assert(tail + Seq::<char>::empty() =~= tail);
}

/// A middle line of a string that goes over lines: the escaped segment.
proof fn lemma_string_mid_line(st: PState, seg: Seq<char>)
    requires
        st.in_string,
        no_lf(seg),
        seg.len() > 0 ==> seg.last() != '\r',
    ensures
        escape(seg).len() == 0 || escape(seg).last() != '\r',
        no_lf(escape(seg)),
        strip_cr(escape(seg)) == escape(seg),
        step(st, escape(seg)) == Ok::<PState, Seq<char>>(
            in_string_state(st, st.strbuf + seg + seq!['\n']),
        ),
{
    let es = escape(seg);
    lemma_escape_no_char(seg, '\n');
    if seg.len() > 0 {
        lemma_escape_concat(seg.drop_last(), seq![seg.last()]);
        lemma_escape_one(seg.last());
        assert(seg.drop_last() + seq![seg.last()] =~= seg);
        assert(es.last() == escape_char(seg.last()).last());
    } else {
        assert(es =~= Seq::<char>::empty());
    }
    lemma_step_in_string(st, es);
    lemma_scan_escape(seg, Seq::<char>::empty());
    assert(es + Seq::<char>::empty() =~= es);
    assert(scan_quoted(Seq::<char>::empty()).0 =~= Seq::<char>::empty());
    assert(seg + Seq::<char>::empty() =~= seg);
}

/// The rest of a string that goes over lines, as written (escaped, closed and
/// followed by its pops), reads back as the whole string followed by the pops.
pub proof fn lemma_string_tail(st: PState, tail: Seq<char>, cp: nat)
    requires
        st.in_string,
        no_cr_lf(tail),
        cp <= usize::MAX,
    ensures
        run(Ok(st), lines(escape(tail) + seq!['"'] + pop_text(cp) + seq!['\n'])) == Ok::<
            PState,
            Seq<char>,
        >(
            pop_layers(
                push_child(
                    PState { stack: st.stack, key: st.key, strbuf: Seq::empty(), in_string: false },
                    Value::Str(st.strbuf + tail),
                ),
                cp,
            ),
        ),
    decreases tail.len(),
{
    lemma_find_char_bound(tail, '\n');
    match find_char(tail, '\n') {
        None => {
            lemma_string_last_line(st, tail, cp);
        },
        Some(i) => {
            let seg = tail.take(i);
            let tail2 = tail.skip(i + 1);
            assert(tail =~= seg + seq!['\n'] + tail2);
            lemma_escape_concat(seg + seq!['\n'], tail2);
            lemma_escape_concat(seg, seq!['\n']);
            lemma_escape_one('\n');
            let es = escape(seg);
            if seg.len() > 0 {
                assert(tail[i] == '\n');
                assert(tail[i - 1] == seg.last());
            }
            lemma_string_mid_line(st, seg);
            let rest = escape(tail2) + seq!['"'] + pop_text(cp) + seq!['\n'];
            let text = escape(tail) + seq!['"'] + pop_text(cp) + seq!['\n'];
            assert(text =~= (es + seq!['\n']) + rest);
            lemma_lines_concat(es + seq!['\n'], rest);
            lemma_lines_one(es);
            lemma_run_concat(Ok(st), seq![es], lines(rest));
            lemma_run_one(st, es);
            let st2 = in_string_state(st, st.strbuf + seg + seq!['\n']);
            assert(no_cr_lf(tail2)) by {
                assert forall|j: int| 0 < j < tail2.len() && #[trigger] tail2[j] == '\n' implies tail2[j - 1] != '\r' by {
                    assert(tail2[j] == tail[i + 1 + j]);
                    assert(tail2[j - 1] == tail[i + j]);
                }
            }
            lemma_string_tail(st2, tail2, cp);
            assert(st2.strbuf + tail2 =~= st.strbuf + tail);
        },
    }
}

/// A pop suffix starts with a space, if it is there at all.
pub proof fn lemma_pop_text_start(n: nat)
    ensures
        pop_text(n).len() == 0 || pop_text(n)[0] == ' ',
{
}

/// Decimal text holds no line feed.
pub proof fn lemma_nat_text_no_lf(n: nat)
    ensures
        no_lf(pop_text(n)),
        no_lf(nat_text(n)),
{
    lemma_nat_text(n);
    lemma_digits_plain(nat_text(n));
    assert(no_lf(nat_text(n)));
    if n > 0 {
        assert forall|i: int| 0 <= i < pop_text(n).len() implies pop_text(n)[i] != '\n' by {
            if i > 0 {
                assert(pop_text(n)[i] == nat_text(n)[i - 1]);
            }
        }
    }
}


// ---------------------------------------------------------------------------
// Closing containers
// ---------------------------------------------------------------------------
/// Closing a container removes one from the stack.
pub proof fn lemma_pop_one_len(x: PState)
    requires
        x.stack.len() >= 1,
    ensures
        pop_one(x).stack.len() == x.stack.len() - 1,
        pop_one(x).in_string == x.in_string,
{
}

/// Closing zero containers changes nothing.
pub proof fn lemma_pop_layers_zero(x: PState)
    ensures
        pop_layers(x, 0) == x,
{
}

/// Closing `n + 1` containers is closing one and then `n`.
pub proof fn lemma_pop_layers_succ(x: PState, n: nat)
    requires
        x.stack.len() >= 2,
    ensures
        pop_layers(x, n + 1) == pop_layers(pop_one(x), n),
{
    lemma_pop_one_len(x);
}

/// Closing one container before the end changes nothing at the end.
pub proof fn lemma_finish_pop_one(x: PState)
    requires
        !x.in_string,
        x.stack.len() >= 2,
    ensures
        finish(x) == finish(pop_one(x)),
{
    lemma_pop_one_len(x);
}

/// Closing containers before the end changes nothing at the end.
pub proof fn lemma_finish_pop_n(x: PState, m: nat)
    requires
        !x.in_string,
        m + 1 <= x.stack.len(),
    ensures
        finish(pop_n(x, m)) == finish(x),
    decreases m,
{
    if m > 0 {
        lemma_pop_one_len(x);
        lemma_finish_pop_one(x);
        lemma_finish_pop_n(pop_one(x), (m - 1) as nat);
    }
}

/// Closing containers before the end changes nothing at the end.
pub proof fn lemma_finish_pop_layers(x: PState, n: nat)
    requires
        !x.in_string,
    ensures
        finish(pop_layers(x, n)) == finish(x),
{
    let limit: nat = if x.stack.len() == 0 {
        0
    } else {
        (x.stack.len() - 1) as nat
    };
    let m = if n <= limit {
        n
    } else {
        limit
    };
    if x.stack.len() > 0 {
        lemma_finish_pop_n(x, m);
    }
}


// ---------------------------------------------------------------------------
// Values that read back
// ---------------------------------------------------------------------------
/// Whether `v` reads back from its text. `last` says that nothing is written
/// after `v`: only there may a nested container be empty (an empty container
/// writes no line that could carry its closes). Object keys must be valid,
/// strings as `str_ok` says, floats must read back as the same text.
pub open spec fn writable(v: Value, last: bool) -> bool
    decreases v, 1int, 0int,
{
    match v {
        Value::Object(cs) => (cs.len() > 0 || last) && writable_entries(v, cs.len() as int, last),
        Value::Array(xs) => (xs.len() > 0 || last) && writable_entries(v, xs.len() as int, last),
        Value::Str(s) => str_ok(s),
        Value::Float(t) => number_value(t) == Some(Value::Float(t)),
        _ => true,
    }
}

/// `writable` for the first `k` children of a container.
pub open spec fn writable_entries(v: Value, k: int, last: bool) -> bool
    decreases v, 0int, k,
{
    if k <= 0 {
        true
    } else {
        match v {
            Value::Object(cs) => if k > cs.len() {
                true
            } else {
                &&& writable_entries(v, k - 1, last)
                &&& key_valid(cs[k - 1].0)
                &&& writable(cs[k - 1].1, last && k == cs.len())
            },
            Value::Array(xs) => if k > xs.len() {
                true
            } else {
                &&& writable_entries(v, k - 1, last)
                &&& writable(xs[k - 1], last && k == xs.len())
            },
            _ => true,
        }
    }
}

/// A document that reads back from its text: a container, `writable` as the
/// last (and only) thing written, nesting no deeper than `usize` counts.
pub open spec fn round_trips(v: Value) -> bool {
    &&& is_container(v)
    &&& writable(v, true)
    &&& depth(v) <= usize::MAX
}

/// The key of the `i`-th child of a container: `Some` in an object.
pub open spec fn child_key(v: Value, i: int) -> Option<Seq<char>> {
    match v {
        Value::Object(cs) => Some(cs[i].0),
        _ => None,
    }
}

/// What an entry's line starts with: `key: ` in an object, nothing in an array.
pub open spec fn key_prefix(key: Option<Seq<char>>) -> Seq<char> {
    match key {
        Some(k) => k + seq![':', ' '],
        None => Seq::empty(),
    }
}

/// The text of an entry.
pub open spec fn entry_text(key: Option<Seq<char>>, v: Value, cp: nat) -> Seq<char> {
    key_prefix(key) + ser(v, cp)
}

/// The state with the entry's key pending (in an object).
pub open spec fn keyed(st: PState, key: Option<Seq<char>>) -> PState {
    match key {
        Some(k) => with_key(st, k),
        None => st,
    }
}

/// What reading an entry does: add the value and close `cp` containers.
pub open spec fn entry_effect(st: PState, key: Option<Seq<char>>, v: Value, cp: nat) -> PState {
    pop_layers(push_child(keyed(st, key), v), cp)
}

/// A state between lines, ready for an entry of the innermost container
/// (with a valid key exactly when that container is an object).
pub open spec fn ready(st: PState, key: Option<Seq<char>>) -> bool {
    &&& !st.in_string
    &&& st.strbuf == Seq::<char>::empty()
    &&& st.stack.len() > 0
    &&& (top_is_obj(st) <==> key is Some)
    &&& (key matches Some(k) ==> key_valid(k))
}

/// A container with its first `i` children.
pub open spec fn partial(v: Value, i: int) -> SBuild {
    match v {
        Value::Object(cs) => SBuild::Obj(cs.take(i)),
        Value::Array(xs) => SBuild::Arr(xs.take(i)),
        _ => SBuild::Arr(Seq::empty()),
    }
}

/// The state after reading the first `i` children of the container just opened
/// in `s0`.
pub open spec fn filled(s0: PState, v: Value, i: int) -> PState {
    PState {
        stack: s0.stack.update(
            s0.stack.len() - 1,
            SFrame { build: partial(v, i), key: s0.stack.last().key },
        ),
        key: Seq::empty(),
        strbuf: Seq::empty(),
        in_string: false,
    }
}

/// What `writable_entries` says of each child.
pub proof fn lemma_writable_child(v: Value, k: int, last: bool, j: int)
    requires
        is_container(v),
        writable_entries(v, k, last),
        0 <= j < k <= child_count(v),
    ensures
        writable(child(v, j), last && j == child_count(v) - 1),
        v is Object ==> key_valid(v->Object_0[j].0),
    decreases k,
{
    if j < k - 1 {
        lemma_writable_child(v, k - 1, last, j);
    }
}

/// The text of the first `i + 1` children.
pub proof fn lemma_ser_entries_next(v: Value, i: int, cp: nat)
    requires
        is_container(v),
        0 <= i < child_count(v),
    ensures
        ser_entries(v, i + 1, cp) == ser_entries(v, i, cp) + entry_text(
            child_key(v, i),
            child(v, i),
            child_pop(i, child_count(v), cp),
        ),
{
    match v {
        Value::Array(xs) => {
            assert(key_prefix(None) + ser(xs[i], child_pop(i, child_count(v), cp)) =~= ser(
                xs[i],
                child_pop(i, child_count(v), cp),
            ));
        },
        Value::Object(cs) => {
            assert(ser_entries(v, i, cp) + cs[i].0 + seq![':', ' '] + ser(
                cs[i].1,
                child_pop(i, child_count(v), cp),
            ) =~= ser_entries(v, i, cp) + (cs[i].0 + seq![':', ' '] + ser(
                cs[i].1,
                child_pop(i, child_count(v), cp),
            )));
        },
        _ => {},
    }
}

/// Written text ends each line it starts.
pub proof fn lemma_ser_ends_line(v: Value, cp: nat)
    ensures
        ser(v, cp).len() > 0,
        ser(v, cp).last() == '\n',
    decreases v, 1int, 0int,
{
    match v {
        Value::Object(cs) => {
            lemma_ser_entries_ends_line(v, cs.len() as int, cp);
        },
        Value::Array(xs) => {
            lemma_ser_entries_ends_line(v, xs.len() as int, cp);
        },
        _ => {},
    }
}

/// The text of children is empty or ends a line.
pub proof fn lemma_ser_entries_ends_line(v: Value, k: int, cp: nat)
    ensures
        ser_entries(v, k, cp).len() == 0 || ser_entries(v, k, cp).last() == '\n',
    decreases v, 0int, k,
{
    if k > 0 {
        match v {
            Value::Object(cs) => {
                if k <= cs.len() {
                    lemma_ser_ends_line(cs[k - 1].1, child_pop(k - 1, cs.len() as int, cp));
                }
            },
            Value::Array(xs) => {
                if k <= xs.len() {
                    lemma_ser_ends_line(xs[k - 1], child_pop(k - 1, xs.len() as int, cp));
                }
            },
            _ => {},
        }
    }
}

/// A valid key is followed by the first `": "` of its line.
pub proof fn lemma_find_sep_key(k: Seq<char>, rest: Seq<char>)
    requires
        forall|i: int| 0 <= i < k.len() ==> key_char_ok(#[trigger] k[i]),
    ensures
        find_sep(k + seq![':', ' '] + rest) == Some(k.len() as int),
    decreases k.len(),
{
    let s = k + seq![':', ' '] + rest;
    if k.len() > 0 {
        assert(key_char_ok(k[0]));
        assert(s.drop_first() =~= k.drop_first() + seq![':', ' '] + rest);
        assert forall|i: int| 0 <= i < k.drop_first().len() implies key_char_ok(
            #[trigger] k.drop_first()[i],
        ) by {
            assert(k.drop_first()[i] == k[i + 1]);
        }
        lemma_find_sep_key(k.drop_first(), rest);
    }
}


/// No bracket in `t`.
pub open spec fn no_bracket(t: Seq<char>) -> bool {
    forall|i: int| 0 <= i < t.len() ==> !is_open_bracket(#[trigger] t[i])
}

/// The first line of an entry: a container's opening line opens it, any other
/// line reads a value.
pub proof fn lemma_entry_line(st: PState, key: Option<Seq<char>>, t: Seq<char>)
    requires
        ready(st, key),
        t.len() > 0,
        t == seq!['{'] || t == seq!['['] || (!is_open_bracket(t[0]) && (key is Some || t[0]
            == '"' || no_bracket(t))),
    ensures
        step(st, key_prefix(key) + t) == (if t == seq!['{'] {
            Ok(open_frame(keyed(st, key), true))
        } else if t == seq!['['] {
            Ok(open_frame(keyed(st, key), false))
        } else {
            value_line(keyed(st, key), t)
        }),
{
    reveal(step);
    let line = key_prefix(key) + t;
    lemma_digit_run(line);
    let r = digit_run(line) as int;
    match key {
        Some(k) => {
            let kl = k.len() as int;
            assert(line[kl] == ':');
            assert(r <= kl) by {
                if r > kl {
                    assert(is_digit(line[kl]));
                }
            }
            if r < kl {
                assert(line[r] == k[r]);
                assert(key_char_ok(k[r]));
            }
            assert(prefix_pop(line, true) is None);
            lemma_find_sep_key(k, t);
            assert(line.take(kl) =~= k);
            assert(line.skip(kl + 2) =~= t);
            assert(top_is_obj(st));
        },
        None => {
            assert(line =~= t);
            if r > 0 && r + 1 < line.len() {
                if t[0] == '"' || t == seq!['{'] || t == seq!['['] {
                    assert(is_digit(line[0]));
                } else {
                    assert(!is_open_bracket(t[r + 1]));
                }
            }
            assert(prefix_pop(line, false) is None);
            assert(!inline_start(line, false));
        },
    }
}


/// The kind of container `v` is, as `open_frame` takes it.
pub open spec fn obj_kind(v: Value) -> bool {
    v is Object
}

/// Adding the next child to a partly read container.
pub proof fn lemma_filled_step(s0: PState, v: Value, i: int)
    requires
        is_container(v),
        0 <= i < child_count(v),
        s0.stack.len() >= 1,
    ensures
        push_child(keyed(filled(s0, v, i), child_key(v, i)), child(v, i)) == filled(s0, v, i + 1),
{
    let f = filled(s0, v, i);
    let n = s0.stack.len() - 1;
    match v {
        Value::Object(cs) => {
            assert(cs.take(i).push((cs[i].0, cs[i].1)) =~= cs.take(i + 1));
            assert(push_child(keyed(f, child_key(v, i)), child(v, i)).stack =~= filled(
                s0,
                v,
                i + 1,
            ).stack);
        },
        Value::Array(xs) => {
            assert(xs.take(i).push(xs[i]) =~= xs.take(i + 1));
            assert(push_child(keyed(f, child_key(v, i)), child(v, i)).stack =~= filled(
                s0,
                v,
                i + 1,
            ).stack);
        },
        _ => {},
    }
}

/// A container just opened, with no child read yet.
pub proof fn lemma_filled_start(st: PState, key: Option<Seq<char>>, v: Value)
    requires
        ready(st, key),
        is_container(v),
    ensures
        filled(open_frame(keyed(st, key), obj_kind(v)), v, 0) == open_frame(
            keyed(st, key),
            obj_kind(v),
        ),
        open_frame(keyed(st, key), obj_kind(v)).stack.len() >= 2,
        top_is_obj(open_frame(keyed(st, key), obj_kind(v))) == obj_kind(v),
{
    let s0 = open_frame(keyed(st, key), obj_kind(v));
    match v {
        Value::Object(cs) => {
            assert(cs.take(0) =~= Seq::<(Seq<char>, Value)>::empty());
        },
        Value::Array(xs) => {
            assert(xs.take(0) =~= Seq::<Value>::empty());
        },
        _ => {},
    }
    assert(filled(s0, v, 0).stack =~= s0.stack);
}

/// Closing a container once all its children are read adds it to its parent.
pub proof fn lemma_close_filled(st: PState, key: Option<Seq<char>>, v: Value)
    requires
        ready(st, key),
        is_container(v),
    ensures
        pop_one(filled(open_frame(keyed(st, key), obj_kind(v)), v, child_count(v))) == push_child(
            keyed(st, key),
            v,
        ),
{
    let s0 = open_frame(keyed(st, key), obj_kind(v));
    let f = filled(s0, v, child_count(v));
    assert(f.stack.drop_last() =~= st.stack);
    match v {
        Value::Object(cs) => {
            assert(cs.take(cs.len() as int) =~= cs);
        },
        Value::Array(xs) => {
            assert(xs.take(xs.len() as int) =~= xs);
        },
        _ => {},
    }
}

/// Reading the children of a container but the last: each is added in turn.
pub proof fn lemma_children(s0: PState, v: Value, i: int, cp: nat, last: bool)
    requires
        is_container(v),
        0 <= i < child_count(v),
        writable(v, last),
        cp + depth(v) <= usize::MAX,
        s0.stack.len() >= 1,
        filled(s0, v, 0) == s0,
    ensures
        run(Ok(s0), lines(ser_entries(v, i, cp))) == Ok::<PState, Seq<char>>(filled(s0, v, i)),
    decreases v, 0int, i,
{
    if i == 0 {
        assert(lines(ser_entries(v, 0, cp)) =~= Seq::<Seq<char>>::empty()) by {
            assert(ser_entries(v, 0, cp) =~= Seq::<char>::empty());
        }
    } else {
        let j = i - 1;
        lemma_children(s0, v, j, cp, last);
        let s = filled(s0, v, j);
        let n = child_count(v);
        lemma_ser_entries_next(v, j, cp);
        lemma_ser_entries_ends_line(v, j, cp);
        let key = child_key(v, j);
        let c = child(v, j);
        lemma_lines_concat(ser_entries(v, j, cp), entry_text(key, c, 0));
        lemma_run_concat(Ok(s0), lines(ser_entries(v, j, cp)), lines(entry_text(key, c, 0)));
        let wl = match v {
            Value::Object(cs) => cs.len() as int,
            _ => v->Array_0.len() as int,
        };
        lemma_writable_child(v, wl, last, j);
        lemma_entries_depth_bound(v, j + 1);
        assert(ready(s, key)) by {
            assert(s.stack.last() == SFrame { build: partial(v, j), key: s0.stack.last().key });
        }
        lemma_entry(s, key, c, 0, false);
        lemma_pop_layers_zero(push_child(keyed(s, key), c));
        lemma_filled_step(s0, v, j);
    }
}

/// Reading an entry as written: the value is added and `cp` containers
/// closed. When nothing is written after it (`last`), what the document ends
/// as is the same.
pub proof fn lemma_entry(st: PState, key: Option<Seq<char>>, v: Value, cp: nat, last: bool)
    requires
        ready(st, key),
        writable(v, last),
        cp + depth(v) <= usize::MAX,
    ensures
        run(Ok(st), lines(entry_text(key, v, cp))) is Ok,
        !last ==> run(Ok(st), lines(entry_text(key, v, cp))) == Ok::<PState, Seq<char>>(
            entry_effect(st, key, v, cp),
        ),
        last ==> finish(run(Ok(st), lines(entry_text(key, v, cp)))->Ok_0) == finish(
            entry_effect(st, key, v, cp),
        ),
    decreases v, 1int, 0int,
{
    if is_container(v) {
        lemma_entry_container(st, key, v, cp, last);
    } else {
        match v {
            Value::Str(s) => {
                if find_char(s, '\n') is Some {
                    lemma_entry_long_string(st, key, s, cp, last);
                } else {
                    lemma_entry_leaf(st, key, v, cp, last);
                }
            },
            _ => {
                lemma_entry_leaf(st, key, v, cp, last);
            },
        }
    }
}


/// A key holds no line feed.
pub proof fn lemma_key_prefix_no_lf(key: Option<Seq<char>>)
    requires
        key matches Some(k) ==> key_valid(k),
    ensures
        no_lf(key_prefix(key)),
        no_bracket(key_prefix(key)),
{
    match key {
        Some(k) => {
            let p = key_prefix(key);
            assert forall|i: int| 0 <= i < p.len() implies p[i] != '\n' && !is_open_bracket(
                #[trigger] p[i],
            ) by {
                if i < k.len() {
                    assert(p[i] == k[i]);
                    assert(key_char_ok(k[i]));
                }
            }
        },
        None => {},
    }
}

/// A leaf written on one line.
proof fn lemma_entry_leaf(st: PState, key: Option<Seq<char>>, v: Value, cp: nat, last: bool)
    requires
        ready(st, key),
        !is_container(v),
        leaf_ok(v),
        cp <= usize::MAX,
    ensures
        run(Ok(st), lines(entry_text(key, v, cp))) == Ok::<PState, Seq<char>>(
            entry_effect(st, key, v, cp),
        ),
{
    let lt = leaf_text(v);
    let t = lt + pop_text(cp);
    let l = key_prefix(key) + t;
    lemma_leaf_value_line(keyed(st, key), v, cp);
    lemma_key_prefix_no_lf(key);
    lemma_nat_text_no_lf(cp);
    lemma_nat_text(cp);
    lemma_digits_plain(nat_text(cp));
    // The leaf's text: one line, not ending in a carriage return.
    assert(no_lf(lt) && lt.last() != '\r' && (lt[0] == '"' || no_bracket(lt))) by {
        match v {
            Value::Str(s) => {
                lemma_find_char_bound(s, '\n');
                lemma_escape_no_char(s, '\n');
                assert forall|i: int| 0 <= i < lt.len() implies lt[i] != '\n' by {
                    if 0 < i < lt.len() - 1 {
                        assert(lt[i] == escape(s)[i - 1]);
                    }
                }
            },
            Value::Int(n) => {
                lemma_int_text_plain(n);
            },
            Value::Float(f) => {
                lemma_float_plain(f);
            },
            _ => {
                assert(plain_text(lt));
            },
        }
    }
    assert(no_lf(t) && t.last() != '\r') by {
        assert forall|i: int| 0 <= i < t.len() implies t[i] != '\n' by {
            if i >= lt.len() {
                assert(t[i] == pop_text(cp)[i - lt.len()]);
            }
        }
        if cp > 0 {
            assert(t.last() == nat_text(cp).last());
            assert(plain_char(nat_text(cp)[nat_text(cp).len() - 1]));
        } else {
            assert(t =~= lt);
        }
    }
    assert(lt[0] == '"' || no_bracket(t)) by {
        if lt[0] != '"' {
            assert forall|i: int| 0 <= i < t.len() implies !is_open_bracket(#[trigger] t[i]) by {
                if i >= lt.len() {
                    assert(t[i] == pop_text(cp)[i - lt.len()]);
                    if i > lt.len() {
                        assert(plain_char(nat_text(cp)[i - lt.len() - 1]));
                    }
                }
            }
        }
    }
    assert(t[0] == lt[0]);
    assert(t != seq!['{'] && t != seq!['[']) by {
        if t == seq!['{'] || t == seq!['['] {
            assert(is_open_bracket(t[0]));
        }
    }
    lemma_entry_line(st, key, t);
    assert(no_lf(l)) by {
        assert forall|i: int| 0 <= i < l.len() implies l[i] != '\n' by {
            if i < key_prefix(key).len() {
                assert(l[i] == key_prefix(key)[i]);
            } else {
                assert(l[i] == t[i - key_prefix(key).len()]);
            }
        }
    }
    lemma_lines_one(l);
    assert(entry_text(key, v, cp) =~= l + seq!['\n']);
    assert(l.last() == t.last());
    lemma_run_one(st, l);
}

/// A string written over several lines.
proof fn lemma_entry_long_string(
    st: PState,
    key: Option<Seq<char>>,
    s: Seq<char>,
    cp: nat,
    last: bool,
)
    requires
        ready(st, key),
        str_ok(s),
        find_char(s, '\n') is Some,
        cp <= usize::MAX,
    ensures
        run(Ok(st), lines(entry_text(key, Value::Str(s), cp))) == Ok::<PState, Seq<char>>(
            entry_effect(st, key, Value::Str(s), cp),
        ),
{
    lemma_find_char_bound(s, '\n');
    let i0 = find_char(s, '\n')->0;
    let seg0 = s.take(i0);
    let tail = s.skip(i0 + 1);
    assert(s =~= seg0 + seq!['\n'] + tail);
    lemma_escape_concat(seg0 + seq!['\n'], tail);
    lemma_escape_concat(seg0, seq!['\n']);
    lemma_escape_one('\n');
    lemma_escape_plain(seg0);
    let t0 = seq!['"'] + seg0;
    let l0 = key_prefix(key) + t0;
    let rest = escape(tail) + seq!['"'] + pop_text(cp) + seq!['\n'];
    assert(entry_text(key, Value::Str(s), cp) =~= (l0 + seq!['\n']) + rest);
    lemma_key_prefix_no_lf(key);
    assert(no_lf(l0)) by {
        assert forall|i: int| 0 <= i < l0.len() implies l0[i] != '\n' by {
            if i < key_prefix(key).len() {
                assert(l0[i] == key_prefix(key)[i]);
            } else if i > key_prefix(key).len() {
                assert(l0[i] == seg0[i - key_prefix(key).len() - 1]);
            }
        }
    }
    assert(strip_cr(l0) == l0) by {
        if seg0.len() > 0 {
            assert(l0.last() == s[i0 - 1]);
            assert(s[i0] == '\n');
        }
    }
    lemma_lines_concat(l0 + seq!['\n'], rest);
    lemma_lines_one(l0);
    lemma_run_concat(Ok(st), seq![l0], lines(rest));
    lemma_run_one(st, l0);
    // The first line starts a string that goes on.
    assert(t0 != seq!['{'] && t0 != seq!['[']) by {
        if t0 == seq!['{'] || t0 == seq!['['] {
            assert(t0[0] == '"');
        }
    }
    lemma_entry_line(st, key, t0);
    lemma_trim_pop_text(t0, 0);
    assert(t0 + pop_text(0) =~= t0);
    assert(t0.skip(1) =~= seg0);
    lemma_scan_open(seg0);
    let ks = keyed(st, key);
    let s1 = in_string_state(ks, seg0 + seq!['\n']);
    assert(t0.skip(1).push('\n') =~= seg0 + seq!['\n']);
    assert(value_line(ks, t0) == Ok::<PState, Seq<char>>(s1));
    // The rest of the string.
    assert(no_cr_lf(tail)) by {
        assert forall|j: int| 0 < j < tail.len() && #[trigger] tail[j] == '\n' implies tail[j - 1]
            != '\r' by {
            assert(tail[j] == s[i0 + 1 + j]);
            assert(tail[j - 1] == s[i0 + j]);
        }
    }
    lemma_string_tail(s1, tail, cp);
    assert(s1.strbuf + tail =~= s);
    assert(PState { stack: s1.stack, key: s1.key, strbuf: Seq::empty(), in_string: false } == ks);
}

/// A container: its opening line, its children, the last of which closes it.
proof fn lemma_entry_container(st: PState, key: Option<Seq<char>>, v: Value, cp: nat, last: bool)
    requires
        ready(st, key),
        is_container(v),
        writable(v, last),
        cp + depth(v) <= usize::MAX,
    ensures
        run(Ok(st), lines(entry_text(key, v, cp))) is Ok,
        !last ==> run(Ok(st), lines(entry_text(key, v, cp))) == Ok::<PState, Seq<char>>(
            entry_effect(st, key, v, cp),
        ),
        last ==> finish(run(Ok(st), lines(entry_text(key, v, cp)))->Ok_0) == finish(
            entry_effect(st, key, v, cp),
        ),
    decreases v, 0int, child_count(v) + 1,
{
    let n = child_count(v);
    let kind = obj_kind(v);
    let br = if kind {
        '{'
    } else {
        '['
    };
    let l0 = key_prefix(key) + seq![br];
    let body = ser_entries(v, n, cp);
    assert(ser(v, cp) == seq![br, '\n'] + body);
    assert(entry_text(key, v, cp) =~= (l0 + seq!['\n']) + body);
    lemma_key_prefix_no_lf(key);
    assert(no_lf(l0)) by {
        assert forall|i: int| 0 <= i < l0.len() implies l0[i] != '\n' by {
            if i < key_prefix(key).len() {
                assert(l0[i] == key_prefix(key)[i]);
            }
        }
    }
    lemma_lines_concat(l0 + seq!['\n'], body);
    lemma_lines_one(l0);
    lemma_run_concat(Ok(st), seq![l0], lines(body));
    lemma_run_one(st, l0);
    lemma_entry_line(st, key, seq![br]);
    let s0 = open_frame(keyed(st, key), kind);
    lemma_filled_start(st, key, v);
    lemma_close_filled(st, key, v);
    let ks = keyed(st, key);
    lemma_finish_pop_layers(push_child(ks, v), cp);
    if n == 0 {
        assert(body =~= Seq::<char>::empty());
        assert(lines(body) =~= Seq::<Seq<char>>::empty());
        lemma_finish_pop_one(s0);
    } else {
        let j = n - 1;
        lemma_children(s0, v, j, cp, last);
        lemma_ser_entries_next(v, j, cp);
        lemma_ser_entries_ends_line(v, j, cp);
        let ck = child_key(v, j);
        let c = child(v, j);
        lemma_lines_concat(ser_entries(v, j, cp), entry_text(ck, c, cp + 1));
        lemma_run_concat(Ok(s0), lines(ser_entries(v, j, cp)), lines(entry_text(ck, c, cp + 1)));
        let wl = match v {
            Value::Object(cs) => cs.len() as int,
            _ => v->Array_0.len() as int,
        };
        lemma_writable_child(v, wl, last, j);
        lemma_entries_depth_bound(v, j + 1);
        let s = filled(s0, v, j);
        assert(ready(s, ck)) by {
            assert(s.stack.last() == SFrame { build: partial(v, j), key: s0.stack.last().key });
        }
        lemma_entry(s, ck, c, cp + 1, last);
        lemma_filled_step(s0, v, j);
        lemma_pop_layers_succ(filled(s0, v, n), cp);
        lemma_finish_pop_layers(filled(s0, v, n), cp + 1);
        lemma_finish_pop_one(filled(s0, v, n));
    }
}


/// The first line of a document opens its top-level container.
proof fn lemma_root_line(is_obj: bool)
    ensures
        step(init_state(), seq![if is_obj { '{' } else { '[' }]) == Ok::<PState, Seq<char>>(
            open_frame(init_state(), is_obj),
        ),
{
    reveal(step);
    let l = seq![if is_obj { '{' } else { '[' }];
    assert(!inline_start(l, true));
}

/// Reading back a written document gives the document again.
///
/// For every value that `round_trips` (a container whose keys are valid, whose
/// strings and floats read back, whose nested containers are empty only at the
/// very end, and which nests no deeper than `usize` counts), reading the text
/// that `to_string` writes for it gives the same value.
pub proof fn lemma_roundtrip(v: Value)
    requires
        round_trips(v),
    ensures
        parse(serialize(v)) == Ok::<Value, Seq<char>>(v),
{
    let n = child_count(v);
    let kind = obj_kind(v);
    let br = if kind {
        '{'
    } else {
        '['
    };
    let body = ser_entries(v, n, 0);
    assert(serialize(v) =~= seq![br, '\n'] + body);
    assert(seq![br, '\n'] =~= seq![br] + seq!['\n']);
    lemma_lines_concat(seq![br, '\n'], body);
    lemma_lines_one(seq![br]);
    assert(strip_cr(seq![br]) == seq![br]);
    lemma_run_concat(Ok(init_state()), seq![seq![br]], lines(body));
    lemma_run_one(init_state(), seq![br]);
    lemma_root_line(kind);
    let s0 = open_frame(init_state(), kind);
    assert(filled(s0, v, 0) == s0) by {
        match v {
            Value::Object(cs) => {
                assert(cs.take(0) =~= Seq::<(Seq<char>, Value)>::empty());
            },
            Value::Array(xs) => {
                assert(xs.take(0) =~= Seq::<Value>::empty());
            },
            _ => {},
        }
        assert(filled(s0, v, 0).stack =~= s0.stack);
    }
    assert(frame_value(filled(s0, v, n).stack.last()) == v) by {
        match v {
            Value::Object(cs) => {
                assert(cs.take(cs.len() as int) =~= cs);
            },
            Value::Array(xs) => {
                assert(xs.take(xs.len() as int) =~= xs);
            },
            _ => {},
        }
    }
    if n == 0 {
        assert(body =~= Seq::<char>::empty());
        assert(lines(body) =~= Seq::<Seq<char>>::empty());
    } else {
        let j = n - 1;
        lemma_children(s0, v, j, 0, true);
        lemma_ser_entries_next(v, j, 0);
        lemma_ser_entries_ends_line(v, j, 0);
        let ck = child_key(v, j);
        let c = child(v, j);
        lemma_lines_concat(ser_entries(v, j, 0), entry_text(ck, c, 1));
        lemma_run_concat(Ok(s0), lines(ser_entries(v, j, 0)), lines(entry_text(ck, c, 1)));
        let wl = match v {
            Value::Object(cs) => cs.len() as int,
            _ => v->Array_0.len() as int,
        };
        lemma_writable_child(v, wl, true, j);
        lemma_entries_depth_bound(v, j + 1);
        let s = filled(s0, v, j);
        assert(ready(s, ck)) by {
            assert(s.stack.last() == SFrame { build: partial(v, j), key: s0.stack.last().key });
        }
        lemma_entry(s, ck, c, 1, true);
        lemma_filled_step(s0, v, j);
        lemma_finish_pop_layers(filled(s0, v, n), 1);
    }
}


/// Closing containers never closes the top-level one: with `n` pops asked,
/// as many are closed as there are containers above the top-level one, up to
/// `n`.
pub proof fn lemma_pop_layers_keeps_top(st: PState, n: nat)
    requires
        st.stack.len() >= 1,
    ensures
        pop_layers(st, n).stack.len() == st.stack.len() - (if n <= st.stack.len() - 1 {
            n as int
        } else {
            st.stack.len() - 1
        }),
        pop_layers(st, n).stack.len() >= 1,
{
    let m: nat = if n <= st.stack.len() - 1 {
        n
    } else {
        (st.stack.len() - 1) as nat
    };
    lemma_pop_n_len(st, m);
}

/// Closing `m` containers when more than `m` are open removes `m`.
pub proof fn lemma_pop_n_len(st: PState, m: nat)
    requires
        m + 1 <= st.stack.len(),
    ensures
        pop_n(st, m).stack.len() == st.stack.len() - m,
    decreases m,
{
    if m > 0 {
        lemma_pop_one_len(st);
        lemma_pop_n_len(pop_one(st), (m - 1) as nat);
    }
}

/// `t` with a carriage return put before each line feed.
pub open spec fn crlf(t: Seq<char>) -> Seq<char>
    decreases t.len(),
{
    if t.len() == 0 {
        Seq::empty()
    } else {
        (if t[0] == '\n' {
            seq!['\r', '\n']
        } else {
            seq![t[0]]
        }) + crlf(t.drop_first())
    }
}

/// Putting carriage returns before line feeds distributes over concatenation.
pub proof fn lemma_crlf_concat(a: Seq<char>, b: Seq<char>)
    ensures
        crlf(a + b) == crlf(a) + crlf(b),
    decreases a.len(),
{
    if a.len() == 0 {
        assert(a + b =~= b);
        assert(crlf(a) + crlf(b) =~= crlf(b));
    } else {
        assert((a + b).drop_first() =~= a.drop_first() + b);
        assert((a + b)[0] == a[0]);
        lemma_crlf_concat(a.drop_first(), b);
        assert(crlf(a + b) =~= crlf(a) + crlf(b));
    }
}

/// A text without line feeds is left as it is.
pub proof fn lemma_crlf_no_lf(a: Seq<char>)
    requires
        no_lf(a),
    ensures
        crlf(a) == a,
    decreases a.len(),
{
    if a.len() > 0 {
        lemma_crlf_no_lf(a.drop_first());
        assert(seq![a[0]] + a.drop_first() =~= a);
    }
}

/// No carriage return in `s`.
pub open spec fn no_cr(s: Seq<char>) -> bool {
    forall|i: int| 0 <= i < s.len() ==> s[i] != '\r'
}

/// A text without carriage returns has the same lines with a carriage return
/// before each line feed.
pub proof fn lemma_lines_crlf(t: Seq<char>)
    requires
        no_cr(t),
    ensures
        lines(crlf(t)) == lines(t),
    decreases t.len(),
{
    lemma_find_char_bound(t, '\n');
    match find_char(t, '\n') {
        None => {
            lemma_crlf_no_lf(t);
        },
        Some(i) => {
            let a = t.take(i);
            let b = t.skip(i + 1);
            assert(t =~= a + seq!['\n'] + b);
            lemma_crlf_concat(a + seq!['\n'], b);
            lemma_crlf_concat(a, seq!['\n']);
            lemma_crlf_no_lf(a);
            assert(seq!['\n'].drop_first() =~= Seq::<char>::empty());
            assert(crlf(Seq::<char>::empty()) =~= Seq::<char>::empty());
            assert(crlf(seq!['\n']) =~= seq!['\r', '\n']);
            let a2 = a + seq!['\r'];
            assert(crlf(t) =~= (a2 + seq!['\n']) + crlf(b));
            assert(no_lf(a2)) by {
                assert forall|j: int| 0 <= j < a2.len() implies a2[j] != '\n' by {
                    if j < a.len() {
                        assert(a2[j] == t[j]);
                    }
                }
            }
            lemma_lines_concat(a2 + seq!['\n'], crlf(b));
            lemma_lines_one(a2);
            assert(a2.drop_last() =~= a);
            assert(strip_cr(a) == a) by {
                if a.len() > 0 {
                    assert(a.last() == t[i - 1]);
                }
            }
            assert(no_cr(b)) by {
                assert forall|j: int| 0 <= j < b.len() implies b[j] != '\r' by {
                    assert(b[j] == t[i + 1 + j]);
                }
            }
            lemma_lines_crlf(b);
            assert(t.len() > 0);
        },
    }
}

/// Reading a text whose lines end in `\r\n` gives what reading it with `\n`
/// line ends gives: the same document, or the same error.
pub proof fn lemma_parse_crlf(t: Seq<char>)
    requires
        no_cr(t),
    ensures
        parse(crlf(t)) == parse(t),
{
    lemma_lines_crlf(t);
}

/// A document read from any text is an object or an array.
pub proof fn lemma_parse_container(text: Seq<char>)
    ensures
        parse(text) matches Ok(v) ==> is_container(v),
{
}

} // verus!
