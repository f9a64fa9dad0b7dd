//! What the reader and the writer do, stated over literal text: the keywords
//! written for leaves, the decimal form of integers, the texts read as floats,
//! the characters a key may hold, and lines of brackets in an array.

use vstd::prelude::*;

use crate::roundtrip::{lemma_nat_text, lemma_ser_entries_next};
use crate::serializer::{child_pop, leaf_text, pop_text, ser, ser_entries, serialize};
use crate::syntax::{
    digit_run, exponent_ok, float_syntax, has_float_mark, inline_start, key_valid, number_value,
    open_frame, open_inline, prefix_pop, quoted_value, scalar_value, step, top_is_obj,
    wrap_i64, PState, SBuild,
};
use crate::text::{digit_char, digits_value, int_text, is_digit, is_ws, nat_text, trim_start};
use crate::Value;

verus! {

// ---------------------------------------------------------------------------
// Decimal text
// ---------------------------------------------------------------------------
/// `c` is one of `0` to `9`.
pub open spec fn dec_digit(c: char) -> bool {
    '0' <= c && c <= '9'
}

/// Every character of `t` is one of `0` to `9`.
pub open spec fn dec_digits(t: Seq<char>) -> bool {
    forall|i: int| 0 <= i < t.len() ==> dec_digit(#[trigger] t[i])
}

/// The number that the digits `t` write, most significant first.
pub open spec fn dec_value(t: Seq<char>) -> int
    decreases t.len(),
{
    if t.len() == 0 {
        0
    } else {
        dec_value(t.drop_last()) * 10 + (t.last() as int - 48)
    }
}

/// `t` is the shortest decimal text of a number: digits, with no leading zero
/// unless the number is zero.
pub open spec fn shortest_decimal(t: Seq<char>) -> bool {
    &&& t.len() > 0
    &&& dec_digits(t)
    &&& (t.len() == 1 || t[0] != '0')
}

proof fn lemma_dec_value_agrees(t: Seq<char>)
    requires
        dec_digits(t),
    ensures
        dec_value(t) == digits_value(t),
    decreases t.len(),
{
    if t.len() > 0 {
        assert(dec_digits(t.drop_last())) by {
            assert forall|i: int| 0 <= i < t.drop_last().len() implies dec_digit(
                #[trigger] t.drop_last()[i],
            ) by {
                assert(t.drop_last()[i] == t[i]);
            }
        }
        lemma_dec_value_agrees(t.drop_last());
        assert(dec_digit(t[t.len() - 1]));
    }
}

/// The decimal text of a natural number is its shortest decimal text.
pub proof fn lemma_nat_text_shortest(m: nat)
    ensures
        shortest_decimal(nat_text(m)),
        dec_value(nat_text(m)) == m,
        m >= 1 ==> nat_text(m)[0] != '0',
    decreases m,
{
    lemma_nat_text(m);
    let t = nat_text(m);
    assert(dec_digits(t)) by {
        assert forall|i: int| 0 <= i < t.len() implies dec_digit(#[trigger] t[i]) by {
            assert(is_digit(t[i]));
        }
    }
    lemma_dec_value_agrees(t);
    if m >= 10 {
        lemma_nat_text_shortest(m / 10);
        assert(t[0] == nat_text(m / 10)[0]);
    } else {
        let c = digit_char(m);
        assert(c as int == '0' as int + m);
        assert(t[0] == c);
    }
}

/// Integers are written in decimal: a `-` and the shortest decimal text of the
/// magnitude for a negative number, the shortest decimal text otherwise.
pub proof fn lemma_int_text_decimal(n: i64)
    ensures
        n < 0 ==> {
            &&& int_text(n).len() >= 2
            &&& int_text(n)[0] == '-'
            &&& shortest_decimal(int_text(n).skip(1))
            &&& dec_value(int_text(n).skip(1)) == -n
        },
        n >= 0 ==> shortest_decimal(int_text(n)) && dec_value(int_text(n)) == n,
{
    if n < 0 {
        let m = (-n) as nat;
        lemma_nat_text_shortest(m);
        assert(int_text(n).skip(1) =~= nat_text(m));
    } else {
        lemma_nat_text_shortest(n as nat);
    }
}

// ---------------------------------------------------------------------------
// Keywords
// ---------------------------------------------------------------------------
/// The text of a boolean: `true` or `false`.
pub open spec fn bool_word(b: bool) -> Seq<char> {
    if b {
        seq!['t', 'r', 'u', 'e']
    } else {
        seq!['f', 'a', 'l', 's', 'e']
    }
}

/// Leaves are written as their keywords, followed by the pops and a line feed.
pub proof fn lemma_write_keywords(b: bool, cp: nat)
    ensures
        ser(Value::Bool(b), cp) == bool_word(b) + pop_text(cp) + seq!['\n'],
        ser(Value::Null, cp) == seq!['n', 'u', 'l', 'l'] + pop_text(cp) + seq!['\n'],
        cp > 0 ==> pop_text(cp) == seq![' '] + nat_text(cp),
{
}

/// An object with one boolean entry is written as its opening line, then
/// `key: true 1` or `key: false 1`.
pub proof fn lemma_write_bool_entry(k: Seq<char>, b: bool)
    ensures
        serialize(Value::Object(seq![(k, Value::Bool(b))])) == seq!['{', '\n'] + k + seq![':', ' ']
            + bool_word(b) + seq![' ', '1', '\n'],
{
    let v = Value::Object(seq![(k, Value::Bool(b))]);
    lemma_ser_entries_next(v, 0, 0);
    assert(child_pop(0, 1, 0) == 1);
    lemma_write_keywords(b, 1);
    assert(nat_text(1) == seq![digit_char(1)]);
    assert(digit_char(1) as int == 49);
    assert(digit_char(1) == '1');
    assert(ser_entries(v, 0, 0) =~= Seq::<char>::empty());
    assert(serialize(v) =~= seq!['{', '\n'] + k + seq![':', ' '] + bool_word(b) + seq![
        ' ',
        '1',
        '\n',
    ]);
}

/// A leaf text is read as a boolean or as null exactly when it is the keyword.
pub proof fn lemma_read_keywords(s: Seq<char>)
    ensures
        scalar_value(s) == Ok::<Option<Value>, Seq<char>>(Some(Value::Bool(true))) <==> s
            == seq!['t', 'r', 'u', 'e'],
        scalar_value(s) == Ok::<Option<Value>, Seq<char>>(Some(Value::Bool(false))) <==> s
            == seq!['f', 'a', 'l', 's', 'e'],
        scalar_value(s) == Ok::<Option<Value>, Seq<char>>(Some(Value::Null)) <==> s == seq![
            'n',
            'u',
            'l',
            'l',
        ],
{
    if s.len() > 0 && s[0] == '"' {
        let r = quoted_value(s.skip(1));
        assert(!(r matches Ok(Some(v)) && !(v is Str)));
    }
}

// ---------------------------------------------------------------------------
// Keys
// ---------------------------------------------------------------------------
/// A key is valid exactly when it is not empty and holds none of `:`, `"`,
/// `{`, `[`, `#`, space, tab, line feed, carriage return; so letters and digits
/// are allowed.
pub proof fn lemma_key_chars(k: Seq<char>)
    ensures
        key_valid(k) <==> (k.len() > 0 && forall|i: int|
            0 <= i < k.len() ==> {
                let c = #[trigger] k[i];
                c != ':' && c != '"' && c != '{' && c != '[' && c != '#' && c != ' ' && c != '\t'
                    && c != '\n' && c != '\r'
            }),
{
}

// ---------------------------------------------------------------------------
// Numbers
// ---------------------------------------------------------------------------
/// An optional `-`.
pub open spec fn sign_text(neg: bool) -> Seq<char> {
    if neg {
        seq!['-']
    } else {
        Seq::empty()
    }
}

proof fn lemma_digit_run_digits(d: Seq<char>, rest: Seq<char>)
    requires
        dec_digits(d),
        rest.len() == 0 || !dec_digit(rest[0]),
    ensures
        digit_run(d + rest) == d.len(),
    decreases d.len(),
{
    if d.len() == 0 {
        assert(d + rest =~= rest);
    } else {
        assert((d + rest).skip(1) =~= d.skip(1) + rest);
        assert(dec_digits(d.skip(1))) by {
            assert forall|i: int| 0 <= i < d.skip(1).len() implies dec_digit(
                #[trigger] d.skip(1)[i],
            ) by {
                assert(d.skip(1)[i] == d[i + 1]);
            }
        }
        assert(dec_digit(d[0]));
        lemma_digit_run_digits(d.skip(1), rest);
    }
}

proof fn lemma_all_digits(d: Seq<char>)
    requires
        dec_digits(d),
    ensures
        crate::text::all_digits(d),
{
    assert forall|i: int| 0 <= i < d.len() implies is_digit(#[trigger] d[i]) by {
        assert(dec_digit(d[i]));
    }
}

/// Reading a number whose text is a sign and `body`, where `body` starts with
/// a digit and holds a float mark at `mark`: it is the float of that text when
/// `float_syntax` holds.
proof fn lemma_number_float(neg: bool, body: Seq<char>, mark: int)
    requires
        body.len() > 0,
        dec_digit(body[0]),
        0 <= mark < body.len(),
        body[mark] == '.' || body[mark] == 'e' || body[mark] == 'E',
        float_syntax(sign_text(neg) + body),
    ensures
        number_value(sign_text(neg) + body) == Some(Value::Float(sign_text(neg) + body)),
{
    let s = sign_text(neg) + body;
    if neg {
        assert(s.skip(1) =~= body);
    } else {
        assert(s =~= body);
    }
    assert(has_float_mark(body));
}

/// Digits, a point and digits (after an optional `-`) read as a float of that
/// text.
pub proof fn lemma_read_point_float(neg: bool, d1: Seq<char>, d2: Seq<char>)
    requires
        d1.len() > 0,
        dec_digits(d1),
        dec_digits(d2),
    ensures
        number_value(sign_text(neg) + d1 + seq!['.'] + d2) == Some(
            Value::Float(sign_text(neg) + d1 + seq!['.'] + d2),
        ),
{
    let body = d1 + seq!['.'] + d2;
    let s = sign_text(neg) + body;
    assert(s =~= sign_text(neg) + d1 + seq!['.'] + d2);
    let b = if s.len() > 0 && s[0] == '-' {
        s.skip(1)
    } else {
        s
    };
    assert(dec_digit(d1[0]));
    assert(b =~= body) by {
        if neg {
            assert(s.skip(1) =~= body);
        } else {
            assert(s =~= body);
        }
    }
    lemma_digit_run_digits(d1, seq!['.'] + d2);
    assert(body =~= d1 + (seq!['.'] + d2));
    let r = body.skip(d1.len() as int);
    assert(r =~= seq!['.'] + d2);
    assert(r.skip(1) =~= d2);
    lemma_digit_run_digits(d2, Seq::<char>::empty());
    assert(d2 + Seq::<char>::empty() =~= d2);
    assert(d2.skip(d2.len() as int) =~= Seq::<char>::empty());
    assert(float_syntax(s));
    assert(body[d1.len() as int] == '.');
    lemma_number_float(neg, body, d1.len() as int);
}

/// Digits, an optional point and digits, then `e` or `E`, an optional sign and
/// digits (after an optional `-`) read as a float of that text.
#[verifier::spinoff_prover]
#[verifier::rlimit(80)]
pub proof fn lemma_read_exponent_float(
    neg: bool,
    d1: Seq<char>,
    frac: Seq<char>,
    e: char,
    esign: Seq<char>,
    d3: Seq<char>,
)
    requires
        d1.len() > 0,
        dec_digits(d1),
        frac.len() == 0 || (frac[0] == '.' && dec_digits(frac.skip(1))),
        e == 'e' || e == 'E',
        esign.len() == 0 || esign == seq!['+'] || esign == seq!['-'],
        d3.len() > 0,
        dec_digits(d3),
    ensures
        number_value(sign_text(neg) + d1 + frac + seq![e] + esign + d3) == Some(
            Value::Float(sign_text(neg) + d1 + frac + seq![e] + esign + d3),
        ),
{
    let tail = seq![e] + esign + d3;
    let body = d1 + frac + tail;
    let s = sign_text(neg) + body;
    assert(s =~= sign_text(neg) + d1 + frac + seq![e] + esign + d3);
    assert(dec_digit(d1[0]));
    let b = if s.len() > 0 && s[0] == '-' {
        s.skip(1)
    } else {
        s
    };
    assert(b =~= body) by {
        if neg {
            assert(s.skip(1) =~= body);
        } else {
            assert(s =~= body);
        }
    }
    lemma_digit_run_digits(d1, frac + tail);
    assert(body =~= d1 + (frac + tail));
    let r = body.skip(d1.len() as int);
    assert(r =~= frac + tail);
    let r2 = if r.len() > 0 && r[0] == '.' {
        r.skip(1).skip(digit_run(r.skip(1)) as int)
    } else {
        r
    };
    if frac.len() > 0 {
        let d2 = frac.skip(1);
        assert(r.skip(1) =~= d2 + tail);
        lemma_digit_run_digits(d2, tail);
        assert((d2 + tail).skip(d2.len() as int) =~= tail);
    } else {
        assert(r =~= tail);
    }
    assert(r2 =~= tail);
    assert(tail.skip(1) =~= esign + d3);
    assert(exponent_ok(esign + d3)) by {
        let x = esign + d3;
        if esign.len() > 0 {
            assert(x.skip(1) =~= d3);
        } else {
            assert(x =~= d3);
        }
        lemma_all_digits(d3);
    }
    assert(float_syntax(s));
    let mark = (d1.len() + frac.len()) as int;
    assert(body[mark] == e);
    lemma_number_float(neg, body, mark);
}

/// Digits (after an optional `-`) read as the integer they write, when it fits
/// in `i64`.
pub proof fn lemma_read_integer(neg: bool, d: Seq<char>)
    requires
        d.len() > 0,
        dec_digits(d),
        !neg ==> dec_value(d) <= i64::MAX,
        neg ==> dec_value(d) <= i64::MAX + 1,
    ensures
        number_value(sign_text(neg) + d) == Some(
            Value::Int(
                (if neg {
                    -dec_value(d)
                } else {
                    dec_value(d)
                }) as i64,
            ),
        ),
{
    let s = sign_text(neg) + d;
    if neg {
        assert(s.skip(1) =~= d);
    } else {
        assert(s =~= d);
    }
    assert(dec_digit(d[0]));
    lemma_all_digits(d);
    lemma_dec_value_agrees(d);
    assert(!has_float_mark(d)) by {
        if has_float_mark(d) {
            let i = choose|i: int| 0 <= i < d.len() && (d[i] == '.' || d[i] == 'e' || d[i] == 'E');
            assert(dec_digit(d[i]));
        }
    }
    let x: int = if neg {
        -dec_value(d)
    } else {
        dec_value(d)
    };
    assert(wrap_i64(x) == x as i64);
}

// ---------------------------------------------------------------------------
// Lines of brackets in an array
// ---------------------------------------------------------------------------
proof fn lemma_skip_spaces(x: PState, sp: Seq<char>, t: Seq<char>)
    requires
        forall|i: int| 0 <= i < sp.len() ==> sp[i] == ' ',
    ensures
        open_inline(x, sp + t) == open_inline(x, t),
        trim_start(sp + t) == trim_start(t),
    decreases sp.len(),
{
    if sp.len() > 0 {
        assert(is_ws(' '));
        assert((sp + t).skip(1) =~= sp.skip(1) + t);
        assert((sp + t).drop_first() =~= sp.skip(1) + t);
        lemma_skip_spaces(x, sp.skip(1), t);
    } else {
        assert(sp + t =~= t);
    }
}

/// Inside an array, a line of a bracket, spaces and another bracket opens one
/// container per bracket, an object for `{` and an array for `[`.
pub proof fn lemma_brackets_in_array(st: PState, b: char, sp: Seq<char>, c: char)
    requires
        !st.in_string,
        st.stack.len() > 0,
        st.stack.last().build is Arr,
        b == '[' || b == '{',
        c == '[' || c == '{',
        forall|i: int| 0 <= i < sp.len() ==> sp[i] == ' ',
    ensures
        step(st, seq![b] + sp + seq![c]) == Ok::<PState, Seq<char>>(
            open_frame(open_frame(st, b == '{'), c == '{'),
        ),
{
    reveal(step);
    let line = seq![b] + sp + seq![c];
    assert(!top_is_obj(st));
    assert(digit_run(line) == 0);
    assert(prefix_pop(line, false) is None);
    assert(line.skip(1) =~= sp + seq![c]);
    lemma_skip_spaces(open_frame(st, b == '{'), sp, seq![c]);
    assert(!is_ws(c));
    assert(trim_start(seq![c]) == seq![c]);
    assert(inline_start(line, false));
    assert(!is_ws(b));
    assert(line.skip(1) =~= sp + seq![c]);
    assert(seq![c].skip(1) =~= Seq::<char>::empty());
    assert(open_inline(open_frame(open_frame(st, b == '{'), c == '{'), Seq::<char>::empty())
        == open_frame(open_frame(st, b == '{'), c == '{'));
}

} // verus!
