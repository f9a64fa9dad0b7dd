//! Characters, decimal digits and white space; line feeds in UTF-8 text.

use vstd::prelude::*;
use vstd::utf8::{
    decode_utf8, decode_utf8_encode_utf8, decode_utf8_split, encode_scalar, encode_utf8,
    encode_utf8_decode_utf8, encode_utf8_valid_utf8, is_char_boundary,
    is_char_boundary_iff_not_is_continuation_byte, valid_utf8, valid_utf8_split,
};

verus! {

/// Appends one character to a `String`.
///
/// Calls `String::push`, which appends the given `char` to the end of the
/// string; the contract states exactly that.
#[verifier::external_body]
pub(crate) fn push_char(s: &mut String, c: char)
    ensures
        final(s)@ == old(s)@.push(c),
{
    s.push(c);
}

/// The characters of a string slice, in order.
pub fn chars_of(s: &str) -> (v: Vec<char>)
    ensures
        v@ == s@,
{
    let mut v: Vec<char> = Vec::new();
    for c in it: s.chars()
        invariant
            v@ == it.seq().take(it.index() as int),
    {
        v.push(c);
    }
    v
}


/// An ASCII decimal digit.
pub open spec fn is_digit(c: char) -> bool {
    '0' <= c <= '9'
}

/// The value of a decimal digit.
pub open spec fn digit_value(c: char) -> nat {
    (c as int - '0' as int) as nat
}

/// The digit character for `d < 10`.
pub open spec fn digit_char(d: nat) -> char {
    ('0' as int + d) as char
}

/// Every character of `s` is a decimal digit.
pub open spec fn all_digits(s: Seq<char>) -> bool {
    forall|i: int| 0 <= i < s.len() ==> is_digit(#[trigger] s[i])
}

/// The number written by the decimal digits `s` (most significant first).
pub open spec fn digits_value(s: Seq<char>) -> nat
    decreases s.len(),
{
    if s.len() == 0 {
        0
    } else {
        digits_value(s.drop_last()) * 10 + digit_value(s.last())
    }
}

/// The shortest decimal text of `n`.
pub open spec fn nat_text(n: nat) -> Seq<char>
    decreases n,
{
    if n < 10 {
        seq![digit_char(n)]
    } else {
        nat_text(n / 10).push(digit_char(n % 10))
    }
}

/// The decimal text of a signed integer: a `-` before the digits of its magnitude
/// when it is negative.
pub open spec fn int_text(n: i64) -> Seq<char> {
    if n < 0 {
        seq!['-'] + nat_text((-n) as nat)
    } else {
        nat_text(n as nat)
    }
}

/// Unicode `White_Space` characters, the ones `char::is_whitespace` accepts.
pub open spec fn is_ws(c: char) -> bool {
    ||| '\u{9}' <= c <= '\u{d}'
    ||| c == ' '
    ||| c == '\u{85}'
    ||| c == '\u{a0}'
    ||| c == '\u{1680}'
    ||| '\u{2000}' <= c <= '\u{200a}'
    ||| c == '\u{2028}'
    ||| c == '\u{2029}'
    ||| c == '\u{202f}'
    ||| c == '\u{205f}'
    ||| c == '\u{3000}'
}

/// Every character of `s` is white space.
pub open spec fn all_ws(s: Seq<char>) -> bool {
    forall|i: int| 0 <= i < s.len() ==> is_ws(#[trigger] s[i])
}

/// `s` without its leading white space.
pub open spec fn trim_start(s: Seq<char>) -> Seq<char>
    decreases s.len(),
{
    if s.len() > 0 && is_ws(s[0]) {
        trim_start(s.drop_first())
    } else {
        s
    }
}

/// The index of the first `": "` in `s`, if any.
pub open spec fn find_sep(s: Seq<char>) -> Option<int>
    decreases s.len(),
{
    if s.len() < 2 {
        None
    } else if s[0] == ':' && s[1] == ' ' {
        Some(0)
    } else {
        match find_sep(s.drop_first()) {
            Some(i) => Some(i + 1),
            None => None,
        }
    }
}

/// The index of the first `c` in `s`, if any.
pub open spec fn find_char(s: Seq<char>, c: char) -> Option<int>
    decreases s.len(),
{
    if s.len() == 0 {
        None
    } else if s[0] == c {
        Some(0)
    } else {
        match find_char(s.drop_first(), c) {
            Some(i) => Some(i + 1),
            None => None,
        }
    }
}

/// Whether `c` is a white space character.
pub fn is_ws_char(c: char) -> (r: bool)
    ensures
        r == is_ws(c),
{
    ('\u{9}' <= c && c <= '\u{d}') || c == ' ' || c == '\u{85}' || c == '\u{a0}' || c
        == '\u{1680}' || ('\u{2000}' <= c && c <= '\u{200a}') || c == '\u{2028}' || c
        == '\u{2029}' || c == '\u{202f}' || c == '\u{205f}' || c == '\u{3000}'
}

/// Whether every character of `s` is white space.
pub fn chars_all_ws(s: &[char]) -> (r: bool)
    ensures
        r == all_ws(s@),
{
    let mut i: usize = 0;
    while i < s.len()
        invariant
            0 <= i <= s@.len(),
            all_ws(s@.take(i as int)),
        decreases s@.len() - i,
    {
        if !is_ws_char(s[i]) {
            return false;
        }
        i = i + 1;
        assert(all_ws(s@.take(i as int))) by {
            assert forall|j: int| 0 <= j < i implies is_ws(#[trigger] s@.take(i as int)[j]) by {
                if j < i - 1 {
                    assert(s@.take(i as int)[j] == s@.take(i - 1)[j]);
                }
            }
        }
    }
    assert(s@.take(i as int) =~= s@);
    true
}

/// The index of the first character of `s` that is not white space (or `s.len()`),
/// so that `s[result..]` is `trim_start(s)`.
pub fn trim_start_index(s: &[char]) -> (r: usize)
    ensures
        r <= s@.len(),
        s@.skip(r as int) == trim_start(s@),
{
    let mut i: usize = 0;
    assert(s@.skip(0) =~= s@);
    while i < s.len() && is_ws_char(s[i])
        invariant
            0 <= i <= s@.len(),
            trim_start(s@.skip(i as int)) == trim_start(s@),
        decreases s@.len() - i,
    {
        assert(s@.skip(i as int).drop_first() =~= s@.skip(i + 1));
        i = i + 1;
    }
    i
}

/// The index of the first `": "` in `s`, if any.
pub fn find_sep_index(s: &[char]) -> (r: Option<usize>)
    ensures
        r matches Some(i) ==> find_sep(s@) == Some(i as int),
        r is None ==> find_sep(s@) is None,
{
    let n: usize = s.len();
    let mut i: usize = 0;
    assert(s@.skip(0) =~= s@);
    while i < n && i + 1 < n
        invariant
            n == s@.len(),
            0 <= i <= n,
            find_sep(s@) == (match find_sep(s@.skip(i as int)) {
                Some(j) => Some(j + i),
                None => None,
            }),
        decreases n - i,
    {
        if s[i] == ':' && s[i + 1] == ' ' {
            return Some(i);
        }
        assert(s@.skip(i as int).drop_first() =~= s@.skip(i + 1));
        i = i + 1;
    }
    None
}

/// A `String` holding the characters of `s`.
pub fn string_of(s: &[char]) -> (r: String)
    ensures
        r@ == s@,
{
    let mut r = String::new();
    let mut i: usize = 0;
    while i < s.len()
        invariant
            0 <= i <= s@.len(),
            r@ == s@.take(i as int),
        decreases s@.len() - i,
    {
        push_char(&mut r, s[i]);
        assert(s@.take(i + 1) =~= s@.take(i as int).push(s@[i as int]));
        i = i + 1;
    }
    assert(s@.take(i as int) =~= s@);
    r
}

/// Appends `s` to `buf`.
pub fn push_chars(buf: &mut String, s: &[char])
    ensures
        final(buf)@ == old(buf)@ + s@,
{
    let mut i: usize = 0;
    while i < s.len()
        invariant
            0 <= i <= s@.len(),
            buf@ == old(buf)@ + s@.take(i as int),
        decreases s@.len() - i,
    {
        push_char(buf, s[i]);
        assert(s@.take(i + 1) =~= s@.take(i as int).push(s@[i as int]));
        i = i + 1;
    }
    assert(s@.take(i as int) =~= s@);
}

/// Appends the decimal text of `n` to `buf`.
pub fn push_decimal(buf: &mut String, n: u64)
    ensures
        final(buf)@ == old(buf)@ + nat_text(n as nat),
    decreases n,
{
    if n >= 10 {
        push_decimal(buf, n / 10);
    }
    push_char(buf, digit_char_of((n % 10) as u8));
}

/// The digit character for `d < 10`.
pub fn digit_char_of(d: u8) -> (c: char)
    requires
        d < 10,
    ensures
        c == digit_char(d as nat),
{
    if d == 0 { '0' }
    else if d == 1 { '1' }
    else if d == 2 { '2' }
    else if d == 3 { '3' }
    else if d == 4 { '4' }
    else if d == 5 { '5' }
    else if d == 6 { '6' }
    else if d == 7 { '7' }
    else if d == 8 { '8' }
    else { '9' }
}


// ---------------------------------------------------------------------------
// Line feeds in UTF-8 text
// ---------------------------------------------------------------------------
/// The index of the first `needle` byte in `haystack`, if any.
///
/// Calls `memchr::memchr`, which returns the index of the first occurrence of
/// `needle` in `haystack` (an index less than its length), or `None` when it
/// does not occur; the contract states exactly that.
#[verifier::external_body]
pub(crate) fn first_byte(needle: u8, haystack: &[u8]) -> (r: Option<usize>)
    ensures
        match r {
            Some(i) => i < haystack@.len() && haystack@[i as int] == needle && forall|j: int|
                0 <= j < i ==> haystack@[j] != needle,
            None => forall|j: int| 0 <= j < haystack@.len() ==> haystack@[j] != needle,
        },
{
    memchr::memchr(needle, haystack)
}

/// Encoding distributes over concatenation.
pub proof fn lemma_encode_concat(a: Seq<char>, b: Seq<char>)
    ensures
        encode_utf8(a + b) == encode_utf8(a) + encode_utf8(b),
    decreases a.len(),
{
    if a.len() == 0 {
        assert(a + b =~= b);
        assert(encode_utf8(a) + encode_utf8(b) =~= encode_utf8(b));
    } else {
        assert((a + b).drop_first() =~= a.drop_first() + b);
        assert((a + b)[0] == a[0]);
        lemma_encode_concat(a.drop_first(), b);
        assert(encode_utf8(a + b) =~= encode_utf8(a) + encode_utf8(b));
    }
}

/// A line feed is the single byte 10.
pub proof fn lemma_encode_line_feed()
    ensures
        encode_utf8(seq!['\n']) == seq![10u8],
        decode_utf8(seq![10u8]) == seq!['\n'],
{
    let c = '\n';
    assert(c as u32 == 10u32);
    assert((10u32 & 0x7Fu32) as u8 == 10u8) by (bit_vector);
    assert(encode_scalar(10u32) =~= seq![10u8]);
    assert(seq!['\n'].drop_first() =~= Seq::<char>::empty());
    assert(encode_utf8(Seq::<char>::empty()) =~= Seq::<u8>::empty());
    assert(seq!['\n'][0] as u32 == 10u32);
    assert(encode_utf8(seq!['\n']) == encode_scalar(10u32) + encode_utf8(Seq::<char>::empty()));
    assert(encode_utf8(seq!['\n']) =~= seq![10u8]);
    encode_utf8_decode_utf8(seq!['\n']);
}

/// Text whose encoding holds no byte 10 holds no line feed.
pub proof fn lemma_no_line_feed(x: Seq<char>)
    requires
        forall|j: int| 0 <= j < encode_utf8(x).len() ==> encode_utf8(x)[j] != 10u8,
    ensures
        forall|i: int| 0 <= i < x.len() ==> x[i] != '\n',
{
    assert forall|i: int| 0 <= i < x.len() implies x[i] != '\n' by {
        if x[i] == '\n' {
            let a = x.take(i);
            let b = x.skip(i);
            assert(x =~= a + b);
            lemma_encode_concat(a, b);
            assert(b =~= seq!['\n'] + b.drop_first());
            lemma_encode_concat(seq!['\n'], b.drop_first());
            lemma_encode_line_feed();
            let k = encode_utf8(a).len() as int;
            assert(encode_utf8(x)[k] == 10u8);
        }
    }
}

/// Splitting UTF-8 text at its first line feed byte: the byte starts a
/// character of its own, the text before it is a line without line feed, and
/// the text is that line, a line feed and the rest.
pub proof fn lemma_split_at_line_feed(x: Seq<char>, off: int)
    requires
        0 <= off < encode_utf8(x).len(),
        encode_utf8(x)[off] == 10u8,
        forall|j: int| 0 <= j < off ==> encode_utf8(x)[j] != 10u8,
    ensures
        is_char_boundary(encode_utf8(x), off),
        is_char_boundary(encode_utf8(x).subrange(off, encode_utf8(x).len() as int), 1),
        x == decode_utf8(encode_utf8(x).subrange(0, off)) + seq!['\n'] + decode_utf8(
            encode_utf8(x).subrange(off + 1, encode_utf8(x).len() as int),
        ),
        forall|i: int|
            0 <= i < decode_utf8(encode_utf8(x).subrange(0, off)).len() ==> decode_utf8(
                encode_utf8(x).subrange(0, off),
            )[i] != '\n',
{
    let r = encode_utf8(x);
    let n = r.len() as int;
    encode_utf8_valid_utf8(x);
    encode_utf8_decode_utf8(x);
    is_char_boundary_iff_not_is_continuation_byte(r, off);
    let head = r.subrange(0, off);
    let a = r.subrange(off, n);
    valid_utf8_split(r, off);
    decode_utf8_split(r, off);
    // The line feed byte is a character of its own.
    assert(a[0] == 10u8);
    assert(is_char_boundary(a, 1)) by {
        reveal_with_fuel(is_char_boundary, 2);
    }
    valid_utf8_split(a, 1);
    decode_utf8_split(a, 1);
    assert(a.subrange(0, 1) =~= seq![10u8]);
    assert(a.subrange(1, a.len() as int) =~= r.subrange(off + 1, n));
    lemma_encode_line_feed();
    // The line before it holds no line feed.
    decode_utf8_encode_utf8(head);
    lemma_no_line_feed(decode_utf8(head));
}

} // verus!
