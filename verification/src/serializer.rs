//! The writer, proved to produce the text that `ser` describes.

use vstd::prelude::*;

use crate::text::{chars_of, int_text, nat_text, push_char, push_decimal};
use crate::{lemma_child_decreases, lemma_model_children, PlnValue, Value};

verus! {

/// The pop count handed to the `i`-th of `n` children of a container whose own
/// pop count is `cp`: only the last child closes the container (and what the
/// container itself had to close).
pub open spec fn child_pop(i: int, n: int, cp: nat) -> nat {
    if i == n - 1 {
        cp + 1
    } else {
        0
    }
}

/// The suffix that closes `n` containers after a leaf value: nothing for zero,
/// else a space and the decimal count.
pub open spec fn pop_text(n: nat) -> Seq<char> {
    if n == 0 {
        Seq::empty()
    } else {
        seq![' '] + nat_text(n)
    }
}

/// A string's characters with every `"` doubled.
pub open spec fn escape(s: Seq<char>) -> Seq<char>
    decreases s.len(),
{
    if s.len() == 0 {
        Seq::empty()
    } else {
        escape(s.drop_last()) + (if s.last() == '"' {
            seq!['"', '"']
        } else {
            seq![s.last()]
        })
    }
}

/// A string literal: the escaped characters between two `"`.
pub open spec fn quoted(s: Seq<char>) -> Seq<char> {
    seq!['"'] + escape(s) + seq!['"']
}

/// The text of a leaf value.
pub open spec fn leaf_text(v: Value) -> Seq<char> {
    match v {
        Value::Null => seq!['n', 'u', 'l', 'l'],
        Value::Bool(b) => if b {
            seq!['t', 'r', 'u', 'e']
        } else {
            seq!['f', 'a', 'l', 's', 'e']
        },
        Value::Int(n) => int_text(n),
        Value::Float(t) => t,
        Value::Str(s) => quoted(s),
        _ => Seq::empty(),
    }
}

/// Whether `v` is an object or an array.
pub open spec fn is_container(v: Value) -> bool {
    v is Object || v is Array
}

/// The number of children of a container.
pub open spec fn child_count(v: Value) -> int {
    match v {
        Value::Object(cs) => cs.len() as int,
        Value::Array(xs) => xs.len() as int,
        _ => 0,
    }
}

/// The `i`-th child of a container.
pub open spec fn child(v: Value, i: int) -> Value {
    match v {
        Value::Object(cs) => cs[i].1,
        Value::Array(xs) => xs[i],
        _ => Value::Null,
    }
}

/// The text of `v` with `cp` pending closes: a container writes its opening
/// line and then its children, the last of which carries the closes; a leaf
/// writes one line ending in the closes.
pub open spec fn ser(v: Value, cp: nat) -> Seq<char>
    decreases v, 1int, 0int,
{
    match v {
        Value::Object(cs) => seq!['{', '\n'] + ser_entries(v, cs.len() as int, cp),
        Value::Array(xs) => seq!['[', '\n'] + ser_entries(v, xs.len() as int, cp),
        _ => leaf_text(v) + pop_text(cp) + seq!['\n'],
    }
}

/// The text of the first `k` children of a container.
pub open spec fn ser_entries(v: Value, k: int, cp: nat) -> Seq<char>
    decreases v, 0int, k,
{
    if k <= 0 {
        Seq::empty()
    } else {
        match v {
            Value::Object(cs) => if k > cs.len() {
                Seq::empty()
            } else {
                ser_entries(v, k - 1, cp) + cs[k - 1].0 + seq![':', ' '] + ser(
                    cs[k - 1].1,
                    child_pop(k - 1, cs.len() as int, cp),
                )
            },
            Value::Array(xs) => if k > xs.len() {
                Seq::empty()
            } else {
                ser_entries(v, k - 1, cp) + ser(xs[k - 1], child_pop(k - 1, xs.len() as int, cp))
            },
            _ => Seq::empty(),
        }
    }
}

/// How deeply containers nest in `v` (0 for a leaf).
pub open spec fn depth(v: Value) -> nat
    decreases v, 1int, 0int,
{
    match v {
        Value::Object(cs) => 1 + entries_depth(v, cs.len() as int),
        Value::Array(xs) => 1 + entries_depth(v, xs.len() as int),
        _ => 0,
    }
}

/// The greatest depth among the first `k` children of a container.
pub open spec fn entries_depth(v: Value, k: int) -> nat
    decreases v, 0int, k,
{
    if k <= 0 {
        0
    } else {
        match v {
            Value::Object(cs) => if k > cs.len() {
                0
            } else {
                let a = entries_depth(v, k - 1);
                let b = depth(cs[k - 1].1);
                if a >= b {
                    a
                } else {
                    b
                }
            },
            Value::Array(xs) => if k > xs.len() {
                0
            } else {
                let a = entries_depth(v, k - 1);
                let b = depth(xs[k - 1]);
                if a >= b {
                    a
                } else {
                    b
                }
            },
            _ => 0,
        }
    }
}

/// The text that [`to_string`] writes for `v`.
pub open spec fn serialize(v: Value) -> Seq<char> {
    ser(v, 0)
}

/// Writes a value as text.
///
/// The result is `ser(value@, 0)`: each container opens a line of its own, each
/// object entry is `key: ` followed by its value, and the last leaf of a
/// container carries the count of containers it closes.
pub fn to_string(value: &PlnValue) -> (s: String)
    requires
        depth(value@) <= usize::MAX,
    ensures
        s@ == serialize(value@),
{
    let mut g = Generator { buf: String::new(), stack: Vec::new(), awaiting_value: false };
    g.write_value(value, 0);
    g.buf
}

/// The stack entry of an object being written (`b'o'`).
pub const OBJECT_KIND: u8 = 111;

/// The stack entry of an array being written (`b'a'`).
pub const ARRAY_KIND: u8 = 97;

/// Text writer state: the output so far, the kinds of the containers being
/// written (see [`OBJECT_KIND`] and [`ARRAY_KIND`]), and whether an object
/// entry's value is due.
pub struct Generator {
    pub buf: String,
    pub stack: Vec<u8>,
    pub awaiting_value: bool,
}

impl Generator {
    /// The kind of the innermost open container, or 0 at the top level.
    pub open spec fn spec_top(&self) -> u8 {
        if self.stack@.len() == 0 {
            0
        } else {
            self.stack@.last()
        }
    }

    /// Appends the text of `v` with `close_pop` pending closes.
    pub fn write_value(&mut self, v: &PlnValue, close_pop: usize)
        requires
            close_pop + depth(v@) <= usize::MAX,
        ensures
            final(self).buf@ == old(self).buf@ + ser(v@, close_pop as nat),
            final(self).stack@ == old(self).stack@,
        decreases v,
    {
        match v {
            PlnValue::Object(obj) => {
                if self.top() == OBJECT_KIND && self.awaiting_value {
                    push_char(&mut self.buf, '{');
                    self.awaiting_value = false;
                } else {
                    push_char(&mut self.buf, '{');
                }
                push_char(&mut self.buf, '\n');
                self.stack.push(OBJECT_KIND);
                self.awaiting_value = false;
                let n: usize = obj.len();
                let mut i: usize = 0;
                proof {
                    lemma_object_view(v);
                }
                while i < n
                    invariant
                        n == obj@.len(),
                        0 <= i <= n,
                        *v == PlnValue::Object(*obj),
                        v@ is Object,
                        child_count(v@) == n,
                        forall|j: int|
                            0 <= j < n ==> #[trigger] v@->Object_0[j] == (obj@[j].0@, obj@[j].1@),
                        close_pop + depth(v@) <= usize::MAX,
                        self.buf@ == old(self).buf@ + seq!['{', '\n'] + ser_entries(
                            v@,
                            i as int,
                            close_pop as nat,
                        ),
                        self.stack@ == old(self).stack@.push(OBJECT_KIND),
                    decreases n - i,
                {
                    let key = &obj[i].0;
                    let val = &obj[i].1;
                    self.buf.append(key.as_str());
                    push_char(&mut self.buf, ':');
                    push_char(&mut self.buf, ' ');
                    self.awaiting_value = true;
                    proof {
                        lemma_entries_depth_bound(v@, i as int + 1);
                        lemma_child_decreases(v, i as int);
                        assert(decreases_to!(*v => *val));
                    }
                    let child_pop: usize = if i == n - 1 {
                        close_pop + 1
                    } else {
                        0
                    };
                    self.write_value(val, child_pop);
                    i = i + 1;
                }
                self.stack.pop();
            },
            PlnValue::Array(arr) => {
                if self.top() == OBJECT_KIND && self.awaiting_value {
                    push_char(&mut self.buf, '[');
                    self.awaiting_value = false;
                } else {
                    push_char(&mut self.buf, '[');
                }
                push_char(&mut self.buf, '\n');
                self.stack.push(ARRAY_KIND);
                self.awaiting_value = false;
                let n: usize = arr.len();
                let mut i: usize = 0;
                proof {
                    lemma_array_view(v);
                }
                while i < n
                    invariant
                        n == arr@.len(),
                        0 <= i <= n,
                        *v == PlnValue::Array(*arr),
                        v@ is Array,
                        child_count(v@) == n,
                        forall|j: int| 0 <= j < n ==> #[trigger] v@->Array_0[j] == arr@[j]@,
                        close_pop + depth(v@) <= usize::MAX,
                        self.buf@ == old(self).buf@ + seq!['[', '\n'] + ser_entries(
                            v@,
                            i as int,
                            close_pop as nat,
                        ),
                        self.stack@ == old(self).stack@.push(ARRAY_KIND),
                    decreases n - i,
                {
                    let val = &arr[i];
                    proof {
                        lemma_entries_depth_bound(v@, i as int + 1);
                        lemma_child_decreases(v, i as int);
                        assert(decreases_to!(*v => *val));
                    }
                    let child_pop: usize = if i == n - 1 {
                        close_pop + 1
                    } else {
                        0
                    };
                    self.write_value(val, child_pop);
                    i = i + 1;
                }
                self.stack.pop();
            },
            PlnValue::Null => {
                proof {
                    reveal_strlit("null");
                }
                self.put_scalar("null", close_pop);
            },
            PlnValue::Bool(b) => {
                proof {
                    reveal_strlit("true");
                    reveal_strlit("false");
                }
                self.put_scalar(
                    if *b {
                        "true"
                    } else {
                        "false"
                    },
                    close_pop,
                );
            },
            PlnValue::Int(n) => {
                if self.top() == OBJECT_KIND {
                    self.awaiting_value = false;
                }
                let t = itoa(*n);
                self.buf.append(t.as_str());
                if close_pop > 0 {
                    self.push_pop(close_pop);
                }
                push_char(&mut self.buf, '\n');
            },
            PlnValue::Float(t) => {
                self.put_scalar(t.as_str(), close_pop);
            },
            PlnValue::String(s) => {
                self.put_string(s.as_str(), close_pop);
            },
        }
    }

    /// Appends a leaf's text, its pending closes and a line end.
    pub fn put_scalar(&mut self, s: &str, close_pop: usize)
        ensures
            final(self).buf@ == old(self).buf@ + s@ + pop_text(close_pop as nat) + seq!['\n'],
            final(self).stack@ == old(self).stack@,
            final(self).awaiting_value == (if old(self).spec_top() == OBJECT_KIND {
                false
            } else {
                old(self).awaiting_value
            }),
    {
        if self.top() == OBJECT_KIND {
            self.awaiting_value = false;
        }
        self.buf.append(s);
        if close_pop > 0 {
            self.push_pop(close_pop);
        }
        push_char(&mut self.buf, '\n');
    }

    /// Appends a string literal (every `"` doubled), its pending closes and a
    /// line end.
    pub fn put_string(&mut self, s: &str, close_pop: usize)
        ensures
            final(self).buf@ == old(self).buf@ + quoted(s@) + pop_text(close_pop as nat) + seq![
                '\n',
            ],
            final(self).stack@ == old(self).stack@,
            final(self).awaiting_value == (if old(self).spec_top() == OBJECT_KIND {
                false
            } else {
                old(self).awaiting_value
            }),
    {
        if self.top() == OBJECT_KIND {
            self.awaiting_value = false;
        }
        push_char(&mut self.buf, '"');
        let cs = chars_of(s);
        let mut i: usize = 0;
        while i < cs.len()
            invariant
                0 <= i <= cs@.len(),
                cs@ == s@,
                self.buf@ == old(self).buf@ + seq!['"'] + escape(cs@.take(i as int)),
                self.stack@ == old(self).stack@,
                self.awaiting_value == (if old(self).spec_top() == OBJECT_KIND {
                    false
                } else {
                    old(self).awaiting_value
                }),
            decreases cs@.len() - i,
        {
            let c = cs[i];
            push_char(&mut self.buf, c);
            if c == '"' {
                push_char(&mut self.buf, '"');
            }
            assert(cs@.take(i + 1).drop_last() =~= cs@.take(i as int));
            i = i + 1;
        }
        assert(cs@.take(i as int) =~= cs@);
        push_char(&mut self.buf, '"');
        if close_pop > 0 {
            self.push_pop(close_pop);
        }
        push_char(&mut self.buf, '\n');
    }

    /// Appends a space and the decimal count `n` (the closes suffix, when `n > 0`).
    pub fn push_pop(&mut self, n: usize)
        ensures
            final(self).buf@ == old(self).buf@ + seq![' '] + nat_text(n as nat),
            final(self).stack@ == old(self).stack@,
            final(self).awaiting_value == old(self).awaiting_value,
    {
        push_char(&mut self.buf, ' ');
        push_decimal(&mut self.buf, n as u64);
    }

    /// The kind of the innermost open container, or 0 at the top level.
    pub fn top(&self) -> (r: u8)
        ensures
            r == self.spec_top(),
    {
        if self.stack.len() == 0 {
            0
        } else {
            self.stack[self.stack.len() - 1]
        }
    }
}

/// The decimal text of `n`.
pub fn itoa(n: i64) -> (s: String)
    ensures
        s@ == int_text(n),
{
    let mut s = String::new();
    if n < 0 {
        push_char(&mut s, '-');
        let m: u64 = if n == i64::MIN {
            9223372036854775808u64
        } else {
            (-n) as u64
        };
        push_decimal(&mut s, m);
    } else {
        push_decimal(&mut s, n as u64);
    }
    s
}

/// The model of an object lists its entries' keys and models.
proof fn lemma_object_view(v: &PlnValue)
    requires
        v is Object,
    ensures
        v@ is Object,
        child_count(v@) == v->Object_0@.len(),
        forall|j: int|
            0 <= j < v->Object_0@.len() ==> #[trigger] v@->Object_0[j] == (
                v->Object_0@[j].0@,
                v->Object_0@[j].1@,
            ),
{
    lemma_model_children(*v, v->Object_0@.len() as int);
}

/// The model of an array lists its elements' models.
proof fn lemma_array_view(v: &PlnValue)
    requires
        v is Array,
    ensures
        v@ is Array,
        child_count(v@) == v->Array_0@.len(),
        forall|j: int| 0 <= j < v->Array_0@.len() ==> #[trigger] v@->Array_0[j] == v->Array_0@[j]@,
{
    lemma_model_children(*v, v->Array_0@.len() as int);
}

/// A child of a container is no deeper than the container less one.
pub proof fn lemma_entries_depth_bound(v: Value, k: int)
    requires
        is_container(v),
        1 <= k <= child_count(v),
    ensures
        depth(child(v, k - 1)) + 1 <= depth(v),
        entries_depth(v, k) <= entries_depth(v, child_count(v)),
    decreases child_count(v) - k,
{
    if k < child_count(v) {
        lemma_entries_depth_bound(v, k + 1);
        assert(entries_depth(v, k) <= entries_depth(v, k + 1));
    }
    assert(depth(child(v, k - 1)) <= entries_depth(v, k));
}

} // verus!
