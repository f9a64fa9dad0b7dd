//! PopLine documents: a line-based text format for objects, arrays and leaf
//! values, read by [`from_str`] and written by [`to_string`].
//!
//! A container opens with a line of its own (`{` or `[`, after `key: ` inside an
//! object). Its entries follow, one per line; a leaf may end in a space and a
//! count of containers it closes (`"x" 2`), and a line inside a container may
//! start with such a count (`2 key: value`). Strings are quoted, with `""` for
//! a quote, and may go on over several lines.
//!
//! Modules: `syntax` states the reading as a state machine over lines,
//! `parser` reads, `serializer` writes, `roundtrip` proves that reading back
//! what was written gives the value again, `laws` states over literal text
//! what is written and read (keywords, decimal integers, floats, keys, lines
//! of brackets), and `text` holds character and number helpers.

use vstd::prelude::*;

pub mod laws;
pub mod parser;
pub mod roundtrip;
pub mod serializer;
pub mod syntax;
pub mod text;

pub use parser::from_str;
pub use serializer::to_string;

verus! {

/// A document value. A float is held as its decimal text, which reads as an
/// `f64` (see `syntax::float_syntax`). `Clone` is implemented by hand below,
/// with a contract: Verus refuses the derived impl on this recursive type.
#[derive(Debug, PartialEq)]
pub enum PlnValue {
    Null,
    Bool(bool),
    Int(i64),
    Float(String),
    String(String),
    Object(Vec<(String, PlnValue)>),
    Array(Vec<PlnValue>),
}

impl PlnValue {
    /// An empty object.
    pub fn new_object() -> (r: Self)
        ensures
            r@ == Value::Object(Seq::empty()),
    {
        let r = PlnValue::Object(Vec::new());
        proof {
            lemma_model_children(r, 0);
        }
        assert(r@->Object_0 =~= Seq::<(Seq<char>, Value)>::empty());
        r
    }

    /// An empty array.
    pub fn new_array() -> (r: Self)
        ensures
            r@ == Value::Array(Seq::empty()),
    {
        let r = PlnValue::Array(Vec::new());
        proof {
            lemma_model_children(r, 0);
        }
        assert(r@->Array_0 =~= Seq::<Value>::empty());
        r
    }

    /// The null value.
    pub fn new_null() -> (r: Self)
        ensures
            r@ == Value::Null,
    {
        PlnValue::Null
    }

    /// A boolean.
    pub fn new_bool(v: bool) -> (r: Self)
        ensures
            r@ == Value::Bool(v),
    {
        PlnValue::Bool(v)
    }

    /// An integer.
    pub fn new_int(v: i64) -> (r: Self)
        ensures
            r@ == Value::Int(v),
    {
        PlnValue::Int(v)
    }

    /// Adds the entry `key: value` at the end of an object; any other value is
    /// left as it is.
    pub fn add_to_object(&mut self, key: &str, value: PlnValue)
        ensures
            old(self)@ is Object ==> final(self)@ == Value::Object(
                old(self)@->Object_0.push((key@, value@)),
            ),
            !(old(self)@ is Object) ==> final(self)@ == old(self)@,
    {
        let ghost before = *self;
        match self {
            PlnValue::Object(cs) => {
                let ghost old_cs = *cs;
                cs.push((String::from_str(key), value));
                proof {
                    lemma_model_children(before, old_cs@.len() as int);
                    lemma_model_children(*self, old_cs@.len() as int + 1);
                }
                assert(self@->Object_0 =~= before@->Object_0.push((key@, value@)));
            },
            _ => {},
        }
    }

    /// A string holding the characters of `s`.
    pub fn new_string(s: &str) -> (r: Self)
        ensures
            r@ == Value::Str(s@),
    {
        PlnValue::String(String::from_str(s))
    }
}

impl Clone for PlnValue {
    /// A copy of the value, entry by entry.
    fn clone(&self) -> (r: Self)
        ensures
            r@ == self@,
        decreases self,
    {
        match self {
            PlnValue::Null => PlnValue::Null,
            PlnValue::Bool(b) => PlnValue::Bool(*b),
            PlnValue::Int(n) => PlnValue::Int(*n),
            PlnValue::Float(t) => PlnValue::Float(t.clone()),
            PlnValue::String(s) => PlnValue::String(s.clone()),
            PlnValue::Object(cs) => {
                let mut out: Vec<(String, PlnValue)> = Vec::new();
                let mut i: usize = 0;
                while i < cs.len()
                    invariant
                        *self == PlnValue::Object(*cs),
                        0 <= i <= cs@.len(),
                        out@.len() == i,
                        forall|j: int|
                            0 <= j < i ==> (#[trigger] out@[j]).0@ == cs@[j].0@ && out@[j].1@
                                == cs@[j].1@,
                    decreases cs@.len() - i,
                {
                    proof {
                        lemma_child_decreases(self, i as int);
                    }
                    let k = cs[i].0.clone();
                    let v = cs[i].1.clone();
                    out.push((k, v));
                    i = i + 1;
                }
                let r = PlnValue::Object(out);
                proof {
                    lemma_model_children(r, out@.len() as int);
                    lemma_model_children(*self, cs@.len() as int);
                    assert(entry_models(r, out@.len() as int) =~= entry_models(*self, cs@.len() as int));
                }
                r
            },
            PlnValue::Array(xs) => {
                let mut out: Vec<PlnValue> = Vec::new();
                let mut i: usize = 0;
                while i < xs.len()
                    invariant
                        *self == PlnValue::Array(*xs),
                        0 <= i <= xs@.len(),
                        out@.len() == i,
                        forall|j: int| 0 <= j < i ==> (#[trigger] out@[j])@ == xs@[j]@,
                    decreases xs@.len() - i,
                {
                    proof {
                        lemma_child_decreases(self, i as int);
                    }
                    let v = xs[i].clone();
                    out.push(v);
                    i = i + 1;
                }
                let r = PlnValue::Array(out);
                proof {
                    lemma_model_children(r, out@.len() as int);
                    lemma_model_children(*self, xs@.len() as int);
                    assert(element_models(r, out@.len() as int) =~= element_models(*self, xs@.len() as int));
                }
                r
            },
        }
    }
}

/// Mathematical model of a document value.
pub enum Value {
    Null,
    Bool(bool),
    Int(i64),
    Float(Seq<char>),
    Str(Seq<char>),
    Object(Seq<(Seq<char>, Value)>),
    Array(Seq<Value>),
}

/// The model of a value.
pub open spec fn model(v: PlnValue) -> Value
    decreases v, 1int, 0int,
{
    match v {
        PlnValue::Null => Value::Null,
        PlnValue::Bool(b) => Value::Bool(b),
        PlnValue::Int(n) => Value::Int(n),
        PlnValue::Float(t) => Value::Float(t@),
        PlnValue::String(s) => Value::Str(s@),
        PlnValue::Object(cs) => Value::Object(entry_models(v, cs@.len() as int)),
        PlnValue::Array(xs) => Value::Array(element_models(v, xs@.len() as int)),
    }
}

/// The models of the first `k` entries of an object.
pub open spec fn entry_models(v: PlnValue, k: int) -> Seq<(Seq<char>, Value)>
    decreases v, 0int, k,
{
    match v {
        PlnValue::Object(cs) => if k <= 0 || k > cs@.len() {
            Seq::empty()
        } else {
            entry_models(v, k - 1).push((cs@[k - 1].0@, model(cs@[k - 1].1)))
        },
        _ => Seq::empty(),
    }
}

/// The models of the first `k` elements of an array.
pub open spec fn element_models(v: PlnValue, k: int) -> Seq<Value>
    decreases v, 0int, k,
{
    match v {
        PlnValue::Array(xs) => if k <= 0 || k > xs@.len() {
            Seq::empty()
        } else {
            element_models(v, k - 1).push(model(xs@[k - 1]))
        },
        _ => Seq::empty(),
    }
}

impl View for PlnValue {
    type V = Value;

    open spec fn view(&self) -> Value {
        model(*self)
    }
}

/// The model of an object lists its entries' keys and models; that of an
/// array, its elements' models.
pub proof fn lemma_model_children(v: PlnValue, k: int)
    ensures
        v is Object && 0 <= k <= v->Object_0@.len() ==> {
            &&& entry_models(v, k).len() == k
            &&& forall|j: int|
                0 <= j < k ==> #[trigger] entry_models(v, k)[j] == (
                    v->Object_0@[j].0@,
                    model(v->Object_0@[j].1),
                )
        },
        v is Array && 0 <= k <= v->Array_0@.len() ==> {
            &&& element_models(v, k).len() == k
            &&& forall|j: int|
                0 <= j < k ==> #[trigger] element_models(v, k)[j] == model(v->Array_0@[j])
        },
    decreases k,
{
    if k > 0 {
        lemma_model_children(v, k - 1);
    }
}

/// An entry of a container is smaller than the container.
pub proof fn lemma_child_decreases(v: &PlnValue, i: int)
    ensures
        v is Object && 0 <= i < v->Object_0@.len() ==> decreases_to!(*v => v->Object_0@[i].1),
        v is Array && 0 <= i < v->Array_0@.len() ==> decreases_to!(*v => v->Array_0@[i]),
{
    match v {
        PlnValue::Object(cs) => {
            if 0 <= i < cs@.len() {
                assert(decreases_to!(*v => *cs));
                assert(decreases_to!(*cs => cs@));
                assert(decreases_to!(cs@ => cs@[i]));
                assert(decreases_to!(cs@[i] => cs@[i].1));
            }
        },
        PlnValue::Array(xs) => {
            if 0 <= i < xs@.len() {
                assert(decreases_to!(*v => *xs));
                assert(decreases_to!(*xs => xs@));
                assert(decreases_to!(xs@ => xs@[i]));
            }
        },
        _ => {},
    }
}

} // verus!
