use pln::parser::{fwd_trim_pop_suffix, is_key_valid, parse_number, pop_suffix_after};
use pln::serializer::{itoa, Generator};
use pln::{from_str, to_string, PlnValue};

fn obj(entries: Vec<(&str, PlnValue)>) -> PlnValue {
    PlnValue::Object(entries.into_iter().map(|(k, v)| (k.to_string(), v)).collect())
}

fn text(s: &str) -> PlnValue {
    PlnValue::new_string(s)
}

fn err(input: &str) -> String {
    match from_str(input) {
        Ok(v) => panic!("expected an error, got {:?}", v),
        Err(e) => e,
    }
}

fn generator() -> Generator {
    Generator { buf: String::new(), stack: Vec::new(), awaiting_value: false }
}

// ─────────────── reading ───────────────

#[test]
fn reads_object_entries() {
    let v = from_str("{\nname: \"popline\"\nn: 42\nok: true\nno: false\nnothing: null\n").unwrap();
    assert_eq!(
        v,
        obj(vec![
            ("name", text("popline")),
            ("n", PlnValue::new_int(42)),
            ("ok", PlnValue::new_bool(true)),
            ("no", PlnValue::new_bool(false)),
            ("nothing", PlnValue::new_null()),
        ])
    );
}

#[test]
fn reads_suffix_pops() {
    let v = from_str("{\na: [\n1\n2 1\nb: true\n").unwrap();
    assert_eq!(
        v,
        obj(vec![
            ("a", PlnValue::Array(vec![PlnValue::Int(1), PlnValue::Int(2)])),
            ("b", PlnValue::Bool(true)),
        ])
    );
}

#[test]
fn reads_prefix_pops() {
    let v = from_str("{\na: {\nb: {\nc: \"deep\"\n2 x: \"top\"\n").unwrap();
    assert_eq!(
        v,
        obj(vec![
            ("a", obj(vec![("b", obj(vec![("c", text("deep"))]))])),
            ("x", text("top")),
        ])
    );
}

#[test]
fn reads_prefix_pop_before_array_in_array() {
    let v = from_str("{\na: [\n[\n1\n1 [\n2\n").unwrap();
    assert_eq!(
        v,
        obj(vec![(
            "a",
            PlnValue::Array(vec![
                PlnValue::Array(vec![PlnValue::Int(1)]),
                PlnValue::Array(vec![PlnValue::Int(2)]),
            ]),
        )])
    );
}

#[test]
fn pops_never_close_the_top_level() {
    let v = from_str("{\na: 1 5\nb: 2\n").unwrap();
    assert_eq!(v, obj(vec![("a", PlnValue::Int(1)), ("b", PlnValue::Int(2))]));
}

#[test]
fn reads_inline_containers() {
    let v = from_str("[ [\n1\n").unwrap();
    assert_eq!(v, PlnValue::Array(vec![PlnValue::Array(vec![PlnValue::Int(1)])]));
    let v = from_str("[ {\na: 1\n").unwrap();
    assert_eq!(v, PlnValue::Array(vec![obj(vec![("a", PlnValue::Int(1))])]));
}

#[test]
fn reads_doubled_quotes() {
    let v = from_str("{\nmsg: \"He said: \"\"Hello\"\"\"\n").unwrap();
    assert_eq!(v, obj(vec![("msg", text("He said: \"Hello\""))]));
}

#[test]
fn reads_strings_over_lines() {
    let v = from_str("{\na: \"line1\nline2\"\n").unwrap();
    assert_eq!(v, obj(vec![("a", text("line1\nline2"))]));
    let v = from_str("{\na: \"x\nsay \"\"hi\"\"\"\nb: 1\n").unwrap();
    assert_eq!(v, obj(vec![("a", text("x\nsay \"hi\"")), ("b", PlnValue::Int(1))]));
    let v = from_str("{\nk: {\na: \"x\n\ny\" 1\nb: 2\n").unwrap();
    assert_eq!(
        v,
        obj(vec![("k", obj(vec![("a", text("x\n\ny"))])), ("b", PlnValue::Int(2))])
    );
}

#[test]
fn reads_non_ascii_text() {
    let v = from_str("{\nname: \"黑风雷\"\n").unwrap();
    assert_eq!(v, obj(vec![("name", text("黑风雷"))]));
}

#[test]
fn strips_carriage_returns() {
    let v = from_str("{\r\na: 1\r\n").unwrap();
    assert_eq!(v, obj(vec![("a", PlnValue::Int(1))]));
}

#[test]
fn reads_numbers() {
    let v = from_str("{\na: -9223372036854775808\nb: 9223372036854775808\nc: -17\n").unwrap();
    assert_eq!(
        v,
        obj(vec![
            ("a", PlnValue::Int(i64::MIN)),
            ("b", PlnValue::Int(i64::MIN)),
            ("c", PlnValue::Int(-17)),
        ])
    );
    let v = from_str("{\nf: 1.5e3\ng: -0.25\nh: 2E-3\n").unwrap();
    assert_eq!(
        v,
        obj(vec![
            ("f", PlnValue::Float("1.5e3".to_string())),
            ("g", PlnValue::Float("-0.25".to_string())),
            ("h", PlnValue::Float("2E-3".to_string())),
        ])
    );
}

#[test]
fn a_document_is_a_container() {
    for t in ["{\n", "[\n", "[\n1\n", "{\na: [\n"] {
        match from_str(t).unwrap() {
            PlnValue::Object(_) | PlnValue::Array(_) => {}
            other => panic!("not a container: {:?}", other),
        }
    }
}

// ─────────────── errors ───────────────

#[test]
fn rejects_top_level_leaves() {
    assert_eq!(err("42\n"), "top-level value must be an object or array: '42'");
    assert_eq!(err("\"str\"\n"), "top-level value must be an object or array: '\"str\"'");
    assert_eq!(err("null\n"), "top-level value must be an object or array: 'null'");
    assert_eq!(err("\"abc\n"), "multi-line strings not supported at root");
    assert_eq!(err("nope\n"), "bare string must be quoted: 'nope'");
}

#[test]
fn reports_each_error() {
    assert_eq!(err(""), "empty input");
    assert_eq!(err("\n\n"), "empty input");
    assert_eq!(err("{\n\nb: 1\n"), "empty line not allowed in message body");
    assert_eq!(err("{\nnovalue\n"), "object line must be 'key: value': 'novalue'");
    assert_eq!(err("{\nbad:key: 1\n"), "invalid key: 'bad:key'");
    assert_eq!(err("{\n\"key\": 1\n"), "invalid key: '\"key\"'");
    assert_eq!(err("{\na: \n"), "empty value");
    assert_eq!(err("{\na: hello\n"), "bare string must be quoted: 'hello'");
    assert_eq!(err("{\na: 1.2.3\n"), "bare string must be quoted: '1.2.3'");
    assert_eq!(err("{\na: 1e\n"), "bare string must be quoted: '1e'");
    assert_eq!(err("{\na: \"x\" y\n"), "extra after closing quote: ' y'");
    assert_eq!(err("{\na: \"x\nb\" z\n"), "extra after closing quote: ' z'");
    assert_eq!(
        err("{\na: \"x\ny\" 99999999999999999999999\n"),
        "pop count out of range: ' 99999999999999999999999'"
    );
    assert_eq!(err("{\na: \"x\n"), "unclosed string at end of input");
}

// ─────────────── writing ───────────────

#[test]
fn writes_documents() {
    let v = obj(vec![
        ("a", PlnValue::Int(42)),
        ("b", PlnValue::Array(vec![PlnValue::Int(1), text("x\"y")])),
    ]);
    assert_eq!(to_string(&v), "{\na: 42\nb: [\n1\n\"x\"\"y\" 2\n");
    let v = obj(vec![("a", obj(vec![("b", PlnValue::Int(1))])), ("c", PlnValue::Null)]);
    assert_eq!(to_string(&v), "{\na: {\nb: 1 1\nc: null 1\n");
    assert_eq!(to_string(&PlnValue::new_object()), "{\n");
    assert_eq!(to_string(&PlnValue::new_array()), "[\n");
    assert_eq!(to_string(&PlnValue::Int(i64::MIN)), "-9223372036854775808\n");
    assert_eq!(to_string(&PlnValue::Float("2.5".to_string())), "2.5\n");
}

#[test]
fn writes_long_pop_counts() {
    let mut v = PlnValue::Int(7);
    for _ in 0..120 {
        v = PlnValue::Array(vec![v]);
    }
    let s = to_string(&v);
    assert!(s.ends_with("\n7 120\n"));
    assert_eq!(from_str(&s).unwrap(), v);
}

#[test]
fn empty_container_inside_loses_its_closes() {
    let v = obj(vec![("a", PlnValue::new_object()), ("b", PlnValue::Int(1))]);
    let s = to_string(&v);
    assert_eq!(s, "{\na: {\nb: 1 1\n");
    assert_eq!(from_str(&s).unwrap(), obj(vec![("a", obj(vec![("b", PlnValue::Int(1))]))]));
}

#[test]
fn round_trips() {
    let v = obj(vec![
        ("s", text("multi\nline \"quoted\"\n")),
        ("n", PlnValue::Int(i64::MIN)),
        ("f", PlnValue::Float("-1.5e-7".to_string())),
        ("xs", PlnValue::Array(vec![PlnValue::Bool(true), PlnValue::Null, text("a 1")])),
        ("last", obj(vec![("empty", PlnValue::new_array())])),
    ]);
    assert_eq!(from_str(&to_string(&v)).unwrap(), v);
}

// ─────────────── pieces ───────────────

#[test]
fn key_validity() {
    assert!(is_key_valid("ok"));
    assert!(is_key_valid("with-dash_and.dot"));
    assert!(!is_key_valid(""));
    assert!(!is_key_valid("a b"));
    assert!(!is_key_valid("a#"));
    assert!(!is_key_valid("a:b"));
    assert!(!is_key_valid("{a"));
}

#[test]
fn pop_suffixes() {
    assert_eq!(fwd_trim_pop_suffix("\"x\" 12"), ("\"x\"", 12));
    assert_eq!(fwd_trim_pop_suffix("abc"), ("abc", 0));
    assert_eq!(fwd_trim_pop_suffix("a 1 2"), ("a 1", 2));
    assert_eq!(fwd_trim_pop_suffix("a "), ("a ", 0));
    assert_eq!(fwd_trim_pop_suffix("a 99999999999999999999999"), ("a", 0));
    assert_eq!(pop_suffix_after(""), Ok(0));
    assert_eq!(pop_suffix_after(" 3"), Ok(3));
    assert_eq!(pop_suffix_after("x"), Err("extra after closing quote: 'x'".to_string()));
    assert_eq!(pop_suffix_after(" "), Err("extra after closing quote: ' '".to_string()));
    assert_eq!(pop_suffix_after(" 3a"), Err("extra after closing quote: ' 3a'".to_string()));
}

#[test]
fn generator_pieces() {
    let mut g = generator();
    assert_eq!(g.top(), 0);
    g.put_scalar("true", 0);
    g.put_scalar("null", 3);
    g.put_string("a\"b", 12);
    g.push_pop(105);
    assert_eq!(g.buf, "true\nnull 3\n\"a\"\"b\" 12\n 105");
    g.stack.push(pln::serializer::OBJECT_KIND);
    g.awaiting_value = true;
    assert_eq!(g.top(), b'o');
    g.put_scalar("1", 0);
    assert!(!g.awaiting_value);
    assert_eq!(g.stack, vec![b'o']);
}

#[test]
fn clones_deeply() {
    let v = obj(vec![
        ("a", PlnValue::Array(vec![PlnValue::Int(1), text("x")])),
        ("f", PlnValue::Float("0.5".to_string())),
    ]);
    let c = v.clone();
    assert_eq!(c, v);
}

#[test]
fn readme_usage() {
    let v = from_str("{\nkey: \"value\"\n").unwrap();
    assert_eq!(v, obj(vec![("key", text("value"))]));
    assert_eq!(to_string(&v), "{\nkey: \"value\" 1\n");

    let mut o = PlnValue::new_object();
    o.add_to_object("name", PlnValue::new_string("test"));
    assert_eq!(o, obj(vec![("name", text("test"))]));
    let mut a = PlnValue::new_array();
    a.add_to_object("name", PlnValue::new_null());
    assert_eq!(a, PlnValue::Array(vec![]));
}

#[test]
fn push_pop_writes_any_count() {
    let mut g = generator();
    g.push_pop(0);
    assert_eq!(g.buf, " 0");
    assert_eq!(pop_suffix_after(&g.buf), Ok(0));
    let mut g = generator();
    g.push_pop(4071);
    assert_eq!(g.buf, " 4071");
    assert_eq!(pop_suffix_after(&g.buf), Ok(4071));
}

#[test]
fn numbers_read_back() {
    for n in [0i64, 7, -7, 42, 1000, i64::MAX, i64::MIN] {
        let t = itoa(n);
        assert_eq!(t, n.to_string());
        assert_eq!(parse_number(&t), Some(PlnValue::Int(n)));
    }
    assert_eq!(parse_number("007"), Some(PlnValue::Int(7)));
    assert_eq!(parse_number("1.5"), Some(PlnValue::Float("1.5".to_string())));
    assert_eq!(parse_number("x"), None);
    assert_eq!(parse_number("-"), None);
}

#[test]
fn write_value_layout() {
    let mut g = generator();
    g.write_value(&PlnValue::Array(vec![PlnValue::Int(1), PlnValue::Null]), 2);
    assert_eq!(g.buf, "[\n1\nnull 3\n");
    assert!(g.stack.is_empty());
}

#[test]
fn crlf_line_ends_read_as_lf() {
    let t = "{\na: [\n1\n\"x\ny\" 1\nb: bad\n";
    assert_eq!(from_str(&t.replace('\n', "\r\n")), from_str(t));
    let t = "{\na: [\n1\n\"x\ny\" 1\nb: 2\n";
    assert_eq!(from_str(&t.replace('\n', "\r\n")), from_str(t));
    assert!(from_str(t).is_ok());
}
