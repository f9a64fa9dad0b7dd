use pln::{from_str, to_string, PlnValue};

// ═══════════════ Unit Tests ═══════════════

#[test]
fn test_basic_types() {
    let v = from_str("{\nname: \"popline\"\n").unwrap();
    assert_eq!(v, from_str(&to_string(&v)).unwrap());

    let v = from_str("{\na: 42\n").unwrap();
    assert_eq!(v, from_str(&to_string(&v)).unwrap());
}

#[test]
fn test_nesting() {
    let v = from_str("{\nouter: {\ninner: \"value\"\n").unwrap();
    assert_eq!(v, from_str(&to_string(&v)).unwrap());
}

#[test]
fn test_pop() {
    // Prefix-style pops (still supported for containers and key:value lines)
    let v = from_str("{\nouter: {\ninner: \"x\"\n1 mid: \"y\"\n").unwrap();
    assert_eq!(v, from_str(&to_string(&v)).unwrap());

    let v = from_str("{\na: {\nb: {\nc: \"deep\"\n2 x: \"top\"\n").unwrap();
    assert_eq!(v, from_str(&to_string(&v)).unwrap());

    // Suffix-style pops (new format for leaf values)
    let v = from_str("{\nouter: {\ninner: \"x\"\nmid: \"other\" 1\n").unwrap();
    assert_eq!(v, from_str(&to_string(&v)).unwrap());

    let v = from_str("{\na: {\nb: {\nc: \"deep\"\nx: \"top\" 2\n").unwrap();
    assert_eq!(v, from_str(&to_string(&v)).unwrap());

    // Array element with suffix pop (pops the array, next line at parent level)
    let v = from_str("{\na: [\n1\n2 1\nb: true\n").unwrap();
    assert_eq!(v, from_str(&to_string(&v)).unwrap());
}

#[test]
fn test_strings() {
    let v = from_str("{\nmsg: \"He said: \"\"Hello\"\"\"\n").unwrap();
    assert_eq!(v, from_str(&to_string(&v)).unwrap());
}

#[test]
fn test_errors() {
    assert!(from_str("42\n").is_err());
    assert!(from_str("\"str\"\n").is_err());
    assert!(from_str("true\n").is_err());
    assert!(from_str("{\nbad:key: 1\n").is_err());
    assert!(from_str("{\n\"key\": 1\n").is_err());
}
