use forgesim::text::{is_whitespace, parse_u32};
use forgesim::yaml::{get_in, YamlValue};

#[test]
fn parse_u32_matches_std() {
    for s in ["0", "42", "+7", "007", "4294967295", "4294967296", "", "+", "-1", "1 ", "x1", "99999999999999999999"] {
        assert_eq!(parse_u32(s), s.parse::<u32>().ok(), "input {s:?}");
    }
}

#[test]
fn whitespace_matches_std() {
    for c in ['\t', '\n', ' ', '\u{85}', '\u{a0}', '\u{2003}', '\u{3000}', 'a', '-', '\u{200b}', '\u{feff}'] {
        assert_eq!(is_whitespace(c), c.is_whitespace(), "char {c:?}");
    }
}

#[test]
fn yaml_lookup_takes_the_first_entry() {
    let v = YamlValue::Mapping(vec![
        ("k".into(), YamlValue::Int(1)),
        ("k".into(), YamlValue::Int(2)),
        ("s".into(), YamlValue::Sequence(vec![YamlValue::Bool(true)])),
    ]);
    assert_eq!(v.get("k").and_then(|x| x.as_i64()), Some(1));
    assert!(v.get("missing").is_none());
    assert_eq!(v.get("s").and_then(|x| x.as_sequence()).map(|s| s.len()), Some(1));
    assert!(get_in(None, "k").is_none());
    assert!(YamlValue::Str("x".into()).get("k").is_none());
    assert!(YamlValue::Null.is_null());
    assert_eq!(YamlValue::Bool(false).as_bool(), Some(false));
    assert_eq!(YamlValue::Int(3).as_str(), None);
}
