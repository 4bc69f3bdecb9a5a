use sentrux::evolution::get_days;
use sentrux::json::{get_count, get_text};
use serde_json::Value;

fn parse(text: &str) -> Value {
    serde_json::from_str(text).unwrap()
}

#[test]
fn texts_of_a_request_are_read() {
    let args = parse(r#"{"path": "a/b.rs", "n": 3, "none": null}"#);
    assert_eq!(get_text(&args, "path"), Some("a/b.rs"));
    assert_eq!(get_text(&args, "n"), None);
    assert_eq!(get_text(&args, "none"), None);
    assert_eq!(get_text(&args, "missing"), None);
    assert_eq!(get_text(&Value::Null, "path"), None);
    assert_eq!(get_text(&parse(r#"["path"]"#), "path"), None);
}

#[test]
fn counts_of_a_request_are_read() {
    let args = parse(r#"{"a": 0, "b": 18446744073709551615, "c": -1, "d": 2.0, "e": "5"}"#);
    assert_eq!(get_count(&args, "a"), Some(0));
    assert_eq!(get_count(&args, "b"), Some(u64::MAX));
    assert_eq!(get_count(&args, "c"), None);
    assert_eq!(get_count(&args, "d"), None);
    assert_eq!(get_count(&args, "e"), None);
    assert_eq!(get_count(&args, "f"), None);
}

#[test]
fn only_the_low_bits_of_the_days_count() {
    assert_eq!(get_days(&parse(r#"{"days": 30}"#)), Some(30));
    assert_eq!(get_days(&parse(r#"{"days": 4294967301}"#)), Some(5));
    assert_eq!(get_days(&parse(r#"{"days": 18446744073709551615}"#)), Some(u32::MAX));
    assert_eq!(get_days(&parse(r#"{"days": -3}"#)), None);
    assert_eq!(get_days(&parse("{}")), None);
}
