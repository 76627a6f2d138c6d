use icy_metadata::headers::{comma_separated, str_to_bool};

#[test]
fn str_to_bool_truthy_values() {
    assert!(str_to_bool("1"));
    assert!(str_to_bool("true"));
    assert!(str_to_bool("TRUE"));
    assert!(str_to_bool("yes"));
    assert!(str_to_bool("Yes"));
}

#[test]
fn str_to_bool_falsy_values() {
    assert!(!str_to_bool("0"));
    assert!(!str_to_bool(""));
    assert!(!str_to_bool("no"));
    assert!(!str_to_bool("11"));
    assert!(!str_to_bool(" 1"));
}

#[test]
fn comma_separated_trims_elements() {
    let parts = comma_separated("a, b ,c".to_string());
    assert_eq!(parts, vec!["a".to_string(), "b".to_string(), "c".to_string()]);
}

#[test]
fn comma_separated_keeps_empty_elements() {
    let parts = comma_separated("a,,".to_string());
    assert_eq!(parts, vec!["a".to_string(), "".to_string(), "".to_string()]);
}
