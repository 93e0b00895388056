use zebar_desktop::cli::{parse_open_args, ARG_FORMAT_MESSAGE};

#[test]
fn parse_key_value_token() {
    let r = parse_open_args("key=val");
    assert_eq!(r, Ok(("key".to_string(), "val".to_string())));
}

#[test]
fn parse_token_without_equals_is_rejected() {
    let r = parse_open_args("novalue");
    assert_eq!(r, Err(ARG_FORMAT_MESSAGE.to_string()));
    assert_eq!(ARG_FORMAT_MESSAGE, "Arguments must be of format KEY1=VAL1");
}

#[test]
fn parse_value_stops_at_second_equals() {
    let r = parse_open_args("a=b=c");
    assert_eq!(r, Ok(("a".to_string(), "b".to_string())));
}

#[test]
fn parse_empty_key_and_value() {
    assert_eq!(parse_open_args("="), Ok((String::new(), String::new())));
    assert_eq!(parse_open_args("k="), Ok(("k".to_string(), String::new())));
    assert!(parse_open_args("").is_err());
}

#[test]
fn parse_non_ascii_token() {
    let r = parse_open_args("clé=ünï");
    assert_eq!(r, Ok(("clé".to_string(), "ünï".to_string())));
}
