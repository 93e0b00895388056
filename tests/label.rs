use zebar_desktop::keyed::collect_pairs;
use zebar_desktop::label::{decimal_string, window_label};

fn pair(k: &str, v: &str) -> (String, String) {
    (k.to_string(), v.to_string())
}

#[test]
fn decimal_of_numbers() {
    assert_eq!(decimal_string(0), "0");
    assert_eq!(decimal_string(7), "7");
    assert_eq!(decimal_string(10), "10");
    assert_eq!(decimal_string(1203), "1203");
    assert_eq!(decimal_string(u32::MAX), "4294967295");
}

#[test]
fn labels_join_number_and_id() {
    assert_eq!(window_label(1, "bar"), "1-bar");
    assert_eq!(window_label(12, "bar"), "12-bar");
    assert_eq!(window_label(3, ""), "3-");
    assert_ne!(window_label(1, "1-bar"), window_label(11, "-bar"));
}

#[test]
fn duplicate_keys_last_wins() {
    let pairs = vec![pair("a", "1"), pair("b", "2"), pair("a", "3")];
    assert_eq!(collect_pairs(&pairs), vec![pair("a", "3"), pair("b", "2")]);
}

#[test]
fn collect_empty_and_distinct() {
    assert_eq!(collect_pairs(&vec![]), vec![]);
    let pairs = vec![pair("x", "1"), pair("y", "2")];
    assert_eq!(collect_pairs(&pairs), pairs);
}
