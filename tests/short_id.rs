use jut::{compute_short_op_ids, global_short_id, id_less, id_tail, starts_with};

#[test]
fn op_ids_extend_on_shared_prefix() {
    let ids: Vec<String> = vec!["abcdef01".into(), "abcdff02".into(), "12345678".into()];
    let short = compute_short_op_ids(&ids);
    assert_eq!(short, vec!["abcde".to_string(), "abcdf".to_string(), "1234".to_string()]);
}

#[test]
fn op_ids_of_repeated_id_are_full() {
    let ids: Vec<String> = vec!["abcdef".into(), "abcdef".into()];
    let short = compute_short_op_ids(&ids);
    assert_eq!(short, vec!["abcdef".to_string(), "abcdef".to_string()]);
}

#[test]
fn global_short_id_floors_at_four() {
    assert_eq!(global_short_id("kmnopqrstu", Some(2)), "kmno");
    assert_eq!(global_short_id("kmnopqrstu", Some(6)), "kmnopq");
    assert_eq!(global_short_id("kmnopqrstu", Some(40)), "kmnopqrstu");
    assert_eq!(global_short_id("kmnopqrstu", None), "kmno");
    assert_eq!(global_short_id("km", None), "km");
}

#[test]
fn order_and_prefix_helpers() {
    assert!(id_less("abc", "abd"));
    assert!(id_less("ab", "abc"));
    assert!(!id_less("abc", "abc"));
    assert!(!id_less("b", "abc"));
    assert!(starts_with("abcdef", "abc"));
    assert!(!starts_with("ab", "abc"));
}

#[test]
fn id_tail_fills_up_to_seven_characters() {
    assert_eq!(id_tail("abcd", "0123456789"), "456");
    assert_eq!(id_tail("abcdefg", "0123456789"), "");
    assert_eq!(id_tail("ab", "01234"), "");
}
