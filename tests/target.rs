use room_relay::room_from_target;

#[test]
fn plain_room_path() {
    assert_eq!(room_from_target("/alpha"), Some("alpha".to_string()));
}

#[test]
fn room_is_second_segment_only() {
    assert_eq!(room_from_target("/alpha/beta/gamma"), Some("alpha".to_string()));
}

#[test]
fn no_slash_names_no_room() {
    assert_eq!(room_from_target("alpha"), None);
    assert_eq!(room_from_target(""), None);
}

#[test]
fn root_path_names_the_empty_room() {
    assert_eq!(room_from_target("/"), Some(String::new()));
    assert_eq!(room_from_target("//x"), Some(String::new()));
}

#[test]
fn segment_after_first_slash_even_without_leading_slash() {
    assert_eq!(room_from_target("a/b/c"), Some("b".to_string()));
}

#[test]
fn non_ascii_room_key() {
    assert_eq!(room_from_target("/caf\u{e9}/x"), Some("caf\u{e9}".to_string()));
}

