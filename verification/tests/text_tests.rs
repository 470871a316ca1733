use kokoro::text::{chars_of, join_strings, string_of_range};

#[test]
fn join_strings_like_std_join() {
    let parts: Vec<String> = vec!["a".into(), "bc".into(), "".into(), "d".into()];
    assert_eq!(join_strings(&parts, "->"), parts.join("->"));
    assert_eq!(join_strings(&Vec::new(), "->"), "");
    assert_eq!(join_strings(&vec!["x".to_string()], ","), "x");
}

#[test]
fn ranges_of_characters() {
    let cs = chars_of("héllo");
    assert_eq!(cs.len(), 5);
    assert_eq!(string_of_range(&cs, 1, 4), "éll");
    assert_eq!(string_of_range(&cs, 2, 2), "");
}
