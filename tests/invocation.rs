use patternify::split_invocation;

#[test]
fn splits_at_first_space() {
    assert_eq!(split_invocation("ol hello world"), Some(("ol", "hello world")));
}

#[test]
fn no_space_is_rejected() {
    assert_eq!(split_invocation("pattern"), None);
}

#[test]
fn empty_pattern_is_rejected() {
    assert_eq!(split_invocation(" hello"), None);
}

#[test]
fn empty_input_is_rejected() {
    assert_eq!(split_invocation("ol "), None);
}

#[test]
fn empty_text_is_rejected() {
    assert_eq!(split_invocation(""), None);
}

#[test]
fn input_keeps_later_spaces() {
    assert_eq!(split_invocation("a  b"), Some(("a", " b")));
}
