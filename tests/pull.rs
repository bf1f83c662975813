use spit::pull::{contains_infix, pull_succeeded, reports_success};

#[test]
fn success_in_any_case_ends_pull() {
    assert!(pull_succeeded("success"));
    assert!(pull_succeeded("SUCCESS"));
    assert!(pull_succeeded("Pull Success!"));
    assert!(!pull_succeeded("pulling manifest"));
    assert!(!pull_succeeded(""));
}

#[test]
fn reports_success_takes_lowered_text() {
    assert!(reports_success("writing manifest: success"));
    assert!(!reports_success("SUCCESS"));
}

#[test]
fn infix_search() {
    assert!(contains_infix("abcabd", "abd"));
    assert!(!contains_infix("abcab", "abd"));
    assert!(contains_infix("x", ""));
    assert!(!contains_infix("", "x"));
}
