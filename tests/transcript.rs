use spit::transcript::{ChatMessage, Role, Transcript};

#[test]
fn append_user_on_empty_gives_one_message() {
    let mut t = Transcript::new();
    let before = t.snapshot();
    assert_eq!(before.len(), 0);
    let snap = t.append_user("hi".to_string());
    assert_eq!(snap, vec![ChatMessage::new(Role::User, "hi".to_string())]);
    assert_eq!(t.snapshot(), snap);
    assert_eq!(t.len(), 1);
}

#[test]
fn snapshot_is_not_changed_by_later_appends() {
    let mut t = Transcript::new();
    let first = t.append_user("one".to_string());
    t.append_assistant("reply".to_string());
    let second = t.append_user("two".to_string());
    assert_eq!(first.len(), 1);
    assert_eq!(
        second,
        vec![
            ChatMessage::new(Role::User, "one".to_string()),
            ChatMessage::new(Role::Assistant, "reply".to_string()),
            ChatMessage::new(Role::User, "two".to_string()),
        ]
    );
}

#[test]
fn two_appends_each_appear_once_in_order() {
    let mut t = Transcript::new();
    t.append_user("a".to_string());
    let snap = t.append_user("b".to_string());
    assert_eq!(snap.len(), 2);
    assert_eq!(snap[0].content, "a");
    assert_eq!(snap[1].content, "b");
    assert!(snap.iter().all(|m| m.role == Role::User));
}

#[test]
fn duplicate_copies_a_message() {
    let m = ChatMessage::new(Role::System, "sys".to_string());
    assert_eq!(m.duplicate(), m);
}
