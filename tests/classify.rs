use mail_sorter::address::{escaped_path, mailbox_from};
use mail_sorter::hierarchy::with_parents;

#[test]
fn address_to_mailbox() {
    // Dots inside the local part are escaped like those of the domain, so that
    // they cannot nest the mailbox.
    assert_eq!(
        "example_com.auth_service",
        &mailbox_from("auth.service@example.com")
    );
}

#[test]
fn test_mailbox_hierarchy_nested() {
    let result: Vec<String> = with_parents("foo.bar.baz");
    assert_eq!(result, vec!["foo", "foo.bar", "foo.bar.baz"]);
}

#[test]
fn test_mailbox_hierarchy_single() {
    let result: Vec<String> = with_parents("inbox");
    assert_eq!(result, vec!["inbox"]);
}

#[test]
fn test_mailbox_hierarchy_empty() {
    let result: Vec<String> = with_parents("");
    assert_eq!(result, vec![""]);
}

#[test]
fn classify_formula_lowercases_and_escapes() {
    assert_eq!(mailbox_from("John.Doe@Mail.Example.COM"), "mail_example_com.john_doe");
    assert_eq!(escaped_path("John.Doe@Mail.Example.COM"), "Mail_Example_COM.John_Doe");
}

#[test]
fn classify_is_deterministic() {
    assert_eq!(mailbox_from("a.b@example.com"), mailbox_from("a.b@example.com"));
    assert_eq!(mailbox_from("a.b@example.com"), "example_com.a_b");
}

#[test]
fn classify_without_at_has_empty_leading_segment() {
    assert_eq!(mailbox_from("postmaster"), ".postmaster");
    assert_eq!(mailbox_from("Post.Master"), ".post_master");
    assert_eq!(mailbox_from(""), ".");
}

#[test]
fn classify_splits_at_first_at() {
    assert_eq!(escaped_path("a@b@c.d"), "b@c_d.a");
    assert_eq!(escaped_path("@x"), "x.");
    assert_eq!(escaped_path("x@"), ".x");
}

#[test]
fn hierarchy_keeps_empty_segments() {
    assert_eq!(with_parents("a..b"), vec!["a", "a.", "a..b"]);
    assert_eq!(with_parents(".x"), vec!["", ".x"]);
}
