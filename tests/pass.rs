use mail_sorter::notify::{lex_le_exec, sorted_names, summary, Pushover, NORMAL_PRIORITY, QUIET_PRIORITY};
use mail_sorter::reconcile::{contains_name, missing_ancestors, plan_pass, uid_set};
use mail_sorter::scan::{destination, sort_inbox, FetchedMessage, SortError, SortResult};

fn message(uid: Option<u32>, header: Option<&str>) -> FetchedMessage {
    FetchedMessage {
        uid,
        header: header.map(|h| h.as_bytes().to_vec()),
    }
}

fn names(v: &[&str]) -> Vec<String> {
    v.iter().map(|s| s.to_string()).collect()
}

fn bucket_of(sorted: &SortResult, name: &str) -> Vec<u32> {
    let found: Vec<&mail_sorter::scan::Bucket> =
        sorted.buckets.iter().filter(|b| b.mailbox == name).collect();
    assert_eq!(found.len(), 1);
    let mut ids = found[0].ids.clone();
    ids.sort();
    ids
}

#[test]
fn end_to_end_pass() {
    let inbox = vec![
        message(Some(1), Some("X-Pm-Original-To: a.b@example.com\r\n\r\n")),
        message(Some(2), Some("X-Pm-Original-To: c@example.org\r\n\r\n")),
        message(Some(3), Some("X-Pm-Original-To: not an address\r\n\r\n")),
    ];
    let sorted = sort_inbox(&inbox).unwrap();
    assert_eq!(sorted.buckets.len(), 2);
    assert_eq!(bucket_of(&sorted, "example_com.a_b"), vec![1]);
    assert_eq!(bucket_of(&sorted, "example_org.c"), vec![2]);

    let existing = names(&["INBOX", "example_org", "example_org.c"]);
    let steps = plan_pass(&sorted, &existing);
    assert_eq!(steps.len(), 2);
    for s in steps.iter() {
        if s.mailbox == "example_com.a_b" {
            assert_eq!(s.create, vec!["example_com", "example_com.a_b"]);
            assert_eq!(s.ids, "1");
        } else {
            assert_eq!(s.mailbox, "example_org.c");
            assert!(s.create.is_empty());
            assert_eq!(s.ids, "2");
        }
    }

    let pushover = Pushover::new("u".to_string(), "t".to_string(), names(&["example_org.c"]));
    let n = pushover.notification(&sorted.mailboxes()).unwrap();
    assert_eq!(n.text, "example_com.a_b, example_org.c");
    assert_eq!(n.priority, NORMAL_PRIORITY);
}

#[test]
fn scan_groups_by_destination() {
    let inbox = vec![
        message(Some(7), Some("X-Pm-Original-To: a@x.org\r\n\r\n")),
        message(Some(8), Some("x-pm-original-to: A@X.ORG\r\n\r\n")),
        message(Some(9), Some("Subject: no recipient\r\n\r\n")),
    ];
    let sorted = sort_inbox(&inbox).unwrap();
    assert_eq!(sorted.buckets.len(), 1);
    assert_eq!(bucket_of(&sorted, "x_org.a"), vec![7, 8]);
}

#[test]
fn scan_skips_group_first_entry() {
    let inbox = vec![message(
        Some(1),
        Some("X-Pm-Original-To: team: a@x.org, b@x.org;\r\n\r\n"),
    )];
    let sorted = sort_inbox(&inbox).unwrap();
    assert!(sorted.buckets.is_empty());
}

#[test]
fn scan_takes_first_of_several_addresses() {
    let inbox = vec![message(
        Some(4),
        Some("X-Pm-Original-To: a@x.org, b@y.org\r\n\r\n"),
    )];
    let sorted = sort_inbox(&inbox).unwrap();
    assert_eq!(bucket_of(&sorted, "x_org.a"), vec![4]);
}

#[test]
fn message_identifier_in_one_bucket_only() {
    let inbox = vec![
        message(Some(5), Some("X-Pm-Original-To: a@x.org\r\n\r\n")),
        message(Some(5), Some("X-Pm-Original-To: b@y.org\r\n\r\n")),
        message(Some(5), Some("X-Pm-Original-To: a@x.org\r\n\r\n")),
    ];
    let sorted = sort_inbox(&inbox).unwrap();
    assert_eq!(sorted.buckets.len(), 1);
    assert_eq!(bucket_of(&sorted, "x_org.a"), vec![5]);
}

#[test]
fn scan_missing_header_fails() {
    let inbox = vec![
        message(Some(1), Some("X-Pm-Original-To: a@x.org\r\n\r\n")),
        message(Some(2), None),
        message(None, Some("X-Pm-Original-To: a@x.org\r\n\r\n")),
    ];
    assert!(matches!(sort_inbox(&inbox), Err(SortError::MissingHeader)));
}

#[test]
fn scan_missing_uid_fails() {
    let inbox = vec![message(None, Some("X-Pm-Original-To: a@x.org\r\n\r\n"))];
    assert!(matches!(sort_inbox(&inbox), Err(SortError::MissingUid)));
}

#[test]
fn scan_unparseable_header_block_fails() {
    let inbox = vec![message(Some(1), Some("\rX"))];
    assert!(matches!(sort_inbox(&inbox), Err(SortError::Parse(_))));
}

#[test]
fn scan_of_empty_inbox_is_empty() {
    let sorted = sort_inbox(&Vec::new()).unwrap();
    assert!(sorted.buckets.is_empty());
}

#[test]
fn existing_chain_needs_no_creation() {
    let existing = names(&["a", "a.b", "a.b.c"]);
    let created: Vec<String> = Vec::new();
    assert!(missing_ancestors(&"a.b.c".to_string(), &existing, &created).is_empty());
    assert!(missing_ancestors(&"a.b".to_string(), &existing, &created).is_empty());
}

#[test]
fn creation_skips_existing_and_created_ancestors() {
    let existing = names(&["a"]);
    let created = names(&["a.b"]);
    assert_eq!(
        missing_ancestors(&"a.b.c.d".to_string(), &existing, &created),
        vec!["a.b.c", "a.b.c.d"]
    );
}

#[test]
fn plan_shares_created_ancestors_within_a_pass() {
    let inbox = vec![
        message(Some(1), Some("X-Pm-Original-To: p@x.org\r\n\r\n")),
        message(Some(2), Some("X-Pm-Original-To: q@x.org\r\n\r\n")),
    ];
    let sorted = sort_inbox(&inbox).unwrap();
    let steps = plan_pass(&sorted, &Vec::new());
    let all: Vec<String> = steps.iter().flat_map(|s| s.create.clone()).collect();
    assert_eq!(all.iter().filter(|m| *m == "x_org").count(), 1);
    assert_eq!(all.len(), 3);
    assert_eq!(steps[0].create[0], "x_org");
}

#[test]
fn uid_set_formats_decimal_list() {
    assert_eq!(uid_set(&vec![4, 17, 9]), "4,17,9");
    assert_eq!(uid_set(&vec![0]), "0");
    assert_eq!(uid_set(&vec![]), "");
    assert_eq!(uid_set(&vec![4294967295, 10]), "4294967295,10");
}

#[test]
fn contains_name_compares_whole_names() {
    let v = names(&["a", "b.c"]);
    assert!(contains_name(&v, &"b.c".to_string()));
    assert!(!contains_name(&v, &"b".to_string()));
}

#[test]
fn notifier_with_nothing_touched_sends_nothing() {
    let p = Pushover::new("u".to_string(), "t".to_string(), names(&["a"]));
    assert!(p.notification(&Vec::new()).is_none());
}

#[test]
fn notifier_sorts_and_picks_priority() {
    let p = Pushover::new("u".to_string(), "t".to_string(), names(&["z"]));
    let n = p.notification(&names(&["b", "a.c", "a"])).unwrap();
    assert_eq!(n.text, "a, a.c, b");
    assert_eq!(n.priority, QUIET_PRIORITY);
    let n = p.notification(&names(&["z", "y"])).unwrap();
    assert_eq!(n.text, "y, z");
    assert_eq!(n.priority, NORMAL_PRIORITY);
}

#[test]
fn names_sort_by_code_point() {
    assert_eq!(sorted_names(&names(&["b", "B", "a", "ab", ""])), vec!["", "B", "a", "ab", "b"]);
    assert!(lex_le_exec(&"ab".to_string(), &"b".to_string()));
    assert!(!lex_le_exec(&"b".to_string(), &"ab".to_string()));
    assert!(lex_le_exec(&"a".to_string(), &"a".to_string()));
    assert_eq!(summary(&names(&["x"])), "x");
    assert_eq!(summary(&names(&[])), "");
}

#[test]
fn destination_is_first_single_address() {
    assert_eq!(destination(&vec![Some("X.Y@Z.com".to_string())]), Some("z_com.x_y".to_string()));
    assert_eq!(
        destination(&vec![Some("a@b.c".to_string()), Some("d@e.f".to_string())]),
        Some("b_c.a".to_string())
    );
    assert_eq!(destination(&vec![None, Some("a@b.c".to_string())]), None);
    assert_eq!(destination(&vec![]), None);
}
