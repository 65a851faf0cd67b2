use courier::chatdb::{
    conversation_entry, group_entries, latest_per_identifier, load_conversations, merge_into, normalize_summary,
    sort_summaries, sorted_distinct_rowids, sorted_distinct_strings, ChatRecord, ConversationSummary,
};
use courier::contacts::{ContactResolver, ContactRow};

fn chat(rowid: i32, id: &str, service: Option<&str>, display: Option<&str>) -> ChatRecord {
    ChatRecord {
        rowid,
        chat_identifier: id.to_string(),
        service_name: service.map(|s| s.to_string()),
        display_name: display.map(|s| s.to_string()),
    }
}

fn summary(name: &str, ids: &[&str], rowids: &[i32], services: &[&str], resolved: bool) -> ConversationSummary {
    ConversationSummary {
        name: name.to_string(),
        identifiers: ids.iter().map(|s| s.to_string()).collect(),
        rowids: rowids.to_vec(),
        services: services.iter().map(|s| s.to_string()).collect(),
        resolved,
    }
}

fn contacts() -> ContactResolver {
    let mut r = ContactResolver::new();
    r.load_phones(0, &vec![ContactRow {
        first: Some("Ada".to_string()),
        last: Some("Lovelace".to_string()),
        nick: None,
        org: None,
        value: "(555) 123-4567".to_string(),
        record: 1,
    }]);
    r.load_emails(0, &vec![ContactRow {
        first: Some("Ada".to_string()),
        last: Some("Lovelace".to_string()),
        nick: None,
        org: None,
        value: "ada@example.com".to_string(),
        record: 1,
    }]);
    r
}

#[test]
fn merge_appends_ids_and_new_services() {
    let mut dst = summary("Ada", &["+15551234567"], &[3], &["iMessage"], true);
    let src = summary("Ada", &["ada@example.com"], &[7], &["iMessage", "SMS", "SMS"], true);
    merge_into(&mut dst, &src);
    assert_eq!(dst.identifiers, vec!["+15551234567".to_string(), "ada@example.com".to_string()]);
    assert_eq!(dst.rowids, vec![3, 7]);
    assert_eq!(dst.services, vec!["iMessage".to_string(), "SMS".to_string()]);
    assert_eq!(dst.name, "Ada");
}

#[test]
fn latest_chat_per_identifier_is_kept() {
    let chats = vec![
        chat(1, "+15551234567", Some("SMS"), None),
        chat(5, "+15551234567", Some("iMessage"), None),
        chat(3, "bob@x.org", None, None),
        chat(2, "+15551234567", Some("SMS"), None),
    ];
    let out = latest_per_identifier(&chats);
    assert_eq!(out.len(), 2);
    assert_eq!(out[0].rowid, 5);
    assert_eq!(out[1].rowid, 3);
}

#[test]
fn entry_uses_display_name_then_contact_then_identifier() {
    let c = contacts();
    let (e, key) = conversation_entry(&chat(1, "+15551234567", None, Some("Team")), &c);
    assert_eq!((e.name.as_str(), e.resolved, key), ("Team", true, None));
    assert_eq!(e.services, vec!["Unknown".to_string()]);
    let (e, key) = conversation_entry(&chat(2, "+15551234567", Some("SMS"), Some("")), &c);
    assert_eq!((e.name.as_str(), e.resolved), ("Ada Lovelace", true));
    assert_eq!(key, Some((0, 1)));
    let (e, key) = conversation_entry(&chat(3, "+447000000000", Some("SMS"), None), &c);
    assert_eq!((e.name.as_str(), e.resolved, key), ("+447000000000", false, None));
    assert_eq!(e.identifiers, vec!["+447000000000".to_string()]);
    assert_eq!(e.rowids, vec![3]);
}

#[test]
fn entries_group_by_contact() {
    let entries = vec![
        (summary("Ada", &["b"], &[2], &["SMS"], true), Some((0, 1))),
        (summary("x", &["x"], &[9], &["SMS"], false), None),
        (summary("Ada", &["a"], &[1], &["iMessage"], true), Some((0, 1))),
        (summary("Bob", &["c"], &[4], &["SMS"], true), Some((0, 2))),
    ];
    let g = group_entries(entries);
    assert_eq!(g.len(), 3);
    assert_eq!(g[0].name, "Ada");
    assert_eq!(g[0].identifiers, vec!["b".to_string(), "a".to_string()]);
    assert_eq!(g[0].services, vec!["SMS".to_string(), "iMessage".to_string()]);
    assert_eq!(g[1].name, "Bob");
    assert_eq!(g[2].name, "x");
}

#[test]
fn sorting_and_dropping_repeats() {
    assert_eq!(sorted_distinct_rowids(&vec![5, -1, 5, 3, -1]), vec![-1, 3, 5]);
    let v: Vec<String> = ["b", "a", "b", "B", "ab"].iter().map(|s| s.to_string()).collect();
    assert_eq!(sorted_distinct_strings(&v), vec!["B".to_string(), "a".to_string(), "ab".to_string(), "b".to_string()]);
    let s = normalize_summary(summary("n", &["z", "y", "z"], &[2, 1, 2], &["S"], false));
    assert_eq!(s.identifiers, vec!["y".to_string(), "z".to_string()]);
    assert_eq!(s.rowids, vec![1, 2]);
}

#[test]
fn summaries_sort_named_first_then_case_insensitively() {
    let v = vec![
        summary("+1555", &["+1555"], &[1], &["SMS"], false),
        summary("bob", &["b"], &[2], &["SMS"], true),
        summary("Carol", &["c"], &[3], &["SMS"], true),
        summary("Alice", &["a"], &[4], &["SMS"], true),
        summary("+1444", &["+1444"], &[5], &["SMS"], false),
    ];
    let names: Vec<String> = sort_summaries(v).into_iter().map(|s| s.name).collect();
    assert_eq!(names, vec!["Alice", "bob", "Carol", "+1444", "+1555"]);
}

#[test]
fn lowercase_order_differs_from_raw_order() {
    let v = vec![summary("Bob", &[], &[], &[], true), summary("alice", &[], &[], &[], true)];
    let names: Vec<String> = sort_summaries(v).into_iter().map(|s| s.name).collect();
    assert_eq!(names, vec!["alice", "Bob"]);
}

#[test]
fn conversations_merge_by_contact() {
    let c = contacts();
    let chats = vec![
        chat(10, "+15551234567", Some("SMS"), None),
        chat(11, "ada@example.com", Some("iMessage"), None),
        chat(12, "+15551234567", Some("iMessage"), None),
        chat(13, "+447000000000", Some("SMS"), None),
        chat(14, "chat123", None, Some("Book club")),
    ];
    let list = load_conversations(&chats, &c);
    assert_eq!(list.len(), 3);
    assert_eq!(list[0].name, "Ada Lovelace");
    assert!(list[0].resolved);
    assert_eq!(list[0].identifiers, vec!["+15551234567".to_string(), "ada@example.com".to_string()]);
    assert_eq!(list[0].rowids, vec![11, 12]);
    assert_eq!(list[0].services.len(), 1);
    assert_eq!(list[1].name, "Book club");
    assert_eq!(list[2].name, "+447000000000");
    assert!(!list[2].resolved);
}

#[test]
fn sorting_twice_changes_nothing() {
    let once = sorted_distinct_rowids(&vec![9, 2, 9, 4]);
    assert_eq!(sorted_distinct_rowids(&once), once);
    let v: Vec<String> = ["c", "a", "c"].iter().map(|s| s.to_string()).collect();
    let once = sorted_distinct_strings(&v);
    assert_eq!(sorted_distinct_strings(&once), once);
}

#[test]
fn every_identifier_is_listed_once_per_contact() {
    let c = contacts();
    let chats = vec![
        chat(1, "+15551234567", Some("SMS"), None),
        chat(2, "ada@example.com", Some("iMessage"), None),
        chat(3, "+15550000000", Some("SMS"), None),
        chat(4, "+15550000001", Some("SMS"), Some("")),
    ];
    let list = load_conversations(&chats, &c);
    let mut all: Vec<String> = list.iter().flat_map(|s| s.identifiers.clone()).collect();
    all.sort();
    assert_eq!(all, vec!["+15550000000", "+15550000001", "+15551234567", "ada@example.com"]);
    assert_eq!(list.iter().filter(|s| s.name == "Ada Lovelace").count(), 1);
}

#[test]
fn namesakes_keep_separate_summaries() {
    let mut c = ContactResolver::new();
    let sam = |value: &str, record: i64| ContactRow {
        first: Some("Sam".to_string()),
        last: Some("Lee".to_string()),
        nick: None,
        org: None,
        value: value.to_string(),
        record,
    };
    c.load_phones(0, &vec![sam("5551234567", 1), sam("5559876543", 2), sam("5551112222", 1)]);
    let chats = vec![
        chat(1, "+15551234567", Some("SMS"), None),
        chat(2, "+15559876543", Some("SMS"), None),
        chat(3, "+15551112222", Some("SMS"), None),
    ];
    let list = load_conversations(&chats, &c);
    assert_eq!(list.len(), 2);
    assert!(list.iter().all(|s| s.name == "Sam Lee" && s.resolved));
    let mut ids: Vec<Vec<String>> = list.iter().map(|s| s.identifiers.clone()).collect();
    ids.sort();
    assert_eq!(
        ids,
        vec![
            vec!["+15551112222".to_string(), "+15551234567".to_string()],
            vec!["+15559876543".to_string()],
        ]
    );
}
