use courier::contacts::{build_name, diagnose_sources, ContactResolver, ContactRow, SourceRows};
use courier::keys::{normalize_email, normalize_identifier_for_debug, phone_keys, phone_or_email_keys};

fn row(first: Option<&str>, last: Option<&str>, value: &str) -> ContactRow {
    ContactRow {
        first: first.map(|s| s.to_string()),
        last: last.map(|s| s.to_string()),
        nick: None,
        org: None,
        value: value.to_string(),
        record: 1,
    }
}

#[test]
fn us_e164_and_national_share_a_key() {
    let e164 = phone_keys("+15551234567");
    let freeform = phone_keys("(555) 123-4567");
    assert!(
        e164.iter().any(|k| freeform.contains(k)),
        "e164={e164:?} freeform={freeform:?}"
    );
}

#[test]
fn uk_e164_matches_national_with_leading_zero() {
    let e164 = phone_keys("+447011931883");
    let national = phone_keys("07011 931883");
    assert!(
        e164.iter().any(|k| national.contains(k)),
        "e164={e164:?} national={national:?}"
    );
}

#[test]
fn normalizes_email_case_and_whitespace() {
    assert_eq!(normalize_email("  Foo@Example.COM "), "foo@example.com");
}

#[test]
fn phone_or_email_dispatches_correctly() {
    assert!(phone_or_email_keys("+15551234567").contains(&"5551234567".to_string()));
    assert_eq!(
        phone_or_email_keys("foo@example.com"),
        vec!["foo@example.com".to_string()]
    );
}

#[test]
fn empty_input_produces_no_keys() {
    assert!(phone_keys("").is_empty());
    assert!(phone_or_email_keys("").is_empty());
}

#[test]
fn build_name_prefers_first_last() {
    let n = build_name(
        Some("Ada".to_string()),
        Some("Lovelace".to_string()),
        Some("Nick".to_string()),
        Some("Analytical Engine Co".to_string()),
    );
    assert_eq!(n.as_deref(), Some("Ada Lovelace"));
}

#[test]
fn build_name_falls_back_to_organization() {
    let n = build_name(None, None, None, Some("Acme Corp".to_string()));
    assert_eq!(n.as_deref(), Some("Acme Corp"));
}

#[test]
fn build_name_treats_empty_strings_as_missing() {
    let n = build_name(
        Some("".to_string()),
        Some("".to_string()),
        None,
        Some("Fallback".to_string()),
    );
    assert_eq!(n.as_deref(), Some("Fallback"));
}

#[test]
fn build_name_single_parts_and_nickname() {
    assert_eq!(build_name(Some("Ada".into()), None, Some("Nick".into()), None).as_deref(), Some("Ada"));
    assert_eq!(build_name(None, Some("Lovelace".into()), None, None).as_deref(), Some("Lovelace"));
    assert_eq!(build_name(None, Some("".into()), Some("Nick".into()), Some("Org".into())).as_deref(), Some("Nick"));
    assert_eq!(build_name(None, None, Some("".into()), Some("".into())), None);
}

#[test]
fn phone_keys_us_number_in_priority_order() {
    assert_eq!(
        phone_keys("+1 (555) 123-4567"),
        vec!["15551234567".to_string(), "5551234567".to_string(), "5551234567".to_string()]
    );
    assert_eq!(phone_keys("+1 234-567-890"), vec!["1234567890".to_string()]);
    assert_eq!(phone_keys("555 123 4567"), vec!["5551234567".to_string()]
    );
}

#[test]
fn phone_keys_national_trunk_prefix() {
    assert_eq!(
        phone_keys("07011 931883"),
        vec!["07011931883".to_string(), "7011931883".to_string(), "7011931883".to_string()]
    );
    assert_eq!(phone_keys("0123456789"), vec!["0123456789".to_string(), "123456789".to_string()]);
    assert_eq!(phone_keys("012345678901").len(), 3);
    assert_eq!(phone_keys("012345678"), vec!["012345678".to_string()]);
}

#[test]
fn phone_keys_international_keeps_last_ten() {
    assert_eq!(
        phone_keys("+447011931883"),
        vec!["447011931883".to_string(), "7011931883".to_string(), "011931883".to_string()]
    );
    assert_eq!(phone_keys("no digits here"), Vec::<String>::new());
}

#[test]
fn email_keys_trim_unicode_space_and_lowercase_ascii_only() {
    assert_eq!(normalize_email("\u{a0}\tBob@Ex.ORG\u{3000}"), "bob@ex.org");
    assert_eq!(normalize_email("ÄBC@x"), "Äbc@x");
    assert_eq!(phone_or_email_keys("   @  ").len(), 1);
    assert!(phone_or_email_keys(" \t ").is_empty());
}

#[test]
fn debug_identifier_is_most_specific_key() {
    assert_eq!(normalize_identifier_for_debug("+1 555 123 4567"), "15551234567");
    assert_eq!(normalize_identifier_for_debug(" Foo@Bar.com"), "foo@bar.com");
    assert_eq!(normalize_identifier_for_debug("abc"), "");
}

#[test]
fn lookup_finds_contact_across_number_formats() {
    let mut r = ContactResolver::new();
    let n = r.load_phones(0, &vec![row(Some("Ada"), Some("Lovelace"), "07011 931883")]);
    assert_eq!(n, 1);
    assert_eq!(r.lookup("+447011931883"), Some("Ada Lovelace"));
    assert_eq!(r.lookup("+15550000000"), None);
}

#[test]
fn first_filed_name_wins_and_counts_rows() {
    let mut r = ContactResolver::new();
    let rows = vec![
        row(Some("Ada"), None, "+1 555 123 4567"),
        row(Some("Bob"), None, "(555) 123-4567"),
        row(None, None, "999"),
        row(Some("Cy"), None, "(555) 123-4567 x"),
    ];
    assert_eq!(r.load_phones(0, &rows), 1);
    assert_eq!(r.lookup("5551234567"), Some("Ada"));
    assert_eq!(r.lookup("15551234567"), Some("Ada"));
    assert_eq!(r.len(), 2);
}

#[test]
fn emails_are_filed_by_normalized_key() {
    let mut r = ContactResolver::new();
    let rows = vec![
        row(Some("Ada"), None, " Ada@Example.com "),
        row(Some("Eve"), None, "ada@example.com"),
        row(Some("Nobody"), None, "   "),
        row(None, None, "x@y"),
    ];
    assert_eq!(r.load_emails(0, &rows), 1);
    assert_eq!(r.lookup("ADA@EXAMPLE.COM"), Some("Ada"));
    assert_eq!(r.lookup("x@y"), None);
    assert_eq!(r.len(), 1);
}

#[test]
fn load_reads_sources_in_order() {
    let sources = vec![
        SourceRows { id: 1, phones: vec![row(Some("Ada"), None, "5551234567")], emails: vec![] },
        SourceRows { id: 2, phones: vec![row(Some("Bob"), None, "5551234567")], emails: vec![row(Some("Bob"), None, "bob@x.org")] },
    ];
    let r = ContactResolver::load(&sources);
    assert_eq!(r.lookup("+1 555 123 4567"), Some("Ada"));
    assert_eq!(r.lookup("bob@x.org"), Some("Bob"));
}

#[test]
fn diagnosis_reports_per_source() {
    let sources = vec![
        Ok(SourceRows { id: 3, phones: vec![row(Some("Ada"), None, "5551234567")], emails: vec![row(Some("Ada"), None, "a@x")] }),
        Err("unable to open database file".to_string()),
        Ok(SourceRows { id: 4, phones: vec![row(Some("Bob"), None, "5551234567"), row(Some("Bob"), None, "777")], emails: vec![] }),
    ];
    let (total, results) = diagnose_sources(&sources);
    assert_eq!(total, 3);
    assert_eq!(results.len(), 3);
    assert_eq!(results[0], Ok((1, 1)));
    assert_eq!(results[1], Err("unable to open database file".to_string()));
    assert_eq!(results[2], Ok((1, 0)));
}

#[test]
fn lookup_prefers_the_most_specific_key() {
    let mut r = ContactResolver::new();
    r.load_phones(0, &vec![row(Some("Bob"), None, "555 123 4567"), row(Some("Ada"), None, "1 555 123 4567")]);
    assert_eq!(r.lookup("+1 (555) 123-4567"), Some("Ada"));
    assert_eq!(r.lookup("555.123.4567"), Some("Bob"));
}

#[test]
fn diagnosis_builds_the_same_table_as_load() {
    let make = || {
        vec![
            SourceRows { id: 5, phones: vec![row(Some("Ada"), None, "07011 931883")], emails: vec![row(Some("Ada"), None, "a@x")] },
            SourceRows { id: 6, phones: vec![row(Some("Bob"), None, "+1 555 123 4567")], emails: vec![] },
        ]
    };
    let loaded = ContactResolver::load(&make());
    let (total, _) = diagnose_sources(&make().into_iter().map(Ok).collect());
    assert_eq!(total, loaded.len());
    assert_eq!(total, 5);
}

#[test]
fn nine_digit_national_number_meets_its_international_form() {
    let e164 = phone_keys("+33612345678");
    let national = phone_keys("06 12 34 56 78");
    assert!(e164.iter().any(|k| national.contains(k)), "e164={e164:?} national={national:?}");
    let mut r = ContactResolver::new();
    r.load_phones(0, &vec![row(Some("Claire"), None, "06 12 34 56 78")]);
    assert_eq!(r.lookup("+33612345678"), Some("Claire"));
}

#[test]
fn lookup_contact_tells_records_apart() {
    let mut r = ContactResolver::new();
    let mut a = row(Some("Sam"), Some("Lee"), "5551234567");
    a.record = 7;
    let mut b = row(Some("Sam"), Some("Lee"), "5559876543");
    b.record = 9;
    r.load_phones(3, &vec![a, b]);
    let first = r.lookup_contact("+15551234567").unwrap();
    let second = r.lookup_contact("+15559876543").unwrap();
    assert_eq!((first.name.as_str(), first.source, first.record), ("Sam Lee", 3, 7));
    assert_eq!((second.name.as_str(), second.source, second.record), ("Sam Lee", 3, 9));
    assert!(r.lookup_contact("+15550000000").is_none());
}
