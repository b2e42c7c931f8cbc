use mailsize::filter::Filters;

fn filters(
    label: Option<&str>,
    year: Option<&str>,
    domain: Option<&str>,
    address: Option<&str>,
) -> Filters {
    Filters {
        label: label.map(|s| s.as_bytes().to_vec()),
        year: year.map(|s| s.as_bytes().to_vec()),
        domain: domain.map(|s| s.as_bytes().to_vec()),
        address: address.map(|s| s.as_bytes().to_vec()),
    }
}

fn assert_round_trip(f: &Filters) {
    let url = f.to_url();
    let back = Filters::from_url(&url);
    assert_eq!(back.label, f.label);
    assert_eq!(back.year, f.year);
    assert_eq!(back.domain, f.domain);
    assert_eq!(back.address, f.address);
}

#[test]
fn round_trip_empty_filter() {
    let f = filters(None, None, None, None);
    assert_eq!(f.to_url(), b"/?".to_vec());
    assert_round_trip(&f);
}

#[test]
fn round_trip_single_facets() {
    assert_round_trip(&filters(Some("Inbox"), None, None, None));
    assert_round_trip(&filters(None, Some("2021"), None, None));
    assert_round_trip(&filters(None, None, Some("x.com"), None));
    assert_round_trip(&filters(None, None, None, Some("a@x.com")));
}

#[test]
fn round_trip_all_facets_with_special_bytes() {
    assert_round_trip(&filters(
        Some("Label with spaces & symbols = fun"),
        Some("2021"),
        Some("ex-ample.com"),
        Some("user+tag@ex-ample.com"),
    ));
}

#[test]
fn round_trip_empty_string_value() {
    assert_round_trip(&filters(Some(""), None, None, None));
}

#[test]
fn url_encoding_is_canonical() {
    let f = filters(Some("a b&c"), None, None, Some("u@x.com"));
    let url = String::from_utf8(f.to_url()).unwrap();
    assert_eq!(url, "/?label=a+b%26c&address=u%40x.com");
}

#[test]
fn decoding_ignores_unknown_keys_and_garbage() {
    let f = Filters::from_url(&b"/?bogus=1&label=Inbox&alsojunk".to_vec());
    assert_eq!(f.label, Some(b"Inbox".to_vec()));
    assert_eq!(f.year, None);
    assert_eq!(f.domain, None);
    assert_eq!(f.address, None);
}

#[test]
fn has_any_and_is_empty() {
    assert!(!filters(None, None, None, None).has_any());
    assert!(filters(None, None, None, None).is_empty());
    assert!(filters(None, Some("2020"), None, None).has_any());
    assert!(!filters(None, Some("2020"), None, None).is_empty());
}

#[test]
fn clause_empty_filter_is_empty() {
    assert_eq!(filters(None, None, None, None).clause(), "");
}

#[test]
fn clause_label_extends_the_join() {
    assert_eq!(
        filters(Some("Inbox"), None, None, None).clause(),
        "JOIN labels ON labels.mail_rowid = mail._rowid_ AND labels.label = ?"
    );
}

#[test]
fn clause_year_alone_starts_with_where() {
    assert_eq!(
        filters(None, Some("2021"), None, None).clause(),
        "WHERE strftime('%Y', datetime(date, 'unixepoch')) = ?"
    );
}

#[test]
fn clause_combines_in_canonical_order() {
    assert_eq!(
        filters(Some("Inbox"), Some("2021"), Some("x.com"), Some("a@x.com")).clause(),
        "JOIN labels ON labels.mail_rowid = mail._rowid_ AND labels.label = ? \
         AND strftime('%Y', datetime(date, 'unixepoch')) = ? \
         AND substr(from_address, instr(from_address, '@') + 1) = ? \
         AND from_address = ?"
    );
}

#[test]
fn params_follow_clause_order() {
    let f = filters(Some("Inbox"), None, Some("x.com"), None);
    let ps = f.params();
    assert_eq!(ps, vec![b"Inbox".to_vec(), b"x.com".to_vec()]);
}

#[test]
fn active_entries_carry_removal_links() {
    let f = filters(Some("Inbox"), Some("2021"), None, None);
    let entries = f.active_entries();
    assert_eq!(entries.len(), 2);
    assert_eq!(entries[0].0, b"Inbox".to_vec());
    assert_eq!(String::from_utf8(entries[0].1.clone()).unwrap(), "/?year=2021");
    assert_eq!(entries[1].0, b"2021".to_vec());
    assert_eq!(String::from_utf8(entries[1].1.clone()).unwrap(), "/?label=Inbox");
}
