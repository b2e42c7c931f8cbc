use mailsize::aggregate::{filtered_total, report};
use mailsize::filter::Filters;
use mailsize::mbox::ingest_archive;
use mailsize::normalize::MessageRecord;
use mailsize::store::Store;

fn no_filter() -> Filters {
    Filters { label: None, year: None, domain: None, address: None }
}

/// One archive entry whose message body is padded so the message is
/// exactly `size` bytes long.
fn entry(headers: &str, size: usize) -> Vec<u8> {
    let mut v = b"From x@x\n".to_vec();
    let mut m = headers.as_bytes().to_vec();
    m.extend_from_slice(b"\n");
    assert!(m.len() < size);
    while m.len() < size - 1 {
        m.push(b'x');
    }
    m.push(b'\n');
    v.extend_from_slice(&m);
    v
}

fn three_message_store() -> Store {
    let mut archive = Vec::new();
    archive.extend_from_slice(&entry("From: a@x.com\nX-Gmail-Labels: Inbox\n", 100));
    archive.extend_from_slice(&entry(
        "From: b@x.com\nX-Gmail-Labels: Inbox,Important\n",
        200,
    ));
    archive.extend_from_slice(&entry("From: c@y.com\nSubject: three\n", 50));
    let (items, skipped) = ingest_archive(&archive);
    assert_eq!(skipped, 0);
    assert_eq!(items.len(), 3);
    assert_eq!(items[0].0.size, 100);
    assert_eq!(items[1].0.size, 200);
    assert_eq!(items[2].0.size, 50);
    Store::rebuild(&items).unwrap()
}

#[test]
fn empty_filter_total_equals_grand_total() {
    let store = three_message_store();
    assert_eq!(store.grand_total, 350);
    assert_eq!(filtered_total(&store, &no_filter()), 350);
    let r = report(&store, &no_filter());
    assert_eq!(r.grand_total, 350);
    assert_eq!(r.filtered_total, 350);
}

#[test]
fn three_messages_label_breakdown() {
    let store = three_message_store();
    let r = report(&store, &no_filter());
    let by_label = r.by_label.unwrap();
    assert_eq!(by_label.len(), 3);
    assert_eq!(by_label[0].key, b"Inbox".to_vec());
    assert_eq!(by_label[0].total, 300);
    assert_eq!(by_label[1].key, b"Important".to_vec());
    assert_eq!(by_label[1].total, 200);
    assert_eq!(by_label[2].key, b"Unlabeled".to_vec());
    assert_eq!(by_label[2].total, 50);
    // a message with two labels counts under both: 550 exceeds the
    // grand total of 350 by design
    let label_sum: u128 = by_label.iter().map(|row| row.total).sum();
    assert_eq!(label_sum, 550);
    assert!(label_sum > r.grand_total as u128);
}

#[test]
fn domain_tie_breaks_by_ascending_domain() {
    let records = vec![
        (record("a@x.com", 10), vec![b"L".to_vec()]),
        (record("b@x.com", 20), vec![b"L".to_vec()]),
        (record("c@y.com", 30), vec![b"L".to_vec()]),
    ];
    let store = Store::rebuild(&records).unwrap();
    let r = report(&store, &no_filter());
    let by_domain = r.by_domain.unwrap();
    assert_eq!(by_domain.len(), 2);
    assert_eq!(by_domain[0].key, b"x.com".to_vec());
    assert_eq!(by_domain[0].total, 30);
    assert_eq!(by_domain[1].key, b"y.com".to_vec());
    assert_eq!(by_domain[1].total, 30);
}

fn record(from: &str, size: u64) -> MessageRecord {
    MessageRecord {
        size,
        from_address: from.as_bytes().to_vec(),
        date: 0,
        raw_date: None,
        subject: b"(no subject)".to_vec(),
    }
}

#[test]
fn pinned_label_omits_label_breakdown_and_filters_the_rest() {
    let store = three_message_store();
    let f = Filters {
        label: Some(b"Inbox".to_vec()),
        year: None,
        domain: None,
        address: None,
    };
    let r = report(&store, &f);
    assert!(r.by_label.is_none());
    assert_eq!(r.filtered_total, 300);
    let by_address = r.by_address.unwrap();
    assert_eq!(by_address.len(), 2);
    assert_eq!(by_address[0].key, b"b@x.com".to_vec());
    assert_eq!(by_address[0].total, 200);
    assert_eq!(by_address[1].key, b"a@x.com".to_vec());
    assert_eq!(by_address[1].total, 100);
    let by_year = r.by_year.unwrap();
    assert_eq!(by_year.len(), 1);
    assert_eq!(by_year[0].key, b"1970".to_vec());
    assert_eq!(by_year[0].total, 300);
}

#[test]
fn top_messages_order_and_ties() {
    let records = vec![
        (record("b@x.com", 50), vec![b"L".to_vec()]),
        (record("a@x.com", 50), vec![b"L".to_vec()]),
        (record("c@y.com", 99), vec![b"L".to_vec()]),
    ];
    let store = Store::rebuild(&records).unwrap();
    let r = report(&store, &no_filter());
    assert_eq!(r.top.len(), 3);
    assert_eq!(r.top[0].from, b"c@y.com".to_vec());
    assert_eq!(r.top[0].size, 99);
    // equal sizes order by ascending sender address
    assert_eq!(r.top[1].from, b"a@x.com".to_vec());
    assert_eq!(r.top[2].from, b"b@x.com".to_vec());
}

#[test]
fn domain_breakdown_caps_at_thirty() {
    let mut records = Vec::new();
    for i in 0..40u32 {
        let addr = format!("u@domain{:03}.com", i);
        records.push((record(&addr, 1 + (40 - i) as u64), vec![b"L".to_vec()]));
    }
    let store = Store::rebuild(&records).unwrap();
    let r = report(&store, &no_filter());
    let by_domain = r.by_domain.unwrap();
    assert_eq!(by_domain.len(), 30);
    assert_eq!(by_domain[0].key, b"domain000.com".to_vec());
    let by_label = r.by_label.unwrap();
    assert_eq!(by_label.len(), 1);
    assert_eq!(by_label[0].total, records.iter().map(|(r, _)| r.size as u128).sum::<u128>());
}

#[test]
fn address_without_at_sign_is_its_own_domain() {
    let records = vec![((record("(unknown sender)", 7)), vec![b"L".to_vec()])];
    let store = Store::rebuild(&records).unwrap();
    let r = report(&store, &no_filter());
    let by_domain = r.by_domain.unwrap();
    assert_eq!(by_domain[0].key, b"(unknown sender)".to_vec());
}

#[test]
fn duplicate_label_assignments_are_written_once() {
    let records = vec![(record("a@x.com", 10), vec![b"A".to_vec(), b"A".to_vec()])];
    let store = Store::rebuild(&records).unwrap();
    assert_eq!(store.labels.len(), 1);
    let r = report(&store, &no_filter());
    let by_label = r.by_label.unwrap();
    assert_eq!(by_label.len(), 1);
    assert_eq!(by_label[0].total, 10);
}

#[test]
fn year_facet_filters_records() {
    let records = vec![
        // 2020-06-01 and 2021-06-01
        (record_dated("a@x.com", 10, 1590969600), vec![b"L".to_vec()]),
        (record_dated("b@x.com", 20, 1622505600), vec![b"L".to_vec()]),
    ];
    let store = Store::rebuild(&records).unwrap();
    let f = Filters {
        label: None,
        year: Some(b"2021".to_vec()),
        domain: None,
        address: None,
    };
    let r = report(&store, &f);
    assert!(r.by_year.is_none());
    assert_eq!(r.filtered_total, 20);
}

fn record_dated(from: &str, size: u64, date: i64) -> MessageRecord {
    MessageRecord {
        size,
        from_address: from.as_bytes().to_vec(),
        date,
        raw_date: None,
        subject: b"s".to_vec(),
    }
}
