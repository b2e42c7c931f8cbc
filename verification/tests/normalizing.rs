use mailsize::mbox::{entry_message, ingest_archive, split_entries};
use mailsize::normalize::{labels_from_header, normalize_entry};
use mailsize::year::{format_year, year_of_timestamp};

#[test]
fn no_label_header_yields_exactly_unlabeled() {
    let labels = labels_from_header(&None);
    assert_eq!(labels, vec![b"Unlabeled".to_vec()]);
}

#[test]
fn label_header_splits_and_trims() {
    let labels = labels_from_header(&Some(b"A, B".to_vec()));
    assert_eq!(labels, vec![b"A".to_vec(), b"B".to_vec()]);
}

#[test]
fn label_header_strips_embedded_line_breaks() {
    let labels = labels_from_header(&Some(b" In\r\n box ,Sent\n".to_vec()));
    assert_eq!(labels, vec![b"In box".to_vec(), b"Sent".to_vec()]);
}

#[test]
fn label_header_keeps_duplicates() {
    let labels = labels_from_header(&Some(b"A,A".to_vec()));
    assert_eq!(labels, vec![b"A".to_vec(), b"A".to_vec()]);
}

#[test]
fn unparsable_date_keeps_raw_text_and_epoch_zero() {
    let entry = b"From: a@x.com\nDate: not a date\nSubject: hi\n\nbody\n".to_vec();
    let (rec, labels) = normalize_entry(&entry).unwrap();
    assert_eq!(rec.date, 0);
    assert_eq!(rec.raw_date, Some(b" not a date\n".to_vec()));
    assert_eq!(rec.subject, b"hi".to_vec());
    assert_eq!(rec.from_address, b"a@x.com".to_vec());
    assert_eq!(rec.size, entry.len() as u64);
    assert_eq!(labels, vec![b"Unlabeled".to_vec()]);
}

#[test]
fn parsable_date_becomes_a_timestamp() {
    let entry = b"From: a@x.com\nDate: Thu, 1 Jan 1970 00:02:00 +0000\nSubject: s\n\nx\n"
        .to_vec();
    let (rec, _) = normalize_entry(&entry).unwrap();
    assert_eq!(rec.date, 120);
    assert_eq!(rec.raw_date, Some(b" Thu, 1 Jan 1970 00:02:00 +0000\n".to_vec()));
}

#[test]
fn missing_sender_and_subject_fall_back_to_sentinels() {
    let entry = b"X-Other: y\n\nbody\n".to_vec();
    let (rec, _) = normalize_entry(&entry).unwrap();
    assert_eq!(rec.from_address, b"(unknown sender)".to_vec());
    assert_eq!(rec.subject, b"(no subject)".to_vec());
}

#[test]
fn sender_header_is_the_fallback() {
    let entry = b"Sender: s@y.org\nSubject: t\n\n".to_vec();
    let (rec, _) = normalize_entry(&entry).unwrap();
    assert_eq!(rec.from_address, b"s@y.org".to_vec());
}

#[test]
fn splitter_cuts_at_from_lines() {
    let archive = b"From a@x\nSubject: one\n\nbody\nFrom b@y\nSubject: two\n\nFrom c\n".to_vec();
    let bounds = split_entries(&archive);
    assert_eq!(bounds.len(), 3);
    assert_eq!(bounds[0].0, 0);
    assert_eq!(bounds[2].1, archive.len());
    let m0 = entry_message(&archive, bounds[0].0, bounds[0].1).unwrap();
    assert_eq!(m0, b"Subject: one\n\nbody\n".to_vec());
}

#[test]
fn from_in_message_body_needs_a_line_start() {
    let archive = b"From a@x\nSubject: has From inside\n\nnot From start? no.\n".to_vec();
    let bounds = split_entries(&archive);
    assert_eq!(bounds.len(), 1);
}

#[test]
fn ingest_skips_unparsable_entries() {
    // the second entry has a boundary line but nothing after it
    let archive = b"From a@x\nSubject: ok\n\nbody\nFrom broken\n".to_vec();
    let (items, skipped) = ingest_archive(&archive);
    assert_eq!(items.len(), 1);
    assert_eq!(skipped, 1);
    assert_eq!(items[0].0.subject, b"ok".to_vec());
}

#[test]
fn year_of_epoch_is_1970() {
    assert_eq!(year_of_timestamp(0), 1970);
    assert_eq!(format_year(1970), b"1970".to_vec());
}

#[test]
fn year_boundaries_have_no_off_by_one() {
    // 2020-12-31T23:59:59Z and 2021-01-01T00:00:00Z
    assert_eq!(year_of_timestamp(1609459199), 2020);
    assert_eq!(year_of_timestamp(1609459200), 2021);
    // a leap-year boundary: 2000-12-31T23:59:59Z / 2001-01-01T00:00:00Z
    assert_eq!(year_of_timestamp(978307199), 2000);
    assert_eq!(year_of_timestamp(978307200), 2001);
}

#[test]
fn years_before_the_epoch() {
    assert_eq!(year_of_timestamp(-1), 1969);
    assert_eq!(format_year(year_of_timestamp(-1)), b"1969".to_vec());
}

#[test]
fn year_text_is_zero_padded_to_four_digits() {
    assert_eq!(format_year(42), b"0042".to_vec());
    assert_eq!(format_year(-42), b"-0042".to_vec());
    assert_eq!(format_year(12345), b"12345".to_vec());
}
