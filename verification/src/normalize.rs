//! The message normalizer: one entry's bytes become a compact record and
//! its label set, with an explicit fallback policy for every missing
//! field.

use vstd::prelude::*;
use crate::headers::{EntryHeaders, date_header_seconds, from_header, headers_present,
    parse_entry_headers, raw_header, sender_header, subject_header};
use crate::text::{clone_bytes, clone_opt_bytes, lemma_deep_bytes, split_bytes, split_on,
    strip_breaks, trim_bytes, trimmed, without_breaks};

verus! {

/// A normalized message: raw size in bytes, resolved sender, date as
/// seconds since the epoch, the original date text, and subject.
pub struct MessageRecord {
    pub size: u64,
    pub from_address: Vec<u8>,
    pub date: i64,
    pub raw_date: Option<Vec<u8>>,
    pub subject: Vec<u8>,
}

/// The mathematical value of a `MessageRecord`.
#[verifier::ext_equal]
pub struct RecordView {
    pub size: u64,
    pub from_address: Seq<u8>,
    pub date: i64,
    pub raw_date: Option<Seq<u8>>,
    pub subject: Seq<u8>,
}

impl View for MessageRecord {
    type V = RecordView;

    open spec fn view(&self) -> RecordView {
        RecordView {
            size: self.size,
            from_address: self.from_address@,
            date: self.date,
            raw_date: self.raw_date.deep_view(),
            subject: self.subject@,
        }
    }
}

impl DeepView for MessageRecord {
    type V = RecordView;

    open spec fn deep_view(&self) -> RecordView {
        self.view()
    }
}

/// An entry whose headers cannot be parsed is skipped, not fatal.
#[derive(Debug)]
pub enum NormalizeError {
    Unparsable,
}

/// The label a message carries when no label header names one.
pub open spec fn unlabeled_text() -> Seq<u8> {
    seq![85u8, 110u8, 108u8, 97u8, 98u8, 101u8, 108u8, 101u8, 100u8]
}

/// The sender sentinel for a message whose sender cannot be resolved.
pub open spec fn unknown_sender_text() -> Seq<u8> {
    seq![
        40u8,
        117u8,
        110u8,
        107u8,
        110u8,
        111u8,
        119u8,
        110u8,
        32u8,
        115u8,
        101u8,
        110u8,
        100u8,
        101u8,
        114u8,
        41u8,
    ]
}

/// The subject sentinel for a message without a subject.
pub open spec fn no_subject_text() -> Seq<u8> {
    seq![40u8, 110u8, 111u8, 32u8, 115u8, 117u8, 98u8, 106u8, 101u8, 99u8, 116u8, 41u8]
}

/// `"Unlabeled"` as bytes.
pub fn unlabeled_bytes() -> (r: Vec<u8>)
    ensures
        r@ == unlabeled_text(),
{
    let mut v: Vec<u8> = Vec::new();
    v.push(85);
    v.push(110);
    v.push(108);
    v.push(97);
    v.push(98);
    v.push(101);
    v.push(108);
    v.push(101);
    v.push(100);
    proof {
        assert(v@ =~= unlabeled_text());
    }
    v
}

/// `"(unknown sender)"` as bytes.
pub fn unknown_sender_bytes() -> (r: Vec<u8>)
    ensures
        r@ == unknown_sender_text(),
{
    let mut v: Vec<u8> = Vec::new();
    v.push(40);
    v.push(117);
    v.push(110);
    v.push(107);
    v.push(110);
    v.push(111);
    v.push(119);
    v.push(110);
    v.push(32);
    v.push(115);
    v.push(101);
    v.push(110);
    v.push(100);
    v.push(101);
    v.push(114);
    v.push(41);
    proof {
        assert(v@ =~= unknown_sender_text());
    }
    v
}

/// `"(no subject)"` as bytes.
pub fn no_subject_bytes() -> (r: Vec<u8>)
    ensures
        r@ == no_subject_text(),
{
    let mut v: Vec<u8> = Vec::new();
    v.push(40);
    v.push(110);
    v.push(111);
    v.push(32);
    v.push(115);
    v.push(117);
    v.push(98);
    v.push(106);
    v.push(101);
    v.push(99);
    v.push(116);
    v.push(41);
    proof {
        assert(v@ =~= no_subject_text());
    }
    v
}

/// The first address of the first group, if both exist and it is named.
pub open spec fn first_address(groups: Seq<Seq<Option<Seq<u8>>>>) -> Option<Seq<u8>> {
    if groups.len() == 0 {
        None
    } else if groups[0].len() == 0 {
        None
    } else {
        groups[0][0]
    }
}

/// The sender fallback chain: the From header wins over the Sender
/// header; from the winning header, the first address of the first
/// group; else the sentinel.  A present but empty From header is not
/// retried against Sender.
pub open spec fn resolved_from(
    f: Option<Seq<Seq<Option<Seq<u8>>>>>,
    s: Option<Seq<Seq<Option<Seq<u8>>>>>,
) -> Seq<u8> {
    match if f is Some {
        f
    } else {
        s
    } {
        Some(groups) => match first_address(groups) {
            Some(a) => a,
            None => unknown_sender_text(),
        },
        None => unknown_sender_text(),
    }
}

/// Resolve the sender of a message from its two address headers.
pub fn resolve_from_address(
    f: &Option<Vec<Vec<Option<Vec<u8>>>>>,
    s: &Option<Vec<Vec<Option<Vec<u8>>>>>,
) -> (r: Vec<u8>)
    ensures
        r@ == resolved_from(f.deep_view(), s.deep_view()),
{
    let winner: &Option<Vec<Vec<Option<Vec<u8>>>>> = if f.is_some() {
        f
    } else {
        s
    };
    proof {
        assert(winner.deep_view() == if f.deep_view() is Some {
            f.deep_view()
        } else {
            s.deep_view()
        });
    }
    match winner {
        None => unknown_sender_bytes(),
        Some(groups) => {
            proof {
                assert(winner.deep_view() == Some(groups.deep_view()));
            }
            if groups.len() == 0 {
                unknown_sender_bytes()
            } else {
                let g0 = &groups[0];
                proof {
                    assert(groups.deep_view()[0] == g0.deep_view());
                }
                if g0.len() == 0 {
                    unknown_sender_bytes()
                } else {
                    proof {
                        assert(g0.deep_view()[0] == g0@[0].deep_view());
                    }
                    match &g0[0] {
                        Some(a) => {
                            proof {
                                assert(g0@[0].deep_view() == Some(a.deep_view()));
                                assert(a.deep_view() =~= a@);
                            }
                            clone_bytes(a)
                        },
                        None => unknown_sender_bytes(),
                    }
                }
            }
        },
    }
}

/// One label, cleaned: surrounding whitespace trimmed, then every
/// embedded line break removed.
pub open spec fn clean_label(p: Seq<u8>) -> Seq<u8> {
    without_breaks(trimmed(p))
}

/// The labels a header value names: split at commas, each piece cleaned,
/// duplicates kept.  No header at all means the single sentinel label.
pub open spec fn labels_of_header(h: Option<Seq<u8>>) -> Seq<Seq<u8>> {
    match h {
        None => seq![unlabeled_text()],
        Some(s) => split_on(s, 44).map_values(|p: Seq<u8>| clean_label(p)),
    }
}

/// Derive the label set from an optional label header.
pub fn labels_from_header(h: &Option<Vec<u8>>) -> (r: Vec<Vec<u8>>)
    ensures
        r.deep_view() == labels_of_header(h.deep_view()),
        r.len() > 0,
{
    match h {
        None => {
            let mut out: Vec<Vec<u8>> = Vec::new();
            out.push(unlabeled_bytes());
            proof {
                lemma_deep_bytes(&out);
                assert(out.deep_view() =~= seq![unlabeled_text()]);
            }
            out
        },
        Some(s) => {
            proof {
                assert(h.deep_view() == Some(s.deep_view()));
                assert(s.deep_view() =~= s@);
            }
            let pieces = split_bytes(s, 44);
            let mut out: Vec<Vec<u8>> = Vec::new();
            let mut i: usize = 0;
            while i < pieces.len()
                invariant
                    i <= pieces.len(),
                    pieces.deep_view() == split_on(s@, 44),
                    out@.len() == i,
                    forall|k: int| 0 <= k < i ==> out@[k]@ == clean_label(pieces.deep_view()[k]),
                decreases pieces.len() - i,
            {
                let t = trim_bytes(&pieces[i]);
                let c = strip_breaks(&t);
                proof {
                    lemma_deep_bytes(&pieces);
                    assert(pieces.deep_view()[i as int] == pieces@[i as int]@);
                }
                out.push(c);
                i = i + 1;
            }
            proof {
                lemma_deep_bytes(&out);
                assert(out.deep_view() =~= labels_of_header(h.deep_view()));
            }
            out
        },
    }
}

/// The record an entry normalizes to, over the named header values.
pub open spec fn record_of(entry: Seq<u8>) -> RecordView {
    RecordView {
        size: entry.len() as u64,
        from_address: resolved_from(from_header(entry), sender_header(entry)),
        date: match date_header_seconds(entry) {
            Some(t) => t,
            None => 0,
        },
        raw_date: raw_header(entry, "Date"@),
        subject: match subject_header(entry) {
            Some(s) => s,
            None => no_subject_text(),
        },
    }
}

/// The label set of an entry.
pub open spec fn labels_of_entry(entry: Seq<u8>) -> Seq<Seq<u8>> {
    labels_of_header(raw_header(entry, "X-Gmail-Labels"@))
}

/// Normalize one entry: parse its headers, apply every fallback, and
/// keep the raw date text verbatim even when the date cannot be parsed.
/// Fails exactly when the headers cannot be parsed at all.
pub fn normalize_entry(entry: &Vec<u8>) -> (r: Result<
    (MessageRecord, Vec<Vec<u8>>),
    NormalizeError,
>)
    ensures
        r is Ok <==> headers_present(entry@),
        r matches Ok((rec, labels)) ==> {
            &&& rec@ == record_of(entry@)
            &&& labels.deep_view() == labels_of_entry(entry@)
            &&& labels@.len() > 0
        },
{
    match parse_entry_headers(entry.as_slice()) {
        None => Err(NormalizeError::Unparsable),
        Some(h) => {
            let from_address = resolve_from_address(&h.from_groups, &h.sender_groups);
            let date: i64 = match &h.date_seconds {
                Some(t) => *t,
                None => 0,
            };
            let subject: Vec<u8> = match &h.subject {
                Some(s) => {
                    proof {
                        assert(h.subject.deep_view() == Some(s.deep_view()));
                        assert(s.deep_view() =~= s@);
                    }
                    clone_bytes(s)
                },
                None => no_subject_bytes(),
            };
            let labels = labels_from_header(&h.labels_header);
            let rec = MessageRecord {
                size: entry.len() as u64,
                from_address,
                date,
                raw_date: clone_opt_bytes(&h.raw_date),
                subject,
            };
            proof {
                assert(rec@ =~= record_of(entry@));
            }
            Ok((rec, labels))
        },
    }
}

} // verus!
