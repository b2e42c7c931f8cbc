//! The trusted boundary to the mail header parser: one call turns an
//! entry's bytes into plain header values, named by uninterpreted
//! functions of the bytes so that verified code can speak about them.

use vstd::prelude::*;

verus! {

/// The header values of one entry, as plain values.  An address header
/// is a list of groups, each group a list of optional addresses; a flat
/// address list is a single group.
pub struct EntryHeaders {
    pub from_groups: Option<Vec<Vec<Option<Vec<u8>>>>>,
    pub sender_groups: Option<Vec<Vec<Option<Vec<u8>>>>>,
    pub date_seconds: Option<i64>,
    pub raw_date: Option<Vec<u8>>,
    pub subject: Option<Vec<u8>>,
    pub labels_header: Option<Vec<u8>>,
}

/// Whether the parser finds headers in the entry at all.
pub uninterp spec fn headers_present(entry: Seq<u8>) -> bool;

/// The From header's address groups.
pub uninterp spec fn from_header(entry: Seq<u8>) -> Option<Seq<Seq<Option<Seq<u8>>>>>;

/// The Sender header's address groups.
pub uninterp spec fn sender_header(entry: Seq<u8>) -> Option<Seq<Seq<Option<Seq<u8>>>>>;

/// The Date header as seconds since the epoch, UTC.
pub uninterp spec fn date_header_seconds(entry: Seq<u8>) -> Option<i64>;

/// The raw text of the header called `name`.
pub uninterp spec fn raw_header(entry: Seq<u8>, name: Seq<char>) -> Option<Seq<u8>>;

/// The decoded Subject header.
pub uninterp spec fn subject_header(entry: Seq<u8>) -> Option<Seq<u8>>;

#[verifier::external_type_specification]
#[verifier::external_body]
pub struct ExAddress<'x>(mail_parser::Address<'x>);

/// Tells mail_parser's two address-header shapes apart and moves the
/// address texts out: a flat list becomes one group, a group list keeps
/// its groups.  Conversion only; the result is read through the
/// contract of `parse_entry_headers`.
#[verifier::external_body]
fn address_groups(a: &mail_parser::Address<'_>) -> Vec<Vec<Option<Vec<u8>>>> {
    match a {
        mail_parser::Address::List(addrs) => vec![
            addrs.iter().map(|x| x.address.as_ref().map(|c| c.as_bytes().to_vec())).collect(),
        ],
        mail_parser::Address::Group(groups) => groups.iter().map(
            |g| g.addresses.iter().map(|x| x.address.as_ref().map(|c| c.as_bytes().to_vec())).collect(),
        ).collect(),
    }
}

/// Relies on mail_parser: MessageParser::parse_headers reads the header
/// section and returns nothing when no headers parse; Message::from,
/// Message::sender, Message::date (with DateTime::to_timestamp),
/// Message::subject and Message::header_raw expose single headers.  Each
/// result is a function of the entry bytes alone, named above.
#[verifier::external_body]
pub fn parse_entry_headers(entry: &[u8]) -> (r: Option<EntryHeaders>)
    ensures
        r is Some <==> headers_present(entry@),
        r matches Some(h) ==> {
            &&& h.from_groups.deep_view() == from_header(entry@)
            &&& h.sender_groups.deep_view() == sender_header(entry@)
            &&& h.date_seconds == date_header_seconds(entry@)
            &&& h.raw_date.deep_view() == raw_header(entry@, "Date"@)
            &&& h.subject.deep_view() == subject_header(entry@)
            &&& h.labels_header.deep_view() == raw_header(entry@, "X-Gmail-Labels"@)
        },
{
    let m = mail_parser::MessageParser::new().parse_headers(entry)?;
    Some(EntryHeaders {
        from_groups: m.from().map(address_groups),
        sender_groups: m.sender().map(address_groups),
        date_seconds: m.date().map(|d| d.to_timestamp()),
        raw_date: m.header_raw("Date").map(|s| s.as_bytes().to_vec()),
        subject: m.subject().map(|s| s.as_bytes().to_vec()),
        labels_header: m.header_raw("X-Gmail-Labels").map(|s| s.as_bytes().to_vec()),
    })
}

} // verus!
