//! The filter composer: up to four optional facet constraints, their
//! canonical query-string encoding (with its round-trip law), and their
//! translation into a parameterized SQL clause for a relational store.

use vstd::prelude::*;
use vstd::string::StringExecFns;
use crate::text::{bytes_eq, clone_bytes, clone_opt_bytes, copy_range, find_byte, lemma_deep_bytes,
    lemma_find_byte_is, split_on, split_bytes};
use crate::urlq::{dec, enc, join_amp, kv_piece, lemma_dec_enc, lemma_dec_plain, lemma_enc_clean,
    lemma_split_join, append_encoded, decode_bytes};

verus! {

/// The four facets a filter can pin.
#[derive(Clone, Copy, PartialEq, Eq, Structural)]
pub enum Facet {
    Label,
    Year,
    Domain,
    Address,
}

/// A set of active facet constraints; `None` means "no constraint".
pub struct Filters {
    pub label: Option<Vec<u8>>,
    pub year: Option<Vec<u8>>,
    pub domain: Option<Vec<u8>>,
    pub address: Option<Vec<u8>>,
}

/// The mathematical value of a `Filters`.
#[verifier::ext_equal]
pub struct FiltersView {
    pub label: Option<Seq<u8>>,
    pub year: Option<Seq<u8>>,
    pub domain: Option<Seq<u8>>,
    pub address: Option<Seq<u8>>,
}

impl View for Filters {
    type V = FiltersView;

    open spec fn view(&self) -> FiltersView {
        FiltersView {
            label: self.label.deep_view(),
            year: self.year.deep_view(),
            domain: self.domain.deep_view(),
            address: self.address.deep_view(),
        }
    }
}

pub open spec fn empty_filters() -> FiltersView {
    FiltersView { label: None, year: None, domain: None, address: None }
}

pub open spec fn label_key() -> Seq<u8> {
    seq![108u8, 97u8, 98u8, 101u8, 108u8]
}

pub open spec fn year_key() -> Seq<u8> {
    seq![121u8, 101u8, 97u8, 114u8]
}

pub open spec fn domain_key() -> Seq<u8> {
    seq![100u8, 111u8, 109u8, 97u8, 105u8, 110u8]
}

pub open spec fn address_key() -> Seq<u8> {
    seq![97u8, 100u8, 100u8, 114u8, 101u8, 115u8, 115u8]
}

/// The query-string pieces a facet contributes: one `key=value` pair when
/// pinned, none otherwise.
pub open spec fn opt_piece(v: Option<Seq<u8>>, key: Seq<u8>) -> Seq<Seq<u8>> {
    match v {
        Some(x) => seq![kv_piece(key, x)],
        None => Seq::empty(),
    }
}

/// The canonical piece list: label, year, domain, address, absent facets
/// omitted.
pub open spec fn pieces_of(f: FiltersView) -> Seq<Seq<u8>> {
    opt_piece(f.label, label_key()) + opt_piece(f.year, year_key()) + opt_piece(
        f.domain,
        domain_key(),
    ) + opt_piece(f.address, address_key())
}

/// The canonical encoding: `/?` then the pieces joined with `&`.
pub open spec fn encode_q(f: FiltersView) -> Seq<u8> {
    seq![47u8, 63u8] + join_amp(pieces_of(f))
}

/// Drop a leading `/?` if one is there.
pub open spec fn strip_q(s: Seq<u8>) -> Seq<u8> {
    if s.len() >= 2 && s[0] == 47 && s[1] == 63 {
        s.skip(2)
    } else {
        s
    }
}

/// Apply one `key=value` piece; a piece without `=` or with an unknown
/// key constrains nothing.
pub open spec fn apply_piece(f: FiltersView, p: Seq<u8>) -> FiltersView {
    let i = find_byte(p, 61);
    if i == p.len() {
        f
    } else {
        let key = dec(p.subrange(0, i));
        let v = dec(p.subrange(i + 1, p.len() as int));
        if key == label_key() {
            FiltersView { label: Some(v), ..f }
        } else if key == year_key() {
            FiltersView { year: Some(v), ..f }
        } else if key == domain_key() {
            FiltersView { domain: Some(v), ..f }
        } else if key == address_key() {
            FiltersView { address: Some(v), ..f }
        } else {
            f
        }
    }
}

pub open spec fn apply_pieces(f: FiltersView, ps: Seq<Seq<u8>>) -> FiltersView
    decreases ps.len(),
{
    if ps.len() == 0 {
        f
    } else {
        apply_pieces(apply_piece(f, ps[0]), ps.drop_first())
    }
}

/// The decoding: malformed input degrades to fewer constraints, never to
/// an error.
pub open spec fn decode_q(s: Seq<u8>) -> FiltersView {
    apply_pieces(empty_filters(), split_on(strip_q(s), 38))
}

/// The SQL text of the label join, which also carries the label condition.
pub open spec fn label_join_text() -> Seq<char> {
    "JOIN labels ON labels.mail_rowid = mail._rowid_ AND labels.label = ?"@
}

pub open spec fn year_col_text() -> Seq<char> {
    "strftime('%Y', datetime(date, 'unixepoch'))"@
}

pub open spec fn domain_col_text() -> Seq<char> {
    "substr(from_address, instr(from_address, '@') + 1)"@
}

/// One `= ?` condition, introduced by `WHERE` when it is the first word
/// of the clause and by `AND` otherwise.
pub open spec fn cond_text(prior: bool, col: Seq<char>) -> Seq<char> {
    (if prior {
        " AND "@
    } else {
        "WHERE "@
    }) + col + " = ?"@
}

/// The SQL fragment the constraints translate to: a join carrying the
/// label condition when the label facet is pinned, then one bound-parameter
/// condition for each further pinned facet.
pub open spec fn clause_text(f: FiltersView) -> Seq<char> {
    (if f.label is Some {
        label_join_text()
    } else {
        Seq::empty()
    }) + (if f.year is Some {
        cond_text(f.label is Some, year_col_text())
    } else {
        Seq::empty()
    }) + (if f.domain is Some {
        cond_text(f.label is Some || f.year is Some, domain_col_text())
    } else {
        Seq::empty()
    }) + (if f.address is Some {
        cond_text(f.label is Some || f.year is Some || f.domain is Some, "from_address"@)
    } else {
        Seq::empty()
    })
}

/// The bound parameter values, in the order the clause asks for them.
pub open spec fn params_list(f: FiltersView) -> Seq<Seq<u8>> {
    (if f.label is Some {
        seq![f.label.unwrap()]
    } else {
        Seq::empty()
    }) + (if f.year is Some {
        seq![f.year.unwrap()]
    } else {
        Seq::empty()
    }) + (if f.domain is Some {
        seq![f.domain.unwrap()]
    } else {
        Seq::empty()
    }) + (if f.address is Some {
        seq![f.address.unwrap()]
    } else {
        Seq::empty()
    })
}

/// `f` with one facet released.
pub open spec fn clear_facet(f: FiltersView, facet: Facet) -> FiltersView {
    match facet {
        Facet::Label => FiltersView { label: None, ..f },
        Facet::Year => FiltersView { year: None, ..f },
        Facet::Domain => FiltersView { domain: None, ..f },
        Facet::Address => FiltersView { address: None, ..f },
    }
}

/// The pinned facets in canonical order, each with the query string that
/// releases it.
pub open spec fn active_list(f: FiltersView) -> Seq<(Seq<u8>, Seq<u8>)> {
    (if f.label is Some {
        seq![(f.label.unwrap(), encode_q(clear_facet(f, Facet::Label)))]
    } else {
        Seq::empty()
    }) + (if f.year is Some {
        seq![(f.year.unwrap(), encode_q(clear_facet(f, Facet::Year)))]
    } else {
        Seq::empty()
    }) + (if f.domain is Some {
        seq![(f.domain.unwrap(), encode_q(clear_facet(f, Facet::Domain)))]
    } else {
        Seq::empty()
    }) + (if f.address is Some {
        seq![(f.address.unwrap(), encode_q(clear_facet(f, Facet::Address)))]
    } else {
        Seq::empty()
    })
}

/// The four keys hold lower-case letters only: nothing a decoder or the
/// piece grammar treats specially.
proof fn lemma_keys_plain()
    ensures
        forall|k: int|
            0 <= k < label_key().len() ==> 97 <= #[trigger] label_key()[k] <= 122,
        forall|k: int|
            0 <= k < year_key().len() ==> 97 <= #[trigger] year_key()[k] <= 122,
        forall|k: int|
            0 <= k < domain_key().len() ==> 97 <= #[trigger] domain_key()[k] <= 122,
        forall|k: int|
            0 <= k < address_key().len() ==> 97 <= #[trigger] address_key()[k] <= 122,
{
    assert forall|k: int| 0 <= k < label_key().len() implies 97 <= #[trigger] label_key()[k]
        <= 122 by {
        if k == 0 {
        } else if k == 1 {
        } else if k == 2 {
        } else if k == 3 {
        } else {
            assert(k == 4);
        }
    }
    assert forall|k: int| 0 <= k < year_key().len() implies 97 <= #[trigger] year_key()[k]
        <= 122 by {
        if k == 0 {
        } else if k == 1 {
        } else if k == 2 {
        } else {
            assert(k == 3);
        }
    }
    assert forall|k: int| 0 <= k < domain_key().len() implies 97 <= #[trigger] domain_key()[k]
        <= 122 by {
        if k == 0 {
        } else if k == 1 {
        } else if k == 2 {
        } else if k == 3 {
        } else if k == 4 {
        } else {
            assert(k == 5);
        }
    }
    assert forall|k: int| 0 <= k < address_key().len() implies 97 <= #[trigger] address_key()[k]
        <= 122 by {
        if k == 0 {
        } else if k == 1 {
        } else if k == 2 {
        } else if k == 3 {
        } else if k == 4 {
        } else if k == 5 {
        } else {
            assert(k == 6);
        }
    }
}

/// Applying one canonical piece sets exactly the piece's facet.
proof fn lemma_apply_kv(g: FiltersView, key: Seq<u8>, v: Seq<u8>)
    requires
        key == label_key() || key == year_key() || key == domain_key() || key == address_key(),
    ensures
        key == label_key() ==> apply_piece(g, kv_piece(key, v)) == (FiltersView {
            label: Some(v),
            ..g
        }),
        key == year_key() ==> apply_piece(g, kv_piece(key, v)) == (FiltersView {
            year: Some(v),
            ..g
        }),
        key == domain_key() ==> apply_piece(g, kv_piece(key, v)) == (FiltersView {
            domain: Some(v),
            ..g
        }),
        key == address_key() ==> apply_piece(g, kv_piece(key, v)) == (FiltersView {
            address: Some(v),
            ..g
        }),
{
    let p = kv_piece(key, v);
    lemma_keys_plain();
    assert forall|k: int| 0 <= k < key.len() implies p[k] != 61 by {
        assert(p[k] == key[k]);
    }
    assert(p[key.len() as int] == 61);
    lemma_find_byte_is(p, 61, key.len() as int);
    assert(p.subrange(0, key.len() as int) =~= key);
    lemma_dec_plain(key);
    assert(p.subrange(key.len() as int + 1, p.len() as int) =~= enc(v));
    lemma_dec_enc(v);
    // the four keys have pairwise different lengths, so they differ
    assert(label_key().len() == 5 && year_key().len() == 4 && domain_key().len() == 6
        && address_key().len() == 7);
}

/// Appending pieces applies them after the earlier ones.
proof fn lemma_apply_concat(f: FiltersView, a: Seq<Seq<u8>>, b: Seq<Seq<u8>>)
    ensures
        apply_pieces(f, a + b) == apply_pieces(apply_pieces(f, a), b),
    decreases a.len(),
{
    if a.len() == 0 {
        assert(a + b =~= b);
    } else {
        assert((a + b)[0] == a[0]);
        assert((a + b).drop_first() =~= a.drop_first() + b);
        lemma_apply_concat(apply_piece(f, a[0]), a.drop_first(), b);
    }
}

/// Decoding undoes encoding: the round-trip law for every filter.
pub proof fn lemma_filter_round_trip(f: FiltersView)
    ensures
        decode_q(encode_q(f)) == f,
{
    let ps = pieces_of(f);
    let e = encode_q(f);
    assert(strip_q(e) =~= join_amp(ps));
    let sl = opt_piece(f.label, label_key());
    let sy = opt_piece(f.year, year_key());
    let sd = opt_piece(f.domain, domain_key());
    let sa = opt_piece(f.address, address_key());
    lemma_keys_plain();
    if ps.len() == 0 {
        assert(sl.len() == 0 && sy.len() == 0 && sd.len() == 0 && sa.len() == 0);
        assert(f.label is None && f.year is None && f.domain is None && f.address is None);
        let s = join_amp(ps);
        assert(s =~= Seq::<u8>::empty());
        assert(split_on(s, 38) == seq![s]);
        assert(find_byte(s, 61) == 0);
        assert(apply_piece(empty_filters(), s) == empty_filters());
        assert(seq![s][0] == s);
        assert(seq![s].drop_first() =~= Seq::<Seq<u8>>::empty());
        assert(apply_pieces(empty_filters(), seq![s]) == empty_filters());
        assert(decode_q(e) =~= f);
    } else {
        assert forall|j: int, k: int|
            0 <= j < ps.len() && 0 <= k < ps[j].len() implies ps[j][k] != 38 by {
            lemma_pieces_no_amp(f, j, k);
        }
        lemma_split_join(ps);
        reveal_with_fuel(apply_pieces, 3);
        let g0 = empty_filters();
        lemma_apply_concat(g0, sl, sy + sd + sa);
        let g1 = apply_pieces(g0, sl);
        lemma_apply_concat(g1, sy, sd + sa);
        let g2 = apply_pieces(g1, sy);
        lemma_apply_concat(g2, sd, sa);
        let g3 = apply_pieces(g2, sd);
        let g4 = apply_pieces(g3, sa);
        assert(ps =~= sl + (sy + (sd + sa)));
        assert(sy + sd + sa =~= sy + (sd + sa));
        if f.label is Some {
            lemma_apply_kv(g0, label_key(), f.label.unwrap());
            assert(sl.drop_first() =~= Seq::<Seq<u8>>::empty());
            assert(apply_pieces(g0, sl) == apply_piece(g0, sl[0]));
        }
        assert(g1.label == f.label && g1.year is None && g1.domain is None && g1.address is None);
        if f.year is Some {
            lemma_apply_kv(g1, year_key(), f.year.unwrap());
            assert(sy.drop_first() =~= Seq::<Seq<u8>>::empty());
            assert(apply_pieces(g1, sy) == apply_piece(g1, sy[0]));
        }
        assert(g2.label == f.label && g2.year == f.year && g2.domain is None
            && g2.address is None);
        if f.domain is Some {
            lemma_apply_kv(g2, domain_key(), f.domain.unwrap());
            assert(sd.drop_first() =~= Seq::<Seq<u8>>::empty());
            assert(apply_pieces(g2, sd) == apply_piece(g2, sd[0]));
        }
        assert(g3.label == f.label && g3.year == f.year && g3.domain == f.domain
            && g3.address is None);
        if f.address is Some {
            lemma_apply_kv(g3, address_key(), f.address.unwrap());
            assert(sa.drop_first() =~= Seq::<Seq<u8>>::empty());
            assert(apply_pieces(g3, sa) == apply_piece(g3, sa[0]));
        }
        assert(g4 == f);
        assert(decode_q(e) == g4);
    }
}

/// No canonical piece holds a `&`.
proof fn lemma_pieces_no_amp(f: FiltersView, j: int, k: int)
    requires
        0 <= j < pieces_of(f).len(),
        0 <= k < pieces_of(f)[j].len(),
    ensures
        pieces_of(f)[j][k] != 38,
{
    let ps = pieces_of(f);
    lemma_keys_plain();
    assert forall|key: Seq<u8>, v: Seq<u8>|
        (key == label_key() || key == year_key() || key == domain_key() || key
            == address_key()) && 0 <= k < kv_piece(key, v).len() implies #[trigger] kv_piece(
        key,
        v,
    )[k] != 38 by {
        lemma_enc_clean(v);
        let p = kv_piece(key, v);
        if k < key.len() {
            assert(p[k] == key[k]);
        } else if k == key.len() {
            assert(p[k] == 61);
        } else {
            assert(p[k] == enc(v)[k - key.len() - 1]);
        }
    }
    let sl = opt_piece(f.label, label_key());
    let sy = opt_piece(f.year, year_key());
    let sd = opt_piece(f.domain, domain_key());
    let sa = opt_piece(f.address, address_key());
    assert(ps =~= sl + sy + sd + sa);
    if j < sl.len() {
        assert(ps[j] == kv_piece(label_key(), f.label.unwrap()));
    } else if j < sl.len() + sy.len() {
        assert(ps[j] == kv_piece(year_key(), f.year.unwrap()));
    } else if j < sl.len() + sy.len() + sd.len() {
        assert(ps[j] == kv_piece(domain_key(), f.domain.unwrap()));
    } else {
        assert(ps[j] == kv_piece(address_key(), f.address.unwrap()));
    }
}

impl Filters {
    /// A filter with no constraints.
    pub fn none() -> (r: Filters)
        ensures
            r@ == empty_filters(),
    {
        Filters { label: None, year: None, domain: None, address: None }
    }

    /// Whether any facet is pinned.
    pub fn has_any(&self) -> (r: bool)
        ensures
            r == (self@.label is Some || self@.year is Some || self@.domain is Some
                || self@.address is Some),
    {
        self.label.is_some() || self.year.is_some() || self.domain.is_some()
            || self.address.is_some()
    }

    /// Whether no facet is pinned.
    pub fn is_empty(&self) -> (r: bool)
        ensures
            r == (self@ == empty_filters()),
    {
        let r = !self.has_any();
        proof {
            if self@.label is None && self@.year is None && self@.domain is None
                && self@.address is None {
                assert(self@ =~= empty_filters());
            }
        }
        r
    }

    /// The SQL fragment for these constraints; every value stays a bound
    /// parameter, nothing is interpolated.
    pub fn clause(&self) -> (r: String)
        ensures
            r@ == clause_text(self@),
    {
        let mut s = String::new();
        if self.label.is_some() {
            s.append("JOIN labels ON labels.mail_rowid = mail._rowid_ AND labels.label = ?");
        }
        if self.year.is_some() {
            if self.label.is_some() {
                s.append(" AND ");
            } else {
                s.append("WHERE ");
            }
            s.append("strftime('%Y', datetime(date, 'unixepoch'))");
            s.append(" = ?");
        }
        if self.domain.is_some() {
            if self.label.is_some() || self.year.is_some() {
                s.append(" AND ");
            } else {
                s.append("WHERE ");
            }
            s.append("substr(from_address, instr(from_address, '@') + 1)");
            s.append(" = ?");
        }
        if self.address.is_some() {
            if self.label.is_some() || self.year.is_some() || self.domain.is_some() {
                s.append(" AND ");
            } else {
                s.append("WHERE ");
            }
            s.append("from_address");
            s.append(" = ?");
        }
        proof {
            assert(s@ =~= clause_text(self@));
        }
        s
    }

    /// The bound parameter values, in clause order.
    pub fn params(&self) -> (r: Vec<Vec<u8>>)
        ensures
            r.deep_view() == params_list(self@),
    {
        let mut out: Vec<Vec<u8>> = Vec::new();
        if let Some(v) = &self.label {
            proof {
                assert(v.deep_view() =~= v@);
            }
            out.push(clone_bytes(v));
        }
        if let Some(v) = &self.year {
            proof {
                assert(v.deep_view() =~= v@);
            }
            out.push(clone_bytes(v));
        }
        if let Some(v) = &self.domain {
            proof {
                assert(v.deep_view() =~= v@);
            }
            out.push(clone_bytes(v));
        }
        if let Some(v) = &self.address {
            proof {
                assert(v.deep_view() =~= v@);
            }
            out.push(clone_bytes(v));
        }
        proof {
            lemma_deep_bytes(&out);
            assert(out.deep_view() =~= params_list(self@));
        }
        out
    }

    /// These constraints with one facet released.
    pub fn without(&self, facet: Facet) -> (r: Filters)
        ensures
            r@ == clear_facet(self@, facet),
    {
        let r = Filters {
            label: if matches!(facet, Facet::Label) {
                None
            } else {
                clone_opt_bytes(&self.label)
            },
            year: if matches!(facet, Facet::Year) {
                None
            } else {
                clone_opt_bytes(&self.year)
            },
            domain: if matches!(facet, Facet::Domain) {
                None
            } else {
                clone_opt_bytes(&self.domain)
            },
            address: if matches!(facet, Facet::Address) {
                None
            } else {
                clone_opt_bytes(&self.address)
            },
        };
        proof {
            assert(r@ =~= clear_facet(self@, facet));
        }
        r
    }

    /// The pinned facets in canonical order, each with its value and the
    /// query string that releases only that facet.
    pub fn active_entries(&self) -> (r: Vec<(Vec<u8>, Vec<u8>)>)
        ensures
            r.deep_view() == active_list(self@),
    {
        let mut out: Vec<(Vec<u8>, Vec<u8>)> = Vec::new();
        let ghost mut want: Seq<(Seq<u8>, Seq<u8>)> = Seq::empty();
        if let Some(v) = &self.label {
            proof {
                assert(v.deep_view() =~= v@);
            }
            let entry = (clone_bytes(v), self.without(Facet::Label).to_url());
            let ghost ev = (entry.0@, entry.1@);
            out.push(entry);
            proof {
                want = want.push(ev);
            }
        }
        if let Some(v) = &self.year {
            proof {
                assert(v.deep_view() =~= v@);
            }
            let entry = (clone_bytes(v), self.without(Facet::Year).to_url());
            let ghost ev = (entry.0@, entry.1@);
            out.push(entry);
            proof {
                want = want.push(ev);
            }
        }
        if let Some(v) = &self.domain {
            proof {
                assert(v.deep_view() =~= v@);
            }
            let entry = (clone_bytes(v), self.without(Facet::Domain).to_url());
            let ghost ev = (entry.0@, entry.1@);
            out.push(entry);
            proof {
                want = want.push(ev);
            }
        }
        if let Some(v) = &self.address {
            proof {
                assert(v.deep_view() =~= v@);
            }
            let entry = (clone_bytes(v), self.without(Facet::Address).to_url());
            let ghost ev = (entry.0@, entry.1@);
            out.push(entry);
            proof {
                want = want.push(ev);
            }
        }
        proof {
            assert forall|i: int| 0 <= i < out@.len() implies out.deep_view()[i] == (
            out@[i].0@,
            out@[i].1@,
            ) by {
                assert(out@[i].0.deep_view() =~= out@[i].0@);
                assert(out@[i].1.deep_view() =~= out@[i].1@);
            }
            assert(out.deep_view() =~= want);
            assert(want =~= active_list(self@));
        }
        out
    }

    /// The canonical query string for these constraints.
    pub fn to_url(&self) -> (r: Vec<u8>)
        ensures
            r@ == encode_q(self@),
    {
        let mut ps: Vec<Vec<u8>> = Vec::new();
        let ghost sl = opt_piece(self@.label, label_key());
        let ghost sy = opt_piece(self@.year, year_key());
        let ghost sd = opt_piece(self@.domain, domain_key());
        let ghost sa = opt_piece(self@.address, address_key());
        if let Some(v) = &self.label {
            proof {
                assert(v.deep_view() =~= v@);
            }
            ps.push(kv_bytes(&label_key_bytes(), v));
        }
        proof {
            lemma_deep_bytes(&ps);
            assert(ps.deep_view() =~= sl);
        }
        if let Some(v) = &self.year {
            proof {
                assert(v.deep_view() =~= v@);
            }
            ps.push(kv_bytes(&year_key_bytes(), v));
        }
        proof {
            lemma_deep_bytes(&ps);
            assert(ps.deep_view() =~= sl + sy);
        }
        if let Some(v) = &self.domain {
            proof {
                assert(v.deep_view() =~= v@);
            }
            ps.push(kv_bytes(&domain_key_bytes(), v));
        }
        proof {
            lemma_deep_bytes(&ps);
            assert(ps.deep_view() =~= sl + sy + sd);
        }
        if let Some(v) = &self.address {
            proof {
                assert(v.deep_view() =~= v@);
            }
            ps.push(kv_bytes(&address_key_bytes(), v));
        }
        proof {
            lemma_deep_bytes(&ps);
            assert(ps.deep_view() =~= pieces_of(self@));
        }
        let mut out: Vec<u8> = Vec::new();
        out.push(47);
        out.push(63);
        append_joined(&mut out, &ps);
        proof {
            assert(out@ =~= encode_q(self@));
        }
        out
    }

    /// Read constraints back from a query string; anything malformed or
    /// unknown is no constraint.
    pub fn from_url(q: &Vec<u8>) -> (r: Filters)
        ensures
            r@ == decode_q(q@),
    {
        let stripped: Vec<u8> = if q.len() >= 2 && q[0] == 47 && q[1] == 63 {
            let s = copy_range(q, 2, q.len());
            proof {
                assert(q@.subrange(2, q@.len() as int) =~= q@.skip(2));
            }
            s
        } else {
            copy_range(q, 0, q.len())
        };
        proof {
            assert(q@.subrange(0, q@.len() as int) =~= q@);
            assert(stripped@ == strip_q(q@));
        }
        let pieces = split_bytes(&stripped, 38);
        let ghost all = pieces.deep_view();
        let mut r = Filters::none();
        let mut i: usize = 0;
        proof {
            assert(all.skip(0) =~= all);
        }
        while i < pieces.len()
            invariant
                i <= pieces.len(),
                all == pieces.deep_view(),
                apply_pieces(empty_filters(), all) == apply_pieces(r@, all.skip(i as int)),
            decreases pieces.len() - i,
        {
            let ghost before = r@;
            let piece = &pieces[i];
            proof {
                assert(all[i as int] == piece@);
                assert(all.skip(i as int)[0] == piece@);
                assert(all.skip(i as int).drop_first() =~= all.skip(i + 1));
            }
            let mut j: usize = 0;
            while j < piece.len() && piece[j] != 61
                invariant
                    j <= piece.len(),
                    forall|k: int| 0 <= k < j ==> piece@[k] != 61,
                decreases piece.len() - j,
            {
                j = j + 1;
            }
            proof {
                lemma_find_byte_is(piece@, 61, j as int);
            }
            if j < piece.len() {
                let key_raw = copy_range(piece, 0, j);
                let key = decode_bytes(&key_raw);
                let val_raw = copy_range(piece, j + 1, piece.len());
                let v = decode_bytes(&val_raw);
                if bytes_eq(&key, &label_key_bytes()) {
                    r.label = Some(v);
                } else if bytes_eq(&key, &year_key_bytes()) {
                    r.year = Some(v);
                } else if bytes_eq(&key, &domain_key_bytes()) {
                    r.domain = Some(v);
                } else if bytes_eq(&key, &address_key_bytes()) {
                    r.address = Some(v);
                }
                proof {
                    assert(r@ =~= apply_piece(before, piece@));
                }
            } else {
                proof {
                    assert(r@ =~= apply_piece(before, piece@));
                }
            }
            i = i + 1;
        }
        proof {
            assert(apply_pieces(r@, all.skip(pieces.len() as int)) == r@);
        }
        r
    }
}

/// One `key=value` piece as bytes.
fn kv_bytes(key: &Vec<u8>, v: &Vec<u8>) -> (r: Vec<u8>)
    ensures
        r@ == kv_piece(key@, v@),
{
    let mut out = copy_range(key, 0, key.len());
    proof {
        assert(key@.subrange(0, key@.len() as int) =~= key@);
    }
    out.push(61);
    append_encoded(&mut out, v);
    proof {
        assert(out@ =~= kv_piece(key@, v@));
    }
    out
}

/// What follows the first piece: nothing, or `&` and the rest joined.
spec fn join_tail(ps: Seq<Seq<u8>>) -> Seq<u8> {
    if ps.len() == 0 {
        Seq::empty()
    } else {
        seq![38u8] + join_amp(ps)
    }
}

proof fn lemma_join_head(ps: Seq<Seq<u8>>)
    requires
        ps.len() > 0,
    ensures
        join_amp(ps) == ps[0] + join_tail(ps.drop_first()),
{
    if ps.len() == 1 {
        assert(join_amp(ps) =~= ps[0] + join_tail(ps.drop_first()));
    } else {
        assert(ps[0] + seq![38u8] + join_amp(ps.drop_first()) =~= ps[0] + (seq![38u8] + join_amp(
            ps.drop_first(),
        )));
    }
}

/// Append the pieces joined with `&` between them.
fn append_joined(out: &mut Vec<u8>, ps: &Vec<Vec<u8>>)
    ensures
        final(out)@ == old(out)@ + join_amp(ps.deep_view()),
{
    let ghost all = ps.deep_view();
    let mut i: usize = 0;
    if ps.len() == 0 {
        proof {
            assert(out@ =~= old(out)@ + join_amp(all));
        }
        return ;
    }
    while i < ps.len()
        invariant
            i <= ps.len(),
            all == ps.deep_view(),
            ps.len() > 0,
            i == 0 ==> out@ == old(out)@,
            i > 0 ==> out@ + join_tail(all.skip(i as int)) == old(out)@ + join_amp(all),
        decreases ps.len() - i,
    {
        proof {
            assert(all[i as int] == ps@[i as int].deep_view());
            assert(all.skip(i as int)[0] == all[i as int]);
            assert(all.skip(i as int).drop_first() =~= all.skip(i + 1));
            lemma_join_head(all.skip(i as int));
        }
        if i > 0 {
            out.push(38);
        }
        let piece = &ps[i];
        let mut k: usize = 0;
        let ghost base = out@;
        while k < piece.len()
            invariant
                k <= piece.len(),
                out@ == base + piece@.subrange(0, k as int),
            decreases piece.len() - k,
        {
            out.push(piece[k]);
            proof {
                assert(out@ =~= base + piece@.subrange(0, k + 1));
            }
            k = k + 1;
        }
        proof {
            assert(piece@.subrange(0, piece@.len() as int) =~= piece@);
            if i == 0 {
                assert(all.skip(0) =~= all);
                assert(out@ + join_tail(all.skip(1)) =~= old(out)@ + join_amp(all));
            } else {
                assert(out@ + join_tail(all.skip(i + 1)) =~= old(out)@ + join_amp(all));
            }
        }
        i = i + 1;
    }
    proof {
        assert(join_tail(all.skip(ps@.len() as int)) =~= Seq::<u8>::empty());
        assert(out@ =~= old(out)@ + join_amp(all));
    }
}

pub fn label_key_bytes() -> (r: Vec<u8>)
    ensures
        r@ == label_key(),
{
    let mut v: Vec<u8> = Vec::new();
    v.push(108);
    v.push(97);
    v.push(98);
    v.push(101);
    v.push(108);
    proof {
        assert(v@ =~= label_key());
    }
    v
}

pub fn year_key_bytes() -> (r: Vec<u8>)
    ensures
        r@ == year_key(),
{
    let mut v: Vec<u8> = Vec::new();
    v.push(121);
    v.push(101);
    v.push(97);
    v.push(114);
    proof {
        assert(v@ =~= year_key());
    }
    v
}

pub fn domain_key_bytes() -> (r: Vec<u8>)
    ensures
        r@ == domain_key(),
{
    let mut v: Vec<u8> = Vec::new();
    v.push(100);
    v.push(111);
    v.push(109);
    v.push(97);
    v.push(105);
    v.push(110);
    proof {
        assert(v@ =~= domain_key());
    }
    v
}

pub fn address_key_bytes() -> (r: Vec<u8>)
    ensures
        r@ == address_key(),
{
    let mut v: Vec<u8> = Vec::new();
    v.push(97);
    v.push(100);
    v.push(100);
    v.push(114);
    v.push(101);
    v.push(115);
    v.push(115);
    proof {
        assert(v@ =~= address_key());
    }
    v
}

} // verus!
