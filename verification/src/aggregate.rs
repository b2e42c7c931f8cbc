//! The faceted aggregator: filtered totals, ranked per-facet breakdowns
//! and the largest matching messages, all computed over the store.

use vstd::prelude::*;
use vstd::relations::sorted_by;
use vstd::multiset::Multiset;
use vstd::seq_lib::lemma_multiset_commutative;
use crate::filter::{Facet, Filters, FiltersView, active_list, empty_filters};
use crate::normalize::RecordView;
use crate::store::{Store, StoreView, sum_sizes, lemma_sum_sizes_take};
use crate::text::{bytes_eq, clone_bytes, clone_opt_bytes, copy_range, find_byte, lex_le,
    lemma_find_byte_is, lemma_lex_le_total, lemma_lex_le_trans, lex_le_bytes};
use crate::year::{year_facet_of, year_facet_bytes};

verus! {

/// The sender domain: everything strictly after the first `@`, or the
/// whole address when it has none.
pub open spec fn domain_of(addr: Seq<u8>) -> Seq<u8> {
    let k = find_byte(addr, 64);
    if k < addr.len() {
        addr.skip(k + 1)
    } else {
        addr
    }
}

/// The domain facet value of an address.
pub fn domain_bytes(addr: &Vec<u8>) -> (r: Vec<u8>)
    ensures
        r@ == domain_of(addr@),
{
    let mut k: usize = 0;
    while k < addr.len() && addr[k] != 64
        invariant
            k <= addr.len(),
            forall|t: int| 0 <= t < k ==> addr@[t] != 64,
        decreases addr.len() - k,
    {
        k = k + 1;
    }
    proof {
        lemma_find_byte_is(addr@, 64, k as int);
    }
    if k < addr.len() {
        let r = copy_range(addr, k + 1, addr.len());
        proof {
            assert(addr@.subrange(k + 1, addr@.len() as int) =~= addr@.skip(k + 1));
        }
        r
    } else {
        clone_bytes(addr)
    }
}

/// Whether record `i` carries label `l`.
pub open spec fn label_matches(s: StoreView, i: int, l: Seq<u8>) -> bool {
    exists|k: int| 0 <= k < s.labels.len() && #[trigger] s.labels[k] == (i, l)
}

/// Whether record `i` meets every pinned constraint of the filter.
pub open spec fn row_matches(s: StoreView, i: int, f: FiltersView) -> bool {
    &&& (f.label matches Some(l) ==> label_matches(s, i, l))
    &&& (f.year matches Some(y) ==> year_facet_of(s.records[i].date as int) == y)
    &&& (f.domain matches Some(d) ==> domain_of(s.records[i].from_address) == d)
    &&& (f.address matches Some(a) ==> s.records[i].from_address == a)
}

/// Decide whether record `i` matches the filter.
pub fn record_matches(store: &Store, i: usize, f: &Filters) -> (r: bool)
    requires
        i < store@.records.len(),
    ensures
        r == row_matches(store@, i as int, f@),
{
    proof {
        assert(store.records.deep_view().len() == store.records@.len());
        assert(store@.records[i as int] == store.records@[i as int]@);
    }
    let rec = &store.records[i];
    let label_ok: bool = match &f.label {
        None => true,
        Some(l) => {
            let mut k: usize = 0;
            let mut found = false;
            while k < store.labels.len()
                invariant
                    k <= store.labels@.len(),
                    f@.label == Some(l.deep_view()),
                    l.deep_view() == l@,
                    found <==> exists|t: int|
                        0 <= t < k && #[trigger] store@.labels[t] == (i as int, l@),
                decreases store.labels@.len() - k,
            {
                if store.labels[k].0 == i && bytes_eq(&store.labels[k].1, l) {
                    proof {
                        assert(store@.labels[k as int] == (i as int, l@));
                    }
                    found = true;
                }
                k = k + 1;
            }
            proof {
                assert(found == label_matches(store@, i as int, l@));
            }
            found
        },
    };
    let year_ok: bool = match &f.year {
        None => true,
        Some(y) => {
            proof {
                assert(y.deep_view() =~= y@);
            }
            let yb = year_facet_bytes(rec.date);
            bytes_eq(&yb, y)
        },
    };
    let domain_ok: bool = match &f.domain {
        None => true,
        Some(d) => {
            proof {
                assert(d.deep_view() =~= d@);
            }
            let db = domain_bytes(&rec.from_address);
            bytes_eq(&db, d)
        },
    };
    let address_ok: bool = match &f.address {
        None => true,
        Some(a) => {
            proof {
                assert(a.deep_view() =~= a@);
            }
            bytes_eq(&rec.from_address, a)
        },
    };
    label_ok && year_ok && domain_ok && address_ok
}

/// Sum of the sizes of the matching records among the first `n`.
pub open spec fn match_total(s: StoreView, f: FiltersView, n: int) -> int
    decreases n,
{
    if n <= 0 {
        0
    } else {
        match_total(s, f, n - 1) + if row_matches(s, n - 1, f) {
            s.records[n - 1].size as int
        } else {
            0int
        }
    }
}

/// The filtered total: sum of `size` over every matching record.
pub open spec fn filtered_total_of(s: StoreView, f: FiltersView) -> int {
    match_total(s, f, s.records.len() as int)
}

/// A filtered sum never exceeds the sum over all records.
pub proof fn lemma_match_total_le(s: StoreView, f: FiltersView, n: int)
    requires
        0 <= n <= s.records.len(),
    ensures
        0 <= match_total(s, f, n) <= sum_sizes(s.records.take(n)),
    decreases n,
{
    if n > 0 {
        lemma_match_total_le(s, f, n - 1);
        assert(s.records.take(n).drop_last() =~= s.records.take(n - 1));
        assert(s.records.take(n).last() == s.records[n - 1]);
    }
}

/// Under the empty filter the filtered total is the sum over all
/// records, which a well-formed store precomputes as its grand total.
pub proof fn lemma_empty_filter_total(st: Store)
    requires
        st.wf(),
    ensures
        filtered_total_of(st@, empty_filters()) == sum_sizes(st@.records),
        filtered_total_of(st@, empty_filters()) == st@.grand_total,
{
    lemma_match_total_all(st@, st@.records.len() as int);
}

proof fn lemma_match_total_all(s: StoreView, n: int)
    requires
        0 <= n <= s.records.len(),
    ensures
        match_total(s, empty_filters(), n) == sum_sizes(s.records.take(n)),
        n == s.records.len() ==> match_total(s, empty_filters(), n) == sum_sizes(s.records),
    decreases n,
{
    if n > 0 {
        lemma_match_total_all(s, n - 1);
        assert(s.records.take(n).drop_last() =~= s.records.take(n - 1));
        assert(s.records.take(n).last() == s.records[n - 1]);
    }
    if n == s.records.len() {
        assert(s.records.take(n) =~= s.records);
    }
}

/// The filtered total of the store under the filter.
pub fn filtered_total(store: &Store, f: &Filters) -> (r: u64)
    requires
        store.wf(),
    ensures
        r == filtered_total_of(store@, f@),
{
    let mut total: u64 = 0;
    let mut i: usize = 0;
    proof {
        assert(store.records.deep_view().len() == store.records@.len());
    }
    while i < store.records.len()
        invariant
            store.wf(),
            i <= store@.records.len(),
            store@.records.len() == store.records@.len(),
            total == match_total(store@, f@, i as int),
        decreases store.records@.len() - i,
    {
        proof {
            lemma_match_total_le(store@, f@, i as int + 1);
            lemma_sum_sizes_take(store@.records, i as int + 1);
        }
        if record_matches(store, i, f) {
            proof {
                assert(store@.records[i as int] == store.records@[i as int]@);
            }
            total = total + store.records[i].size;
        }
        i = i + 1;
    }
    total
}


/// One ranked row of a facet breakdown: a facet value and the summed
/// size of the matching records carrying it.  The total is wider than a
/// single size because a value may gather many records.
pub struct FacetRow {
    pub key: Vec<u8>,
    pub total: u128,
}

impl View for FacetRow {
    type V = (Seq<u8>, int);

    open spec fn view(&self) -> (Seq<u8>, int) {
        (self.key@, self.total as int)
    }
}

pub open spec fn rows_view(rs: Seq<FacetRow>) -> Seq<(Seq<u8>, int)> {
    rs.map_values(|r: FacetRow| r@)
}

/// The `(facet value, size)` contributions of the matching records among
/// the first `n`, for a facet read off the record itself.
pub open spec fn record_contribs(s: StoreView, f: FiltersView, facet: Facet, n: int) -> Seq<
    (Seq<u8>, u64),
>
    decreases n,
{
    if n <= 0 {
        Seq::empty()
    } else {
        record_contribs(s, f, facet, n - 1) + if row_matches(s, n - 1, f) {
            seq![(facet_key_of(s.records[n - 1], facet), s.records[n - 1].size)]
        } else {
            Seq::empty()
        }
    }
}

/// The `(label, size)` contributions of the first `m` label assignments
/// whose record matches; a message with several labels counts once per
/// label, by design.
pub open spec fn label_contribs(s: StoreView, f: FiltersView, m: int) -> Seq<(Seq<u8>, u64)>
    decreases m,
{
    if m <= 0 {
        Seq::empty()
    } else {
        label_contribs(s, f, m - 1) + {
            let p = s.labels[m - 1];
            if 0 <= p.0 < s.records.len() && row_matches(s, p.0, f) {
                seq![(p.1, s.records[p.0].size)]
            } else {
                Seq::empty()
            }
        }
    }
}

/// The facet value a record shows for a non-label facet.
pub open spec fn facet_key_of(r: RecordView, facet: Facet) -> Seq<u8> {
    match facet {
        Facet::Label => Seq::empty(),
        Facet::Year => year_facet_of(r.date as int),
        Facet::Domain => domain_of(r.from_address),
        Facet::Address => r.from_address,
    }
}

/// All contributions of a facet under a filter.
pub open spec fn facet_contribs(s: StoreView, f: FiltersView, facet: Facet) -> Seq<(Seq<u8>, u64)> {
    match facet {
        Facet::Label => label_contribs(s, f, s.labels.len() as int),
        _ => record_contribs(s, f, facet, s.records.len() as int),
    }
}

/// Fold one contribution into grouped rows: add to its value's row, or
/// open a new row at the end.
pub open spec fn merge_contrib(rows: Seq<(Seq<u8>, int)>, c: (Seq<u8>, u64)) -> Seq<
    (Seq<u8>, int),
> {
    if exists|j: int| 0 <= j < rows.len() && (#[trigger] rows[j]).0 == c.0 {
        let j = choose|j: int| 0 <= j < rows.len() && (#[trigger] rows[j]).0 == c.0;
        rows.update(j, (c.0, rows[j].1 + c.1))
    } else {
        rows.push((c.0, c.1 as int))
    }
}

/// Group contributions by facet value, summing sizes; rows appear in
/// first-contribution order.
pub open spec fn group_rows(cs: Seq<(Seq<u8>, u64)>) -> Seq<(Seq<u8>, int)>
    decreases cs.len(),
{
    if cs.len() == 0 {
        Seq::empty()
    } else {
        merge_contrib(group_rows(cs.drop_last()), cs.last())
    }
}

pub open spec fn sum_rows(rows: Seq<(Seq<u8>, int)>) -> int
    decreases rows.len(),
{
    if rows.len() == 0 {
        0
    } else {
        sum_rows(rows.drop_last()) + rows.last().1
    }
}

pub open spec fn sum_contribs(cs: Seq<(Seq<u8>, u64)>) -> int
    decreases cs.len(),
{
    if cs.len() == 0 {
        0
    } else {
        sum_contribs(cs.drop_last()) + cs.last().1
    }
}

proof fn lemma_sum_rows_update(rows: Seq<(Seq<u8>, int)>, j: int, d: int)
    requires
        0 <= j < rows.len(),
    ensures
        sum_rows(rows.update(j, (rows[j].0, rows[j].1 + d))) == sum_rows(rows) + d,
    decreases rows.len(),
{
    let upd = rows.update(j, (rows[j].0, rows[j].1 + d));
    if j == rows.len() - 1 {
        assert(upd.drop_last() =~= rows.drop_last());
        assert(upd.last() == (rows[j].0, rows[j].1 + d));
    } else {
        assert(upd.drop_last() =~= rows.drop_last().update(j, (rows[j].0, rows[j].1 + d)));
        assert(rows.drop_last()[j] == rows[j]);
        lemma_sum_rows_update(rows.drop_last(), j, d);
        assert(upd.last() == rows.last());
    }
}

/// Grouping keeps keys distinct, totals non-negative, and the row totals
/// summing to exactly the contributed sizes.
pub proof fn lemma_group_rows(cs: Seq<(Seq<u8>, u64)>)
    ensures
        forall|i: int, j: int|
            0 <= i < j < group_rows(cs).len() ==> (#[trigger] group_rows(cs)[i]).0 != (
            #[trigger] group_rows(cs)[j]).0,
        forall|j: int| 0 <= j < group_rows(cs).len() ==> (#[trigger] group_rows(cs)[j]).1 >= 0,
        sum_rows(group_rows(cs)) == sum_contribs(cs),
    decreases cs.len(),
{
    if cs.len() > 0 {
        lemma_group_rows(cs.drop_last());
        let rest = group_rows(cs.drop_last());
        let c = cs.last();
        if exists|j: int| 0 <= j < rest.len() && (#[trigger] rest[j]).0 == c.0 {
            let j = choose|j: int| 0 <= j < rest.len() && (#[trigger] rest[j]).0 == c.0;
            lemma_sum_rows_update(rest, j, c.1 as int);
        } else {
            assert(group_rows(cs).drop_last() =~= rest);
        }
    }
}

/// Every row total is at most the sum of all row totals.
proof fn lemma_row_le_sum(rows: Seq<(Seq<u8>, int)>, j: int)
    requires
        0 <= j < rows.len(),
        forall|k: int| 0 <= k < rows.len() ==> (#[trigger] rows[k]).1 >= 0,
    ensures
        rows[j].1 <= sum_rows(rows),
    decreases rows.len(),
{
    if j == rows.len() - 1 {
        lemma_sum_rows_nonneg(rows.drop_last());
    } else {
        assert(rows.drop_last()[j] == rows[j]);
        lemma_row_le_sum(rows.drop_last(), j);
    }
}

proof fn lemma_sum_rows_nonneg(rows: Seq<(Seq<u8>, int)>)
    requires
        forall|k: int| 0 <= k < rows.len() ==> (#[trigger] rows[k]).1 >= 0,
    ensures
        sum_rows(rows) >= 0,
    decreases rows.len(),
{
    if rows.len() > 0 {
        lemma_sum_rows_nonneg(rows.drop_last());
    }
}

/// The contributed sizes sum to at most one maximal size per
/// contribution.
proof fn lemma_sum_contribs_bound(cs: Seq<(Seq<u8>, u64)>)
    ensures
        0 <= sum_contribs(cs) <= cs.len() * (u64::MAX as int),
    decreases cs.len(),
{
    if cs.len() > 0 {
        lemma_sum_contribs_bound(cs.drop_last());
        assert((cs.len() - 1) * (u64::MAX as int) + (u64::MAX as int) == cs.len() * (
        u64::MAX as int)) by (nonlinear_arith);
    }
}

/// The breakdown order: larger totals first, ties by ascending facet
/// value.
pub open spec fn row_le(a: (Seq<u8>, int), b: (Seq<u8>, int)) -> bool {
    a.1 > b.1 || (a.1 == b.1 && lex_le(a.0, b.0))
}

/// The breakdown order as a relation value.
pub open spec fn row_order() -> spec_fn((Seq<u8>, int), (Seq<u8>, int)) -> bool {
    |a: (Seq<u8>, int), b: (Seq<u8>, int)| row_le(a, b)
}

proof fn lemma_row_le_total(a: (Seq<u8>, int), b: (Seq<u8>, int))
    ensures
        row_le(a, b) || row_le(b, a),
{
    lemma_lex_le_total(a.0, b.0);
}

proof fn lemma_row_le_trans(a: (Seq<u8>, int), b: (Seq<u8>, int), c: (Seq<u8>, int))
    requires
        row_le(a, b),
        row_le(b, c),
    ensures
        row_le(a, c),
{
    if a.1 == b.1 && b.1 == c.1 {
        lemma_lex_le_trans(a.0, b.0, c.0);
    }
}

fn row_le_exec(a: &FacetRow, b: &FacetRow) -> (r: bool)
    ensures
        r == row_le(a@, b@),
{
    if a.total > b.total {
        true
    } else if a.total == b.total {
        lex_le_bytes(&a.key, &b.key)
    } else {
        false
    }
}

/// Inserting an element anywhere adds it to the multiset.
proof fn lemma_insert_multiset<A>(s: Seq<A>, p: int, x: A)
    requires
        0 <= p <= s.len(),
    ensures
        s.insert(p, x).to_multiset() =~= s.to_multiset().insert(x),
{
    broadcast use vstd::seq_lib::group_to_multiset_ensures;

    let left = s.take(p);
    let right = s.skip(p);
    assert(s.insert(p, x) =~= left + (seq![x] + right));
    assert(s =~= left + right);
    lemma_multiset_commutative(left, seq![x] + right);
    lemma_multiset_commutative(seq![x], right);
    lemma_multiset_commutative(left, right);
    assert(seq![x].to_multiset() =~= Multiset::<A>::empty().insert(x)) by {
        assert(seq![x] =~= Seq::<A>::empty().push(x));
        assert(Seq::<A>::empty().to_multiset() =~= Multiset::<A>::empty());
    }
}

/// Sort rows: larger totals first, ties by ascending facet value; the
/// rows are a permutation of the input.
fn sort_rows(v: &mut Vec<FacetRow>)
    ensures
        sorted_by(rows_view(final(v)@), row_order()),
        rows_view(final(v)@).to_multiset() == rows_view(old(v)@).to_multiset(),
{
    broadcast use vstd::seq_lib::group_to_multiset_ensures;
    broadcast use vstd::multiset::group_multiset_axioms;

    let ghost leq = row_order();
    let mut i: usize = 1;
    if v.len() <= 1 {
        proof {
            assert(rows_view(v@) =~= rows_view(old(v)@));
        }
        return ;
    }
    while i < v.len()
        invariant
            1 <= i <= v@.len(),
            leq == row_order(),
            sorted_by(rows_view(v@).take(i as int), leq),
            rows_view(v@).to_multiset() == rows_view(old(v)@).to_multiset(),
        decreases v@.len() - i,
    {
        let ghost w0 = rows_view(v@);
        let x = v.remove(i);
        let ghost w = rows_view(v@);
        proof {
            assert(w =~= w0.remove(i as int));
            assert(w.take(i as int) =~= w0.take(i as int));
            w0.to_multiset_ensures();
            assert(w.to_multiset() =~= w0.to_multiset().remove(w0[i as int]));
        }
        let mut p: usize = 0;
        while p < i && !row_le_exec(&x, &v[p])
            invariant
                0 <= p <= i,
                i < w0.len(),
                w == rows_view(v@),
                i <= v@.len(),
                x@ == w0[i as int],
                forall|q: int| 0 <= q < p ==> !row_le(x@, #[trigger] w[q]),
            decreases i - p,
        {
            proof {
                assert(w[p as int] == v@[p as int]@);
            }
            p = p + 1;
        }
        proof {
            assert(p < i ==> row_le(x@, w[p as int])) by {
                if p < i {
                    assert(w[p as int] == v@[p as int]@);
                }
            }
        }
        let ghost wmid = rows_view(v@);
        v.insert(p, x);
        proof {
            let wn = rows_view(v@);
            assert(wn =~= wmid.insert(p as int, x@));
            lemma_insert_multiset(wmid, p as int, x@);
            w0.to_multiset_ensures();
            assert(w0.contains(w0[i as int]));
            assert(w0.to_multiset().count(x@) > 0);
            assert(wn.to_multiset() =~= w0.to_multiset());
            // the sorted prefix grew by one
            assert forall|a: int, b: int| 0 <= a < b < i + 1 implies leq(
                #[trigger] wn.take(i as int + 1)[a],
                #[trigger] wn.take(i as int + 1)[b],
            ) by {
                assert(forall|q1: (Seq<u8>, int), q2: (Seq<u8>, int)|
                    #[trigger] leq(q1, q2) == row_le(q1, q2));
                assert forall|a2: int, b2: int| 0 <= a2 < b2 < i implies row_le(w[a2], w[b2]) by {
                    assert(leq(w.take(i as int)[a2], w.take(i as int)[b2]));
                }
                assert(wn.take(i as int + 1)[a] == wn[a]);
                assert(wn.take(i as int + 1)[b] == wn[b]);
                if a < p {
                    assert(wn[a] == w[a]);
                } else if a == p {
                    assert(wn[a] == x@);
                } else {
                    assert(wn[a] == w[a - 1]);
                }
                if b < p {
                    assert(wn[b] == w[b]);
                } else if b == p {
                    assert(wn[b] == x@);
                } else {
                    assert(wn[b] == w[b - 1]);
                }
                if b < p {
                    assert(row_le(w[a], w[b]));
                } else if b == p {
                    lemma_row_le_total(x@, w[a]);
                    assert(!row_le(x@, w[a]));
                    assert(row_le(w[a], x@));
                } else {
                    if a < p {
                        assert(row_le(w[a], w[b - 1]));
                    } else if a == p {
                        assert(row_le(x@, w[p as int]));
                        if (p as int) < b - 1 {
                            assert(row_le(w[p as int], w[b - 1]));
                            lemma_row_le_trans(x@, w[p as int], w[b - 1]);
                        }
                    } else {
                        assert(row_le(w[a - 1], w[b - 1]));
                    }
                }
            }
            assert(sorted_by(wn.take(i as int + 1), leq));
        }
        i = i + 1;
    }
    proof {
        assert(rows_view(v@).take(v@.len() as int) =~= rows_view(v@));
    }
}

/// Whether the filter pins this facet.
pub open spec fn facet_pinned(f: FiltersView, facet: Facet) -> bool {
    match facet {
        Facet::Label => f.label is Some,
        Facet::Year => f.year is Some,
        Facet::Domain => f.domain is Some,
        Facet::Address => f.address is Some,
    }
}

/// Whether this facet's breakdown is capped to the top thirty rows.
pub open spec fn facet_capped(facet: Facet) -> bool {
    match facet {
        Facet::Domain => true,
        Facet::Address => true,
        _ => false,
    }
}

/// What a correct breakdown looks like: rows of the grouped
/// contributions, sorted, keys distinct, capped facets keeping exactly
/// the rows that no shown row orders after.
pub open spec fn breakdown_ok(
    s: StoreView,
    f: FiltersView,
    facet: Facet,
    vv: Seq<(Seq<u8>, int)>,
) -> bool {
    let g = group_rows(facet_contribs(s, f, facet));
    &&& sorted_by(vv, row_order())
    &&& forall|j: int| 0 <= j < vv.len() ==> g.contains(#[trigger] vv[j])
    &&& forall|i: int, j: int|
        0 <= i < j < vv.len() ==> (#[trigger] vv[i]).0 != (#[trigger] vv[j]).0
    &&& vv.len() == if facet_capped(facet) {
        if g.len() < 30 {
            g.len()
        } else {
            30
        }
    } else {
        g.len()
    }
    &&& forall|x: (Seq<u8>, int)|
        #[trigger] g.contains(x) && !vv.contains(x) ==> forall|j: int|
            0 <= j < vv.len() ==> row_le(#[trigger] vv[j], x)
}

/// The ranked breakdown of a facet, or nothing when the filter pins it.
pub fn facet_breakdown(store: &Store, f: &Filters, facet: Facet) -> (r: Option<Vec<FacetRow>>)
    requires
        store.wf(),
    ensures
        r is Some <==> !facet_pinned(f@, facet),
        r matches Some(v) ==> breakdown_ok(store@, f@, facet, rows_view(v@)),
{
    broadcast use vstd::seq_lib::group_to_multiset_ensures;

    let pinned = match facet {
        Facet::Label => f.label.is_some(),
        Facet::Year => f.year.is_some(),
        Facet::Domain => f.domain.is_some(),
        Facet::Address => f.address.is_some(),
    };
    if pinned {
        return None;
    }
    // collect the contributions
    let mut cs: Vec<(Vec<u8>, u64)> = Vec::new();
    let ghost gcs = facet_contribs(store@, f@, facet);
    if matches!(facet, Facet::Label) {
        let mut m: usize = 0;
        proof {
            assert(cs.deep_view() =~= label_contribs(store@, f@, 0));
        }
        while m < store.labels.len()
            invariant
                store.wf(),
                m <= store.labels@.len(),
                store@.labels.len() == store.labels@.len(),
                store@.records.len() == store.records@.len(),
                cs.deep_view() == label_contribs(store@, f@, m as int),
            decreases store.labels@.len() - m,
        {
            let (idx, lab) = &store.labels[m];
            proof {
                assert(store@.labels[m as int] == (store.labels@[m as int].0 as int, store.labels@[
                    m as int].1@));
            }
            if *idx < store.records.len() && record_matches(store, *idx, f) {
                proof {
                    assert(store@.records[*idx as int] == store.records@[*idx as int]@);
                }
                let ghost prev = cs.deep_view();
                cs.push((clone_bytes(lab), store.records[*idx].size));
                proof {
                    assert(cs.deep_view() =~~= prev.push((lab@, store.records@[*idx as int]@.size)));
                    assert(cs.deep_view() =~~= label_contribs(store@, f@, m as int + 1));
                }
            } else {
                proof {
                    assert(cs.deep_view() =~~= label_contribs(store@, f@, m as int + 1));
                }
            }
            m = m + 1;
        }
    } else {
        let mut n: usize = 0;
        proof {
            assert(cs.deep_view() =~= record_contribs(store@, f@, facet, 0));
        }
        while n < store.records.len()
            invariant
                store.wf(),
                n <= store.records@.len(),
                store@.records.len() == store.records@.len(),
                !(facet is Label),
                cs.deep_view() == record_contribs(store@, f@, facet, n as int),
            decreases store.records@.len() - n,
        {
            if record_matches(store, n, f) {
                proof {
                    assert(store@.records[n as int] == store.records@[n as int]@);
                }
                let rec = &store.records[n];
                let key: Vec<u8> = match facet {
                    Facet::Year => year_facet_bytes(rec.date),
                    Facet::Domain => domain_bytes(&rec.from_address),
                    _ => clone_bytes(&rec.from_address),
                };
                proof {
                    assert(key@ == facet_key_of(store@.records[n as int], facet));
                }
                let ghost prev = cs.deep_view();
                cs.push((key, rec.size));
                proof {
                    assert(cs.deep_view() =~~= prev.push(
                        (facet_key_of(store@.records[n as int], facet), store@.records[n as int].size),
                    ));
                    assert(cs.deep_view() =~~= record_contribs(store@, f@, facet, n as int + 1));
                }
            } else {
                proof {
                    assert(cs.deep_view() =~~= record_contribs(store@, f@, facet, n as int + 1));
                }
            }
            n = n + 1;
        }
    }
    proof {
        assert(cs.deep_view() == gcs);
    }
    // group by facet value
    let mut rows: Vec<FacetRow> = Vec::new();
    let mut c: usize = 0;
    proof {
        assert(rows_view(rows@) =~= group_rows(gcs.take(0)));
    }
    while c < cs.len()
        invariant
            c <= cs@.len(),
            gcs == cs.deep_view(),
            gcs.len() == cs@.len(),
            rows_view(rows@) == group_rows(gcs.take(c as int)),
        decreases cs@.len() - c,
    {
        let ghost gr = rows_view(rows@);
        let ghost cval = gcs[c as int];
        proof {
            assert(gcs[c as int] == (cs@[c as int].0@, cs@[c as int].1));
            assert(gcs.take(c as int + 1).drop_last() =~= gcs.take(c as int));
            assert(gcs.take(c as int + 1).last() == cval);
            lemma_group_rows(gcs.take(c as int));
            lemma_sum_contribs_bound(gcs.take(c as int));
        }
        let (ckey, csize) = &cs[c];
        // find this value's row
        let mut t: usize = 0;
        let mut found = false;
        let mut at: usize = 0;
        while t < rows.len()
            invariant
                t <= rows@.len(),
                gr == rows_view(rows@),
                cval == (ckey@, *csize),
                c < cs@.len(),
                !found ==> forall|u: int| 0 <= u < t ==> (#[trigger] gr[u]).0 != ckey@,
                found ==> at < t <= rows@.len() && gr[at as int].0 == ckey@,
            decreases rows@.len() - t,
        {
            if !found && bytes_eq(&rows[t].key, ckey) {
                proof {
                    assert(gr[t as int].0 == ckey@);
                }
                found = true;
                at = t;
            }
            t = t + 1;
        }
        if found {
            proof {
                // the spec's chosen row is the one we found: keys are distinct
                let j = choose|j: int| 0 <= j < gr.len() && (#[trigger] gr[j]).0 == cval.0;
                assert(j == at as int);
                lemma_row_le_sum(gr, at as int);
                lemma_group_rows(gcs.take(c as int));
                assert(gr[at as int].1 <= sum_contribs(gcs.take(c as int)));
                assert(gcs.take(c as int).len() * (u64::MAX as int) < u128::MAX as int - (
                u64::MAX as int)) by (nonlinear_arith)
                    requires
                        gcs.take(c as int).len() < 0x10000000000000000,
                ;
            }
            let new_total: u128 = rows[at].total + (*csize as u128);
            let new_key = clone_bytes(&rows[at].key);
            rows[at] = FacetRow { key: new_key, total: new_total };
            proof {
                assert(rows_view(rows@) =~~= gr.update(at as int, (cval.0, gr[at as int].1
                    + cval.1)));
                assert(rows_view(rows@) =~~= group_rows(gcs.take(c as int + 1)));
            }
        } else {
            rows.push(FacetRow { key: clone_bytes(ckey), total: *csize as u128 });
            proof {
                assert(rows_view(rows@) =~~= gr.push((cval.0, cval.1 as int)));
                assert(rows_view(rows@) =~~= group_rows(gcs.take(c as int + 1)));
            }
        }
        c = c + 1;
    }
    proof {
        assert(gcs.take(gcs.len() as int) =~= gcs);
    }
    let ghost g = group_rows(gcs);
    sort_rows(&mut rows);
    let ghost full = rows_view(rows@);
    proof {
        lemma_group_rows(gcs);
        assert(g.no_duplicates()) by {
            assert forall|i: int, j: int| 0 <= i < j < g.len() implies g[i] != g[j] by {
                assert(g[i].0 != g[j].0);
            }
        }
        g.lemma_multiset_has_no_duplicates();
        full.lemma_multiset_has_no_duplicates_conv();
        lemma_permutation_contains(g, full);
        lemma_permutation_contains(full, g);
    }
    if matches!(facet, Facet::Domain | Facet::Address) && rows.len() > 30 {
        rows.truncate(30);
        proof {
            assert(rows_view(rows@) =~= full.take(30));
            lemma_breakdown_from_sorted(store@, f@, facet, full, 30);
        }
    } else {
        proof {
            assert(rows_view(rows@) =~= full.take(full.len() as int));
            lemma_breakdown_from_sorted(store@, f@, facet, full, full.len() as int);
        }
    }
    Some(rows)
}

/// Multiset equality carries membership across.
proof fn lemma_permutation_contains(a: Seq<(Seq<u8>, int)>, b: Seq<(Seq<u8>, int)>)
    requires
        a.to_multiset() == b.to_multiset(),
    ensures
        forall|x: (Seq<u8>, int)| a.contains(x) ==> b.contains(x),
{
    a.to_multiset_ensures();
    b.to_multiset_ensures();
    assert forall|x: (Seq<u8>, int)| a.contains(x) implies b.contains(x) by {
        assert(a.to_multiset().count(x) > 0);
    }
}

/// A sorted permutation of the grouped rows, cut to a prefix that keeps
/// every row it dominates, is a correct breakdown.
proof fn lemma_breakdown_from_sorted(
    s: StoreView,
    f: FiltersView,
    facet: Facet,
    full: Seq<(Seq<u8>, int)>,
    cap: int,
)
    requires
        sorted_by(full, row_order()),
        full.to_multiset() == group_rows(facet_contribs(s, f, facet)).to_multiset(),
        full.no_duplicates(),
        cap == if facet_capped(facet) && full.len() > 30 {
            30int
        } else {
            full.len() as int
        },
        facet_capped(facet) || cap == full.len(),
    ensures
        breakdown_ok(s, f, facet, full.take(cap)),
{
    broadcast use vstd::seq_lib::group_to_multiset_ensures;

    let g = group_rows(facet_contribs(s, f, facet));
    let vv = full.take(cap);
    lemma_group_rows(facet_contribs(s, f, facet));
    assert(full.len() == g.len()) by {
        assert(full.to_multiset().len() == g.to_multiset().len());
    }
    lemma_permutation_contains(full, g);
    assert forall|j: int| 0 <= j < vv.len() implies g.contains(#[trigger] vv[j]) by {
        assert(full.contains(full[j]));
    }
    assert forall|i: int, j: int|
        0 <= i < j < vv.len() implies (#[trigger] vv[i]).0 != (#[trigger] vv[j]).0 by {
        assert(g.contains(full[i]));
        assert(g.contains(full[j]));
        let ti = choose|t: int| 0 <= t < g.len() && g[t] == full[i];
        let tj = choose|t: int| 0 <= t < g.len() && g[t] == full[j];
        if full[i].0 == full[j].0 {
            assert(ti == tj);
            assert(full[i] == full[j]);
            assert(false);
        }
    }
    assert forall|x: (Seq<u8>, int)|
        #[trigger] g.contains(x) && !vv.contains(x) implies forall|j: int|
        0 <= j < vv.len() ==> row_le(#[trigger] vv[j], x) by {
        lemma_permutation_contains(g, full);
        assert(full.contains(x));
        let t = choose|t: int| 0 <= t < full.len() && full[t] == x;
        assert(t >= cap) by {
            if t < cap {
                assert(vv[t] == x);
                assert(vv.contains(x));
            }
        }
        assert forall|j: int| 0 <= j < vv.len() implies row_le(#[trigger] vv[j], x) by {
            assert(vv[j] == full[j]);
            assert(row_order()(full[j], full[t]));
            assert(row_order()(full[j], full[t]) == row_le(full[j], full[t]));
        }
    }
}


/// One of the largest matching messages, as shown in the report.
pub struct TopMessage {
    pub from: Vec<u8>,
    pub size: u64,
    pub subject: Vec<u8>,
    pub raw_date: Option<Vec<u8>>,
}

impl View for TopMessage {
    type V = (Seq<u8>, u64, Seq<u8>, Option<Seq<u8>>);

    open spec fn view(&self) -> (Seq<u8>, u64, Seq<u8>, Option<Seq<u8>>) {
        (self.from@, self.size, self.subject@, self.raw_date.deep_view())
    }
}

pub open spec fn msgs_view(ms: Seq<TopMessage>) -> Seq<(Seq<u8>, u64, Seq<u8>, Option<Seq<u8>>)> {
    ms.map_values(|m: TopMessage| m@)
}

/// The rows of the matching records among the first `n`, in store order.
pub open spec fn top_rows(s: StoreView, f: FiltersView, n: int) -> Seq<
    (Seq<u8>, u64, Seq<u8>, Option<Seq<u8>>),
>
    decreases n,
{
    if n <= 0 {
        Seq::empty()
    } else {
        top_rows(s, f, n - 1) + if row_matches(s, n - 1, f) {
            let r = s.records[n - 1];
            seq![(r.from_address, r.size, r.subject, r.raw_date)]
        } else {
            Seq::empty()
        }
    }
}

/// The order of the top list: larger sizes first, ties by ascending
/// sender address, then ascending subject.
pub open spec fn msg_le(
    a: (Seq<u8>, u64, Seq<u8>, Option<Seq<u8>>),
    b: (Seq<u8>, u64, Seq<u8>, Option<Seq<u8>>),
) -> bool {
    ||| a.1 > b.1
    ||| (a.1 == b.1 && a.0 != b.0 && lex_le(a.0, b.0))
    ||| (a.1 == b.1 && a.0 == b.0 && lex_le(a.2, b.2))
}

pub open spec fn msg_order() -> spec_fn(
    (Seq<u8>, u64, Seq<u8>, Option<Seq<u8>>),
    (Seq<u8>, u64, Seq<u8>, Option<Seq<u8>>),
) -> bool {
    |a: (Seq<u8>, u64, Seq<u8>, Option<Seq<u8>>), b: (Seq<u8>, u64, Seq<u8>, Option<Seq<u8>>)|
        msg_le(a, b)
}

proof fn lemma_msg_le_total(
    a: (Seq<u8>, u64, Seq<u8>, Option<Seq<u8>>),
    b: (Seq<u8>, u64, Seq<u8>, Option<Seq<u8>>),
)
    ensures
        msg_le(a, b) || msg_le(b, a),
{
    lemma_lex_le_total(a.0, b.0);
    lemma_lex_le_total(a.2, b.2);
}

proof fn lemma_msg_le_trans(
    a: (Seq<u8>, u64, Seq<u8>, Option<Seq<u8>>),
    b: (Seq<u8>, u64, Seq<u8>, Option<Seq<u8>>),
    c: (Seq<u8>, u64, Seq<u8>, Option<Seq<u8>>),
)
    requires
        msg_le(a, b),
        msg_le(b, c),
    ensures
        msg_le(a, c),
{
    if a.1 == b.1 && b.1 == c.1 {
        lemma_lex_le_total(a.0, b.0);
        lemma_lex_le_total(b.0, c.0);
        lemma_lex_le_total(a.0, c.0);
        if a.0 != b.0 || b.0 != c.0 {
            lemma_lex_le_trans(a.0, b.0, c.0);
            if a.0 == c.0 {
                lemma_lex_le_trans(b.0, c.0, a.0);
                lemma_lex_le_trans(c.0, a.0, b.0);
            }
        } else {
            lemma_lex_le_trans(a.2, b.2, c.2);
        }
    }
}

fn msg_le_exec(a: &TopMessage, b: &TopMessage) -> (r: bool)
    ensures
        r == msg_le(a@, b@),
{
    if a.size > b.size {
        true
    } else if a.size < b.size {
        false
    } else if bytes_eq(&a.from, &b.from) {
        lex_le_bytes(&a.subject, &b.subject)
    } else {
        lex_le_bytes(&a.from, &b.from)
    }
}

proof fn lemma_insert_multiset_msgs(
    s: Seq<(Seq<u8>, u64, Seq<u8>, Option<Seq<u8>>)>,
    p: int,
    x: (Seq<u8>, u64, Seq<u8>, Option<Seq<u8>>),
)
    requires
        0 <= p <= s.len(),
    ensures
        s.insert(p, x).to_multiset() =~= s.to_multiset().insert(x),
{
    broadcast use vstd::seq_lib::group_to_multiset_ensures;

    let left = s.take(p);
    let right = s.skip(p);
    assert(s.insert(p, x) =~= left + (seq![x] + right));
    assert(s =~= left + right);
    lemma_multiset_commutative(left, seq![x] + right);
    lemma_multiset_commutative(seq![x], right);
    lemma_multiset_commutative(left, right);
    assert(seq![x].to_multiset() =~= Multiset::<
        (Seq<u8>, u64, Seq<u8>, Option<Seq<u8>>),
    >::empty().insert(x)) by {
        assert(seq![x] =~= Seq::<(Seq<u8>, u64, Seq<u8>, Option<Seq<u8>>)>::empty().push(x));
        assert(Seq::<(Seq<u8>, u64, Seq<u8>, Option<Seq<u8>>)>::empty().to_multiset() =~= Multiset::<
            (Seq<u8>, u64, Seq<u8>, Option<Seq<u8>>),
        >::empty());
    }
}

/// Sort the top list: larger sizes first, ties by sender then subject.
fn sort_msgs(v: &mut Vec<TopMessage>)
    ensures
        sorted_by(msgs_view(final(v)@), msg_order()),
        msgs_view(final(v)@).to_multiset() == msgs_view(old(v)@).to_multiset(),
{
    broadcast use vstd::seq_lib::group_to_multiset_ensures;
    broadcast use vstd::multiset::group_multiset_axioms;

    let ghost leq = msg_order();
    let mut i: usize = 1;
    if v.len() <= 1 {
        proof {
            assert(msgs_view(v@) =~= msgs_view(old(v)@));
        }
        return ;
    }
    while i < v.len()
        invariant
            1 <= i <= v@.len(),
            leq == msg_order(),
            sorted_by(msgs_view(v@).take(i as int), leq),
            msgs_view(v@).to_multiset() == msgs_view(old(v)@).to_multiset(),
        decreases v@.len() - i,
    {
        let ghost w0 = msgs_view(v@);
        let x = v.remove(i);
        let ghost w = msgs_view(v@);
        proof {
            assert(w =~= w0.remove(i as int));
            assert(w.take(i as int) =~= w0.take(i as int));
            w0.to_multiset_ensures();
            assert(w.to_multiset() =~= w0.to_multiset().remove(w0[i as int]));
        }
        let mut p: usize = 0;
        while p < i && !msg_le_exec(&x, &v[p])
            invariant
                0 <= p <= i,
                i < w0.len(),
                w == msgs_view(v@),
                i <= v@.len(),
                x@ == w0[i as int],
                forall|q: int| 0 <= q < p ==> !msg_le(x@, #[trigger] w[q]),
            decreases i - p,
        {
            proof {
                assert(w[p as int] == v@[p as int]@);
            }
            p = p + 1;
        }
        proof {
            assert(p < i ==> msg_le(x@, w[p as int])) by {
                if p < i {
                    assert(w[p as int] == v@[p as int]@);
                }
            }
        }
        let ghost wmid = msgs_view(v@);
        v.insert(p, x);
        proof {
            let wn = msgs_view(v@);
            assert(wn =~= wmid.insert(p as int, x@));
            lemma_insert_multiset_msgs(wmid, p as int, x@);
            w0.to_multiset_ensures();
            assert(w0.contains(w0[i as int]));
            assert(w0.to_multiset().count(x@) > 0);
            assert(wn.to_multiset() =~= w0.to_multiset());
            assert forall|a: int, b: int| 0 <= a < b < i + 1 implies leq(
                #[trigger] wn.take(i as int + 1)[a],
                #[trigger] wn.take(i as int + 1)[b],
            ) by {
                assert(forall|q1: (Seq<u8>, u64, Seq<u8>, Option<Seq<u8>>), q2: (
                    Seq<u8>,
                    u64,
                    Seq<u8>,
                    Option<Seq<u8>>,
                )| #[trigger] leq(q1, q2) == msg_le(q1, q2));
                assert forall|a2: int, b2: int| 0 <= a2 < b2 < i implies msg_le(w[a2], w[b2]) by {
                    assert(leq(w.take(i as int)[a2], w.take(i as int)[b2]));
                }
                assert(wn.take(i as int + 1)[a] == wn[a]);
                assert(wn.take(i as int + 1)[b] == wn[b]);
                if a < p {
                    assert(wn[a] == w[a]);
                } else if a == p {
                    assert(wn[a] == x@);
                } else {
                    assert(wn[a] == w[a - 1]);
                }
                if b < p {
                    assert(wn[b] == w[b]);
                } else if b == p {
                    assert(wn[b] == x@);
                } else {
                    assert(wn[b] == w[b - 1]);
                }
                if b < p {
                    assert(msg_le(w[a], w[b]));
                } else if b == p {
                    lemma_msg_le_total(x@, w[a]);
                    assert(!msg_le(x@, w[a]));
                    assert(msg_le(w[a], x@));
                } else {
                    if a < p {
                        assert(msg_le(w[a], w[b - 1]));
                    } else if a == p {
                        assert(msg_le(x@, w[p as int]));
                        if (p as int) < b - 1 {
                            assert(msg_le(w[p as int], w[b - 1]));
                            lemma_msg_le_trans(x@, w[p as int], w[b - 1]);
                        }
                    } else {
                        assert(msg_le(w[a - 1], w[b - 1]));
                    }
                }
            }
            assert(sorted_by(wn.take(i as int + 1), leq));
        }
        i = i + 1;
    }
    proof {
        assert(msgs_view(v@).take(v@.len() as int) =~= msgs_view(v@));
    }
}

/// What a correct top list looks like: the first thirty rows of the
/// matching records sorted by the documented order.
pub open spec fn top_ok(
    s: StoreView,
    f: FiltersView,
    vv: Seq<(Seq<u8>, u64, Seq<u8>, Option<Seq<u8>>)>,
) -> bool {
    let all = top_rows(s, f, s.records.len() as int);
    exists|full: Seq<(Seq<u8>, u64, Seq<u8>, Option<Seq<u8>>)>|
        {
            &&& #[trigger] full.to_multiset() == all.to_multiset()
            &&& sorted_by(full, msg_order())
            &&& vv == full.take(
                if all.len() < 30 {
                    all.len() as int
                } else {
                    30int
                },
            )
        }
}

/// The thirty largest matching messages, ties broken by ascending
/// sender, then ascending subject.
pub fn top_messages(store: &Store, f: &Filters) -> (r: Vec<TopMessage>)
    requires
        store.wf(),
    ensures
        top_ok(store@, f@, msgs_view(r@)),
{
    broadcast use vstd::seq_lib::group_to_multiset_ensures;

    let mut ms: Vec<TopMessage> = Vec::new();
    let mut n: usize = 0;
    proof {
        assert(msgs_view(ms@) =~= top_rows(store@, f@, 0));
    }
    while n < store.records.len()
        invariant
            store.wf(),
            n <= store.records@.len(),
            store@.records.len() == store.records@.len(),
            msgs_view(ms@) == top_rows(store@, f@, n as int),
        decreases store.records@.len() - n,
    {
        if record_matches(store, n, f) {
            proof {
                assert(store@.records[n as int] == store.records@[n as int]@);
            }
            let rec = &store.records[n];
            let ghost before = msgs_view(ms@);
            ms.push(
                TopMessage {
                    from: clone_bytes(&rec.from_address),
                    size: rec.size,
                    subject: clone_bytes(&rec.subject),
                    raw_date: clone_opt_bytes(&rec.raw_date),
                },
            );
            proof {
                let rv = store@.records[n as int];
                assert(msgs_view(ms@) =~~= before.push(
                    (rv.from_address, rv.size, rv.subject, rv.raw_date),
                ));
                assert(msgs_view(ms@) =~~= top_rows(store@, f@, n as int + 1));
            }
        } else {
            proof {
                assert(msgs_view(ms@) =~~= top_rows(store@, f@, n as int + 1));
            }
        }
        n = n + 1;
    }
    let ghost all = top_rows(store@, f@, store@.records.len() as int);
    proof {
        assert(msgs_view(ms@) == all);
    }
    sort_msgs(&mut ms);
    let ghost full = msgs_view(ms@);
    proof {
        all.to_multiset_ensures();
        full.to_multiset_ensures();
        assert(full.len() == all.len()) by {
            assert(full.to_multiset().len() == all.to_multiset().len());
        }
    }
    if ms.len() > 30 {
        ms.truncate(30);
        proof {
            assert(msgs_view(ms@) =~= full.take(30));
        }
    } else {
        proof {
            assert(msgs_view(ms@) =~= full.take(full.len() as int));
        }
    }
    proof {
        assert(top_ok(store@, f@, msgs_view(ms@)));
    }
    ms
}

/// The structured view-model of one analytics request: totals, active
/// filters with their removal links, a ranked breakdown for each facet
/// the filter leaves free, and the largest matching messages.
pub struct Report {
    pub grand_total: u64,
    pub filtered_total: u64,
    pub active: Vec<(Vec<u8>, Vec<u8>)>,
    pub by_label: Option<Vec<FacetRow>>,
    pub by_year: Option<Vec<FacetRow>>,
    pub by_domain: Option<Vec<FacetRow>>,
    pub by_address: Option<Vec<FacetRow>>,
    pub top: Vec<TopMessage>,
}

/// Answer one analytics request.  A facet's breakdown is present exactly
/// when the filter does not pin that facet, and every breakdown counts
/// only records matching the whole filter.
pub fn report(store: &Store, f: &Filters) -> (r: Report)
    requires
        store.wf(),
    ensures
        r.grand_total == store@.grand_total,
        r.filtered_total == filtered_total_of(store@, f@),
        r.active.deep_view() == active_list(f@),
        r.by_label is Some <==> f@.label is None,
        r.by_year is Some <==> f@.year is None,
        r.by_domain is Some <==> f@.domain is None,
        r.by_address is Some <==> f@.address is None,
        r.by_label matches Some(v) ==> breakdown_ok(store@, f@, Facet::Label, rows_view(v@)),
        r.by_year matches Some(v) ==> breakdown_ok(store@, f@, Facet::Year, rows_view(v@)),
        r.by_domain matches Some(v) ==> breakdown_ok(store@, f@, Facet::Domain, rows_view(v@)),
        r.by_address matches Some(v) ==> breakdown_ok(store@, f@, Facet::Address, rows_view(v@)),
        top_ok(store@, f@, msgs_view(r.top@)),
{
    Report {
        grand_total: store.grand_total,
        filtered_total: filtered_total(store, f),
        active: f.active_entries(),
        by_label: facet_breakdown(store, f, Facet::Label),
        by_year: facet_breakdown(store, f, Facet::Year),
        by_domain: facet_breakdown(store, f, Facet::Domain),
        by_address: facet_breakdown(store, f, Facet::Address),
        top: top_messages(store, f),
    }
}

} // verus!
