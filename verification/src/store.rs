//! The record store: records with their label assignments, rebuilt in
//! full from an ingestion run, plus the precomputed grand total.

use vstd::prelude::*;
use crate::normalize::{MessageRecord, RecordView};
use crate::text::{bytes_eq, clone_bytes, clone_opt_bytes};

verus! {

/// Records in archive order (a record's id is its index), the unique
/// `(record, label)` assignments, and the grand total of all sizes.
pub struct Store {
    pub records: Vec<MessageRecord>,
    pub labels: Vec<(usize, Vec<u8>)>,
    pub grand_total: u64,
}

/// The mathematical value of a `Store`.
#[verifier::ext_equal]
pub struct StoreView {
    pub records: Seq<RecordView>,
    pub labels: Seq<(int, Seq<u8>)>,
    pub grand_total: u64,
}

impl View for Store {
    type V = StoreView;

    open spec fn view(&self) -> StoreView {
        StoreView {
            records: self.records.deep_view(),
            labels: Seq::new(
                self.labels@.len(),
                |k: int| (self.labels@[k].0 as int, self.labels@[k].1@),
            ),
            grand_total: self.grand_total,
        }
    }
}

/// Sum of the record sizes.
pub open spec fn sum_sizes(rs: Seq<RecordView>) -> int
    decreases rs.len(),
{
    if rs.len() == 0 {
        0
    } else {
        sum_sizes(rs.drop_last()) + rs.last().size
    }
}

/// A shorter record list never sums to more.
pub proof fn lemma_sum_sizes_take(rs: Seq<RecordView>, n: int)
    requires
        0 <= n <= rs.len(),
    ensures
        sum_sizes(rs.take(n)) <= sum_sizes(rs),
        sum_sizes(rs.take(n)) >= 0,
    decreases rs.len() - n, rs.len(),
{
    if n == rs.len() {
        assert(rs.take(n) =~= rs);
        if n > 0 {
            lemma_sum_sizes_take(rs.drop_last(), n - 1);
            assert(rs.drop_last().take(n - 1) =~= rs.drop_last());
        }
    } else {
        lemma_sum_sizes_take(rs.take(rs.len() as int - 1), n);
        assert(rs.take(rs.len() as int - 1) =~= rs.drop_last());
        assert(rs.take(rs.len() as int - 1).take(n) =~= rs.take(n));
    }
}

/// The sequence with only first occurrences kept, in order.
pub open spec fn dedup_pairs(s: Seq<(int, Seq<u8>)>) -> Seq<(int, Seq<u8>)>
    decreases s.len(),
{
    if s.len() == 0 {
        Seq::empty()
    } else {
        let rest = dedup_pairs(s.drop_last());
        if rest.contains(s.last()) {
            rest
        } else {
            rest.push(s.last())
        }
    }
}

pub proof fn lemma_dedup_pairs(s: Seq<(int, Seq<u8>)>)
    ensures
        forall|i: int, j: int|
            0 <= i < j < dedup_pairs(s).len() ==> #[trigger] dedup_pairs(s)[i]
                != #[trigger] dedup_pairs(s)[j],
        forall|x: (int, Seq<u8>)| dedup_pairs(s).contains(x) <==> s.contains(x),
    decreases s.len(),
{
    if s.len() > 0 {
        lemma_dedup_pairs(s.drop_last());
        let rest = dedup_pairs(s.drop_last());
        assert forall|x: (int, Seq<u8>)| dedup_pairs(s).contains(x) implies s.contains(x) by {
            if rest.contains(x) || x == s.last() {
                if x == s.last() {
                    assert(s[s.len() - 1] == x);
                } else {
                    assert(s.drop_last().contains(x));
                    let w = choose|w: int| 0 <= w < s.drop_last().len() && s.drop_last()[w] == x;
                    assert(s[w] == x);
                }
            }
        }
        assert forall|x: (int, Seq<u8>)| s.contains(x) implies dedup_pairs(s).contains(x) by {
            let w = choose|w: int| 0 <= w < s.len() && s[w] == x;
            if w < s.len() - 1 {
                assert(s.drop_last()[w] == x);
                assert(s.drop_last().contains(x));
                if !rest.contains(s.last()) {
                    let u = choose|u: int| 0 <= u < rest.len() && rest[u] == x;
                    assert(dedup_pairs(s)[u] == x);
                }
            } else {
                if rest.contains(s.last()) {
                } else {
                    assert(dedup_pairs(s).last() == x);
                }
            }
        }
    }
}

/// The raw `(record index, label)` list of an ingestion run, duplicates
/// and all, records in order and each record's labels in order.
pub open spec fn raw_pairs(items: Seq<(RecordView, Seq<Seq<u8>>)>) -> Seq<(int, Seq<u8>)>
    decreases items.len(),
{
    if items.len() == 0 {
        Seq::empty()
    } else {
        raw_pairs(items.drop_last()) + Seq::new(
            items.last().1.len(),
            |k: int| ((items.len() - 1) as int, items.last().1[k]),
        )
    }
}

pub open spec fn records_of(items: Seq<(RecordView, Seq<Seq<u8>>)>) -> Seq<RecordView> {
    items.map_values(|it: (RecordView, Seq<Seq<u8>>)| it.0)
}

/// Whether some row of the raw label table names record `i`.
pub open spec fn raw_has_label(ls: Seq<(usize, Vec<u8>)>, i: int) -> bool {
    exists|t: int| 0 <= t < ls.len() && (#[trigger] ls[t]).0 == i
}

/// Whether some assignment names record `i`.
pub open spec fn has_label(v: StoreView, i: int) -> bool {
    exists|k: int| 0 <= k < v.labels.len() && (#[trigger] v.labels[k]).0 == i
}

/// Rebuilding a store replaces everything; the store is exact.
#[derive(Debug)]
pub enum StoreError {
    TotalOverflow,
}

impl Store {
    /// Whether the store is well formed: the grand total is the sum of
    /// all sizes, every assignment points at a record, assignments are
    /// unique pairs, and every record carries at least one label.
    pub open spec fn wf(self) -> bool {
        let v = self@;
        &&& v.grand_total == sum_sizes(v.records)
        &&& forall|k: int| 0 <= k < v.labels.len() ==> 0 <= (#[trigger] v.labels[k]).0 < v.records.len()
        &&& forall|i: int, j: int|
            0 <= i < j < v.labels.len() ==> #[trigger] v.labels[i] != #[trigger] v.labels[j]
        &&& forall|i: int| 0 <= i < v.records.len() ==> #[trigger] has_label(v, i)
    }

    /// Build the store from an ingestion run, replacing any prior
    /// contents.  Fails exactly when the sizes together overflow the
    /// grand total; duplicate label assignments are dropped at this
    /// write boundary, first occurrence kept.
    pub fn rebuild(items: &Vec<(MessageRecord, Vec<Vec<u8>>)>) -> (r: Result<Store, StoreError>)
        requires
            forall|j: int| 0 <= j < items@.len() ==> (#[trigger] items@[j]).1@.len() > 0,
        ensures
            r is Ok <==> sum_sizes(records_of(items.deep_view())) <= u64::MAX,
            r matches Ok(s) ==> {
                &&& s.wf()
                &&& s@.records == records_of(items.deep_view())
                &&& s@.labels == dedup_pairs(raw_pairs(items.deep_view()))
                &&& s@.grand_total == sum_sizes(records_of(items.deep_view()))
            },
    {
        let ghost iv = items.deep_view();
        let ghost target = records_of(iv);
        let mut records: Vec<MessageRecord> = Vec::new();
        let mut labels: Vec<(usize, Vec<u8>)> = Vec::new();
        let mut total: u64 = 0;
        let mut j: usize = 0;
        proof {
            assert(records.deep_view() =~= target.take(0));
            assert(Seq::new(
                labels@.len(),
                |k: int| (labels@[k].0 as int, labels@[k].1@),
            ) =~= dedup_pairs(raw_pairs(iv.take(0))));
        }
        while j < items.len()
            invariant
                j <= items.len(),
                iv == items.deep_view(),
                iv.len() == items@.len(),
                target == records_of(iv),
                forall|t: int| 0 <= t < iv.len() ==> (#[trigger] iv[t]).1.len() > 0,
                records.deep_view() == target.take(j as int),
                records@.len() == j,
                total == sum_sizes(target.take(j as int)),
                Seq::new(labels@.len(), |k: int| (labels@[k].0 as int, labels@[k].1@))
                    == dedup_pairs(raw_pairs(iv.take(j as int))),
                forall|k: int| 0 <= k < labels@.len() ==> (#[trigger] labels@[k]).0 < j,
                forall|i: int| 0 <= i < j ==> #[trigger] raw_has_label(labels@, i),
            decreases items.len() - j,
        {
            let (rec, ls) = &items[j];
            proof {
                assert(iv[j as int] == (rec.deep_view(), ls.deep_view()));
                assert(target[j as int] == rec@);
            }
            if rec.size > u64::MAX - total {
                proof {
                    assert(sum_sizes(target.take(j as int + 1)) > u64::MAX) by {
                        assert(target.take(j as int + 1).drop_last() =~= target.take(j as int));
                        assert(target.take(j as int + 1).last() == rec@);
                    }
                    lemma_sum_sizes_take(target, j as int + 1);
                    assert(target.take(target.len() as int) =~= target);
                }
                return Err(StoreError::TotalOverflow);
            }
            total = total + rec.size;
            let rc = MessageRecord {
                size: rec.size,
                from_address: clone_bytes(&rec.from_address),
                date: rec.date,
                raw_date: clone_opt_bytes(&rec.raw_date),
                subject: clone_bytes(&rec.subject),
            };
            proof {
                assert(rc@ =~= rec@);
            }
            let ghost recs_before = records.deep_view();
            records.push(rc);
            proof {
                assert(records.deep_view() =~~= recs_before.push(rec@));
                assert(records.deep_view() =~~= target.take(j as int + 1)) by {
                    assert(target.take(j as int + 1).drop_last() =~= target.take(j as int));
                }
                assert(sum_sizes(target.take(j as int + 1)) == total) by {
                    assert(target.take(j as int + 1).drop_last() =~= target.take(j as int));
                }
            }
            // insert this record's labels, skipping pairs already present
            let ghost lv0 = ls.deep_view();
            let mut k: usize = 0;
            proof {
                assert(raw_pairs(iv.take(j as int + 1)) =~= raw_pairs(iv.take(j as int))
                    + Seq::new(lv0.len(), |t: int| (j as int, lv0[t]))) by {
                    assert(iv.take(j as int + 1).drop_last() =~= iv.take(j as int));
                    assert(iv.take(j as int + 1).last() == iv[j as int]);
                }
            }
            while k < ls.len()
                invariant
                    k <= ls.len(),
                    lv0 == ls.deep_view(),
                    lv0.len() == ls@.len(),
                    Seq::new(labels@.len(), |t: int| (labels@[t].0 as int, labels@[t].1@))
                        == dedup_pairs(
                        raw_pairs(iv.take(j as int)) + Seq::new(
                            k as nat,
                            |t: int| (j as int, lv0[t]),
                        ),
                    ),
                    forall|t: int| 0 <= t < labels@.len() ==> (#[trigger] labels@[t]).0 <= j,
                    k > 0 ==> raw_has_label(labels@, j as int),
                    forall|i: int| 0 <= i < j ==> #[trigger] raw_has_label(labels@, i),
                decreases ls.len() - k,
            {
                let ghost gl = Seq::new(
                    labels@.len(),
                    |t: int| (labels@[t].0 as int, labels@[t].1@),
                );
                let ghost pair = (j as int, lv0[k as int]);
                proof {
                    assert(ls.deep_view()[k as int] == ls@[k as int]@);
                    assert(Seq::new((k + 1) as nat, |t: int| (j as int, lv0[t])).drop_last()
                        =~= Seq::new(k as nat, |t: int| (j as int, lv0[t])));
                    assert((raw_pairs(iv.take(j as int)) + Seq::new(
                        (k + 1) as nat,
                        |t: int| (j as int, lv0[t]),
                    )).drop_last() =~= raw_pairs(iv.take(j as int)) + Seq::new(
                        k as nat,
                        |t: int| (j as int, lv0[t]),
                    ));
                }
                // does the pair stand in the table already?
                let mut found = false;
                let mut t: usize = 0;
                while t < labels.len()
                    invariant
                        t <= labels@.len(),
                        gl == Seq::new(
                            labels@.len(),
                            |u: int| (labels@[u].0 as int, labels@[u].1@),
                        ),
                        pair == (j as int, ls@[k as int]@),
                        k < ls@.len(),
                        found <==> exists|u: int| 0 <= u < t && gl[u] == pair,
                    decreases labels@.len() - t,
                {
                    if labels[t].0 == j && bytes_eq(&labels[t].1, &ls[k]) {
                        proof {
                            assert(gl[t as int] == pair);
                        }
                        found = true;
                    }
                    t = t + 1;
                }
                proof {
                    assert(found <==> gl.contains(pair));
                }
                if !found {
                    let ghost before = labels@;
                    labels.push((j, clone_bytes(&ls[k])));
                    proof {
                        assert(Seq::new(
                            labels@.len(),
                            |u: int| (labels@[u].0 as int, labels@[u].1@),
                        ) =~~= gl.push(pair));
                        assert forall|i: int| 0 <= i < j implies #[trigger] raw_has_label(
                            labels@,
                            i,
                        ) by {
                            assert(raw_has_label(before, i));
                            let t = choose|t: int|
                                0 <= t < before.len() && (#[trigger] before[t]).0 == i;
                            assert(labels@[t] == before[t]);
                        }
                        assert((labels@[labels@.len() - 1]).0 == j);
                        assert(raw_has_label(labels@, j as int));
                    }
                } else {
                    proof {
                        let u = choose|u: int| 0 <= u < gl.len() && gl[u] == pair;
                        assert((labels@[u]).0 as int == j as int);
                        assert(raw_has_label(labels@, j as int));
                    }
                }
                k = k + 1;
            }
            proof {
                assert(Seq::new(lv0.len(), |t: int| (j as int, lv0[t])) =~= Seq::new(
                    ls@.len() as nat,
                    |t: int| (j as int, lv0[t]),
                ));
            }
            j = j + 1;
        }
        proof {
            assert(target.take(items@.len() as int) =~= target);
            assert(iv.take(items@.len() as int) =~= iv);
        }
        let s = Store { records, labels, grand_total: total };
        proof {
            lemma_dedup_pairs(raw_pairs(iv));
            assert(s@.records =~= records_of(iv));
            assert(s@.labels =~= dedup_pairs(raw_pairs(iv)));
            assert forall|k: int| 0 <= k < s@.labels.len() implies 0 <= (#[trigger] s@.labels[k]).0
                < s@.records.len() by {
                assert(s@.labels[k] == (s.labels@[k].0 as int, s.labels@[k].1@));
            }
            lemma_sum_sizes_take(target, target.len() as int);
            assert forall|i: int| 0 <= i < s@.records.len() implies #[trigger] has_label(
                s@,
                i,
            ) by {
                assert(raw_has_label(labels@, i));
                let k = choose|k: int| 0 <= k < labels@.len() && (#[trigger] labels@[k]).0 == i;
                assert(s@.labels[k] == (labels@[k].0 as int, labels@[k].1@));
            }
        }
        Ok(s)
    }
}

} // verus!
