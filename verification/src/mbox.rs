//! The entry splitter: an archive byte stream is cut at every line that
//! begins with the boundary marker `From `, and each entry's message
//! bytes are what follows its boundary line.

use vstd::prelude::*;
use crate::headers::headers_present;
use crate::normalize::{MessageRecord, RecordView, labels_of_entry, normalize_entry, record_of};
use crate::text::{copy_range, find_byte, lemma_find_byte_is};

verus! {

/// Whether an entry boundary (`From ` at the start of a line) stands at
/// position `i`.
pub open spec fn is_boundary(a: Seq<u8>, i: int) -> bool {
    &&& 0 <= i
    &&& i + 5 <= a.len()
    &&& a[i] == 70
    &&& a[i + 1] == 114
    &&& a[i + 2] == 111
    &&& a[i + 3] == 109
    &&& a[i + 4] == 32
    &&& (i == 0 || a[i - 1] == 10)
}

/// All boundary positions at or after `from`, in order.
pub open spec fn boundaries_from(a: Seq<u8>, from: int) -> Seq<int>
    decreases a.len() - from,
{
    if from < 0 || from >= a.len() {
        Seq::empty()
    } else if is_boundary(a, from) {
        seq![from] + boundaries_from(a, from + 1)
    } else {
        boundaries_from(a, from + 1)
    }
}

/// The spans of the archive's entries: the first span starts at zero
/// whether or not a boundary stands there (a span without a boundary is
/// still yielded; what follows rejects it), every later span starts at a
/// boundary, and together they cover the archive.
pub open spec fn entry_bounds(a: Seq<u8>) -> Seq<(int, int)> {
    if a.len() == 0 {
        Seq::empty()
    } else {
        let starts = seq![0int] + boundaries_from(a, 1);
        Seq::new(
            starts.len(),
            |j: int|
                (
                    starts[j],
                    if j + 1 < starts.len() {
                        starts[j + 1]
                    } else {
                        a.len() as int
                    },
                ),
        )
    }
}

proof fn lemma_boundaries_range(a: Seq<u8>, from: int)
    ensures
        forall|k: int|
            0 <= k < boundaries_from(a, from).len() ==> from <= #[trigger] boundaries_from(
                a,
                from,
            )[k] < a.len(),
        forall|k: int, l: int|
            0 <= k < l < boundaries_from(a, from).len() ==> #[trigger] boundaries_from(a, from)[k]
                < #[trigger] boundaries_from(a, from)[l],
    decreases a.len() - from,
{
    if from < 0 || from >= a.len() {
    } else {
        lemma_boundaries_range(a, from + 1);
        let bs = boundaries_from(a, from);
        let tail = boundaries_from(a, from + 1);
        if is_boundary(a, from) {
            assert forall|k: int| 0 <= k < bs.len() implies from <= #[trigger] bs[k]
                < a.len() by {
                if k > 0 {
                    assert(bs[k] == tail[k - 1]);
                }
            }
            assert forall|k: int, l: int| 0 <= k < l < bs.len() implies #[trigger] bs[k]
                < #[trigger] bs[l] by {
                assert(bs[l] == tail[l - 1]);
                if k > 0 {
                    assert(bs[k] == tail[k - 1]);
                }
            }
        }
    }
}

/// Every span runs forward and stays inside the archive.
pub proof fn lemma_entry_bounds_wf(a: Seq<u8>)
    ensures
        forall|j: int|
            0 <= j < entry_bounds(a).len() ==> 0 <= #[trigger] entry_bounds(a)[j].0
                <= entry_bounds(a)[j].1 <= a.len(),
{
    if a.len() > 0 {
        lemma_boundaries_range(a, 1);
        let bs = boundaries_from(a, 1);
        let starts = seq![0int] + bs;
        assert forall|j: int|
            0 <= j < entry_bounds(a).len() implies 0 <= #[trigger] entry_bounds(a)[j].0
            <= entry_bounds(a)[j].1 <= a.len() by {
            assert(starts[j] == if j == 0 {
                0int
            } else {
                bs[j - 1]
            });
            if j + 1 < starts.len() {
                assert(starts[j + 1] == bs[j]);
            }
        }
    }
}

/// Split the archive into entry spans.
pub fn split_entries(a: &Vec<u8>) -> (r: Vec<(usize, usize)>)
    ensures
        r@.len() == entry_bounds(a@).len(),
        forall|j: int|
            0 <= j < r@.len() ==> (#[trigger] r@[j]).0 == entry_bounds(a@)[j].0 && r@[j].1
                == entry_bounds(a@)[j].1,
{
    if a.len() == 0 {
        proof {
            assert(entry_bounds(a@).len() == 0);
        }
        return Vec::new();
    }
    let mut starts: Vec<usize> = Vec::new();
    starts.push(0);
    let mut i: usize = 1;
    proof {
        assert(starts@.len() == 1 && starts@[0] == 0);
        assert(seq![0int] + boundaries_from(a@, 1) =~= starts@.map_values(|x: usize| x as int)
            + boundaries_from(a@, 1));
    }
    while i < a.len()
        invariant
            1 <= i,
            a@.len() > 0,
            i <= a.len(),
            starts@.len() >= 1,
            starts@[0] == 0,
            forall|k: int| 0 <= k < starts@.len() ==> starts@[k] < i,
            forall|k: int, l: int| 0 <= k < l < starts@.len() ==> starts@[k] < starts@[l],
            seq![0int] + boundaries_from(a@, 1) == starts@.map_values(|x: usize| x as int)
                + boundaries_from(a@, i as int),
        decreases a.len() - i,
    {
        let hit = a.len() - i >= 5 && a[i] == 70 && a[i + 1] == 114 && a[i + 2] == 111 && a[i
            + 3] == 109 && a[i + 4] == 32 && a[i - 1] == 10;
        proof {
            assert(hit == is_boundary(a@, i as int));
        }
        if hit {
            let ghost before = starts@;
            starts.push(i);
            proof {
                assert(starts@.map_values(|x: usize| x as int) =~= before.map_values(
                    |x: usize| x as int,
                ).push(i as int));
                assert(before.map_values(|x: usize| x as int) + (seq![i as int]
                    + boundaries_from(a@, i + 1)) =~= starts@.map_values(|x: usize| x as int)
                    + boundaries_from(a@, i + 1));
            }
        }
        i = i + 1;
    }
    proof {
        assert(boundaries_from(a@, a@.len() as int) =~= Seq::<int>::empty());
        assert(seq![0int] + boundaries_from(a@, 1) =~= starts@.map_values(|x: usize| x as int));
    }
    let mut out: Vec<(usize, usize)> = Vec::new();
    let mut j: usize = 0;
    while j < starts.len()
        invariant
            j <= starts.len(),
            starts@.map_values(|x: usize| x as int) == seq![0int] + boundaries_from(a@, 1),
            forall|k: int| 0 <= k < starts@.len() ==> starts@[k] <= a@.len(),
            a@.len() > 0,
            out@.len() == j,
            forall|k: int|
                0 <= k < j ==> (#[trigger] out@[k]).0 == entry_bounds(a@)[k].0 && out@[k].1
                    == entry_bounds(a@)[k].1,
        decreases starts.len() - j,
    {
        let lo = starts[j];
        let hi = if j + 1 < starts.len() {
            starts[j + 1]
        } else {
            a.len()
        };
        proof {
            let gstarts = seq![0int] + boundaries_from(a@, 1);
            assert(gstarts[j as int] == starts@[j as int] as int);
            if j + 1 < starts.len() {
                assert(gstarts[j as int + 1] == starts@[j as int + 1] as int);
            }
        }
        out.push((lo, hi));
        proof {
            let gstarts = seq![0int] + boundaries_from(a@, 1);
            assert(entry_bounds(a@)[j as int] == (
                gstarts[j as int],
                if j as int + 1 < gstarts.len() {
                    gstarts[j as int + 1]
                } else {
                    a@.len() as int
                },
            ));
            assert(out@[j as int].0 == entry_bounds(a@)[j as int].0);
            assert(out@[j as int].1 == entry_bounds(a@)[j as int].1);
        }
        j = j + 1;
    }
    proof {
        let gstarts = seq![0int] + boundaries_from(a@, 1);
        assert(gstarts.len() == starts@.map_values(|x: usize| x as int).len());
        assert(entry_bounds(a@).len() == gstarts.len());
    }
    out
}

/// The message bytes of an entry span: what follows the span's first
/// line, or nothing when the span has no line break.
pub open spec fn message_span(a: Seq<u8>, lo: int, hi: int) -> Option<(int, int)> {
    let e = a.subrange(lo, hi);
    let k = find_byte(e, 10);
    if k < e.len() {
        Some((lo + k + 1, hi))
    } else {
        None
    }
}

/// Extract an entry's message bytes.
pub fn entry_message(a: &Vec<u8>, lo: usize, hi: usize) -> (r: Option<Vec<u8>>)
    requires
        lo <= hi <= a.len(),
    ensures
        r is Some <==> message_span(a@, lo as int, hi as int) is Some,
        r matches Some(m) ==> {
            let sp = message_span(a@, lo as int, hi as int).unwrap();
            m@ == a@.subrange(sp.0, sp.1)
        },
{
    let mut k: usize = lo;
    while k < hi && a[k] != 10
        invariant
            lo <= k <= hi <= a.len(),
            forall|t: int| lo <= t < k ==> a@[t] != 10,
        decreases hi - k,
    {
        k = k + 1;
    }
    proof {
        let e = a@.subrange(lo as int, hi as int);
        assert(forall|t: int| 0 <= t < k - lo ==> e[t] != 10);
        lemma_find_byte_is(e, 10, k - lo);
    }
    if k < hi {
        let m = copy_range(a, k + 1, hi);
        Some(m)
    } else {
        None
    }
}

/// What a whole archive normalizes to: for each entry span, the message
/// is taken, entries without a message or with unparsable headers are
/// skipped, and the rest become records with their labels, in archive
/// order.
pub open spec fn ingest_list(a: Seq<u8>, bounds: Seq<(int, int)>) -> Seq<
    (RecordView, Seq<Seq<u8>>),
>
    decreases bounds.len(),
{
    if bounds.len() == 0 {
        Seq::empty()
    } else {
        let rest = ingest_list(a, bounds.drop_first());
        match message_span(a, bounds[0].0, bounds[0].1) {
            Some(sp) => {
                let m = a.subrange(sp.0, sp.1);
                if headers_present(m) {
                    seq![(record_of(m), labels_of_entry(m))] + rest
                } else {
                    rest
                }
            },
            None => rest,
        }
    }
}

pub open spec fn ingested(a: Seq<u8>) -> Seq<(RecordView, Seq<Seq<u8>>)> {
    ingest_list(a, entry_bounds(a))
}

/// Normalize a whole archive: every entry that carries a parsable header
/// section becomes a record with its labels; the count of skipped
/// entries comes back beside them.
pub fn ingest_archive(a: &Vec<u8>) -> (r: (Vec<(MessageRecord, Vec<Vec<u8>>)>, usize))
    ensures
        r.0.deep_view() == ingested(a@),
        forall|j: int| 0 <= j < r.0@.len() ==> #[trigger] r.0@[j].1@.len() > 0,
        r.1 + r.0@.len() == entry_bounds(a@).len(),
{
    let bounds = split_entries(a);
    let ghost gb = entry_bounds(a@);
    proof {
        lemma_entry_bounds_wf(a@);
    }
    let mut out: Vec<(MessageRecord, Vec<Vec<u8>>)> = Vec::new();
    let mut skipped: usize = 0;
    let mut i: usize = 0;
    proof {
        assert(gb.skip(0) =~= gb);
        assert(out.deep_view() =~= Seq::<(RecordView, Seq<Seq<u8>>)>::empty());
    }
    while i < bounds.len()
        invariant
            i <= bounds.len(),
            bounds@.len() == gb.len(),
            forall|j: int|
                0 <= j < gb.len() ==> (#[trigger] bounds@[j]).0 == gb[j].0 && bounds@[j].1
                    == gb[j].1,
            forall|j: int|
                0 <= j < gb.len() ==> 0 <= (#[trigger] gb[j]).0 <= gb[j].1 <= a@.len(),
            skipped + out@.len() == i,
            ingested(a@) == out.deep_view() + ingest_list(a@, gb.skip(i as int)),
            forall|j: int| 0 <= j < out@.len() ==> #[trigger] out@[j].1@.len() > 0,
        decreases bounds.len() - i,
    {
        let (lo, hi) = bounds[i];
        proof {
            assert(gb.skip(i as int)[0] == gb[i as int]);
            assert(gb.skip(i as int).drop_first() =~= gb.skip(i + 1));
        }
        let ghost prev = out.deep_view();
        match entry_message(a, lo, hi) {
            None => {
                skipped = skipped + 1;
            },
            Some(m) => {
                match normalize_entry(&m) {
                    Err(_) => {
                        skipped = skipped + 1;
                    },
                    Ok((rec, labels)) => {
                        let ghost rv = rec@;
                        let ghost lv = labels.deep_view();
                        out.push((rec, labels));
                        proof {
                            assert(out.deep_view() =~~= prev.push((rv, lv)));
                            assert(prev.push((rv, lv)) =~~= prev + seq![(rv, lv)]);
                        }
                    },
                }
            },
        }
        proof {
            assert(ingested(a@) =~~= out.deep_view() + ingest_list(a@, gb.skip(i + 1)));
        }
        i = i + 1;
    }
    proof {
        assert(ingest_list(a@, gb.skip(gb.len() as int)) =~= Seq::<
            (RecordView, Seq<Seq<u8>>),
        >::empty());
        assert(ingested(a@) =~~= out.deep_view());
    }
    (out, skipped)
}

} // verus!
