//! The record store: ingesting a daily batch with batch-granular,
//! date-keyed deduplication.

use vstd::prelude::*;
use crate::record::{Date, LendingRates, RecordModel};

verus! {

/// Whether a record belongs to the given lender.
pub open spec fn matches_lender(r: RecordModel, f: Seq<char>) -> bool {
    r.lender == Some(f)
}

/// The subsequence of `rs` whose records belong to the lender `f`, in order.
pub open spec fn lender_filtered(rs: Seq<RecordModel>, f: Seq<char>) -> Seq<RecordModel>
    decreases rs.len(),
{
    if rs.len() == 0 {
        Seq::empty()
    } else if matches_lender(rs.last(), f) {
        lender_filtered(rs.drop_last(), f).push(rs.last())
    } else {
        lender_filtered(rs.drop_last(), f)
    }
}

/// How many records of `rs` belong to the lender `f`.
pub open spec fn count_matching(rs: Seq<RecordModel>, f: Seq<char>) -> int
    decreases rs.len(),
{
    if rs.len() == 0 {
        0
    } else if matches_lender(rs.last(), f) {
        count_matching(rs.drop_last(), f) + 1
    } else {
        count_matching(rs.drop_last(), f)
    }
}

/// Whether some record of `rs` carries the calendar date `d`.
pub open spec fn has_record_dated(rs: Seq<RecordModel>, d: Date) -> bool {
    exists|i: int| 0 <= i < rs.len() && #[trigger] rs[i].current_as_of_date.spec_date() == d
}

/// Whether ingesting `incoming` into `existing` appends: the batch is
/// non-empty and no existing record already carries the batch's date (the
/// calendar date of the batch's first record).
pub open spec fn ingest_appends(existing: Seq<RecordModel>, incoming: Seq<RecordModel>) -> bool {
    incoming.len() > 0 && !has_record_dated(existing, incoming[0].current_as_of_date.spec_date())
}

/// The record sequence after ingesting `incoming` into `existing` with the
/// lender filter `f`.
pub open spec fn ingest_result(
    existing: Seq<RecordModel>,
    incoming: Seq<RecordModel>,
    f: Seq<char>,
) -> Seq<RecordModel> {
    if ingest_appends(existing, incoming) {
        existing + lender_filtered(incoming, f)
    } else {
        existing
    }
}

/// Merge one daily batch into the store.
///
/// If the batch is empty, or any existing record already carries the calendar
/// date of the batch's first record, the store is returned unchanged and
/// nothing was appended. Otherwise every record of the batch that belongs to
/// `lender_filter` is appended at the end, batch order preserved.
pub fn ingest(existing: Vec<LendingRates>, incoming: Vec<LendingRates>, lender_filter: &String) -> (r: (
    Vec<LendingRates>,
    bool,
))
    ensures
        r.1 == ingest_appends(existing.deep_view(), incoming.deep_view()),
        r.0.deep_view() == ingest_result(existing.deep_view(), incoming.deep_view(), lender_filter@),
        !r.1 ==> r.0 == existing,
{
    let ghost ex0: Seq<RecordModel> = existing.deep_view();
    let ghost in0: Seq<RecordModel> = incoming.deep_view();
    if incoming.len() == 0 {
        return (existing, false);
    }
    let new_date = incoming[0].current_as_of_date.date();
    let mut i: usize = 0;
    while i < existing.len()
        invariant
            i <= existing.len(),
            ex0 == existing.deep_view(),
            in0 == incoming.deep_view(),
            in0.len() > 0,
            new_date == in0[0].current_as_of_date.spec_date(),
            forall|j: int|
                0 <= j < i ==> #[trigger] ex0[j].current_as_of_date.spec_date() != new_date,
        decreases existing.len() - i,
    {
        if existing[i].current_as_of_date.date() == new_date {
            assert(ex0[i as int].current_as_of_date.spec_date() == new_date);
            assert(has_record_dated(ex0, new_date));
            return (existing, false);
        }
        i += 1;
    }
    assert(!has_record_dated(ex0, new_date));
    assert(ingest_appends(ex0, in0));
    let mut out = existing;
    let n_in = incoming.len();
    let mut rest = incoming;
    let mut taken: usize = 0;
    proof {
        assert(in0.take(0) =~= Seq::<RecordModel>::empty());
        assert(ex0 + lender_filtered(in0.take(0), lender_filter@) =~= ex0);
        assert(in0.skip(0) =~= in0);
    }
    while rest.len() > 0
        invariant
            in0.len() == n_in,
            taken + rest.len() == in0.len(),
            rest.deep_view() == in0.skip(taken as int),
            out.deep_view() == ex0 + lender_filtered(in0.take(taken as int), lender_filter@),
        decreases rest.len(),
    {
        let ghost k = taken as int;
        let ghost rv0: Seq<RecordModel> = rest.deep_view();
        let ghost rseq0: Seq<LendingRates> = rest@;
        let rec = rest.remove(0);
        let ghost recm = rec.deep_view();
        proof {
            assert(recm == rseq0[0].deep_view());
            assert(rv0[0] == rseq0[0].deep_view());
            assert(in0.skip(k)[0] == in0[k]);
            assert(recm == in0[k]);
            assert forall|i: int| 0 <= i < rest@.len() implies #[trigger] rest.deep_view()[i]
                == in0.skip(k + 1)[i] by {
                assert(rest@[i] == rseq0[i + 1]);
                assert(rest.deep_view()[i] == rest@[i].deep_view());
                assert(rv0[i + 1] == rseq0[i + 1].deep_view());
                assert(in0.skip(k)[i + 1] == in0[k + 1 + i]);
                assert(in0.skip(k + 1)[i] == in0[k + 1 + i]);
            };
            assert(rest.deep_view() =~= in0.skip(k + 1));
            assert(in0.take(k + 1).drop_last() =~= in0.take(k));
            assert(in0.take(k + 1).last() == in0[k]);
        }
        let is_match = match &rec.lender {
            Some(l) => *l == *lender_filter,
            None => false,
        };
        proof {
            assert(is_match == matches_lender(recm, lender_filter@));
        }
        let ghost fseq = lender_filtered(in0.take(k + 1), lender_filter@);
        if is_match {
            proof {
                assert(fseq == lender_filtered(in0.take(k), lender_filter@).push(recm));
            }
            let ghost ov0 = out.deep_view();
            let ghost oseq0 = out@;
            out.push(rec);
            proof {
                assert forall|i: int| 0 <= i < out@.len() implies #[trigger] out.deep_view()[i]
                    == (ex0 + fseq)[i] by {
                    let fk = lender_filtered(in0.take(k), lender_filter@);
                    assert(out@.len() == oseq0.len() + 1);
                    assert(ov0 == ex0 + fk);
                    assert(ov0.len() == oseq0.len());
                    assert(oseq0.len() == ex0.len() + fk.len());
                    assert(fseq.len() == fk.len() + 1);
                    if i < oseq0.len() {
                        assert(out@[i] == oseq0[i]);
                        assert(out.deep_view()[i] == oseq0[i].deep_view());
                        assert(ov0[i] == oseq0[i].deep_view());
                        if i < ex0.len() {
                            assert(ov0[i] == ex0[i]);
                            assert((ex0 + fseq)[i] == ex0[i]);
                        } else {
                            assert(ov0[i] == fk[i - ex0.len()]);
                            assert(fseq[i - ex0.len()] == fk[i - ex0.len()]);
                            assert((ex0 + fseq)[i] == fseq[i - ex0.len()]);
                        }
                    } else {
                        assert(i == oseq0.len());
                        assert(out@[i] == rec);
                        assert(out.deep_view()[i] == recm);
                        assert((ex0 + fseq)[i] == fseq[i - ex0.len()]);
                        assert(fseq[i - ex0.len()] == recm);
                    }
                };
                assert(out.deep_view().len() == out@.len());
                assert(out@.len() == oseq0.len() + 1);
                assert(ov0.len() == oseq0.len());
                assert(ov0 == ex0 + lender_filtered(in0.take(k), lender_filter@));
                assert((ex0 + fseq).len() == ex0.len() + fseq.len());
                assert(fseq.len() == lender_filtered(in0.take(k), lender_filter@).len() + 1);
                assert(out.deep_view() =~= ex0 + fseq);
            }
        } else {
            proof {
                assert(fseq == lender_filtered(in0.take(k), lender_filter@));
                assert(out.deep_view() =~= ex0 + fseq);
            }
        }
        taken += 1;
    }
    proof {
        assert(in0.take(in0.len() as int) =~= in0);
    }
    (out, true)
}

/// Every record of the lender-filtered subsequence belongs to the lender,
/// and the subsequence holds as many records as match.
pub proof fn lemma_filtered_matches(rs: Seq<RecordModel>, f: Seq<char>)
    ensures
        lender_filtered(rs, f).len() == count_matching(rs, f),
        forall|i: int|
            0 <= i < lender_filtered(rs, f).len() ==> matches_lender(
                #[trigger] lender_filtered(rs, f)[i],
                f,
            ),
    decreases rs.len(),
{
    if rs.len() > 0 {
        lemma_filtered_matches(rs.drop_last(), f);
    }
}

/// Ingesting never alters an existing record: the result carries the whole
/// existing sequence as its prefix.
pub proof fn lemma_ingest_preserves_existing(
    existing: Seq<RecordModel>,
    incoming: Seq<RecordModel>,
    f: Seq<char>,
)
    ensures
        ingest_result(existing, incoming, f).len() >= existing.len(),
        forall|i: int|
            0 <= i < existing.len() ==> #[trigger] ingest_result(existing, incoming, f)[i]
                == existing[i],
{
}

/// Batch atomicity: when ingest appends, what it appends is exactly the
/// whole lender-filtered batch, in batch order.
pub proof fn lemma_ingest_batch_atomic(
    existing: Seq<RecordModel>,
    incoming: Seq<RecordModel>,
    f: Seq<char>,
)
    requires
        ingest_appends(existing, incoming),
    ensures
        ingest_result(existing, incoming, f) == existing + lender_filtered(incoming, f),
        ingest_result(existing, incoming, f).skip(existing.len() as int) == lender_filtered(
            incoming,
            f,
        ),
        lender_filtered(incoming, f).len() == count_matching(incoming, f),
{
    lemma_filtered_matches(incoming, f);
    assert((existing + lender_filtered(incoming, f)).skip(existing.len() as int)
        =~= lender_filtered(incoming, f));
}

/// Idempotent ingest: running the same batch again on the result of an
/// ingest appends nothing and leaves the store unchanged.
///
/// The one family of inputs left out: a first run that appends without any
/// appended record carrying the batch's date (a batch whose lender-matching
/// records all differ in date from its first record, or match nothing at
/// all). There the store gains no record of the batch's date, so a re-run
/// appends again.
pub proof fn lemma_ingest_idempotent(
    existing: Seq<RecordModel>,
    incoming: Seq<RecordModel>,
    f: Seq<char>,
)
    requires
        ingest_appends(existing, incoming) ==> has_record_dated(
            lender_filtered(incoming, f),
            incoming[0].current_as_of_date.spec_date(),
        ),
    ensures
        !ingest_appends(ingest_result(existing, incoming, f), incoming),
        ingest_result(ingest_result(existing, incoming, f), incoming, f) == ingest_result(
            existing,
            incoming,
            f,
        ),
{
    if incoming.len() == 0 {
        return ;
    }
    let d = incoming[0].current_as_of_date.spec_date();
    if ingest_appends(existing, incoming) {
        let s1 = existing + lender_filtered(incoming, f);
        let j = choose|j: int|
            0 <= j < lender_filtered(incoming, f).len()
                && #[trigger] lender_filtered(incoming, f)[j].current_as_of_date.spec_date() == d;
        assert(s1[existing.len() + j].current_as_of_date.spec_date() == d);
        assert(has_record_dated(s1, d));
    }
}

} // verus!
