//! Series extraction: filtering the history by term and loan type and
//! projecting to (date, value) pairs.

use vstd::prelude::*;
use crate::record::{Date, LendingRates, LoanType, RecordModel, ValueField};

verus! {

/// Whether a record belongs to the series for `term` and `loan_type`.
pub open spec fn matches_terms(r: RecordModel, term: u8, loan_type: LoanType) -> bool {
    r.term == term && r.loan_type == loan_type
}

/// The value a series takes from a record.
pub open spec fn field_of(r: RecordModel, field: ValueField) -> u32 {
    match field {
        ValueField::Rate => r.rate,
        ValueField::Apr => r.apr,
    }
}

/// The subsequence of `rs` matching `term` and `loan_type`, in order.
pub open spec fn term_filtered(rs: Seq<RecordModel>, term: u8, loan_type: LoanType) -> Seq<
    RecordModel,
>
    decreases rs.len(),
{
    if rs.len() == 0 {
        Seq::empty()
    } else if matches_terms(rs.last(), term, loan_type) {
        term_filtered(rs.drop_last(), term, loan_type).push(rs.last())
    } else {
        term_filtered(rs.drop_last(), term, loan_type)
    }
}

/// How many records of `rs` match `term` and `loan_type`.
pub open spec fn count_terms(rs: Seq<RecordModel>, term: u8, loan_type: LoanType) -> int
    decreases rs.len(),
{
    if rs.len() == 0 {
        0
    } else if matches_terms(rs.last(), term, loan_type) {
        count_terms(rs.drop_last(), term, loan_type) + 1
    } else {
        count_terms(rs.drop_last(), term, loan_type)
    }
}

/// The series extracted from `rs` for `term` and `loan_type`: one
/// (calendar date, value) pair per matching record, in input order.
pub open spec fn extract_spec(
    rs: Seq<RecordModel>,
    term: u8,
    loan_type: LoanType,
    field: ValueField,
) -> Seq<(Date, u32)>
    decreases rs.len(),
{
    if rs.len() == 0 {
        Seq::empty()
    } else if matches_terms(rs.last(), term, loan_type) {
        extract_spec(rs.drop_last(), term, loan_type, field).push(
            (rs.last().current_as_of_date.spec_date(), field_of(rs.last(), field)),
        )
    } else {
        extract_spec(rs.drop_last(), term, loan_type, field)
    }
}

/// Derive one chart line from the full history: the records with the given
/// term and loan type, each projected to its calendar date and the chosen
/// value field, input order preserved (no re-sort).
pub fn extract(
    records: &Vec<LendingRates>,
    term: u8,
    loan_type: LoanType,
    field: ValueField,
) -> (out: Vec<(Date, u32)>)
    ensures
        out@ == extract_spec(records.deep_view(), term, loan_type, field),
{
    let ghost rs: Seq<RecordModel> = records.deep_view();
    let mut out: Vec<(Date, u32)> = Vec::new();
    let mut i: usize = 0;
    proof {
        assert(rs.take(0) =~= Seq::<RecordModel>::empty());
    }
    while i < records.len()
        invariant
            i <= records.len(),
            rs == records.deep_view(),
            rs.len() == records@.len(),
            out@ == extract_spec(rs.take(i as int), term, loan_type, field),
        decreases records.len() - i,
    {
        let ghost k = i as int;
        proof {
            assert(rs[k] == records@[k].deep_view());
            assert(rs.take(k + 1).drop_last() =~= rs.take(k));
            assert(rs.take(k + 1).last() == rs[k]);
        }
        let r = &records[i];
        if r.term == term && r.loan_type == loan_type {
            let value = match field {
                ValueField::Rate => r.rate,
                ValueField::Apr => r.apr,
            };
            out.push((r.current_as_of_date.date(), value));
        }
        i += 1;
    }
    proof {
        assert(rs.take(rs.len() as int) =~= rs);
    }
    out
}

/// Extraction filter correctness: the pairs of an extracted series
/// correspond one to one, in order, to the records matching the term and
/// loan type, and there are exactly as many pairs as matching records.
pub proof fn lemma_extract_filter_correctness(
    rs: Seq<RecordModel>,
    term: u8,
    loan_type: LoanType,
    field: ValueField,
)
    ensures
        extract_spec(rs, term, loan_type, field).len() == term_filtered(rs, term, loan_type).len(),
        term_filtered(rs, term, loan_type).len() == count_terms(rs, term, loan_type),
        forall|i: int|
            0 <= i < term_filtered(rs, term, loan_type).len() ==> matches_terms(
                #[trigger] term_filtered(rs, term, loan_type)[i],
                term,
                loan_type,
            ),
        forall|i: int|
            0 <= i < extract_spec(rs, term, loan_type, field).len()
                ==> #[trigger] extract_spec(rs, term, loan_type, field)[i] == (
            term_filtered(rs, term, loan_type)[i].current_as_of_date.spec_date(),
            field_of(term_filtered(rs, term, loan_type)[i], field),
            ),
    decreases rs.len(),
{
    if rs.len() > 0 {
        lemma_extract_filter_correctness(rs.drop_last(), term, loan_type, field);
    }
}

} // verus!
