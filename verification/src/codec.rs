//! The storage format: a JSON array of record objects, one fixed canonical
//! shape, written and read by this module. `serialize_rates` emits it,
//! `deserialize_rates` reads it back, and `lemma_round_trip` proves that
//! reading what was written yields the records unchanged, field for field,
//! date text included.

use vstd::prelude::*;
use crate::record::{DateTime, LendingRates, LoanType, RecordModel, RateError, lender_char_ok,
    lender_ok};

verus! {

pub open spec fn is_digit(b: u8) -> bool {
    48 <= b <= 57
}

/// The decimal digits of `n`, most significant first, no leading zeros.
pub open spec fn ser_u32_dec(n: u32) -> Seq<u8>
    decreases n,
{
    if n < 10 {
        seq![(48 + n) as u8]
    } else {
        ser_u32_dec(n / 10).push((48 + n % 10) as u8)
    }
}

/// Two decimal digits, zero padded; `n` must be below 100.
pub open spec fn ser_pad2(n: u8) -> Seq<u8> {
    seq![(48 + n / 10) as u8, (48 + n % 10) as u8]
}

/// Four decimal digits, zero padded; `n` must be below 10000.
pub open spec fn ser_pad4(n: u16) -> Seq<u8> {
    seq![
        (48 + n / 1000) as u8,
        (48 + (n / 100) % 10) as u8,
        (48 + (n / 10) % 10) as u8,
        (48 + n % 10) as u8,
    ]
}

/// A value in thousandths, written as a decimal number with exactly three
/// fraction digits (3990 becomes `3.990`).
pub open spec fn ser_fixed(n: u32) -> Seq<u8> {
    ser_u32_dec(n / 1000) + seq![
        46u8,
        (48 + (n % 1000) / 100) as u8,
        (48 + (n % 100) / 10) as u8,
        (48 + n % 10) as u8,
    ]
}

/// A datetime in the fixed `YYYY-MM-DDTHH:MM:SS` format, 19 bytes.
pub open spec fn ser_date(d: DateTime) -> Seq<u8> {
    ser_pad4(d.year) + seq![45u8] + ser_pad2(d.month) + seq![45u8] + ser_pad2(d.day) + seq![84u8]
        + ser_pad2(d.hour) + seq![58u8] + ser_pad2(d.minute) + seq![58u8] + ser_pad2(d.second)
}

pub open spec fn tok_open() -> Seq<u8> {
    seq![123u8, 34u8, 108u8, 101u8, 110u8, 100u8, 101u8, 114u8, 34u8, 58u8]
}

pub open spec fn tok_term() -> Seq<u8> {
    seq![44u8, 34u8, 116u8, 101u8, 114u8, 109u8, 34u8, 58u8]
}

pub open spec fn tok_apr() -> Seq<u8> {
    seq![44u8, 34u8, 97u8, 112u8, 114u8, 34u8, 58u8]
}

pub open spec fn tok_points() -> Seq<u8> {
    seq![
        44u8, 34u8, 100u8, 105u8, 115u8, 99u8, 111u8, 117u8, 110u8, 116u8, 80u8, 111u8, 105u8, 110u8, 116u8,
        115u8, 34u8, 58u8,
    ]
}

pub open spec fn tok_date() -> Seq<u8> {
    seq![
        44u8, 34u8, 99u8, 117u8, 114u8, 114u8, 101u8, 110u8, 116u8, 65u8, 115u8, 79u8, 102u8, 68u8, 97u8,
        116u8, 101u8, 34u8, 58u8, 34u8,
    ]
}

pub open spec fn tok_loan_type() -> Seq<u8> {
    seq![34u8, 44u8, 34u8, 108u8, 111u8, 97u8, 110u8, 84u8, 121u8, 112u8, 101u8, 34u8, 58u8, 34u8]
}

pub open spec fn tok_rate() -> Seq<u8> {
    seq![34u8, 44u8, 34u8, 114u8, 97u8, 116u8, 101u8, 34u8, 58u8]
}

pub open spec fn tok_purchase() -> Seq<u8> {
    seq![112u8, 117u8, 114u8, 99u8, 104u8, 97u8, 115u8, 101u8]
}

pub open spec fn tok_refinance() -> Seq<u8> {
    seq![114u8, 101u8, 102u8, 105u8, 110u8, 97u8, 110u8, 99u8, 101u8]
}

pub open spec fn tok_null() -> Seq<u8> {
    seq![110u8, 117u8, 108u8, 108u8]
}

/// The lender field: `null`, or the name in double quotes.
pub open spec fn ser_lender(l: Option<Seq<char>>) -> Seq<u8> {
    match l {
        None => tok_null(),
        Some(cs) => seq![34u8] + cs.map(|i: int, c: char| c as u8) + seq![34u8],
    }
}

pub open spec fn ser_loan_type(t: LoanType) -> Seq<u8> {
    match t {
        LoanType::Purchase => tok_purchase(),
        LoanType::Refinance => tok_refinance(),
    }
}

/// One record as one JSON object, fields in one fixed order.
pub open spec fn ser_record(r: RecordModel) -> Seq<u8> {
    tok_open() + ser_lender(r.lender) + tok_term() + ser_u32_dec(r.term as u32) + tok_apr()
        + ser_fixed(r.apr) + tok_points() + ser_fixed(r.discount_points) + tok_date() + ser_date(
        r.current_as_of_date,
    ) + tok_loan_type() + ser_loan_type(r.loan_type) + tok_rate() + ser_fixed(r.rate) + seq![125u8]
}

/// The records joined with commas.
pub open spec fn ser_inner(rs: Seq<RecordModel>) -> Seq<u8>
    decreases rs.len(),
{
    if rs.len() == 0 {
        Seq::empty()
    } else if rs.len() == 1 {
        ser_record(rs[0])
    } else {
        ser_record(rs[0]) + seq![44u8] + ser_inner(rs.drop_first())
    }
}

/// The whole store: a JSON array of the records.
pub open spec fn ser_records(rs: Seq<RecordModel>) -> Seq<u8> {
    seq![91u8] + ser_inner(rs) + seq![93u8]
}


fn push_tok_open(out: &mut Vec<u8>)
    ensures
        final(out)@ == old(out)@ + tok_open(),
{
    out.push(123u8);
    out.push(34u8);
    out.push(108u8);
    out.push(101u8);
    out.push(110u8);
    out.push(100u8);
    out.push(101u8);
    out.push(114u8);
    out.push(34u8);
    out.push(58u8);
    proof {
        assert(out@ =~= old(out)@ + tok_open());
    }
}

fn push_tok_term(out: &mut Vec<u8>)
    ensures
        final(out)@ == old(out)@ + tok_term(),
{
    out.push(44u8);
    out.push(34u8);
    out.push(116u8);
    out.push(101u8);
    out.push(114u8);
    out.push(109u8);
    out.push(34u8);
    out.push(58u8);
    proof {
        assert(out@ =~= old(out)@ + tok_term());
    }
}

fn push_tok_apr(out: &mut Vec<u8>)
    ensures
        final(out)@ == old(out)@ + tok_apr(),
{
    out.push(44u8);
    out.push(34u8);
    out.push(97u8);
    out.push(112u8);
    out.push(114u8);
    out.push(34u8);
    out.push(58u8);
    proof {
        assert(out@ =~= old(out)@ + tok_apr());
    }
}

fn push_tok_points(out: &mut Vec<u8>)
    ensures
        final(out)@ == old(out)@ + tok_points(),
{
    out.push(44u8);
    out.push(34u8);
    out.push(100u8);
    out.push(105u8);
    out.push(115u8);
    out.push(99u8);
    out.push(111u8);
    out.push(117u8);
    out.push(110u8);
    out.push(116u8);
    out.push(80u8);
    out.push(111u8);
    out.push(105u8);
    out.push(110u8);
    out.push(116u8);
    out.push(115u8);
    out.push(34u8);
    out.push(58u8);
    proof {
        assert(out@ =~= old(out)@ + tok_points());
    }
}

fn push_tok_date(out: &mut Vec<u8>)
    ensures
        final(out)@ == old(out)@ + tok_date(),
{
    out.push(44u8);
    out.push(34u8);
    out.push(99u8);
    out.push(117u8);
    out.push(114u8);
    out.push(114u8);
    out.push(101u8);
    out.push(110u8);
    out.push(116u8);
    out.push(65u8);
    out.push(115u8);
    out.push(79u8);
    out.push(102u8);
    out.push(68u8);
    out.push(97u8);
    out.push(116u8);
    out.push(101u8);
    out.push(34u8);
    out.push(58u8);
    out.push(34u8);
    proof {
        assert(out@ =~= old(out)@ + tok_date());
    }
}

fn push_tok_loan_type(out: &mut Vec<u8>)
    ensures
        final(out)@ == old(out)@ + tok_loan_type(),
{
    out.push(34u8);
    out.push(44u8);
    out.push(34u8);
    out.push(108u8);
    out.push(111u8);
    out.push(97u8);
    out.push(110u8);
    out.push(84u8);
    out.push(121u8);
    out.push(112u8);
    out.push(101u8);
    out.push(34u8);
    out.push(58u8);
    out.push(34u8);
    proof {
        assert(out@ =~= old(out)@ + tok_loan_type());
    }
}

fn push_tok_rate(out: &mut Vec<u8>)
    ensures
        final(out)@ == old(out)@ + tok_rate(),
{
    out.push(34u8);
    out.push(44u8);
    out.push(34u8);
    out.push(114u8);
    out.push(97u8);
    out.push(116u8);
    out.push(101u8);
    out.push(34u8);
    out.push(58u8);
    proof {
        assert(out@ =~= old(out)@ + tok_rate());
    }
}

fn push_tok_purchase(out: &mut Vec<u8>)
    ensures
        final(out)@ == old(out)@ + tok_purchase(),
{
    out.push(112u8);
    out.push(117u8);
    out.push(114u8);
    out.push(99u8);
    out.push(104u8);
    out.push(97u8);
    out.push(115u8);
    out.push(101u8);
    proof {
        assert(out@ =~= old(out)@ + tok_purchase());
    }
}

fn push_tok_refinance(out: &mut Vec<u8>)
    ensures
        final(out)@ == old(out)@ + tok_refinance(),
{
    out.push(114u8);
    out.push(101u8);
    out.push(102u8);
    out.push(105u8);
    out.push(110u8);
    out.push(97u8);
    out.push(110u8);
    out.push(99u8);
    out.push(101u8);
    proof {
        assert(out@ =~= old(out)@ + tok_refinance());
    }
}

fn push_tok_null(out: &mut Vec<u8>)
    ensures
        final(out)@ == old(out)@ + tok_null(),
{
    out.push(110u8);
    out.push(117u8);
    out.push(108u8);
    out.push(108u8);
    proof {
        assert(out@ =~= old(out)@ + tok_null());
    }
}

fn push_u32_dec(out: &mut Vec<u8>, n: u32)
    ensures
        final(out)@ == old(out)@ + ser_u32_dec(n),
    decreases n,
{
    if n < 10 {
        out.push((48 + n) as u8);
        proof {
            assert(out@ =~= old(out)@ + ser_u32_dec(n));
        }
    } else {
        push_u32_dec(out, n / 10);
        out.push((48 + n % 10) as u8);
        proof {
            assert(out@ =~= old(out)@ + ser_u32_dec(n));
        }
    }
}

fn push_pad2(out: &mut Vec<u8>, n: u8)
    requires
        n < 100,
    ensures
        final(out)@ == old(out)@ + ser_pad2(n),
{
    out.push(48 + n / 10);
    out.push(48 + n % 10);
    proof {
        assert(out@ =~= old(out)@ + ser_pad2(n));
    }
}

fn push_pad4(out: &mut Vec<u8>, n: u16)
    requires
        n < 10000,
    ensures
        final(out)@ == old(out)@ + ser_pad4(n),
{
    out.push((48 + n / 1000) as u8);
    out.push((48 + (n / 100) % 10) as u8);
    out.push((48 + (n / 10) % 10) as u8);
    out.push((48 + n % 10) as u8);
    proof {
        assert(out@ =~= old(out)@ + ser_pad4(n));
    }
}

fn push_fixed(out: &mut Vec<u8>, n: u32)
    ensures
        final(out)@ == old(out)@ + ser_fixed(n),
{
    push_u32_dec(out, n / 1000);
    out.push(46u8);
    out.push((48 + (n % 1000) / 100) as u8);
    out.push((48 + (n % 100) / 10) as u8);
    out.push((48 + n % 10) as u8);
    proof {
        assert(out@ =~= old(out)@ + ser_fixed(n));
    }
}

fn push_date(out: &mut Vec<u8>, d: &DateTime)
    requires
        d.valid(),
    ensures
        final(out)@ == old(out)@ + ser_date(*d),
{
    push_pad4(out, d.year);
    out.push(45u8);
    push_pad2(out, d.month);
    out.push(45u8);
    push_pad2(out, d.day);
    out.push(84u8);
    push_pad2(out, d.hour);
    out.push(58u8);
    push_pad2(out, d.minute);
    out.push(58u8);
    push_pad2(out, d.second);
    proof {
        assert(out@ =~= old(out)@ + ser_date(*d));
    }
}

fn push_lender(out: &mut Vec<u8>, l: &Option<String>)
    requires
        match l.deep_view() {
            Some(cs) => lender_ok(cs),
            None => true,
        },
    ensures
        final(out)@ == old(out)@ + ser_lender(l.deep_view()),
{
    match l {
        None => {
            push_tok_null(out);
        },
        Some(name) => {
            let ghost cs: Seq<char> = name@;
            proof {
                vstd::utf8::is_ascii_chars_encode_utf8(cs);
            }
            out.push(34u8);
            let bs = name.as_str().as_bytes();
            let ghost base = out@;
            let mut i: usize = 0;
            while i < bs.len()
                invariant
                    i <= bs@.len(),
                    bs@.len() == cs.len(),
                    forall|k: int| 0 <= k < cs.len() ==> #[trigger] bs@[k] == cs[k] as u8,
                    out@ == base + bs@.take(i as int),
                decreases bs@.len() - i,
            {
                let ghost k = i as int;
                proof {
                    assert(bs@.take(k + 1).drop_last() =~= bs@.take(k));
                    assert(bs@.take(k + 1).last() == bs@[k]);
                }
                let b = bs[i];
                out.push(b);
                proof {
                    assert(out@ =~= base + bs@.take(k + 1));
                }
                i += 1;
            }
            out.push(34u8);
            proof {
                assert(bs@.take(bs@.len() as int) =~= bs@);
                assert(bs@ =~= cs.map(|i: int, c: char| c as u8));
                assert(out@ =~= old(out)@ + ser_lender(l.deep_view()));
            }
        },
    }
}

#[verifier::rlimit(60)]
fn push_record(out: &mut Vec<u8>, r: &LendingRates)
    requires
        r@.valid(),
    ensures
        final(out)@ == old(out)@ + ser_record(r@),
{
    push_tok_open(out);
    push_lender(out, &r.lender);
    push_tok_term(out);
    push_u32_dec(out, r.term as u32);
    push_tok_apr(out);
    push_fixed(out, r.apr);
    push_tok_points(out);
    push_fixed(out, r.discount_points);
    push_tok_date(out);
    push_date(out, &r.current_as_of_date);
    push_tok_loan_type(out);
    match r.loan_type {
        LoanType::Purchase => push_tok_purchase(out),
        LoanType::Refinance => push_tok_refinance(out),
    }
    push_tok_rate(out);
    push_fixed(out, r.rate);
    out.push(125u8);
    proof {
        assert(out@ =~= old(out)@ + ser_record(r@));
    }
}

/// Appending one record to a joined sequence appends a comma and the record
/// unless the sequence was empty.
proof fn lemma_inner_snoc(s: Seq<RecordModel>, r: RecordModel)
    ensures
        ser_inner(s.push(r)) == if s.len() == 0 {
            ser_record(r)
        } else {
            ser_inner(s) + seq![44u8] + ser_record(r)
        },
    decreases s.len(),
{
    if s.len() == 0 {
        assert(s.push(r).len() == 1);
        assert(s.push(r)[0] == r);
    } else {
        assert(s.push(r)[0] == s[0]);
        assert(s.push(r).drop_first() =~= s.drop_first().push(r));
        lemma_inner_snoc(s.drop_first(), r);
        if s.len() == 1 {
            assert(ser_inner(s) == ser_record(s[0]));
            assert(ser_inner(s.push(r)) =~= ser_inner(s) + seq![44u8] + ser_record(r));
        } else {
            assert(ser_inner(s.push(r)) =~= ser_inner(s) + seq![44u8] + ser_record(r));
        }
    }
}

/// Write the whole store in the storage format.
pub fn serialize_rates(records: &Vec<LendingRates>) -> (out: Vec<u8>)
    requires
        forall|i: int|
            0 <= i < records.deep_view().len() ==> (#[trigger] records.deep_view()[i]).valid(),
    ensures
        out@ == ser_records(records.deep_view()),
{
    let ghost rs: Seq<RecordModel> = records.deep_view();
    let mut out: Vec<u8> = Vec::new();
    out.push(91u8);
    let mut i: usize = 0;
    proof {
        assert(out@ =~= seq![91u8]);
    }
    while i < records.len()
        invariant
            i <= records@.len(),
            rs == records.deep_view(),
            rs.len() == records@.len(),
            forall|k: int| 0 <= k < rs.len() ==> (#[trigger] rs[k]).valid(),
            i == 0 ==> out@ == seq![91u8],
            i > 0 ==> out@ == seq![91u8] + ser_inner(rs.take(i as int)),
        decreases records@.len() - i,
    {
        let ghost k = i as int;
        proof {
            assert(rs[k] == records@[k]@);
            assert(rs.take(k + 1) =~= rs.take(k).push(rs[k]));
            lemma_inner_snoc(rs.take(k), rs[k]);
        }
        if i > 0 {
            out.push(44u8);
        }
        push_record(&mut out, &records[i]);
        proof {
            if k == 0 {
                assert(rs.take(1).len() == 1);
                assert(rs.take(1)[0] == rs[0]);
                assert(out@ =~= seq![91u8] + ser_inner(rs.take(1)));
            } else {
                assert(out@ =~= seq![91u8] + ser_inner(rs.take(k + 1)));
            }
        }
        i += 1;
    }
    out.push(93u8);
    proof {
        if rs.len() == 0 {
            assert(out@ =~= ser_records(rs));
        } else {
            assert(rs.take(rs.len() as int) =~= rs);
            assert(out@ =~= ser_records(rs));
        }
    }
    out
}


/// Whether `tok` occurs in `s` at position `i`.
pub open spec fn match_at(s: Seq<u8>, i: int, tok: Seq<u8>) -> bool {
    0 <= i && i + tok.len() <= s.len() && s.subrange(i, i + tok.len()) == tok
}

/// A byte the storage format accepts inside a lender name.
pub open spec fn lender_byte_ok(b: u8) -> bool {
    32 <= b <= 126 && b != 34 && b != 92
}

/// Read decimal digits from position `i`, extending the accumulator `acc`,
/// until the first non-digit; fails on `u32` overflow.
pub open spec fn scan_digits(s: Seq<u8>, i: int, acc: u32) -> Option<(u32, int)>
    decreases s.len() - i,
{
    if 0 <= i < s.len() && is_digit(s[i]) {
        let d = (s[i] - 48) as u32;
        if acc <= (0xffff_ffffu32 - d) / 10 {
            scan_digits(s, i + 1, (acc * 10 + d) as u32)
        } else {
            None
        }
    } else {
        Some((acc, i))
    }
}

/// Read a decimal number: at least one digit, greedily.
pub open spec fn parse_u32_at(s: Seq<u8>, i: int) -> Option<(u32, int)> {
    if 0 <= i < s.len() && is_digit(s[i]) {
        scan_digits(s, i, 0)
    } else {
        None
    }
}

/// Read a decimal number with a point and exactly three fraction digits,
/// as a value in thousandths.
pub open spec fn parse_fixed_at(s: Seq<u8>, i: int) -> Option<(u32, int)> {
    match parse_u32_at(s, i) {
        None => None,
        Some((ip, j)) => {
            if j + 4 <= s.len() && s[j] == 46 && is_digit(s[j + 1]) && is_digit(s[j + 2])
                && is_digit(s[j + 3]) {
                let f = ((s[j + 1] - 48) as u32 * 100 + (s[j + 2] - 48) as u32 * 10 + (s[j + 3]
                    - 48) as u32) as u32;
                if ip <= (0xffff_ffffu32 - f) / 1000 {
                    Some(((ip * 1000 + f) as u32, j + 4))
                } else {
                    None
                }
            } else {
                None
            }
        },
    }
}

/// Read exactly two digits.
pub open spec fn parse_pad2_at(s: Seq<u8>, i: int) -> Option<u8> {
    if 0 <= i && i + 2 <= s.len() && is_digit(s[i]) && is_digit(s[i + 1]) {
        Some(((s[i] - 48) * 10 + (s[i + 1] - 48)) as u8)
    } else {
        None
    }
}

/// Read exactly four digits.
pub open spec fn parse_pad4_at(s: Seq<u8>, i: int) -> Option<u16> {
    if 0 <= i && i + 4 <= s.len() && is_digit(s[i]) && is_digit(s[i + 1]) && is_digit(s[i + 2])
        && is_digit(s[i + 3]) {
        Some(((s[i] - 48) as u16 * 1000 + (s[i + 1] - 48) as u16 * 100 + (s[i + 2] - 48) as u16
            * 10 + (s[i + 3] - 48) as u16) as u16)
    } else {
        None
    }
}

/// Read a datetime in the fixed `YYYY-MM-DDTHH:MM:SS` format, 19 bytes,
/// and require it to denote a representable calendar datetime.
pub open spec fn parse_date_at(s: Seq<u8>, i: int) -> Option<(DateTime, int)> {
    if 0 <= i && i + 19 <= s.len() && s[i + 4] == 45 && s[i + 7] == 45 && s[i + 10] == 84 && s[i
        + 13] == 58 && s[i + 16] == 58 {
        match (parse_pad4_at(s, i), parse_pad2_at(s, i + 5), parse_pad2_at(s, i + 8), parse_pad2_at(
            s,
            i + 11,
        ), parse_pad2_at(s, i + 14), parse_pad2_at(s, i + 17)) {
            (Some(y), Some(mo), Some(da), Some(h), Some(mi), Some(se)) => {
                let d = DateTime {
                    year: y,
                    month: mo,
                    day: da,
                    hour: h,
                    minute: mi,
                    second: se,
                };
                if d.valid() {
                    Some((d, i + 19))
                } else {
                    None
                }
            },
            _ => None,
        }
    } else {
        None
    }
}

/// Read the inside of a quoted lender name up to the closing quote.
pub open spec fn scan_string(s: Seq<u8>, i: int) -> Option<(Seq<char>, int)>
    decreases s.len() - i,
{
    if 0 <= i < s.len() {
        if s[i] == 34 {
            Some((Seq::empty(), i + 1))
        } else if lender_byte_ok(s[i]) {
            match scan_string(s, i + 1) {
                Some((cs, j)) => Some((seq![s[i] as char] + cs, j)),
                None => None,
            }
        } else {
            None
        }
    } else {
        None
    }
}

/// Read the lender field: `null`, or a quoted name.
pub open spec fn parse_lender_at(s: Seq<u8>, i: int) -> Option<(Option<Seq<char>>, int)> {
    if match_at(s, i, tok_null()) {
        Some((None, i + 4))
    } else if 0 <= i < s.len() && s[i] == 34 {
        match scan_string(s, i + 1) {
            Some((cs, j)) => Some((Some(cs), j)),
            None => None,
        }
    } else {
        None
    }
}

/// Read a loan type name.
pub open spec fn parse_loan_type_at(s: Seq<u8>, i: int) -> Option<(LoanType, int)> {
    if match_at(s, i, tok_purchase()) {
        Some((LoanType::Purchase, i + tok_purchase().len()))
    } else if match_at(s, i, tok_refinance()) {
        Some((LoanType::Refinance, i + tok_refinance().len()))
    } else {
        None
    }
}

/// Read one record object at position `i`; the result is well formed by
/// construction.
pub open spec fn parse_record_at(s: Seq<u8>, i: int) -> Option<(RecordModel, int)> {
    if !match_at(s, i, tok_open()) {
        None
    } else {
        match parse_lender_at(s, i + tok_open().len()) {
            None => None,
            Some((lender, i2)) => {
                if !match_at(s, i2, tok_term()) {
                    None
                } else {
                    match parse_u32_at(s, i2 + tok_term().len()) {
                        None => None,
                        Some((term32, i3)) => {
                            if !(1 <= term32 <= 255) || !match_at(s, i3, tok_apr()) {
                                None
                            } else {
                                match parse_fixed_at(s, i3 + tok_apr().len()) {
                                    None => None,
                                    Some((apr, i4)) => {
                                        if !match_at(s, i4, tok_points()) {
                                            None
                                        } else {
                                            match parse_fixed_at(s, i4 + tok_points().len()) {
                                                None => None,
                                                Some((dp, i5)) => parse_record_tail(
                                                    s,
                                                    i5,
                                                    lender,
                                                    term32,
                                                    apr,
                                                    dp,
                                                ),
                                            }
                                        }
                                    },
                                }
                            }
                        },
                    }
                }
            },
        }
    }
}

/// The date, loan type and rate fields of a record object, continuing
/// `parse_record_at`.
pub open spec fn parse_record_tail(
    s: Seq<u8>,
    i: int,
    lender: Option<Seq<char>>,
    term32: u32,
    apr: u32,
    dp: u32,
) -> Option<(RecordModel, int)> {
    if !match_at(s, i, tok_date()) {
        None
    } else {
        match parse_date_at(s, i + tok_date().len()) {
            None => None,
            Some((dt, i6)) => {
                if !match_at(s, i6, tok_loan_type()) {
                    None
                } else {
                    match parse_loan_type_at(s, i6 + tok_loan_type().len()) {
                        None => None,
                        Some((lt, i7)) => {
                            if !match_at(s, i7, tok_rate()) {
                                None
                            } else {
                                match parse_fixed_at(s, i7 + tok_rate().len()) {
                                    None => None,
                                    Some((rate, i8)) => {
                                        if i8 < s.len() && s[i8] == 125 {
                                            Some(
                                                (
                                                    RecordModel {
                                                        lender,
                                                        term: term32 as u8,
                                                        apr,
                                                        discount_points: dp,
                                                        current_as_of_date: dt,
                                                        loan_type: lt,
                                                        rate,
                                                    },
                                                    i8 + 1,
                                                ),
                                            )
                                        } else {
                                            None
                                        }
                                    },
                                }
                            }
                        },
                    }
                }
            },
        }
    }
}

/// Read records separated by commas up to the closing bracket.
pub open spec fn parse_more(s: Seq<u8>, i: int) -> Option<(Seq<RecordModel>, int)>
    decreases s.len() - i,
{
    match parse_record_at(s, i) {
        None => None,
        Some((r, j)) => {
            if i < j && j < s.len() {
                if s[j] == 44 {
                    match parse_more(s, j + 1) {
                        Some((rs, k)) => Some((seq![r] + rs, k)),
                        None => None,
                    }
                } else if s[j] == 93 {
                    Some((seq![r], j + 1))
                } else {
                    None
                }
            } else {
                None
            }
        },
    }
}

/// Read a whole store: a bracketed, comma-separated array of record
/// objects spanning the entire input.
pub open spec fn parse_records(s: Seq<u8>) -> Option<Seq<RecordModel>> {
    if s.len() >= 2 && s[0] == 91 {
        if s.len() == 2 && s[1] == 93 {
            Some(Seq::empty())
        } else {
            match parse_more(s, 1) {
                Some((rs, k)) => if k == s.len() {
                    Some(rs)
                } else {
                    None
                },
                None => None,
            }
        }
    } else {
        None
    }
}


/// Splitting a known concatenation at a position into its two parts.
proof fn lemma_split_concat(s: Seq<u8>, i: int, a: Seq<u8>, b: Seq<u8>)
    requires
        0 <= i,
        i + a.len() + b.len() <= s.len(),
        s.subrange(i, i + a.len() + b.len()) == a + b,
    ensures
        s.subrange(i, i + a.len()) == a,
        s.subrange(i + a.len(), i + a.len() + b.len()) == b,
{
    let ab = a + b;
    assert forall|k: int| 0 <= k < a.len() implies s.subrange(i, i + a.len())[k] == a[k] by {
        assert(s.subrange(i, i + ab.len())[k] == ab[k]);
    };
    assert(s.subrange(i, i + a.len()) =~= a);
    assert forall|k: int|
        0 <= k < b.len() implies s.subrange(i + a.len(), i + a.len() + b.len())[k] == b[k] by {
        assert(s.subrange(i, i + ab.len())[a.len() + k] == ab[a.len() + k]);
    };
    assert(s.subrange(i + a.len(), i + a.len() + b.len()) =~= b);
}

/// The digits of a number are digits, and there is at least one.
proof fn lemma_ser_u32_digits(n: u32)
    ensures
        ser_u32_dec(n).len() >= 1,
        forall|k: int| 0 <= k < ser_u32_dec(n).len() ==> is_digit(#[trigger] ser_u32_dec(n)[k]),
    decreases n,
{
    if n >= 10 {
        lemma_ser_u32_digits(n / 10);
    }
}

/// Ten to the number of digits of `n`.
pub open spec fn pow10len(n: u32) -> int
    decreases n,
{
    if n < 10 {
        10
    } else {
        10 * pow10len(n / 10)
    }
}

proof fn lemma_pow10len_pos(n: u32)
    ensures
        pow10len(n) >= 10,
    decreases n,
{
    if n >= 10 {
        lemma_pow10len_pos(n / 10);
    }
}

/// Scanning over the digits of `n` extends the accumulator by `n` shifted
/// past those digits.
proof fn lemma_scan_ser(s: Seq<u8>, i: int, n: u32, acc: u32)
    requires
        match_at(s, i, ser_u32_dec(n)),
        acc * pow10len(n) + n <= 0xffff_ffffu32,
    ensures
        scan_digits(s, i, acc) == scan_digits(
            s,
            i + ser_u32_dec(n).len(),
            (acc * pow10len(n) + n) as u32,
        ),
    decreases n,
{
    lemma_pow10len_pos(n);
    if n < 10 {
        assert(s.subrange(i, i + 1)[0] == ser_u32_dec(n)[0]);
        assert(s[i] == (48 + n) as u8);
        let d = (s[i] - 48) as u32;
        assert(d == n);
        assert(acc * 10 + n <= 0xffff_ffffu32);
        assert(acc <= (0xffff_ffffu32 - d) / 10) by (nonlinear_arith)
            requires
                d == n,
                acc * 10 + n <= 0xffff_ffffu32,
        ;
        assert(scan_digits(s, i, acc) == scan_digits(s, i + 1, (acc * 10 + d) as u32));
    } else {
        let hi = n / 10;
        let lo = n % 10;
        let a = ser_u32_dec(hi);
        let lp = a.len() as int;
        let p = pow10len(hi);
        assert(ser_u32_dec(n) == a.push((48 + lo) as u8));
        assert(a + seq![(48 + lo) as u8] =~= a.push((48 + lo) as u8));
        lemma_split_concat(s, i, a, seq![(48 + lo) as u8]);
        assert(s.subrange(i + lp, i + lp + 1)[0] == (48 + lo) as u8);
        assert(s[i + lp] == (48 + lo) as u8);
        lemma_pow10len_pos(hi);
        assert(pow10len(n) == 10 * p);
        assert(n == 10 * hi + lo);
        assert(acc * (10 * p) + (10 * hi + lo) <= 0xffff_ffffu32);
        assert((acc * p + hi) * 10 + lo == acc * (10 * p) + (10 * hi + lo)) by (nonlinear_arith);
        assert(acc * p + hi >= 0) by (nonlinear_arith)
            requires
                acc >= 0,
                p >= 10,
                hi >= 0,
        ;
        assert(acc * p + hi <= 0xffff_ffffu32);
        lemma_scan_ser(s, i, hi, acc);
        let mid = (acc * p + hi) as u32;
        assert(scan_digits(s, i, acc) == scan_digits(s, i + lp, mid));
        let d = (s[i + lp] - 48) as u32;
        assert(d == lo);
        assert(mid * 10 + d <= 0xffff_ffffu32);
        assert(mid <= (0xffff_ffffu32 - d) / 10) by (nonlinear_arith)
            requires
                mid * 10 + d <= 0xffff_ffffu32,
        ;
        assert(is_digit(s[i + lp]));
        assert(scan_digits(s, i + lp, mid) == scan_digits(s, i + lp + 1, (mid * 10 + d) as u32));
        assert((mid * 10 + d) as u32 == (acc * pow10len(n) + n) as u32);
        assert(i + lp + 1 == i + ser_u32_dec(n).len());
    }
}

/// Parsing a serialized number, with no digit following, yields the number.
proof fn lemma_parse_u32_ser(s: Seq<u8>, i: int, n: u32)
    requires
        match_at(s, i, ser_u32_dec(n)),
        i + ser_u32_dec(n).len() == s.len() || !is_digit(s[i + ser_u32_dec(n).len()]),
    ensures
        parse_u32_at(s, i) == Some((n, i + ser_u32_dec(n).len())),
{
    lemma_ser_u32_digits(n);
    assert(s.subrange(i, i + ser_u32_dec(n).len())[0] == ser_u32_dec(n)[0]);
    assert(is_digit(s[i]));
    lemma_pow10len_pos(n);
    assert(0 * pow10len(n) + n <= 0xffff_ffffu32) by (nonlinear_arith);
    lemma_scan_ser(s, i, n, 0);
    let j = i + ser_u32_dec(n).len();
    assert((0 * pow10len(n) + n) as u32 == n) by (nonlinear_arith);
    assert(scan_digits(s, j, n) == Some((n, j)));
}

/// Parsing a serialized fixed-point value yields the value.
proof fn lemma_parse_fixed_ser(s: Seq<u8>, i: int, n: u32)
    requires
        match_at(s, i, ser_fixed(n)),
    ensures
        parse_fixed_at(s, i) == Some((n, i + ser_fixed(n).len())),
{
    let a = ser_u32_dec(n / 1000);
    let b = seq![
        46u8,
        (48 + (n % 1000) / 100) as u8,
        (48 + (n % 100) / 10) as u8,
        (48 + n % 10) as u8,
    ];
    assert(ser_fixed(n) == a + b);
    lemma_split_concat(s, i, a, b);
    let j = i + a.len();
    assert(s.subrange(j, j + 4)[0] == b[0]);
    assert(s.subrange(j, j + 4)[1] == b[1]);
    assert(s.subrange(j, j + 4)[2] == b[2]);
    assert(s.subrange(j, j + 4)[3] == b[3]);
    assert(s[j] == 46u8);
    lemma_parse_u32_ser(s, i, n / 1000);
    let d1 = ((n % 1000) / 100) as u32;
    let d2 = ((n % 100) / 10) as u32;
    let d3 = (n % 10) as u32;
    assert((s[j + 1] - 48) as u32 == d1);
    assert((s[j + 2] - 48) as u32 == d2);
    assert((s[j + 3] - 48) as u32 == d3);
    assert(n % 100 == (n % 1000) % 100);
    assert(n % 10 == (n % 1000) % 10);
    let m = n % 1000;
    assert(d1 * 100 + d2 * 10 + d3 == m);
    let f = (d1 * 100 + d2 * 10 + d3) as u32;
    assert(n / 1000 * 1000 + f == n);
    assert(n / 1000 <= (0xffff_ffffu32 - f) / 1000) by (nonlinear_arith)
        requires
            n / 1000 * 1000 + f == n,
            n <= 0xffff_ffffu32,
            0 <= f < 1000,
    ;
    assert(i + ser_fixed(n).len() == j + 4);
}

/// Parsing two serialized padded digits yields the value.
proof fn lemma_parse_pad2_ser(s: Seq<u8>, i: int, n: u8)
    requires
        n < 100,
        match_at(s, i, ser_pad2(n)),
    ensures
        parse_pad2_at(s, i) == Some(n),
{
    assert(s.subrange(i, i + 2)[0] == ser_pad2(n)[0]);
    assert(s.subrange(i, i + 2)[1] == ser_pad2(n)[1]);
    assert((n / 10) * 10 + n % 10 == n);
}

/// Parsing four serialized padded digits yields the value.
proof fn lemma_parse_pad4_ser(s: Seq<u8>, i: int, n: u16)
    requires
        n < 10000,
        match_at(s, i, ser_pad4(n)),
    ensures
        parse_pad4_at(s, i) == Some(n),
{
    assert(s.subrange(i, i + 4)[0] == ser_pad4(n)[0]);
    assert(s.subrange(i, i + 4)[1] == ser_pad4(n)[1]);
    assert(s.subrange(i, i + 4)[2] == ser_pad4(n)[2]);
    assert(s.subrange(i, i + 4)[3] == ser_pad4(n)[3]);
    assert(n / 100 == (n / 1000) * 10 + (n / 100) % 10);
    assert(n / 10 == (n / 100) * 10 + (n / 10) % 10);
    assert(n == (n / 10) * 10 + n % 10);
    assert((n / 1000) as int * 1000 + ((n / 100) % 10) as int * 100 + ((n / 10) % 10) as int * 10
        + (n % 10) as int == n);
}

/// Parsing a serialized datetime yields the datetime.
proof fn lemma_parse_date_ser(s: Seq<u8>, i: int, d: DateTime)
    requires
        d.valid(),
        match_at(s, i, ser_date(d)),
    ensures
        parse_date_at(s, i) == Some((d, i + 19)),
{
    let p4 = ser_pad4(d.year);
    let s1 = seq![45u8];
    let mo = ser_pad2(d.month);
    let s2 = seq![45u8];
    let da = ser_pad2(d.day);
    let s3 = seq![84u8];
    let ho = ser_pad2(d.hour);
    let s4 = seq![58u8];
    let mi = ser_pad2(d.minute);
    let s5 = seq![58u8];
    let se = ser_pad2(d.second);
    assert(ser_date(d).len() == 19);
    lemma_split_concat(s, i, p4 + s1 + mo + s2 + da + s3 + ho + s4 + mi + s5, se);
    lemma_split_concat(s, i, p4 + s1 + mo + s2 + da + s3 + ho + s4 + mi, s5);
    lemma_split_concat(s, i, p4 + s1 + mo + s2 + da + s3 + ho + s4, mi);
    lemma_split_concat(s, i, p4 + s1 + mo + s2 + da + s3 + ho, s4);
    lemma_split_concat(s, i, p4 + s1 + mo + s2 + da + s3, ho);
    lemma_split_concat(s, i, p4 + s1 + mo + s2 + da, s3);
    lemma_split_concat(s, i, p4 + s1 + mo + s2, da);
    lemma_split_concat(s, i, p4 + s1 + mo, s2);
    lemma_split_concat(s, i, p4 + s1, mo);
    lemma_split_concat(s, i, p4, s1);
    assert(s.subrange(i + 4, i + 5)[0] == 45u8);
    assert(s.subrange(i + 7, i + 8)[0] == 45u8);
    assert(s.subrange(i + 10, i + 11)[0] == 84u8);
    assert(s.subrange(i + 13, i + 14)[0] == 58u8);
    assert(s.subrange(i + 16, i + 17)[0] == 58u8);
    lemma_parse_pad4_ser(s, i, d.year);
    lemma_parse_pad2_ser(s, i + 5, d.month);
    lemma_parse_pad2_ser(s, i + 8, d.day);
    lemma_parse_pad2_ser(s, i + 11, d.hour);
    lemma_parse_pad2_ser(s, i + 14, d.minute);
    lemma_parse_pad2_ser(s, i + 17, d.second);
}

/// Scanning a serialized lender name stops at the closing quote and yields
/// the characters.
proof fn lemma_scan_string_ser(s: Seq<u8>, i: int, cs: Seq<char>)
    requires
        lender_ok(cs),
        0 <= i,
        i + cs.len() + 1 <= s.len(),
        s.subrange(i, i + cs.len()) == cs.map(|k: int, c: char| c as u8),
        s[i + cs.len()] == 34,
    ensures
        scan_string(s, i) == Some((cs, i + cs.len() + 1)),
    decreases cs.len(),
{
    let m = cs.map(|k: int, c: char| c as u8);
    if cs.len() == 0 {
        assert(s[i] == 34);
    } else {
        assert(s.subrange(i, i + cs.len())[0] == m[0]);
        assert(s[i] == cs[0] as u8);
        assert(lender_char_ok(cs[0]));
        assert(lender_byte_ok(s[i]));
        assert(s[i] != 34);
        let cs1 = cs.drop_first();
        assert(lender_ok(cs1));
        assert forall|k: int|
            0 <= k < cs1.len() implies #[trigger] s.subrange(i + 1, i + 1 + cs1.len())[k]
                == cs1.map(|q: int, c: char| c as u8)[k] by {
            assert(s.subrange(i, i + cs.len())[k + 1] == m[k + 1]);
        };
        assert(s.subrange(i + 1, i + 1 + cs1.len()) =~= cs1.map(|q: int, c: char| c as u8));
        lemma_scan_string_ser(s, i + 1, cs1);
        assert(s[i] as char == cs[0]);
        assert(seq![cs[0]] + cs1 =~= cs);
    }
}

/// Parsing a serialized lender field yields the lender.
proof fn lemma_parse_lender_ser(s: Seq<u8>, i: int, l: Option<Seq<char>>)
    requires
        match l {
            Some(cs) => lender_ok(cs),
            None => true,
        },
        match_at(s, i, ser_lender(l)),
    ensures
        parse_lender_at(s, i) == Some((l, i + ser_lender(l).len())),
{
    match l {
        None => {
        },
        Some(cs) => {
            let m = cs.map(|k: int, c: char| c as u8);
            assert(ser_lender(l) == seq![34u8] + m + seq![34u8]);
            lemma_split_concat(s, i, seq![34u8] + m, seq![34u8]);
            lemma_split_concat(s, i, seq![34u8], m);
            assert(s.subrange(i, i + 1)[0] == 34u8);
            assert(s[i] == 34u8);
            assert(s.subrange(i + 1 + m.len(), i + 2 + m.len())[0] == 34u8);
            assert(s[i + 1 + cs.len()] == 34u8);
            if match_at(s, i, tok_null()) {
                assert(s.subrange(i, i + 4)[0] == tok_null()[0]);
                assert(false);
            }
            lemma_scan_string_ser(s, i + 1, cs);
        },
    }
}

/// Parsing a serialized loan type yields the loan type.
proof fn lemma_parse_loan_type_ser(s: Seq<u8>, i: int, t: LoanType)
    requires
        match_at(s, i, ser_loan_type(t)),
    ensures
        parse_loan_type_at(s, i) == Some((t, i + ser_loan_type(t).len())),
{
    match t {
        LoanType::Purchase => {
        },
        LoanType::Refinance => {
            assert(s.subrange(i, i + 9)[0] == tok_refinance()[0]);
            if match_at(s, i, tok_purchase()) {
                assert(s.subrange(i, i + 8)[0] == tok_purchase()[0]);
                assert(false);
            }
        },
    }
}


/// A serialized record is at least as long as its opening token.
proof fn lemma_ser_record_len(r: RecordModel)
    ensures
        ser_record(r).len() >= 10,
{
}

/// Parsing a serialized record yields the record.
#[verifier::rlimit(80)]
#[verifier::spinoff_prover]
proof fn lemma_parse_record_ser(s: Seq<u8>, i: int, r: RecordModel)
    requires
        r.valid(),
        match_at(s, i, ser_record(r)),
    ensures
        parse_record_at(s, i) == Some((r, i + ser_record(r).len())),
{
    let pa = tok_open();
    let pb = ser_lender(r.lender);
    let pc = tok_term();
    let pd = ser_u32_dec(r.term as u32);
    let pe = tok_apr();
    let pf = ser_fixed(r.apr);
    let pg = tok_points();
    let ph = ser_fixed(r.discount_points);
    let pi_ = tok_date();
    let pj = ser_date(r.current_as_of_date);
    let pk = tok_loan_type();
    let pl = ser_loan_type(r.loan_type);
    let pm = tok_rate();
    let pn = ser_fixed(r.rate);
    let po = seq![125u8];
    lemma_split_concat(
        s,
        i,
        pa + pb + pc + pd + pe + pf + pg + ph + pi_ + pj + pk + pl + pm + pn,
        po,
    );
    lemma_split_concat(s, i, pa + pb + pc + pd + pe + pf + pg + ph + pi_ + pj + pk + pl + pm, pn);
    lemma_split_concat(s, i, pa + pb + pc + pd + pe + pf + pg + ph + pi_ + pj + pk + pl, pm);
    lemma_split_concat(s, i, pa + pb + pc + pd + pe + pf + pg + ph + pi_ + pj + pk, pl);
    lemma_split_concat(s, i, pa + pb + pc + pd + pe + pf + pg + ph + pi_ + pj, pk);
    lemma_split_concat(s, i, pa + pb + pc + pd + pe + pf + pg + ph + pi_, pj);
    lemma_split_concat(s, i, pa + pb + pc + pd + pe + pf + pg + ph, pi_);
    lemma_split_concat(s, i, pa + pb + pc + pd + pe + pf + pg, ph);
    lemma_split_concat(s, i, pa + pb + pc + pd + pe + pf, pg);
    lemma_split_concat(s, i, pa + pb + pc + pd + pe, pf);
    lemma_split_concat(s, i, pa + pb + pc + pd, pe);
    lemma_split_concat(s, i, pa + pb + pc, pd);
    lemma_split_concat(s, i, pa + pb, pc);
    lemma_split_concat(s, i, pa, pb);
    let i1 = i + pa.len();
    let i2 = i1 + pb.len();
    let i3 = i2 + pc.len();
    let i4 = i3 + pd.len();
    let i5 = i4 + pe.len();
    let i6 = i5 + pf.len();
    let i7 = i6 + pg.len();
    let i8 = i7 + ph.len();
    let i9 = i8 + pi_.len();
    let i10 = i9 + pj.len();
    let i11 = i10 + pk.len();
    let i12 = i11 + pl.len();
    let i13 = i12 + pm.len();
    let i14 = i13 + pn.len();
    assert(match_at(s, i, tok_open()));
    lemma_parse_lender_ser(s, i1, r.lender);
    assert(match_at(s, i2, tok_term()));
    assert(s.subrange(i4, i5)[0] == pe[0]);
    assert(!is_digit(s[i4]));
    lemma_parse_u32_ser(s, i3, r.term as u32);
    assert(1 <= r.term as u32 <= 255);
    assert(match_at(s, i4, tok_apr()));
    lemma_parse_fixed_ser(s, i5, r.apr);
    assert(match_at(s, i6, tok_points()));
    lemma_parse_fixed_ser(s, i7, r.discount_points);
    assert(match_at(s, i8, tok_date()));
    lemma_parse_date_ser(s, i9, r.current_as_of_date);
    assert(match_at(s, i10, tok_loan_type()));
    lemma_parse_loan_type_ser(s, i11, r.loan_type);
    assert(match_at(s, i12, tok_rate()));
    lemma_parse_fixed_ser(s, i13, r.rate);
    assert(s.subrange(i14, i14 + 1)[0] == 125u8);
    assert(s[i14] == 125u8);
    assert(i14 < s.len());
    assert((r.term as u32) as u8 == r.term);
    assert(parse_record_at(s, i) == Some((r, i14 + 1)));
    assert(i14 + 1 == i + ser_record(r).len());
}


/// Extending a known subrange by the byte that follows it.
proof fn lemma_extend_subrange(s: Seq<u8>, a: int, b: int, t: Seq<u8>)
    requires
        0 <= a,
        a + t.len() == b,
        b < s.len(),
        s.subrange(a, b) == t,
    ensures
        s.subrange(a, b + 1) == t + seq![s[b]],
{
    assert forall|k: int| 0 <= k < t.len() + 1 implies #[trigger] s.subrange(a, b + 1)[k] == (t
        + seq![s[b]])[k] by {
        if k < t.len() {
            assert(s.subrange(a, b)[k] == t[k]);
        }
    };
    assert(s.subrange(a, b + 1) =~= t + seq![s[b]]);
}

/// Parsing serialized records, each followed by a comma or the closing
/// bracket, yields the records.
#[verifier::rlimit(100)]
#[verifier::spinoff_prover]
proof fn lemma_parse_more_ser(s: Seq<u8>, i: int, rs: Seq<RecordModel>)
    requires
        rs.len() >= 1,
        forall|k: int| 0 <= k < rs.len() ==> (#[trigger] rs[k]).valid(),
        0 <= i,
        i + ser_inner(rs).len() + 1 <= s.len(),
        s.subrange(i, i + ser_inner(rs).len() + 1) == ser_inner(rs) + seq![93u8],
    ensures
        parse_more(s, i) == Some((rs, i + ser_inner(rs).len() + 1)),
    decreases rs.len(),
{
    if rs.len() == 1 {
        let rec0 = ser_record(rs[0]);
        assert(ser_inner(rs) == rec0);
        lemma_split_concat(s, i, rec0, seq![93u8]);
        lemma_parse_record_ser(s, i, rs[0]);
        lemma_ser_record_len(rs[0]);
        let j = i + rec0.len();
        assert(s.subrange(j, j + 1)[0] == 93u8);
        assert(s[j] == 93u8);
        assert(i < j && j < s.len());
        assert(seq![rs[0]] =~= rs);
    } else {
        let rec0 = ser_record(rs[0]);
        let rest = rs.drop_first();
        let inner1 = ser_inner(rest);
        assert(ser_inner(rs) == rec0 + seq![44u8] + inner1);
        lemma_split_concat(s, i, rec0 + seq![44u8] + inner1, seq![93u8]);
        lemma_split_concat(s, i, rec0 + seq![44u8], inner1);
        lemma_split_concat(s, i, rec0, seq![44u8]);
        lemma_parse_record_ser(s, i, rs[0]);
        lemma_ser_record_len(rs[0]);
        let j = i + rec0.len();
        assert(s.subrange(j, j + 1)[0] == 44u8);
        assert(s[j] == 44u8);
        let x = i + ser_inner(rs).len();
        assert(s.subrange(i, x + 1)[x - i] == 93u8);
        assert(s[x] == 93u8);
        assert(i < j && j < s.len());
        assert forall|k: int|
            0 <= k < rest.len() implies (#[trigger] rest[k]).valid() by {
            assert(rest[k] == rs[k + 1]);
        };
        lemma_extend_subrange(s, j + 1, j + 1 + inner1.len() as int, inner1);
        assert(j + 1 + inner1.len() == x);
        assert(inner1 + seq![s[x]] =~= inner1 + seq![93u8]);
        lemma_parse_more_ser(s, j + 1, rest);
        assert(seq![rs[0]] + rest =~= rs);
        assert(j + 1 + inner1.len() + 1 == i + ser_inner(rs).len() + 1);
    }
}

/// The round trip: parsing the serialization of any sequence of well
/// formed records yields exactly those records.
pub proof fn lemma_round_trip(rs: Seq<RecordModel>)
    requires
        forall|k: int| 0 <= k < rs.len() ==> (#[trigger] rs[k]).valid(),
    ensures
        parse_records(ser_records(rs)) == Some(rs),
{
    let s = ser_records(rs);
    let inner = ser_inner(rs);
    assert(s.len() == inner.len() + 2);
    assert(s[0] == 91u8);
    if rs.len() == 0 {
        assert(inner.len() == 0);
        assert(s[1] == 93u8);
        assert(parse_records(s) == Some(Seq::<RecordModel>::empty()));
        assert(Seq::<RecordModel>::empty() =~= rs);
    } else {
        lemma_ser_record_len(rs[0]);
        if rs.len() == 1 {
            assert(inner.len() >= 10);
        } else {
            assert(inner == ser_record(rs[0]) + seq![44u8] + ser_inner(rs.drop_first()));
            assert(inner.len() >= 10);
        }
        assert(s.len() > 2);
        assert forall|k: int|
            0 <= k < inner.len() + 1 implies #[trigger] s.subrange(1, 1 + inner.len() as int + 1)[k] == (
        inner + seq![93u8])[k] by {
            assert(s[1 + k] == (seq![91u8] + inner + seq![93u8])[1 + k]);
        };
        assert(s.subrange(1, 1 + inner.len() as int + 1) =~= inner + seq![93u8]);
        lemma_parse_more_ser(s, 1, rs);
        assert(parse_more(s, 1) == Some((rs, s.len() as int)));
    }
}


fn tok_null_vec() -> (v: Vec<u8>)
    ensures
        v@ == tok_null(),
{
    let mut v: Vec<u8> = Vec::new();
    push_tok_null(&mut v);
    proof {
        assert(v@ =~= tok_null());
    }
    v
}

/// Whether the token occurs in `s` at position `i`.
fn match_tok(s: &[u8], i: usize, tok: &Vec<u8>) -> (r: bool)
    ensures
        r == match_at(s@, i as int, tok@),
{
    let n = s.len();
    if i > n || n - i < tok.len() {
        return false;
    }
    let mut k: usize = 0;
    while k < tok.len()
        invariant
            i + tok@.len() <= s@.len(),
            s@.len() == n,
            k <= tok@.len(),
            forall|q: int| 0 <= q < k ==> s@[i + q] == tok@[q],
        decreases tok@.len() - k,
    {
        if s[i + k] != tok[k] {
            proof {
                if match_at(s@, i as int, tok@) {
                    assert(s@.subrange(i as int, i + tok@.len())[k as int] == tok@[k as int]);
                }
            }
            return false;
        }
        k += 1;
    }
    proof {
        assert(s@.subrange(i as int, i + tok@.len()) =~= tok@);
    }
    true
}

/// Read a decimal number at position `i`.
fn parse_u32_exec(s: &[u8], i: usize) -> (r: Option<(u32, usize)>)
    ensures
        match r {
            Some((v, j)) => parse_u32_at(s@, i as int) == Some((v, j as int)) && i <= j <= s@.len(),
            None => parse_u32_at(s@, i as int) is None,
        },
{
    if i >= s.len() || !(48 <= s[i] && s[i] <= 57) {
        return None;
    }
    let mut j = i;
    let mut acc: u32 = 0;
    while j < s.len() && 48 <= s[j] && s[j] <= 57
        invariant
            i <= j <= s@.len(),
            scan_digits(s@, i as int, 0) == scan_digits(s@, j as int, acc),
        decreases s@.len() - j,
    {
        let d = (s[j] - 48) as u32;
        if acc > (0xffff_ffffu32 - d) / 10 {
            proof {
                assert(scan_digits(s@, j as int, acc) is None);
            }
            return None;
        }
        acc = acc * 10 + d;
        j += 1;
    }
    proof {
        assert(scan_digits(s@, j as int, acc) == Some((acc, j as int)));
    }
    Some((acc, j))
}

/// Read a decimal number with three fraction digits at position `i`.
fn parse_fixed_exec(s: &[u8], i: usize) -> (r: Option<(u32, usize)>)
    ensures
        match r {
            Some((v, j)) => parse_fixed_at(s@, i as int) == Some((v, j as int)) && i <= j
                <= s@.len(),
            None => parse_fixed_at(s@, i as int) is None,
        },
{
    match parse_u32_exec(s, i) {
        None => None,
        Some((ip, j)) => {
            if !(s.len() - j >= 4 && s[j] == 46 && 48 <= s[j + 1] && s[j + 1] <= 57 && 48 <= s[j
                + 2] && s[j + 2] <= 57 && 48 <= s[j + 3] && s[j + 3] <= 57) {
                return None;
            }
            let f = (s[j + 1] - 48) as u32 * 100 + (s[j + 2] - 48) as u32 * 10 + (s[j + 3]
                - 48) as u32;
            if ip > (0xffff_ffffu32 - f) / 1000 {
                return None;
            }
            Some((ip * 1000 + f, j + 4))
        },
    }
}

/// Read exactly two digits at position `i`.
fn parse_pad2_exec(s: &[u8], i: usize) -> (r: Option<u8>)
    ensures
        r == parse_pad2_at(s@, i as int),
{
    if i < s.len() && s.len() - i >= 2 && 48 <= s[i] && s[i] <= 57 && 48 <= s[i + 1] && s[i + 1]
        <= 57 {
        Some((s[i] - 48) * 10 + (s[i + 1] - 48))
    } else {
        None
    }
}

/// Read exactly four digits at position `i`.
fn parse_pad4_exec(s: &[u8], i: usize) -> (r: Option<u16>)
    ensures
        r == parse_pad4_at(s@, i as int),
{
    if i < s.len() && s.len() - i >= 4 && 48 <= s[i] && s[i] <= 57 && 48 <= s[i + 1] && s[i + 1]
        <= 57 && 48 <= s[i + 2] && s[i + 2] <= 57 && 48 <= s[i + 3] && s[i + 3] <= 57 {
        Some(
            (s[i] - 48) as u16 * 1000 + (s[i + 1] - 48) as u16 * 100 + (s[i + 2] - 48) as u16 * 10
                + (s[i + 3] - 48) as u16,
        )
    } else {
        None
    }
}

/// Read a datetime in the fixed format at position `i`.
fn parse_date_exec(s: &[u8], i: usize) -> (r: Option<(DateTime, usize)>)
    ensures
        match r {
            Some((d, j)) => parse_date_at(s@, i as int) == Some((d, j as int)) && i <= j
                <= s@.len() && d.valid(),
            None => parse_date_at(s@, i as int) is None,
        },
{
    if !(i < s.len() && s.len() - i >= 19 && s[i + 4] == 45 && s[i + 7] == 45 && s[i + 10] == 84
        && s[i + 13] == 58 && s[i + 16] == 58) {
        return None;
    }
    let y = parse_pad4_exec(s, i);
    let mo = parse_pad2_exec(s, i + 5);
    let da = parse_pad2_exec(s, i + 8);
    let h = parse_pad2_exec(s, i + 11);
    let mi = parse_pad2_exec(s, i + 14);
    let se = parse_pad2_exec(s, i + 17);
    match (y, mo, da, h, mi, se) {
        (Some(y), Some(mo), Some(da), Some(h), Some(mi), Some(se)) => {
            let d = DateTime { year: y, month: mo, day: da, hour: h, minute: mi, second: se };
            let ok = 1 <= mo && mo <= 12 && 1 <= da && da <= crate::record::days_in_month(y, mo)
                && h < 24 && mi < 60 && se < 60;
            proof {
                assert(ok == d.valid());
            }
            if ok {
                Some((d, i + 19))
            } else {
                None
            }
        },
        _ => None,
    }
}

/// Relies on String::from_utf8: bytes below 128 are ASCII, and decode to
/// the characters with the same code points.
#[verifier::external_body]
fn ascii_bytes_to_string(bytes: Vec<u8>) -> (r: String)
    requires
        forall|k: int| 0 <= k < bytes@.len() ==> bytes@[k] < 128,
    ensures
        r@ == bytes@.map(|k: int, b: u8| b as char),
{
    String::from_utf8(bytes).unwrap()
}

/// Read the inside of a quoted lender name at position `i`.
fn scan_string_exec(s: &[u8], i: usize) -> (r: Option<(Vec<u8>, usize)>)
    ensures
        match r {
            Some((bs, j)) => {
                &&& scan_string(s@, i as int) == Some(
                    (bs@.map(|k: int, b: u8| b as char), j as int),
                )
                &&& forall|k: int| 0 <= k < bs@.len() ==> lender_byte_ok(#[trigger] bs@[k])
                &&& i <= j <= s@.len()
            },
            None => scan_string(s@, i as int) is None,
        },
{
    if i >= s.len() {
        proof {
            assert(scan_string(s@, i as int) is None);
        }
        return None;
    }
    let mut collected: Vec<u8> = Vec::new();
    let mut j = i;
    loop
        invariant
            i <= j <= s@.len(),
            forall|k: int| 0 <= k < collected@.len() ==> lender_byte_ok(#[trigger] collected@[k]),
            scan_string(s@, i as int) == (match scan_string(s@, j as int) {
                Some((cs, e)) => Some((collected@.map(|k: int, b: u8| b as char) + cs, e)),
                None => None::<(Seq<char>, int)>,
            }),
        decreases s@.len() - j,
    {
        if j >= s.len() {
            proof {
                assert(scan_string(s@, j as int) is None);
            }
            return None;
        }
        let b = s[j];
        if b == 34 {
            proof {
                assert(scan_string(s@, j as int) == Some((Seq::<char>::empty(), j + 1)));
                assert(collected@.map(|k: int, b: u8| b as char) + Seq::<char>::empty()
                    =~= collected@.map(|k: int, b: u8| b as char));
            }
            return Some((collected, j + 1));
        }
        if !(32 <= b && b <= 126 && b != 92) {
            proof {
                assert(scan_string(s@, j as int) is None);
            }
            return None;
        }
        let ghost c0 = collected@;
        collected.push(b);
        proof {
            let m = |k: int, b: u8| b as char;
            let sm = scan_string(s@, j + 1);
            if sm is Some {
                let pr = sm->Some_0;
                assert(scan_string(s@, j as int) == Some((seq![s@[j as int] as char] + pr.0, pr.1)));
                assert(collected@ =~= c0.push(b));
                assert(collected@.map(m) =~= c0.map(m).push(b as char));
                assert(c0.map(m) + (seq![b as char] + pr.0) =~= collected@.map(m) + pr.0);
            } else {
                assert(scan_string(s@, j as int) is None);
            }
        }
        j += 1;
    }
}

/// Read the lender field at position `i`.
fn parse_lender_exec(s: &[u8], i: usize) -> (r: Option<(Option<String>, usize)>)
    ensures
        match r {
            Some((ol, j)) => {
                &&& parse_lender_at(s@, i as int) == Some((ol.deep_view(), j as int))
                &&& i <= j <= s@.len()
                &&& match ol.deep_view() {
                    Some(cs) => lender_ok(cs),
                    None => true,
                }
            },
            None => parse_lender_at(s@, i as int) is None,
        },
{
    let n = s.len();
    let null_tok = tok_null_vec();
    if match_tok(s, i, &null_tok) {
        proof {
            assert(i + 4 <= n);
        }
        return Some((None, i + 4));
    }
    if i < s.len() && s[i] == 34 {
        match scan_string_exec(s, i + 1) {
            Some((bs, j)) => {
                let ghost cs = bs@.map(|k: int, b: u8| b as char);
                proof {
                    assert(forall|k: int| 0 <= k < bs@.len() ==> bs@[k] < 128);
                    assert forall|k: int| 0 <= k < cs.len() implies lender_char_ok(
                        #[trigger] cs[k],
                    ) by {
                        assert(lender_byte_ok(bs@[k]));
                        assert(cs[k] == bs@[k] as char);
                    };
                }
                let name = ascii_bytes_to_string(bs);
                Some((Some(name), j))
            },
            None => None,
        }
    } else {
        None
    }
}


fn tok_open_vec() -> (v: Vec<u8>)
    ensures
        v@ == tok_open(),
{
    let mut v: Vec<u8> = Vec::new();
    push_tok_open(&mut v);
    proof {
        assert(v@ =~= tok_open());
    }
    v
}

fn tok_term_vec() -> (v: Vec<u8>)
    ensures
        v@ == tok_term(),
{
    let mut v: Vec<u8> = Vec::new();
    push_tok_term(&mut v);
    proof {
        assert(v@ =~= tok_term());
    }
    v
}

fn tok_apr_vec() -> (v: Vec<u8>)
    ensures
        v@ == tok_apr(),
{
    let mut v: Vec<u8> = Vec::new();
    push_tok_apr(&mut v);
    proof {
        assert(v@ =~= tok_apr());
    }
    v
}

fn tok_points_vec() -> (v: Vec<u8>)
    ensures
        v@ == tok_points(),
{
    let mut v: Vec<u8> = Vec::new();
    push_tok_points(&mut v);
    proof {
        assert(v@ =~= tok_points());
    }
    v
}

fn tok_date_vec() -> (v: Vec<u8>)
    ensures
        v@ == tok_date(),
{
    let mut v: Vec<u8> = Vec::new();
    push_tok_date(&mut v);
    proof {
        assert(v@ =~= tok_date());
    }
    v
}

fn tok_loan_type_vec() -> (v: Vec<u8>)
    ensures
        v@ == tok_loan_type(),
{
    let mut v: Vec<u8> = Vec::new();
    push_tok_loan_type(&mut v);
    proof {
        assert(v@ =~= tok_loan_type());
    }
    v
}

fn tok_rate_vec() -> (v: Vec<u8>)
    ensures
        v@ == tok_rate(),
{
    let mut v: Vec<u8> = Vec::new();
    push_tok_rate(&mut v);
    proof {
        assert(v@ =~= tok_rate());
    }
    v
}

fn tok_purchase_vec() -> (v: Vec<u8>)
    ensures
        v@ == tok_purchase(),
{
    let mut v: Vec<u8> = Vec::new();
    push_tok_purchase(&mut v);
    proof {
        assert(v@ =~= tok_purchase());
    }
    v
}

fn tok_refinance_vec() -> (v: Vec<u8>)
    ensures
        v@ == tok_refinance(),
{
    let mut v: Vec<u8> = Vec::new();
    push_tok_refinance(&mut v);
    proof {
        assert(v@ =~= tok_refinance());
    }
    v
}

/// Read one record object at position `i`.
#[verifier::rlimit(80)]
#[verifier::spinoff_prover]
fn parse_record_exec(s: &[u8], i: usize) -> (r: Option<(LendingRates, usize)>)
    ensures
        match r {
            Some((rec, j)) => {
                &&& parse_record_at(s@, i as int) == Some((rec@, j as int))
                &&& i < j <= s@.len()
                &&& rec@.valid()
            },
            None => parse_record_at(s@, i as int) is None,
        },
{
    let n = s.len();
    let t_open = tok_open_vec();
    if !match_tok(s, i, &t_open) {
        return None;
    }
    let i1 = i + 10;
    let (lender, i2) = match parse_lender_exec(s, i1) {
        None => {
            return None;
        },
        Some(p) => p,
    };
    let t_term = tok_term_vec();
    if !match_tok(s, i2, &t_term) {
        return None;
    }
    let i3 = i2 + 8;
    let (term32, i4) = match parse_u32_exec(s, i3) {
        None => {
            return None;
        },
        Some(p) => p,
    };
    if term32 < 1 || term32 > 255 {
        return None;
    }
    let t_apr = tok_apr_vec();
    if !match_tok(s, i4, &t_apr) {
        return None;
    }
    let i5 = i4 + 7;
    let (apr, i6) = match parse_fixed_exec(s, i5) {
        None => {
            return None;
        },
        Some(p) => p,
    };
    let t_points = tok_points_vec();
    if !match_tok(s, i6, &t_points) {
        return None;
    }
    let i7 = i6 + 18;
    let (dp, i8) = match parse_fixed_exec(s, i7) {
        None => {
            return None;
        },
        Some(p) => p,
    };
    let t_date = tok_date_vec();
    if !match_tok(s, i8, &t_date) {
        return None;
    }
    let i9 = i8 + 20;
    let (dt, i10) = match parse_date_exec(s, i9) {
        None => {
            return None;
        },
        Some(p) => p,
    };
    let t_lt = tok_loan_type_vec();
    if !match_tok(s, i10, &t_lt) {
        return None;
    }
    let i11 = i10 + 14;
    let t_pur = tok_purchase_vec();
    let t_ref = tok_refinance_vec();
    let pur = match_tok(s, i11, &t_pur);
    let refi = match_tok(s, i11, &t_ref);
    let (lt, i12) = if pur {
        (LoanType::Purchase, i11 + 8)
    } else if refi {
        (LoanType::Refinance, i11 + 9)
    } else {
        return None;
    };
    let t_rate = tok_rate_vec();
    if !match_tok(s, i12, &t_rate) {
        return None;
    }
    let i13 = i12 + 9;
    let (rate, i14) = match parse_fixed_exec(s, i13) {
        None => {
            return None;
        },
        Some(p) => p,
    };
    if !(i14 < n && s[i14] == 125) {
        return None;
    }
    let rec = LendingRates {
        lender,
        term: term32 as u8,
        apr,
        discount_points: dp,
        current_as_of_date: dt,
        loan_type: lt,
        rate,
    };
    Some((rec, i14 + 1))
}

/// Read a whole store from its storage bytes.
///
/// Succeeds exactly when the bytes parse as the storage format; the records
/// handed back are well formed and re-serialize to the input.
pub fn deserialize_rates(s: &[u8]) -> (r: Result<Vec<LendingRates>, RateError>)
    ensures
        match r {
            Ok(v) => {
                &&& parse_records(s@) == Some(v.deep_view())
                &&& forall|k: int|
                    0 <= k < v.deep_view().len() ==> (#[trigger] v.deep_view()[k]).valid()
            },
            Err(e) => {
                &&& parse_records(s@) is None
                &&& e == RateError::CorruptStore
            },
        },
{
    let n = s.len();
    if n < 2 || s[0] != 91 {
        return Err(RateError::CorruptStore);
    }
    if n == 2 && s[1] == 93 {
        let out: Vec<LendingRates> = Vec::new();
        proof {
            assert(out.deep_view() =~= Seq::<RecordModel>::empty());
        }
        return Ok(out);
    }
    let mut out: Vec<LendingRates> = Vec::new();
    let mut pos: usize = 1;
    loop
        invariant
            1 <= pos <= s@.len(),
            s@.len() == n,
            n > 2 || s@[1] != 93,
            n >= 2,
            s@[0] == 91,
            forall|k: int| 0 <= k < out.deep_view().len() ==> (#[trigger] out.deep_view()[k]).valid(),
            parse_more(s@, 1) == (match parse_more(s@, pos as int) {
                Some((rs, k)) => Some((out.deep_view() + rs, k)),
                None => None::<(Seq<RecordModel>, int)>,
            }),
        decreases s@.len() - pos,
    {
        let ghost out0 = out.deep_view();
        let (rec, j) = match parse_record_exec(s, pos) {
            None => {
                proof {
                    assert(parse_more(s@, pos as int) is None);
                }
                return Err(RateError::CorruptStore);
            },
            Some(p) => p,
        };
        let ghost recm = rec@;
        if j >= n {
            proof {
                assert(parse_more(s@, pos as int) is None);
            }
            return Err(RateError::CorruptStore);
        }
        let sep = s[j];
        if sep == 44 {
            out.push(rec);
            proof {
                assert(out.deep_view() =~= out0.push(recm));
                let rm = parse_more(s@, j + 1);
                if rm is Some {
                    let pr = rm->Some_0;
                    assert(parse_more(s@, pos as int) == Some((seq![recm] + pr.0, pr.1)));
                    assert(out0 + (seq![recm] + pr.0) =~= out0.push(recm) + pr.0);
                } else {
                    assert(parse_more(s@, pos as int) is None);
                }
            }
            pos = j + 1;
        } else if sep == 93 {
            out.push(rec);
            proof {
                assert(parse_more(s@, pos as int) == Some((seq![recm], j + 1)));
                assert(out.deep_view() =~= out0.push(recm));
                assert(out0 + seq![recm] =~= out0.push(recm));
                assert(parse_more(s@, 1) == Some((out.deep_view(), j + 1)));
            }
            if j + 1 == n {
                proof {
                    assert(parse_records(s@) == Some(out.deep_view()));
                }
                return Ok(out);
            } else {
                proof {
                    assert(parse_records(s@) is None);
                }
                return Err(RateError::CorruptStore);
            }
        } else {
            proof {
                assert(parse_more(s@, pos as int) is None);
            }
            return Err(RateError::CorruptStore);
        }
    }
}

/// A full date text: the fixed format spanning the whole input.
pub open spec fn date_of_text(s: Seq<u8>) -> Option<DateTime> {
    match parse_date_at(s, 0) {
        Some((d, j)) => if j == s.len() {
            Some(d)
        } else {
            None
        },
        None => None,
    }
}

/// Read a date text in the fixed `YYYY-MM-DDTHH:MM:SS` format; anything
/// else is `MalformedDate`.
pub fn parse_date(s: &[u8]) -> (r: Result<DateTime, RateError>)
    ensures
        match r {
            Ok(d) => date_of_text(s@) == Some(d) && d.valid(),
            Err(e) => date_of_text(s@) is None && e == RateError::MalformedDate,
        },
{
    match parse_date_exec(s, 0) {
        Some((d, j)) => {
            if j == s.len() {
                Ok(d)
            } else {
                Err(RateError::MalformedDate)
            }
        },
        None => Err(RateError::MalformedDate),
    }
}

/// Write a datetime in the fixed `YYYY-MM-DDTHH:MM:SS` format.
pub fn format_date(d: &DateTime) -> (out: Vec<u8>)
    requires
        d.valid(),
    ensures
        out@ == ser_date(*d),
{
    let mut out: Vec<u8> = Vec::new();
    push_date(&mut out, d);
    proof {
        assert(out@ =~= ser_date(*d));
    }
    out
}

/// The date text round trip: formatting any representable datetime and
/// reading it back yields the same datetime.
pub proof fn lemma_date_round_trip(d: DateTime)
    requires
        d.valid(),
    ensures
        date_of_text(ser_date(d)) == Some(d),
{
    let s = ser_date(d);
    assert(s.subrange(0, 19) =~= s);
    lemma_parse_date_ser(s, 0, d);
}

} // verus!






