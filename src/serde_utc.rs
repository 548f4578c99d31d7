//! A timestamp written `%Y-%b-%d %H:%M:%S.%f` with six fractional digits, e.g.
//! `2017-Mar-03 14:05:11.123456`.
use vstd::prelude::*;
use chrono::{Datelike, NaiveDate, NaiveDateTime, Timelike};
use vstd::utf8::valid_utf8;
use crate::digits::{fixed_digits, is_digit, lemma_fixed_digits};
use crate::fields::DecodeError;
use crate::markup::Tag;
use crate::model::{days_in_month, is_leap_year, Timestamp};
use crate::text::{plain_ascii, lemma_ascii_concat, lemma_ascii_valid, utf8_text};

verus! {

/// The format of the timestamp field, in strftime notation.
pub const FORMAT: &'static str = "%Y-%b-%d %H:%M:%S%.6f";

/// The English three-letter abbreviation of month `m`.
pub open spec fn month_abbrev(m: u32) -> Seq<u8> {
    if m == 1 {
        seq![74u8, 97u8, 110u8]
    } else if m == 2 {
        seq![70u8, 101u8, 98u8]
    } else if m == 3 {
        seq![77u8, 97u8, 114u8]
    } else if m == 4 {
        seq![65u8, 112u8, 114u8]
    } else if m == 5 {
        seq![77u8, 97u8, 121u8]
    } else if m == 6 {
        seq![74u8, 117u8, 110u8]
    } else if m == 7 {
        seq![74u8, 117u8, 108u8]
    } else if m == 8 {
        seq![65u8, 117u8, 103u8]
    } else if m == 9 {
        seq![83u8, 101u8, 112u8]
    } else if m == 10 {
        seq![79u8, 99u8, 116u8]
    } else if m == 11 {
        seq![78u8, 111u8, 118u8]
    } else {
        seq![68u8, 101u8, 99u8]
    }
}

/// The fraction of a second: a point and always six digits, in microseconds.
pub open spec fn fraction_text(n: nat) -> Seq<u8> {
    seq![46u8] + fixed_digits(n / 1_000, 6)
}

/// The text of a timestamp in the format above.
pub open spec fn utc_text(t: Timestamp) -> Seq<u8> {
    fixed_digits(t.year as nat, 4) + seq![45u8] + month_abbrev(t.month) + seq![45u8]
        + fixed_digits(t.day as nat, 2) + seq![32u8] + fixed_digits(t.hour as nat, 2) + seq![58u8]
        + fixed_digits(t.minute as nat, 2) + seq![58u8] + fixed_digits(t.second as nat, 2)
        + fraction_text(t.nanosecond as nat)
}

pub proof fn lemma_fixed_ascii(n: nat, k: nat)
    ensures
        plain_ascii(fixed_digits(n, k)),
{
    lemma_fixed_digits(n, k);
    let s = fixed_digits(n, k);
    assert forall|i: int| 0 <= i < s.len() implies #[trigger] s[i] < 128 && s[i] != 60u8 by {
        assert(is_digit(s[i]));
    }
}

/// The text of a timestamp is ASCII without `<`, so valid UTF-8.
pub proof fn lemma_utc_text_utf8(t: Timestamp)
    ensures
        valid_utf8(utc_text(t)),
        plain_ascii(utc_text(t)),
{
    let y = fixed_digits(t.year as nat, 4);
    let mo = month_abbrev(t.month);
    let d = fixed_digits(t.day as nat, 2);
    let h = fixed_digits(t.hour as nat, 2);
    let mi = fixed_digits(t.minute as nat, 2);
    let se = fixed_digits(t.second as nat, 2);
    let f = fraction_text(t.nanosecond as nat);
    let dash = seq![45u8];
    let sp = seq![32u8];
    let colon = seq![58u8];
    let dot = seq![46u8];
    lemma_fixed_ascii(t.year as nat, 4);
    lemma_fixed_ascii(t.day as nat, 2);
    lemma_fixed_ascii(t.hour as nat, 2);
    lemma_fixed_ascii(t.minute as nat, 2);
    lemma_fixed_ascii(t.second as nat, 2);
    let n = t.nanosecond as nat;
    lemma_fixed_ascii(n / 1_000, 6);
    assert(plain_ascii(dash) && plain_ascii(sp) && plain_ascii(colon) && plain_ascii(dot));
    assert(plain_ascii(mo));
    lemma_ascii_concat(dot, fixed_digits(n / 1_000, 6));
    assert(plain_ascii(f));
    lemma_ascii_concat(y, dash);
    lemma_ascii_concat(y + dash, mo);
    lemma_ascii_concat(y + dash + mo, dash);
    lemma_ascii_concat(y + dash + mo + dash, d);
    lemma_ascii_concat(y + dash + mo + dash + d, sp);
    lemma_ascii_concat(y + dash + mo + dash + d + sp, h);
    lemma_ascii_concat(y + dash + mo + dash + d + sp + h, colon);
    lemma_ascii_concat(y + dash + mo + dash + d + sp + h + colon, mi);
    lemma_ascii_concat(y + dash + mo + dash + d + sp + h + colon + mi, colon);
    lemma_ascii_concat(y + dash + mo + dash + d + sp + h + colon + mi + colon, se);
    lemma_ascii_concat(y + dash + mo + dash + d + sp + h + colon + mi + colon + se, f);
    lemma_ascii_valid(utc_text(t));
}

/// Relies on chrono's `NaiveDate::from_ymd_opt` and `and_hms_nano_opt`, which
/// accept every valid date and time, and on `NaiveDateTime::format` with the
/// format above: a zero-padded four-digit year, the month's abbreviation, two
/// digits for day, hour, minute and second, and `%.6f`: a point and six digits
/// of the microseconds.
#[verifier::external_body]
fn format_utc(t: &Timestamp) -> (r: Vec<u8>)
    requires
        t.wf(),
    ensures
        r@ == utc_text(*t),
{
    let date = NaiveDate::from_ymd_opt(t.year, t.month, t.day).unwrap();
    let at = date.and_hms_nano_opt(t.hour, t.minute, t.second, t.nanosecond).unwrap();
    at.format(FORMAT).to_string().into_bytes()
}

/// Relies on chrono's `NaiveDateTime::parse_from_str` with the format above: it
/// reads back every text that `format` writes, to the same date and time.
#[verifier::external_body]
fn parse_utc(text: &str) -> (r: Option<Timestamp>)
    ensures
        forall|t: Timestamp| t.wf() && #[trigger] utc_text(t) == vstd::utf8::encode_utf8(text@) ==> r == Some(t),
{
    match NaiveDateTime::parse_from_str(text, FORMAT) {
        Ok(at) => Some(
            Timestamp {
                year: at.year(),
                month: at.month(),
                day: at.day(),
                hour: at.hour(),
                minute: at.minute(),
                second: at.second(),
                nanosecond: at.nanosecond(),
            },
        ),
        Err(_) => None,
    }
}

/// Whether a timestamp is a real date of a four-digit year and a time of day.
pub fn is_valid(t: &Timestamp) -> (r: bool)
    ensures
        r == t.wf(),
{
    if t.year < 0 || t.year > 9999 || t.month < 1 || t.month > 12 || t.day < 1 {
        return false;
    }
    let leap = (t.year % 4 == 0 && t.year % 100 != 0) || t.year % 400 == 0;
    assert(leap == is_leap_year(t.year as int));
    let days: u32 = if t.month == 2 {
        if leap { 29 } else { 28 }
    } else if t.month == 4 || t.month == 6 || t.month == 9 || t.month == 11 {
        30
    } else {
        31
    };
    assert(days == days_in_month(t.year as int, t.month as int));
    t.day <= days && t.hour < 24 && t.minute < 60 && t.second < 60 && t.nanosecond < 1_000_000_000
        && t.nanosecond % 1000 == 0
}

/// Writes a timestamp in the format above.
pub fn serialize(value: &Timestamp) -> (r: Vec<u8>)
    requires
        value.wf(),
    ensures
        r@ == utc_text(*value),
{
    format_utc(value)
}

/// Whether two byte strings are equal.
fn same_bytes(a: &Vec<u8>, b: &[u8]) -> (r: bool)
    ensures
        r == (a@ == b@),
{
    if a.len() != b.len() {
        return false;
    }
    let mut i: usize = 0;
    while i < a.len()
        invariant
            a@.len() == b@.len(),
            i <= a@.len(),
            forall|j: int| 0 <= j < i ==> a@[j] == b@[j],
        decreases a@.len() - i,
    {
        if a[i] != b[i] {
            return false;
        }
        i = i + 1;
    }
    assert(a@ =~= b@);
    true
}

/// Reads a timestamp in the format above, exactly: the text is accepted if and
/// only if it is the text of a valid timestamp, and that timestamp is returned;
/// a refused text is carried by the error.
pub fn deserialize(text: &[u8]) -> (r: Result<Timestamp, DecodeError>)
    ensures
        r matches Ok(t) ==> t.wf() && utc_text(t) == text@,
        r matches Err(e) ==> e.is_field(Tag::Utc, text@),
        forall|t: Timestamp|
            t.wf() && #[trigger] utc_text(t) == text@ ==> r == Ok::<Timestamp, DecodeError>(t),
{
    let s = match utf8_text(text) {
        Some(s) => s,
        None => {
            proof {
                assert forall|t: Timestamp| t.wf() && #[trigger] utc_text(t) == text@ implies false by {
                    lemma_utc_text_utf8(t);
                }
            }
            return Err(DecodeError::Field { tag: Tag::Utc, text: vstd::slice::slice_to_vec(text) });
        },
    };
    proof {
        vstd::utf8::decode_utf8_encode_utf8(text@);
    }
    match parse_utc(s.as_str()) {
        Some(t) => {
            if is_valid(&t) {
                let back = format_utc(&t);
                if same_bytes(&back, text) {
                    return Ok(t);
                }
            }
            Err(DecodeError::Field { tag: Tag::Utc, text: vstd::slice::slice_to_vec(text) })
        },
        None => Err(DecodeError::Field { tag: Tag::Utc, text: vstd::slice::slice_to_vec(text) }),
    }
}

} // verus!
