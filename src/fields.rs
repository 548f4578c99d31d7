//! The text form of single fields: decimals, naturals, enumerated tags and file names.
use vstd::prelude::*;
use crate::digits::{all_digits, digits_of, fixed_digits, is_digit, lemma_digits_of, lemma_fixed_digits, lemma_pow10_pos, pow10, push_digits, push_fixed_digits, read_natural, value_of};
use crate::markup::{bytes_at, Tag};
use crate::model::{Color, Decimal, Depth, RepresentationType};

verus! {

/// Why a document could not be read.
#[derive(Clone, Debug, PartialEq, Eq)]
pub enum DecodeError {
    /// The expected element is missing or malformed at this byte offset.
    Markup { at: usize },
    /// The text of the field `tag` is not a value of its kind; `text` is that text.
    Field { tag: Tag, text: Vec<u8> },
}

impl DecodeError {
    /// The error that names field `tag` and its raw text `text`.
    pub open spec fn is_field(&self, tag: Tag, text: Seq<u8>) -> bool {
        self matches DecodeError::Field { tag: t, text: x } && t == tag && x@ == text
    }
}

/// The error for the text `b[lo..hi]` of field `tag`.
pub fn field_error(b: &[u8], lo: usize, hi: usize, tag: Tag) -> (e: DecodeError)
    requires
        lo <= hi <= b@.len(),
    ensures
        e.is_field(tag, b@.subrange(lo as int, hi as int)),
{
    let text = vstd::slice::slice_to_vec(vstd::slice::slice_subrange(b, lo, hi));
    DecodeError::Field { tag, text }
}

/// The canonical text of a decimal: an optional minus sign, the integer digits
/// without leading zero, then, when the scale is positive, a point and exactly
/// `scale` fractional digits.
pub open spec fn decimal_text(d: Decimal) -> Seq<u8> {
    let m = d.magnitude();
    let p = d.denominator();
    let sign = if d.mantissa < 0 { seq![45u8] } else { Seq::<u8>::empty() };
    if d.scale == 0 {
        sign + digits_of(m)
    } else {
        sign + digits_of(m / p) + seq![46u8] + fixed_digits(m % p, d.scale as nat)
    }
}

/// A byte that may stand in the text of a number: a digit, `-` or `.`.
pub open spec fn is_number_byte(c: u8) -> bool {
    is_digit(c) || c == 45 || c == 46
}

pub proof fn lemma_pow10_mono(i: nat, j: nat)
    requires
        i <= j,
    ensures
        pow10(i) <= pow10(j),
    decreases j,
{
    if i < j {
        lemma_pow10_mono(i, (j - 1) as nat);
        lemma_pow10_pos((j - 1) as nat);
    }
}

pub proof fn lemma_pow10_bound(i: nat)
    requires
        i <= 18,
    ensures
        1 <= pow10(i) <= 1_000_000_000_000_000_000,
{
    reveal_with_fuel(pow10, 20);
    lemma_pow10_mono(i, 18);
    lemma_pow10_pos(i);
}

/// `10^k` for `k <= 18`.
pub fn pow10_u64(k: u8) -> (r: u64)
    requires
        k <= 18,
    ensures
        r as nat == pow10(k as nat),
{
    let mut r: u64 = 1;
    let mut i: u8 = 0;
    while i < k
        invariant
            i <= k <= 18,
            r as nat == pow10(i as nat),
        decreases k - i,
    {
        proof {
            lemma_pow10_bound((i + 1) as nat);
        }
        r = r * 10;
        i = i + 1;
    }
    r
}

/// Appends the canonical text of `d`.
pub fn push_decimal(d: Decimal, out: &mut Vec<u8>)
    requires
        d.wf(),
    ensures
        final(out)@ == old(out)@ + decimal_text(d),
{
    let m: u64 = if d.mantissa < 0 {
        (-d.mantissa) as u64
    } else {
        d.mantissa as u64
    };
    let ghost start = out@;
    if d.mantissa < 0 {
        out.push(45u8);
    }
    let ghost signed = out@;
    if d.scale == 0 {
        push_digits(m, out);
        assert(pow10(0) == 1);
    } else {
        let p = pow10_u64(d.scale);
        proof {
            lemma_pow10_bound(d.scale as nat);
        }
        push_digits(m / p, out);
        out.push(46u8);
        push_fixed_digits(m % p, d.scale, out);
    }
    assert(final(out)@ =~= old(out)@ + decimal_text(d));
}

/// What the canonical text of a decimal tells of its bytes, placed at `b[lo..hi]`.
pub proof fn lemma_decimal_shape(b: Seq<u8>, lo: int, hi: int, d: Decimal)
    requires
        0 <= lo <= hi <= b.len(),
        d.wf(),
        b.subrange(lo, hi) == decimal_text(d),
    ensures
        ({
            let m = d.magnitude();
            let p = d.denominator();
            let start = if d.mantissa < 0 { lo + 1 } else { lo };
            let k = start + digits_of(m / p).len();
            &&& lo < hi
            &&& (b[lo] == 45u8) == (d.mantissa < 0)
            &&& k <= hi
            &&& forall|j: int| start <= j < k ==> #[trigger] b[j] != 46u8
            &&& all_digits(b.subrange(start, k))
            &&& value_of(b.subrange(start, k)) == m / p
            &&& d.scale == 0 ==> k == hi
            &&& d.scale > 0 ==> {
                &&& k < hi
                &&& b[k] == 46u8
                &&& hi - k - 1 == d.scale
                &&& all_digits(b.subrange(k + 1, hi))
                &&& value_of(b.subrange(k + 1, hi)) == m % p
            }
            &&& m / p * p + m % p == m
            &&& m <= i64::MAX
            &&& 1 <= p <= 1_000_000_000_000_000_000
        }),
{
    let m = d.magnitude();
    let p = d.denominator();
    lemma_pow10_bound(d.scale as nat);
    vstd::arithmetic::div_mod::lemma_fundamental_div_mod(m as int, p as int);
    vstd::arithmetic::div_mod::lemma_div_pos_is_pos(m as int, p as int);
    vstd::arithmetic::div_mod::lemma_div_is_ordered_by_denominator(m as int, 1, p as int);
    lemma_digits_of(m / p);
    lemma_fixed_digits(m % p, d.scale as nat);
    vstd::arithmetic::div_mod::lemma_small_mod((m % p) as nat, p);
    let t = decimal_text(d);
    let sl: int = if d.mantissa < 0 { 1 } else { 0 };
    let start = lo + sl;
    let dd = digits_of(m / p);
    let k = start + dd.len();
    assert(forall|j: int| 0 <= j < t.len() ==> b[lo + j] == #[trigger] t[j]) by {
        assert forall|j: int| 0 <= j < t.len() implies b[lo + j] == #[trigger] t[j] by {
            assert(b.subrange(lo, hi)[j] == t[j]);
        }
    }
    let sign = if d.mantissa < 0 { seq![45u8] } else { Seq::<u8>::empty() };
    let rest = if d.scale == 0 {
        Seq::<u8>::empty()
    } else {
        seq![46u8] + fixed_digits(m % p, d.scale as nat)
    };
    assert(t =~= sign + dd + rest);
    assert(sign.len() == sl);
    assert(k <= hi);
    assert(b.subrange(start, k) =~= dd) by {
        assert forall|j: int| 0 <= j < dd.len() implies b.subrange(start, k)[j] == dd[j] by {
            assert(t[sl + j] == dd[j]);
            assert(b[lo + (sl + j)] == t[sl + j]);
        }
    }
    assert forall|j: int| start <= j < k implies #[trigger] b[j] != 46u8 by {
        assert(b.subrange(start, k)[j - start] == dd[j - start]);
        assert(is_digit(dd[j - start]));
    }
    assert(hi - lo == t.len());
    assert(m <= i64::MAX);
    if d.mantissa < 0 {
        assert(b[lo] == t[0]);
        assert(t[0] == 45u8);
    }
    if d.mantissa >= 0 {
        assert(b[lo] == t[0]);
        assert(t[0] == dd[0]);
        assert(is_digit(dd[0]));
    }
    if d.scale > 0 {
        let f = fixed_digits(m % p, d.scale as nat);
        assert(t.len() == sl + dd.len() + 1 + f.len());
        assert(b[k] == t[sl + dd.len()]);
        assert(value_of(f) == m % p);
        assert(b.subrange(k + 1, hi) =~= f) by {
            assert forall|j: int| 0 <= j < f.len() implies b.subrange(k + 1, hi)[j] == f[j] by {
                assert(t[sl + dd.len() + 1 + j] == f[j]);
                assert(b[lo + (sl + dd.len() + 1 + j)] == t[sl + dd.len() + 1 + j]);
            }
        }
    } else {
        assert(t.len() == sl + dd.len());
        assert(pow10(0) == 1);
    }
}

/// Reads the text `b[lo..hi]` of the number field `tag` as a decimal, exactly:
/// the text is accepted if and only if it is the canonical text of a decimal,
/// and that decimal is returned. So any text that holds a byte other than a
/// digit, `-` or `.` (`NaN` and `inf` among them) is refused.
pub fn read_decimal(b: &[u8], lo: usize, hi: usize, tag: Tag) -> (r: Result<Decimal, DecodeError>)
    requires
        lo <= hi <= b@.len(),
    ensures
        r matches Ok(d) ==> d.wf() && decimal_text(d) == b@.subrange(lo as int, hi as int)
            && forall|j: int| lo <= j < hi ==> is_number_byte(#[trigger] b@[j]),
        r matches Err(e) ==> e.is_field(tag, b@.subrange(lo as int, hi as int)),
        forall|d: Decimal|
            d.wf() && #[trigger] decimal_text(d) == b@.subrange(lo as int, hi as int) ==> r == Ok::<
                Decimal,
                DecodeError,
            >(d),
{
    let neg = lo < hi && b[lo] == 45u8;
    let start = if neg { lo + 1 } else { lo };
    let mut k: usize = start;
    while k < hi && b[k] != 46u8
        invariant
            start <= k <= hi <= b@.len(),
            forall|j: int| start <= j < k ==> b@[j] != 46u8,
        decreases hi - k,
    {
        k = k + 1;
    }
    let ip = read_natural(b, start, k);
    if ip.is_none() {
        proof {
            assert forall|d: Decimal|
                d.wf() && #[trigger] decimal_text(d) == b@.subrange(lo as int, hi as int) implies false by {
                lemma_decimal_shape(b@, lo as int, hi as int, d);
                let kk = start + digits_of(d.magnitude() / d.denominator()).len();
                if k < kk {
                    assert(b@[k as int] != 46u8);
                }
                if k > kk {
                    assert(b@[kk] == 46u8);
                }
            }
        }
        return Err(field_error(b, lo, hi, tag));
    }
    let int_part = ip.unwrap();
    let mut frac: u64 = 0;
    let mut scale: u8 = 0;
    if k < hi {
        let fl = hi - k - 1;
        let fp = if fl == 0 || fl > 18 { None } else { read_natural(b, k + 1, hi) };
        if fp.is_none() {
            proof {
                assert forall|d: Decimal|
                    d.wf() && #[trigger] decimal_text(d) == b@.subrange(lo as int, hi as int) implies false by {
                    lemma_decimal_shape(b@, lo as int, hi as int, d);
                    let kk = start + digits_of(d.magnitude() / d.denominator()).len();
                    if k < kk {
                        assert(b@[k as int] != 46u8);
                    }
                    if k > kk && d.scale > 0 {
                        assert(b@[kk] == 46u8);
                    }
                }
            }
            return Err(field_error(b, lo, hi, tag));
        }
        frac = fp.unwrap();
        scale = fl as u8;
    }
    let p = pow10_u64(scale);
    proof {
        lemma_pow10_bound(scale as nat);
        assert(int_part as int * p <= u64::MAX as int * 1_000_000_000_000_000_000) by (nonlinear_arith)
            requires
                int_part <= u64::MAX,
                p <= 1_000_000_000_000_000_000,
                p >= 1,
        ;
    }
    let m: u128 = int_part as u128 * p as u128 + frac as u128;
    if m > i64::MAX as u128 {
        proof {
            assert forall|d: Decimal|
                d.wf() && #[trigger] decimal_text(d) == b@.subrange(lo as int, hi as int) implies false by {
                lemma_decimal_shape(b@, lo as int, hi as int, d);
                let kk = start + digits_of(d.magnitude() / d.denominator()).len();
                if k < kk {
                    assert(b@[k as int] != 46u8);
                }
                if k > kk && d.scale > 0 {
                    assert(b@[kk] == 46u8);
                }
            }
        }
        return Err(field_error(b, lo, hi, tag));
    }
    let mantissa: i64 = if neg { -(m as i64) } else { m as i64 };
    let d = Decimal { mantissa, scale };
    proof {
        assert forall|j: int| lo <= j < hi implies is_number_byte(#[trigger] b@[j]) by {
            if j >= start && j < k {
                assert(b@.subrange(start as int, k as int)[j - start] == b@[j]);
            } else if j > k {
                assert(b@.subrange(k + 1, hi as int)[j - k - 1] == b@[j]);
            }
        }
        assert forall|e: Decimal|
            e.wf() && #[trigger] decimal_text(e) == b@.subrange(lo as int, hi as int) implies d == e by {
            lemma_decimal_shape(b@, lo as int, hi as int, e);
            let kk = start + digits_of(e.magnitude() / e.denominator()).len();
            if k < kk {
                assert(b@[k as int] != 46u8);
            }
            if k > kk && e.scale > 0 {
                assert(b@[kk] == 46u8);
            }
            assert(k == kk);
        }
    }
    let mut back: Vec<u8> = Vec::new();
    push_decimal(d, &mut back);
    assert(back@ =~= decimal_text(d));
    if !range_is(b, lo, hi, &back) {
        return Err(field_error(b, lo, hi, tag));
    }
    Ok(d)
}


pub open spec fn color_text(c: Color) -> Seq<u8> {
    match c {
        Color::Rgb => seq![114u8, 103u8, 98u8],
    }
}

pub open spec fn depth_text(d: Depth) -> Seq<u8> {
    match d {
        Depth::Byte => seq![98u8, 121u8, 116u8, 101u8],
    }
}

pub open spec fn representation_type_text(t: RepresentationType) -> Seq<u8> {
    match t {
        RepresentationType::RotatedRectangle => seq![
            114u8, 111u8, 116u8, 97u8, 116u8, 101u8, 100u8, 95u8, 114u8, 101u8, 99u8, 116u8, 97u8,
            110u8, 103u8, 108u8, 101u8,
        ],
    }
}

pub fn color_bytes(c: Color) -> (r: Vec<u8>)
    ensures
        r@ == color_text(c),
{
    let r = match c {
        Color::Rgb => vec![114u8, 103u8, 98u8],
    };
    assert(r@ =~= color_text(c));
    r
}

pub fn depth_bytes(d: Depth) -> (r: Vec<u8>)
    ensures
        r@ == depth_text(d),
{
    let r = match d {
        Depth::Byte => vec![98u8, 121u8, 116u8, 101u8],
    };
    assert(r@ =~= depth_text(d));
    r
}

pub fn representation_type_bytes(t: RepresentationType) -> (r: Vec<u8>)
    ensures
        r@ == representation_type_text(t),
{
    let r = match t {
        RepresentationType::RotatedRectangle => vec![
            114u8, 111u8, 116u8, 97u8, 116u8, 101u8, 100u8, 95u8, 114u8, 101u8, 99u8, 116u8, 97u8,
            110u8, 103u8, 108u8, 101u8,
        ],
    };
    assert(r@ =~= representation_type_text(t));
    r
}

/// Whether `b[lo..hi]` is exactly `s`.
pub fn range_is(b: &[u8], lo: usize, hi: usize, s: &Vec<u8>) -> (r: bool)
    requires
        lo <= hi <= b@.len(),
    ensures
        r == (b@.subrange(lo as int, hi as int) == s@),
{
    if hi - lo != s.len() {
        return false;
    }
    let r = bytes_at(b, lo, s);
    r
}

/// Reads a color tag; an unknown name is refused and the error carries it.
pub fn read_color(b: &[u8], lo: usize, hi: usize) -> (r: Result<Color, DecodeError>)
    requires
        lo <= hi <= b@.len(),
    ensures
        b@.subrange(lo as int, hi as int) == color_text(Color::Rgb) ==> r == Ok::<Color, DecodeError>(Color::Rgb),
        b@.subrange(lo as int, hi as int) != color_text(Color::Rgb) ==> (r matches Err(e) && e.is_field(
            Tag::Color,
            b@.subrange(lo as int, hi as int),
        )),
{
    let rgb = color_bytes(Color::Rgb);
    if range_is(b, lo, hi, &rgb) {
        Ok(Color::Rgb)
    } else {
        Err(field_error(b, lo, hi, Tag::Color))
    }
}

/// Reads a depth tag; an unknown name is refused and the error carries it.
pub fn read_depth(b: &[u8], lo: usize, hi: usize) -> (r: Result<Depth, DecodeError>)
    requires
        lo <= hi <= b@.len(),
    ensures
        b@.subrange(lo as int, hi as int) == depth_text(Depth::Byte) ==> r == Ok::<Depth, DecodeError>(Depth::Byte),
        b@.subrange(lo as int, hi as int) != depth_text(Depth::Byte) ==> (r matches Err(e) && e.is_field(
            Tag::Depth,
            b@.subrange(lo as int, hi as int),
        )),
{
    let byte = depth_bytes(Depth::Byte);
    if range_is(b, lo, hi, &byte) {
        Ok(Depth::Byte)
    } else {
        Err(field_error(b, lo, hi, Tag::Depth))
    }
}

/// Reads a representation type; an unknown name is refused and the error carries it.
pub fn read_representation_type(b: &[u8], lo: usize, hi: usize) -> (r: Result<
    RepresentationType,
    DecodeError,
>)
    requires
        lo <= hi <= b@.len(),
    ensures
        b@.subrange(lo as int, hi as int) == representation_type_text(
            RepresentationType::RotatedRectangle,
        ) ==> r == Ok::<RepresentationType, DecodeError>(RepresentationType::RotatedRectangle),
        b@.subrange(lo as int, hi as int) != representation_type_text(
            RepresentationType::RotatedRectangle,
        ) ==> (r matches Err(e) && e.is_field(Tag::Type, b@.subrange(lo as int, hi as int))),
{
    let rr = representation_type_bytes(RepresentationType::RotatedRectangle);
    if range_is(b, lo, hi, &rr) {
        Ok(RepresentationType::RotatedRectangle)
    } else {
        Err(field_error(b, lo, hi, Tag::Type))
    }
}

/// Reads a count (a frame number, an object id), exactly: the text is accepted
/// if and only if it is the shortest decimal form of a count.
pub fn read_count(b: &[u8], lo: usize, hi: usize, tag: Tag) -> (r: Result<usize, DecodeError>)
    requires
        lo <= hi <= b@.len(),
    ensures
        r matches Ok(n) ==> digits_of(n as nat) == b@.subrange(lo as int, hi as int),
        r matches Err(e) ==> e.is_field(tag, b@.subrange(lo as int, hi as int)),
        forall|n: usize|
            #[trigger] digits_of(n as nat) == b@.subrange(lo as int, hi as int) ==> r == Ok::<
                usize,
                DecodeError,
            >(n),
{
    match read_natural(b, lo, hi) {
        Some(v) => {
            if v <= usize::MAX as u64 {
                proof {
                    assert forall|n: usize|
                        #[trigger] digits_of(n as nat) == b@.subrange(lo as int, hi as int) implies v
                            == n by {
                        lemma_digits_of(n as nat);
                    }
                }
                let mut back: Vec<u8> = Vec::new();
                push_digits(v, &mut back);
                if !range_is(b, lo, hi, &back) {
                    return Err(field_error(b, lo, hi, tag));
                }
                Ok(v as usize)
            } else {
                proof {
                    assert forall|n: usize|
                        #[trigger] digits_of(n as nat) == b@.subrange(lo as int, hi as int) implies false by {
                        lemma_digits_of(n as nat);
                    }
                }
                Err(field_error(b, lo, hi, tag))
            }
        },
        None => {
            proof {
                assert forall|n: usize|
                    #[trigger] digits_of(n as nat) == b@.subrange(lo as int, hi as int) implies false by {
                    lemma_digits_of(n as nat);
                }
            }
            Err(field_error(b, lo, hi, tag))
        },
    }
}

} // verus!
