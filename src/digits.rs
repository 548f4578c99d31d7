//! Decimal digit strings: their values, and printing and reading naturals.
use vstd::prelude::*;

verus! {

/// A byte is an ASCII decimal digit.
pub open spec fn is_digit(b: u8) -> bool {
    48 <= b && b <= 57
}

/// The ASCII digit for a value in `0..10`.
pub open spec fn digit_byte(d: nat) -> u8 {
    (d + 48) as u8
}

/// Every byte of `s` is a decimal digit.
pub open spec fn all_digits(s: Seq<u8>) -> bool {
    forall|i: int| 0 <= i < s.len() ==> is_digit(#[trigger] s[i])
}

/// The value of a digit string read most significant digit first.
pub open spec fn value_of(s: Seq<u8>) -> nat
    decreases s.len(),
{
    if s.len() == 0 {
        0
    } else {
        value_of(s.drop_last()) * 10 + (s.last() - 48) as nat
    }
}

/// The shortest decimal form of `n`: no leading zero, and "0" for zero.
pub open spec fn digits_of(n: nat) -> Seq<u8>
    decreases n,
{
    if n < 10 {
        seq![digit_byte(n)]
    } else {
        digits_of(n / 10).push(digit_byte(n % 10))
    }
}

/// The last `k` decimal digits of `n`, padded with leading zeros.
pub open spec fn fixed_digits(n: nat, k: nat) -> Seq<u8>
    decreases k,
{
    if k == 0 {
        seq![]
    } else {
        fixed_digits(n / 10, (k - 1) as nat).push(digit_byte(n % 10))
    }
}

pub open spec fn pow10(k: nat) -> nat
    decreases k,
{
    if k == 0 {
        1
    } else {
        10 * pow10((k - 1) as nat)
    }
}

pub proof fn lemma_pow10_pos(k: nat)
    ensures
        pow10(k) >= 1,
    decreases k,
{
    if k > 0 {
        lemma_pow10_pos((k - 1) as nat);
    }
}

pub proof fn lemma_digits_of(n: nat)
    ensures
        all_digits(digits_of(n)),
        value_of(digits_of(n)) == n,
        digits_of(n).len() >= 1,
    decreases n,
{
    if n >= 10 {
        lemma_digits_of(n / 10);
        let s = digits_of(n);
        assert(s.drop_last() =~= digits_of(n / 10));
        assert(s.last() == digit_byte(n % 10));
        assert((s.last() - 48) as nat == n % 10);
        vstd::arithmetic::div_mod::lemma_fundamental_div_mod(n as int, 10);
        assert(value_of(s) == value_of(digits_of(n / 10)) * 10 + n % 10);
    } else {
        let s = digits_of(n);
        assert(s.drop_last() =~= Seq::<u8>::empty());
        assert(value_of(s.drop_last()) == 0);
        assert((s.last() - 48) as nat == n);
    }
}

pub proof fn lemma_fixed_digits(n: nat, k: nat)
    ensures
        all_digits(fixed_digits(n, k)),
        value_of(fixed_digits(n, k)) == n % pow10(k),
        fixed_digits(n, k).len() == k,
    decreases k,
{
    if k > 0 {
        lemma_fixed_digits(n / 10, (k - 1) as nat);
        let s = fixed_digits(n, k);
        assert(s.drop_last() =~= fixed_digits(n / 10, (k - 1) as nat));
        lemma_pow10_pos((k - 1) as nat);
        let p = pow10((k - 1) as nat);
        vstd::arithmetic::div_mod::lemma_mod_breakdown(n as int, 10, p as int);
        assert(n % pow10(k) == 10 * ((n / 10) % p) + n % 10);
    }
}

/// Reading a concatenation shifts the value of the front by the length of the back.
pub proof fn lemma_value_concat(a: Seq<u8>, b: Seq<u8>)
    ensures
        value_of(a + b) == value_of(a) * pow10(b.len()) + value_of(b),
    decreases b.len(),
{
    if b.len() == 0 {
        assert(a + b =~= a);
        assert(value_of(b) == 0);
        assert(pow10(0) == 1);
    } else {
        assert((a + b).drop_last() =~= a + b.drop_last());
        assert((a + b).last() == b.last());
        lemma_value_concat(a, b.drop_last());
        let p = pow10((b.len() - 1) as nat);
        assert((value_of(a) * p + value_of(b.drop_last())) * 10 == value_of(a) * (10 * p)
            + value_of(b.drop_last()) * 10) by (nonlinear_arith);
    }
}

/// A prefix of a digit string never reads larger than the whole.
pub proof fn lemma_value_prefix(s: Seq<u8>, i: int)
    requires
        0 <= i <= s.len(),
        all_digits(s),
    ensures
        value_of(s.subrange(0, i)) <= value_of(s),
    decreases s.len() - i,
{
    if i < s.len() {
        lemma_value_prefix(s, i + 1);
        assert(s.subrange(0, i + 1).drop_last() =~= s.subrange(0, i));
    } else {
        assert(s.subrange(0, i) =~= s);
    }
}

/// Appends the shortest decimal form of `n`.
pub fn push_digits(n: u64, out: &mut Vec<u8>)
    ensures
        final(out)@ == old(out)@ + digits_of(n as nat),
    decreases n,
{
    if n >= 10 {
        push_digits(n / 10, out);
    }
    out.push((n % 10) as u8 + 48);
    proof {
        if n < 10 {
            assert(final(out)@ =~= old(out)@ + digits_of(n as nat));
        } else {
            assert(final(out)@ =~= old(out)@ + digits_of(n as nat));
        }
    }
}

/// Appends the last `k` decimal digits of `n`, padded with leading zeros.
pub fn push_fixed_digits(n: u64, k: u8, out: &mut Vec<u8>)
    ensures
        final(out)@ == old(out)@ + fixed_digits(n as nat, k as nat),
    decreases k,
{
    if k > 0 {
        push_fixed_digits(n / 10, k - 1, out);
        out.push((n % 10) as u8 + 48);
        assert(final(out)@ =~= old(out)@ + fixed_digits(n as nat, k as nat));
    } else {
        assert(final(out)@ =~= old(out)@ + fixed_digits(n as nat, k as nat));
    }
}

/// Reads `b[lo..hi]` as a natural: `Some` exactly when the range is a non-empty
/// run of digits whose value fits in a `u64`.
pub fn read_natural(b: &[u8], lo: usize, hi: usize) -> (r: Option<u64>)
    requires
        lo <= hi <= b@.len(),
    ensures
        r is Some <==> (lo < hi && all_digits(b@.subrange(lo as int, hi as int))
            && value_of(b@.subrange(lo as int, hi as int)) <= u64::MAX),
        r matches Some(v) ==> v as nat == value_of(b@.subrange(lo as int, hi as int)),
{
    if lo == hi {
        return None;
    }
    let mut acc: u64 = 0;
    let mut i: usize = lo;
    while i < hi
        invariant
            lo <= i <= hi <= b@.len(),
            all_digits(b@.subrange(lo as int, i as int)),
            acc as nat == value_of(b@.subrange(lo as int, i as int)),
        decreases hi - i,
    {
        let c = b[i];
        let ghost s = b@.subrange(lo as int, hi as int);
        assert(b@.subrange(lo as int, i as int + 1).drop_last() =~= b@.subrange(lo as int, i as int));
        if c < 48 || c > 57 {
            assert(!is_digit(s[i - lo]));
            return None;
        }
        let d = (c - 48) as u64;
        if acc > (u64::MAX - d) / 10 {
            proof {
                assert(b@.subrange(lo as int, i as int + 1) =~= s.subrange(0, i - lo + 1));
                if all_digits(s) {
                    lemma_value_prefix(s, i - lo + 1);
                }
            }
            return None;
        }
        acc = acc * 10 + d;
        i = i + 1;
    }
    Some(acc)
}

} // verus!
