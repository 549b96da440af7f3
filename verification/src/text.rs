//! Decimal text: the digits of a number, and the parsing of unsigned integers with
//! the rules of Rust's `FromStr` for unsigned types (an optional `+`, then one or
//! more ASCII digits, within the type's range).
use vstd::prelude::*;

verus! {

/// The ASCII decimal digits of `n`, most significant first, without leading zeros.
pub open spec fn decimal_digits(n: nat) -> Seq<u8>
    decreases n,
{
    if n < 10 {
        seq![(48 + n) as u8]
    } else {
        decimal_digits(n / 10).push((48 + n % 10) as u8)
    }
}

/// `b` is an ASCII decimal digit.
pub open spec fn is_digit(b: u8) -> bool {
    48 <= b <= 57
}

/// Every byte of `s` is an ASCII decimal digit.
pub open spec fn all_digits(s: Seq<u8>) -> bool {
    forall|i: int| 0 <= i < s.len() ==> is_digit(#[trigger] s[i])
}

/// The number that a sequence of ASCII digits denotes.
pub open spec fn digits_value(s: Seq<u8>) -> nat
    decreases s.len(),
{
    if s.len() == 0 {
        0
    } else {
        digits_value(s.drop_last()) * 10 + (s.last() - 48) as nat
    }
}

/// The text of an unsigned number as Rust's `FromStr` reads it, before the range
/// check: an optional leading `+`, then at least one digit.
pub open spec fn unsigned_literal_value(s: Seq<u8>) -> Option<nat> {
    let body = if s.len() > 0 && s[0] == 43u8 {
        s.subrange(1, s.len() as int)
    } else {
        s
    };
    if body.len() > 0 && all_digits(body) {
        Some(digits_value(body))
    } else {
        None
    }
}

/// What `<u64 as FromStr>::from_str` returns on the text `s`.
pub open spec fn parse_u64_spec(s: Seq<u8>) -> Option<u64> {
    match unsigned_literal_value(s) {
        Some(v) => if v <= u64::MAX {
            Some(v as u64)
        } else {
            None
        },
        None => None,
    }
}

/// `n` written with at least `width` digits, padded on the left with zeros.
pub open spec fn zero_padded(n: nat, width: nat) -> Seq<u8> {
    let d = decimal_digits(n);
    if d.len() < width {
        Seq::new((width - d.len()) as nat, |i: int| 48u8) + d
    } else {
        d
    }
}

/// Ten to the power `k`.
pub open spec fn pow10(k: nat) -> nat
    decreases k,
{
    if k == 0 {
        1
    } else {
        10 * pow10((k - 1) as nat)
    }
}

/// The digits of a number are digits, and they denote the number.
pub proof fn lemma_decimal_digits_value(n: nat)
    ensures
        all_digits(decimal_digits(n)),
        digits_value(decimal_digits(n)) == n,
        decimal_digits(n).len() >= 1,
        decimal_digits(n)[0] != 48u8 || n == 0,
    decreases n,
{
    if n >= 10 {
        lemma_decimal_digits_value(n / 10);
        let d = decimal_digits(n / 10);
        let last = (48 + n % 10) as u8;
        assert(last == 48 + n % 10);
        assert(decimal_digits(n) == d.push(last));
        assert(decimal_digits(n).drop_last() =~= d);
        assert(decimal_digits(n).last() == last);
        assert(decimal_digits(n)[0] == d[0]);
        assert(digits_value(decimal_digits(n)) == (n / 10) * 10 + n % 10);
    } else {
        let s = decimal_digits(n);
        assert(s[0] == 48 + n);
        assert(s.drop_last() =~= Seq::<u8>::empty());
        assert(digits_value(s.drop_last()) == 0);
    }
}

/// A number below `10^k` has at most `k` digits.
pub proof fn lemma_decimal_digits_len(n: nat, k: nat)
    requires
        n < pow10(k),
        k >= 1,
    ensures
        decimal_digits(n).len() <= k,
    decreases n,
{
    if n >= 10 {
        assert(k >= 2) by {
            if k == 1 {
                assert(pow10(1) == 10) by {
                    assert(pow10(0) == 1);
                }
            }
        }
        assert(n / 10 < pow10((k - 1) as nat));
        lemma_decimal_digits_len(n / 10, (k - 1) as nat);
    }
}

/// Every `u64` has at most twenty decimal digits.
pub proof fn lemma_u64_digits_at_most_20(n: u64)
    ensures
        decimal_digits(n as nat).len() <= 20,
{
    reveal_with_fuel(pow10, 21);
    assert(pow10(20) == 100000000000000000000nat);
    lemma_decimal_digits_len(n as nat, 20);
}

/// Leading zeros do not change the value of a digit sequence.
pub proof fn lemma_leading_zeros_value(k: nat, d: Seq<u8>)
    ensures
        digits_value(Seq::new(k, |i: int| 48u8) + d) == digits_value(d),
    decreases d.len(),
{
    let z = Seq::new(k, |i: int| 48u8);
    if d.len() == 0 {
        assert(z + d =~= z);
        lemma_zeros_value(k);
    } else {
        assert((z + d).drop_last() =~= z + d.drop_last());
        lemma_leading_zeros_value(k, d.drop_last());
    }
}

/// A run of zeros denotes zero.
pub proof fn lemma_zeros_value(k: nat)
    ensures
        digits_value(Seq::new(k, |i: int| 48u8)) == 0,
    decreases k,
{
    if k > 0 {
        assert(Seq::new(k, |i: int| 48u8).drop_last() =~= Seq::new((k - 1) as nat, |i: int| 48u8));
        lemma_zeros_value((k - 1) as nat);
    }
}

/// A prefix of a digit sequence denotes no more than the whole sequence.
pub proof fn lemma_digits_value_prefix_le(s: Seq<u8>, i: int)
    requires
        0 <= i <= s.len(),
        all_digits(s),
    ensures
        digits_value(s.subrange(0, i)) <= digits_value(s),
    decreases s.len() - i,
{
    if i < s.len() {
        lemma_digits_value_prefix_le(s, i + 1);
        let p = s.subrange(0, i + 1);
        assert(p.drop_last() =~= s.subrange(0, i));
    } else {
        assert(s.subrange(0, i) =~= s);
    }
}

/// Zero-padded digits are digits and denote the number.
pub proof fn lemma_zero_padded_value(n: nat, width: nat)
    ensures
        all_digits(zero_padded(n, width)),
        digits_value(zero_padded(n, width)) == n,
        zero_padded(n, width).len() >= width,
        zero_padded(n, width).len() >= 1,
{
    lemma_decimal_digits_value(n);
    let d = decimal_digits(n);
    if d.len() < width {
        let k = (width - d.len()) as nat;
        lemma_leading_zeros_value(k, d);
        let z = Seq::new(k, |i: int| 48u8);
        assert forall|i: int| 0 <= i < (z + d).len() implies is_digit(#[trigger] (z + d)[i]) by {
            if i >= k {
                assert((z + d)[i] == d[i - k]);
            }
        }
    }
}

/// The digits of a number read back as that number.
pub proof fn lemma_parse_digits(n: u64)
    ensures
        parse_u64_spec(decimal_digits(n as nat)) == Some(n),
{
    lemma_decimal_digits_value(n as nat);
    let d = decimal_digits(n as nat);
    assert(is_digit(d[0]));
}

/// The ASCII digits of `n`.
pub fn u64_to_decimal(n: u64) -> (r: Vec<u8>)
    ensures
        r@ == decimal_digits(n as nat),
    decreases n,
{
    if n < 10 {
        let mut v: Vec<u8> = Vec::new();
        v.push(48u8 + n as u8);
        assert(v@ =~= decimal_digits(n as nat));
        v
    } else {
        let mut v = u64_to_decimal(n / 10);
        v.push(48u8 + (n % 10) as u8);
        v
    }
}

/// The ASCII digits of `n`, padded on the left with zeros to `width` digits.
pub fn u64_to_zero_padded(n: u64, width: usize) -> (r: Vec<u8>)
    ensures
        r@ == zero_padded(n as nat, width as nat),
{
    let d = u64_to_decimal(n);
    if d.len() < width {
        let mut r: Vec<u8> = Vec::new();
        let k = width - d.len();
        let mut i: usize = 0;
        while i < k
            invariant
                i <= k,
                r@ =~= Seq::new(i as nat, |j: int| 48u8),
            decreases k - i,
        {
            r.push(48u8);
            i = i + 1;
        }
        let mut j: usize = 0;
        while j < d.len()
            invariant
                j <= d.len(),
                r@ =~= Seq::new(k as nat, |x: int| 48u8) + d@.subrange(0, j as int),
            decreases d.len() - j,
        {
            r.push(d[j]);
            j = j + 1;
        }
        assert(d@.subrange(0, d.len() as int) =~= d@);
        r
    } else {
        d
    }
}

/// Reads an unsigned 64-bit number from the bytes `s[start..end]`, as
/// `<u64 as FromStr>::from_str` reads that text.
pub fn parse_u64_range(s: &[u8], start: usize, end: usize) -> (r: Option<u64>)
    requires
        start <= end <= s@.len(),
    ensures
        r == parse_u64_spec(s@.subrange(start as int, end as int)),
{
    let ghost text = s@.subrange(start as int, end as int);
    let mut i = start;
    if i < end && s[i] == 43u8 {
        i = i + 1;
    }
    let ghost body = s@.subrange(i as int, end as int);
    assert(body =~= (if text.len() > 0 && text[0] == 43u8 {
        text.subrange(1, text.len() as int)
    } else {
        text
    }));
    if i == end {
        assert(body.len() == 0);
        assert(unsigned_literal_value(text) is None);
        return None;
    }
    let mut value: u64 = 0;
    let mut j = i;
    while j < end
        invariant
            i <= j <= end <= s@.len(),
            body == s@.subrange(i as int, end as int),
            body.len() > 0,
            text == s@.subrange(start as int, end as int),
            body == (if text.len() > 0 && text[0] == 43u8 {
                text.subrange(1, text.len() as int)
            } else {
                text
            }),
            all_digits(s@.subrange(i as int, j as int)),
            value as nat == digits_value(s@.subrange(i as int, j as int)),
        decreases end - j,
    {
        let b = s[j];
        if b < 48u8 || b > 57u8 {
            assert(body[j - i] == b);
            assert(!all_digits(body));
            return None;
        }
        let d = (b - 48u8) as u64;
        let ghost prefix = s@.subrange(i as int, (j + 1) as int);
        assert(prefix.drop_last() =~= s@.subrange(i as int, j as int));
        assert(all_digits(prefix)) by {
            assert forall|x: int| 0 <= x < prefix.len() implies is_digit(#[trigger] prefix[x]) by {
                if x < prefix.len() - 1 {
                    assert(prefix[x] == s@.subrange(i as int, j as int)[x]);
                }
            }
        }
        if value > (u64::MAX - d) / 10 {
            // the digits read so far already exceed the range
            proof {
                assert(digits_value(prefix) == value * 10 + d);
                assert(digits_value(prefix) > u64::MAX);
                if all_digits(body) {
                    assert(prefix =~= body.subrange(0, (j + 1 - i) as int));
                    lemma_digits_value_prefix_le(body, (j + 1 - i) as int);
                }
            }
            return None;
        }
        value = value * 10 + d;
        j = j + 1;
    }
    assert(s@.subrange(i as int, end as int) =~= body);
    Some(value)
}

} // verus!
