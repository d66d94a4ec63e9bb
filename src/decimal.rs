//! Decimal text for integers, in ASCII bytes.
use vstd::prelude::*;

verus! {

/// The ASCII byte of a decimal digit.
pub open spec fn digit_byte(d: nat) -> u8
    recommends
        d < 10,
{
    (48 + d) as u8
}

pub open spec fn is_digit(c: u8) -> bool {
    48 <= c <= 57
}

/// The shortest decimal spelling of `n`, most significant digit first.
pub open spec fn nat_digits(n: nat) -> Seq<u8>
    decreases n,
{
    if n < 10 {
        seq![digit_byte(n)]
    } else {
        nat_digits(n / 10).push(digit_byte(n % 10))
    }
}

/// The decimal spelling of `n`: a `-` before the digits of a negative number.
pub open spec fn decimal(n: int) -> Seq<u8> {
    if n < 0 {
        seq![45u8] + nat_digits((-n) as nat)
    } else {
        nat_digits(n as nat)
    }
}

pub open spec fn all_digits(t: Seq<u8>) -> bool {
    forall|i: int| 0 <= i < t.len() ==> #[trigger] is_digit(t[i])
}

/// The number that a run of decimal digits spells.
pub open spec fn digits_value(t: Seq<u8>) -> nat
    decreases t.len(),
{
    if t.len() == 0 {
        0
    } else {
        digits_value(t.drop_last()) * 10 + (t.last() - 48) as nat
    }
}

/// The integer that `t` spells: an optional `+` or `-` and at least one digit.
pub open spec fn parse_signed(t: Seq<u8>) -> Option<int> {
    if t.len() > 0 && (t[0] == 43u8 || t[0] == 45u8) {
        let d = t.drop_first();
        if d.len() > 0 && all_digits(d) {
            if t[0] == 45u8 {
                Some(-(digits_value(d) as int))
            } else {
                Some(digits_value(d) as int)
            }
        } else {
            None
        }
    } else if t.len() > 0 && all_digits(t) {
        Some(digits_value(t) as int)
    } else {
        None
    }
}

/// `parse_signed`, kept to the range of `i64`.
pub open spec fn parse_i64(t: Seq<u8>) -> Option<int> {
    match parse_signed(t) {
        Some(n) => if i64::MIN <= n <= i64::MAX {
            Some(n)
        } else {
            None
        },
        None => None,
    }
}

pub proof fn lemma_nat_digits_shape(n: nat)
    ensures
        nat_digits(n).len() > 0,
        all_digits(nat_digits(n)),
        digits_value(nat_digits(n)) == n,
    decreases n,
{
    let s = nat_digits(n);
    if n >= 10 {
        lemma_nat_digits_shape(n / 10);
        assert(s.drop_last() =~= nat_digits(n / 10));
        assert(s.last() == digit_byte(n % 10));
        assert(digit_byte(n % 10) as int - 48 == n % 10);
        assert((n / 10) * 10 + n % 10 == n);
    } else {
        assert(s.drop_last() =~= Seq::<u8>::empty());
        assert(digits_value(Seq::<u8>::empty()) == 0);
        assert(digit_byte(n) as int - 48 == n);
    }
}

/// Reading back the decimal spelling of a number gives the number.
pub proof fn lemma_parse_decimal(n: int)
    ensures
        parse_signed(decimal(n)) == Some(n),
        decimal(n).len() > 0,
        forall|i: int| 0 <= i < decimal(n).len() ==> decimal(n)[i] != 13u8 && decimal(n)[i] != 32u8,
{
    if n < 0 {
        lemma_nat_digits_shape((-n) as nat);
        assert(decimal(n).drop_first() =~= nat_digits((-n) as nat));
        assert forall|i: int| 0 <= i < decimal(n).len() implies decimal(n)[i] != 13u8 && decimal(n)[i] != 32u8 by {
            if i > 0 {
                assert(decimal(n)[i] == nat_digits((-n) as nat)[i - 1]);
                assert(is_digit(nat_digits((-n) as nat)[i - 1]));
            }
        }
    } else {
        lemma_nat_digits_shape(n as nat);
        assert(is_digit(decimal(n)[0]));
        assert forall|i: int| 0 <= i < decimal(n).len() implies decimal(n)[i] != 13u8 && decimal(n)[i] != 32u8 by {
            assert(is_digit(decimal(n)[i]));
        }
    }
}

/// Appends the digits of `n`.
pub fn push_nat_digits(n: u64, out: &mut Vec<u8>)
    ensures
        final(out)@ == old(out)@ + nat_digits(n as nat),
    decreases n,
{
    if n >= 10 {
        push_nat_digits(n / 10, out);
    }
    let d: u8 = (n % 10) as u8;
    out.push(48u8 + d);
    proof {
        if n >= 10 {
            assert(final(out)@ =~= old(out)@ + nat_digits(n as nat));
        } else {
            assert(final(out)@ =~= old(out)@ + nat_digits(n as nat));
        }
    }
}

/// Appends the decimal spelling of `n`.
pub fn push_decimal(n: i64, out: &mut Vec<u8>)
    ensures
        final(out)@ == old(out)@ + decimal(n as int),
{
    if n < 0 {
        out.push(45u8);
        let m: u64 = (-(n as i128)) as u64;
        push_nat_digits(m, out);
        assert(final(out)@ =~= old(out)@ + decimal(n as int));
    } else {
        push_nat_digits(n as u64, out);
    }
}

/// Reads a signed decimal number that fits in `i64`.
pub fn parse_i64_bytes(t: &[u8]) -> (r: Option<i64>)
    ensures
        match r {
            Some(n) => parse_i64(t@) == Some(n as int),
            None => parse_i64(t@) is None,
        },
{
    let n = t.len();
    if n == 0 {
        return None;
    }
    let neg = t[0] == 45u8;
    let start: usize = if t[0] == 43u8 || t[0] == 45u8 { 1 } else { 0 };
    if start == n {
        return None;
    }
    let ghost d = t@.subrange(start as int, n as int);
    // The magnitude may reach 2^63 for a negative number.
    let limit: u64 = if neg { 9223372036854775808u64 } else { 9223372036854775807u64 };
    let mut acc: u64 = 0;
    let mut i: usize = start;
    while i < n
        invariant
            start <= i <= n,
            n == t@.len(),
            n > 0,
            start == (if t@[0] == 43u8 || t@[0] == 45u8 { 1usize } else { 0usize }),
            neg == (t@[0] == 45u8),
            limit == (if neg { 9223372036854775808u64 } else { 9223372036854775807u64 }),
            d == t@.subrange(start as int, n as int),
            acc as nat == digits_value(d.take(i - start)),
            acc <= limit,
            all_digits(d.take(i - start)),
        decreases n - i,
    {
        let c = t[i];
        if c < 48u8 || c > 57u8 {
            proof {
                assert(!is_digit(d[i - start]));
                if t@[0] == 43u8 || t@[0] == 45u8 {
                    assert(t@.drop_first() =~= d);
                } else {
                    assert(t@ =~= d);
                }
            }
            return None;
        }
        let v: u64 = (c - 48u8) as u64;
        proof {
            assert(d.take(i - start + 1).drop_last() =~= d.take(i - start));
            assert(all_digits(d.take(i - start + 1)));
        }
        if acc > (limit - v) / 10 {
            proof {
                lemma_digits_grow(d, i - start + 1);
                assert(d.take(d.len() as int) =~= d);
                if t@[0] == 43u8 || t@[0] == 45u8 {
                    assert(t@.drop_first() =~= d);
                } else {
                    assert(t@ =~= d);
                }
            }
            return None;
        }
        acc = acc * 10 + v;
        i = i + 1;
    }
    proof {
        assert(d.take(d.len() as int) =~= d);
        if t@[0] == 43u8 || t@[0] == 45u8 {
            assert(t@.drop_first() =~= d);
        } else {
            assert(t@ =~= d);
        }
    }
    if neg {
        if acc == 9223372036854775808u64 {
            Some(i64::MIN)
        } else {
            Some(-(acc as i64))
        }
    } else {
        Some(acc as i64)
    }
}

/// Digits that follow can only make a number larger: if the first `k` digits
/// already exceed `limit` (via the failed check), the whole run does too, or
/// some later byte is no digit.
proof fn lemma_digits_grow(d: Seq<u8>, k: int)
    requires
        0 < k <= d.len(),
    ensures
        all_digits(d) ==> digits_value(d) >= digits_value(d.take(k)),
    decreases d.len() - k,
{
    if k < d.len() && all_digits(d) {
        lemma_digits_grow(d, k + 1);
        assert(d.take(k + 1).drop_last() =~= d.take(k));
        assert(all_digits(d.take(k + 1))) by {
            assert forall|i: int| 0 <= i < d.take(k + 1).len() implies #[trigger] is_digit(d.take(k + 1)[i]) by {
                assert(is_digit(d[i]));
            }
        }
    } else if k == d.len() {
        assert(d.take(k) =~= d);
    }
}

/// Decimal text is ASCII: a sign and digits.
pub proof fn lemma_decimal_ascii(n: int)
    ensures
        forall|i: int| 0 <= i < decimal(n).len() ==> #[trigger] decimal(n)[i] < 128,
{
    if n < 0 {
        lemma_nat_digits_shape((-n) as nat);
        assert forall|i: int| 0 <= i < decimal(n).len() implies #[trigger] decimal(n)[i] < 128 by {
            if i > 0 {
                assert(decimal(n)[i] == nat_digits((-n) as nat)[i - 1]);
                assert(is_digit(nat_digits((-n) as nat)[i - 1]));
            }
        }
    } else {
        lemma_nat_digits_shape(n as nat);
        assert forall|i: int| 0 <= i < decimal(n).len() implies #[trigger] decimal(n)[i] < 128 by {
            assert(is_digit(decimal(n)[i]));
        }
    }
}

} // verus!
