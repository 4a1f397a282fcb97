//! Decimal integers as they stand on the wire: an optional sign and one or
//! more ASCII digits.
use vstd::prelude::*;

verus! {

/// `-`.
pub const MINUS: u8 = 45;

/// `+`.
pub const PLUS: u8 = 43;

/// `b` is one of `0` to `9`.
pub open spec fn is_digit(b: u8) -> bool {
    48 <= b <= 57
}

/// Every byte of `s` is a digit.
pub open spec fn all_digits(s: Seq<u8>) -> bool {
    forall|i: int| 0 <= i < s.len() ==> is_digit(#[trigger] s[i])
}

/// The number that a run of digits writes, most significant digit first.
pub open spec fn digits_value(s: Seq<u8>) -> nat
    decreases s.len(),
{
    if s.len() == 0 {
        0
    } else {
        digits_value(s.drop_last()) * 10 + (s.last() - 48) as nat
    }
}

/// The integer that `s` writes: `[+-]?[0-9]+`, of any length and with any
/// number of leading zeros. `None` for everything else.
pub open spec fn decimal_value(s: Seq<u8>) -> Option<int> {
    if s.len() > 0 && (s[0] == MINUS || s[0] == PLUS) {
        let digits = s.skip(1);
        if digits.len() > 0 && all_digits(digits) {
            if s[0] == MINUS {
                Some(-(digits_value(digits) as int))
            } else {
                Some(digits_value(digits) as int)
            }
        } else {
            None
        }
    } else if s.len() > 0 && all_digits(s) {
        Some(digits_value(s) as int)
    } else {
        None
    }
}

/// The signed 64-bit integer that `s` writes, if it writes one that fits.
pub open spec fn decimal_i64(s: Seq<u8>) -> Option<i64> {
    match decimal_value(s) {
        Some(n) => if i64::MIN <= n <= i64::MAX {
            Some(n as i64)
        } else {
            None
        },
        None => None,
    }
}

/// The digits of `n`, without leading zeros.
pub open spec fn digits_of(n: nat) -> Seq<u8>
    decreases n,
{
    if n < 10 {
        seq![(48 + n) as u8]
    } else {
        digits_of(n / 10).push((48 + n % 10) as u8)
    }
}

/// The shortest text of `n`: a minus sign for a negative number, then its
/// digits.
pub open spec fn decimal_text(n: int) -> Seq<u8> {
    if n < 0 {
        seq![MINUS] + digits_of((-n) as nat)
    } else {
        digits_of(n as nat)
    }
}

/// The digits of a number are digits, and write the number.
pub proof fn lemma_digits_of(n: nat)
    ensures
        digits_of(n).len() > 0,
        all_digits(digits_of(n)),
        digits_value(digits_of(n)) == n,
    decreases n,
{
    if n < 10 {
        let s = digits_of(n);
        assert(digits_value(s.drop_last()) == 0);
    } else {
        lemma_digits_of(n / 10);
        let s = digits_of(n);
        assert(s.drop_last() =~= digits_of(n / 10));
    }
}

/// Reading the text of a number gives the number back.
pub proof fn lemma_decimal_text_value(n: int)
    ensures
        decimal_value(decimal_text(n)) == Some(n),
        decimal_text(n).len() > 0,
        forall|i: int|
            0 <= i < decimal_text(n).len() ==> #[trigger] decimal_text(n)[i] == MINUS || is_digit(
                decimal_text(n)[i],
            ),
{
    if n < 0 {
        lemma_digits_of((-n) as nat);
        let t = decimal_text(n);
        assert(t.skip(1) =~= digits_of((-n) as nat));
    } else {
        lemma_digits_of(n as nat);
    }
}

/// Ten to the power `k`.
pub open spec fn pow10(k: nat) -> nat
    decreases k,
{
    if k == 0 {
        1
    } else {
        10 * pow10((k - 1) as nat)
    }
}

/// A number below the `k`-th power of ten has at most `k` digits.
pub proof fn lemma_digits_len(n: nat, k: nat)
    requires
        k >= 1,
        n < pow10(k),
    ensures
        digits_of(n).len() <= k,
    decreases k,
{
    if n >= 10 {
        assert(pow10(1) == 10) by {
            reveal_with_fuel(pow10, 2);
        }
        lemma_digits_len(n / 10, (k - 1) as nat);
    }
}

/// The text of a signed 64-bit integer has at most twenty bytes.
pub proof fn lemma_decimal_text_len(n: int)
    requires
        i64::MIN <= n <= i64::MAX,
    ensures
        decimal_text(n).len() <= 20,
{
    assert(pow10(19) == 10_000_000_000_000_000_000) by {
        reveal_with_fuel(pow10, 20);
    }
    if n < 0 {
        lemma_digits_len((-n) as nat, 19);
    } else {
        lemma_digits_len(n as nat, 19);
    }
}

/// A run of digits writes no less than any beginning of it.
pub proof fn lemma_digits_value_bound(s: Seq<u8>, k: int)
    requires
        0 <= k <= s.len(),
    ensures
        digits_value(s.take(k)) <= digits_value(s),
        s.take(s.len() as int) == s,
    decreases s.len() - k,
{
    assert(s.take(s.len() as int) =~= s);
    if k < s.len() {
        lemma_digits_value_bound(s, k + 1);
        assert(s.take(k + 1).drop_last() =~= s.take(k));
    }
}

/// Reads a run of digits. `None` when the run is empty, holds a byte that
/// is no digit, or writes a number above `u64::MAX`.
fn parse_digits(s: &[u8], from: usize) -> (r: Option<u64>)
    requires
        from <= s.len(),
    ensures
        r == if s@.skip(from as int).len() > 0 && all_digits(s@.skip(from as int)) && digits_value(
            s@.skip(from as int),
        ) <= u64::MAX {
            Some(digits_value(s@.skip(from as int)) as u64)
        } else {
            None
        },
{
    let ghost d = s@.skip(from as int);
    if from == s.len() {
        return None;
    }
    let mut acc: u64 = 0;
    let mut i: usize = from;
    while i < s.len()
        invariant
            from <= i <= s.len(),
            d == s@.skip(from as int),
            all_digits(d.take(i - from)),
            acc == digits_value(d.take(i - from)),
        decreases s.len() - i,
    {
        let b = s[i];
        assert(d[i - from] == b);
        assert(d.take(i - from + 1).drop_last() =~= d.take(i - from));
        if b < 48 || b > 57 {
            return None;
        }
        let digit: u64 = (b - 48) as u64;
        proof {
            lemma_digits_value_bound(d, i - from + 1);
        }
        if acc > (u64::MAX - digit) / 10 {
            return None;
        }
        acc = acc * 10 + digit;
        i = i + 1;
    }
    proof {
        lemma_digits_value_bound(d, d.len() as int);
    }
    Some(acc)
}

/// Reads a signed decimal integer.
pub fn parse_decimal(s: &[u8]) -> (r: Option<i64>)
    ensures
        r == decimal_i64(s@),
{
    if s.len() == 0 {
        return None;
    }
    let first = s[0];
    if first == MINUS {
        match parse_digits(s, 1) {
            Some(m) => if m <= 9223372036854775808u64 {
                if m == 9223372036854775808u64 {
                    Some(i64::MIN)
                } else {
                    Some(-(m as i64))
                }
            } else {
                None
            },
            None => None,
        }
    } else if first == PLUS {
        match parse_digits(s, 1) {
            Some(m) => if m <= 9223372036854775807u64 {
                Some(m as i64)
            } else {
                None
            },
            None => None,
        }
    } else {
        assert(s@.skip(0) =~= s@);
        match parse_digits(s, 0) {
            Some(m) => if m <= 9223372036854775807u64 {
                Some(m as i64)
            } else {
                None
            },
            None => None,
        }
    }
}

/// Appends the digits of `n`.
pub fn push_digits(n: u64, out: &mut Vec<u8>)
    ensures
        final(out)@ == old(out)@ + digits_of(n as nat),
    decreases n,
{
    if n >= 10 {
        push_digits(n / 10, out);
    }
    out.push((48 + n % 10) as u8);
    assert(final(out)@ =~= old(out)@ + digits_of(n as nat));
}

/// Appends the shortest text of `n`.
pub fn push_decimal(n: i64, out: &mut Vec<u8>)
    ensures
        final(out)@ == old(out)@ + decimal_text(n as int),
{
    if n < 0 {
        out.push(MINUS);
        let m: u64 = if n == i64::MIN {
            9223372036854775808u64
        } else {
            (-n) as u64
        };
        push_digits(m, out);
    } else {
        push_digits(n as u64, out);
    }
}

} // verus!
