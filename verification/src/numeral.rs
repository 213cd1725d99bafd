//! Decimal numerals as byte strings: what they denote, how they are read and
//! how they are written.
use vstd::prelude::*;
use vstd::slice::slice_subrange;

verus! {

/// Whether `b` is one of the ASCII digits.
pub open spec fn is_digit(b: u8) -> bool {
    '0' as u8 <= b <= '9' as u8
}

/// Whether every byte of `s` is an ASCII digit.
pub open spec fn all_digits(s: Seq<u8>) -> bool {
    forall|i: int| 0 <= i < s.len() ==> is_digit(#[trigger] s[i])
}

/// The number that a sequence of digits denotes, most significant digit first.
pub open spec fn digits_value(s: Seq<u8>) -> nat
    decreases s.len(),
{
    if s.len() == 0 {
        0
    } else {
        digits_value(s.drop_last()) * 10 + (s.last() - '0' as u8) as nat
    }
}

/// The shortest decimal numeral of `n`.
pub open spec fn decimal(n: nat) -> Seq<u8>
    decreases n,
{
    if n < 10 {
        seq![('0' as u8 + n) as u8]
    } else {
        decimal(n / 10).push(('0' as u8 + n % 10) as u8)
    }
}

/// The decimal numeral of a signed number: a minus sign where it is negative.
pub open spec fn signed_decimal(i: int) -> Seq<u8> {
    if i < 0 {
        seq!['-' as u8] + decimal((-i) as nat)
    } else {
        decimal(i as nat)
    }
}

/// The number that a non-empty run of digits denotes.
pub open spec fn unsigned_numeral(s: Seq<u8>) -> Option<nat> {
    if s.len() > 0 && all_digits(s) {
        Some(digits_value(s))
    } else {
        None
    }
}

/// The number that digits with at most one leading sign denote.
pub open spec fn signed_numeral(s: Seq<u8>) -> Option<int> {
    if s.len() > 0 && s[0] == '-' as u8 {
        match unsigned_numeral(s.skip(1)) {
            Some(n) => Some(-(n as int)),
            None => None,
        }
    } else if s.len() > 0 && s[0] == '+' as u8 {
        match unsigned_numeral(s.skip(1)) {
            Some(n) => Some(n as int),
            None => None,
        }
    } else {
        match unsigned_numeral(s) {
            Some(n) => Some(n as int),
            None => None,
        }
    }
}

/// A longer run of digits denotes at least as much as its beginning.
proof fn lemma_digits_value_prefix(s: Seq<u8>, n: int)
    requires
        all_digits(s),
        0 <= n <= s.len(),
    ensures
        digits_value(s.take(n)) <= digits_value(s),
    decreases s.len(),
{
    if n == s.len() {
        assert(s.take(n) =~= s);
    } else {
        assert(s.drop_last().take(n) =~= s.take(n));
        lemma_digits_value_prefix(s.drop_last(), n);
        assert(digits_value(s) >= digits_value(s.drop_last()));
    }
}

/// Reading a numeral undoes writing it.
pub proof fn decimal_reads_back(n: nat)
    ensures
        decimal(n).len() > 0,
        all_digits(decimal(n)),
        digits_value(decimal(n)) == n,
        unsigned_numeral(decimal(n)) == Some(n),
    decreases n,
{
    if n < 10 {
        let one = seq![('0' as u8 + n) as u8];
        assert(one.drop_last() =~= Seq::<u8>::empty());
        assert(digits_value(one.drop_last()) == 0);
        assert(one.last() == '0' as u8 + n);
        assert(all_digits(one));
    } else {
        decimal_reads_back(n / 10);
        let s = decimal(n);
        assert(s.drop_last() =~= decimal(n / 10));
        assert(s.last() == '0' as u8 + n % 10);
        assert forall|i: int| 0 <= i < s.len() implies is_digit(#[trigger] s[i]) by {
            if i < s.len() - 1 {
                assert(s[i] == decimal(n / 10)[i]);
            }
        }
    }
}

/// Reading a signed numeral undoes writing it.
pub proof fn signed_decimal_reads_back(i: int)
    ensures
        signed_numeral(signed_decimal(i)) == Some(i),
        signed_decimal(i).len() > 0,
{
    if i < 0 {
        decimal_reads_back((-i) as nat);
        assert(signed_decimal(i).skip(1) =~= decimal((-i) as nat));
    } else {
        decimal_reads_back(i as nat);
        assert(is_digit(decimal(i as nat)[0]));
    }
}

/// Appends the decimal numeral of `n`.
pub(crate) fn push_decimal(buf: &mut Vec<u8>, n: u64)
    ensures
        final(buf)@ == old(buf)@ + decimal(n as nat),
    decreases n,
{
    if n >= 10 {
        push_decimal(buf, n / 10);
    }
    buf.push('0' as u8 + (n % 10) as u8);
}

/// Appends the decimal numeral of a signed number.
pub(crate) fn push_signed_decimal(buf: &mut Vec<u8>, i: i64)
    ensures
        final(buf)@ == old(buf)@ + signed_decimal(i as int),
{
    if i < 0 {
        buf.push('-' as u8);
        let magnitude: u64 = (-(i as i128)) as u64;
        push_decimal(buf, magnitude);
    } else {
        push_decimal(buf, i as u64);
    }
}

/// Reads a run of digits, where it denotes a number that fits in 64 bits.
fn parse_digits(s: &[u8]) -> (r: Option<u64>)
    ensures
        r matches Some(n) ==> unsigned_numeral(s@) == Some(n as nat),
        r is None ==> match unsigned_numeral(s@) {
            Some(n) => n > u64::MAX,
            None => true,
        },
{
    if s.len() == 0 {
        return None;
    }
    let mut value: u64 = 0;
    let mut i: usize = 0;
    assert(s@.take(0) =~= Seq::<u8>::empty());
    while i < s.len()
        invariant
            i <= s.len(),
            all_digits(s@.take(i as int)),
            value == digits_value(s@.take(i as int)),
        decreases s.len() - i,
    {
        let b: u8 = s[i];
        if b < '0' as u8 || b > '9' as u8 {
            assert(!is_digit(s@[i as int]));
            return None;
        }
        let digit: u64 = (b - '0' as u8) as u64;
        let ghost longer = s@.take(i + 1);
        proof {
            assert(longer.drop_last() =~= s@.take(i as int));
            assert(digits_value(longer) == value * 10 + digit);
            assert(all_digits(longer)) by {
                assert forall|k: int| 0 <= k < longer.len() implies is_digit(#[trigger] longer[k]) by {
                    if k < i {
                        assert(longer[k] == s@.take(i as int)[k]);
                    }
                }
            }
        }
        if value > (u64::MAX - digit) / 10 {
            proof {
                if all_digits(s@) {
                    lemma_digits_value_prefix(s@, i + 1);
                }
            }
            return None;
        }
        value = value * 10 + digit;
        i += 1;
    }
    assert(s@.take(i as int) =~= s@);
    Some(value)
}

/// Reads an unsigned numeral that fits in a `usize`.
pub(crate) fn parse_usize(s: &[u8]) -> (r: Option<usize>)
    ensures
        r == match unsigned_numeral(s@) {
            Some(n) => if n <= usize::MAX { Some(n as usize) } else { None },
            None => None,
        },
{
    match parse_digits(s) {
        Some(n) => if n <= usize::MAX as u64 {
            Some(n as usize)
        } else {
            None
        },
        None => None,
    }
}

/// Reads a numeral with an optional sign that fits in an `i64`.
pub(crate) fn parse_i64(s: &[u8]) -> (r: Option<i64>)
    ensures
        r == match signed_numeral(s@) {
            Some(i) => if i64::MIN <= i <= i64::MAX { Some(i as i64) } else { None },
            None => None,
        },
{
    if s.len() == 0 {
        return None;
    }
    if s[0] == '-' as u8 {
        let rest = slice_subrange(s, 1, s.len());
        assert(rest@ =~= s@.skip(1));
        match parse_digits(rest) {
            Some(n) => if n <= 9223372036854775808 {
                Some((-(n as i128)) as i64)
            } else {
                None
            },
            None => None,
        }
    } else if s[0] == '+' as u8 {
        let rest = slice_subrange(s, 1, s.len());
        assert(rest@ =~= s@.skip(1));
        match parse_digits(rest) {
            Some(n) => if n <= i64::MAX as u64 {
                Some(n as i64)
            } else {
                None
            },
            None => None,
        }
    } else {
        match parse_digits(s) {
            Some(n) => if n <= i64::MAX as u64 {
                Some(n as i64)
            } else {
                None
            },
            None => None,
        }
    }
}

} // verus!
