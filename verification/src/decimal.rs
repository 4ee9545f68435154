//! Decimal numbers as they appear on the wire: an optional sign followed by
//! ASCII digits.

use vstd::prelude::*;

verus! {

/// The largest magnitude a signed 64-bit number can have (that of `i64::MIN`).
pub const MAGNITUDE_LIMIT: u64 = 9223372036854775808u64;

/// Tells whether `b` is the code of an ASCII decimal digit.
pub open spec fn is_digit(b: u8) -> bool {
    48 <= b <= 57
}

/// Tells whether every byte of `s` is an ASCII decimal digit.
pub open spec fn all_digits(s: Seq<u8>) -> bool {
    forall|i: int| 0 <= i < s.len() ==> is_digit(#[trigger] s[i])
}

/// The number that a string of digits denotes, most significant digit first.
pub open spec fn digits_value(s: Seq<u8>) -> nat
    decreases s.len(),
{
    if s.len() == 0 {
        0
    } else {
        (digits_value(s.drop_last()) * 10 + (s.last() - 48)) as nat
    }
}

/// The integer that a line denotes: an optional `+` or `-`, then one or more
/// digits. `None` for anything else.
pub open spec fn parse_decimal(s: Seq<u8>) -> Option<int> {
    if s.len() > 0 && (s[0] == 45 || s[0] == 43) {
        let body = s.subrange(1, s.len() as int);
        if body.len() > 0 && all_digits(body) {
            if s[0] == 45 {
                Some(-(digits_value(body) as int))
            } else {
                Some(digits_value(body) as int)
            }
        } else {
            None
        }
    } else if s.len() > 0 && all_digits(s) {
        Some(digits_value(s) as int)
    } else {
        None
    }
}

/// The signed 64-bit number that a line denotes, if it denotes an integer
/// and that integer is in range.
pub open spec fn parse_i64(s: Seq<u8>) -> Option<i64> {
    match parse_decimal(s) {
        Some(v) => if i64::MIN <= v <= i64::MAX {
            Some(v as i64)
        } else {
            None
        },
        None => None,
    }
}

/// The digits of a natural number, without leading zeros.
pub open spec fn digits(n: nat) -> Seq<u8>
    decreases n,
{
    if n < 10 {
        seq![(48 + n) as u8]
    } else {
        digits(n / 10).push((48 + n % 10) as u8)
    }
}

/// The decimal form of an integer: a `-` for a negative number, then the
/// digits of its magnitude.
pub open spec fn decimal(n: int) -> Seq<u8> {
    if n < 0 {
        seq![45u8] + digits((-n) as nat)
    } else {
        digits(n as nat)
    }
}

/// `digits` yields at least one byte, and only digits.
pub proof fn lemma_digits_shape(n: nat)
    ensures
        digits(n).len() >= 1,
        all_digits(digits(n)),
    decreases n,
{
    if n >= 10 {
        lemma_digits_shape(n / 10);
    }
}

/// Reading back the digits of a number gives the number.
pub proof fn lemma_digits_value(n: nat)
    ensures
        digits_value(digits(n)) == n,
    decreases n,
{
    if n < 10 {
        assert(digits(n).drop_last() =~= Seq::<u8>::empty());
        assert(digits_value(digits(n).drop_last()) == 0);
    } else {
        lemma_digits_value(n / 10);
        assert(digits(n).drop_last() =~= digits(n / 10));
    }
}

/// A decimal form holds neither a carriage return nor a line feed.
pub proof fn lemma_decimal_has_no_line_break(n: int)
    ensures
        decimal(n).len() >= 1,
        forall|i: int| 0 <= i < decimal(n).len() ==> decimal(n)[i] != 13 && decimal(n)[i] != 10,
{
    if n < 0 {
        lemma_digits_shape((-n) as nat);
    } else {
        lemma_digits_shape(n as nat);
    }
}

/// Parsing the decimal form of an integer gives the integer back.
pub proof fn lemma_parse_decimal_of_decimal(n: int)
    ensures
        parse_decimal(decimal(n)) == Some(n),
{
    if n < 0 {
        let m = (-n) as nat;
        lemma_digits_shape(m);
        lemma_digits_value(m);
        assert(decimal(n).subrange(1, decimal(n).len() as int) =~= digits(m));
    } else {
        lemma_digits_shape(n as nat);
        lemma_digits_value(n as nat);
    }
}

/// A string of digits denotes at least what any of its prefixes denotes.
pub proof fn lemma_digits_value_prefix(s: Seq<u8>, k: int)
    requires
        0 <= k <= s.len(),
        all_digits(s),
    ensures
        digits_value(s.subrange(0, k)) <= digits_value(s),
    decreases s.len(),
{
    if k == s.len() {
        assert(s.subrange(0, k) =~= s);
    } else {
        lemma_digits_value_prefix(s.drop_last(), k);
        assert(s.drop_last().subrange(0, k) =~= s.subrange(0, k));
    }
}

/// Appends the digits of `n` to `out`.
pub fn push_digits(out: &mut Vec<u8>, n: u64)
    ensures
        final(out)@ == old(out)@ + digits(n as nat),
    decreases n,
{
    if n >= 10 {
        push_digits(out, n / 10);
    }
    let d: u8 = (n % 10) as u8;
    out.push(48 + d);
}

/// Appends the decimal form of `n` to `out`.
pub fn push_decimal(out: &mut Vec<u8>, n: i64)
    ensures
        final(out)@ == old(out)@ + decimal(n as int),
{
    if n < 0 {
        out.push(45);
        let magnitude: u64 = (-(n + 1)) as u64 + 1;
        push_digits(out, magnitude);
    } else {
        push_digits(out, n as u64);
    }
}

/// Reads the bytes `buffer[start..end]` as a signed 64-bit decimal number.
#[verifier::loop_isolation(false)]
pub fn parse_signed(buffer: &[u8], start: usize, end: usize) -> (r: Option<i64>)
    requires
        start <= end <= buffer@.len(),
    ensures
        r == parse_i64(buffer@.subrange(start as int, end as int)),
{
    let ghost line = buffer@.subrange(start as int, end as int);
    if start == end {
        return None;
    }
    let sign: u8 = buffer[start];
    let negative = sign == 45;
    let first: usize = if sign == 45 || sign == 43 {
        start + 1
    } else {
        start
    };
    let ghost body = buffer@.subrange(first as int, end as int);
    proof {
        assert(line[0] == sign);
        if first == start {
            assert(body =~= line);
        } else {
            assert(body =~= line.subrange(1, line.len() as int));
        }
    }
    if first == end {
        return None;
    }
    let mut acc: u64 = 0;
    let mut i: usize = first;
    while i < end
        invariant
            first <= i <= end <= buffer@.len(),
            body == buffer@.subrange(first as int, end as int),
            all_digits(body.subrange(0, i - first)),
            acc == digits_value(body.subrange(0, i - first)),
            acc <= MAGNITUDE_LIMIT,
        decreases end - i,
    {
        let b: u8 = buffer[i];
        proof {
            assert(body[i - first] == b);
        }
        if !(48 <= b && b <= 57) {
            return None;
        }
        let d: u64 = (b - 48) as u64;
        proof {
            let longer = body.subrange(0, i - first + 1);
            assert(longer.drop_last() =~= body.subrange(0, i - first));
            assert(longer.last() == b);
            assert(digits_value(longer) == acc * 10 + d);
            assert(all_digits(longer)) by {
                assert forall|j: int| 0 <= j < longer.len() implies is_digit(#[trigger] longer[j]) by {
                    if j < i - first {
                        assert(body.subrange(0, i - first)[j] == longer[j]);
                    }
                }
            }
            if acc > (MAGNITUDE_LIMIT - d) / 10 {
                if all_digits(body) {
                    lemma_digits_value_prefix(body, i - first + 1);
                }
            }
        }
        if acc > (MAGNITUDE_LIMIT - d) / 10 {
            return None;
        }
        acc = acc * 10 + d;
        i = i + 1;
    }
    proof {
        assert(body.subrange(0, i - first) =~= body);
    }
    if negative {
        if acc == MAGNITUDE_LIMIT {
            Some(i64::MIN)
        } else {
            Some(-(acc as i64))
        }
    } else if acc == MAGNITUDE_LIMIT {
        None
    } else {
        Some(acc as i64)
    }
}

} // verus!
