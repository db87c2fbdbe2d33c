//! Decimal rendering and parsing of integers, as `format!("{}")` and
//! `str::parse` do it for `i64` and `usize`.
use vstd::prelude::*;
use crate::text::push_char;

verus! {

/// The ASCII digit for `d < 10`.
pub open spec fn digit_char(d: nat) -> char {
    (48 + d) as char
}

/// `c` is an ASCII digit.
pub open spec fn is_digit(c: char) -> bool {
    48 <= (c as u32) <= 57
}

/// The value of an ASCII digit.
pub open spec fn digit_value(c: char) -> int {
    (c as u32) - 48
}

/// Every character of `s` is an ASCII digit.
pub open spec fn all_digits(s: Seq<char>) -> bool {
    forall|i: int| 0 <= i < s.len() ==> #[trigger] is_digit(s[i])
}

/// The value of a string of decimal digits.
pub open spec fn digits_value(s: Seq<char>) -> int
    decreases s.len(),
{
    if s.len() == 0 {
        0
    } else {
        digits_value(s.drop_last()) * 10 + digit_value(s.last())
    }
}

/// Decimal rendering of a natural number, without leading zeros.
pub open spec fn dec_nat(n: nat) -> Seq<char>
    decreases n,
{
    if n < 10 {
        seq![digit_char(n)]
    } else {
        dec_nat(n / 10) + seq![digit_char(n % 10)]
    }
}

/// Decimal rendering of an integer, with a leading `-` when negative.
pub open spec fn dec_int(n: int) -> Seq<char> {
    if n < 0 {
        seq!['-'] + dec_nat((-n) as nat)
    } else {
        dec_nat(n as nat)
    }
}

/// The value of a non-empty run of digits.
pub open spec fn unsigned_value(s: Seq<char>) -> Option<int> {
    if s.len() > 0 && all_digits(s) {
        Some(digits_value(s))
    } else {
        None
    }
}

/// `s` without one leading `+`, if it has one.
pub open spec fn strip_plus(s: Seq<char>) -> Seq<char> {
    if s.len() > 0 && s[0] == '+' {
        s.drop_first()
    } else {
        s
    }
}

/// What `str::parse::<i64>` accepts: an optional sign, then at least one
/// ASCII digit and nothing else, with the value in range.
pub open spec fn parse_i64_spec(s: Seq<char>) -> Option<i64> {
    if s.len() > 0 && s[0] == '-' {
        match unsigned_value(s.drop_first()) {
            Some(v) => if v <= 0x8000_0000_0000_0000 {
                Some((-v) as i64)
            } else {
                None
            },
            None => None,
        }
    } else {
        match unsigned_value(strip_plus(s)) {
            Some(v) => if v <= i64::MAX {
                Some(v as i64)
            } else {
                None
            },
            None => None,
        }
    }
}

/// What `str::parse::<usize>` accepts: an optional `+`, then at least one
/// ASCII digit and nothing else, with the value in range.
pub open spec fn parse_usize_spec(s: Seq<char>) -> Option<usize> {
    match unsigned_value(strip_plus(s)) {
        Some(v) => if v <= usize::MAX {
            Some(v as usize)
        } else {
            None
        },
        None => None,
    }
}

proof fn lemma_digits_value_nonneg(s: Seq<char>)
    requires
        all_digits(s),
    ensures
        digits_value(s) >= 0,
    decreases s.len(),
{
    if s.len() > 0 {
        assert(is_digit(s[s.len() - 1]));
        lemma_digits_value_nonneg(s.drop_last());
    }
}

/// Values of digit prefixes grow with the prefix.
proof fn lemma_digits_value_mono(s: Seq<char>, i: int, j: int)
    requires
        all_digits(s),
        0 <= i <= j <= s.len(),
    ensures
        digits_value(s.take(i)) <= digits_value(s.take(j)),
    decreases j - i,
{
    if i < j {
        lemma_digits_value_mono(s, i, j - 1);
        assert(s.take(j).drop_last() =~= s.take(j - 1));
        assert(is_digit(s[j - 1]));
        lemma_digits_value_nonneg(s.take(j - 1));
    }
}

/// Value of the digits of `s` from `start` on, when it is at most `limit`.
fn parse_digits(s: &[char], start: usize, limit: u64) -> (r: Option<u64>)
    requires
        start <= s@.len(),
    ensures
        r == (match unsigned_value(s@.skip(start as int)) {
            Some(v) => if v <= limit {
                Some(v as u64)
            } else {
                None::<u64>
            },
            None => None,
        }),
        r matches Some(m) ==> m <= limit && unsigned_value(s@.skip(start as int)) == Some(m as int),
{
    let n = s.len();
    let ghost body = s@.skip(start as int);
    if start == n {
        return None;
    }
    let mut acc: u128 = 0;
    let mut i: usize = start;
    while i < n
        invariant
            n == s@.len(),
            start < n,
            start <= i <= n,
            body == s@.skip(start as int),
            all_digits(body.take(i - start)),
            acc == digits_value(body.take(i - start)),
            acc <= limit,
        decreases n - i,
    {
        let c = s[i];
        let u = c as u32;
        if u < 48 || u > 57 {
            assert(body[i - start] == c);
            assert(!is_digit(body[i - start]));
            return None;
        }
        let ghost k = i - start;
        assert(body.take(k + 1).drop_last() =~= body.take(k));
        assert(body.take(k + 1).last() == c);
        acc = acc * 10 + (u - 48) as u128;
        i = i + 1;
        assert(all_digits(body.take(i - start))) by {
            assert forall|j: int| 0 <= j < body.take(i - start).len() implies #[trigger] is_digit(
                body.take(i - start)[j],
            ) by {
                if j < k {
                    assert(body.take(i - start)[j] == body.take(k)[j]);
                }
            }
        }
        if acc > limit as u128 {
            proof {
                if all_digits(body) {
                    lemma_digits_value_mono(body, i - start, body.len() as int);
                    assert(body.take(body.len() as int) =~= body);
                }
            }
            return None;
        }
    }
    assert(body.take(i - start) =~= body);
    proof {
        lemma_digits_value_nonneg(body);
    }
    Some(acc as u64)
}

/// `s` parsed as an `i64`, as `str::parse::<i64>` does it.
pub fn parse_i64(s: &str) -> (r: Option<i64>)
    ensures
        r == parse_i64_spec(s@),
{
    let v = crate::text::chars_of(s);
    if v.len() > 0 && v[0] == '-' {
        assert(v@.skip(1) =~= v@.drop_first());
        match parse_digits(v.as_slice(), 1, 0x8000_0000_0000_0000u64) {
            Some(m) => {
                let neg: i128 = 0i128 - (m as i128);
                let r: i64 = neg as i64;
                assert(r == -(m as int));
                Some(r)
            },
            None => None,
        }
    } else {
        let start: usize = if v.len() > 0 && v[0] == '+' {
            1
        } else {
            0
        };
        assert(v@.skip(start as int) =~= strip_plus(v@));
        match parse_digits(v.as_slice(), start, 0x7fff_ffff_ffff_ffffu64) {
            Some(m) => {
                let r: i64 = m as i64;
                assert(r == m as int);
                Some(r)
            },
            None => None,
        }
    }
}

/// `s` parsed as a `usize`, as `str::parse::<usize>` does it.
pub fn parse_usize(s: &str) -> (r: Option<usize>)
    ensures
        r == parse_usize_spec(s@),
{
    let v = crate::text::chars_of(s);
    let start: usize = if v.len() > 0 && v[0] == '+' {
        1
    } else {
        0
    };
    assert(v@.skip(start as int) =~= strip_plus(v@));
    match parse_digits(v.as_slice(), start, usize::MAX as u64) {
        Some(m) => {
            let r: usize = m as usize;
            assert(r == m as int);
            Some(r)
        },
        None => None,
    }
}

/// A decimal rendering is a non-empty run of digits with that value.
pub proof fn lemma_dec_nat_digits(n: nat)
    ensures
        dec_nat(n).len() > 0,
        all_digits(dec_nat(n)),
        digits_value(dec_nat(n)) == n,
    decreases n,
{
    let s = dec_nat(n);
    if n < 10 {
        assert(is_digit(s[0]));
        assert(s.drop_last() =~= Seq::<char>::empty());
        assert(((48 + n) as char) as u32 == 48 + n);
        assert(digit_value(s.last()) == n);
        assert(digits_value(s.drop_last()) == 0);
        assert(digits_value(s) == digits_value(s.drop_last()) * 10 + digit_value(s.last()));
    } else {
        lemma_dec_nat_digits(n / 10);
        let p = dec_nat(n / 10);
        assert(s.drop_last() =~= p);
        let d = n % 10;
        assert(((48 + d) as char) as u32 == 48 + d);
        assert(digit_value(s.last()) == d);
        assert(n == (n / 10) * 10 + d);
        assert(digits_value(s.drop_last()) == n / 10);
        assert(digits_value(s) == digits_value(s.drop_last()) * 10 + digit_value(s.last()));
        assert forall|i: int| 0 <= i < s.len() implies #[trigger] is_digit(s[i]) by {
            if i < p.len() {
                assert(s[i] == p[i]);
            }
        }
    }
}

/// Rendering an `i64` in decimal and parsing it back gives it again.
pub proof fn law_parse_i64_undoes_dec(n: i64)
    ensures
        parse_i64_spec(dec_int(n as int)) == Some(n),
{
    if n < 0 {
        let m = (-n) as nat;
        lemma_dec_nat_digits(m);
        let s = dec_int(n as int);
        assert(s.drop_first() =~= dec_nat(m));
    } else {
        lemma_dec_nat_digits(n as nat);
        let s = dec_nat(n as nat);
        assert(is_digit(s[0]));
        assert(strip_plus(s) == s);
    }
}

/// Rendering a `usize` in decimal and parsing it back gives it again.
pub proof fn law_parse_usize_undoes_dec(n: usize)
    ensures
        parse_usize_spec(dec_nat(n as nat)) == Some(n),
{
    lemma_dec_nat_digits(n as nat);
    let s = dec_nat(n as nat);
    assert(is_digit(s[0]));
    assert(strip_plus(s) == s);
}

/// Appends the decimal rendering of `n`.
pub fn push_dec_u64(s: &mut String, n: u64)
    ensures
        final(s)@ == old(s)@ + dec_nat(n as nat),
    decreases n,
{
    if n >= 10 {
        push_dec_u64(s, n / 10);
    }
    let d: u8 = (n % 10) as u8;
    let c: char = (48u8 + d) as char;
    assert(c == digit_char((n % 10) as nat));
    push_char(s, c);
    assert(s@ =~= old(s)@ + dec_nat(n as nat));
}

/// Appends the decimal rendering of `n`, with `-` when negative.
pub fn push_dec_i64(s: &mut String, n: i64)
    ensures
        final(s)@ == old(s)@ + dec_int(n as int),
{
    if n < 0 {
        push_char(s, '-');
        let m: u64 = (0i128 - n as i128) as u64;
        push_dec_u64(s, m);
        assert(s@ =~= old(s)@ + dec_int(n as int));
    } else {
        push_dec_u64(s, n as u64);
    }
}

} // verus!
