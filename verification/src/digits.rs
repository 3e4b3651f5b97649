//! Decimal rendering and parsing of item ids.
//!
//! A migrated cover is stored under the decimal rendering of its row id;
//! the orphan reconciler later recovers the id by parsing the file stem.
//! Rendering and parsing are exact inverses, which is what lets the
//! reconciler trust a parsed stem.

use vstd::prelude::*;

verus! {

/// The character for one decimal digit.
pub open spec fn digit_char(d: int) -> char {
    if d == 0 {
        '0'
    } else if d == 1 {
        '1'
    } else if d == 2 {
        '2'
    } else if d == 3 {
        '3'
    } else if d == 4 {
        '4'
    } else if d == 5 {
        '5'
    } else if d == 6 {
        '6'
    } else if d == 7 {
        '7'
    } else if d == 8 {
        '8'
    } else {
        '9'
    }
}

/// The decimal digits of a natural number, most significant first.
pub open spec fn decimal_digits(n: nat) -> Seq<char>
    decreases n,
{
    if n < 10 {
        seq![digit_char(n as int)]
    } else {
        decimal_digits(n / 10).push(digit_char((n % 10) as int))
    }
}

/// The decimal rendering of an integer, with a leading minus sign when
/// negative.
pub open spec fn decimal_chars(n: int) -> Seq<char> {
    if n >= 0 {
        decimal_digits(n as nat)
    } else {
        seq!['-'] + decimal_digits((-n) as nat)
    }
}

/// An ASCII decimal digit.
pub open spec fn is_digit_char(c: char) -> bool {
    48 <= c as u32 <= 57
}

/// The value of one ASCII decimal digit.
pub open spec fn digit_val(c: char) -> nat {
    (c as u32 - 48) as nat
}

/// Every character of the sequence is an ASCII decimal digit.
pub open spec fn all_digits(s: Seq<char>) -> bool {
    forall|i: int| 0 <= i < s.len() ==> is_digit_char(#[trigger] s[i])
}

/// The number denoted by a sequence of decimal digits.
pub open spec fn digits_value(s: Seq<char>) -> nat
    decreases s.len(),
{
    if s.len() == 0 {
        0
    } else {
        digits_value(s.drop_last()) * 10 + digit_val(s.last())
    }
}

/// What parsing a decimal integer yields: an optional sign, then at least
/// one digit, and a value within `i64`; anything else is rejected.
pub open spec fn parse_i64_spec(s: Seq<char>) -> Option<i64> {
    if s.len() == 0 {
        None
    } else if s[0] == '-' {
        let ds = s.drop_first();
        if ds.len() > 0 && all_digits(ds) && digits_value(ds) <= 0x8000_0000_0000_0000 {
            Some((-(digits_value(ds) as int)) as i64)
        } else {
            None
        }
    } else if s[0] == '+' {
        let ds = s.drop_first();
        if ds.len() > 0 && all_digits(ds) && digits_value(ds) <= 0x7fff_ffff_ffff_ffff {
            Some(digits_value(ds) as i64)
        } else {
            None
        }
    } else {
        if all_digits(s) && digits_value(s) <= 0x7fff_ffff_ffff_ffff {
            Some(digits_value(s) as i64)
        } else {
            None
        }
    }
}

fn digit_to_char(d: u64) -> (c: char)
    requires
        d < 10,
    ensures
        c == digit_char(d as int),
{
    if d == 0 {
        '0'
    } else if d == 1 {
        '1'
    } else if d == 2 {
        '2'
    } else if d == 3 {
        '3'
    } else if d == 4 {
        '4'
    } else if d == 5 {
        '5'
    } else if d == 6 {
        '6'
    } else if d == 7 {
        '7'
    } else if d == 8 {
        '8'
    } else {
        '9'
    }
}

/// Append the decimal digits of `n` to `s`.
pub fn push_decimal(s: &mut String, n: u64)
    ensures
        final(s)@ == old(s)@ + decimal_digits(n as nat),
    decreases n,
{
    if n < 10 {
        let c = digit_to_char(n);
        s.push(c);
        proof {
            assert(old(s)@ + decimal_digits(n as nat) =~= old(s)@.push(digit_char(n as int)));
        }
    } else {
        push_decimal(s, n / 10);
        let c = digit_to_char(n % 10);
        s.push(c);
        proof {
            assert(old(s)@ + decimal_digits(n as nat) =~= (old(s)@ + decimal_digits(
                n as nat / 10,
            )).push(digit_char((n % 10) as int)));
        }
    }
}

/// The decimal rendering of an id, as a string.
pub fn i64_decimal_string(id: i64) -> (r: String)
    ensures
        r@ == decimal_chars(id as int),
{
    let mut s = String::new();
    if id >= 0 {
        push_decimal(&mut s, id as u64);
        proof {
            assert(Seq::<char>::empty() + decimal_digits(id as nat) =~= decimal_digits(
                id as nat,
            ));
        }
    } else {
        s.push('-');
        let m: u64 = (-(id as i128)) as u64;
        push_decimal(&mut s, m);
        proof {
            assert(Seq::<char>::empty().push('-') + decimal_digits(m as nat) =~= seq!['-']
                + decimal_digits((-(id as int)) as nat));
        }
    }
    s
}

/// A digit string's value only grows as more digits are appended.
proof fn lemma_digits_value_prefix(s: Seq<char>, k: int)
    requires
        0 <= k <= s.len(),
    ensures
        digits_value(s.take(k)) <= digits_value(s),
    decreases s.len() - k,
{
    if k < s.len() {
        assert(s.take(k + 1).drop_last() =~= s.take(k));
        assert(digits_value(s.take(k + 1)) == digits_value(s.take(k)) * 10 + digit_val(
            s.take(k + 1).last(),
        ));
        assert(digits_value(s.take(k)) <= digits_value(s.take(k)) * 10) by (nonlinear_arith);
        lemma_digits_value_prefix(s, k + 1);
        assert(s.take(s.len() as int) =~= s);
    } else {
        assert(s.take(k) =~= s);
    }
}

fn parse_digits_u64(ds: &Vec<char>, limit: u64) -> (r: Option<u64>)
    requires
        limit >= 9,
    ensures
        match r {
            Some(v) => all_digits(ds@) && digits_value(ds@) == v as nat && v <= limit,
            None => !all_digits(ds@) || digits_value(ds@) > limit,
        },
{
    let mut acc: u64 = 0;
    let mut i: usize = 0;
    proof {
        assert(ds@.take(0) =~= Seq::<char>::empty());
    }
    while i < ds.len()
        invariant
            limit >= 9,
            i <= ds@.len(),
            acc as nat == digits_value(ds@.take(i as int)),
            acc <= limit,
            forall|j: int| 0 <= j < i ==> is_digit_char(#[trigger] ds@[j]),
        decreases ds@.len() - i,
    {
        let c = ds[i];
        let code = c as u32;
        if code < 48 || code > 57 {
            return None;
        }
        let d: u64 = (code - 48) as u64;
        proof {
            assert(ds@.take(i + 1).drop_last() =~= ds@.take(i as int));
            assert(digits_value(ds@.take(i + 1)) == digits_value(ds@.take(i as int)) * 10
                + digit_val(ds@[i as int]));
        }
        if acc > (limit - d) / 10 {
            proof {
                assert(acc * 10 + d > limit) by (nonlinear_arith)
                    requires
                        acc > (limit - d) / 10,
                        d <= limit,
                        limit <= u64::MAX,
                        acc >= 0,
                ;
                lemma_digits_value_prefix(ds@, i + 1);
            }
            return None;
        }
        proof {
            assert(acc * 10 + d <= limit) by (nonlinear_arith)
                requires
                    acc <= (limit - d) / 10,
                    d <= limit,
                    limit <= u64::MAX,
                    acc >= 0,
            ;
        }
        acc = acc * 10 + d;
        i = i + 1;
    }
    proof {
        assert(ds@.take(ds@.len() as int) =~= ds@);
    }
    Some(acc)
}

/// Parse a decimal integer with an optional sign, as the orphan reconciler
/// does with a cover file's stem.
pub fn parse_i64(s: &str) -> (r: Option<i64>)
    ensures
        r == parse_i64_spec(s@),
{
    let chars = crate::strings::str_chars(s);
    if chars.len() == 0 {
        return None;
    }
    let first = chars[0];
    let neg = first == '-';
    let signed = neg || first == '+';
    let start: usize = if signed {
        1
    } else {
        0
    };
    let mut ds: Vec<char> = Vec::new();
    let mut i: usize = start;
    while i < chars.len()
        invariant
            start <= i <= chars@.len(),
            chars@ == s@,
            start == if signed {
                1int
            } else {
                0int
            },
            ds@ =~= chars@.skip(start as int).take(i - start),
        decreases chars@.len() - i,
    {
        let c = chars[i];
        ds.push(c);
        proof {
            assert(chars@.skip(start as int).take(i + 1 - start) =~= chars@.skip(
                start as int,
            ).take(i - start).push(chars@[i as int]));
        }
        i = i + 1;
    }
    proof {
        assert(ds@ =~= s@.skip(start as int));
        if signed {
            assert(s@.skip(1) =~= s@.drop_first());
        } else {
            assert(s@.skip(0) =~= s@);
        }
    }
    if ds.len() == 0 {
        return None;
    }
    let limit: u64 = if neg {
        0x8000_0000_0000_0000
    } else {
        0x7fff_ffff_ffff_ffff
    };
    match parse_digits_u64(&ds, limit) {
        None => None,
        Some(v) => {
            if neg {
                if v == 0x8000_0000_0000_0000 {
                    Some(i64::MIN)
                } else {
                    Some(-(v as i64))
                }
            } else {
                Some(v as i64)
            }
        },
    }
}

proof fn lemma_digit_char(d: int)
    requires
        0 <= d < 10,
    ensures
        is_digit_char(digit_char(d)),
        digit_val(digit_char(d)) == d,
{
}

/// Decimal digits carry no sign character and at least one digit.
pub proof fn lemma_decimal_digits_shape(n: nat)
    ensures
        decimal_digits(n).len() >= 1,
        all_digits(decimal_digits(n)),
        digits_value(decimal_digits(n)) == n,
    decreases n,
{
    if n < 10 {
        lemma_digit_char(n as int);
        assert(decimal_digits(n) =~= seq![digit_char(n as int)]);
        assert(decimal_digits(n).drop_last() =~= Seq::<char>::empty());
        assert(digits_value(Seq::<char>::empty()) == 0);
        assert(digits_value(decimal_digits(n)) == digits_value(decimal_digits(n).drop_last()) * 10
            + digit_val(decimal_digits(n).last()));
    } else {
        lemma_decimal_digits_shape(n / 10);
        lemma_digit_char((n % 10) as int);
        let pre = decimal_digits(n / 10);
        let whole = pre.push(digit_char((n % 10) as int));
        assert(whole.drop_last() =~= pre);
        assert(digits_value(whole) == digits_value(pre) * 10 + digit_val(whole.last()));
        assert(n / 10 * 10 + n % 10 == n) by (nonlinear_arith)
            requires
                n >= 0,
        ;
        assert forall|i: int| 0 <= i < whole.len() implies is_digit_char(#[trigger] whole[i]) by {
            if i < pre.len() {
                assert(whole[i] == pre[i]);
            }
        }
    }
}

/// A rendered id holds only digits and a possible leading minus sign, so
/// in particular no dot.
pub proof fn lemma_decimal_chars_no_dot(n: int)
    ensures
        decimal_chars(n).len() >= 1,
        forall|i: int| 0 <= i < decimal_chars(n).len() ==> #[trigger] decimal_chars(n)[i] != '.',
{
    if n >= 0 {
        lemma_decimal_digits_shape(n as nat);
        assert forall|i: int| 0 <= i < decimal_chars(n).len() implies #[trigger] decimal_chars(
            n,
        )[i] != '.' by {
            assert(is_digit_char(decimal_chars(n)[i]));
        }
    } else {
        lemma_decimal_digits_shape((-n) as nat);
        assert forall|i: int| 0 <= i < decimal_chars(n).len() implies #[trigger] decimal_chars(
            n,
        )[i] != '.' by {
            if i > 0 {
                assert(decimal_chars(n)[i] == decimal_digits((-n) as nat)[i - 1]);
                assert(is_digit_char(decimal_chars(n)[i]));
            }
        }
    }
}

/// Rendering an id and parsing the result gives the id back: a stored
/// cover's stem always parses to the id it was written for.
pub proof fn lemma_decimal_round_trip(id: i64)
    ensures
        parse_i64_spec(decimal_chars(id as int)) == Some(id),
{
    if id >= 0 {
        lemma_decimal_digits_shape(id as nat);
        let s = decimal_chars(id as int);
        assert(s[0] != '-' && s[0] != '+');
    } else {
        let m = (-(id as int)) as nat;
        lemma_decimal_digits_shape(m);
        let s = decimal_chars(id as int);
        assert(s[0] == '-');
        assert(s.drop_first() =~= decimal_digits(m));
        assert(m <= 0x8000_0000_0000_0000);
    }
}

} // verus!
