//! Reading numbers and flags out of text, as Rust's `FromStr` for integers and `bool` does.
use vstd::prelude::*;

verus! {

/// Whether `c` is an ASCII decimal digit.
pub open spec fn is_digit(c: char) -> bool {
    '0' <= c && c <= '9'
}

/// The value of an ASCII decimal digit.
pub open spec fn digit_value(c: char) -> int {
    c as int - '0' as int
}

/// Whether every character of `s` is a decimal digit.
pub open spec fn all_digits(s: Seq<char>) -> bool {
    forall|i: int| 0 <= i < s.len() ==> is_digit(#[trigger] s[i])
}

/// The number that the digits `s` write in base ten.
pub open spec fn decimal_value(s: Seq<char>) -> int
    decreases s.len(),
{
    if s.len() == 0 {
        0
    } else {
        decimal_value(s.drop_last()) * 10 + digit_value(s.last())
    }
}

/// What `from_str` of an integer type with bounds `min..=max` gives for the text `s`:
/// an optional `+` (or `-` where `signed`) followed by at least one decimal digit and
/// nothing else, with a value in bounds; `None` for any other text.
pub open spec fn parse_integer(s: Seq<char>, signed: bool, min: int, max: int) -> Option<int> {
    let negative = signed && s.len() > 0 && s[0] == '-';
    let has_sign = s.len() > 0 && (s[0] == '+' || negative);
    let digits = if has_sign { s.drop_first() } else { s };
    let value = if negative { -decimal_value(digits) } else { decimal_value(digits) };
    if digits.len() == 0 || !all_digits(digits) || value < min || value > max {
        None
    } else {
        Some(value)
    }
}

/// What `bool::from_str` gives: exactly `true` or `false`.
pub open spec fn parse_flag(s: Seq<char>) -> Option<bool> {
    if s == "true"@ {
        Some(true)
    } else if s == "false"@ {
        Some(false)
    } else {
        None
    }
}

proof fn lemma_decimal_value_grows(s: Seq<char>)
    requires
        all_digits(s),
    ensures
        0 <= decimal_value(s),
    decreases s.len(),
{
    if s.len() > 0 {
        assert(all_digits(s.drop_last())) by {
            assert forall|i: int| 0 <= i < s.drop_last().len() implies is_digit(#[trigger] s.drop_last()[i]) by {
                assert(s.drop_last()[i] == s[i]);
            }
        }
        lemma_decimal_value_grows(s.drop_last());
    }
}


/// The digit character of `d` (for `0 <= d < 10`).
pub open spec fn digit_char(d: int) -> char {
    (d + '0' as int) as char
}

/// The decimal digits of `n`, most significant first, with no leading zero.
pub open spec fn digits_of(n: nat) -> Seq<char>
    decreases n,
{
    if n < 10 {
        seq![digit_char(n as int)]
    } else {
        digits_of(n / 10).push(digit_char((n % 10) as int))
    }
}

/// The decimal text of `v`: a `-` for negative values, then its digits.
pub open spec fn int_text(v: int) -> Seq<char> {
    if v < 0 {
        seq!['-'] + digits_of((-v) as nat)
    } else {
        digits_of(v as nat)
    }
}

/// The digits of `n` are decimal digits, at least one, and write `n`.
pub proof fn lemma_digits_of(n: nat)
    ensures
        digits_of(n).len() > 0,
        all_digits(digits_of(n)),
        decimal_value(digits_of(n)) == n,
    decreases n,
{
    let d = (n % 10) as int;
    assert(digit_char(d) as int == d + '0' as int);
    if n >= 10 {
        lemma_digits_of(n / 10);
        let s = digits_of(n);
        assert(s.drop_last() =~= digits_of(n / 10));
        assert forall|i: int| 0 <= i < s.len() implies is_digit(#[trigger] s[i]) by {
            if i < s.len() - 1 {
                assert(s[i] == digits_of(n / 10)[i]);
            }
        }
        assert(s.last() == digit_char(d));
        assert(decimal_value(s) == decimal_value(digits_of(n / 10)) * 10 + d);
        assert((n / 10) * 10 + n % 10 == n);
    } else {
        let s = digits_of(n);
        assert(s.drop_last() =~= Seq::<char>::empty());
        assert(decimal_value(s) == decimal_value(s.drop_last()) * 10 + digit_value(s.last()));
    }
}

/// Decimal text reads back as the number it was written from.
pub proof fn lemma_int_text_round_trip(v: int, min: int, max: int)
    requires
        min <= v <= max,
    ensures
        parse_integer(int_text(v), true, min, max) == Some(v),
        v >= 0 ==> parse_integer(int_text(v), false, min, max) == Some(v),
{
    if v < 0 {
        let d = digits_of((-v) as nat);
        lemma_digits_of((-v) as nat);
        assert((seq!['-'] + d).drop_first() =~= d);
    } else {
        lemma_digits_of(v as nat);
        let d = digits_of(v as nat);
        assert(is_digit(d[0]));
    }
}

/// The text of one decimal digit.
fn digit_text(d: u64) -> (r: &'static str)
    requires
        d < 10,
    ensures
        r@ == seq![digit_char(d as int)],
{
    proof {
        reveal_strlit("0");
        reveal_strlit("1");
        reveal_strlit("2");
        reveal_strlit("3");
        reveal_strlit("4");
        reveal_strlit("5");
        reveal_strlit("6");
        reveal_strlit("7");
        reveal_strlit("8");
        reveal_strlit("9");
    }
    let r = if d == 0 {
        "0"
    } else if d == 1 {
        "1"
    } else if d == 2 {
        "2"
    } else if d == 3 {
        "3"
    } else if d == 4 {
        "4"
    } else if d == 5 {
        "5"
    } else if d == 6 {
        "6"
    } else if d == 7 {
        "7"
    } else if d == 8 {
        "8"
    } else {
        "9"
    };
    assert(r@ =~= seq![digit_char(d as int)]);
    r
}

fn push_digits(out: &mut String, n: u64)
    ensures
        final(out)@ == old(out)@ + digits_of(n as nat),
    decreases n,
{
    if n >= 10 {
        push_digits(out, n / 10);
    }
    out.append(digit_text(n % 10));
    proof {
        if n >= 10 {
            assert(old(out)@ + digits_of((n / 10) as nat) + seq![digit_char((n % 10) as int)]
                =~= old(out)@ + digits_of(n as nat));
        } else {
            assert(old(out)@ + seq![digit_char((n % 10) as int)] =~= old(out)@ + digits_of(n as nat));
        }
    }
}

/// The decimal text of `v`, as `to_string` writes it.
pub fn format_i64(v: i64) -> (r: String)
    ensures
        r@ == int_text(v as int),
{
    let mut out = String::new();
    if v < 0 {
        out.append("-");
        proof {
            reveal_strlit("-");
        }
        let magnitude: u64 = (0 - (v as i128)) as u64;
        push_digits(&mut out, magnitude);
        proof {
            assert(out@ =~= seq!['-'] + digits_of((-v) as nat));
        }
    } else {
        push_digits(&mut out, v as u64);
        proof {
            assert(out@ =~= digits_of(v as nat));
        }
    }
    out
}

/// Whether the text `s` is exactly `lit`.
pub fn text_is(s: &str, lit: &str) -> (r: bool)
    ensures
        r == (s@ == lit@),
{
    let n = s.unicode_len();
    if n != lit.unicode_len() {
        return false;
    }
    let mut i: usize = 0;
    while i < n
        invariant
            n == s@.len(),
            n == lit@.len(),
            0 <= i <= n,
            forall|j: int| 0 <= j < i ==> s@[j] == lit@[j],
        decreases n - i,
    {
        if s.get_char(i) != lit.get_char(i) {
            return false;
        }
        i = i + 1;
    }
    assert(s@ =~= lit@);
    true
}

/// Reads an integer within `min..=max` out of `s` as Rust's `from_str` does for an integer
/// type with those bounds (a leading `-` only where `signed`).
fn parse_decimal(s: &str, signed: bool, min: i128, max: i128) -> (r: Option<i128>)
    requires
        -0x1_0000_0000_0000_0000 <= min <= 0 <= max <= 0x1_0000_0000_0000_0000,
    ensures
        r matches Some(v) ==> parse_integer(s@, signed, min as int, max as int) == Some(v as int),
        r is None ==> parse_integer(s@, signed, min as int, max as int) is None,
{
    let n = s.unicode_len();
    let ghost text = s@;
    let mut negative = false;
    let mut start: usize = 0;
    if n > 0 {
        let c = s.get_char(0);
        if c == '+' {
            start = 1;
        } else if signed && c == '-' {
            negative = true;
            start = 1;
        }
    }
    let ghost digits = text.subrange(start as int, n as int);
    proof {
        let neg = signed && text.len() > 0 && text[0] == '-';
        let hs = text.len() > 0 && (text[0] == '+' || neg);
        assert(neg == negative);
        assert(hs == (start == 1));
        if start == 1 {
            assert(digits =~= text.drop_first());
        } else {
            assert(digits =~= text);
        }
    }
    if start == n {
        return None;
    }
    let bound: u128 = if negative { (0 - min) as u128 } else { max as u128 };
    let mut value: u128 = 0;
    let mut i: usize = start;
    while i < n
        invariant
            n == text.len(),
            text == s@,
            start <= i <= n,
            digits == text.subrange(start as int, n as int),
            bound <= 0x1_0000_0000_0000_0000,
            negative == (signed && text.len() > 0 && text[0] == '-'),
            (start == 1) == (text.len() > 0 && (text[0] == '+' || negative)),
            start == 0 || start == 1,
            start < n,
            -0x1_0000_0000_0000_0000 <= min <= 0 <= max <= 0x1_0000_0000_0000_0000,
            negative ==> bound == -min,
            !negative ==> bound == max,
            start == 1 ==> digits == text.drop_first(),
            start == 0 ==> digits == text,
            all_digits(digits.subrange(0, i - start)),
            value == decimal_value(digits.subrange(0, i - start)),
            value <= bound,
        decreases n - i,
    {
        let c = s.get_char(i);
        let ghost prefix = digits.subrange(0, i - start);
        let ghost next = digits.subrange(0, i + 1 - start);
        proof {
            assert(next.drop_last() =~= prefix);
            assert(next.last() == c);
        }
        if c < '0' || c > '9' {
            proof {
                assert(!is_digit(digits[i - start]));
            }
            return None;
        }
        let d: u128 = (c as u32 - '0' as u32) as u128;
        value = value * 10 + d;
        proof {
            assert(all_digits(next)) by {
                assert forall|j: int| 0 <= j < next.len() implies is_digit(#[trigger] next[j]) by {
                    if j < next.len() - 1 {
                        assert(next[j] == prefix[j]);
                    }
                }
            }
        }
        if value > bound {
            proof {
                assert forall|m: int| i + 1 - start <= m <= digits.len() && all_digits(digits.subrange(0, m))
                    implies decimal_value(digits.subrange(0, m)) > bound by {
                    lemma_prefix_value_grows(digits, i + 1 - start, m);
                }
                assert(digits.subrange(0, digits.len() as int) =~= digits);
                if all_digits(digits) {
                    assert(decimal_value(digits) > bound);
                }
            }
            return None;
        }
        i = i + 1;
    }
    proof {
        assert(digits.subrange(0, n - start) =~= digits);
    }
    if negative {
        Some(0 - (value as i128))
    } else {
        Some(value as i128)
    }
}

proof fn lemma_prefix_value_grows(digits: Seq<char>, a: int, b: int)
    requires
        0 <= a <= b <= digits.len(),
        all_digits(digits.subrange(0, b)),
    ensures
        decimal_value(digits.subrange(0, a)) <= decimal_value(digits.subrange(0, b)),
    decreases b - a,
{
    if a < b {
        let pb = digits.subrange(0, b);
        assert(pb.drop_last() =~= digits.subrange(0, b - 1));
        assert(all_digits(digits.subrange(0, b - 1))) by {
            assert forall|j: int| 0 <= j < b - 1 implies is_digit(#[trigger] digits.subrange(0, b - 1)[j]) by {
                assert(digits.subrange(0, b - 1)[j] == pb[j]);
            }
        }
        assert(is_digit(pb[b - 1]));
        lemma_decimal_value_grows(digits.subrange(0, b - 1));
        lemma_prefix_value_grows(digits, a, b - 1);
    }
}

/// Reads an `i32` out of `s` as `str::parse::<i32>` does.
pub fn parse_i32(s: &str) -> (r: Option<i32>)
    ensures
        r matches Some(v) ==> parse_integer(s@, true, i32::MIN as int, i32::MAX as int) == Some(v as int),
        r is None ==> parse_integer(s@, true, i32::MIN as int, i32::MAX as int) is None,
{
    match parse_decimal(s, true, i32::MIN as i128, i32::MAX as i128) {
        Some(v) => Some(v as i32),
        None => None,
    }
}

/// Reads an `i64` out of `s` as `str::parse::<i64>` does.
pub fn parse_i64(s: &str) -> (r: Option<i64>)
    ensures
        r matches Some(v) ==> parse_integer(s@, true, i64::MIN as int, i64::MAX as int) == Some(v as int),
        r is None ==> parse_integer(s@, true, i64::MIN as int, i64::MAX as int) is None,
{
    match parse_decimal(s, true, i64::MIN as i128, i64::MAX as i128) {
        Some(v) => Some(v as i64),
        None => None,
    }
}

/// Reads a `u64` out of `s` as `str::parse::<u64>` does.
pub fn parse_u64(s: &str) -> (r: Option<u64>)
    ensures
        r matches Some(v) ==> parse_integer(s@, false, 0, u64::MAX as int) == Some(v as int),
        r is None ==> parse_integer(s@, false, 0, u64::MAX as int) is None,
{
    match parse_decimal(s, false, 0, u64::MAX as i128) {
        Some(v) => Some(v as u64),
        None => None,
    }
}

/// Reads a `usize` out of `s` as `str::parse::<usize>` does.
pub fn parse_usize(s: &str) -> (r: Option<usize>)
    ensures
        r matches Some(v) ==> parse_integer(s@, false, 0, usize::MAX as int) == Some(v as int),
        r is None ==> parse_integer(s@, false, 0, usize::MAX as int) is None,
{
    match parse_decimal(s, false, 0, usize::MAX as i128) {
        Some(v) => Some(v as usize),
        None => None,
    }
}

/// Reads a `bool` out of `s` as `str::parse::<bool>` does.
pub fn parse_bool(s: &str) -> (r: Option<bool>)
    ensures
        r == parse_flag(s@),
{
    if text_is(s, "true") {
        Some(true)
    } else if text_is(s, "false") {
        proof {
            reveal_strlit("true");
            reveal_strlit("false");
        }
        Some(false)
    } else {
        None
    }
}

} // verus!
