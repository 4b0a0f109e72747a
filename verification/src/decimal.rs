//! Decimal integer headers of the wire format: the mathematical reading
//! and rendering of digit sequences, a verified renderer, and a verified
//! signed 64-bit parser.

use vstd::prelude::*;

use crate::errors::ProtocolError;

verus! {

/// `c` is an ASCII decimal digit.
pub open spec fn is_digit(c: char) -> bool {
    '0' as u32 <= c as u32 && c as u32 <= '9' as u32
}

/// Numeric value of a digit character.
pub open spec fn digit_val(c: char) -> int {
    c as u32 - '0' as u32
}

/// The digit character for a value below ten.
pub open spec fn digit_char(d: int) -> char
    recommends
        0 <= d < 10,
{
    if d == 0 {
        '0'
    } else if d == 1 {
        '1'
    } else if d == 2 {
        '2'
    } else if d == 3 {
        '3'
    } else if d == 4 {
        '4'
    } else if d == 5 {
        '5'
    } else if d == 6 {
        '6'
    } else if d == 7 {
        '7'
    } else if d == 8 {
        '8'
    } else {
        '9'
    }
}

/// Every character of `s` is a decimal digit.
pub open spec fn all_digits(s: Seq<char>) -> bool {
    forall|i: int| 0 <= i < s.len() ==> is_digit(#[trigger] s[i])
}

/// The number denoted by a sequence of digit characters, most
/// significant first.
pub open spec fn digits_val(s: Seq<char>) -> int
    decreases s.len(),
{
    if s.len() == 0 {
        0
    } else {
        digits_val(s.drop_last()) * 10 + digit_val(s.last())
    }
}

/// The canonical decimal rendering of a non-negative number: no sign, no
/// leading zero except for zero itself.
pub open spec fn dec_rep(n: int) -> Seq<char>
    recommends
        n >= 0,
    decreases n,
{
    if n < 10 {
        seq![digit_char(n)]
    } else {
        dec_rep(n / 10).push(digit_char(n % 10))
    }
}

/// The digit part of an integer literal: everything after an optional
/// leading sign.
pub open spec fn int_digits(s: Seq<char>) -> Seq<char> {
    if s.len() > 0 && (s[0] == '+' || s[0] == '-') {
        s.skip(1)
    } else {
        s
    }
}

/// `s` is an optional sign followed by at least one digit.
pub open spec fn valid_int_literal(s: Seq<char>) -> bool {
    int_digits(s).len() > 0 && all_digits(int_digits(s))
}

/// The number denoted by a valid integer literal.
pub open spec fn int_literal_val(s: Seq<char>) -> int {
    if s.len() > 0 && s[0] == '-' {
        -digits_val(int_digits(s))
    } else {
        digits_val(int_digits(s))
    }
}

/// What parsing `s` as a signed 64-bit decimal integer returns: the
/// denoted value where `s` is a valid literal in range, nothing
/// otherwise.
pub open spec fn parse_int_spec(s: Seq<char>) -> Option<i64> {
    if valid_int_literal(s) && i64::MIN <= int_literal_val(s) <= i64::MAX {
        Some(int_literal_val(s) as i64)
    } else {
        None
    }
}

/// A digit sequence denotes a non-negative number.
pub proof fn lemma_digits_val_nonneg(s: Seq<char>)
    requires
        all_digits(s),
    ensures
        digits_val(s) >= 0,
    decreases s.len(),
{
    if s.len() > 0 {
        assert(all_digits(s.drop_last()));
        lemma_digits_val_nonneg(s.drop_last());
    }
}

/// Reading one more digit multiplies the value so far by ten and adds
/// the digit.
pub proof fn lemma_digits_val_step(s: Seq<char>, i: int)
    requires
        0 <= i < s.len(),
    ensures
        digits_val(s.take(i + 1)) == digits_val(s.take(i)) * 10 + digit_val(s[i]),
{
    assert(s.take(i + 1).drop_last() =~= s.take(i));
    assert(s.take(i + 1).last() == s[i]);
}

/// A prefix of a digit sequence never denotes more than the whole.
pub proof fn lemma_digits_val_prefix_le(s: Seq<char>, i: int)
    requires
        all_digits(s),
        0 <= i <= s.len(),
    ensures
        digits_val(s.take(i)) <= digits_val(s),
    decreases s.len(),
{
    if i == s.len() {
        assert(s.take(i) =~= s);
    } else {
        let dl = s.drop_last();
        assert(all_digits(dl));
        assert(s.take(i) =~= dl.take(i));
        lemma_digits_val_prefix_le(dl, i);
        lemma_digits_val_nonneg(dl);
        assert(digits_val(dl) * 10 >= digits_val(dl)) by (nonlinear_arith)
            requires digits_val(dl) >= 0;
        assert(is_digit(s.last()));
    }
}

/// The canonical rendering consists of digits, is never empty, and
/// denotes the number it was made from.
pub proof fn lemma_dec_rep(n: int)
    requires
        n >= 0,
    ensures
        dec_rep(n).len() >= 1,
        all_digits(dec_rep(n)),
        digits_val(dec_rep(n)) == n,
    decreases n,
{
    if n < 10 {
        assert(dec_rep(n) =~= seq![digit_char(n)]);
        assert(dec_rep(n).drop_last() =~= Seq::<char>::empty());
        assert(dec_rep(n).last() == digit_char(n));
        assert(digit_val(digit_char(n)) == n);
        assert(digits_val(dec_rep(n)) == digits_val(Seq::<char>::empty()) * 10 + digit_val(digit_char(n)));
    } else {
        lemma_dec_rep(n / 10);
        let r = dec_rep(n / 10).push(digit_char(n % 10));
        assert(r.drop_last() =~= dec_rep(n / 10));
        assert(r.last() == digit_char(n % 10));
        assert(digits_val(r) == (n / 10) * 10 + (n % 10));
    }
}

/// Digit text contains no line terminator.
pub proof fn lemma_digits_line_wf(s: Seq<char>)
    requires
        all_digits(s),
    ensures
        crate::value::line_wf(s),
{
    assert forall|i: int| #![trigger s[i]] 0 <= i && i + 1 < s.len() implies !(s[i] == '\r' && s[i
        + 1] == '\n') by {
        assert(is_digit(s[i]));
    }
}

/// The rendering of a number within signed 64-bit range parses back to
/// exactly that number.
pub proof fn lemma_parse_dec_rep(n: int)
    requires
        0 <= n <= i64::MAX,
    ensures
        parse_int_spec(dec_rep(n)) == Some(n as i64),
{
    lemma_dec_rep(n);
    let s = dec_rep(n);
    assert(is_digit(s[0]));
    assert(s[0] != '+' && s[0] != '-');
    assert(int_digits(s) =~= s);
}

/// What parsing `s` as an unsigned 64-bit decimal integer returns: the
/// denoted value where `s` is an optional plus sign followed by digits
/// and in range, nothing otherwise.
pub open spec fn parse_u64_spec(s: Seq<char>) -> Option<u64> {
    if valid_int_literal(s) && !(s[0] == '-') && int_literal_val(s) <= u64::MAX {
        Some(int_literal_val(s) as u64)
    } else {
        None
    }
}

/// Parses an unsigned 64-bit decimal integer from text: an optional
/// plus sign followed by at least one digit, rejecting anything else
/// and any value out of range.
pub fn parse_u64(s: &str) -> (r: Option<u64>)
    ensures
        r == parse_u64_spec(s@),
{
    let n = s.unicode_len();
    if n == 0 {
        return None;
    }
    let first = s.get_char(0);
    if first == '-' {
        return None;
    }
    let start: usize = if first == '+' {
        1
    } else {
        0
    };
    let ghost digits = int_digits(s@);
    proof {
        assert(digits =~= s@.skip(start as int));
    }
    if start >= n {
        return None;
    }
    let mut acc: u64 = 0;
    let mut i = start;
    while i < n
        invariant
            start <= i <= n,
            n == s@.len(),
            start < n,
            s@[0] != '-',
            start == if s@[0] == '+' { 1int } else { 0int },
            digits == int_digits(s@),
            digits == s@.skip(start as int),
            all_digits(digits.take(i - start)),
            digits_val(digits.take(i - start)) == acc,
        decreases n - i,
    {
        let c = s.get_char(i);
        let cu = c as u32;
        proof {
            assert(digits[i - start] == s@[i as int]);
        }
        if cu < 48 || cu > 57 {
            proof {
                assert('0' as u32 == 48 && '9' as u32 == 57);
                assert(!is_digit(digits[i - start]));
                assert(!all_digits(digits));
            }
            return None;
        }
        let d = (cu - 48) as u64;
        proof {
            assert('0' as u32 == 48);
            assert(is_digit(c) && digit_val(c) == d);
        }
        if acc > (u64::MAX - d) / 10 {
            // the next accumulation would exceed the representable range
            proof {
                assert(acc * 10 + d > u64::MAX) by (nonlinear_arith)
                    requires
                        acc > (u64::MAX - d) / 10,
                        0 <= d <= 9,
                ;
                lemma_digits_val_step(digits, i - start);
                assert(digits.take(i - start + 1) =~= digits.take(i + 1 - start));
                if valid_int_literal(s@) {
                    lemma_digits_val_prefix_le(digits, i + 1 - start);
                    assert(int_literal_val(s@) > u64::MAX);
                }
            }
            return None;
        }
        proof {
            assert(acc * 10 + d <= u64::MAX) by (nonlinear_arith)
                requires
                    acc <= (u64::MAX - d) / 10,
                    0 <= d <= 9,
            ;
            lemma_digits_val_step(digits, i - start);
            assert(digits.take(i - start + 1) =~= digits.take(i + 1 - start));
        }
        acc = acc * 10 + d;
        i += 1;
    }
    proof {
        assert(digits.take(i - start) =~= digits);
        assert(valid_int_literal(s@));
    }
    Some(acc)
}

/// The digit character for a small value, as a string slice.
fn digit_str(d: usize) -> (r: &'static str)
    requires
        d < 10,
    ensures
        r@ =~= seq![digit_char(d as int)],
{
    proof {
        reveal_strlit("0");
        reveal_strlit("1");
        reveal_strlit("2");
        reveal_strlit("3");
        reveal_strlit("4");
        reveal_strlit("5");
        reveal_strlit("6");
        reveal_strlit("7");
        reveal_strlit("8");
        reveal_strlit("9");
    }
    match d {
        0 => "0",
        1 => "1",
        2 => "2",
        3 => "3",
        4 => "4",
        5 => "5",
        6 => "6",
        7 => "7",
        8 => "8",
        _ => "9",
    }
}

/// Renders a number in canonical decimal.
pub fn render_dec(n: usize) -> (s: String)
    ensures
        s@ == dec_rep(n as int),
    decreases n,
{
    if n < 10 {
        String::from_str(digit_str(n))
    } else {
        let mut s = render_dec(n / 10);
        s.append(digit_str(n % 10));
        proof {
            assert(s@ =~= dec_rep(n as int));
        }
        s
    }
}

/// Parses a signed 64-bit decimal integer: an optional sign followed by
/// at least one digit, rejecting anything else and any value out of
/// range.
pub fn parse_int(buffer: &[char]) -> (r: Result<i64, ProtocolError>)
    ensures
        match r {
            Ok(n) => parse_int_spec(buffer@) == Some(n),
            Err(e) => parse_int_spec(buffer@) is None && e == ProtocolError::Malformed,
        },
{
    let n = buffer.len();
    let mut neg: bool = false;
    let mut start: usize = 0;
    if n > 0 && (buffer[0] == '+' || buffer[0] == '-') {
        neg = buffer[0] == '-';
        start = 1;
    }
    let ghost digits = int_digits(buffer@);
    proof {
        assert(digits =~= buffer@.skip(start as int));
    }
    if start >= n {
        proof {
            assert(digits.len() == 0);
        }
        return Err(ProtocolError::Malformed);
    }
    // largest magnitude representable with the chosen sign
    let limit: u64 = if neg {
        9223372036854775808
    } else {
        9223372036854775807
    };
    let mut acc: u64 = 0;
    let mut i = start;
    while i < n
        invariant
            start <= i <= n,
            n == buffer@.len(),
            start < n,
            start == if neg || (buffer@.len() > 0 && buffer@[0] == '+') { 1int } else { 0int },
            neg ==> buffer@[0] == '-',
            neg || start == 0 || buffer@[0] == '+',
            digits == int_digits(buffer@),
            digits == buffer@.skip(start as int),
            limit == if neg { 9223372036854775808u64 } else { 9223372036854775807u64 },
            all_digits(digits.take(i - start)),
            digits_val(digits.take(i - start)) == acc,
            acc <= limit,
        decreases n - i,
    {
        let c = buffer[i];
        let cu = c as u32;
        proof {
            assert(digits[i - start] == buffer@[i as int]);
        }
        if cu < 48 || cu > 57 {
            proof {
                assert('0' as u32 == 48 && '9' as u32 == 57);
                assert(!is_digit(digits[i - start]));
                assert(!all_digits(digits));
            }
            return Err(ProtocolError::Malformed);
        }
        let d = (cu - 48) as u64;
        proof {
            assert('0' as u32 == 48);
            assert(is_digit(c) && digit_val(c) == d);
        }
        if acc > (limit - d) / 10 {
            // the next accumulation would exceed the representable range
            proof {
                assert(acc * 10 + d > limit) by (nonlinear_arith)
                    requires
                        acc > (limit - d) / 10,
                        0 <= d <= 9,
                        d <= limit,
                ;
                lemma_digits_val_step(digits, i - start);
                assert(digits.take(i - start + 1) =~= digits.take(i + 1 - start));
                assert(digits_val(digits.take(i + 1 - start)) > limit);
                if valid_int_literal(buffer@) {
                    lemma_digits_val_prefix_le(digits, i + 1 - start);
                    if neg {
                        assert(int_literal_val(buffer@) < i64::MIN);
                    } else {
                        assert(int_literal_val(buffer@) > i64::MAX);
                    }
                }
            }
            return Err(ProtocolError::Malformed);
        }
        proof {
            assert(acc * 10 + d <= limit) by (nonlinear_arith)
                requires
                    acc <= (limit - d) / 10,
                    0 <= d <= 9,
                    d <= limit,
            ;
            lemma_digits_val_step(digits, i - start);
            assert(digits.take(i - start + 1) =~= digits.take(i + 1 - start));
        }
        acc = acc * 10 + d;
        i += 1;
    }
    proof {
        assert(digits.take(i - start) =~= digits);
        assert(valid_int_literal(buffer@));
    }
    if neg {
        if acc == 9223372036854775808 {
            proof {
                assert(int_literal_val(buffer@) == i64::MIN);
            }
            Ok(i64::MIN)
        } else {
            proof {
                assert(int_literal_val(buffer@) == -(acc as int));
            }
            Ok(-(acc as i64))
        }
    } else {
        Ok(acc as i64)
    }
}

} // verus!
