//! Decimal numbers: reading a port and writing a number in base ten.

use vstd::prelude::*;

use crate::text;

verus! {

// ---------------------------------------------------------------------------
// Model
// ---------------------------------------------------------------------------

/// Whether `c` is an ASCII decimal digit.
pub open spec fn is_digit(c: char) -> bool {
    '0' <= c <= '9'
}

/// Whether `s` is one or more decimal digits and nothing else.
pub open spec fn is_digits(s: Seq<char>) -> bool {
    &&& s.len() > 0
    &&& forall|i: int| 0 <= i < s.len() ==> is_digit(#[trigger] s[i])
}

/// The value of a sequence of decimal digits, most significant first.
pub open spec fn value_of(s: Seq<char>) -> int
    decreases s.len(),
{
    if s.len() == 0 {
        0
    } else {
        value_of(s.drop_last()) * 10 + (s.last() as int - '0' as int)
    }
}

/// The port that `s` denotes: an optional `+` and decimal digits, with a value
/// of at most 65535. Anything else denotes none.
pub open spec fn port_of(s: Seq<char>) -> Option<u16> {
    let digits = if s.len() > 0 && s[0] == '+' {
        s.skip(1)
    } else {
        s
    };
    if is_digits(digits) && value_of(digits) <= u16::MAX {
        Some(value_of(digits) as u16)
    } else {
        None
    }
}

/// The character of a decimal digit.
pub open spec fn digit_char(d: nat) -> char {
    ('0' as nat + d) as char
}

/// `n` in base ten, without leading zeros.
pub open spec fn decimal(n: nat) -> Seq<char>
    decreases n,
{
    if n < 10 {
        seq![digit_char(n)]
    } else {
        decimal(n / 10).push(digit_char(n % 10))
    }
}

// ---------------------------------------------------------------------------
// Facts about the model
// ---------------------------------------------------------------------------

/// The leading digits of a number are worth no more than the number.
proof fn lemma_value_of_prefix(s: Seq<char>, n: int)
    requires
        is_digits(s),
        0 <= n <= s.len(),
    ensures
        0 <= value_of(s.take(n)) <= value_of(s),
    decreases s.len(),
{
    let init = s.drop_last();
    assert(is_digit(s.last()));
    assert(is_digit(s[0]));
    if n == s.len() {
        assert(s.take(n) == s);
        if s.len() > 1 {
            assert forall|i: int| 0 <= i < init.len() implies is_digit(#[trigger] init[i]) by {
                assert(init[i] == s[i]);
            }
            lemma_value_of_prefix(init, n - 1);
            assert(init.take(n - 1) == init);
        } else {
            assert(value_of(init) == 0);
        }
    } else if s.len() > 1 {
        assert forall|i: int| 0 <= i < init.len() implies is_digit(#[trigger] init[i]) by {
            assert(init[i] == s[i]);
        }
        lemma_value_of_prefix(init, n);
        assert(init.take(n) == s.take(n));
    } else {
        assert(value_of(init) == 0);
        assert(s.take(n).len() == 0);
    }
}

/// Writing a number in base ten and reading it back gives the number.
pub proof fn law_decimal_reads_back(n: nat)
    ensures
        is_digits(decimal(n)),
        value_of(decimal(n)) == n,
    decreases n,
{
    if n < 10 {
        let s = decimal(n);
        assert(s.drop_last().len() == 0);
        assert(value_of(s.drop_last()) == 0);
    } else {
        law_decimal_reads_back(n / 10);
        let s = decimal(n);
        assert(s.drop_last() == decimal(n / 10));
        assert forall|i: int| 0 <= i < s.len() implies is_digit(#[trigger] s[i]) by {
            if i < s.len() - 1 {
                assert(s[i] == decimal(n / 10)[i]);
            }
        }
    }
}

/// A port written in base ten is read back as that port.
pub proof fn law_port_reads_back(port: u16)
    ensures
        port_of(decimal(port as nat)) == Some(port),
{
    law_decimal_reads_back(port as nat);
    assert(is_digit(decimal(port as nat)[0]));
}

// ---------------------------------------------------------------------------
// Operations
// ---------------------------------------------------------------------------

/// Reads a port number: an optional `+` and decimal digits, at most 65535.
pub fn parse_port(s: &str) -> (res: Option<u16>)
    ensures
        res == port_of(s@),
{
    let chars = text::characters(s);
    let start: usize = if chars.len() > 0 && chars[0] == '+' {
        1
    } else {
        0
    };
    let ghost digits = if s@.len() > 0 && s@[0] == '+' {
        s@.skip(1)
    } else {
        s@
    };
    assert(digits == s@.skip(start as int));
    if start == chars.len() {
        return None;
    }
    let mut value: u32 = 0;
    let mut i: usize = start;
    while i < chars.len()
        invariant
            chars@ == s@,
            start <= i <= chars.len(),
            digits == s@.skip(start as int),
            port_of(s@) == (if is_digits(digits) && value_of(digits) <= u16::MAX {
                Some(value_of(digits) as u16)
            } else {
                None
            }),
            value <= u16::MAX,
            value == value_of(digits.take(i - start)),
            forall|j: int| 0 <= j < i - start ==> is_digit(#[trigger] digits[j]),
        decreases chars.len() - i,
    {
        let c = chars[i];
        assert(c == digits[i - start]);
        if c < '0' || c > '9' {
            return None;
        }
        value = value * 10 + (c as u32 - '0' as u32);
        i = i + 1;
        proof {
            let read = digits.take(i - start);
            assert(read.drop_last() == digits.take(i - start - 1));
            assert(read.last() == c);
            if is_digits(digits) {
                lemma_value_of_prefix(digits, i - start);
            }
        }
        if value > u16::MAX as u32 {
            return None;
        }
    }
    assert(digits.take(i - start) == digits);
    Some(value as u16)
}

/// Appends `n` in base ten to `out`.
pub fn append_decimal(out: &mut String, n: usize)
    ensures
        final(out)@ == old(out)@ + decimal(n as nat),
    decreases n,
{
    if n >= 10 {
        append_decimal(out, n / 10);
    }
    let digit: usize = n % 10;
    proof {
        reveal_strlit("0123456789");
    }
    let text = "0123456789".substring_char(digit, digit + 1);
    out.append(text);
    assert(text@ == seq![digit_char(digit as nat)]);
    assert(out@ == old(out)@ + decimal(n as nat));
}

} // verus!
