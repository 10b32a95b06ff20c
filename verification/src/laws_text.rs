//! Laws of text and numbers: what trimming, searching, comparing, reading and writing
//! give, in terms of the characters alone.

use vstd::prelude::*;

use crate::decimal;
use crate::text;

verus! {

/// White space is these twenty-five characters and no others.
pub proof fn law_white_space(c: char)
    ensures
        text::is_white_space(c) <==> seq![
            '\u{0009}',
            '\u{000A}',
            '\u{000B}',
            '\u{000C}',
            '\u{000D}',
            '\u{0020}',
            '\u{0085}',
            '\u{00A0}',
            '\u{1680}',
            '\u{2000}',
            '\u{2001}',
            '\u{2002}',
            '\u{2003}',
            '\u{2004}',
            '\u{2005}',
            '\u{2006}',
            '\u{2007}',
            '\u{2008}',
            '\u{2009}',
            '\u{200A}',
            '\u{2028}',
            '\u{2029}',
            '\u{202F}',
            '\u{205F}',
            '\u{3000}',
        ].contains(c),
{
    let all = seq![
        '\u{0009}',
        '\u{000A}',
        '\u{000B}',
        '\u{000C}',
        '\u{000D}',
        '\u{0020}',
        '\u{0085}',
        '\u{00A0}',
        '\u{1680}',
        '\u{2000}',
        '\u{2001}',
        '\u{2002}',
        '\u{2003}',
        '\u{2004}',
        '\u{2005}',
        '\u{2006}',
        '\u{2007}',
        '\u{2008}',
        '\u{2009}',
        '\u{200A}',
        '\u{2028}',
        '\u{2029}',
        '\u{202F}',
        '\u{205F}',
        '\u{3000}',
    ];
    assert(all[0] == '\u{0009}' && all[1] == '\u{000A}' && all[2] == '\u{000B}');
    assert(all[3] == '\u{000C}' && all[4] == '\u{000D}' && all[5] == '\u{0020}');
    assert(all[6] == '\u{0085}' && all[7] == '\u{00A0}' && all[8] == '\u{1680}');
    assert(all[9] == '\u{2000}' && all[10] == '\u{2001}' && all[11] == '\u{2002}');
    assert(all[12] == '\u{2003}' && all[13] == '\u{2004}' && all[14] == '\u{2005}');
    assert(all[15] == '\u{2006}' && all[16] == '\u{2007}' && all[17] == '\u{2008}');
    assert(all[18] == '\u{2009}' && all[19] == '\u{200A}' && all[20] == '\u{2028}');
    assert(all[21] == '\u{2029}' && all[22] == '\u{202F}' && all[23] == '\u{205F}');
    assert(all[24] == '\u{3000}');
}

/// Trimming removes the white space around a text and nothing else.
pub proof fn law_trimming(before: Seq<char>, middle: Seq<char>, after: Seq<char>)
    requires
        forall|i: int| 0 <= i < before.len() ==> text::is_white_space(#[trigger] before[i]),
        forall|i: int| 0 <= i < after.len() ==> text::is_white_space(#[trigger] after[i]),
        middle.len() > 0 ==> !text::is_white_space(middle[0]) && !text::is_white_space(
            middle.last(),
        ),
    ensures
        text::trimmed(before + middle + after) == middle,
{
    text::law_blanks_are_trimmed(before, middle, after);
}

/// Every text is what trimming leaves of it, with white space around it.
pub proof fn law_trimming_splits(s: Seq<char>) -> (parts: (Seq<char>, Seq<char>))
    ensures
        s == parts.0 + text::trimmed(s) + parts.1,
        forall|i: int| 0 <= i < parts.0.len() ==> text::is_white_space(#[trigger] parts.0[i]),
        forall|i: int| 0 <= i < parts.1.len() ==> text::is_white_space(#[trigger] parts.1[i]),
{
    let before = lemma_start_splits(s);
    let rest = text::trimmed_start(s);
    let after = lemma_end_splits(rest);
    assert(s == before + text::trimmed(s) + after);
    (before, after)
}

proof fn lemma_start_splits(s: Seq<char>) -> (before: Seq<char>)
    ensures
        s == before + text::trimmed_start(s),
        forall|i: int| 0 <= i < before.len() ==> text::is_white_space(#[trigger] before[i]),
    decreases s.len(),
{
    if s.len() > 0 && text::is_white_space(s[0]) {
        let rest = lemma_start_splits(s.drop_first());
        let before = seq![s[0]] + rest;
        assert(s == seq![s[0]] + s.drop_first());
        assert(s == before + text::trimmed_start(s));
        before
    } else {
        assert(s == Seq::<char>::empty() + s);
        Seq::empty()
    }
}

proof fn lemma_end_splits(s: Seq<char>) -> (after: Seq<char>)
    ensures
        s == text::trimmed_end(s) + after,
        forall|i: int| 0 <= i < after.len() ==> text::is_white_space(#[trigger] after[i]),
    decreases s.len(),
{
    if s.len() > 0 && text::is_white_space(s.last()) {
        let rest = lemma_end_splits(s.drop_last());
        let after = rest.push(s.last());
        assert(s == s.drop_last().push(s.last()));
        assert(s == text::trimmed_end(s) + after);
        after
    } else {
        assert(s == s + Seq::<char>::empty());
        Seq::empty()
    }
}

/// The first position of a character is behind all text without it.
pub proof fn law_first_position(before: Seq<char>, c: char, after: Seq<char>)
    requires
        !before.contains(c),
    ensures
        text::first_position(before.push(c) + after, c) == Some(before.len() as int),
        text::first_position(before, c) is None,
{
    let s = before.push(c) + after;
    assert forall|j: int| 0 <= j < before.len() implies s[j] != c by {
        assert(s[j] == before[j]);
        assert(before.contains(before[j]));
    }
    assert(s[before.len() as int] == c);
    text::lemma_first_position_is(s, c, before.len() as int);
    text::lemma_first_position(before, c);
    if let Some(i) = text::first_position(before, c) {
        assert(before.contains(before[i]));
    }
}

/// The last position of a character is before all text without it.
pub proof fn law_last_position(before: Seq<char>, c: char, after: Seq<char>)
    requires
        !after.contains(c),
    ensures
        text::last_position(before.push(c) + after, c) == Some(before.len() as int),
        text::last_position(after, c) is None,
{
    let s = before.push(c) + after;
    assert forall|j: int| before.len() < j < s.len() implies s[j] != c by {
        assert(s[j] == after[j - before.len() - 1]);
        assert(after.contains(after[j - before.len() - 1]));
    }
    assert(s[before.len() as int] == c);
    text::lemma_last_position_is(s, c, before.len() as int);
    text::lemma_last_position(after, c);
    if let Some(i) = text::last_position(after, c) {
        assert(after.contains(after[i]));
    }
}

/// Two texts are equal up to case exactly when they have the same length and, at each
/// place, the same character or an ASCII letter in upper and in lower case.
pub proof fn law_case_is_ignored(a: Seq<char>, b: Seq<char>)
    ensures
        text::equal_ignoring_case(a, b) <==> a.len() == b.len() && forall|i: int|
            0 <= i < a.len() ==> {
                ||| #[trigger] a[i] == b[i]
                ||| 'A' <= a[i] <= 'Z' && b[i] as int == a[i] as int + 32
                ||| 'A' <= b[i] <= 'Z' && a[i] as int == b[i] as int + 32
            },
{
    if text::equal_ignoring_case(a, b) {
        assert forall|i: int| 0 <= i < a.len() implies {
            ||| #[trigger] a[i] == b[i]
            ||| 'A' <= a[i] <= 'Z' && b[i] as int == a[i] as int + 32
            ||| 'A' <= b[i] <= 'Z' && a[i] as int == b[i] as int + 32
        } by {
            assert(text::ascii_lower(a[i]) == text::ascii_lower(b[i]));
        }
    }
}

/// A text is `none` in any case exactly when it has four characters, which are `n`,
/// `o`, `n` and `e` in upper or lower case.
pub proof fn law_none_in_any_case(s: Seq<char>)
    ensures
        text::equal_ignoring_case(s, "none"@) <==> {
            &&& s.len() == 4
            &&& (s[0] == 'n' || s[0] == 'N')
            &&& (s[1] == 'o' || s[1] == 'O')
            &&& (s[2] == 'n' || s[2] == 'N')
            &&& (s[3] == 'e' || s[3] == 'E')
        },
{
    reveal_strlit("none");
    law_case_is_ignored(s, "none"@);
    let none = "none"@;
    assert(none.len() == 4);
    assert(none[0] == 'n' && none[1] == 'o' && none[2] == 'n' && none[3] == 'e');
    if text::equal_ignoring_case(s, none) {
        assert(s[0] == none[0] || s[0] as int + 32 == none[0] as int);
        assert(s[1] == none[1] || s[1] as int + 32 == none[1] as int);
        assert(s[2] == none[2] || s[2] as int + 32 == none[2] as int);
        assert(s[3] == none[3] || s[3] as int + 32 == none[3] as int);
    }
}

/// A number in base ten: one character for a number below ten, and for any other the
/// digits of its tenth followed by its last digit.
pub proof fn law_decimal_digits(n: nat, d: nat)
    requires
        d < 10,
    ensures
        decimal::decimal(d).len() == 1,
        decimal::decimal(d)[0] as int == 48 + d,
        n > 0 ==> decimal::decimal(10 * n + d).drop_last() == decimal::decimal(n),
        n > 0 ==> decimal::decimal(10 * n + d).last() as int == 48 + d,
        n > 0 ==> decimal::decimal(10 * n + d).len() == decimal::decimal(n).len() + 1,
{
    if n > 0 {
        let m = 10 * n + d;
        assert(m / 10 == n);
        assert(m % 10 == d);
        assert(decimal::decimal(m) == decimal::decimal(n).push(decimal::digit_char(d)));
        assert(decimal::decimal(m).drop_last() == decimal::decimal(n));
    }
}

/// A port as it may be written: with or without `+`, with any number of leading zeros.
pub open spec fn written_port(plus: bool, zeros: nat, port: u16) -> Seq<char> {
    (if plus {
        seq!['+']
    } else {
        Seq::empty()
    }) + (Seq::new(zeros, |i: int| '0') + decimal::decimal(port as nat))
}

/// Zeros in front of digits leave their value alone.
proof fn lemma_zeros(zeros: nat, digits: Seq<char>)
    requires
        decimal::is_digits(digits),
    ensures
        decimal::is_digits(Seq::new(zeros, |i: int| '0') + digits),
        decimal::value_of(Seq::new(zeros, |i: int| '0') + digits) == decimal::value_of(digits),
    decreases digits.len(), zeros,
{
    let nil = Seq::new(zeros, |i: int| '0');
    let s = nil + digits;
    assert forall|i: int| 0 <= i < s.len() implies decimal::is_digit(#[trigger] s[i]) by {
        if i >= zeros {
            assert(s[i] == digits[i - zeros]);
        }
    }
    assert(s.last() == digits.last());
    let init = digits.drop_last();
    assert(s.drop_last() == nil + init);
    if init.len() == 0 {
        assert(decimal::value_of(init) == 0);
        assert(nil + init == nil);
        lemma_only_zeros(zeros);
    } else {
        assert forall|i: int| 0 <= i < init.len() implies decimal::is_digit(
            #[trigger] init[i],
        ) by {
            assert(init[i] == digits[i]);
        }
        lemma_zeros(zeros, init);
    }
}

proof fn lemma_only_zeros(zeros: nat)
    ensures
        decimal::value_of(Seq::new(zeros, |i: int| '0')) == 0,
    decreases zeros,
{
    if zeros > 0 {
        let fewer = (zeros - 1) as nat;
        lemma_only_zeros(fewer);
        assert(Seq::new(zeros, |i: int| '0').drop_last() == Seq::new(fewer, |i: int| '0'));
    }
}

/// Digits are a number in base ten behind some zeros.
proof fn lemma_digits_are_padded(s: Seq<char>) -> (zeros: nat)
    requires
        decimal::is_digits(s),
    ensures
        decimal::value_of(s) >= 0,
        s == Seq::new(zeros, |i: int| '0') + decimal::decimal(decimal::value_of(s) as nat),
    decreases s.len(),
{
    let init = s.drop_last();
    let c = s.last();
    assert(decimal::is_digit(s[s.len() - 1]));
    let d = (c as int - '0' as int) as nat;
    assert(decimal::digit_char(d) == c);
    if init.len() == 0 {
        assert(decimal::value_of(init) == 0);
        assert(s == seq![c]);
        assert(s == Seq::new(0nat, |i: int| '0') + decimal::decimal(d));
        0
    } else {
        assert forall|i: int| 0 <= i < init.len() implies decimal::is_digit(
            #[trigger] init[i],
        ) by {
            assert(init[i] == s[i]);
        }
        let zeros = lemma_digits_are_padded(init);
        let v = decimal::value_of(init) as nat;
        assert(s == init.push(c));
        if v == 0 {
            assert(decimal::decimal(0) == seq!['0']);
            assert(s == Seq::new(zeros + 1, |i: int| '0') + decimal::decimal(d));
            zeros + 1
        } else {
            let m = 10 * v + d;
            assert(m / 10 == v);
            assert(m % 10 == d);
            assert(decimal::decimal(m) == decimal::decimal(v).push(c));
            assert(s == Seq::new(zeros, |i: int| '0') + decimal::decimal(m));
            zeros
        }
    }
}

/// A text denotes a port exactly when it is that port in base ten, with or without
/// `+`, with any number of leading zeros.
pub proof fn law_ports(s: Seq<char>, port: u16)
    ensures
        decimal::port_of(s) == Some(port) <==> exists|plus: bool, zeros: nat|
            s == #[trigger] written_port(plus, zeros, port),
{
    if decimal::port_of(s) == Some(port) {
        let plus = s.len() > 0 && s[0] == '+';
        let digits = if plus {
            s.skip(1)
        } else {
            s
        };
        let zeros = lemma_digits_are_padded(digits);
        assert(s == written_port(plus, zeros, port));
    }
    assert forall|plus: bool, zeros: nat|
        s == #[trigger] written_port(plus, zeros, port) implies decimal::port_of(s) == Some(
        port,
    ) by {
        let digits = Seq::new(zeros, |i: int| '0') + decimal::decimal(port as nat);
        decimal::law_decimal_reads_back(port as nat);
        lemma_zeros(zeros, decimal::decimal(port as nat));
        if plus {
            assert(s.skip(1) == digits);
        } else {
            assert(s == digits);
            assert(decimal::is_digit(digits[0]));
        }
    }
}

/// How a port is read, character by character: a digit alone is its value, one more
/// digit makes ten times the value and the digit, and anything else, or a value beyond
/// 65535, is no port, whatever follows.
pub proof fn law_port_digits(s: Seq<char>, c: char)
    ensures
        decimal::port_of(Seq::empty()) is None,
        decimal::port_of(seq!['+']) is None,
        s.len() == 0 || s == seq!['+'] ==> decimal::port_of(s.push(c)) == (if '0' <= c <= '9' {
            Some((c as int - 48) as u16)
        } else {
            None
        }),
        decimal::port_of(s) matches Some(port) ==> decimal::port_of(s.push(c)) == (if '0' <= c
            <= '9' && 10 * port + (c as int - 48) <= 65535 {
            Some((10 * port + (c as int - 48)) as u16)
        } else {
            None
        }),
        decimal::port_of(s) is None && s.len() > 0 && s != seq!['+'] ==> decimal::port_of(
            s.push(c),
        ) is None,
{
    let plus = s.len() > 0 && s[0] == '+';
    let digits = if plus {
        s.skip(1)
    } else {
        s
    };
    let longer = s.push(c);
    assert(seq!['+'].skip(1).len() == 0);
    if plus {
        assert(longer.skip(1) == digits.push(c));
        if digits.len() == 0 {
            assert(s == seq!['+']);
        }
    }
    assert(digits.push(c).drop_last() == digits);
    assert(digits.push(c).last() == c);
    if digits.len() == 0 {
        assert(decimal::value_of(digits) == 0);
        if !plus && c == '+' {
            assert(longer.skip(1).len() == 0);
        } else {
            let read = digits.push(c);
            assert(read[0] == c);
            assert(decimal::is_digits(read) <==> decimal::is_digit(c));
        }
    } else {
        let read = digits.push(c);
        assert(longer[0] == s[0]);
        if decimal::is_digits(digits) {
            let zeros = lemma_digits_are_padded(digits);
        }
        if decimal::is_digits(read) {
            assert forall|i: int| 0 <= i < digits.len() implies decimal::is_digit(
                #[trigger] digits[i],
            ) by {
                assert(digits[i] == read[i]);
            }
            assert(decimal::is_digit(read[read.len() - 1]));
        }
    }
}

/// A number in base ten does not end with white space.
pub proof fn lemma_decimal_is_no_white_space(n: nat)
    ensures
        decimal::decimal(n).len() > 0,
        !text::is_white_space(decimal::decimal(n).last()),
{
    decimal::law_decimal_reads_back(n);
    let s = decimal::decimal(n);
    assert(decimal::is_digit(s[s.len() - 1]));
}

} // verus!
