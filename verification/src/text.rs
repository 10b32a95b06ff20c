//! Character-level text operations: trimming, searching, splitting and
//! case-insensitive comparison, each stated over the `Seq<char>` view.

use vstd::prelude::*;

verus! {

// ---------------------------------------------------------------------------
// Model
// ---------------------------------------------------------------------------

/// The Unicode `White_Space` property.
pub open spec fn is_white_space(c: char) -> bool {
    let n = c as u32;
    ||| 0x0009 <= n <= 0x000D
    ||| n == 0x0020
    ||| n == 0x0085
    ||| n == 0x00A0
    ||| n == 0x1680
    ||| 0x2000 <= n <= 0x200A
    ||| n == 0x2028
    ||| n == 0x2029
    ||| n == 0x202F
    ||| n == 0x205F
    ||| n == 0x3000
}

/// `s` without its leading white space.
pub open spec fn trimmed_start(s: Seq<char>) -> Seq<char>
    decreases s.len(),
{
    if s.len() > 0 && is_white_space(s[0]) {
        trimmed_start(s.drop_first())
    } else {
        s
    }
}

/// `s` without its trailing white space.
pub open spec fn trimmed_end(s: Seq<char>) -> Seq<char>
    decreases s.len(),
{
    if s.len() > 0 && is_white_space(s.last()) {
        trimmed_end(s.drop_last())
    } else {
        s
    }
}

/// `s` without its leading and trailing white space.
pub open spec fn trimmed(s: Seq<char>) -> Seq<char> {
    trimmed_end(trimmed_start(s))
}

/// The index of the first `c` in `s`.
pub open spec fn first_position(s: Seq<char>, c: char) -> Option<int>
    decreases s.len(),
{
    if s.len() == 0 {
        None
    } else if s[0] == c {
        Some(0)
    } else {
        match first_position(s.drop_first(), c) {
            Some(i) => Some(i + 1),
            None => None,
        }
    }
}

/// The index of the last `c` in `s`.
pub open spec fn last_position(s: Seq<char>, c: char) -> Option<int>
    decreases s.len(),
{
    if s.len() == 0 {
        None
    } else if s.last() == c {
        Some(s.len() - 1)
    } else {
        last_position(s.drop_last(), c)
    }
}

/// ASCII lower case; every other character is left alone.
pub open spec fn ascii_lower(c: char) -> int {
    if 'A' <= c <= 'Z' {
        c as int + 32
    } else {
        c as int
    }
}

/// Equality up to the case of ASCII letters.
pub open spec fn equal_ignoring_case(a: Seq<char>, b: Seq<char>) -> bool {
    &&& a.len() == b.len()
    &&& forall|i: int| 0 <= i < a.len() ==> #[trigger] ascii_lower(a[i]) == ascii_lower(b[i])
}

// ---------------------------------------------------------------------------
// Facts about the model
// ---------------------------------------------------------------------------

/// `first_position` finds an occurrence that no other precedes, or there is none.
pub proof fn lemma_first_position(s: Seq<char>, c: char)
    ensures
        match first_position(s, c) {
            Some(i) => 0 <= i < s.len() && s[i] == c && (forall|j: int| 0 <= j < i ==> s[j] != c),
            None => !s.contains(c),
        },
    decreases s.len(),
{
    if s.len() > 0 && s[0] != c {
        let rest = s.drop_first();
        lemma_first_position(rest, c);
        match first_position(rest, c) {
            Some(i) => {
                assert forall|j: int| 0 <= j < i + 1 implies s[j] != c by {
                    if j > 0 {
                        assert(s[j] == rest[j - 1]);
                    }
                }
            },
            None => {
                assert forall|j: int| 0 <= j < s.len() implies s[j] != c by {
                    if j > 0 {
                        assert(s[j] == rest[j - 1]);
                        assert(rest.contains(rest[j - 1]));
                    }
                }
            },
        }
    }
}

/// An occurrence that no other precedes is what `first_position` finds.
pub proof fn lemma_first_position_is(s: Seq<char>, c: char, i: int)
    requires
        0 <= i < s.len(),
        s[i] == c,
        forall|j: int| 0 <= j < i ==> s[j] != c,
    ensures
        first_position(s, c) == Some(i),
{
    lemma_first_position(s, c);
    assert(s.contains(s[i]));
}

/// `last_position` finds an occurrence that no other follows, or there is none.
pub proof fn lemma_last_position(s: Seq<char>, c: char)
    ensures
        match last_position(s, c) {
            Some(i) => {
                &&& 0 <= i < s.len()
                &&& s[i] == c
                &&& forall|j: int| i < j < s.len() ==> s[j] != c
            },
            None => !s.contains(c),
        },
    decreases s.len(),
{
    if s.len() > 0 && s.last() != c {
        let rest = s.drop_last();
        lemma_last_position(rest, c);
        if last_position(rest, c) is None {
            assert forall|j: int| 0 <= j < s.len() implies s[j] != c by {
                if j < s.len() - 1 {
                    assert(s[j] == rest[j]);
                    assert(rest.contains(rest[j]));
                }
            }
        } else {
            let i = last_position(rest, c).unwrap();
            assert forall|j: int| i < j < s.len() implies s[j] != c by {
                if j < s.len() - 1 {
                    assert(s[j] == rest[j]);
                }
            }
        }
    }
}

/// An occurrence that no other follows is what `last_position` finds.
pub proof fn lemma_last_position_is(s: Seq<char>, c: char, i: int)
    requires
        0 <= i < s.len(),
        s[i] == c,
        forall|j: int| i < j < s.len() ==> s[j] != c,
    ensures
        last_position(s, c) == Some(i),
{
    lemma_last_position(s, c);
    assert(s.contains(s[i]));
}

/// Leading white space of length `k`, followed by something else, is what
/// `trimmed_start` removes.
pub proof fn lemma_trimmed_start_is(s: Seq<char>, k: int)
    requires
        0 <= k <= s.len(),
        forall|j: int| 0 <= j < k ==> is_white_space(s[j]),
        k < s.len() ==> !is_white_space(s[k]),
    ensures
        trimmed_start(s) == s.skip(k),
    decreases k,
{
    if k == 0 {
        assert(s.skip(0) == s);
    } else {
        let rest = s.drop_first();
        assert(is_white_space(s[0]));
        assert forall|j: int| 0 <= j < k - 1 implies is_white_space(rest[j]) by {
            assert(rest[j] == s[j + 1]);
        }
        lemma_trimmed_start_is(rest, k - 1);
        assert(rest.skip(k - 1) == s.skip(k));
    }
}

/// Trailing white space that begins at `k`, preceded by something else, is what
/// `trimmed_end` removes.
pub proof fn lemma_trimmed_end_is(s: Seq<char>, k: int)
    requires
        0 <= k <= s.len(),
        forall|j: int| k <= j < s.len() ==> is_white_space(s[j]),
        0 < k ==> !is_white_space(s[k - 1]),
    ensures
        trimmed_end(s) == s.take(k),
    decreases s.len() - k,
{
    if k == s.len() {
        assert(s.take(k) == s);
    } else {
        let rest = s.drop_last();
        assert(is_white_space(s.last()));
        lemma_trimmed_end_is(rest, k);
        assert(rest.take(k) == s.take(k));
    }
}

/// What `trimmed_start` leaves does not begin with white space.
proof fn lemma_trimmed_start_begins(s: Seq<char>)
    ensures
        trimmed_start(s).len() > 0 ==> !is_white_space(trimmed_start(s)[0]),
    decreases s.len(),
{
    if s.len() > 0 && is_white_space(s[0]) {
        lemma_trimmed_start_begins(s.drop_first());
    }
}

/// What `trimmed_end` leaves is a prefix that does not end with white space.
proof fn lemma_trimmed_end_ends(s: Seq<char>)
    ensures
        trimmed_end(s).len() <= s.len(),
        trimmed_end(s) == s.take(trimmed_end(s).len() as int),
        trimmed_end(s).len() > 0 ==> !is_white_space(trimmed_end(s).last()),
    decreases s.len(),
{
    if s.len() > 0 && is_white_space(s.last()) {
        lemma_trimmed_end_ends(s.drop_last());
        let n = trimmed_end(s).len() as int;
        assert(s.drop_last().take(n) == s.take(n));
    } else {
        assert(s.take(s.len() as int) == s);
    }
}

/// Trimmed text has no white space at its ends, and trimming it again changes nothing.
pub proof fn law_trimmed_is_stable(s: Seq<char>)
    ensures
        trimmed(trimmed(s)) == trimmed(s),
        trimmed(s).len() > 0 ==> !is_white_space(trimmed(s)[0]) && !is_white_space(
            trimmed(s).last(),
        ),
{
    lemma_trimmed_start_begins(s);
    lemma_trimmed_end_ends(trimmed_start(s));
}

/// White space in front is removed with what follows it.
proof fn lemma_trimmed_start_joined(s: Seq<char>, t: Seq<char>)
    ensures
        trimmed_start(s + t) == if trimmed_start(s).len() == 0 {
            trimmed_start(t)
        } else {
            trimmed_start(s) + t
        },
    decreases s.len(),
{
    if s.len() == 0 {
        assert(s + t == t);
    } else if is_white_space(s[0]) {
        assert((s + t).drop_first() == s.drop_first() + t);
        lemma_trimmed_start_joined(s.drop_first(), t);
    }
}

/// Nothing is left of white space alone.
proof fn lemma_blank_is_trimmed(s: Seq<char>)
    requires
        forall|i: int| 0 <= i < s.len() ==> is_white_space(#[trigger] s[i]),
    ensures
        trimmed_start(s).len() == 0,
{
    lemma_trimmed_start_is(s, s.len() as int);
}

/// White space behind a text is removed with what precedes it.
proof fn lemma_trimmed_end_joined(s: Seq<char>, blank: Seq<char>)
    requires
        forall|i: int| 0 <= i < blank.len() ==> is_white_space(#[trigger] blank[i]),
    ensures
        trimmed_end(s + blank) == trimmed_end(s),
    decreases blank.len(),
{
    if blank.len() == 0 {
        assert(s + blank == s);
    } else {
        let shorter = blank.drop_last();
        assert((s + blank).last() == blank[blank.len() - 1]);
        assert((s + blank).drop_last() == s + shorter);
        assert forall|i: int| 0 <= i < shorter.len() implies is_white_space(
            #[trigger] shorter[i],
        ) by {
            assert(shorter[i] == blank[i]);
        }
        lemma_trimmed_end_joined(s, shorter);
    }
}

/// White space around a text does not change what trimming leaves of it.
pub proof fn law_blanks_are_trimmed(before: Seq<char>, s: Seq<char>, after: Seq<char>)
    requires
        forall|i: int| 0 <= i < before.len() ==> is_white_space(#[trigger] before[i]),
        forall|i: int| 0 <= i < after.len() ==> is_white_space(#[trigger] after[i]),
    ensures
        trimmed(before + s + after) == trimmed(s),
{
    lemma_blank_is_trimmed(before);
    lemma_blank_is_trimmed(after);
    assert(before + s + after == before + (s + after));
    lemma_trimmed_start_joined(before, s + after);
    lemma_trimmed_start_joined(s, after);
    if trimmed_start(s).len() == 0 {
        assert(trimmed_start(after) == trimmed_start(s));
    } else {
        lemma_trimmed_end_joined(trimmed_start(s), after);
    }
}

// ---------------------------------------------------------------------------
// Operations
// ---------------------------------------------------------------------------

/// Whether `c` is white space in the sense of Unicode.
pub fn white_space(c: char) -> (res: bool)
    ensures
        res == is_white_space(c),
{
    let n: u32 = c as u32;
    (0x0009 <= n && n <= 0x000D) || n == 0x0020 || n == 0x0085 || n == 0x00A0 || n == 0x1680 || (
    0x2000 <= n && n <= 0x200A) || n == 0x2028 || n == 0x2029 || n == 0x202F || n == 0x205F || n
        == 0x3000
}

/// The characters of `s`, in order.
pub fn characters(s: &str) -> (res: Vec<char>)
    ensures
        res@ == s@,
{
    let mut res: Vec<char> = Vec::new();
    for c in it: s.chars()
        invariant
            it.seq() == s@,
            res@ == s@.take(it.index()),
    {
        res.push(c);
    }
    res
}

/// `s` without leading and trailing white space.
pub fn trim(s: &str) -> (res: &str)
    ensures
        res@ == trimmed(s@),
{
    let chars = characters(s);
    let mut start: usize = 0;
    while start < chars.len() && white_space(chars[start])
        invariant
            start <= chars.len(),
            forall|j: int| 0 <= j < start ==> is_white_space(chars[j]),
        decreases chars.len() - start,
    {
        start = start + 1;
    }
    let mut end: usize = chars.len();
    while start < end && white_space(chars[end - 1])
        invariant
            start <= end <= chars.len(),
            forall|j: int| end <= j < chars.len() ==> is_white_space(chars[j]),
        decreases end,
    {
        end = end - 1;
    }
    proof {
        lemma_trimmed_start_is(s@, start as int);
        let rest = s@.skip(start as int);
        lemma_trimmed_end_is(rest, end - start);
        assert(rest.take(end - start) == s@.subrange(start as int, end as int));
    }
    s.substring_char(start, end)
}

/// The index of the first `c` in `s`, counted in characters.
pub fn find(s: &str, c: char) -> (res: Option<usize>)
    ensures
        match res {
            Some(i) => first_position(s@, c) == Some(i as int) && i < s@.len() <= usize::MAX,
            None => first_position(s@, c) is None,
        },
{
    let chars = characters(s);
    let mut i: usize = 0;
    while i < chars.len()
        invariant
            chars@ == s@,
            i <= chars.len(),
            forall|j: int| 0 <= j < i ==> s@[j] != c,
        decreases chars.len() - i,
    {
        if chars[i] == c {
            proof {
                lemma_first_position_is(s@, c, i as int);
            }
            return Some(i);
        }
        i = i + 1;
    }
    proof {
        lemma_first_position(s@, c);
    }
    None
}

/// The index of the last `c` in `s`, counted in characters.
pub fn rfind(s: &str, c: char) -> (res: Option<usize>)
    ensures
        match res {
            Some(i) => last_position(s@, c) == Some(i as int) && i < s@.len() <= usize::MAX,
            None => last_position(s@, c) is None,
        },
{
    let chars = characters(s);
    let mut i: usize = chars.len();
    while i > 0
        invariant
            chars@ == s@,
            i <= chars.len(),
            forall|j: int| i <= j < s@.len() ==> s@[j] != c,
        decreases i,
    {
        i = i - 1;
        if chars[i] == c {
            proof {
                lemma_last_position_is(s@, c, i as int);
            }
            return Some(i);
        }
    }
    proof {
        lemma_last_position(s@, c);
    }
    None
}

/// The part of `s` from character `from` on.
pub fn suffix(s: &str, from: usize) -> (res: &str)
    requires
        from <= s@.len(),
    ensures
        res@ == s@.skip(from as int),
{
    s.substring_char(from, s.unicode_len())
}

/// The numeric value of `c` in ASCII lower case.
fn lower(c: char) -> (res: u32)
    ensures
        res == ascii_lower(c),
{
    if 'A' <= c && c <= 'Z' {
        c as u32 + 32
    } else {
        c as u32
    }
}

/// Whether `a` and `b` are equal up to the case of ASCII letters.
pub fn eq_ignore_ascii_case(a: &str, b: &str) -> (res: bool)
    ensures
        res == equal_ignoring_case(a@, b@),
{
    let left = characters(a);
    let right = characters(b);
    if left.len() != right.len() {
        return false;
    }
    let mut i: usize = 0;
    while i < left.len()
        invariant
            left@ == a@,
            right@ == b@,
            left.len() == right.len(),
            i <= left.len(),
            forall|j: int| 0 <= j < i ==> #[trigger] ascii_lower(a@[j]) == ascii_lower(b@[j]),
        decreases left.len() - i,
    {
        if lower(left[i]) != lower(right[i]) {
            return false;
        }
        i = i + 1;
    }
    true
}

} // verus!
