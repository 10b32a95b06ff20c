//! Laws of `ProxyJump` values: how hops are written and how lists of them are read.

use vstd::prelude::*;

use crate::decimal;
use crate::hop;
use crate::hop::JumpModel;
use crate::laws_text;
use crate::text;

verus! {

/// The host of a hop as it is written: in brackets when it contains a colon.
pub open spec fn written_host(host: Seq<char>) -> Seq<char> {
    if host.contains(':') {
        seq!['['] + host + seq![']']
    } else {
        host
    }
}

/// A hop as it is written: `[user@]host[:port]`.
pub open spec fn written(spec: JumpModel) -> Seq<char> {
    let user = match spec.user {
        Some(user) => user.push('@'),
        None => Seq::empty(),
    };
    let port = match spec.port {
        Some(port) => seq![':'] + decimal::decimal(port as nat),
        None => Seq::empty(),
    };
    user + (written_host(spec.host) + port)
}

/// A decimal number contains digits only.
proof fn lemma_decimal_lacks(n: nat, c: char)
    requires
        !decimal::is_digit(c),
    ensures
        !decimal::decimal(n).contains(c),
{
    decimal::law_decimal_reads_back(n);
}

/// A written host and port are read back as they were.
proof fn lemma_authority_reads_back(host: Seq<char>, port: Option<u16>)
    requires
        host.len() > 0,
        host.contains(']') ==> !host.contains(':') && host[0] != '[',
    ensures
        hop::host_and_port(
            written_host(host) + match port {
                Some(port) => seq![':'] + decimal::decimal(port as nat),
                None => Seq::empty(),
            },
        ) == Some((host, port)),
{
    let tail = match port {
        Some(port) => seq![':'] + decimal::decimal(port as nat),
        None => Seq::empty(),
    };
    let s = written_host(host) + tail;
    if let Some(port) = port {
        decimal::law_port_reads_back(port);
        lemma_decimal_lacks(port as nat, ':');
        lemma_decimal_lacks(port as nat, ']');
        assert(tail.skip(1) == decimal::decimal(port as nat));
    }
    if host.contains(':') {
        let close = host.len() as int + 1;
        assert(s[0] == '[');
        assert(s[close] == ']');
        assert forall|j: int| 0 <= j < close implies s[j] != ']' by {
            if j > 0 {
                assert(s[j] == host[j - 1]);
                assert(host.contains(host[j - 1]));
            }
        }
        text::lemma_first_position_is(s, ']', close);
        assert(s.subrange(1, close) == host);
        assert(s.skip(close + 1) == tail);
    } else {
        assert(s[0] == host[0]);
        assert(!host.contains(']') ==> !s.contains(']')) by {
            if !host.contains(']') && s.contains(']') {
                let j = choose|j: int| 0 <= j < s.len() && s[j] == ']';
                if j < host.len() {
                    assert(host.contains(host[j]));
                } else if j > host.len() {
                    assert(s[j] == decimal::decimal(port.unwrap() as nat)[j - host.len() - 1]);
                }
            }
        }
        text::lemma_first_position(s, ']');
        text::lemma_first_position(s, ':');
        assert(forall|j: int| 0 <= j < host.len() ==> #[trigger] s[j] == host[j]);
        if let Some(port) = port {
            let colon = host.len() as int;
            assert(s[colon] == ':');
            assert forall|j: int| 0 <= j < colon implies s[j] != ':' by {
                assert(host.contains(host[j]));
            }
            text::lemma_first_position_is(s, ':', colon);
            assert(s.take(colon) == host);
            assert(s.skip(colon + 1) == decimal::decimal(port as nat));
        } else {
            assert(s == host);
        }
    }
}

/// A written hop is read back as it was, whatever its user, its host and its
/// port, as long as the host contains no `@`, no `]` that would be taken for the
/// end of a bracketed address, and no white space is at the ends of what is
/// written.
pub proof fn law_hop_reads_back(spec: JumpModel)
    requires
        spec.host.len() > 0,
        !spec.host.contains('@'),
        spec.host.contains(']') ==> !spec.host.contains(':') && spec.host[0] != '[',
        spec.user matches Some(user) ==> user.len() > 0,
        text::trimmed(written(spec)) == written(spec),
    ensures
        hop::hop_of(written(spec)) == Some(spec),
{
    let s = written(spec);
    let port = match spec.port {
        Some(port) => seq![':'] + decimal::decimal(port as nat),
        None => Seq::empty(),
    };
    let authority = written_host(spec.host) + port;
    lemma_authority_reads_back(spec.host, spec.port);
    if let Some(port) = spec.port {
        lemma_decimal_lacks(port as nat, '@');
    }
    assert forall|j: int| 0 <= j < authority.len() implies authority[j] != '@' by {
        let n = written_host(spec.host).len() as int;
        if j < n {
            if spec.host.contains(':') {
                if 0 < j < n - 1 {
                    assert(authority[j] == spec.host[j - 1]);
                    assert(spec.host.contains(spec.host[j - 1]));
                }
            } else {
                assert(spec.host.contains(spec.host[j]));
            }
        } else if j > n {
            let digits = decimal::decimal(spec.port.unwrap() as nat);
            assert(authority[j] == digits[j - n - 1]);
            assert(digits.contains(digits[j - n - 1]));
        }
    }
    match spec.user {
        Some(user) => {
            let at = user.len() as int;
            assert(s[at] == '@');
            assert forall|j: int| at < j < s.len() implies s[j] != '@' by {
                assert(s[j] == authority[j - at - 1]);
            }
            text::lemma_last_position_is(s, '@', at);
            assert(s.take(at) == user);
            assert(s.skip(at + 1) == authority);
        },
        None => {
            assert(s == authority);
            text::lemma_last_position(s, '@');
        },
    }
}

/// An address with several colons and without brackets is read as a host alone:
/// a bare IPv6 literal carries no port.
pub proof fn law_bare_literal_has_no_port(s: Seq<char>, i: int, j: int)
    requires
        0 <= i < j < s.len(),
        s[i] == ':' && s[j] == ':',
        s[0] != '[' || !s.contains(']'),
    ensures
        hop::host_and_port(s) == Some((s, None::<u16>)),
{
    text::lemma_first_position(s, ']');
    text::lemma_first_position(s, ':');
    assert(s.contains(s[i]));
    let colon = text::first_position(s, ':').unwrap();
    assert(s.skip(colon + 1)[j - colon - 1] == ':');
}

/// Every hop that is read has a host, and a user that is read is not empty.
pub proof fn law_hops_are_usable(s: Seq<char>)
    ensures
        forall|i: int|
            0 <= i < hop::hops_of(s).len() ==> {
                &&& (#[trigger] hop::hops_of(s)[i]).host.len() > 0
                &&& hop::hops_of(s)[i].user matches Some(user) ==> user.len() > 0
            },
    decreases s.len(),
{
    text::lemma_first_position(s, ',');
    match text::first_position(s, ',') {
        Some(comma) => {
            lemma_hop_is_usable(s.take(comma));
            law_hops_are_usable(s.skip(comma + 1));
        },
        None => {
            lemma_hop_is_usable(s);
        },
    }
}

proof fn lemma_hop_is_usable(s: Seq<char>)
    ensures
        hop::hop_of(s) matches Some(spec) ==> {
            &&& spec.host.len() > 0
            &&& spec.user matches Some(user) ==> user.len() > 0
        },
{
    text::lemma_last_position(text::trimmed(s), '@');
}

/// The hops of two lists joined by a comma are those of the first followed by
/// those of the second.
pub proof fn law_lists_join(a: Seq<char>, b: Seq<char>)
    ensures
        hop::hops_of(a + seq![','] + b) == hop::hops_of(a) + hop::hops_of(b),
    decreases a.len(),
{
    let s = a + seq![','] + b;
    text::lemma_first_position(a, ',');
    match text::first_position(a, ',') {
        Some(comma) => {
            assert(forall|j: int| 0 <= j <= comma ==> s[j] == a[j]);
            text::lemma_first_position_is(s, ',', comma);
            let rest = a.skip(comma + 1);
            assert(s.take(comma) == a.take(comma));
            assert(s.skip(comma + 1) == rest + seq![','] + b);
            law_lists_join(rest, b);
            assert(hop::hops_of(s) == hop::usable(a.take(comma)) + (hop::hops_of(rest)
                + hop::hops_of(b)));
            assert(hop::hops_of(s) == hop::hops_of(a) + hop::hops_of(b));
        },
        None => {
            let comma = a.len() as int;
            assert forall|j: int| 0 <= j < comma implies s[j] != ',' by {
                assert(s[j] == a[j]);
                assert(a.contains(a[j]));
            }
            text::lemma_first_position_is(s, ',', comma);
            assert(s.take(comma) == a);
            assert(s.skip(comma + 1) == b);
        },
    }
}

/// White space around a hop does not matter.
pub proof fn law_blanks_do_not_matter(before: Seq<char>, s: Seq<char>, after: Seq<char>)
    requires
        forall|i: int| 0 <= i < before.len() ==> text::is_white_space(#[trigger] before[i]),
        forall|i: int| 0 <= i < after.len() ==> text::is_white_space(#[trigger] after[i]),
    ensures
        hop::hop_of(before + s + after) == hop::hop_of(s),
        hop::hop_of(text::trimmed(s)) == hop::hop_of(s),
{
    text::law_trimmed_is_stable(s);
    text::law_blanks_are_trimmed(before, s, after);
}

/// An entry that is not usable leaves the other hops of a list alone.
pub proof fn law_unusable_entries_are_skipped(a: Seq<char>, entry: Seq<char>, b: Seq<char>)
    requires
        !entry.contains(','),
        hop::hop_of(entry) is None,
    ensures
        hop::hops_of(a + seq![','] + entry + seq![','] + b) == hop::hops_of(a + seq![','] + b),
{
    law_lists_join(a + seq![','] + entry, b);
    law_lists_join(a, entry);
    law_lists_join(a, b);
    text::lemma_first_position(entry, ',');
    assert(hop::hops_of(entry) == Seq::<JumpModel>::empty());
    assert(hop::hops_of(a) + Seq::<JumpModel>::empty() == hop::hops_of(a));
}

// ---------------------------------------------------------------------------
// Host and port
// ---------------------------------------------------------------------------

/// An address in brackets is what stands between them, without a port unless a colon
/// follows.
pub proof fn law_bracketed_address(host: Seq<char>, after: Seq<char>)
    requires
        !host.contains(']'),
        after.len() > 0 ==> after[0] != ':',
    ensures
        hop::host_and_port(seq!['['] + host + seq![']'] + after) == Some((host, None::<u16>)),
{
    lemma_bracketed(host, after);
}

/// An address in brackets and a colon are followed by a port, or the whole is unusable.
pub proof fn law_bracketed_port(host: Seq<char>, digits: Seq<char>)
    requires
        !host.contains(']'),
    ensures
        hop::host_and_port(seq!['['] + host + seq![']'] + seq![':'] + digits)
            == match decimal::port_of(digits) {
            Some(port) => Some((host, Some(port))),
            None => None,
        },
{
    let after = seq![':'] + digits;
    assert(seq!['['] + host + seq![']'] + seq![':'] + digits == seq!['['] + host + seq![']']
        + after);
    assert(after.skip(1) == digits);
    lemma_bracketed(host, after);
}

proof fn lemma_bracketed(host: Seq<char>, after: Seq<char>)
    requires
        !host.contains(']'),
    ensures
        ({
            let s = seq!['['] + host + seq![']'] + after;
            &&& hop::closing_bracket(s) == Some(host.len() as int + 1)
            &&& s.subrange(1, host.len() as int + 1) == host
            &&& s.skip(host.len() as int + 2) == after
        }),
{
    let s = seq!['['] + host + seq![']'] + after;
    let close = host.len() as int + 1;
    assert(s[close] == ']');
    assert forall|j: int| 0 <= j < close implies s[j] != ']' by {
        if j > 0 {
            assert(s[j] == host[j - 1]);
            assert(host.contains(host[j - 1]));
        }
    }
    text::lemma_first_position_is(s, ']', close);
    assert(s.subrange(1, close) == host);
    assert(s.skip(close + 1) == after);
}

/// Text without a colon and without a pair of brackets is a host alone.
pub proof fn law_plain_address(s: Seq<char>)
    requires
        !s.contains(':'),
        s.len() > 0 && s[0] == '[' ==> !s.contains(']'),
    ensures
        hop::host_and_port(s) == Some((s, None::<u16>)),
{
    text::lemma_first_position(s, ']');
    text::lemma_first_position(s, ':');
}

/// A single colon outside brackets is followed by a port, or the whole is unusable.
pub proof fn law_plain_port(host: Seq<char>, digits: Seq<char>)
    requires
        !host.contains(':'),
        !digits.contains(':'),
        host.len() > 0 && host[0] == '[' ==> !host.contains(']') && !digits.contains(']'),
    ensures
        hop::host_and_port(host + seq![':'] + digits) == match decimal::port_of(digits) {
            Some(port) => Some((host, Some(port))),
            None => None,
        },
{
    let s = host + seq![':'] + digits;
    let colon = host.len() as int;
    assert(s[colon] == ':');
    assert forall|j: int| 0 <= j < colon implies s[j] != ':' by {
        assert(s[j] == host[j]);
        assert(host.contains(host[j]));
    }
    text::lemma_first_position_is(s, ':', colon);
    assert(s.take(colon) == host);
    assert(s.skip(colon + 1) == digits);
    text::lemma_first_position(s, ']');
    if host.len() > 0 && host[0] == '[' {
        assert forall|j: int| 0 <= j < s.len() implies s[j] != ']' by {
            if j < colon {
                assert(host.contains(host[j]));
            } else if j > colon {
                assert(s[j] == digits[j - colon - 1]);
                assert(digits.contains(digits[j - colon - 1]));
            }
        }
    } else if host.len() == 0 {
        assert(s[0] == ':');
    } else {
        assert(s[0] == host[0]);
    }
}

// ---------------------------------------------------------------------------
// Hops
// ---------------------------------------------------------------------------

/// What a hop says, with or without a user and with white space around it: the user
/// is all that precedes the last `@`, and the host and the port are those of the rest;
/// without a host it is unusable.
pub proof fn law_hop_parts(
    before: Seq<char>,
    user: Option<Seq<char>>,
    rest: Seq<char>,
    after: Seq<char>,
)
    requires
        forall|i: int| 0 <= i < before.len() ==> text::is_white_space(#[trigger] before[i]),
        forall|i: int| 0 <= i < after.len() ==> text::is_white_space(#[trigger] after[i]),
        match user {
            Some(user) => {
                &&& user.len() > 0
                &&& !text::is_white_space(user[0])
                &&& !rest.contains('@')
                &&& rest.len() > 0 ==> !text::is_white_space(rest.last())
            },
            None => {
                &&& forall|j: int| 0 < j < rest.len() ==> #[trigger] rest[j] != '@'
                &&& rest.len() > 0 ==> !text::is_white_space(rest[0]) && !text::is_white_space(
                    rest.last(),
                )
            },
        },
    ensures
        hop::hop_of(
            before + match user {
                Some(user) => user + seq!['@'] + rest,
                None => rest,
            } + after,
        ) == match hop::host_and_port(rest) {
            Some((host, port)) => if host.len() > 0 {
                Some(JumpModel { user, host, port })
            } else {
                None
            },
            None => None,
        },
{
    let s = match user {
        Some(user) => user + seq!['@'] + rest,
        None => rest,
    };
    text::law_blanks_are_trimmed(before, s, after);
    laws_text::law_trimming(Seq::empty(), s, Seq::empty());
    assert(Seq::<char>::empty() + s + Seq::<char>::empty() == s);
    match user {
        Some(user) => {
            let at = user.len() as int;
            assert(s[0] == user[0]);
            if rest.len() > 0 {
                assert(s.last() == rest.last());
            } else {
                assert(s.last() == '@');
            }
            assert(s[at] == '@');
            assert forall|j: int| at < j < s.len() implies s[j] != '@' by {
                assert(s[j] == rest[j - at - 1]);
                assert(rest.contains(rest[j - at - 1]));
            }
            text::lemma_last_position_is(s, '@', at);
            assert(s.take(at) == user);
            assert(s.skip(at + 1) == rest);
        },
        None => {
            text::lemma_last_position(s, '@');
        },
    }
}

/// The hops of a text without a comma: the one that it denotes, if it denotes one.
pub proof fn law_one_entry(s: Seq<char>)
    requires
        !s.contains(','),
    ensures
        hop::hop_of(s) matches Some(spec) ==> hop::hops_of(s) == seq![spec],
        hop::hop_of(s) is None ==> hop::hops_of(s).len() == 0,
{
    text::lemma_first_position(s, ',');
}

/// A written hop without a comma is read back from a list as the only hop.
pub proof fn law_hops_read_back(spec: JumpModel)
    requires
        spec.host.len() > 0,
        !spec.host.contains('@'),
        spec.host.contains(']') ==> !spec.host.contains(':') && spec.host[0] != '[',
        spec.user matches Some(user) ==> user.len() > 0,
        text::trimmed(written(spec)) == written(spec),
        !written(spec).contains(','),
    ensures
        hop::hops_of(written(spec)) == seq![spec],
{
    law_hop_reads_back(spec);
    law_one_entry(written(spec));
}

/// What every part of a hop must be like to stand next to the others: not empty,
/// without `@` and `,`, and without white space at its ends.
pub open spec fn is_part(s: Seq<char>) -> bool {
    &&& s.len() > 0
    &&& !s.contains('@')
    &&& !s.contains(',')
    &&& !text::is_white_space(s[0])
    &&& !text::is_white_space(s.last())
}

/// A hop read from a list: with a user in front when there is one.
proof fn lemma_hop_in_list(user: Option<Seq<char>>, rest: Seq<char>)
    requires
        is_part(rest),
        user matches Some(user) ==> is_part(user),
    ensures
        hop::hops_of(
            match user {
                Some(user) => user + seq!['@'] + rest,
                None => rest,
            },
        ) == match hop::host_and_port(rest) {
            Some((host, port)) => if host.len() > 0 {
                seq![JumpModel { user, host, port }]
            } else {
                Seq::empty()
            },
            None => Seq::empty(),
        },
{
    let s = match user {
        Some(user) => user + seq!['@'] + rest,
        None => rest,
    };
    assert forall|j: int| 0 < j < rest.len() implies #[trigger] rest[j] != '@' by {
        assert(rest.contains(rest[j]));
    }
    law_hop_parts(Seq::empty(), user, rest, Seq::empty());
    assert(Seq::<char>::empty() + s + Seq::<char>::empty() == s);
    assert(!s.contains(',')) by {
        if s.contains(',') {
            let j = choose|j: int| 0 <= j < s.len() && s[j] == ',';
            if let Some(user) = user {
                if j < user.len() {
                    assert(user.contains(user[j]));
                } else if j > user.len() {
                    assert(s[j] == rest[j - user.len() - 1]);
                    assert(rest.contains(rest[j - user.len() - 1]));
                }
            } else {
                assert(rest.contains(rest[j]));
            }
        }
    }
    law_one_entry(s);
    if hop::hop_of(s) is None {
        assert(hop::hops_of(s) == Seq::<JumpModel>::empty());
    }
}

/// A part followed by others that end with a digit is one.
proof fn lemma_part_and_port(host: Seq<char>, port: u16)
    requires
        is_part(host),
    ensures
        is_part(host + seq![':'] + decimal::decimal(port as nat)),
{
    let digits = decimal::decimal(port as nat);
    let s = host + seq![':'] + digits;
    lemma_decimal_lacks(port as nat, '@');
    lemma_decimal_lacks(port as nat, ',');
    laws_text::lemma_decimal_is_no_white_space(port as nat);
    assert(s[0] == host[0]);
    assert(s.last() == digits.last());
    assert forall|j: int| 0 <= j < s.len() implies s[j] != '@' && s[j] != ',' by {
        if j < host.len() {
            assert(s[j] == host[j]);
            assert(host.contains(host[j]));
        } else if j > host.len() {
            assert(s[j] == digits[j - host.len() - 1]);
            assert(digits.contains(digits[j - host.len() - 1]));
        }
    }
}

/// The four forms of a hop by name: with and without a user, with and without a port.
pub proof fn law_named_hop(user: Seq<char>, host: Seq<char>, port: u16)
    requires
        is_part(user),
        is_part(host),
        !host.contains(':'),
        host[0] == '[' ==> !host.contains(']'),
    ensures
        hop::hops_of(host) == seq![JumpModel { user: None, host, port: None }],
        hop::hops_of(user + seq!['@'] + host) == seq![
            JumpModel { user: Some(user), host, port: None },
        ],
        hop::hops_of(host + seq![':'] + decimal::decimal(port as nat)) == seq![
            JumpModel { user: None, host, port: Some(port) },
        ],
        hop::hops_of(user + seq!['@'] + (host + seq![':'] + decimal::decimal(port as nat))) == seq![
            JumpModel { user: Some(user), host, port: Some(port) },
        ],
{
    let digits = decimal::decimal(port as nat);
    law_plain_address(host);
    lemma_decimal_lacks(port as nat, ':');
    lemma_decimal_lacks(port as nat, ']');
    law_plain_port(host, digits);
    decimal::law_port_reads_back(port);
    lemma_part_and_port(host, port);
    lemma_hop_in_list(None, host);
    lemma_hop_in_list(Some(user), host);
    lemma_hop_in_list(None, host + seq![':'] + digits);
    lemma_hop_in_list(Some(user), host + seq![':'] + digits);
}

/// The four forms of a hop with its address in brackets.
pub proof fn law_bracketed_hop(user: Seq<char>, host: Seq<char>, port: u16)
    requires
        is_part(user),
        is_part(host),
        !host.contains(']'),
    ensures
        ({
            let address = seq!['['] + host + seq![']'];
            let digits = decimal::decimal(port as nat);
            &&& hop::hops_of(address) == seq![JumpModel { user: None, host, port: None }]
            &&& hop::hops_of(user + seq!['@'] + address) == seq![
                JumpModel { user: Some(user), host, port: None },
            ]
            &&& hop::hops_of(address + seq![':'] + digits) == seq![
                JumpModel { user: None, host, port: Some(port) },
            ]
            &&& hop::hops_of(user + seq!['@'] + (address + seq![':'] + digits)) == seq![
                JumpModel { user: Some(user), host, port: Some(port) },
            ]
        }),
{
    let address = seq!['['] + host + seq![']'];
    let digits = decimal::decimal(port as nat);
    assert(address[0] == '[' && address.last() == ']');
    assert forall|j: int| 0 <= j < address.len() implies address[j] != '@' && address[j]
        != ',' by {
        if 0 < j < address.len() - 1 {
            assert(address[j] == host[j - 1]);
            assert(host.contains(host[j - 1]));
        }
    }
    assert(is_part(address));
    law_bracketed_address(host, Seq::empty());
    assert(address + Seq::<char>::empty() == address);
    law_bracketed_port(host, digits);
    decimal::law_port_reads_back(port);
    lemma_part_and_port(address, port);
    lemma_hop_in_list(None, address);
    lemma_hop_in_list(Some(user), address);
    lemma_hop_in_list(None, address + seq![':'] + digits);
    lemma_hop_in_list(Some(user), address + seq![':'] + digits);
}

/// A bare address with several colons is a hop without a port, with and without a user.
pub proof fn law_bare_literal_hop(user: Seq<char>, host: Seq<char>, i: int, j: int)
    requires
        user.len() > 0,
        !text::is_white_space(user[0]),
        !host.contains('@'),
        0 <= i < j < host.len(),
        host[i] == ':' && host[j] == ':',
        host[0] != '[' || !host.contains(']'),
        !text::is_white_space(host.last()),
    ensures
        hop::hop_of(user + seq!['@'] + host) == Some(
            JumpModel { user: Some(user), host, port: None },
        ),
        !user.contains(',') && !host.contains(',') ==> hop::hops_of(user + seq!['@'] + host)
            == seq![JumpModel { user: Some(user), host, port: None }],
        !text::is_white_space(host[0]) ==> hop::hop_of(host) == Some(
            JumpModel { user: None, host, port: None },
        ),
        !text::is_white_space(host[0]) && !host.contains(',') ==> hop::hops_of(host) == seq![
            JumpModel { user: None, host, port: None },
        ],
{
    let s = user + seq!['@'] + host;
    law_bare_literal_has_no_port(host, i, j);
    law_hop_parts(Seq::empty(), Some(user), host, Seq::empty());
    assert(Seq::<char>::empty() + s + Seq::<char>::empty() == s);
    if !user.contains(',') && !host.contains(',') {
        assert forall|k: int| 0 <= k < s.len() implies s[k] != ',' by {
            if k < user.len() {
                assert(user.contains(user[k]));
            } else if k > user.len() {
                assert(s[k] == host[k - user.len() - 1]);
                assert(host.contains(host[k - user.len() - 1]));
            }
        }
        law_one_entry(s);
    }
    if !text::is_white_space(host[0]) {
        assert forall|k: int| 0 < k < host.len() implies #[trigger] host[k] != '@' by {
            assert(host.contains(host[k]));
        }
        law_hop_parts(Seq::empty(), None, host, Seq::empty());
        assert(Seq::<char>::empty() + host + Seq::<char>::empty() == host);
        if !host.contains(',') {
            law_one_entry(host);
        }
    }
}

/// White space around a list of hops does not matter.
pub proof fn law_blanks_around_a_list(before: Seq<char>, s: Seq<char>, after: Seq<char>)
    requires
        forall|i: int| 0 <= i < before.len() ==> text::is_white_space(#[trigger] before[i]),
        forall|i: int| 0 <= i < after.len() ==> text::is_white_space(#[trigger] after[i]),
    ensures
        hop::hops_of(before + s + after) == hop::hops_of(s),
    decreases s.len(),
{
    let whole = before + s + after;
    let n = before.len() as int;
    text::lemma_first_position(s, ',');
    assert(!before.contains(',')) by {
        if before.contains(',') {
            let j = choose|j: int| 0 <= j < before.len() && before[j] == ',';
            assert(text::is_white_space(before[j]));
        }
    }
    match text::first_position(s, ',') {
        Some(comma) => {
            assert(whole[n + comma] == ',');
            assert forall|j: int| 0 <= j < n + comma implies whole[j] != ',' by {
                if j < n {
                    assert(before.contains(before[j]));
                } else {
                    assert(whole[j] == s[j - n]);
                }
            }
            text::lemma_first_position_is(whole, ',', n + comma);
            let entry = s.take(comma);
            let rest = s.skip(comma + 1);
            assert(whole.take(n + comma) == before + entry + Seq::<char>::empty());
            law_blanks_do_not_matter(before, entry, Seq::empty());
            assert(whole.skip(n + comma + 1) == Seq::<char>::empty() + rest + after);
            law_blanks_around_a_list(Seq::empty(), rest, after);
        },
        None => {
            assert forall|j: int| 0 <= j < whole.len() implies whole[j] != ',' by {
                if j < n {
                    assert(before.contains(before[j]));
                } else if j < n + s.len() {
                    assert(whole[j] == s[j - n]);
                    assert(s.contains(s[j - n]));
                } else {
                    assert(whole[j] == after[j - n - s.len()]);
                    assert(text::is_white_space(after[j - n - s.len()]));
                }
            }
            text::lemma_first_position(whole, ',');
            law_blanks_do_not_matter(before, s, after);
        },
    }
}

} // verus!
