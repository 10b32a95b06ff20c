//! `ProxyJump` values: comma-separated hops of the form `[user@]host[:port]`.

use vstd::prelude::*;

use crate::decimal;
use crate::host::optional_text;
use crate::text;

verus! {

/// One hop parsed from a `ProxyJump` value: `[user@]host[:port]`.
#[derive(Debug, PartialEq, Eq)]
pub struct JumpSpec {
    pub user: Option<String>,
    pub host: String,
    pub port: Option<u16>,
}

/// What a [`JumpSpec`] stands for.
pub struct JumpModel {
    pub user: Option<Seq<char>>,
    pub host: Seq<char>,
    pub port: Option<u16>,
}

impl View for JumpSpec {
    type V = JumpModel;

    open spec fn view(&self) -> JumpModel {
        JumpModel { user: optional_text(self.user), host: self.host@, port: self.port }
    }
}

/// What a list of hops stands for.
pub open spec fn jump_models(hops: Seq<JumpSpec>) -> Seq<JumpModel> {
    hops.map_values(|h: JumpSpec| h@)
}

// ---------------------------------------------------------------------------
// The grammar
// ---------------------------------------------------------------------------

/// A host, and the port that `digits` denotes; nothing when it denotes none.
pub open spec fn with_port(host: Seq<char>, digits: Seq<char>) -> Option<
    (Seq<char>, Option<u16>),
> {
    match decimal::port_of(digits) {
        Some(port) => Some((host, Some(port))),
        None => None,
    }
}

/// The index of the `]` that closes the `[` which `s` begins with.
pub open spec fn closing_bracket(s: Seq<char>) -> Option<int> {
    if s.len() > 0 && s[0] == '[' {
        text::first_position(s, ']')
    } else {
        None
    }
}

/// The host and the port of `host`, `host:port`, `[v6]` or `[v6]:port`.
///
/// Text after a closing bracket that does not begin with `:` is ignored. Outside
/// brackets a colon introduces a port only when it is the only one. A port that
/// is not a number makes the whole unusable.
pub open spec fn host_and_port(s: Seq<char>) -> Option<(Seq<char>, Option<u16>)> {
    match closing_bracket(s) {
        Some(close) => {
            let host = s.subrange(1, close);
            let after = s.skip(close + 1);
            if after.len() > 0 && after[0] == ':' {
                with_port(host, after.skip(1))
            } else {
                Some((host, None))
            }
        },
        None => match text::first_position(s, ':') {
            Some(colon) => if s.skip(colon + 1).contains(':') {
                Some((s, None))
            } else {
                with_port(s.take(colon), s.skip(colon + 1))
            },
            None => Some((s, None)),
        },
    }
}

/// What precedes the last `@`, unless that is empty or there is no `@`, and what
/// is left to be read as host and port.
pub open spec fn user_and_rest(s: Seq<char>) -> (Option<Seq<char>>, Seq<char>) {
    match text::last_position(s, '@') {
        Some(at) => if at > 0 {
            (Some(s.take(at)), s.skip(at + 1))
        } else {
            (None, s)
        },
        None => (None, s),
    }
}

/// The hop that `s` denotes; nothing when it is unusable, that is blank, without
/// a host, or with a port that is not a number.
pub open spec fn hop_of(s: Seq<char>) -> Option<JumpModel> {
    let (user, rest) = user_and_rest(text::trimmed(s));
    match host_and_port(rest) {
        Some((host, port)) => if host.len() == 0 {
            None
        } else {
            Some(JumpModel { user, host, port })
        },
        None => None,
    }
}

/// The hops of a comma-separated list, in order, without the unusable ones.
pub open spec fn hops_of(s: Seq<char>) -> Seq<JumpModel>
    decreases s.len(),
{
    match text::first_position(s, ',') {
        Some(comma) => if 0 <= comma < s.len() {
            usable(s.take(comma)) + hops_of(s.skip(comma + 1))
        } else {
            usable(s)
        },
        None => usable(s),
    }
}

/// The hop that `s` denotes, as a list of at most one.
pub open spec fn usable(s: Seq<char>) -> Seq<JumpModel> {
    match hop_of(s) {
        Some(hop) => seq![hop],
        None => Seq::empty(),
    }
}

// ---------------------------------------------------------------------------
// Parsing
// ---------------------------------------------------------------------------

/// Splits a `ProxyJump` value into its comma-separated hops, nearest first.
///
/// Unparseable hops (an empty entry, a non-numeric port) are skipped rather
/// than failing the whole connection: the remaining hops still describe a
/// usable route, and an unreachable one surfaces as a normal connection error.
pub fn parse_jump_spec(value: &str) -> (res: Vec<JumpSpec>)
    ensures
        jump_models(res@) == hops_of(value@),
{
    let mut res: Vec<JumpSpec> = Vec::new();
    let mut rest = value;
    loop
        invariant
            jump_models(res@) + hops_of(rest@) == hops_of(value@),
        decreases rest@.len(),
    {
        proof {
            text::lemma_first_position(rest@, ',');
        }
        match text::find(rest, ',') {
            Some(comma) => {
                let ghost before = jump_models(res@);
                let entry = rest.substring_char(0, comma);
                if let Some(hop) = parse_hop(entry) {
                    res.push(hop);
                }
                assert(entry@ == rest@.take(comma as int));
                assert(jump_models(res@) == before + usable(entry@));
                rest = text::suffix(rest, comma + 1);
            },
            None => {
                let ghost before = jump_models(res@);
                if let Some(hop) = parse_hop(rest) {
                    res.push(hop);
                }
                assert(jump_models(res@) == before + usable(rest@));
                return res;
            },
        }
    }
}

/// Parses a single `[user@]host[:port]` hop. Bracketed IPv6 literals
/// (`[2001:db8::1]:2222`) are supported, matching `ssh -J`.
pub fn parse_hop(hop: &str) -> (res: Option<JumpSpec>)
    ensures
        match res {
            Some(spec) => hop_of(hop@) == Some(spec@),
            None => hop_of(hop@) is None,
        },
{
    let hop = text::trim(hop);
    if hop.is_empty() {
        return None;
    }
    // Split on the last '@': a username cannot contain one, a host never does.
    proof {
        text::lemma_last_position(hop@, '@');
    }
    let (user, rest): (Option<String>, &str) = match text::rfind(hop, '@') {
        Some(at) => if at > 0 {
            (Some(hop.substring_char(0, at).to_owned()), text::suffix(hop, at + 1))
        } else {
            (None, hop)
        },
        None => (None, hop),
    };
    match split_host_port(rest) {
        Some((host, port)) => {
            if host.is_empty() {
                return None;
            }
            Some(JumpSpec { user, host: host.to_owned(), port })
        },
        None => None,
    }
}

/// Splits `host`, `host:port`, `[v6]` or `[v6]:port` into its two parts.
/// Returns `None` when a port is present but not a valid number.
pub fn split_host_port(rest: &str) -> (res: Option<(&str, Option<u16>)>)
    ensures
        match res {
            Some((host, port)) => host_and_port(rest@) == Some((host@, port)),
            None => host_and_port(rest@) is None,
        },
{
    proof {
        text::lemma_first_position(rest@, ']');
        text::lemma_first_position(rest@, ':');
    }
    if !rest.is_empty() && rest.get_char(0) == '[' {
        if let Some(close) = text::find(rest, ']') {
            let host = rest.substring_char(1, close);
            let after = text::suffix(rest, close + 1);
            if !after.is_empty() && after.get_char(0) == ':' {
                return match decimal::parse_port(text::suffix(after, 1)) {
                    Some(port) => Some((host, Some(port))),
                    None => None,
                };
            }
            return Some((host, None));
        }
    }
    // An unbracketed colon separates the port only when it is the sole one;
    // a bare IPv6 literal has several and carries no port.
    match text::find(rest, ':') {
        Some(colon) => {
            let digits = text::suffix(rest, colon + 1);
            proof {
                text::lemma_first_position(digits@, ':');
            }
            if text::find(digits, ':').is_some() {
                return Some((rest, None));
            }
            match decimal::parse_port(digits) {
                Some(port) => Some((rest.substring_char(0, colon), Some(port))),
                None => None,
            }
        },
        None => Some((rest, None)),
    }
}

} // verus!
