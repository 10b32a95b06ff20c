//! The connection settings of one host.

use vstd::prelude::*;

use crate::text;

verus! {

/// The port a host listens on unless its entry says otherwise.
pub const DEFAULT_PORT: u16 = 22;

/// One host entry: an alias and how to connect to it.
#[derive(Debug, PartialEq, Eq)]
pub struct Host {
    /// The alias by which the entry is looked up.
    pub name: String,
    /// The address to connect to; empty when the alias is the address.
    pub hostname: String,
    /// The user to log in as; empty when the entry names none.
    pub user: String,
    /// The port to connect to.
    pub port: u16,
    /// The private key to log in with.
    pub identity_file: Option<String>,
    /// The `ProxyJump` value: the hops through which the host is reached.
    pub proxy_jump: Option<String>,
}

/// What a [`Host`] stands for: its settings, each string as its characters.
pub struct HostModel {
    pub name: Seq<char>,
    pub hostname: Seq<char>,
    pub user: Seq<char>,
    pub port: u16,
    pub identity_file: Option<Seq<char>>,
    pub proxy_jump: Option<Seq<char>>,
}

/// The characters of an optional string.
pub open spec fn optional_text(s: Option<String>) -> Option<Seq<char>> {
    match s {
        Some(s) => Some(s@),
        None => None,
    }
}

impl View for Host {
    type V = HostModel;

    open spec fn view(&self) -> HostModel {
        HostModel {
            name: self.name@,
            hostname: self.hostname@,
            user: self.user@,
            port: self.port,
            identity_file: optional_text(self.identity_file),
            proxy_jump: optional_text(self.proxy_jump),
        }
    }
}

/// What a list of hosts stands for.
pub open spec fn models(hosts: Seq<Host>) -> Seq<HostModel> {
    hosts.map_values(|h: Host| h@)
}

impl HostModel {
    /// A host without any settings of its own.
    pub open spec fn unset() -> HostModel {
        HostModel {
            name: Seq::empty(),
            hostname: Seq::empty(),
            user: Seq::empty(),
            port: DEFAULT_PORT,
            identity_file: None,
            proxy_jump: None,
        }
    }

    /// The effective `ProxyJump` value, or `None` when the host is reached
    /// directly: no value, a blank one, or `none` in any case.
    pub open spec fn jump_value(self) -> Option<Seq<char>> {
        match self.proxy_jump {
            None => None,
            Some(value) => {
                let value = text::trimmed(value);
                if value.len() == 0 || text::equal_ignoring_case(value, "none"@) {
                    None
                } else {
                    Some(value)
                }
            },
        }
    }

    /// The host with the address to connect to: its alias, when it has no other.
    pub open spec fn addressed(self) -> HostModel {
        if self.hostname.len() == 0 {
            HostModel { hostname: self.name, ..self }
        } else {
            self
        }
    }

    /// The host with its `ProxyJump` value cleared.
    pub open spec fn flattened(self) -> HostModel {
        HostModel { proxy_jump: None, ..self }
    }
}

/// A copy of an optional string.
fn clone_optional(s: &Option<String>) -> (res: Option<String>)
    ensures
        optional_text(res) == optional_text(*s),
{
    match s {
        Some(s) => Some(s.clone()),
        None => None,
    }
}

impl Clone for Host {
    fn clone(&self) -> (res: Self)
        ensures
            res@ == self@,
    {
        Host {
            name: self.name.clone(),
            hostname: self.hostname.clone(),
            user: self.user.clone(),
            port: self.port,
            identity_file: clone_optional(&self.identity_file),
            proxy_jump: clone_optional(&self.proxy_jump),
        }
    }
}

impl Default for Host {
    fn default() -> (res: Self)
        ensures
            res@ == HostModel::unset(),
    {
        Host {
            name: String::new(),
            hostname: String::new(),
            user: String::new(),
            port: DEFAULT_PORT,
            identity_file: None,
            proxy_jump: None,
        }
    }
}

/// `host` with the address to connect to: its alias, when it has no other.
pub fn with_address(host: Host) -> (res: Host)
    ensures
        res@ == host@.addressed(),
{
    let mut res = host;
    if res.hostname.as_str().is_empty() {
        res.hostname = res.name.clone();
    }
    res
}

/// The effective `ProxyJump` value of `host`, or `None` when it connects
/// directly. Blank values and the OpenSSH `none` opt-out both mean "direct".
pub fn jump_value(host: &Host) -> (res: Option<&str>)
    ensures
        match res {
            Some(value) => host@.jump_value() == Some(value@),
            None => host@.jump_value() is None,
        },
{
    match &host.proxy_jump {
        None => None,
        Some(value) => {
            let value = text::trim(value.as_str());
            if value.is_empty() || text::eq_ignore_ascii_case(value, "none") {
                None
            } else {
                Some(value)
            }
        },
    }
}

} // verus!
