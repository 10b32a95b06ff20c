//! `ProxyJump` chain resolution.
//!
//! Turns the `ProxyJump` value of a [`Host`] (`bastion`, `ops@jump:2222`,
//! `first,second`, ...) into the ordered list of hosts that must be connected
//! **before** the target, nearest to the local machine first.
//!
//! Each hop is looked up in the known host list, so a jump alias inherits that
//! entry's address, user, port and identity file, like an `ssh -J` hop resolves
//! through `ssh_config`. A hop that matches no known entry is used literally as
//! a hostname. A hop with a `ProxyJump` of its own is expanded first, so nested
//! bastions work.
//!
//! - [`host`]: the host entry and its effective jump value;
//! - [`hop`]: the grammar of jump values and its parser;
//! - [`chain`]: the resolution of a jump value into a chain;
//! - [`route`]: what a chain is, independently of how it is found;
//! - [`laws_text`], [`laws_model`], [`laws_hop`] and [`laws_chain`]: what holds of all
//!   texts, hosts, jump values and chains;
//! - [`text`] and [`decimal`]: the text operations that these rest on.

pub mod chain;
pub mod decimal;
pub mod hop;
pub mod host;
pub mod laws_chain;
pub mod laws_hop;
pub mod laws_model;
pub mod laws_text;
pub mod route;
pub mod text;

pub use crate::chain::{resolve_chain, ChainError, MAX_HOPS};
pub use crate::hop::{parse_jump_spec, JumpSpec};
pub use crate::host::Host;
