//! Laws of the models: what hosts, hops, errors and walks are, field by field.

use vstd::prelude::*;

use crate::chain;
use crate::chain::{ChainError, ChainErrorModel};
use crate::decimal;
use crate::hop;
use crate::hop::JumpSpec;
use crate::host;
use crate::host::{Host, HostModel};
use crate::laws_text;
use crate::text;

verus! {

/// A host stands for all of its settings.
pub proof fn law_host_model(entry: Host)
    ensures
        entry@.name == entry.name@,
        entry@.hostname == entry.hostname@,
        entry@.user == entry.user@,
        entry@.port == entry.port,
        match (entry.identity_file, entry@.identity_file) {
            (Some(file), Some(model)) => file@ == model,
            (None, None) => true,
            _ => false,
        },
        match (entry.proxy_jump, entry@.proxy_jump) {
            (Some(value), Some(model)) => value@ == model,
            (None, None) => true,
            _ => false,
        },
{
}

/// A list of hosts stands for its hosts, one by one and in order.
pub proof fn law_host_models(hosts: Seq<Host>)
    ensures
        host::models(hosts).len() == hosts.len(),
        forall|i: int| 0 <= i < hosts.len() ==> #[trigger] host::models(hosts)[i] == hosts[i]@,
{
}

/// A hop stands for all of its parts.
pub proof fn law_jump_model(spec: JumpSpec)
    ensures
        spec@.host == spec.host@,
        spec@.port == spec.port,
        match (spec.user, spec@.user) {
            (Some(user), Some(model)) => user@ == model,
            (None, None) => true,
            _ => false,
        },
{
}

/// A list of hops stands for its hops, one by one and in order.
pub proof fn law_jump_models(hops: Seq<JumpSpec>)
    ensures
        hop::jump_models(hops).len() == hops.len(),
        forall|i: int| 0 <= i < hops.len() ==> #[trigger] hop::jump_models(hops)[i] == hops[i]@,
{
}

/// An error stands for its kind, and a cycle for the alias at which it closes; the
/// message of a cycle quotes that alias, and that of a long chain gives the limit.
pub proof fn law_error_model(error: ChainError)
    ensures
        match error {
            ChainError::Cycle { name } => {
                &&& error@ == (ChainErrorModel::Cycle { name: name@ })
                &&& error@.message() == "ProxyJump cycle detected at '"@ + name@ + "'"@
            },
            ChainError::TooLong => {
                &&& error@ == ChainErrorModel::TooLong
                &&& error@.message() == "ProxyJump chain longer than 10 hops"@
            },
        },
{
    reveal_strlit("ProxyJump chain longer than ");
    reveal_strlit(" hops");
    reveal_strlit("ProxyJump chain longer than 10 hops");
    laws_text::law_decimal_digits(1, 0);
    laws_text::law_decimal_digits(1, 1);
    let ten = decimal::decimal(10);
    assert(ten.drop_last()[0] == ten[0]);
    assert(ten =~= seq!['1', '0']);
    assert(ChainErrorModel::TooLong.message() =~= "ProxyJump chain longer than 10 hops"@);
}

/// A walk as it stands in memory.
pub proof fn law_walk_model(
    hosts: Seq<Host>,
    visited: Set<Seq<char>>,
    outcome: Result<(), ChainError>,
)
    ensures
        ({
            let walk = chain::walk_at(hosts, visited, outcome);
            &&& walk.chain.len() == hosts.len()
            &&& forall|i: int| 0 <= i < hosts.len() ==> #[trigger] walk.chain[i] == hosts[i]@
            &&& walk.visited == visited
            &&& match outcome {
                Ok(()) => walk.error is None,
                Err(error) => walk.error == Some(error@),
            }
        }),
{
}

/// A host without settings: everything empty, the port of SSH, reached directly.
pub proof fn law_unset_host()
    ensures
        HostModel::unset().name.len() == 0,
        HostModel::unset().hostname.len() == 0,
        HostModel::unset().user.len() == 0,
        HostModel::unset().port == 22,
        HostModel::unset().identity_file is None,
        HostModel::unset().proxy_jump is None,
{
}

/// Flattening clears the jump value and keeps every other setting.
pub proof fn law_flattening(entry: HostModel)
    ensures
        entry.flattened().name == entry.name,
        entry.flattened().hostname == entry.hostname,
        entry.flattened().user == entry.user,
        entry.flattened().port == entry.port,
        entry.flattened().identity_file == entry.identity_file,
        entry.flattened().proxy_jump is None,
{
}

/// An address that is missing is the alias; every other setting is kept.
pub proof fn law_addressing(entry: HostModel)
    ensures
        entry.hostname.len() == 0 ==> entry.addressed().hostname == entry.name,
        entry.hostname.len() > 0 ==> entry.addressed().hostname == entry.hostname,
        entry.addressed().name == entry.name,
        entry.addressed().user == entry.user,
        entry.addressed().port == entry.port,
        entry.addressed().identity_file == entry.identity_file,
        entry.addressed().proxy_jump == entry.proxy_jump,
{
}

/// Whether `s` is the word that opts out of jumping, in any case.
pub open spec fn opts_out(s: Seq<char>) -> bool {
    &&& s.len() == 4
    &&& (s[0] == 'n' || s[0] == 'N')
    &&& (s[1] == 'o' || s[1] == 'O')
    &&& (s[2] == 'n' || s[2] == 'N')
    &&& (s[3] == 'e' || s[3] == 'E')
}

/// The effective jump value is all of the value between the white space around it,
/// unless that is nothing, or the four letters of `none` in any case.
pub proof fn law_jump_value(
    entry: HostModel,
    before: Seq<char>,
    value: Seq<char>,
    after: Seq<char>,
)
    requires
        forall|i: int| 0 <= i < before.len() ==> text::is_white_space(#[trigger] before[i]),
        forall|i: int| 0 <= i < after.len() ==> text::is_white_space(#[trigger] after[i]),
        value.len() > 0 ==> !text::is_white_space(value[0]) && !text::is_white_space(
            value.last(),
        ),
    ensures
        entry.proxy_jump is None ==> entry.jump_value() is None,
        entry.proxy_jump == Some(before + value + after) ==> entry.jump_value() == (
        if value.len() == 0 || (value.len() == 4 && (value[0] == 'n' || value[0] == 'N') && (
        value[1] == 'o' || value[1] == 'O') && (value[2] == 'n' || value[2] == 'N') && (value[3]
            == 'e' || value[3] == 'E')) {
            None
        } else {
            Some(value)
        }),
{
    laws_text::law_trimming(before, value, after);
    laws_text::law_none_in_any_case(value);
}

/// The jump value over trimming alone.
pub proof fn law_jump_value_is_trimmed(entry: HostModel)
    ensures
        entry.proxy_jump matches Some(value) ==> entry.jump_value() == (if text::trimmed(
            value,
        ).len() == 0 || opts_out(text::trimmed(value)) {
            None
        } else {
            Some(text::trimmed(value))
        }),
{
    if let Some(value) = entry.proxy_jump {
        laws_text::law_none_in_any_case(text::trimmed(value));
    }
}

/// The keys of a host, and what it is to be new and to be recorded: by alias, and by
/// user, address and port.
pub proof fn law_keys(entry: HostModel, visited: Set<Seq<char>>, key: Seq<char>)
    ensures
        ({
            let by_name = "name:"@ + entry.name;
            let by_address = "address:"@ + entry.user + "@"@ + entry.hostname + ":"@
                + decimal::decimal(entry.port as nat);
            &&& entry.name_key() == by_name
            &&& entry.address_key() == by_address
            &&& entry.is_new(visited) <==> !visited.contains(by_name) && !visited.contains(
                by_address,
            )
            &&& entry.marked(visited).contains(key) <==> visited.contains(key) || key == by_name
                || key == by_address
        }),
{
}

} // verus!
