//! Laws of chain resolution, and of the hops and hosts that it deals with.

use vstd::prelude::*;

use crate::chain;
use crate::chain::{ChainErrorModel, Walk, MAX_HOPS};
use crate::decimal;
use crate::hop;
use crate::hop::JumpModel;
use crate::host::HostModel;
use crate::laws_hop;
use crate::laws_model;
use crate::laws_text;
use crate::route;
use crate::text;

verus! {

// ---------------------------------------------------------------------------
// Chains
// ---------------------------------------------------------------------------

/// A host without a jump value, with a blank one, or with `none` in any case, is
/// connected directly.
pub proof fn law_direct_connection(target: HostModel, known: Seq<HostModel>)
    requires
        match target.proxy_jump {
            None => true,
            Some(value) => {
                ||| text::trimmed(value).len() == 0
                ||| text::equal_ignoring_case(text::trimmed(value), "none"@)
            },
        },
    ensures
        chain::chain_of(target, known) == Ok::<_, ChainErrorModel>(Seq::<HostModel>::empty()),
{
}

/// A resolved chain is empty exactly when the target has no jump value, or one
/// without a usable hop.
pub proof fn law_empty_chain(target: HostModel, known: Seq<HostModel>)
    ensures
        chain::chain_of(target, known) == Ok::<_, ChainErrorModel>(Seq::<HostModel>::empty()) <==> (
        match target.jump_value() {
            None => true,
            Some(value) => hop::hops_of(value).len() == 0,
        }),
{
    route::law_chain_is_the_route(target, known, Seq::empty());
}

/// Every host of a route is flattened, and has an alias and an address.
proof fn lemma_route_hosts(depth: nat, hops: Seq<JumpModel>, known: Seq<HostModel>)
    requires
        route::route_within(depth, hops, known) is Some,
        forall|i: int| 0 <= i < hops.len() ==> (#[trigger] hops[i]).host.len() > 0,
    ensures
        forall|i: int|
            0 <= i < route::route_within(depth, hops, known).unwrap().len() ==> {
                let host = #[trigger] route::route_within(depth, hops, known).unwrap()[i];
                host.proxy_jump is None && host.name.len() > 0 && host.hostname.len() > 0
            },
    decreases depth, hops.len(),
{
    if hops.len() > 0 {
        let host = chain::resolved(hops[0], known);
        assert(hops[0].host.len() > 0);
        chain::lemma_resolved_name(hops[0], known);
        if let Some(value) = host.jump_value() {
            laws_hop::law_hops_are_usable(value);
            lemma_route_hosts((depth - 1) as nat, hop::hops_of(value), known);
        }
        let others = hops.drop_first();
        assert(forall|i: int| 0 <= i < others.len() ==> #[trigger] others[i] == hops[i + 1]);
        lemma_route_hosts(depth, others, known);
    }
}

/// Every host of a resolved chain has its jump value cleared, and an alias and an
/// address to connect to.
pub proof fn law_chain_hosts(target: HostModel, known: Seq<HostModel>, hosts: Seq<HostModel>)
    requires
        chain::chain_of(target, known) == Ok::<_, ChainErrorModel>(hosts),
    ensures
        forall|i: int|
            0 <= i < hosts.len() ==> {
                &&& (#[trigger] hosts[i]).proxy_jump is None
                &&& hosts[i].name.len() > 0
                &&& hosts[i].hostname.len() > 0
            },
{
    route::law_chain_is_the_route(target, known, hosts);
    if let Some(value) = target.jump_value() {
        laws_hop::law_hops_are_usable(value);
        lemma_route_hosts(MAX_HOPS as nat, hop::hops_of(value), known);
    }
}

/// Resolving a host of a resolved chain again, against any host list, gives nothing
/// to connect before it.
pub proof fn law_chain_is_flat(
    target: HostModel,
    known: Seq<HostModel>,
    hosts: Seq<HostModel>,
    i: int,
)
    requires
        chain::chain_of(target, known) == Ok::<_, ChainErrorModel>(hosts),
        0 <= i < hosts.len(),
    ensures
        forall|other: Seq<HostModel>| #[trigger]
            chain::chain_of(hosts[i], other) == Ok::<_, ChainErrorModel>(
                Seq::<HostModel>::empty(),
            ),
{
    law_chain_hosts(target, known, hosts);
}

/// A resolved chain has at most [`MAX_HOPS`] hosts.
pub proof fn law_chain_length(target: HostModel, known: Seq<HostModel>, hosts: Seq<HostModel>)
    requires
        chain::chain_of(target, known) == Ok::<_, ChainErrorModel>(hosts),
    ensures
        hosts.len() <= MAX_HOPS,
{
    route::law_chain_is_the_route(target, known, hosts);
}

/// No two hosts of a resolved chain have the same alias or the same user, address
/// and port, and none has those of the target, whose alias is its address when it
/// has no other.
pub proof fn law_chain_does_not_repeat(
    target: HostModel,
    known: Seq<HostModel>,
    hosts: Seq<HostModel>,
    i: int,
    j: int,
)
    requires
        chain::chain_of(target, known) == Ok::<_, ChainErrorModel>(hosts),
        0 <= i < j <= hosts.len(),
    ensures
        ({
            let all = seq![target.addressed()] + hosts;
            &&& all[i].name != all[j].name
            &&& !(all[i].user == all[j].user && all[i].hostname == all[j].hostname && all[i].port
                == all[j].port)
        }),
{
    route::law_chain_is_the_route(target, known, hosts);
    let all = seq![target.addressed()] + hosts;
    assert(!route::coincide(all[i], all[j]));
}

/// Where a hop stands on its route: directly behind the route of its own jump
/// value.
pub proof fn law_nested_hosts_come_first(
    depth: nat,
    hops: Seq<JumpModel>,
    known: Seq<HostModel>,
    i: int,
) -> (at: int)
    requires
        route::route_within(depth, hops, known) is Some,
        0 <= i < hops.len(),
    ensures
        ({
            let route = route::route_within(depth, hops, known).unwrap();
            let host = chain::resolved(hops[i], known);
            &&& 0 <= at < route.len()
            &&& route[at] == host.flattened()
            &&& route[at].name == host.name
            &&& route[at].hostname == host.hostname
            &&& route[at].user == host.user
            &&& route[at].port == host.port
            &&& route[at].identity_file == host.identity_file
            &&& route[at].proxy_jump is None
            &&& host.jump_value() matches Some(value) ==> {
                &&& depth > 0
                &&& route::route_within(
                    (depth - 1) as nat,
                    hop::hops_of(value),
                    known,
                ) matches Some(inner)
                &&& inner.len() <= at
                &&& route.subrange(at - inner.len(), at) == inner
            }
        }),
    decreases i,
{
    let route = route::route_within(depth, hops, known).unwrap();
    let first = chain::resolved(hops[0], known);
    let inner = match first.jump_value() {
        None => Seq::<HostModel>::empty(),
        Some(value) => route::route_within((depth - 1) as nat, hop::hops_of(value), known).unwrap(),
    };
    let others = hops.drop_first();
    let rest = route::route_within(depth, others, known).unwrap();
    assert(route == inner.push(first.flattened()) + rest);
    if i == 0 {
        assert(route.subrange(0, inner.len() as int) == inner);
        inner.len() as int
    } else {
        let at = law_nested_hosts_come_first(depth, others, known, i - 1);
        let host = chain::resolved(hops[i], known);
        let skipped = inner.len() as int + 1;
        assert(others[i - 1] == hops[i]);
        if let Some(value) = host.jump_value() {
            let hops_below = hop::hops_of(value);
            let nested = route::route_within((depth - 1) as nat, hops_below, known).unwrap();
            assert(route.subrange(skipped + at - nested.len(), skipped + at) == rest.subrange(
                at - nested.len(),
                at,
            ));
        }
        skipped + at
    }
}

/// Hops that are reached directly are connected in the order in which they are
/// written.
pub proof fn law_plain_hops_keep_order(depth: nat, hops: Seq<JumpModel>, known: Seq<HostModel>)
    requires
        forall|i: int|
            0 <= i < hops.len() ==> chain::resolved(#[trigger] hops[i], known).jump_value() is None,
    ensures
        route::route_within(depth, hops, known) == Some(
            hops.map_values(|spec: JumpModel| chain::resolved(spec, known).flattened()),
        ),
    decreases hops.len(),
{
    let hosts = hops.map_values(|spec: JumpModel| chain::resolved(spec, known).flattened());
    if hops.len() == 0 {
        assert(hosts == Seq::<HostModel>::empty());
    } else {
        let others = hops.drop_first();
        assert(chain::resolved(hops[0], known).jump_value() is None);
        assert(forall|i: int| 0 <= i < others.len() ==> #[trigger] others[i] == hops[i + 1]);
        law_plain_hops_keep_order(depth, others, known);
        let rest = others.map_values(
            |spec: JumpModel| chain::resolved(spec, known).flattened(),
        );
        let first = chain::resolved(hops[0], known).flattened();
        assert(Seq::<HostModel>::empty().push(first) + rest == hosts);
    }
}

/// The route of a list of hops is that of its beginning followed by that of its end.
pub proof fn law_routes_join(
    depth: nat,
    left: Seq<JumpModel>,
    right: Seq<JumpModel>,
    known: Seq<HostModel>,
)
    ensures
        route::route_within(depth, left + right, known) == match (
            route::route_within(depth, left, known),
            route::route_within(depth, right, known),
        ) {
            (Some(a), Some(b)) => Some(a + b),
            _ => None,
        },
    decreases left.len(),
{
    if left.len() == 0 {
        assert(left + right == right);
        if let Some(b) = route::route_within(depth, right, known) {
            assert(Seq::<HostModel>::empty() + b == b);
        }
    } else {
        let others = left.drop_first();
        law_routes_join(depth, others, right, known);
        assert((left + right).drop_first() == others + right);
        assert((left + right)[0] == left[0]);
        let host = chain::resolved(left[0], known);
        let inner = match host.jump_value() {
            None => Some(Seq::empty()),
            Some(value) => if depth == 0 {
                None
            } else {
                route::route_within((depth - 1) as nat, hop::hops_of(value), known)
            },
        };
        match (
            inner,
            route::route_within(depth, others, known),
            route::route_within(depth, right, known),
        ) {
            (Some(inner), Some(a), Some(b)) => {
                let head = inner.push(host.flattened());
                assert(head + (a + b) == (head + a) + b);
            },
            _ => {},
        }
    }
}

/// The target is reached through the host of its last hop.
pub proof fn law_last_hop_is_last(target: HostModel, known: Seq<HostModel>, hosts: Seq<HostModel>)
    requires
        chain::chain_of(target, known) == Ok::<_, ChainErrorModel>(hosts),
        target.jump_value() matches Some(value) && hop::hops_of(value).len() > 0,
    ensures
        hosts.len() > 0,
        hosts.last() == chain::resolved(
            hop::hops_of(target.jump_value().unwrap()).last(),
            known,
        ).flattened(),
{
    let depth = MAX_HOPS as nat;
    let hops = hop::hops_of(target.jump_value().unwrap());
    let end = seq![hops.last()];
    route::law_chain_is_the_route(target, known, hosts);
    assert(hops == hops.drop_last() + end);
    law_routes_join(depth, hops.drop_last(), end, known);
    assert(end.drop_first() == Seq::<JumpModel>::empty());
    assert(route::route_within(depth, end.drop_first(), known) == Some(Seq::<HostModel>::empty()));
    let before = route::route_within(depth, hops.drop_last(), known).unwrap();
    let tail = route::route_within(depth, end, known).unwrap();
    assert(tail.last() == chain::resolved(hops.last(), known).flattened());
    assert(hosts == before + tail);
}

/// A jump value that names its own target, or whose hops name one host twice, does
/// not resolve.
pub proof fn law_loops_are_rejected(target: HostModel, known: Seq<HostModel>, i: int, j: int)
    requires
        target.jump_value() is Some,
        ({
            let hops = hop::hops_of(target.jump_value().unwrap());
            ||| 0 <= i < hops.len() && hops[i].host == target.name
            ||| 0 <= i < j < hops.len() && hops[i].host == hops[j].host
        }),
    ensures
        chain::chain_of(target, known) is Err,
{
    let hops = hop::hops_of(target.jump_value().unwrap());
    if let Ok(hosts) = chain::chain_of(target, known) {
        let depth = MAX_HOPS as nat;
        route::law_chain_is_the_route(target, known, hosts);
        let all = seq![target.addressed()] + hosts;
        let at = law_nested_hosts_come_first(depth, hops, known, i);
        chain::lemma_resolved_name(hops[i], known);
        assert(all[at + 1] == hosts[at]);
        assert(all[at + 1].name == hops[i].host);
        if hops[i].host == target.name {
            assert(all[0].name == target.name);
            assert(route::coincide(all[0], all[at + 1]));
        } else {
            let other = lemma_later_hop(depth, hops, known, i, j);
            assert(all[other.0 + 1] == hosts[other.0]);
            assert(all[other.1 + 1] == hosts[other.1]);
            chain::lemma_resolved_name(hops[j], known);
            assert(route::coincide(all[other.0 + 1], all[other.1 + 1]));
        }
    }
}

/// Of two hops, the one that is written first stands first on the route.
pub proof fn lemma_later_hop(
    depth: nat,
    hops: Seq<JumpModel>,
    known: Seq<HostModel>,
    i: int,
    j: int,
) -> (at: (int, int))
    requires
        route::route_within(depth, hops, known) is Some,
        0 <= i < j < hops.len(),
    ensures
        ({
            let route = route::route_within(depth, hops, known).unwrap();
            &&& 0 <= at.0 < at.1 < route.len()
            &&& route[at.0] == chain::resolved(hops[i], known).flattened()
            &&& route[at.1] == chain::resolved(hops[j], known).flattened()
        }),
{
    let left = hops.take(j);
    let right = hops.skip(j);
    assert(hops == left + right);
    law_routes_join(depth, left, right, known);
    let first = law_nested_hosts_come_first(depth, left, known, i);
    let second = law_nested_hosts_come_first(depth, right, known, 0);
    let a = route::route_within(depth, left, known).unwrap();
    let b = route::route_within(depth, right, known).unwrap();
    assert(left[i] == hops[i]);
    assert(right[0] == hops[j]);
    assert((a + b)[first] == a[first]);
    assert((a + b)[a.len() + second] == b[second]);
    (first, a.len() + second)
}

// ---------------------------------------------------------------------------
// Single hops
// ---------------------------------------------------------------------------

/// A hop that names a known entry inherits its settings from the first such entry,
/// but for the user and the port that it gives itself; an entry without an address
/// is reached by its alias.
pub proof fn law_known_hop_inherits(spec: JumpModel, known: Seq<HostModel>, i: int)
    requires
        0 <= i < known.len(),
        known[i].name == spec.host,
        forall|j: int| 0 <= j < i ==> (#[trigger] known[j]).name != spec.host,
    ensures
        ({
            let host = chain::resolved(spec, known);
            &&& host.name == known[i].name
            &&& host.hostname == if known[i].hostname.len() == 0 {
                known[i].name
            } else {
                known[i].hostname
            }
            &&& host.identity_file == known[i].identity_file
            &&& host.proxy_jump == known[i].proxy_jump
            &&& spec.user is None ==> host.user == known[i].user
            &&& spec.port is None ==> host.port == known[i].port
        }),
{
    let at = chain::lemma_lookup(known, spec.host);
    assert(chain::lookup(known, spec.host) is Some);
    assert(at == i);
}

/// A hop that names no known entry is used literally as an address, with the
/// default user and port where it gives none, and is reached directly.
pub proof fn law_unknown_hop_is_literal(spec: JumpModel, known: Seq<HostModel>)
    requires
        forall|j: int| 0 <= j < known.len() ==> (#[trigger] known[j]).name != spec.host,
    ensures
        ({
            let host = chain::resolved(spec, known);
            &&& host.name == spec.host
            &&& host.hostname == spec.host
            &&& host.identity_file is None
            &&& host.proxy_jump is None
            &&& host.jump_value() is None
            &&& spec.user is None ==> host.user.len() == 0
            &&& spec.port is None ==> host.port == 22
        }),
{
    chain::lemma_lookup(known, spec.host);
}

/// A user or a port in a hop wins over what a known entry says.
pub proof fn law_explicit_settings_win(spec: JumpModel, known: Seq<HostModel>)
    ensures
        spec.user matches Some(user) ==> chain::resolved(spec, known).user == user,
        spec.port matches Some(port) ==> chain::resolved(spec, known).port == port,
{
}

// ---------------------------------------------------------------------------
// Counting as one
// ---------------------------------------------------------------------------

/// `user@hostname`.
pub open spec fn login(host: HostModel) -> Seq<char> {
    host.user.push('@') + host.hostname
}

/// Two hosts count as one exactly when they have the same alias, or when their
/// `user@hostname` reads the same and they have the same port.
pub proof fn law_coincidence(a: HostModel, b: HostModel)
    ensures
        route::coincide(a, b) <==> a.name == b.name || (login(a) == login(b) && a.port == b.port),
{
    reveal_strlit("name:");
    reveal_strlit("address:");
    reveal_strlit("@");
    reveal_strlit(":");
    assert(a.name_key().skip(5) == a.name);
    assert(b.name_key().skip(5) == b.name);
    lemma_address_key(a);
    lemma_address_key(b);
    let digits_a = decimal::decimal(a.port as nat);
    let digits_b = decimal::decimal(b.port as nat);
    let head_a = "address:"@ + login(a);
    let head_b = "address:"@ + login(b);
    if a.address_key() == b.address_key() {
        assert(head_a.len() == head_b.len());
        assert(a.address_key().take(head_a.len() as int) == head_a);
        assert(b.address_key().take(head_b.len() as int) == head_b);
        assert(head_a.skip(8) == login(a));
        assert(head_b.skip(8) == login(b));
        assert(a.address_key().skip(head_a.len() as int + 1) == digits_a);
        assert(b.address_key().skip(head_b.len() as int + 1) == digits_b);
        decimal::law_decimal_reads_back(a.port as nat);
        decimal::law_decimal_reads_back(b.port as nat);
    }
}

/// The last colon of an address key is the one before the port.
proof fn lemma_address_key(host: HostModel)
    ensures
        host.address_key() == ("address:"@ + login(host)).push(':') + decimal::decimal(
            host.port as nat,
        ),
        text::last_position(host.address_key(), ':') == Some(
            ("address:"@ + login(host)).len() as int,
        ),
{
    reveal_strlit("@");
    reveal_strlit(":");
    let head = "address:"@ + login(host);
    let digits = decimal::decimal(host.port as nat);
    let key = host.address_key();
    assert(key == head.push(':') + digits);
    decimal::law_decimal_reads_back(host.port as nat);
    assert forall|j: int| head.len() < j < key.len() implies key[j] != ':' by {
        assert(key[j] == digits[j - head.len() - 1]);
        assert(decimal::is_digit(digits[j - head.len() - 1]));
    }
    text::lemma_last_position_is(key, ':', head.len() as int);
}

/// Addresses without `@` are told apart: hosts with such addresses count as one
/// exactly when they have the same alias, or the same user, address and port.
pub proof fn law_machines_are_told_apart(a: HostModel, b: HostModel)
    requires
        !a.hostname.contains('@'),
        !b.hostname.contains('@'),
    ensures
        route::coincide(a, b) <==> a.name == b.name || (a.user == b.user && a.hostname == b.hostname
            && a.port == b.port),
{
    law_coincidence(a, b);
    lemma_login(a);
    lemma_login(b);
    if login(a) == login(b) {
        let at = a.user.len() as int;
        assert(login(a).take(at) == a.user);
        assert(login(b).take(at) == b.user);
        assert(login(a).skip(at + 1) == a.hostname);
        assert(login(b).skip(at + 1) == b.hostname);
    }
}

proof fn lemma_login(host: HostModel)
    requires
        !host.hostname.contains('@'),
    ensures
        text::last_position(login(host), '@') == Some(host.user.len() as int),
{
    let at = host.user.len() as int;
    let s = login(host);
    assert forall|j: int| at < j < s.len() implies s[j] != '@' by {
        assert(s[j] == host.hostname[j - at - 1]);
        assert(host.hostname.contains(host.hostname[j - at - 1]));
    }
    text::lemma_last_position_is(s, '@', at);
}

// ---------------------------------------------------------------------------
// Settings
// ---------------------------------------------------------------------------

/// Whether `host` has the settings of a hop by its alias: those of the first known
/// entry with that alias, or none; the user and the port are left open.
spec fn has_settings(host: HostModel, known: Seq<HostModel>) -> bool {
    &&& host.proxy_jump is None
    &&& match chain::lookup(known, host.name) {
        Some(entry) => {
            &&& host.identity_file == entry.identity_file
            &&& host.hostname == if entry.hostname.len() == 0 {
                entry.name
            } else {
                entry.hostname
            }
        },
        None => host.identity_file is None && host.hostname == host.name,
    }
}

proof fn lemma_route_settings(depth: nat, hops: Seq<JumpModel>, known: Seq<HostModel>)
    requires
        route::route_within(depth, hops, known) is Some,
    ensures
        forall|i: int|
            0 <= i < route::route_within(depth, hops, known).unwrap().len() ==> has_settings(
                #[trigger] route::route_within(depth, hops, known).unwrap()[i],
                known,
            ),
    decreases depth, hops.len(),
{
    if hops.len() > 0 {
        let host = chain::resolved(hops[0], known);
        chain::lemma_resolved_name(hops[0], known);
        chain::lemma_lookup(known, hops[0].host);
        assert(has_settings(host.flattened(), known));
        if let Some(value) = host.jump_value() {
            lemma_route_settings((depth - 1) as nat, hop::hops_of(value), known);
        }
        lemma_route_settings(depth, hops.drop_first(), known);
    }
}

/// Every host of a resolved chain, however deeply nested, has the address and the
/// identity file of the first known entry with its alias, and its jump value cleared;
/// one that no entry names is literally its address, without an identity file.
pub proof fn law_chain_settings(
    target: HostModel,
    known: Seq<HostModel>,
    hosts: Seq<HostModel>,
    k: int,
    i: int,
)
    requires
        chain::chain_of(target, known) == Ok::<_, ChainErrorModel>(hosts),
        0 <= k < hosts.len(),
    ensures
        hosts[k].proxy_jump is None,
        0 <= i < known.len() && known[i].name == hosts[k].name && (forall|j: int|
            0 <= j < i ==> (#[trigger] known[j]).name != hosts[k].name) ==> {
            &&& hosts[k].identity_file == known[i].identity_file
            &&& known[i].hostname.len() > 0 ==> hosts[k].hostname == known[i].hostname
            &&& known[i].hostname.len() == 0 ==> hosts[k].hostname == known[i].name
        },
        (forall|j: int| 0 <= j < known.len() ==> (#[trigger] known[j]).name != hosts[k].name) ==> {
            &&& hosts[k].identity_file is None
            &&& hosts[k].hostname == hosts[k].name
        },
{
    route::law_chain_is_the_route(target, known, hosts);
    if let Some(value) = target.jump_value() {
        let hops = hop::hops_of(value);
        lemma_route_settings(MAX_HOPS as nat, hops, known);
        assert(hosts[k] == route::route_within(MAX_HOPS as nat, hops, known).unwrap()[k]);
    }
    assert(has_settings(hosts[k], known));
    let at = chain::lemma_lookup(known, hosts[k].name);
}

/// The host of each hop of the target is on the chain with all of its settings, only
/// its jump value cleared, and directly behind the hosts that lead to it.
pub proof fn law_hops_keep_settings(
    target: HostModel,
    known: Seq<HostModel>,
    hosts: Seq<HostModel>,
    i: int,
) -> (at: int)
    requires
        chain::chain_of(target, known) == Ok::<_, ChainErrorModel>(hosts),
        target.jump_value() matches Some(value) && 0 <= i < hop::hops_of(value).len(),
    ensures
        ({
            let host = chain::resolved(hop::hops_of(target.jump_value().unwrap())[i], known);
            &&& 0 <= at < hosts.len()
            &&& hosts[at].name == host.name
            &&& hosts[at].hostname == host.hostname
            &&& hosts[at].user == host.user
            &&& hosts[at].port == host.port
            &&& hosts[at].identity_file == host.identity_file
            &&& hosts[at].proxy_jump is None
        }),
{
    route::law_chain_is_the_route(target, known, hosts);
    law_nested_hosts_come_first(
        MAX_HOPS as nat,
        hop::hops_of(target.jump_value().unwrap()),
        known,
        i,
    )
}

// ---------------------------------------------------------------------------
// How walks relate
// ---------------------------------------------------------------------------

/// The limit.
pub proof fn law_limit()
    ensures
        MAX_HOPS == 10,
{
}

/// A walk over nothing changes nothing, and neither does one that has stopped.
pub proof fn law_walk_of_nothing(
    depth: nat,
    hops: Seq<JumpModel>,
    known: Seq<HostModel>,
    from: Walk,
)
    requires
        hops.len() == 0 || from.error is Some,
    ensures
        chain::walk_within(depth, hops, known, from) == from,
        chain::walk(hops, known, from) == from,
{
}

/// A walk over two lists is a walk over the second from where that over the first ends.
pub proof fn law_walks_join(
    depth: nat,
    left: Seq<JumpModel>,
    right: Seq<JumpModel>,
    known: Seq<HostModel>,
    from: Walk,
)
    ensures
        chain::walk_within(depth, left + right, known, from) == chain::walk_within(
            depth,
            right,
            known,
            chain::walk_within(depth, left, known, from),
        ),
    decreases left.len(),
{
    if from.error is Some {
    } else if left.len() == 0 {
        assert(left + right == right);
    } else {
        let host = chain::resolved(left[0], known);
        let inner = chain::walk_below(depth, host, known, from.meet(host));
        let others = left.drop_first();
        chain::lemma_walk_step(depth, left, known, from);
        chain::lemma_walk_step(depth, left + right, known, from);
        assert((left + right)[0] == left[0]);
        assert((left + right).drop_first() == others + right);
        law_walks_join(depth, others, right, known, inner.append(host));
    }
}

/// A walk over one hop. A host recorded before, by its alias or by its endpoint, is a
/// cycle that closes at that alias. A new host is recorded by both; when it is reached
/// through others, those are walked over next, one level deeper, or there is no level
/// left; and then it is appended with all of its settings but its jump value, unless
/// the chain has ten hosts.
pub proof fn law_walk_of_one_hop(
    depth: nat,
    spec: JumpModel,
    known: Seq<HostModel>,
    from: Walk,
)
    requires
        from.error is None,
    ensures
        ({
            let host = chain::resolved(spec, known);
            let by_name = "name:"@ + spec.host;
            let by_address = "address:"@ + host.user + "@"@ + host.hostname + ":"@
                + decimal::decimal(host.port as nat);
            let end = chain::walk_within(depth, seq![spec], known, from);
            let met = Walk {
                chain: from.chain,
                visited: from.visited.insert(by_name).insert(by_address),
                error: None,
            };
            let last = HostModel {
                name: host.name,
                hostname: host.hostname,
                user: host.user,
                port: host.port,
                identity_file: host.identity_file,
                proxy_jump: None,
            };
            if from.visited.contains(by_name) || from.visited.contains(by_address) {
                &&& end.chain == from.chain
                &&& end.visited == met.visited
                &&& end.error == Some(ChainErrorModel::Cycle { name: spec.host })
            } else {
                match host.jump_value() {
                    None => {
                        &&& end.visited == met.visited
                        &&& from.chain.len() < 10 ==> end.error is None && end.chain
                            == from.chain.push(last)
                        &&& from.chain.len() >= 10 ==> end.chain == from.chain && end.error
                            == Some(ChainErrorModel::TooLong)
                    },
                    Some(value) => if depth == 0 {
                        &&& end.chain == from.chain
                        &&& end.visited == met.visited
                        &&& end.error == Some(ChainErrorModel::TooLong)
                    } else {
                        let inner = chain::walk_within(
                            (depth - 1) as nat,
                            hop::hops_of(value),
                            known,
                            met,
                        );
                        &&& end.visited == inner.visited
                        &&& inner.error is Some ==> end == inner
                        &&& inner.error is None && inner.chain.len() < 10 ==> end.error is None
                            && end.chain == inner.chain.push(last)
                        &&& inner.error is None && inner.chain.len() >= 10 ==> end.chain
                            == inner.chain && end.error == Some(ChainErrorModel::TooLong)
                    },
                }
            }
        }),
{
    let host = chain::resolved(spec, known);
    let hops = seq![spec];
    chain::lemma_resolved_name(spec, known);
    chain::lemma_walk_step(depth, hops, known, from);
    let met = from.meet(host);
    let inner = chain::walk_below(depth, host, known, met);
    let next = inner.append(host);
    assert(hops.drop_first().len() == 0);
    assert(chain::walk_within(depth, hops.drop_first(), known, next) == next);
    if met.error is Some {
        if let Some(value) = host.jump_value() {
            if depth > 0 {
                chain::lemma_walk_stopped((depth - 1) as nat, hop::hops_of(value), known, met);
            }
        }
    }
}

/// Resolution walks over the hops of the jump value, ten levels deep at most, from an
/// empty chain, with only the target recorded: by its alias, and by its endpoint, whose
/// address is the alias when it has no other.
pub proof fn law_resolution_is_a_walk(target: HostModel, known: Seq<HostModel>)
    ensures
        ({
            let address = if target.hostname.len() == 0 {
                target.name
            } else {
                target.hostname
            };
            let start = Walk {
                chain: Seq::empty(),
                visited: Set::empty().insert("name:"@ + target.name).insert(
                    "address:"@ + target.user + "@"@ + address + ":"@ + decimal::decimal(
                        target.port as nat,
                    ),
                ),
                error: None,
            };
            match target.jump_value() {
                None => chain::chain_of(target, known) == Ok::<_, ChainErrorModel>(
                    Seq::<HostModel>::empty(),
                ),
                Some(value) => {
                    let end = chain::walk_within(10, hop::hops_of(value), known, start);
                    &&& chain::walk(hop::hops_of(value), known, start) == end
                    &&& end.error is None ==> chain::chain_of(target, known) == Ok::<
                        _,
                        ChainErrorModel,
                    >(end.chain)
                    &&& end.error matches Some(error) ==> chain::chain_of(target, known) == Err::<
                        Seq<HostModel>,
                        _,
                    >(error)
                },
            }
        }),
{
}

// ---------------------------------------------------------------------------
// How resolutions relate
// ---------------------------------------------------------------------------

/// A target whose jump value is four letters that spell `none`, in any case and with
/// white space around them, is connected directly.
pub proof fn law_opting_out(
    target: HostModel,
    known: Seq<HostModel>,
    before: Seq<char>,
    word: Seq<char>,
    after: Seq<char>,
)
    requires
        forall|i: int| 0 <= i < before.len() ==> text::is_white_space(#[trigger] before[i]),
        forall|i: int| 0 <= i < after.len() ==> text::is_white_space(#[trigger] after[i]),
        target.proxy_jump == Some(before + word + after),
        word.len() == 4,
        word[0] == 'n' || word[0] == 'N',
        word[1] == 'o' || word[1] == 'O',
        word[2] == 'n' || word[2] == 'N',
        word[3] == 'e' || word[3] == 'E',
    ensures
        chain::chain_of(target, known) == Ok::<_, ChainErrorModel>(Seq::<HostModel>::empty()),
{
    assert(!text::is_white_space(word[0]));
    assert(!text::is_white_space(word.last()));
    laws_model::law_jump_value(target, before, word, after);
}

/// What a jump value that does not opt out resolves to is decided by its hops.
proof fn lemma_value_and_hops(
    target: HostModel,
    known: Seq<HostModel>,
    value: Seq<char>,
    hosts: Seq<HostModel>,
)
    requires
        target.proxy_jump == Some(value),
        !laws_model::opts_out(text::trimmed(value)),
    ensures
        ({
            let end = chain::walk(hop::hops_of(value), known, chain::walk_start(target));
            chain::chain_of(target, known) == match end.error {
                Some(error) => Err::<Seq<HostModel>, _>(error),
                None => Ok(end.chain),
            }
        }),
        chain::chain_of(target, known) == Ok::<_, ChainErrorModel>(hosts) <==> {
            &&& route::route_within(MAX_HOPS as nat, hop::hops_of(value), known) == Some(hosts)
            &&& hosts.len() <= MAX_HOPS
            &&& route::without_repeats(seq![target.addressed()] + hosts)
        },
{
    laws_model::law_jump_value_is_trimmed(target);
    let parts = laws_text::law_trimming_splits(value);
    laws_hop::law_blanks_around_a_list(parts.0, text::trimmed(value), parts.1);
    assert(hop::hops_of(value) == hop::hops_of(text::trimmed(value)));
    if text::trimmed(value).len() == 0 {
        lemma_blank_has_no_hops(text::trimmed(value));
    }
    route::law_chain_is_the_route(target, known, hosts);
}

proof fn lemma_blank_has_no_hops(s: Seq<char>)
    requires
        s.len() == 0,
    ensures
        hop::hops_of(s).len() == 0,
{
    assert(s == Seq::<char>::empty());
    laws_hop::law_one_entry(s);
    laws_hop::law_hop_parts(Seq::empty(), None, s, Seq::empty());
    assert(Seq::<char>::empty() + s + Seq::<char>::empty() == s);
    laws_hop::law_plain_address(s);
}

/// Whether two hosts have the same alias, or the same `user@hostname` and port.
pub open spec fn same(a: HostModel, b: HostModel) -> bool {
    ||| a.name == b.name
    ||| a.user + seq!['@'] + a.hostname == b.user + seq!['@'] + b.hostname && a.port == b.port
}

proof fn lemma_same(a: HostModel, b: HostModel)
    ensures
        same(a, b) == route::coincide(a, b),
{
    law_coincidence(a, b);
    assert(login(a) == a.user + seq!['@'] + a.hostname);
    assert(login(b) == b.user + seq!['@'] + b.hostname);
}

/// A list with a comma is no single word.
proof fn lemma_list_does_not_opt_out(left: Seq<char>, right: Seq<char>)
    ensures
        !laws_model::opts_out(text::trimmed(left + seq![','] + right)),
{
    let value = left + seq![','] + right;
    let parts = laws_text::law_trimming_splits(value);
    let middle = text::trimmed(value);
    let at = left.len() as int;
    let n = parts.0.len() as int;
    let whole = parts.0 + middle + parts.1;
    assert(value[at] == ',');
    assert(whole[at] == ',');
    if at < n {
        assert(text::is_white_space(parts.0[at]));
    } else if at >= n + middle.len() {
        assert(whole[at] == parts.1[at - n - middle.len()]);
        assert(text::is_white_space(parts.1[at - n - middle.len()]));
    } else {
        assert(middle[at - n] == ',');
    }
}

/// Two lists without repeats behind one target, which share no host, have none together.
proof fn lemma_lists_do_not_repeat(
    target: HostModel,
    first: HostModel,
    second: HostModel,
    a: Seq<HostModel>,
    b: Seq<HostModel>,
)
    requires
        first.name_key() == target.name_key(),
        first.address_key() == target.address_key(),
        second.name_key() == target.name_key(),
        second.address_key() == target.address_key(),
        route::without_repeats(seq![first] + a),
        route::without_repeats(seq![second] + b),
        forall|i: int, j: int|
            0 <= i < a.len() && 0 <= j < b.len() ==> !route::coincide(
                #[trigger] a[i],
                #[trigger] b[j],
            ),
    ensures
        route::without_repeats(seq![target] + (a + b)),
{
    let all = seq![target] + (a + b);
    let with_a = seq![first] + a;
    let with_b = seq![second] + b;
    let n = a.len() as int;
    assert forall|i: int, j: int| 0 <= i < j < all.len() implies !route::coincide(
        #[trigger] all[i],
        #[trigger] all[j],
    ) by {
        if j <= n {
            assert(all[j] == with_a[j]);
            assert(!route::coincide(with_a[i], with_a[j]));
            if i > 0 {
                assert(all[i] == with_a[i]);
            }
        } else {
            assert(all[j] == b[j - n - 1]);
            assert(all[j] == with_b[j - n]);
            if i == 0 {
                assert(!route::coincide(with_b[0], with_b[j - n]));
            } else if i <= n {
                assert(all[i] == a[i - 1]);
            } else {
                assert(all[i] == with_b[i - n]);
                assert(!route::coincide(with_b[i - n], with_b[j - n]));
            }
        }
    }
}

/// How a list of hops resolves, from how its parts do. What stops the first part stops
/// the list. A list that resolves gives the chain of its first part followed by that of
/// its second. When both parts resolve, share no host and have at most ten hosts
/// together, the list resolves.
#[verifier::rlimit(40)]
pub proof fn law_chain_of_a_list(
    target: HostModel,
    known: Seq<HostModel>,
    left: Seq<char>,
    right: Seq<char>,
)
    requires
        !laws_model::opts_out(text::trimmed(left)),
        !laws_model::opts_out(text::trimmed(right)),
    ensures
        ({
            let first = chain::chain_of(
                HostModel { proxy_jump: Some(left), ..target },
                known,
            );
            let second = chain::chain_of(
                HostModel { proxy_jump: Some(right), ..target },
                known,
            );
            let both = chain::chain_of(
                HostModel { proxy_jump: Some(left + seq![','] + right), ..target },
                known,
            );
            &&& first is Err ==> both == first
            &&& both matches Ok(hosts) ==> {
                &&& first is Ok
                &&& second is Ok
                &&& hosts == first->Ok_0 + second->Ok_0
            }
            &&& ({
                &&& first is Ok
                &&& second is Ok
                &&& first->Ok_0.len() + second->Ok_0.len() <= 10
                &&& forall|i: int, j: int|
                    0 <= i < first->Ok_0.len() && 0 <= j < second->Ok_0.len() ==> !same(
                        #[trigger] first->Ok_0[i],
                        #[trigger] second->Ok_0[j],
                    )
            }) ==> both is Ok
        }),
{
    let value = left + seq![','] + right;
    let to_left = HostModel { proxy_jump: Some(left), ..target };
    let to_right = HostModel { proxy_jump: Some(right), ..target };
    let to_both = HostModel { proxy_jump: Some(value), ..target };
    let depth = MAX_HOPS as nat;
    let start = chain::walk_start(target);
    assert(chain::walk_start(to_left) == start);
    assert(chain::walk_start(to_right) == start);
    assert(chain::walk_start(to_both) == start);
    lemma_list_does_not_opt_out(left, right);
    laws_hop::law_lists_join(left, right);
    let hops_left = hop::hops_of(left);
    let hops_right = hop::hops_of(right);
    law_walks_join(depth, hops_left, hops_right, known, start);
    law_routes_join(depth, hops_left, hops_right, known);
    let first = chain::chain_of(to_left, known);
    let second = chain::chain_of(to_right, known);
    let both = chain::chain_of(to_both, known);
    lemma_value_and_hops(to_left, known, left, first->Ok_0);
    lemma_value_and_hops(to_right, known, right, second->Ok_0);
    lemma_value_and_hops(to_both, known, value, both->Ok_0);
    if let Ok(hosts) = both {
        let a = route::route_within(depth, hops_left, known).unwrap();
        let b = route::route_within(depth, hops_right, known).unwrap();
        assert(hosts == a + b);
        assert(a == hosts.subrange(0, a.len() as int));
        assert(b == hosts.subrange(a.len() as int, (a.len() + b.len()) as int));
        lemma_sublist(to_both.addressed(), to_left.addressed(), hosts, a, 0);
        lemma_sublist(to_both.addressed(), to_right.addressed(), hosts, b, a.len() as int);
        lemma_value_and_hops(to_left, known, left, a);
        lemma_value_and_hops(to_right, known, right, b);
    }
    if first is Ok && second is Ok {
        let a = first->Ok_0;
        let b = second->Ok_0;
        if a.len() + b.len() <= 10 && (forall|i: int, j: int|
            0 <= i < a.len() && 0 <= j < b.len() ==> !same(#[trigger] a[i], #[trigger] b[j])) {
            assert forall|i: int, j: int|
                0 <= i < a.len() && 0 <= j < b.len() implies !route::coincide(
                #[trigger] a[i],
                #[trigger] b[j],
            ) by {
                assert(!same(a[i], b[j]));
                lemma_same(a[i], b[j]);
            }
            lemma_lists_do_not_repeat(
                to_both.addressed(),
                to_left.addressed(),
                to_right.addressed(),
                a,
                b,
            );
            lemma_value_and_hops(to_both, known, value, a + b);
        }
    }
}

/// A part of a chain without repeats has none, behind a target with the same keys.
proof fn lemma_sublist(
    target: HostModel,
    other: HostModel,
    hosts: Seq<HostModel>,
    part: Seq<HostModel>,
    at: int,
)
    requires
        route::without_repeats(seq![target] + hosts),
        other.name == target.name,
        other.user == target.user,
        other.hostname == target.hostname,
        other.port == target.port,
        0 <= at,
        at + part.len() <= hosts.len(),
        part == hosts.subrange(at, at + part.len()),
    ensures
        route::without_repeats(seq![other] + part),
{
    let all = seq![target] + hosts;
    let some = seq![other] + part;
    assert forall|i: int, j: int| 0 <= i < j < some.len() implies !route::coincide(
        #[trigger] some[i],
        #[trigger] some[j],
    ) by {
        assert(some[j] == all[at + j]);
        if i > 0 {
            assert(some[i] == all[at + i]);
            assert(!route::coincide(all[at + i], all[at + j]));
        } else {
            assert(!route::coincide(all[0], all[at + j]));
        }
    }
}

/// How one hop resolves, from how its host does: the chain through a host is the chain
/// to that host and then the host itself, with all of its settings but its jump value.
/// When the host resolves, to fewer than ten hosts, and neither it nor one of those is
/// the target, the hop resolves.
#[verifier::rlimit(40)]
pub proof fn law_chain_through_a_host(
    target: HostModel,
    known: Seq<HostModel>,
    value: Seq<char>,
    spec: JumpModel,
)
    requires
        target.proxy_jump == Some(value),
        !laws_model::opts_out(text::trimmed(value)),
        hop::hops_of(value) == seq![spec],
    ensures
        ({
            let host = chain::resolved(spec, known);
            let last = HostModel {
                name: host.name,
                hostname: host.hostname,
                user: host.user,
                port: host.port,
                identity_file: host.identity_file,
                proxy_jump: None,
            };
            let before = chain::chain_of(host, known);
            let through = chain::chain_of(target, known);
            let seed = HostModel {
                hostname: if target.hostname.len() == 0 {
                    target.name
                } else {
                    target.hostname
                },
                ..target
            };
            &&& through matches Ok(hosts) ==> {
                &&& before matches Ok(inner)
                &&& hosts == inner.push(last)
            }
            &&& same(seed, host) ==> through == Err::<Seq<HostModel>, _>(
                ChainErrorModel::Cycle { name: spec.host },
            )
            &&& ({
                &&& before is Ok
                &&& before->Ok_0.len() < 10
                &&& !same(seed, host)
                &&& forall|i: int|
                    0 <= i < before->Ok_0.len() ==> !same(seed, #[trigger] before->Ok_0[i])
            }) ==> through is Ok
        }),
{
    let depth = MAX_HOPS as nat;
    let hops = seq![spec];
    let host = chain::resolved(spec, known);
    let last = host.flattened();
    let seed = target.addressed();
    let before = chain::chain_of(host, known);
    let through = chain::chain_of(target, known);
    assert(host.addressed() == host);
    assert(hops.drop_first().len() == 0);
    assert(route::route_within(depth, hops.drop_first(), known) == Some(Seq::<HostModel>::empty()));
    lemma_same(seed, host);
    lemma_value_and_hops(target, known, value, through->Ok_0);
    if let Ok(hosts) = through {
        let inner = match host.jump_value() {
            None => Seq::<HostModel>::empty(),
            Some(nested) => {
                let below = hop::hops_of(nested);
                route::lemma_route_deeper((depth - 1) as nat, depth, below, known);
                route::route_within((depth - 1) as nat, below, known).unwrap()
            },
        };
        assert(hosts == inner.push(last) + Seq::<HostModel>::empty());
        assert(hosts == inner.push(last));
        let all = seq![seed] + hosts;
        let some = seq![host] + inner;
        let n = inner.len() as int;
        assert forall|i: int, j: int| 0 <= i < j < some.len() implies !route::coincide(
            #[trigger] some[i],
            #[trigger] some[j],
        ) by {
            assert(some[j] == all[j]);
            if i > 0 {
                assert(some[i] == all[i]);
                assert(!route::coincide(all[i], all[j]));
            } else {
                assert(all[n + 1] == last);
                assert(!route::coincide(all[j], all[n + 1]));
            }
        }
        route::law_chain_is_the_route(host, known, inner);
        assert(all[n + 1] == last);
        assert(!route::coincide(all[0], all[n + 1]));
    }
    if same(seed, host) {
        let start = chain::walk_start(target);
        chain::lemma_resolved_name(spec, known);
        law_walk_of_one_hop(depth, spec, known, start);
    }
    if let Ok(inner) = before {
        route::law_chain_is_the_route(host, known, inner);
        if inner.len() < 10 && !same(seed, host) && (forall|i: int|
            0 <= i < inner.len() ==> !same(seed, #[trigger] inner[i])) {
            if let Some(nested) = host.jump_value() {
                route::lemma_route_shallow(
                    (depth - 1) as nat,
                    depth,
                    hop::hops_of(nested),
                    known,
                    inner,
                );
            }
            let hosts = inner.push(last);
            assert(hosts + Seq::<HostModel>::empty() == hosts);
            let all = seq![seed] + hosts;
            let some = seq![host] + inner;
            let n = inner.len() as int;
            assert forall|i: int, j: int| 0 <= i < j < all.len() implies !route::coincide(
                #[trigger] all[i],
                #[trigger] all[j],
            ) by {
                if i == 0 {
                    if j == n + 1 {
                        assert(all[j] == last);
                    } else {
                        assert(all[j] == inner[j - 1]);
                        assert(!same(seed, inner[j - 1]));
                        lemma_same(seed, inner[j - 1]);
                    }
                } else {
                    assert(all[i] == some[i]);
                    if j == n + 1 {
                        assert(all[j] == last);
                        assert(!route::coincide(some[0], some[i]));
                    } else {
                        assert(all[j] == some[j]);
                        assert(!route::coincide(some[i], some[j]));
                    }
                }
            }
            lemma_value_and_hops(target, known, value, hosts);
        }
    }
}

} // verus!
