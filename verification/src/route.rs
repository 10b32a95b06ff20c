//! Routes: what a jump chain is, independently of how it is found, and the proof
//! that resolution finds exactly that.

use vstd::prelude::*;

use crate::chain;
use crate::chain::{ChainErrorModel, Walk, MAX_HOPS};
use crate::hop;
use crate::hop::JumpModel;
use crate::host::HostModel;

verus! {

// ---------------------------------------------------------------------------
// Routes
// ---------------------------------------------------------------------------

/// The route that a list of hops describes: for each hop in turn, the route of
/// its own jump value and then the host itself, flattened. There is none when
/// jumps are nested more than `depth` deep.
pub open spec fn route_within(depth: nat, hops: Seq<JumpModel>, known: Seq<HostModel>) -> Option<
    Seq<HostModel>,
>
    decreases depth, hops.len(),
{
    if hops.len() == 0 {
        Some(Seq::empty())
    } else {
        let host = chain::resolved(hops[0], known);
        let inner = match host.jump_value() {
            None => Some(Seq::empty()),
            Some(value) => if depth == 0 {
                None
            } else {
                route_within((depth - 1) as nat, hop::hops_of(value), known)
            },
        };
        match (inner, route_within(depth, hops.drop_first(), known)) {
            (Some(inner), Some(rest)) => Some(inner.push(host.flattened()) + rest),
            _ => None,
        }
    }
}

/// The route to `target`, with jumps nested at most `depth` deep.
pub open spec fn route_to(depth: nat, target: HostModel, known: Seq<HostModel>) -> Option<
    Seq<HostModel>,
> {
    match target.jump_value() {
        None => Some(Seq::empty()),
        Some(value) => route_within(depth, hop::hops_of(value), known),
    }
}

/// Whether two hosts count as one: the same alias, or the same endpoint.
pub open spec fn coincide(a: HostModel, b: HostModel) -> bool {
    a.name_key() == b.name_key() || a.address_key() == b.address_key()
}

/// Whether no two of `hosts` count as one.
pub open spec fn without_repeats(hosts: Seq<HostModel>) -> bool {
    forall|i: int, j: int|
        0 <= i < j < hosts.len() ==> !coincide(#[trigger] hosts[i], #[trigger] hosts[j])
}

/// Whether `hosts` is the chain to `target`: the route to it with jumps nested at
/// most [`MAX_HOPS`] deep, of at most [`MAX_HOPS`] hosts, which neither repeats a
/// host nor comes back to the target, whose alias is its address when it has no other.
pub open spec fn is_chain_to(
    target: HostModel,
    known: Seq<HostModel>,
    hosts: Seq<HostModel>,
) -> bool {
    &&& route_to(MAX_HOPS as nat, target, known) == Some(hosts)
    &&& hosts.len() <= MAX_HOPS
    &&& without_repeats(seq![target.addressed()] + hosts)
}

/// Whether a chain has room for `route` behind the hosts of `from`.
pub open spec fn fits(from: Walk, route: Seq<HostModel>) -> bool {
    route.len() == 0 || from.chain.len() + route.len() <= MAX_HOPS
}

/// Whether none of `hosts` has been visited.
pub open spec fn all_new(hosts: Seq<HostModel>, visited: Set<Seq<char>>) -> bool {
    forall|i: int| 0 <= i < hosts.len() ==> (#[trigger] hosts[i]).is_new(visited)
}

/// Whether `key` belongs to one of `hosts`.
pub open spec fn has_key(hosts: Seq<HostModel>, key: Seq<char>) -> bool {
    exists|i: int|
        0 <= i < hosts.len() && ((#[trigger] hosts[i]).name_key() == key || hosts[i].address_key()
            == key)
}

/// Whether `after` is `before` with the keys of `hosts`.
pub open spec fn visits(
    before: Set<Seq<char>>,
    hosts: Seq<HostModel>,
    after: Set<Seq<char>>,
) -> bool {
    forall|key: Seq<char>| #[trigger]
        after.contains(key) <==> before.contains(key) || has_key(hosts, key)
}

/// More room for nesting changes no route.
pub proof fn lemma_route_deeper(
    shallow: nat,
    deep: nat,
    hops: Seq<JumpModel>,
    known: Seq<HostModel>,
)
    requires
        shallow <= deep,
        route_within(shallow, hops, known) is Some,
    ensures
        route_within(deep, hops, known) == route_within(shallow, hops, known),
    decreases shallow, hops.len(),
{
    if hops.len() > 0 {
        let host = chain::resolved(hops[0], known);
        if let Some(value) = host.jump_value() {
            lemma_route_deeper(
                (shallow - 1) as nat,
                (deep - 1) as nat,
                hop::hops_of(value),
                known,
            );
        }
        lemma_route_deeper(shallow, deep, hops.drop_first(), known);
    }
}

/// A route of `depth` hosts has no jumps nested more than `depth` deep.
pub proof fn lemma_route_shallow(
    depth: nat,
    deep: nat,
    hops: Seq<JumpModel>,
    known: Seq<HostModel>,
    route: Seq<HostModel>,
)
    requires
        route_within(deep, hops, known) == Some(route),
        route.len() <= depth,
    ensures
        route_within(depth, hops, known) == Some(route),
    decreases deep, hops.len(),
{
    if hops.len() > 0 {
        let host = chain::resolved(hops[0], known);
        let others = hops.drop_first();
        let rest = route_within(deep, others, known).unwrap();
        if let Some(value) = host.jump_value() {
            let nested = hop::hops_of(value);
            let inner = route_within((deep - 1) as nat, nested, known).unwrap();
            assert(route.len() == inner.len() + 1 + rest.len());
            lemma_route_shallow((depth - 1) as nat, (deep - 1) as nat, nested, known, inner);
        }
        lemma_route_shallow(depth, deep, others, known, rest);
    }
}

/// Putting a route together: what is met between `before` and `after` when the
/// hosts `inner` are walked over after meeting `host`, and then the hosts `rest`.
proof fn lemma_join(
    before: Set<Seq<char>>,
    host: HostModel,
    inner: Seq<HostModel>,
    middle: Set<Seq<char>>,
    rest: Seq<HostModel>,
    after: Set<Seq<char>>,
)
    requires
        visits(host.marked(before), inner, middle),
        visits(middle, rest, after),
    ensures
        visits(before, inner.push(host.flattened()) + rest, after),
{
    let route = inner.push(host.flattened()) + rest;
    let n = inner.len() as int;
    assert(route[n] == host.flattened());
    assert(route[n].name_key() == host.name_key());
    assert(route[n].address_key() == host.address_key());
    assert forall|key: Seq<char>| #[trigger] after.contains(key) implies before.contains(key)
        || has_key(route, key) by {
        if has_key(rest, key) {
            let i = choose|i: int|
                0 <= i < rest.len() && ((#[trigger] rest[i]).name_key() == key
                    || rest[i].address_key() == key);
            assert(route[n + 1 + i] == rest[i]);
        } else {
            assert(middle.contains(key));
            if has_key(inner, key) {
                let i = choose|i: int|
                    0 <= i < inner.len() && ((#[trigger] inner[i]).name_key() == key
                        || inner[i].address_key() == key);
                assert(route[i] == inner[i]);
            }
        }
    }
    assert forall|key: Seq<char>|
        before.contains(key) || has_key(route, key) implies #[trigger] after.contains(key) by {
        if before.contains(key) {
            assert(middle.contains(key));
        } else {
            let i = choose|i: int|
                0 <= i < route.len() && ((#[trigger] route[i]).name_key() == key
                    || route[i].address_key() == key);
            if i < n {
                assert(route[i] == inner[i]);
                assert(middle.contains(key));
            } else if i == n {
                assert(middle.contains(key));
            } else {
                assert(route[i] == rest[i - n - 1]);
            }
        }
    }
}

/// A walk that is not stopped appends exactly the route of its hops: the route has
/// no repeats, none of its hosts had been met, and the chain has room for it.
pub proof fn law_walk_finds_route(
    depth: nat,
    hops: Seq<JumpModel>,
    known: Seq<HostModel>,
    from: Walk,
)
    requires
        from.error is None,
        chain::walk_within(depth, hops, known, from).error is None,
    ensures
        ({
            let end = chain::walk_within(depth, hops, known, from);
            &&& route_within(depth, hops, known) matches Some(route)
            &&& end.chain == from.chain + route
            &&& visits(from.visited, route, end.visited)
            &&& without_repeats(route)
            &&& all_new(route, from.visited)
            &&& fits(from, route)
        }),
    decreases depth, hops.len(),
{
    let end = chain::walk_within(depth, hops, known, from);
    if hops.len() == 0 {
        assert(end.chain == from.chain + Seq::<HostModel>::empty());
    } else {
        let host = chain::resolved(hops[0], known);
        let met = from.meet(host);
        let within = chain::walk_below(depth, host, known, met);
        let next = within.append(host);
        let others = hops.drop_first();
        chain::lemma_walk_step(depth, hops, known, from);
        if next.error is Some {
            chain::lemma_walk_stopped(depth, others, known, next);
        }
        let inner = match host.jump_value() {
            Some(value) => {
                let nested = hop::hops_of(value);
                if met.error is Some {
                    chain::lemma_walk_stopped((depth - 1) as nat, nested, known, met);
                }
                law_walk_finds_route((depth - 1) as nat, nested, known, met);
                route_within((depth - 1) as nat, nested, known).unwrap()
            },
            None => {
                assert(met.chain == met.chain + Seq::<HostModel>::empty());
                Seq::<HostModel>::empty()
            },
        };
        assert(met.error is None);
        assert(visits(met.visited, inner, within.visited));
        assert(within.chain == from.chain + inner);
        law_walk_finds_route(depth, others, known, next);
        let rest = route_within(depth, others, known).unwrap();
        let route = inner.push(host.flattened()) + rest;
        assert(route_within(depth, hops, known) == Some(route));
        assert(end.chain == from.chain + route);
        lemma_join(from.visited, host, inner, within.visited, rest, end.visited);
        let n = inner.len() as int;
        assert forall|i: int| 0 <= i < route.len() implies (#[trigger] route[i]).is_new(
            from.visited,
        ) by {
            if i < n {
                assert(route[i] == inner[i]);
                assert(inner[i].is_new(met.visited));
            } else if i == n {
                assert(route[i] == host.flattened());
            } else {
                assert(route[i] == rest[i - n - 1]);
                assert(rest[i - n - 1].is_new(next.visited));
            }
        }
        assert forall|i: int, j: int| 0 <= i < j < route.len() implies !coincide(
            #[trigger] route[i],
            #[trigger] route[j],
        ) by {
            assert(met.visited.contains(host.name_key()));
            assert(met.visited.contains(host.address_key()));
            if j < n {
                assert(route[i] == inner[i] && route[j] == inner[j]);
            } else if j == n {
                assert(route[i] == inner[i]);
                assert(inner[i].is_new(met.visited));
            } else {
                assert(route[j] == rest[j - n - 1]);
                assert(rest[j - n - 1].is_new(next.visited));
                if i < n {
                    assert(route[i] == inner[i]);
                    assert(has_key(inner, inner[i].name_key()));
                    assert(has_key(inner, inner[i].address_key()));
                    assert(within.visited.contains(inner[i].name_key()));
                    assert(within.visited.contains(inner[i].address_key()));
                } else if i == n {
                    assert(within.visited.contains(host.name_key()));
                    assert(within.visited.contains(host.address_key()));
                } else {
                    assert(route[i] == rest[i - n - 1]);
                }
            }
        }
    }
}

/// A walk over the hops of a route without repeats finds that route, or stops for
/// want of room; where there is room it does not stop.
proof fn lemma_walk_follows_route(
    depth: nat,
    deep: nat,
    hops: Seq<JumpModel>,
    known: Seq<HostModel>,
    from: Walk,
    route: Seq<HostModel>,
)
    requires
        from.error is None,
        route_within(deep, hops, known) == Some(route),
        without_repeats(route),
        all_new(route, from.visited),
    ensures
        ({
            let end = chain::walk_within(depth, hops, known, from);
            &&& end.error is None || end.error == Some(ChainErrorModel::TooLong)
            &&& end.error is None ==> end.chain == from.chain + route && visits(
                from.visited,
                route,
                end.visited,
            )
            &&& fits(from, route) && route_within(depth, hops, known) is Some ==> end.error is None
        }),
    decreases deep, hops.len(),
{
    let end = chain::walk_within(depth, hops, known, from);
    if hops.len() == 0 {
        assert(end.chain == from.chain + route);
    } else {
        let host = chain::resolved(hops[0], known);
        let met = from.meet(host);
        let within = chain::walk_below(depth, host, known, met);
        let next = within.append(host);
        let others = hops.drop_first();
        chain::lemma_walk_step(depth, hops, known, from);
        let inner = match host.jump_value() {
            None => Seq::<HostModel>::empty(),
            Some(value) => route_within((deep - 1) as nat, hop::hops_of(value), known).unwrap(),
        };
        let rest = route_within(deep, others, known).unwrap();
        let n = inner.len() as int;
        assert(route == inner.push(host.flattened()) + rest);
        assert(route[n] == host.flattened());
        assert(route[n].is_new(from.visited));
        assert(met.error is None);
        assert forall|i: int| 0 <= i < inner.len() implies (#[trigger] inner[i]).is_new(
            met.visited,
        ) by {
            assert(route[i] == inner[i]);
            assert(!coincide(route[i], route[n]));
            chain::lemma_keys_differ(inner[i], host);
            chain::lemma_keys_differ(host, inner[i]);
        }
        assert forall|i: int, j: int| 0 <= i < j < inner.len() implies !coincide(
            #[trigger] inner[i],
            #[trigger] inner[j],
        ) by {
            assert(route[i] == inner[i] && route[j] == inner[j]);
        }
        assert forall|i: int, j: int| 0 <= i < j < rest.len() implies !coincide(
            #[trigger] rest[i],
            #[trigger] rest[j],
        ) by {
            assert(route[n + 1 + i] == rest[i] && route[n + 1 + j] == rest[j]);
        }
        match host.jump_value() {
            Some(value) => {
                if depth > 0 {
                    lemma_walk_follows_route(
                        (depth - 1) as nat,
                        (deep - 1) as nat,
                        hop::hops_of(value),
                        known,
                        met,
                        inner,
                    );
                }
            },
            None => {
                assert(met.chain == met.chain + inner);
                assert(visits(met.visited, inner, within.visited));
            },
        }
        if next.error is Some {
            chain::lemma_walk_stopped(depth, others, known, next);
        } else {
            assert(within.chain == from.chain + inner);
            assert(visits(met.visited, inner, within.visited));
            assert forall|i: int| 0 <= i < rest.len() implies (#[trigger] rest[i]).is_new(
                next.visited,
            ) by {
                let host_at = n + 1 + i;
                assert(route[host_at] == rest[i]);
                assert(route[host_at].is_new(from.visited));
                assert(!coincide(route[n], route[host_at]));
                chain::lemma_keys_differ(rest[i], host);
                chain::lemma_keys_differ(host, rest[i]);
                assert forall|k: int| 0 <= k < inner.len() implies {
                    &&& (#[trigger] inner[k]).name_key() != rest[i].name_key()
                    &&& inner[k].address_key() != rest[i].address_key()
                    &&& inner[k].name_key() != rest[i].address_key()
                    &&& inner[k].address_key() != rest[i].name_key()
                } by {
                    assert(route[k] == inner[k]);
                    assert(!coincide(route[k], route[host_at]));
                    chain::lemma_keys_differ(rest[i], inner[k]);
                    chain::lemma_keys_differ(inner[k], rest[i]);
                }
                assert(!has_key(inner, rest[i].name_key()));
                assert(!has_key(inner, rest[i].address_key()));
            }
            lemma_walk_follows_route(depth, deep, others, known, next, rest);
            if end.error is None {
                assert(end.chain == from.chain + route);
                lemma_join(from.visited, host, inner, within.visited, rest, end.visited);
            }
        }
    }
}

/// A chain has no repeats and does not come back to the target exactly when it
/// has none after the target.
proof fn lemma_target_first(target: HostModel, hosts: Seq<HostModel>)
    ensures
        without_repeats(seq![target] + hosts) <==> without_repeats(hosts) && all_new(
            hosts,
            target.marked(Set::empty()),
        ),
{
    let all = seq![target] + hosts;
    let visited = target.marked(Set::empty());
    assert forall|i: int| 0 <= i < hosts.len() implies (#[trigger] hosts[i]).is_new(visited)
        == !coincide(target, hosts[i]) by {
        chain::lemma_keys_differ(hosts[i], target);
        chain::lemma_keys_differ(target, hosts[i]);
    }
    assert(all[0] == target);
    assert(forall|i: int| 0 <= i < hosts.len() ==> #[trigger] hosts[i] == all[i + 1]);
    if without_repeats(all) {
        assert forall|i: int, j: int| 0 <= i < j < hosts.len() implies !coincide(
            #[trigger] hosts[i],
            #[trigger] hosts[j],
        ) by {
            assert(!coincide(all[i + 1], all[j + 1]));
        }
        assert forall|i: int| 0 <= i < hosts.len() implies (#[trigger] hosts[i]).is_new(
            visited,
        ) by {
            assert(!coincide(all[0], all[i + 1]));
        }
    }
    if without_repeats(hosts) && all_new(hosts, visited) {
        assert forall|i: int, j: int| 0 <= i < j < all.len() implies !coincide(
            #[trigger] all[i],
            #[trigger] all[j],
        ) by {
            assert(all[j] == hosts[j - 1]);
            if i > 0 {
                assert(all[i] == hosts[i - 1]);
            }
        }
    }
}

// ---------------------------------------------------------------------------
// Laws
// ---------------------------------------------------------------------------

/// A walk goes on to its end exactly when its hops have a route, with jumps nested at
/// most [`MAX_HOPS`] deep, for which the chain has room, without repeats and without a
/// host met before; it then appends that route.
pub proof fn law_walk_appends_the_route(hops: Seq<JumpModel>, known: Seq<HostModel>, from: Walk)
    requires
        from.error is None,
    ensures
        ({
            let end = chain::walk(hops, known, from);
            let route = route_within(MAX_HOPS as nat, hops, known);
            &&& end.error is None <==> {
                &&& route is Some
                &&& fits(from, route.unwrap())
                &&& without_repeats(route.unwrap())
                &&& all_new(route.unwrap(), from.visited)
            }
            &&& end.error is None ==> end.chain == from.chain + route.unwrap()
        }),
{
    let depth = MAX_HOPS as nat;
    let end = chain::walk(hops, known, from);
    if end.error is None {
        law_walk_finds_route(depth, hops, known, from);
    }
    if let Some(route) = route_within(depth, hops, known) {
        if without_repeats(route) && all_new(route, from.visited) {
            lemma_walk_follows_route(depth, depth, hops, known, from, route);
        }
    }
}

/// Resolution returns a list of hosts exactly when it is the chain to the target:
/// the route to it, short enough, not too deeply nested, and without repeats.
pub proof fn law_chain_is_the_route(
    target: HostModel,
    known: Seq<HostModel>,
    hosts: Seq<HostModel>,
)
    ensures
        chain::chain_of(target, known) == Ok::<_, ChainErrorModel>(hosts) <==> is_chain_to(
            target,
            known,
            hosts,
        ),
{
    let start = chain::walk_start(target);
    lemma_target_first(target.addressed(), hosts);
    if let Some(value) = target.jump_value() {
        let hops = hop::hops_of(value);
        law_walk_appends_the_route(hops, known, start);
        if let Some(route) = route_within(MAX_HOPS as nat, hops, known) {
            assert(start.chain + route == route);
        }
    }
}

/// A walk over the hops of a route for which there is room is not stopped for want
/// of room.
proof fn lemma_walk_has_room(
    depth: nat,
    hops: Seq<JumpModel>,
    known: Seq<HostModel>,
    from: Walk,
    route: Seq<HostModel>,
)
    requires
        from.error is None,
        route_within(depth, hops, known) == Some(route),
        fits(from, route),
    ensures
        chain::walk_within(depth, hops, known, from).error != Some(ChainErrorModel::TooLong),
    decreases depth, hops.len(),
{
    if hops.len() > 0 {
        let host = chain::resolved(hops[0], known);
        let met = from.meet(host);
        let within = chain::walk_below(depth, host, known, met);
        let next = within.append(host);
        let others = hops.drop_first();
        let rest = route_within(depth, others, known).unwrap();
        chain::lemma_walk_step(depth, hops, known, from);
        let inner = match host.jump_value() {
            None => Seq::<HostModel>::empty(),
            Some(value) => route_within((depth - 1) as nat, hop::hops_of(value), known).unwrap(),
        };
        assert(route == inner.push(host.flattened()) + rest);
        if let Some(value) = host.jump_value() {
            let nested = hop::hops_of(value);
            if met.error is Some {
                chain::lemma_walk_stopped((depth - 1) as nat, nested, known, met);
            } else {
                lemma_walk_has_room((depth - 1) as nat, nested, known, met, inner);
                if within.error is None {
                    law_walk_finds_route((depth - 1) as nat, nested, known, met);
                }
            }
        }
        if within.error is None {
            assert(within.chain.len() == from.chain.len() + inner.len());
        }
        if next.error is Some {
            chain::lemma_walk_stopped(depth, others, known, next);
        } else {
            lemma_walk_has_room(depth, others, known, next, rest);
        }
    }
}

/// The errors are truthful. When there is a route to the target, however deeply
/// nested, a chain reported as too long has more than [`MAX_HOPS`] hosts, and one
/// reported as a cycle repeats a host or comes back to the target. A route without
/// repeats is never reported as a cycle, and with more than [`MAX_HOPS`] hosts it is
/// reported as too long.
pub proof fn law_errors_are_truthful(
    depth: nat,
    target: HostModel,
    known: Seq<HostModel>,
    route: Seq<HostModel>,
)
    requires
        route_to(depth, target, known) == Some(route),
    ensures
        match chain::chain_of(target, known) {
            Ok(hosts) => hosts == route,
            Err(ChainErrorModel::TooLong) => route.len() > MAX_HOPS,
            Err(ChainErrorModel::Cycle { .. }) => !without_repeats(
                seq![target.addressed()] + route,
            ),
        },
        without_repeats(seq![target.addressed()] + route) && route.len() > MAX_HOPS
            ==> chain::chain_of(target, known) == Err::<Seq<HostModel>, _>(
            ChainErrorModel::TooLong,
        ),
{
    let start = chain::walk_start(target);
    let limit = MAX_HOPS as nat;
    lemma_target_first(target.addressed(), route);
    if let Some(value) = target.jump_value() {
        let hops = hop::hops_of(value);
        let end = chain::walk(hops, known, start);
        assert(start.chain + route == route);
        if without_repeats(seq![target.addressed()] + route) {
            lemma_walk_follows_route(limit, depth, hops, known, start, route);
        }
        if route.len() <= MAX_HOPS {
            lemma_route_shallow(limit, depth, hops, known, route);
            lemma_walk_has_room(limit, hops, known, start, route);
        }
        if end.error is None {
            law_walk_finds_route(limit, hops, known, start);
            let found = route_within(limit, hops, known).unwrap();
            assert(start.chain + found == found);
            if depth <= limit {
                lemma_route_deeper(depth, limit, hops, known);
            } else {
                lemma_route_deeper(limit, depth, hops, known);
            }
        }
    }
}

/// The limit on hops bounds the expansion: a walk meets at most [`MAX_HOPS`] + 1
/// hosts, each recorded by two keys, beyond those that it appends to the chain, and
/// it appends at most as many as the chain has room for. A walk that is not stopped
/// meets only hosts that it appends.
pub proof fn law_expansion_is_bounded(hops: Seq<JumpModel>, known: Seq<HostModel>, from: Walk)
    requires
        from.error is None,
        from.visited.finite(),
    ensures
        ({
            let end = chain::walk(hops, known, from);
            let appended = end.chain.len() - from.chain.len();
            &&& 0 <= appended
            &&& appended > 0 ==> end.chain.len() <= MAX_HOPS
            &&& end.visited.len() <= from.visited.len() + 2 * (appended + MAX_HOPS + 1)
            &&& end.error is None ==> end.visited.len() <= from.visited.len() + 2 * appended
        }),
{
    lemma_walk_meets_few(MAX_HOPS as nat, hops, known, from);
}

/// How many hosts a walk meets that it does not append, by the depth to which it
/// follows jumps.
proof fn lemma_walk_meets_few(
    depth: nat,
    hops: Seq<JumpModel>,
    known: Seq<HostModel>,
    from: Walk,
)
    requires
        from.error is None,
        from.visited.finite(),
    ensures
        ({
            let end = chain::walk_within(depth, hops, known, from);
            let appended = end.chain.len() - from.chain.len();
            &&& 0 <= appended
            &&& appended > 0 ==> end.chain.len() <= MAX_HOPS
            &&& end.visited.finite()
            &&& end.visited.len() <= from.visited.len() + 2 * (appended + depth + 1)
            &&& end.error is None ==> end.visited.len() <= from.visited.len() + 2 * appended
        }),
    decreases depth, hops.len(),
{
    if hops.len() > 0 {
        let host = chain::resolved(hops[0], known);
        let met = from.meet(host);
        let within = chain::walk_below(depth, host, known, met);
        let next = within.append(host);
        let others = hops.drop_first();
        chain::lemma_walk_step(depth, hops, known, from);
        assert(met.visited.finite());
        assert(met.visited.len() <= from.visited.len() + 2);
        if let Some(value) = host.jump_value() {
            if depth > 0 {
                let nested = hop::hops_of(value);
                if met.error is Some {
                    chain::lemma_walk_stopped((depth - 1) as nat, nested, known, met);
                } else {
                    lemma_walk_meets_few((depth - 1) as nat, nested, known, met);
                }
            }
        }
        if next.error is Some {
            chain::lemma_walk_stopped(depth, others, known, next);
        } else {
            lemma_walk_meets_few(depth, others, known, next);
        }
    }
}

/// Whether the first of `hops` is reached through others, their first through others
/// again, and so on, more than `depth` deep.
pub open spec fn nested_beyond(depth: nat, hops: Seq<JumpModel>, known: Seq<HostModel>) -> bool
    decreases depth,
{
    &&& hops.len() > 0
    &&& chain::resolved(hops[0], known).jump_value() matches Some(value)
    &&& depth == 0 || nested_beyond((depth - 1) as nat, hop::hops_of(value), known)
}

/// The expansion gives up on jumps nested more than [`MAX_HOPS`] deep, however many
/// hosts are nested: it meets at most [`MAX_HOPS`] + 1 of them, each recorded by two
/// keys, and appends none.
pub proof fn law_deep_nesting_is_given_up(hops: Seq<JumpModel>, known: Seq<HostModel>, from: Walk)
    requires
        from.error is None,
        from.visited.finite(),
        nested_beyond(MAX_HOPS as nat, hops, known),
    ensures
        ({
            let end = chain::walk(hops, known, from);
            &&& end.error is Some
            &&& end.chain == from.chain
            &&& end.visited.len() <= from.visited.len() + 2 * (MAX_HOPS + 1)
        }),
{
    lemma_walk_gives_up(MAX_HOPS as nat, hops, known, from);
    law_expansion_is_bounded(hops, known, from);
}

/// A walk stops, and appends nothing, where its first hop is nested too deeply.
proof fn lemma_walk_gives_up(depth: nat, hops: Seq<JumpModel>, known: Seq<HostModel>, from: Walk)
    requires
        from.error is None,
        nested_beyond(depth, hops, known),
    ensures
        chain::walk_within(depth, hops, known, from).error is Some,
        chain::walk_within(depth, hops, known, from).chain == from.chain,
    decreases depth,
{
    let host = chain::resolved(hops[0], known);
    let met = from.meet(host);
    let within = chain::walk_below(depth, host, known, met);
    let nested = hop::hops_of(host.jump_value().unwrap());
    chain::lemma_walk_step(depth, hops, known, from);
    if depth > 0 {
        if met.error is Some {
            chain::lemma_walk_stopped((depth - 1) as nat, nested, known, met);
        } else {
            lemma_walk_gives_up((depth - 1) as nat, nested, known, met);
        }
    }
    chain::lemma_walk_stopped(depth, hops.drop_first(), known, within);
}

} // verus!
