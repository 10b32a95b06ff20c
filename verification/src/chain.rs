//! Jump chains: from the `ProxyJump` value of a host to the ordered list of hosts
//! that must be connected before it.

use vstd::hash_set::StringHashSet;
use vstd::prelude::*;

use crate::decimal;
use crate::hop;
use crate::hop::{JumpModel, JumpSpec};
use crate::host;
use crate::host::{Host, HostModel};
use crate::route;

verus! {

/// Upper bound on hops in a resolved chain. Longer chains are almost certainly
/// a configuration mistake; the limit also bounds the expansion recursion.
pub const MAX_HOPS: usize = 10;

/// Why a jump chain cannot be resolved.
#[derive(Debug, PartialEq, Eq)]
pub enum ChainError {
    /// The chain comes back to a host it already contains, or to its target.
    Cycle {
        /// The alias at which the chain closes.
        name: String,
    },
    /// The chain has more than [`MAX_HOPS`] hops, or jumps nested more deeply.
    TooLong,
}

/// What a [`ChainError`] stands for.
pub enum ChainErrorModel {
    Cycle { name: Seq<char> },
    TooLong,
}

impl View for ChainError {
    type V = ChainErrorModel;

    open spec fn view(&self) -> ChainErrorModel {
        match self {
            ChainError::Cycle { name } => ChainErrorModel::Cycle { name: name@ },
            ChainError::TooLong => ChainErrorModel::TooLong,
        }
    }
}

impl ChainErrorModel {
    /// The message shown to the user.
    pub open spec fn message(self) -> Seq<char> {
        match self {
            ChainErrorModel::Cycle { name } => "ProxyJump cycle detected at '"@ + name + "'"@,
            ChainErrorModel::TooLong => "ProxyJump chain longer than "@ + decimal::decimal(
                MAX_HOPS as nat,
            ) + " hops"@,
        }
    }
}

impl ChainError {
    /// The message shown to the user.
    pub fn to_string(&self) -> (res: String)
        ensures
            res@ == self@.message(),
    {
        match self {
            ChainError::Cycle { name } => {
                let mut res = "ProxyJump cycle detected at '".to_owned();
                res.append(name.as_str());
                res.append("'");
                res
            },
            ChainError::TooLong => {
                let mut res = "ProxyJump chain longer than ".to_owned();
                decimal::append_decimal(&mut res, MAX_HOPS);
                res.append(" hops");
                res
            },
        }
    }
}

// ---------------------------------------------------------------------------
// One hop
// ---------------------------------------------------------------------------

/// The first known entry with the alias `name`.
pub open spec fn lookup(known: Seq<HostModel>, name: Seq<char>) -> Option<HostModel>
    decreases known.len(),
{
    if known.len() == 0 {
        None
    } else if known[0].name == name {
        Some(known[0])
    } else {
        lookup(known.drop_first(), name)
    }
}

/// The host that a hop denotes: the known entry it names, or else the host of
/// that address with default settings. A user or a port in the hop overrides
/// the entry's, and an entry without an address is reached by its alias.
pub open spec fn resolved(spec: JumpModel, known: Seq<HostModel>) -> HostModel {
    let entry = match lookup(known, spec.host) {
        Some(entry) => entry,
        None => HostModel { name: spec.host, hostname: spec.host, ..HostModel::unset() },
    };
    HostModel {
        user: match spec.user {
            Some(user) => user,
            None => entry.user,
        },
        port: match spec.port {
            Some(port) => port,
            None => entry.port,
        },
        ..entry
    }.addressed()
}

/// The first known entry with the alias `name`.
fn find_known<'a>(known: &'a [Host], name: &String) -> (res: Option<&'a Host>)
    ensures
        match res {
            Some(entry) => lookup(host::models(known@), name@) == Some(entry@),
            None => lookup(host::models(known@), name@) is None,
        },
{
    let ghost entries = host::models(known@);
    let mut i: usize = 0;
    assert(entries.skip(0) == entries);
    while i < known.len()
        invariant
            entries == host::models(known@),
            i <= known.len(),
            lookup(entries, name@) == lookup(entries.skip(i as int), name@),
        decreases known.len() - i,
    {
        assert(entries.skip(i as int)[0] == known[i as int]@);
        if known[i].name == *name {
            return Some(&known[i]);
        }
        assert(entries.skip(i as int).drop_first() == entries.skip(i + 1));
        i = i + 1;
    }
    None
}

/// Turns one parsed hop into a connectable [`Host`].
///
/// A hop naming a known entry inherits all of its connection settings; anything
/// else becomes a bare host with default user and port. An explicit `user@` or
/// `:port` in the spec always wins over the inherited value.
pub fn resolve_hop(spec: &JumpSpec, known: &[Host]) -> (res: Host)
    ensures
        res@ == resolved(spec@, host::models(known@)),
{
    let mut res = match find_known(known, &spec.host) {
        Some(entry) => entry.clone(),
        None => Host { name: spec.host.clone(), hostname: spec.host.clone(), ..Host::default() },
    };
    if let Some(user) = &spec.user {
        res.user = user.clone();
    }
    if let Some(port) = spec.port {
        res.port = port;
    }
    // A known entry may omit its address; the alias is then the address.
    host::with_address(res)
}

// ---------------------------------------------------------------------------
// Visited hosts
// ---------------------------------------------------------------------------

impl HostModel {
    /// The key under which a host is remembered by its alias.
    pub open spec fn name_key(self) -> Seq<char> {
        "name:"@ + self.name
    }

    /// The key under which a host is remembered by its endpoint.
    pub open spec fn address_key(self) -> Seq<char> {
        "address:"@ + self.user + "@"@ + self.hostname + ":"@ + decimal::decimal(self.port as nat)
    }

    /// Whether neither the alias nor the endpoint of the host is in `visited`.
    pub open spec fn is_new(self, visited: Set<Seq<char>>) -> bool {
        !visited.contains(self.name_key()) && !visited.contains(self.address_key())
    }

    /// `visited` with the alias and the endpoint of the host.
    pub open spec fn marked(self, visited: Set<Seq<char>>) -> Set<Seq<char>> {
        visited.insert(self.name_key()).insert(self.address_key())
    }
}

/// No alias is remembered under the key of an endpoint.
pub proof fn lemma_keys_differ(a: HostModel, b: HostModel)
    ensures
        a.name_key() != b.address_key(),
{
    reveal_strlit("name:");
    reveal_strlit("address:");
    assert(a.name_key()[0] == 'n');
    assert(b.address_key()[0] == 'a');
}

/// Records `host` as part of the chain being built, returning `false` when it
/// was already there: a cycle.
///
/// A hop counts as seen both by alias and by endpoint, so a loop is caught
/// whether it comes back under the same name or under a second alias for the
/// same machine.
pub fn mark_visited(host: &Host, visited: &mut StringHashSet) -> (res: bool)
    ensures
        res == host@.is_new(old(visited)@),
        final(visited)@ == host@.marked(old(visited)@),
{
    let mut name_key = "name:".to_owned();
    name_key.append(host.name.as_str());
    let mut address_key = "address:".to_owned();
    address_key.append(host.user.as_str());
    address_key.append("@");
    address_key.append(host.hostname.as_str());
    address_key.append(":");
    decimal::append_decimal(&mut address_key, host.port as usize);
    proof {
        lemma_keys_differ(host@, host@);
    }
    let by_name = visited.insert(name_key);
    let by_address = visited.insert(address_key);
    by_name && by_address
}

// ---------------------------------------------------------------------------
// The walk over all hops
// ---------------------------------------------------------------------------

/// How far the expansion of a jump value has come.
pub struct Walk {
    /// The hosts found so far, in connection order.
    pub chain: Seq<HostModel>,
    /// The keys of every host met so far, the target included.
    pub visited: Set<Seq<char>>,
    /// What stopped the walk, if anything did.
    pub error: Option<ChainErrorModel>,
}

impl Walk {
    /// Meets `host`: the walk stops at a host that it has met before.
    pub open spec fn meet(self, host: HostModel) -> Walk {
        Walk {
            chain: self.chain,
            visited: host.marked(self.visited),
            error: if host.is_new(self.visited) {
                None
            } else {
                Some(ChainErrorModel::Cycle { name: host.name })
            },
        }
    }

    /// Stops for want of room, unless the walk has stopped already.
    pub open spec fn run_out(self) -> Walk {
        if self.error is Some {
            self
        } else {
            Walk { error: Some(ChainErrorModel::TooLong), ..self }
        }
    }

    /// Appends `host`, flattened, unless the walk has stopped: it stops when the
    /// chain is full.
    pub open spec fn append(self, host: HostModel) -> Walk {
        if self.error is Some {
            self
        } else if self.chain.len() >= MAX_HOPS {
            self.run_out()
        } else {
            Walk { chain: self.chain.push(host.flattened()), ..self }
        }
    }
}

/// The walk over `hops`, depth first: a host that is itself reached through
/// others is met, then those are walked over, and then the host is appended.
///
/// Jumps are followed at most `depth` deep: the walk stops at a host that is
/// nested that deeply and is reached through yet another.
pub open spec fn walk_within(
    depth: nat,
    hops: Seq<JumpModel>,
    known: Seq<HostModel>,
    from: Walk,
) -> Walk
    decreases depth, hops.len(),
{
    if from.error is Some || hops.len() == 0 {
        from
    } else {
        let host = resolved(hops[0], known);
        let met = from.meet(host);
        let inner = match host.jump_value() {
            Some(value) => if depth > 0 {
                walk_within((depth - 1) as nat, hop::hops_of(value), known, met)
            } else {
                met.run_out()
            },
            None => met,
        };
        walk_within(depth, hops.drop_first(), known, inner.append(host))
    }
}

/// The walk over the jump value of `host`, if it has one, which stands `depth`
/// above the deepest jump that is followed.
pub open spec fn walk_below(
    depth: nat,
    host: HostModel,
    known: Seq<HostModel>,
    from: Walk,
) -> Walk {
    match host.jump_value() {
        Some(value) => if depth > 0 {
            walk_within((depth - 1) as nat, hop::hops_of(value), known, from)
        } else {
            from.run_out()
        },
        None => from,
    }
}

/// The walk over `hops`, with jumps followed at most [`MAX_HOPS`] deep.
pub open spec fn walk(hops: Seq<JumpModel>, known: Seq<HostModel>, from: Walk) -> Walk {
    walk_within(MAX_HOPS as nat, hops, known, from)
}

/// The walk to `target` before its first step: only the target has been met.
pub open spec fn walk_start(target: HostModel) -> Walk {
    Walk {
        chain: Seq::empty(),
        visited: target.addressed().marked(Set::empty()),
        error: None,
    }
}

/// The chain through which `target` is reached, or why there is none.
pub open spec fn chain_of(target: HostModel, known: Seq<HostModel>) -> Result<
    Seq<HostModel>,
    ChainErrorModel,
> {
    match target.jump_value() {
        None => Ok(Seq::empty()),
        Some(value) => {
            let end = walk(hop::hops_of(value), known, walk_start(target));
            match end.error {
                Some(error) => Err(error),
                None => Ok(end.chain),
            }
        },
    }
}

/// What `lookup` finds is an entry with the alias it looks for.
pub proof fn lemma_lookup(known: Seq<HostModel>, name: Seq<char>) -> (i: int)
    ensures
        lookup(known, name) matches Some(entry) ==> {
            &&& 0 <= i < known.len()
            &&& known[i] == entry
            &&& entry.name == name
            &&& forall|j: int| 0 <= j < i ==> (#[trigger] known[j]).name != name
        },
        lookup(known, name) is None ==> forall|j: int|
            0 <= j < known.len() ==> (#[trigger] known[j]).name != name,
    decreases known.len(),
{
    if known.len() == 0 {
        0
    } else if known[0].name == name {
        0
    } else {
        let rest = known.drop_first();
        let i = lemma_lookup(rest, name);
        assert(forall|j: int| 0 < j < known.len() ==> (#[trigger] known[j]) == rest[j - 1]);
        i + 1
    }
}

/// A resolved hop keeps the alias it was looked up by.
pub proof fn lemma_resolved_name(spec: JumpModel, known: Seq<HostModel>)
    ensures
        resolved(spec, known).name == spec.host,
{
    lemma_lookup(known, spec.host);
}

/// One step of a walk: the first hop is met, then what it jumps through is walked
/// over, then it is appended, and the walk goes on over the other hops.
pub proof fn lemma_walk_step(depth: nat, hops: Seq<JumpModel>, known: Seq<HostModel>, from: Walk)
    requires
        hops.len() > 0,
        from.error is None,
    ensures
        ({
            let host = resolved(hops[0], known);
            let inner = walk_below(depth, host, known, from.meet(host));
            walk_within(depth, hops, known, from) == walk_within(
                depth,
                hops.drop_first(),
                known,
                inner.append(host),
            )
        }),
{
}

/// A walk that has stopped goes no further.
pub proof fn lemma_walk_stopped(
    depth: nat,
    hops: Seq<JumpModel>,
    known: Seq<HostModel>,
    from: Walk,
)
    requires
        from.error is Some,
    ensures
        walk_within(depth, hops, known, from) == from,
{
}

// ---------------------------------------------------------------------------
// Resolution
// ---------------------------------------------------------------------------

/// The walk that a chain, a set of keys and an outcome amount to.
pub open spec fn walk_at(
    chain: Seq<Host>,
    visited: Set<Seq<char>>,
    outcome: Result<(), ChainError>,
) -> Walk {
    Walk {
        chain: host::models(chain),
        visited,
        error: match outcome {
            Ok(()) => None,
            Err(error) => Some(error@),
        },
    }
}

/// Appends the hops of `spec` to `chain`, depth-first: a hop that jumps through
/// another host contributes that host first.
pub fn expand(
    spec: &str,
    known: &[Host],
    chain: &mut Vec<Host>,
    visited: &mut StringHashSet,
) -> (res: Result<(), ChainError>)
    ensures
        walk_at(final(chain)@, final(visited)@, res) == walk(
            hop::hops_of(spec@),
            host::models(known@),
            walk_at(old(chain)@, old(visited)@, Ok(())),
        ),
{
    expand_within(MAX_HOPS, spec, known, chain, visited)
}

/// Expands `spec`, following jumps at most `depth` deep.
fn expand_within(
    depth: usize,
    spec: &str,
    known: &[Host],
    chain: &mut Vec<Host>,
    visited: &mut StringHashSet,
) -> (res: Result<(), ChainError>)
    ensures
        walk_at(final(chain)@, final(visited)@, res) == walk_within(
            depth as nat,
            hop::hops_of(spec@),
            host::models(known@),
            walk_at(old(chain)@, old(visited)@, Ok(())),
        ),
    decreases depth,
{
    let ghost entries = host::models(known@);
    let ghost all = hop::hops_of(spec@);
    let ghost goal = walk_within(
        depth as nat,
        all,
        entries,
        walk_at(old(chain)@, old(visited)@, Ok(())),
    );
    let hops = hop::parse_jump_spec(spec);
    let mut i: usize = 0;
    assert(all.skip(0) == all);
    while i < hops.len()
        invariant
            entries == host::models(known@),
            all == hop::hops_of(spec@),
            goal == walk_within(
                depth as nat,
                all,
                entries,
                walk_at(old(chain)@, old(visited)@, Ok(())),
            ),
            hop::jump_models(hops@) == all,
            i <= hops.len(),
            walk_within(
                depth as nat,
                all.skip(i as int),
                entries,
                walk_at(chain@, visited@, Ok(())),
            ) == goal,
        decreases hops.len() - i,
    {
        let ghost rest = all.skip(i as int);
        let ghost from = walk_at(chain@, visited@, Ok(()));
        let mut bastion = resolve_hop(&hops[i], known);
        let ghost model = bastion@;
        let ghost inner = walk_below(depth as nat, model, entries, from.meet(model));
        proof {
            assert(rest[0] == hops[i as int]@);
            assert(rest.drop_first() == all.skip(i + 1));
            lemma_walk_step(depth as nat, rest, entries, from);
            if inner.append(model).error is Some {
                lemma_walk_stopped(depth as nat, all.skip(i + 1), entries, inner.append(model));
            }
        }
        if !mark_visited(&bastion, visited) {
            return Err(ChainError::Cycle { name: bastion.name });
        }
        assert(walk_at(chain@, visited@, Ok(())) == from.meet(model));
        // A bastion reached through another bastion: connect the inner one first.
        if let Some(nested) = host::jump_value(&bastion) {
            if depth == 0 {
                return Err(ChainError::TooLong);
            }
            match expand_within(depth - 1, nested, known, chain, visited) {
                Ok(()) => {},
                Err(error) => return Err(error),
            }
        }
        assert(walk_at(chain@, visited@, Ok(())) == inner);
        if chain.len() >= MAX_HOPS {
            return Err(ChainError::TooLong);
        }
        bastion.proxy_jump = None;
        let ghost before = chain@;
        chain.push(bastion);
        assert(host::models(chain@) == host::models(before).push(model.flattened()));
        i = i + 1;
    }
    Ok(())
}

/// Resolves the full jump chain for `target` against the `known` host list.
///
/// The returned hosts are in connection order: the first entry is reached
/// directly from this machine, each subsequent one through its predecessor, and
/// `target` itself through the last. An empty vector means "connect directly":
/// no `ProxyJump`, or the OpenSSH `ProxyJump none` opt-out.
///
/// Every returned host has its own `proxy_jump` cleared: the chain is already
/// flattened, so a caller connecting hop by hop must not expand it again.
///
/// # Errors
/// Returns an error when the chain references itself (a cycle) or exceeds
/// [`MAX_HOPS`] hops; both would otherwise loop forever at connect time.
pub fn resolve_chain(target: &Host, known: &[Host]) -> (res: Result<Vec<Host>, ChainError>)
    ensures
        match res {
            Ok(chain) => chain_of(target@, host::models(known@)) == Ok::<_, ChainErrorModel>(
                host::models(chain@),
            ),
            Err(error) => chain_of(target@, host::models(known@)) == Err::<Seq<HostModel>, _>(
                error@,
            ),
        },
        match res {
            Ok(chain) => route::is_chain_to(target@, host::models(known@), host::models(chain@)),
            Err(_) => forall|hosts: Seq<HostModel>|
                !#[trigger] route::is_chain_to(target@, host::models(known@), hosts),
        },
{
    proof {
        assert forall|hosts: Seq<HostModel>| #[trigger]
            route::is_chain_to(target@, host::models(known@), hosts) <==> chain_of(
                target@,
                host::models(known@),
            ) == Ok::<_, ChainErrorModel>(hosts) by {
            route::law_chain_is_the_route(target@, host::models(known@), hosts);
        }
    }
    let mut chain: Vec<Host> = Vec::new();
    assert(host::models(chain@) == Seq::<HostModel>::empty());
    let spec = match host::jump_value(target) {
        Some(spec) => spec,
        None => return Ok(chain),
    };
    let mut visited = StringHashSet::new();
    // Seed with the target so `A -> B -> A` is caught as the cycle it is.
    let seed = host::with_address(target.clone());
    mark_visited(&seed, &mut visited);
    match expand(spec, known, &mut chain, &mut visited) {
        Ok(()) => Ok(chain),
        Err(error) => Err(error),
    }
}

} // verus!
