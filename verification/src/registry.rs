//! Which server services which shard.

use std::collections::HashMap;

use vstd::prelude::*;

use crate::bytes::same_text;
use crate::message::{law_numbers_tell_protocols, number_of, Protocol};

verus! {

broadcast use vstd::std_specs::hash::group_hash_axioms;

/// A share of the requests of a protocol.
pub type ShardId = u32;

/// A registered server: the identity of its socket, and when it was last heard of, in milliseconds
/// of the clock that the caller reads.
pub struct ServerReg {
    pub endpoint: String,
    pub renewed_at: u64,
}

/// The mathematical reading of a [`ServerReg`].
pub struct ServerRegView {
    pub endpoint: Seq<char>,
    pub renewed_at: u64,
}

impl View for ServerReg {
    type V = ServerRegView;

    open spec fn view(&self) -> ServerRegView {
        ServerRegView { endpoint: self.endpoint@, renewed_at: self.renewed_at }
    }
}

impl ServerReg {
    pub fn new(endpoint: String, now: u64) -> (r: ServerReg)
        ensures
            r@ == (ServerRegView { endpoint: endpoint@, renewed_at: now }),
    {
        ServerReg { endpoint, renewed_at: now }
    }

    pub fn renew(&mut self, now: u64)
        ensures
            final(self)@ == (ServerRegView { renewed_at: now, ..old(self)@ }),
    {
        self.renewed_at = now;
    }
}

impl Clone for ServerReg {
    fn clone(&self) -> (r: ServerReg)
        ensures
            r@ == self@,
    {
        ServerReg { endpoint: self.endpoint.clone(), renewed_at: self.renewed_at }
    }
}

/// The registered server of each shard of each protocol.
pub type Registry = Map<(Protocol, ShardId), ServerRegView>;

/// The registered servers, by protocol and shard.
pub struct ServerMap {
    servers: HashMap<i32, HashMap<ShardId, ServerReg>>,
}

spec fn registry_view(servers: Map<i32, HashMap<ShardId, ServerReg>>) -> Registry {
    Map::new(
        |k: (Protocol, ShardId)|
            servers.contains_key(number_of(k.0)) && servers[number_of(k.0)]@.contains_key(k.1),
        |k: (Protocol, ShardId)| servers[number_of(k.0)]@[k.1]@,
    )
}

impl View for ServerMap {
    type V = Registry;

    closed spec fn view(&self) -> Registry {
        registry_view(self.servers@)
    }
}

/// The shard of the protocol is registered, and to another endpoint.
pub open spec fn taken(
    registry: Registry,
    protocol: Protocol,
    endpoint: Seq<char>,
    shard: ShardId,
) -> bool {
    registry.contains_key((protocol, shard)) && registry[(protocol, shard)].endpoint != endpoint
}

/// One of the shards of the protocol is registered to another endpoint.
pub open spec fn conflicts(
    registry: Registry,
    protocol: Protocol,
    endpoint: Seq<char>,
    shards: Seq<ShardId>,
) -> bool {
    exists|i: int|
        0 <= i < shards.len() && taken(registry, protocol, endpoint, #[trigger] shards[i])
}

/// The registry with all of the shards registered to `reg`.
pub open spec fn added(
    registry: Registry,
    protocol: Protocol,
    shards: Seq<ShardId>,
    reg: ServerRegView,
) -> Registry {
    Map::new(
        |k: (Protocol, ShardId)|
            registry.contains_key(k) || k.0 == protocol && shards.contains(k.1),
        |k: (Protocol, ShardId)|
            if k.0 == protocol && shards.contains(k.1) {
                reg
            } else {
                registry[k]
            },
    )
}

/// The registry without what the endpoint has of the protocol.
pub open spec fn dropped(registry: Registry, protocol: Protocol, endpoint: Seq<char>) -> Registry {
    Map::new(
        |k: (Protocol, ShardId)|
            registry.contains_key(k) && !(k.0 == protocol && registry[k].endpoint == endpoint),
        |k: (Protocol, ShardId)| registry[k],
    )
}

/// The registry with every registration of the endpoint renewed.
pub open spec fn renewed(registry: Registry, endpoint: Seq<char>, now: u64) -> Registry {
    Map::new(
        |k: (Protocol, ShardId)| registry.contains_key(k),
        |k: (Protocol, ShardId)|
            if registry[k].endpoint == endpoint {
                ServerRegView { renewed_at: now, ..registry[k] }
            } else {
                registry[k]
            },
    )
}

/// The shards that are registered to an endpoint.
fn owned(shards: &HashMap<ShardId, ServerReg>, endpoint: &str) -> (r: Vec<ShardId>)
    ensures
        forall|k: ShardId| #[trigger]
            r@.contains(k) <==> shards@.contains_key(k) && shards@[k]@.endpoint == endpoint@,
{
    let mut r: Vec<ShardId> = Vec::new();
    for entry in it: shards.iter()
        invariant
            forall|j: int| #![trigger r@[j]]
                0 <= j < r@.len() ==> shards@.contains_key(r@[j]) && shards@[r@[j]]@.endpoint
                    == endpoint@,
            forall|j: int| #![trigger it.seq()[j]]
                0 <= j < it.index() && shards@[*it.seq()[j].0]@.endpoint == endpoint@
                    ==> r@.contains(*it.seq()[j].0),
    {
        let ghost before = r@;
        if same_text(entry.1.endpoint.as_str(), endpoint) {
            r.push(*entry.0);
            assert(r@[r@.len() - 1] == *entry.0);
        }
        assert forall|k: ShardId| before.contains(k) implies #[trigger] r@.contains(k) by {
            let j = choose|j: int| 0 <= j < before.len() && before[j] == k;
            assert(r@[j] == k);
        }
    }
    r
}

/// The protocols that have an entry.
fn protocols(servers: &HashMap<i32, HashMap<ShardId, ServerReg>>) -> (r: Vec<i32>)
    ensures
        forall|p: i32| #[trigger] r@.contains(p) <==> servers@.contains_key(p),
{
    let mut r: Vec<i32> = Vec::new();
    for entry in it: servers.iter()
        invariant
            forall|j: int| 0 <= j < r@.len() ==> servers@.contains_key(#[trigger] r@[j]),
            forall|j: int| #![trigger it.seq()[j]]
                0 <= j < it.index() ==> r@.contains(*it.seq()[j].0),
    {
        let ghost before = r@;
        r.push(*entry.0);
        assert(r@[r@.len() - 1] == *entry.0);
        assert forall|p: i32| before.contains(p) implies #[trigger] r@.contains(p) by {
            let j = choose|j: int| 0 <= j < before.len() && before[j] == p;
            assert(r@[j] == p);
        }
    }
    r
}

impl ServerMap {
    /// No server is registered.
    pub fn new() -> (r: ServerMap)
        ensures
            r@ == Map::<(Protocol, ShardId), ServerRegView>::empty(),
    {
        let r = ServerMap { servers: HashMap::new() };
        assert(r@ =~= Map::<(Protocol, ShardId), ServerRegView>::empty());
        r
    }

    /// Registers a server for shards of a protocol, unless one of them is registered to another
    /// endpoint: then nothing changes.
    pub fn add(&mut self, protocol: Protocol, netid: String, shards: Vec<ShardId>, now: u64) -> (r:
        bool)
        ensures
            r == !conflicts(old(self)@, protocol, netid@, shards@),
            r ==> final(self)@ == added(
                old(self)@,
                protocol,
                shards@,
                ServerRegView { endpoint: netid@, renewed_at: now },
            ),
            !r ==> final(self)@ == old(self)@,
    {
        let ghost before = self.servers@;
        let ghost p = number_of(protocol);
        let mut registrations = match self.servers.remove(&protocol.number()) {
            Some(registrations) => registrations,
            None => HashMap::new(),
        };
        let ghost own = registrations@;
        let mut i: usize = 0;
        while i < shards.len()
            invariant
                i <= shards@.len(),
                p == number_of(protocol),
                registrations@ == own,
                self.servers@ == before.remove(p),
                forall|s: ShardId| #[trigger] own.contains_key(s) <==> registered(before, p, s),
                forall|s: ShardId| #[trigger]
                    own.contains_key(s) ==> own[s] == before[p]@[s],
                old(self)@ == registry_view(before),
                forall|j: int| 0 <= j < i ==> !taken(
                    old(self)@,
                    protocol,
                    netid@,
                    #[trigger] shards@[j],
                ),
            decreases shards@.len() - i,
        {
            let clash = match registrations.get(&shards[i]) {
                Some(reg) => !same_text(reg.endpoint.as_str(), netid.as_str()),
                None => false,
            };
            if clash {
                self.servers.insert(protocol.number(), registrations);
                proof {
                    assert(taken(old(self)@, protocol, netid@, shards@[i as int]));
                    lemma_put_back(before, self.servers@, p, own);
                }
                return false;
            }
            assert(own.contains_key(shards@[i as int]) <==> registered(
                before,
                p,
                shards@[i as int],
            ));
            i += 1;
        }
        let registration = ServerReg::new(netid, now);
        let ghost reg = registration@;
        i = 0;
        while i < shards.len()
            invariant
                i <= shards@.len(),
                registration@ == reg,
                self.servers@ == before.remove(p),
                forall|s: ShardId| #[trigger]
                    registrations@.contains_key(s) <==> own.contains_key(s) || shards@.take(
                        i as int,
                    ).contains(s),
                forall|s: ShardId| #[trigger]
                    registrations@.contains_key(s) ==> registrations@[s]@ == if shards@.take(
                        i as int,
                    ).contains(s) {
                        reg
                    } else {
                        own[s]@
                    },
            decreases shards@.len() - i,
        {
            registrations.insert(shards[i], registration.clone());
            proof {
                lemma_take_more(shards@, i as int);
            }
            i += 1;
        }
        self.servers.insert(protocol.number(), registrations);
        proof {
            assert(shards@.take(i as int) =~= shards@);
            assert(self@ =~= added(old(self)@, protocol, shards@, reg)) by {
                assert forall|k: (Protocol, ShardId)|
                    #[trigger] self@.contains_key(k) <==> added(
                        old(self)@,
                        protocol,
                        shards@,
                        reg,
                    ).contains_key(k) by {
                    if number_of(k.0) == p {
                        law_numbers_tell_protocols(k.0);
                        law_numbers_tell_protocols(protocol);
                        assert(k.0 == protocol);
                        assert(own.contains_key(k.1) <==> registered(before, p, k.1));
                    }
                }
                assert forall|k: (Protocol, ShardId)| #[trigger]
                    self@.contains_key(k) implies self@[k] == added(
                    old(self)@,
                    protocol,
                    shards@,
                    reg,
                )[k] by {
                    if number_of(k.0) == p {
                        law_numbers_tell_protocols(k.0);
                        law_numbers_tell_protocols(protocol);
                        assert(k.0 == protocol);
                        assert(own.contains_key(k.1) <==> registered(before, p, k.1));
                    }
                }
            }
        }
        true
    }

    /// Takes away from an endpoint what it has of a protocol.
    pub fn drop(&mut self, protocol: &Protocol, netid: &str)
        ensures
            final(self)@ == dropped(old(self)@, *protocol, netid@),
    {
        let ghost before = self.servers@;
        let ghost p = number_of(*protocol);
        let mut map = match self.servers.remove(&protocol.number()) {
            Some(map) => map,
            None => {
                assert(self@ =~= dropped(old(self)@, *protocol, netid@));
                return;
            },
        };
        let ghost own = map@;
        let gone = owned(&map, netid);
        let mut i: usize = 0;
        while i < gone.len()
            invariant
                i <= gone@.len(),
                self.servers@ == before.remove(p),
                forall|s: ShardId| #[trigger]
                    map@.contains_key(s) <==> own.contains_key(s) && !gone@.take(
                        i as int,
                    ).contains(s),
                forall|s: ShardId| #[trigger] map@.contains_key(s) ==> map@[s] == own[s],
            decreases gone@.len() - i,
        {
            map.remove(&gone[i]);
            proof {
                lemma_take_more(gone@, i as int);
            }
            i += 1;
        }
        self.servers.insert(protocol.number(), map);
        proof {
            assert(gone@.take(i as int) =~= gone@);
            let after = self.servers@;
            assert forall|k: (Protocol, ShardId)| #[trigger]
                registry_view(after).contains_key(k) <==> dropped(
                    old(self)@,
                    *protocol,
                    netid@,
                ).contains_key(k) by {
                if number_of(k.0) == p {
                    law_numbers_tell_protocols(k.0);
                    law_numbers_tell_protocols(*protocol);
                    assert(k.0 == *protocol);
                    assert(map@.contains_key(k.1) <==> own.contains_key(k.1) && !gone@.contains(
                        k.1,
                    ));
                }
            }
            assert(self@ =~= dropped(old(self)@, *protocol, netid@));
        }
    }

    /// The server of a shard of a protocol.
    pub fn get(&self, protocol: &Protocol, shard: &ShardId) -> (r: Option<&ServerReg>)
        ensures
            match r {
                Some(reg) => self@.contains_key((*protocol, *shard)) && self@[(*protocol, *shard)]
                    == reg@,
                None => !self@.contains_key((*protocol, *shard)),
            },
    {
        match self.servers.get(&protocol.number()) {
            Some(shards) => shards.get(shard),
            None => None,
        }
    }

    /// Renews every registration of an endpoint, whatever the protocol.
    pub fn renew(&mut self, netid: &str, now: u64)
        ensures
            final(self)@ == renewed(old(self)@, netid@, now),
    {
        let ghost before = self@;
        let ghost target = renewed(before, netid@, now);
        let ghost start = self.servers@;
        let all = protocols(&self.servers);
        let mut i: usize = 0;
        while i < all.len()
            invariant
                i <= all@.len(),
                before == old(self)@,
                target == renewed(before, netid@, now),
                forall|p: i32| #[trigger] all@.contains(p) <==> start.contains_key(p),
                self.servers@.dom() == start.dom(),
                before == registry_view(start),
                self@.dom() == before.dom(),
                forall|k: (Protocol, ShardId)| #[trigger]
                    self@.contains_key(k) ==> self@[k] == if all@.take(i as int).contains(
                        number_of(k.0),
                    ) {
                        target[k]
                    } else {
                        before[k]
                    },
            decreases all@.len() - i,
        {
            let p = all[i];
            let ghost held = self@;
            let ghost held_servers = self.servers@;
            assert(all@.contains(p));
            let mut map = match self.servers.remove(&p) {
                Some(map) => map,
                None => HashMap::new(),
            };
            assert(held_servers.contains_key(p));
            let ghost own = map@;
            let mine = owned(&map, netid);
            let mut j: usize = 0;
            while j < mine.len()
                invariant
                    j <= mine@.len(),
                    self.servers@ == held_servers.remove(p),
                    map@.dom() == own.dom(),
                    forall|s: ShardId| #[trigger]
                        mine@.contains(s) <==> own.contains_key(s) && own[s]@.endpoint == netid@,
                    forall|s: ShardId| #[trigger]
                        map@.contains_key(s) ==> map@[s]@ == if mine@.take(j as int).contains(s) {
                            ServerRegView { renewed_at: now, ..own[s]@ }
                        } else {
                            own[s]@
                        },
                decreases mine@.len() - j,
            {
                let shard = mine[j];
                assert(mine@.contains(shard));
                let ghost map_before = map@;
                match map.remove(&shard) {
                    Some(registration) => {
                        let mut registration = registration;
                        registration.renew(now);
                        map.insert(shard, registration);
                    },
                    None => {},
                }
                proof {
                    lemma_take_more(mine@, j as int);
                    assert(map_before.contains_key(shard));
                    assert(map@.dom() =~= own.dom());
                }
                j += 1;
            }
            self.servers.insert(p, map);
            proof {
                assert(mine@.take(j as int) =~= mine@);
                lemma_take_more(all@, i as int);
                let after = self.servers@;
                assert(after.dom() =~= start.dom());
                assert forall|k: (Protocol, ShardId)| #[trigger]
                    registry_view(after).contains_key(k) <==> held.contains_key(k) by {
                    if number_of(k.0) == p {
                        assert(map@.contains_key(k.1) <==> own.contains_key(k.1));
                    }
                }
                assert(self@.dom() =~= before.dom());
                assert forall|k: (Protocol, ShardId)| #[trigger]
                    self@.contains_key(k) implies self@[k] == if all@.take(
                    i + 1,
                ).contains(number_of(k.0)) {
                    target[k]
                } else {
                    before[k]
                } by {
                    assert(held.contains_key(k));
                    if number_of(k.0) == p {
                        assert(map@.contains_key(k.1));
                        assert(held[k] == own[k.1]@);
                    }
                }
            }
            i += 1;
        }
        proof {
            assert(all@.take(i as int) =~= all@);
            assert forall|k: (Protocol, ShardId)| #[trigger] self@.contains_key(k) implies self@[k]
                == target[k] by {
                assert(before.contains_key(k));
                assert(all@.contains(number_of(k.0)));
            }
            assert(self@ =~= target);
        }
    }
}

proof fn lemma_take_more<T>(s: Seq<T>, i: int)
    requires
        0 <= i < s.len(),
    ensures
        forall|x: T| #[trigger]
            s.take(i + 1).contains(x) <==> s.take(i).contains(x) || x == s[i],
{
    let grown = s.take(i + 1);
    let short = s.take(i);
    assert(grown[i] == s[i]);
    assert forall|x: T| short.contains(x) implies grown.contains(x) by {
        let j = choose|j: int| 0 <= j < short.len() && short[j] == x;
        assert(grown[j] == x);
    }
    assert forall|x: T| grown.contains(x) implies short.contains(x) || x == s[i] by {
        let j = choose|j: int| 0 <= j < grown.len() && grown[j] == x;
        if j < i {
            assert(short[j] == x);
        }
    }
}

spec fn registered(servers: Map<i32, HashMap<ShardId, ServerReg>>, p: i32, s: ShardId) -> bool {
    servers.contains_key(p) && servers[p]@.contains_key(s)
}

/// Putting back what was taken out changes nothing that can be asked for.
proof fn lemma_put_back(
    before: Map<i32, HashMap<ShardId, ServerReg>>,
    after: Map<i32, HashMap<ShardId, ServerReg>>,
    p: i32,
    own: Map<ShardId, ServerReg>,
)
    requires
        after.contains_key(p) && after[p]@ == own,
        forall|q: i32| q != p ==> (#[trigger] after.contains_key(q) <==> before.contains_key(q)),
        forall|q: i32| q != p && #[trigger] after.contains_key(q) ==> after[q] == before[q],
        forall|s: ShardId| #[trigger] own.contains_key(s) <==> registered(before, p, s),
        forall|s: ShardId| #[trigger] own.contains_key(s) ==> own[s] == before[p]@[s],
    ensures
        registry_view(after) == registry_view(before),
{
    assert forall|k: (Protocol, ShardId)| #[trigger]
        registry_view(after).contains_key(k) <==> registry_view(before).contains_key(k) by {
        if number_of(k.0) == p {
            assert(own.contains_key(k.1) <==> registered(before, p, k.1));
        }
    }
    assert(registry_view(after) =~= registry_view(before));
}

/// A server that was registered is found for each of its shards, and nothing else has changed.
pub proof fn law_registered_is_found(
    registry: Registry,
    protocol: Protocol,
    shards: Seq<ShardId>,
    reg: ServerRegView,
    key: (Protocol, ShardId),
)
    ensures
        key.0 == protocol && shards.contains(key.1) ==> added(
            registry,
            protocol,
            shards,
            reg,
        ).contains_key(key) && added(registry, protocol, shards, reg)[key] == reg,
        !(key.0 == protocol && shards.contains(key.1)) ==> (added(
            registry,
            protocol,
            shards,
            reg,
        ).contains_key(key) <==> registry.contains_key(key)),
        !(key.0 == protocol && shards.contains(key.1)) && registry.contains_key(key) ==> added(
            registry,
            protocol,
            shards,
            reg,
        )[key] == registry[key],
{
}

/// No registration takes a shard from the server that has it: one that asks for the shard of
/// another is refused, and one that is not refused leaves every shard to its server.
pub proof fn law_no_shard_is_taken_over(
    registry: Registry,
    protocol: Protocol,
    shards: Seq<ShardId>,
    reg: ServerRegView,
    key: (Protocol, ShardId),
)
    requires
        registry.contains_key(key),
    ensures
        key.0 == protocol && shards.contains(key.1) && registry[key].endpoint != reg.endpoint
            ==> conflicts(registry, protocol, reg.endpoint, shards),
        !conflicts(registry, protocol, reg.endpoint, shards) ==> added(
            registry,
            protocol,
            shards,
            reg,
        )[key].endpoint == registry[key].endpoint,
{
    if key.0 == protocol && shards.contains(key.1) && registry[key].endpoint != reg.endpoint {
        let i = choose|i: int| 0 <= i < shards.len() && shards[i] == key.1;
        assert(taken(registry, protocol, reg.endpoint, shards[i]));
    }
}

/// A server can register again for what it has been registered for, and for any part of it.
pub proof fn law_registering_again_succeeds(
    registry: Registry,
    protocol: Protocol,
    shards: Seq<ShardId>,
    reg: ServerRegView,
    again: Seq<ShardId>,
)
    requires
        forall|i: int| 0 <= i < again.len() ==> shards.contains(#[trigger] again[i]),
    ensures
        !conflicts(added(registry, protocol, shards, reg), protocol, reg.endpoint, again),
{
    let after = added(registry, protocol, shards, reg);
    assert forall|i: int| 0 <= i < again.len() implies !taken(
        after,
        protocol,
        reg.endpoint,
        #[trigger] again[i],
    ) by {
        assert(shards.contains(again[i]));
    }
}

/// A dropped server is found for no shard of the protocol, and its shards are free for any other.
pub proof fn law_dropped_is_gone(
    registry: Registry,
    protocol: Protocol,
    endpoint: Seq<char>,
    other: Seq<char>,
    shards: Seq<ShardId>,
)
    requires
        forall|i: int| 0 <= i < shards.len() ==> !taken(
            registry,
            protocol,
            endpoint,
            #[trigger] shards[i],
        ),
    ensures
        forall|shard: ShardId| #[trigger]
            dropped(registry, protocol, endpoint).contains_key((protocol, shard)) ==> dropped(
                registry,
                protocol,
                endpoint,
            )[(protocol, shard)].endpoint != endpoint,
        !conflicts(dropped(registry, protocol, endpoint), protocol, other, shards),
{
    let after = dropped(registry, protocol, endpoint);
    assert forall|i: int| 0 <= i < shards.len() implies !taken(
        after,
        protocol,
        other,
        #[trigger] shards[i],
    ) by {
        assert(!taken(registry, protocol, endpoint, shards[i]));
    }
}

/// Dropping a server undoes its registration, if it had nothing of the protocol before.
pub proof fn law_drop_undoes_add(
    registry: Registry,
    protocol: Protocol,
    shards: Seq<ShardId>,
    reg: ServerRegView,
)
    requires
        !conflicts(registry, protocol, reg.endpoint, shards),
        forall|shard: ShardId| #[trigger]
            registry.contains_key((protocol, shard)) ==> registry[(protocol, shard)].endpoint
                != reg.endpoint,
    ensures
        dropped(added(registry, protocol, shards, reg), protocol, reg.endpoint) == registry,
{
    let there = added(registry, protocol, shards, reg);
    let back = dropped(there, protocol, reg.endpoint);
    assert forall|k: (Protocol, ShardId)| #[trigger] back.contains_key(k)
        <==> registry.contains_key(k) by {
        assert(k == (k.0, k.1));
        if registry.contains_key(k) && k.0 == protocol && shards.contains(k.1) {
            let i = choose|i: int| 0 <= i < shards.len() && shards[i] == k.1;
            assert(taken(registry, protocol, reg.endpoint, shards[i]));
        }
    }
    assert(back =~= registry);
}

/// A drop leaves the registrations that it does not take away as they are, and those of other
/// protocols altogether; a renewal leaves every shard to its server.
pub proof fn law_upkeep_keeps_routes(
    registry: Registry,
    protocol: Protocol,
    endpoint: Seq<char>,
    now: u64,
    key: (Protocol, ShardId),
)
    ensures
        key.0 != protocol ==> (dropped(registry, protocol, endpoint).contains_key(key)
            <==> registry.contains_key(key)),
        dropped(registry, protocol, endpoint).contains_key(key) ==> dropped(
            registry,
            protocol,
            endpoint,
        )[key] == registry[key],
        renewed(registry, endpoint, now).contains_key(key) <==> registry.contains_key(key),
        registry.contains_key(key) ==> renewed(registry, endpoint, now)[key].endpoint
            == registry[key].endpoint,
{
}

/// A registration conflicts exactly where one of its shards is registered, under its protocol, to
/// an endpoint other than its own.
pub proof fn law_conflicts_are_over_shards(
    registry: Registry,
    protocol: Protocol,
    endpoint: Seq<char>,
    shards: Seq<ShardId>,
)
    ensures
        conflicts(registry, protocol, endpoint, shards) <==> exists|i: int|
            0 <= i < shards.len() && registry.contains_key((protocol, #[trigger] shards[i]))
                && registry[(protocol, shards[i])].endpoint != endpoint,
{
    if conflicts(registry, protocol, endpoint, shards) {
        let i = choose|i: int|
            0 <= i < shards.len() && taken(registry, protocol, endpoint, #[trigger] shards[i]);
        assert(registry.contains_key((protocol, shards[i])));
    }
    assert forall|i: int|
        0 <= i < shards.len() && registry.contains_key((protocol, #[trigger] shards[i]))
            && registry[(protocol, shards[i])].endpoint != endpoint implies conflicts(
        registry,
        protocol,
        endpoint,
        shards,
    ) by {
        assert(taken(registry, protocol, endpoint, shards[i]));
    }
}

/// A drop takes away exactly the registrations of the endpoint under the protocol.
pub proof fn law_drop_takes_away_no_more(
    registry: Registry,
    protocol: Protocol,
    endpoint: Seq<char>,
    key: (Protocol, ShardId),
)
    ensures
        ({
            let after = dropped(registry, protocol, endpoint);
            let gone = key.0 == protocol && registry[key].endpoint == endpoint;
            &&& after.contains_key(key) <==> registry.contains_key(key) && !gone
            &&& after.contains_key(key) ==> after[key] == registry[key]
        }),
{
}

/// A renewal sets the time of exactly the registrations of the endpoint, under whatever protocol,
/// and changes nothing else.
pub proof fn law_renewal_sets_the_time(
    registry: Registry,
    endpoint: Seq<char>,
    now: u64,
    key: (Protocol, ShardId),
)
    ensures
        ({
            let after = renewed(registry, endpoint, now);
            &&& after.contains_key(key) <==> registry.contains_key(key)
            &&& registry.contains_key(key) ==> after[key].endpoint == registry[key].endpoint
            &&& registry.contains_key(key) && registry[key].endpoint == endpoint
                ==> after[key].renewed_at == now
            &&& registry.contains_key(key) && registry[key].endpoint != endpoint
                ==> after[key].renewed_at == registry[key].renewed_at
        }),
{
}

/// A registration is read as what it is.
pub proof fn law_views_of_registrations(reg: ServerReg)
    ensures
        reg@.endpoint == reg.endpoint@,
        reg@.renewed_at == reg.renewed_at,
{
}

} // verus!
