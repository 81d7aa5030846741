//! What a configuration grants: who is admitted, which ports an admitted peer may
//! reach, and which listeners should be bound.
use crate::config::{
    bindings_view, offers_view, peer_ids, peers_view, Binding, BindingSpec, Config, ConfigSpec, Offer,
    OfferSpec, Peer, PeerSpec, Proto,
};
use crate::endpoint::EndpointId;
use crate::lists::{first_at, first_at_absent, first_at_found, first_at_is_first};
use vstd::prelude::*;

verus! {

/// Some enabled offer of the list opens this port.
pub open spec fn grants(offers: Seq<OfferSpec>, proto: Proto, port: u16) -> bool {
    exists|i: int|
        0 <= i < offers.len() && (#[trigger] offers[i]).enabled && offers[i].proto == proto
            && offers[i].port == port
}

pub open spec fn rising(ports: Seq<u16>) -> bool {
    forall|i: int, j: int| 0 <= i < j < ports.len() ==> ports[i] < ports[j]
}

/// The ports that a list of offers opens, in rising order and each once.
pub open spec fn lists_grants(ports: Seq<u16>, offers: Seq<OfferSpec>, proto: Proto) -> bool {
    &&& rising(ports)
    &&& forall|p: u16| #[trigger] ports.contains(p) <==> grants(offers, proto, p)
}

/// The entry for an id: the first that carries it.
pub open spec fn find_peer(peers: Seq<PeerSpec>, id: EndpointId) -> Option<PeerSpec> {
    let i = first_at(peer_ids(peers), id);
    if i < peers.len() {
        Some(peers[i as int])
    } else {
        None
    }
}

/// A peer is admitted when it is listed and not parked.
pub open spec fn config_admits(c: ConfigSpec, id: EndpointId) -> bool {
    find_peer(c.peers, id) matches Some(p) && p.enabled
}

/// The offers that reach a listed peer: the shared ones, then its own.
pub open spec fn offers_for(c: ConfigSpec, id: EndpointId) -> Seq<OfferSpec> {
    match find_peer(c.peers, id) {
        Some(p) => c.shared + p.offers,
        None => seq![],
    }
}

/// Whether a peer may reach a port: it is admitted, and an enabled offer, shared or
/// its own, opens that port.
pub open spec fn may_reach(c: ConfigSpec, id: EndpointId, proto: Proto, port: u16) -> bool {
    config_admits(c, id) && grants(offers_for(c, id), proto, port)
}

/// The bindings that are not parked, in order.
pub open spec fn enabled_bindings(s: Seq<BindingSpec>) -> Seq<BindingSpec> {
    s.filter(|b: BindingSpec| b.enabled)
}

/// Puts a port where it belongs in a rising list; one that is there stays as it is.
fn insert_port(ports: &mut Vec<u16>, port: u16)
    requires
        rising(old(ports)@),
    ensures
        rising(final(ports)@),
        forall|p: u16| #[trigger]
            final(ports)@.contains(p) <==> old(ports)@.contains(p) || p == port,
{
    let mut i: usize = 0;
    while i < ports.len() && ports[i] < port
        invariant
            i <= ports@.len(),
            ports@ == old(ports)@,
            forall|j: int| 0 <= j < i ==> ports@[j] < port,
        decreases ports@.len() - i,
    {
        i += 1;
    }
    if i < ports.len() && ports[i] == port {
        assert(ports@[i as int] == port);
        return;
    }
    let ghost before = ports@;
    ports.insert(i, port);
    let ghost after = ports@;
    assert(after[i as int] == port);
    assert forall|p: u16| #[trigger] after.contains(p) <==> before.contains(p) || p == port by {
        if before.contains(p) {
            let k = choose|k: int| 0 <= k < before.len() && before[k] == p;
            if k < i {
                assert(after[k] == p);
            } else {
                assert(after[k + 1] == p);
            }
        }
        if after.contains(p) && p != port {
            let k = choose|k: int| 0 <= k < after.len() && after[k] == p;
            if k < i {
                assert(before[k] == p);
            } else {
                assert(before[k - 1] == p);
            }
        }
    }
    assert forall|a: int, b: int| 0 <= a < b < after.len() implies after[a] < after[b] by {
        if a < i && b > i {
            assert(before[a] < before[b - 1]);
        } else if a > i {
            assert(before[a - 1] < before[b - 1]);
        } else if a == i {
            assert(before[i as int] <= before[b - 1]);
        }
    }
}

/// Adds the ports that one list of offers opens to a rising list of ports.
fn add_granted(ports: &mut Vec<u16>, offers: &[Offer], proto: Proto)
    requires
        rising(old(ports)@),
    ensures
        rising(final(ports)@),
        forall|p: u16| #[trigger]
            final(ports)@.contains(p) <==> old(ports)@.contains(p) || grants(
                offers_view(offers@),
                proto,
                p,
            ),
{
    let ghost all = offers_view(offers@);
    let mut i: usize = 0;
    while i < offers.len()
        invariant
            i <= offers@.len(),
            all == offers_view(offers@),
            rising(ports@),
            forall|p: u16| #[trigger]
                ports@.contains(p) <==> old(ports)@.contains(p) || grants(
                    all.take(i as int),
                    proto,
                    p,
                ),
        decreases offers@.len() - i,
    {
        let ghost before = ports@;
        let ghost seen = all.take(i as int);
        let ghost next = all.take(i + 1);
        assert(all[i as int] == offers[i as int]@);
        if offers[i].enabled && offers[i].proto == proto {
            insert_port(ports, offers[i].port);
        }
        assert forall|p: u16| #[trigger]
            ports@.contains(p) <==> old(ports)@.contains(p) || grants(next, proto, p) by {
            assert(before.contains(p) <==> old(ports)@.contains(p) || grants(seen, proto, p));
            if grants(seen, proto, p) {
                let k = choose|k: int|
                    0 <= k < seen.len() && (#[trigger] seen[k]).enabled && seen[k].proto == proto
                        && seen[k].port == p;
                assert(next[k] == seen[k]);
            }
            if grants(next, proto, p) {
                let k = choose|k: int|
                    0 <= k < next.len() && (#[trigger] next[k]).enabled && next[k].proto == proto
                        && next[k].port == p;
                if k < i {
                    assert(seen[k] == next[k]);
                }
            }
            if all[i as int].enabled && all[i as int].proto == proto && all[i as int].port == p {
                assert(next[i as int] == all[i as int]);
            }
        }
        i += 1;
    }
    assert(all.take(all.len() as int) =~= all);
}

proof fn lemma_grants_concat(a: Seq<OfferSpec>, b: Seq<OfferSpec>, proto: Proto, port: u16)
    ensures
        grants(a + b, proto, port) <==> grants(a, proto, port) || grants(b, proto, port),
{
    let c = a + b;
    if grants(a, proto, port) {
        let k = choose|k: int|
            0 <= k < a.len() && (#[trigger] a[k]).enabled && a[k].proto == proto && a[k].port
                == port;
        assert(c[k] == a[k]);
    }
    if grants(b, proto, port) {
        let k = choose|k: int|
            0 <= k < b.len() && (#[trigger] b[k]).enabled && b[k].proto == proto && b[k].port
                == port;
        assert(c[a.len() + k] == b[k]);
    }
    if grants(c, proto, port) {
        let k = choose|k: int|
            0 <= k < c.len() && (#[trigger] c[k]).enabled && c[k].proto == proto && c[k].port
                == port;
        if k < a.len() {
            assert(a[k] == c[k]);
        } else {
            assert(b[k - a.len()] == c[k]);
        }
    }
}

impl Peer {
    /// Every port this peer may reach, given the shared set. Disabled entries are
    /// dropped here rather than at the call site, so no caller can forget.
    pub fn granted(&self, shared: &[Offer], proto: Proto) -> (ports: Vec<u16>)
        ensures
            lists_grants(ports@, offers_view(shared@) + self@.offers, proto),
    {
        let mut ports: Vec<u16> = Vec::new();
        add_granted(&mut ports, shared, proto);
        add_granted(&mut ports, self.offers.as_slice(), proto);
        proof {
            let a = offers_view(shared@);
            let b = self@.offers;
            assert forall|p: u16| #[trigger] ports@.contains(p) <==> grants(a + b, proto, p) by {
                lemma_grants_concat(a, b, proto, p);
            }
        }
        ports
    }
}

impl Config {
    /// The entry for `id`.
    pub fn peer(&self, id: &EndpointId) -> (r: Option<&Peer>)
        ensures
            match r {
                Some(p) => find_peer(self@.peers, *id) == Some(p@),
                None => find_peer(self@.peers, *id) is None,
            },
    {
        let i: usize = peer_index(&self.serve.peers, id);
        if i < self.serve.peers.len() {
            Some(&self.serve.peers[i])
        } else {
            None
        }
    }

    /// The admitted-peer test. Being listed is not enough: a parked entry is a
    /// remembered name, not a grant.
    pub fn admits(&self, id: &EndpointId) -> (r: bool)
        ensures
            r == config_admits(self@, *id),
    {
        match self.peer(id) {
            Some(p) => p.enabled,
            None => false,
        }
    }

    /// Ports `id` may reach. `None` when the peer is unknown or parked, which the
    /// caller must treat as "refuse", not as "no ports".
    pub fn granted(&self, id: &EndpointId, proto: Proto) -> (r: Option<Vec<u16>>)
        ensures
            match r {
                None => !config_admits(self@, *id),
                Some(ports) => config_admits(self@, *id) && lists_grants(
                    ports@,
                    offers_for(self@, *id),
                    proto,
                ),
            },
    {
        match self.peer(id) {
            Some(p) => if p.enabled {
                Some(p.granted(self.serve.shared.as_slice(), proto))
            } else {
                None
            },
            None => None,
        }
    }

    /// Listeners the connecting side should have bound right now.
    pub fn active_bindings(&self) -> (r: Vec<Binding>)
        ensures
            bindings_view(r@) == enabled_bindings(self@.bindings),
    {
        let ghost all = self@.bindings;
        let ghost pred = |b: BindingSpec| b.enabled;
        let mut r: Vec<Binding> = Vec::new();
        let mut i: usize = 0;
        reveal(Seq::filter);
        assert(bindings_view(r@) =~= all.take(0).filter(pred));
        while i < self.connect.bindings.len()
            invariant
                i <= self.connect.bindings@.len(),
                all == self@.bindings,
                pred == (|b: BindingSpec| b.enabled),
                bindings_view(r@) == all.take(i as int).filter(pred),
            decreases self.connect.bindings@.len() - i,
        {
            let ghost before = r@;
            reveal(Seq::filter);
            assert(all.take(i + 1).drop_last() =~= all.take(i as int));
            assert(all[i as int] == self.connect.bindings[i as int]@);
            if self.connect.bindings[i].enabled {
                let b: Binding = self.connect.bindings[i].clone();
                r.push(b);
                assert(bindings_view(r@) =~= bindings_view(before).push(b@));
            }
            i += 1;
        }
        assert(all.take(all.len() as int) =~= all);
        r
    }
}

/// Where the entry for `id` stands, or the length where there is none.
pub fn peer_index(peers: &Vec<Peer>, id: &EndpointId) -> (i: usize)
    ensures
        i == first_at(peer_ids(peers_view(peers@)), *id),
        i <= peers@.len(),
        i < peers@.len() ==> peers@[i as int].id == *id,
{
    let ghost ids = peer_ids(peers_view(peers@));
    let mut i: usize = 0;
    while i < peers.len()
        invariant
            i <= peers@.len(),
            ids == peer_ids(peers_view(peers@)),
            forall|j: int| 0 <= j < i ==> ids[j] != *id,
        decreases peers@.len() - i,
    {
        assert(ids[i as int] == peers[i as int].id);
        if peers[i].id == *id {
            proof {
                first_at_found(ids, *id, i as int);
            }
            return i;
        }
        i += 1;
    }
    proof {
        first_at_absent(ids, *id);
    }
    i
}

// ---------------------------------------------------------------- laws

/// The port list that a set of offers has is unique: nothing else is rising and
/// holds the same ports.
pub proof fn granted_list_is_unique(a: Seq<u16>, b: Seq<u16>, offers: Seq<OfferSpec>, proto: Proto)
    requires
        lists_grants(a, offers, proto),
        lists_grants(b, offers, proto),
    ensures
        a == b,
{
    assert forall|p: u16| a.contains(p) <==> b.contains(p) by {
        assert(a.contains(p) <==> grants(offers, proto, p));
        assert(b.contains(p) <==> grants(offers, proto, p));
    }
    lemma_rising_lists_equal(a, b);
}

proof fn lemma_rising_lists_equal(a: Seq<u16>, b: Seq<u16>)
    requires
        rising(a),
        rising(b),
        forall|p: u16| a.contains(p) <==> b.contains(p),
    ensures
        a == b,
    decreases a.len(),
{
    if a.len() == 0 {
        if b.len() > 0 {
            assert(b.contains(b[0]));
        }
        assert(a =~= b);
    } else {
        assert(a.contains(a.last()));
        assert(b.contains(a.last()));
        assert(b.len() > 0);
        assert(b.contains(b.last()));
        assert(a.contains(b.last()));
        let k = choose|k: int| 0 <= k < b.len() && b[k] == a.last();
        let m = choose|m: int| 0 <= m < a.len() && a[m] == b.last();
        assert(a.last() == b.last()) by {
            if k < b.len() - 1 {
                assert(b[k] < b[b.len() - 1]);
            }
            if m < a.len() - 1 {
                assert(a[m] < a[a.len() - 1]);
            }
        }
        let x = a.drop_last();
        let y = b.drop_last();
        assert forall|p: u16| x.contains(p) <==> y.contains(p) by {
            if x.contains(p) {
                let i = choose|i: int| 0 <= i < x.len() && x[i] == p;
                assert(a[i] == p && a[i] < a[a.len() - 1]);
                assert(b.contains(p));
                let j = choose|j: int| 0 <= j < b.len() && b[j] == p;
                assert(y[j] == p);
            }
            if y.contains(p) {
                let i = choose|i: int| 0 <= i < y.len() && y[i] == p;
                assert(b[i] == p && b[i] < b[b.len() - 1]);
                assert(a.contains(p));
                let j = choose|j: int| 0 <= j < a.len() && a[j] == p;
                assert(x[j] == p);
            }
        }
        lemma_rising_lists_equal(x, y);
        assert(a =~= x.push(a.last()));
        assert(b =~= y.push(b.last()));
    }
}

/// A peer that is not on the list, or is parked, reaches nothing at all.
pub proof fn unadmitted_peers_reach_nothing(c: ConfigSpec, id: EndpointId, proto: Proto, port: u16)
    requires
        !peer_ids(c.peers).contains(id) || (find_peer(c.peers, id) matches Some(p) && !p.enabled),
    ensures
        !config_admits(c, id),
        !may_reach(c, id, proto, port),
{
    first_at_is_first(peer_ids(c.peers), id);
}

/// A shared port is open to every admitted peer, whatever that peer's own list
/// holds.
pub proof fn shared_ports_reach_every_admitted_peer(
    c: ConfigSpec,
    id: EndpointId,
    proto: Proto,
    port: u16,
)
    requires
        config_admits(c, id),
        grants(c.shared, proto, port),
    ensures
        may_reach(c, id, proto, port),
{
    lemma_grants_concat(c.shared, find_peer(c.peers, id).unwrap().offers, proto, port);
}

/// A port that is not offered is out of reach: being admitted opens only what the
/// shared list or the peer's own list opens.
pub proof fn only_offered_ports_are_reachable(
    c: ConfigSpec,
    id: EndpointId,
    proto: Proto,
    port: u16,
)
    requires
        may_reach(c, id, proto, port),
    ensures
        find_peer(c.peers, id) matches Some(p) && p.enabled && (grants(c.shared, proto, port)
            || grants(p.offers, proto, port)),
{
    lemma_grants_concat(c.shared, find_peer(c.peers, id).unwrap().offers, proto, port);
}

/// Per-peer grants are per peer: giving one entry any other offers changes nothing
/// of what another id may reach.
pub proof fn a_grant_does_not_leak_to_another_peer(
    c: ConfigSpec,
    i: int,
    entry: PeerSpec,
    other: EndpointId,
    proto: Proto,
    port: u16,
)
    requires
        0 <= i < c.peers.len(),
        entry.id == c.peers[i].id,
        other != entry.id,
    ensures
        may_reach(ConfigSpec { peers: c.peers.update(i, entry), ..c }, other, proto, port)
            == may_reach(c, other, proto, port),
{
    let d = c.peers.update(i, entry);
    assert(peer_ids(d) =~= peer_ids(c.peers));
    first_at_is_first(peer_ids(c.peers), other);
    let k = first_at(peer_ids(c.peers), other);
    if k < c.peers.len() {
        assert(peer_ids(c.peers)[k as int] == c.peers[k as int].id);
        assert(k != i);
        assert(d[k as int] == c.peers[k as int]);
    }
}

/// Replacing one peer's own offers never takes a shared port from it.
pub proof fn revoking_an_extra_grant_keeps_the_shared_ones(
    c: ConfigSpec,
    i: int,
    offers: Seq<OfferSpec>,
    id: EndpointId,
    proto: Proto,
    port: u16,
)
    requires
        0 <= i < c.peers.len(),
        config_admits(c, id),
        grants(c.shared, proto, port),
    ensures
        may_reach(
            ConfigSpec {
                peers: c.peers.update(i, PeerSpec { offers, ..c.peers[i] }),
                ..c
            },
            id,
            proto,
            port,
        ),
{
    let d = ConfigSpec { peers: c.peers.update(i, PeerSpec { offers, ..c.peers[i] }), ..c };
    assert(peer_ids(d.peers) =~= peer_ids(c.peers));
    first_at_is_first(peer_ids(c.peers), id);
    shared_ports_reach_every_admitted_peer(d, id, proto, port);
}

/// The entry that is found for an id carries it, and no entry before it does; none is
/// found only where none carries it.
pub proof fn the_entry_found_carries_the_id(peers: Seq<PeerSpec>, id: EndpointId)
    ensures
        find_peer(peers, id) is None <==> forall|i: int|
            0 <= i < peers.len() ==> (#[trigger] peers[i]).id != id,
        find_peer(peers, id) matches Some(p) ==> exists|i: int|
            0 <= i < peers.len() && #[trigger] peers[i] == p && p.id == id && forall|j: int|
                0 <= j < i ==> (#[trigger] peers[j]).id != id,
{
    let ids = peer_ids(peers);
    first_at_is_first(ids, id);
    let i = first_at(ids, id) as int;
    assert(forall|j: int| 0 <= j < peers.len() ==> ids[j] == (#[trigger] peers[j]).id);
    if i < peers.len() {
        assert(peers[i].id == id);
        assert forall|j: int| 0 <= j < i implies (#[trigger] peers[j]).id != id by {
            assert(ids[j] != id);
        }
    } else {
        assert forall|j: int| 0 <= j < peers.len() implies (#[trigger] peers[j]).id != id by {
            assert(ids[j] != id);
        }
    }
}

proof fn lemma_listed_once(peers: Seq<PeerSpec>, i: int)
    requires
        peer_ids(peers).no_duplicates(),
        0 <= i < peers.len(),
    ensures
        find_peer(peers, peers[i].id) == Some(peers[i]),
{
    let ids = peer_ids(peers);
    assert(ids[i] == peers[i].id);
    first_at_found(ids, peers[i].id, i);
}

/// Where no id is listed twice, a listed peer is admitted exactly when its own entry is
/// enabled, and an id that is not listed is not admitted.
pub proof fn admission_follows_the_entry(c: ConfigSpec, i: int, stranger: EndpointId)
    requires
        forall|a: int, b: int|
            0 <= a < b < c.peers.len() ==> (#[trigger] c.peers[a]).id != (#[trigger] c.peers[b]).id,
        0 <= i < c.peers.len(),
    ensures
        config_admits(c, c.peers[i].id) == c.peers[i].enabled,
        (forall|a: int| 0 <= a < c.peers.len() ==> (#[trigger] c.peers[a]).id != stranger)
            ==> !config_admits(c, stranger),
{
    let ids = peer_ids(c.peers);
    assert forall|a: int, b: int| 0 <= a < ids.len() && 0 <= b < ids.len() && a != b implies ids[a]
        != ids[b] by {
        if a < b {
            assert(c.peers[a].id != c.peers[b].id);
        } else {
            assert(c.peers[b].id != c.peers[a].id);
        }
    }
    lemma_listed_once(c.peers, i);
    the_entry_found_carries_the_id(c.peers, stranger);
}

/// Where no id is listed twice, a listed peer reaches a port exactly when its entry is
/// enabled and an enabled offer names that protocol and that port, on the shared list
/// or on its own.
pub proof fn reach_follows_the_entries(c: ConfigSpec, i: int, proto: Proto, port: u16)
    requires
        forall|a: int, b: int|
            0 <= a < b < c.peers.len() ==> (#[trigger] c.peers[a]).id != (#[trigger] c.peers[b]).id,
        0 <= i < c.peers.len(),
    ensures
        may_reach(c, c.peers[i].id, proto, port) <==> c.peers[i].enabled && ((exists|k: int|
            0 <= k < c.shared.len() && (#[trigger] c.shared[k]).enabled && c.shared[k].proto
                == proto && c.shared[k].port == port) || (exists|k: int|
            0 <= k < c.peers[i].offers.len() && (#[trigger] c.peers[i].offers[k]).enabled
                && c.peers[i].offers[k].proto == proto && c.peers[i].offers[k].port == port)),
{
    admission_follows_the_entry(c, i, c.peers[i].id);
    let ids = peer_ids(c.peers);
    assert forall|a: int, b: int| 0 <= a < ids.len() && 0 <= b < ids.len() && a != b implies ids[a]
        != ids[b] by {
        if a < b {
            assert(c.peers[a].id != c.peers[b].id);
        } else {
            assert(c.peers[b].id != c.peers[a].id);
        }
    }
    lemma_listed_once(c.peers, i);
    lemma_grants_concat(c.shared, c.peers[i].offers, proto, port);
}

/// A list of ports that some offers open holds the port of every enabled offer of that
/// protocol and nothing else, in rising order.
pub proof fn a_granted_list_holds_the_enabled_ports(
    ports: Seq<u16>,
    offers: Seq<OfferSpec>,
    proto: Proto,
)
    requires
        lists_grants(ports, offers, proto),
    ensures
        forall|k: int|
            0 <= k < offers.len() && (#[trigger] offers[k]).enabled && offers[k].proto == proto
                ==> ports.contains(offers[k].port),
        forall|p: u16| #[trigger]
            ports.contains(p) ==> exists|k: int|
                0 <= k < offers.len() && (#[trigger] offers[k]).enabled && offers[k].proto == proto
                    && offers[k].port == p,
        forall|i: int, j: int| 0 <= i < j < ports.len() ==> ports[i] < ports[j],
{
    assert forall|k: int|
        0 <= k < offers.len() && (#[trigger] offers[k]).enabled && offers[k].proto
            == proto implies ports.contains(offers[k].port) by {
        assert(grants(offers, proto, offers[k].port));
    }
    assert forall|p: u16| #[trigger] ports.contains(p) implies exists|k: int|
        0 <= k < offers.len() && (#[trigger] offers[k]).enabled && offers[k].proto == proto
            && offers[k].port == p by {
        assert(grants(offers, proto, p));
    }
}

/// A binding is active exactly when it is on the list and enabled, whatever its
/// protocol. Putting one at the end of the list puts it at the end of the active ones,
/// if it is enabled, and changes nothing else of them.
pub proof fn a_binding_is_active_exactly_when_enabled(
    s: Seq<BindingSpec>,
    b: BindingSpec,
    next: BindingSpec,
)
    ensures
        enabled_bindings(s).contains(b) <==> s.contains(b) && b.enabled,
        enabled_bindings(Seq::<BindingSpec>::empty()) == Seq::<BindingSpec>::empty(),
        enabled_bindings(s.push(next)) == (if next.enabled {
            enabled_bindings(s).push(next)
        } else {
            enabled_bindings(s)
        }),
{
    let p = |x: BindingSpec| x.enabled;
    reveal(Seq::filter);
    if s.contains(b) && b.enabled {
        s.lemma_filter_contains(p, s.index_of(b));
    }
    if enabled_bindings(s).contains(b) {
        s.lemma_filter_contains_rev(p, b);
        assert(p(b)) by {
            let k = enabled_bindings(s).index_of(b);
            s.lemma_filter_pred(p, k);
        }
    }
    crate::lists::filter_of_push(s, next, p);
}

} // verus!
