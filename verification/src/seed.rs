//! Command-line flags applied to a configuration: what a flag names is added where
//! it is missing, and nothing that is there is touched.
use crate::config::{
    binding_keys, bindings_valid, bindings_view, config_valid, empty_config, ids_are_keys,
    offer_keys, offers_valid, offers_view, peer_ids, peers_valid, peers_view, Binding,
    BindingSpec, Config, ConfigSpec, Offer, OfferSpec, Peer, PeerSpec, Proto,
};
use crate::endpoint::{text_reads_back, EndpointId};
use crate::grants::{config_admits, grants, may_reach, peer_index};
use crate::lists::{first_at, first_at_is_first};
use crate::portmap::PortMap;
use vstd::prelude::*;

verus! {

/// The entry that a port flag makes: enabled, without a label.
pub open spec fn flag_offer(proto: Proto, port: u16) -> OfferSpec {
    OfferSpec { proto, port, name: seq![], enabled: true }
}

/// The entry that a peer flag makes: enabled, without a label or own ports.
pub open spec fn flag_peer(id: EndpointId) -> PeerSpec {
    PeerSpec { id, name: seq![], enabled: true, offers: seq![] }
}

/// The entry that a mapping flag makes: enabled, without a label.
pub open spec fn flag_binding(proto: Proto, m: PortMap) -> BindingSpec {
    BindingSpec { proto, local: m.local, remote: m.remote, name: seq![], enabled: true }
}

/// A list of offers with the flagged ports added where no entry has them.
pub open spec fn with_offers(s: Seq<OfferSpec>, proto: Proto, ports: Seq<u16>) -> Seq<OfferSpec>
    decreases ports.len(),
{
    if ports.len() == 0 {
        s
    } else {
        let t = with_offers(s, proto, ports.drop_last());
        if offer_keys(t).contains((proto, ports.last())) {
            t
        } else {
            t.push(flag_offer(proto, ports.last()))
        }
    }
}

/// A list of peers with the flagged ids added where no entry has them.
pub open spec fn with_peers(s: Seq<PeerSpec>, ids: Seq<EndpointId>) -> Seq<PeerSpec>
    decreases ids.len(),
{
    if ids.len() == 0 {
        s
    } else {
        let t = with_peers(s, ids.drop_last());
        if peer_ids(t).contains(ids.last()) {
            t
        } else {
            t.push(flag_peer(ids.last()))
        }
    }
}

/// A list of bindings with the flagged mappings added where no entry claims their
/// local port.
pub open spec fn with_bindings(s: Seq<BindingSpec>, proto: Proto, maps: Seq<PortMap>) -> Seq<
    BindingSpec,
>
    decreases maps.len(),
{
    if maps.len() == 0 {
        s
    } else {
        let t = with_bindings(s, proto, maps.drop_last());
        if binding_keys(t).contains((proto, maps.last().local)) {
            t
        } else {
            t.push(flag_binding(proto, maps.last()))
        }
    }
}

/// A configuration after the serving side's flags.
pub open spec fn seeded(
    c: ConfigSpec,
    allow: Seq<EndpointId>,
    tcp: Seq<u16>,
    udp: Seq<u16>,
) -> ConfigSpec {
    ConfigSpec {
        shared: with_offers(with_offers(c.shared, Proto::Tcp, tcp), Proto::Udp, udp),
        peers: with_peers(c.peers, allow),
        bindings: c.bindings,
    }
}

/// A configuration after the connecting side's flags.
pub open spec fn seeded_bindings(c: ConfigSpec, tcp: Seq<PortMap>, udp: Seq<PortMap>) -> ConfigSpec {
    ConfigSpec {
        shared: c.shared,
        peers: c.peers,
        bindings: with_bindings(with_bindings(c.bindings, Proto::Tcp, tcp), Proto::Udp, udp),
    }
}

fn has_offer(offers: &Vec<Offer>, proto: Proto, port: u16) -> (r: bool)
    ensures
        r == offer_keys(offers_view(offers@)).contains((proto, port)),
{
    let ghost keys = offer_keys(offers_view(offers@));
    let mut i: usize = 0;
    while i < offers.len()
        invariant
            i <= offers@.len(),
            keys == offer_keys(offers_view(offers@)),
            forall|j: int| 0 <= j < i ==> keys[j] != (proto, port),
        decreases offers@.len() - i,
    {
        assert(keys[i as int] == (offers[i as int].proto, offers[i as int].port));
        if offers[i].proto == proto && offers[i].port == port {
            assert(keys[i as int] == (proto, port));
            return true;
        }
        i += 1;
    }
    false
}

fn has_binding(bindings: &Vec<Binding>, proto: Proto, local: u16) -> (r: bool)
    ensures
        r == binding_keys(bindings_view(bindings@)).contains((proto, local)),
{
    let ghost keys = binding_keys(bindings_view(bindings@));
    let mut i: usize = 0;
    while i < bindings.len()
        invariant
            i <= bindings@.len(),
            keys == binding_keys(bindings_view(bindings@)),
            forall|j: int| 0 <= j < i ==> keys[j] != (proto, local),
        decreases bindings@.len() - i,
    {
        assert(keys[i as int] == (bindings[i as int].proto, bindings[i as int].local));
        if bindings[i].proto == proto && bindings[i].local == local {
            assert(keys[i as int] == (proto, local));
            return true;
        }
        i += 1;
    }
    false
}

fn seed_offers(offers: &mut Vec<Offer>, proto: Proto, ports: &[u16]) -> (changed: bool)
    ensures
        offers_view(final(offers)@) == with_offers(offers_view(old(offers)@), proto, ports@),
        changed == (offers_view(final(offers)@) != offers_view(old(offers)@)),
        final(offers)@.len() >= old(offers)@.len(),
{
    let ghost start = offers_view(offers@);
    let mut changed: bool = false;
    let mut i: usize = 0;
    while i < ports.len()
        invariant
            i <= ports@.len(),
            start == offers_view(old(offers)@),
            offers_view(offers@) == with_offers(start, proto, ports@.take(i as int)),
            offers@.len() >= start.len(),
            changed ==> offers@.len() > start.len(),
            !changed ==> offers_view(offers@) == start,
        decreases ports@.len() - i,
    {
        let port: u16 = ports[i];
        let ghost before = offers@;
        assert(ports@.take(i + 1).drop_last() =~= ports@.take(i as int));
        if !has_offer(offers, proto, port) {
            let o: Offer = Offer { proto, port, name: String::new(), enabled: true };
            assert(o@ =~= flag_offer(proto, port));
            offers.push(o);
            assert(offers_view(offers@) =~= offers_view(before).push(o@));
            changed = true;
        }
        i += 1;
    }
    assert(ports@.take(ports@.len() as int) =~= ports@);
    changed
}

fn seed_peers(peers: &mut Vec<Peer>, allow: &[EndpointId]) -> (changed: bool)
    ensures
        peers_view(final(peers)@) == with_peers(peers_view(old(peers)@), allow@),
        changed == (peers_view(final(peers)@) != peers_view(old(peers)@)),
{
    let ghost start = peers_view(peers@);
    let mut changed: bool = false;
    let mut i: usize = 0;
    while i < allow.len()
        invariant
            i <= allow@.len(),
            start == peers_view(old(peers)@),
            peers_view(peers@) == with_peers(start, allow@.take(i as int)),
            peers@.len() >= start.len(),
            changed ==> peers@.len() > start.len(),
            !changed ==> peers_view(peers@) == start,
        decreases allow@.len() - i,
    {
        let id: EndpointId = allow[i];
        let ghost before = peers@;
        assert(allow@.take(i + 1).drop_last() =~= allow@.take(i as int));
        proof {
            first_at_is_first(peer_ids(peers_view(peers@)), id);
        }
        if peer_index(peers, &id) == peers.len() {
            let p: Peer = Peer { id, name: String::new(), enabled: true, offers: Vec::new() };
            assert(p@ =~= flag_peer(id));
            peers.push(p);
            assert(peers_view(peers@) =~= peers_view(before).push(p@));
            changed = true;
        }
        i += 1;
    }
    assert(allow@.take(allow@.len() as int) =~= allow@);
    changed
}

fn seed_maps(bindings: &mut Vec<Binding>, proto: Proto, maps: &[PortMap]) -> (changed: bool)
    ensures
        bindings_view(final(bindings)@) == with_bindings(
            bindings_view(old(bindings)@),
            proto,
            maps@,
        ),
        changed == (bindings_view(final(bindings)@) != bindings_view(old(bindings)@)),
        final(bindings)@.len() >= old(bindings)@.len(),
{
    let ghost start = bindings_view(bindings@);
    let mut changed: bool = false;
    let mut i: usize = 0;
    while i < maps.len()
        invariant
            i <= maps@.len(),
            start == bindings_view(old(bindings)@),
            bindings_view(bindings@) == with_bindings(start, proto, maps@.take(i as int)),
            bindings@.len() >= start.len(),
            changed ==> bindings@.len() > start.len(),
            !changed ==> bindings_view(bindings@) == start,
        decreases maps@.len() - i,
    {
        let m: PortMap = maps[i];
        let ghost before = bindings@;
        assert(maps@.take(i + 1).drop_last() =~= maps@.take(i as int));
        if !has_binding(bindings, proto, m.local) {
            let b: Binding = Binding {
                proto,
                local: m.local,
                remote: m.remote,
                name: String::new(),
                enabled: true,
            };
            assert(b@ =~= flag_binding(proto, m));
            bindings.push(b);
            assert(bindings_view(bindings@) =~= bindings_view(before).push(b@));
            changed = true;
        }
        i += 1;
    }
    assert(maps@.take(maps@.len() as int) =~= maps@);
    changed
}

impl Config {
    /// Applies the serving side's flags. Returns whether anything was added, so an
    /// unchanged configuration is not written again.
    pub fn seed_from_flags(&mut self, allow: &[EndpointId], tcp: &[u16], udp: &[u16]) -> (changed:
        bool)
        ensures
            final(self)@ == seeded(old(self)@, allow@, tcp@, udp@),
            changed == (final(self)@ != old(self)@),
    {
        let a: bool = seed_offers(&mut self.serve.shared, Proto::Tcp, tcp);
        let b: bool = seed_offers(&mut self.serve.shared, Proto::Udp, udp);
        let c: bool = seed_peers(&mut self.serve.peers, allow);
        proof {
            lemma_with_offers_extends(old(self)@.shared, Proto::Tcp, tcp@);
            lemma_with_offers_extends(
                with_offers(old(self)@.shared, Proto::Tcp, tcp@),
                Proto::Udp,
                udp@,
            );
        }
        a || b || c
    }

    /// Applies the connecting side's flags. Returns whether anything was added.
    pub fn seed_bindings(&mut self, tcp: &[PortMap], udp: &[PortMap]) -> (changed: bool)
        ensures
            final(self)@ == seeded_bindings(old(self)@, tcp@, udp@),
            changed == (final(self)@ != old(self)@),
    {
        let a: bool = seed_maps(&mut self.connect.bindings, Proto::Tcp, tcp);
        let b: bool = seed_maps(&mut self.connect.bindings, Proto::Udp, udp);
        proof {
            lemma_with_bindings_extends(old(self)@.bindings, Proto::Tcp, tcp@);
            lemma_with_bindings_extends(
                with_bindings(old(self)@.bindings, Proto::Tcp, tcp@),
                Proto::Udp,
                udp@,
            );
        }
        a || b
    }
}

// ---------------------------------------------------------------- laws

/// Two lists of which the second starts with the first.
pub open spec fn extends<T>(s: Seq<T>, t: Seq<T>) -> bool {
    s.len() <= t.len() && forall|i: int| 0 <= i < s.len() ==> s[i] == t[i]
}

proof fn lemma_with_offers_extends(s: Seq<OfferSpec>, proto: Proto, ports: Seq<u16>)
    ensures
        extends(s, with_offers(s, proto, ports)),
        with_offers(s, proto, ports).len() == s.len() ==> with_offers(s, proto, ports) == s,
        forall|i: int|
            0 <= i < ports.len() ==> offer_keys(with_offers(s, proto, ports)).contains(
                (proto, #[trigger] ports[i]),
            ),
        offers_valid(s) && (forall|i: int| 0 <= i < ports.len() ==> ports[i] != 0) ==> offers_valid(
            with_offers(s, proto, ports),
        ),
    decreases ports.len(),
{
    if ports.len() > 0 {
        let front = ports.drop_last();
        lemma_with_offers_extends(s, proto, front);
        let t = with_offers(s, proto, front);
        let u = with_offers(s, proto, ports);
        let key = (proto, ports.last());
        if !offer_keys(t).contains(key) {
            assert(offer_keys(u) =~= offer_keys(t).push(key));
            assert(offer_keys(u)[t.len() as int] == key);
            if offers_valid(s) && (forall|i: int| 0 <= i < ports.len() ==> ports[i] != 0) {
                assert(forall|i: int| 0 <= i < front.len() ==> front[i] == ports[i]);
                assert(offers_valid(t));
                assert forall|i: int| 0 <= i < u.len() implies crate::config::offer_valid(
                    #[trigger] u[i],
                ) by {
                    if i < t.len() {
                        assert(u[i] == t[i]);
                    }
                }
                assert(offer_keys(u).no_duplicates());
            }
        } else if forall|i: int| 0 <= i < ports.len() ==> ports[i] != 0 {
            assert(forall|i: int| 0 <= i < front.len() ==> front[i] == ports[i]);
        }
        assert forall|i: int| 0 <= i < ports.len() implies offer_keys(u).contains(
            (proto, #[trigger] ports[i]),
        ) by {
            if i < front.len() {
                assert(front[i] == ports[i]);
                let k = choose|k: int|
                    0 <= k < offer_keys(t).len() && offer_keys(t)[k] == (proto, ports[i]);
                assert(offer_keys(u)[k] == (proto, ports[i]));
            }
        }
    }
    if with_offers(s, proto, ports).len() == s.len() {
        assert(with_offers(s, proto, ports) =~= s);
    }
}

proof fn lemma_with_offers_noop(s: Seq<OfferSpec>, proto: Proto, ports: Seq<u16>)
    requires
        forall|i: int|
            0 <= i < ports.len() ==> offer_keys(s).contains((proto, #[trigger] ports[i])),
    ensures
        with_offers(s, proto, ports) == s,
    decreases ports.len(),
{
    if ports.len() > 0 {
        let front = ports.drop_last();
        assert(forall|i: int| 0 <= i < front.len() ==> front[i] == ports[i]);
        lemma_with_offers_noop(s, proto, front);
        assert(offer_keys(s).contains((proto, ports[ports.len() - 1])));
    }
}

proof fn lemma_with_peers_extends(s: Seq<PeerSpec>, ids: Seq<EndpointId>)
    ensures
        extends(s, with_peers(s, ids)),
        forall|i: int|
            0 <= i < ids.len() ==> peer_ids(with_peers(s, ids)).contains(#[trigger] ids[i]),
        peers_valid(s) ==> peers_valid(with_peers(s, ids)),
    decreases ids.len(),
{
    if ids.len() > 0 {
        let front = ids.drop_last();
        lemma_with_peers_extends(s, front);
        let t = with_peers(s, front);
        let u = with_peers(s, ids);
        if !peer_ids(t).contains(ids.last()) {
            assert(peer_ids(u) =~= peer_ids(t).push(ids.last()));
            assert(peer_ids(u)[t.len() as int] == ids.last());
            if peers_valid(s) {
                assert forall|i: int| 0 <= i < u.len() implies crate::config::peer_valid(
                    #[trigger] u[i],
                ) by {
                    if i < t.len() {
                        assert(u[i] == t[i]);
                    }
                }
                assert(peer_ids(u).no_duplicates());
            }
        }
        assert forall|i: int| 0 <= i < ids.len() implies peer_ids(u).contains(#[trigger] ids[i]) by {
            if i < front.len() {
                assert(front[i] == ids[i]);
                let k = choose|k: int| 0 <= k < peer_ids(t).len() && peer_ids(t)[k] == ids[i];
                assert(peer_ids(u)[k] == ids[i]);
            }
        }
    }
}

proof fn lemma_with_peers_noop(s: Seq<PeerSpec>, ids: Seq<EndpointId>)
    requires
        forall|i: int| 0 <= i < ids.len() ==> peer_ids(s).contains(#[trigger] ids[i]),
    ensures
        with_peers(s, ids) == s,
    decreases ids.len(),
{
    if ids.len() > 0 {
        let front = ids.drop_last();
        assert(forall|i: int| 0 <= i < front.len() ==> front[i] == ids[i]);
        lemma_with_peers_noop(s, front);
        assert(peer_ids(s).contains(ids[ids.len() - 1]));
    }
}

proof fn lemma_with_bindings_extends(s: Seq<BindingSpec>, proto: Proto, maps: Seq<PortMap>)
    ensures
        extends(s, with_bindings(s, proto, maps)),
        with_bindings(s, proto, maps).len() == s.len() ==> with_bindings(s, proto, maps) == s,
        forall|i: int|
            0 <= i < maps.len() ==> binding_keys(with_bindings(s, proto, maps)).contains(
                (proto, (#[trigger] maps[i]).local),
            ),
        bindings_valid(s) && (forall|i: int|
            0 <= i < maps.len() ==> (#[trigger] maps[i]).local != 0 && maps[i].remote != 0)
            ==> bindings_valid(with_bindings(s, proto, maps)),
    decreases maps.len(),
{
    if maps.len() > 0 {
        let front = maps.drop_last();
        lemma_with_bindings_extends(s, proto, front);
        assert(forall|i: int| 0 <= i < front.len() ==> front[i] == maps[i]);
        let t = with_bindings(s, proto, front);
        let u = with_bindings(s, proto, maps);
        let key = (proto, maps.last().local);
        if !binding_keys(t).contains(key) {
            assert(binding_keys(u) =~= binding_keys(t).push(key));
            assert(binding_keys(u)[t.len() as int] == key);
            if bindings_valid(s) && (forall|i: int|
                0 <= i < maps.len() ==> (#[trigger] maps[i]).local != 0 && maps[i].remote != 0) {
                assert(bindings_valid(t));
                assert(maps[maps.len() - 1].local != 0);
                assert forall|i: int| 0 <= i < u.len() implies crate::config::binding_valid(
                    #[trigger] u[i],
                ) by {
                    if i < t.len() {
                        assert(u[i] == t[i]);
                    }
                }
                assert(binding_keys(u).no_duplicates());
            }
        }
        assert forall|i: int| 0 <= i < maps.len() implies binding_keys(u).contains(
            (proto, (#[trigger] maps[i]).local),
        ) by {
            if i < front.len() {
                assert(front[i] == maps[i]);
                let k = choose|k: int|
                    0 <= k < binding_keys(t).len() && binding_keys(t)[k] == (proto, maps[i].local);
                assert(binding_keys(u)[k] == (proto, maps[i].local));
            }
        }
    }
    if with_bindings(s, proto, maps).len() == s.len() {
        assert(with_bindings(s, proto, maps) =~= s);
    }
}

proof fn lemma_with_bindings_noop(s: Seq<BindingSpec>, proto: Proto, maps: Seq<PortMap>)
    requires
        forall|i: int|
            0 <= i < maps.len() ==> binding_keys(s).contains((proto, (#[trigger] maps[i]).local)),
    ensures
        with_bindings(s, proto, maps) == s,
    decreases maps.len(),
{
    if maps.len() > 0 {
        let front = maps.drop_last();
        assert(forall|i: int| 0 <= i < front.len() ==> front[i] == maps[i]);
        lemma_with_bindings_noop(s, proto, front);
        assert(binding_keys(s).contains((proto, maps[maps.len() - 1].local)));
    }
}

/// Flags never clobber: every entry that was there is there unchanged, in its
/// place, and what follows was added.
pub proof fn seeding_never_clobbers(
    c: ConfigSpec,
    allow: Seq<EndpointId>,
    tcp: Seq<u16>,
    udp: Seq<u16>,
    tcp_maps: Seq<PortMap>,
    udp_maps: Seq<PortMap>,
)
    ensures
        extends(c.shared, seeded(c, allow, tcp, udp).shared),
        extends(c.peers, seeded(c, allow, tcp, udp).peers),
        extends(c.bindings, seeded_bindings(c, tcp_maps, udp_maps).bindings),
{
    lemma_with_offers_extends(c.shared, Proto::Tcp, tcp);
    lemma_with_offers_extends(with_offers(c.shared, Proto::Tcp, tcp), Proto::Udp, udp);
    lemma_with_peers_extends(c.peers, allow);
    lemma_with_bindings_extends(c.bindings, Proto::Tcp, tcp_maps);
    lemma_with_bindings_extends(
        with_bindings(c.bindings, Proto::Tcp, tcp_maps),
        Proto::Udp,
        udp_maps,
    );
}

/// What the flags name is on the lists afterwards.
pub proof fn seeding_lists_what_was_flagged(
    c: ConfigSpec,
    allow: Seq<EndpointId>,
    tcp: Seq<u16>,
    udp: Seq<u16>,
)
    ensures
        forall|i: int|
            0 <= i < tcp.len() ==> offer_keys(seeded(c, allow, tcp, udp).shared).contains(
                (Proto::Tcp, #[trigger] tcp[i]),
            ),
        forall|i: int|
            0 <= i < udp.len() ==> offer_keys(seeded(c, allow, tcp, udp).shared).contains(
                (Proto::Udp, #[trigger] udp[i]),
            ),
        forall|i: int|
            0 <= i < allow.len() ==> peer_ids(seeded(c, allow, tcp, udp).peers).contains(
                #[trigger] allow[i],
            ),
{
    let t = with_offers(c.shared, Proto::Tcp, tcp);
    let u = with_offers(t, Proto::Udp, udp);
    lemma_with_offers_extends(c.shared, Proto::Tcp, tcp);
    lemma_with_offers_extends(t, Proto::Udp, udp);
    lemma_with_peers_extends(c.peers, allow);
    assert forall|i: int| 0 <= i < tcp.len() implies offer_keys(u).contains(
        (Proto::Tcp, #[trigger] tcp[i]),
    ) by {
        let k = choose|k: int|
            0 <= k < offer_keys(t).len() && offer_keys(t)[k] == (Proto::Tcp, tcp[i]);
        assert(offer_keys(u)[k] == (Proto::Tcp, tcp[i]));
    }
}

/// Seeding twice with the same flags is seeding once: a restart with the same
/// command line does not grow the file.
pub proof fn seeding_is_idempotent(
    c: ConfigSpec,
    allow: Seq<EndpointId>,
    tcp: Seq<u16>,
    udp: Seq<u16>,
)
    ensures
        seeded(seeded(c, allow, tcp, udp), allow, tcp, udp) == seeded(c, allow, tcp, udp),
{
    let d = seeded(c, allow, tcp, udp);
    seeding_lists_what_was_flagged(c, allow, tcp, udp);
    lemma_with_offers_noop(d.shared, Proto::Tcp, tcp);
    lemma_with_offers_noop(d.shared, Proto::Udp, udp);
    lemma_with_peers_noop(d.peers, allow);
}

/// The same of the connecting side's flags.
pub proof fn seeding_bindings_is_idempotent(c: ConfigSpec, tcp: Seq<PortMap>, udp: Seq<PortMap>)
    ensures
        seeded_bindings(seeded_bindings(c, tcp, udp), tcp, udp) == seeded_bindings(c, tcp, udp),
{
    let t = with_bindings(c.bindings, Proto::Tcp, tcp);
    let u = with_bindings(t, Proto::Udp, udp);
    lemma_with_bindings_extends(c.bindings, Proto::Tcp, tcp);
    lemma_with_bindings_extends(t, Proto::Udp, udp);
    assert forall|i: int| 0 <= i < tcp.len() implies binding_keys(u).contains(
        (Proto::Tcp, (#[trigger] tcp[i]).local),
    ) by {
        let k = choose|k: int|
            0 <= k < binding_keys(t).len() && binding_keys(t)[k] == (Proto::Tcp, tcp[i].local);
        assert(binding_keys(u)[k] == (Proto::Tcp, tcp[i].local));
    }
    lemma_with_bindings_noop(u, Proto::Tcp, tcp);
    lemma_with_bindings_noop(u, Proto::Udp, udp);
}

/// Flags that name real ports keep an acceptable configuration acceptable.
pub proof fn seeding_keeps_a_config_valid(
    c: ConfigSpec,
    allow: Seq<EndpointId>,
    tcp: Seq<u16>,
    udp: Seq<u16>,
    tcp_maps: Seq<PortMap>,
    udp_maps: Seq<PortMap>,
)
    requires
        config_valid(c),
        forall|i: int| 0 <= i < tcp.len() ==> tcp[i] != 0,
        forall|i: int| 0 <= i < udp.len() ==> udp[i] != 0,
        forall|i: int|
            0 <= i < tcp_maps.len() ==> (#[trigger] tcp_maps[i]).local != 0 && tcp_maps[i].remote
                != 0,
        forall|i: int|
            0 <= i < udp_maps.len() ==> (#[trigger] udp_maps[i]).local != 0 && udp_maps[i].remote
                != 0,
    ensures
        config_valid(seeded(c, allow, tcp, udp)),
        config_valid(seeded_bindings(c, tcp_maps, udp_maps)),
{
    lemma_with_offers_extends(c.shared, Proto::Tcp, tcp);
    lemma_with_offers_extends(with_offers(c.shared, Proto::Tcp, tcp), Proto::Udp, udp);
    lemma_with_peers_extends(c.peers, allow);
    lemma_with_bindings_extends(c.bindings, Proto::Tcp, tcp_maps);
    lemma_with_bindings_extends(
        with_bindings(c.bindings, Proto::Tcp, tcp_maps),
        Proto::Udp,
        udp_maps,
    );
}

proof fn lemma_flagged_offers(s: Seq<OfferSpec>, proto: Proto, ports: Seq<u16>)
    requires
        forall|i: int| 0 <= i < s.len() ==> (#[trigger] s[i]).enabled,
    ensures
        forall|i: int|
            0 <= i < with_offers(s, proto, ports).len() ==> (#[trigger] with_offers(
                s,
                proto,
                ports,
            )[i]).enabled,
        forall|q: Proto, port: u16| #[trigger]
            grants(with_offers(s, proto, ports), q, port) <==> grants(s, q, port) || q == proto
                && ports.contains(port),
    decreases ports.len(),
{
    if ports.len() > 0 {
        let front = ports.drop_last();
        lemma_flagged_offers(s, proto, front);
        let t = with_offers(s, proto, front);
        let u = with_offers(s, proto, ports);
        let o = flag_offer(proto, ports.last());
        assert(ports =~= front.push(ports.last()));
        assert forall|q: Proto, port: u16| #[trigger] grants(u, q, port) <==> grants(t, q, port) || (
        q == proto && port == ports.last()) by {
            if offer_keys(t).contains((proto, ports.last())) {
                let k = choose|k: int|
                    0 <= k < offer_keys(t).len() && offer_keys(t)[k] == (proto, ports.last());
                assert(t[k].enabled && t[k].proto == proto && t[k].port == ports.last());
            } else {
                assert(u == t.push(o));
                assert(u[t.len() as int] == o);
                if grants(t, q, port) {
                    let k = choose|k: int|
                        0 <= k < t.len() && (#[trigger] t[k]).enabled && t[k].proto == q
                            && t[k].port == port;
                    assert(u[k] == t[k]);
                }
                if grants(u, q, port) {
                    let k = choose|k: int|
                        0 <= k < u.len() && (#[trigger] u[k]).enabled && u[k].proto == q
                            && u[k].port == port;
                    if k < t.len() {
                        assert(u[k] == t[k]);
                    }
                }
            }
        }
        assert forall|port: u16| #[trigger] ports.contains(port) <==> front.contains(port) || port
            == ports.last() by {
            assert(ports[front.len() as int] == ports.last());
            if front.contains(port) {
                let k = choose|k: int| 0 <= k < front.len() && front[k] == port;
                assert(ports[k] == port);
            }
            if ports.contains(port) && port != ports.last() {
                let k = choose|k: int| 0 <= k < ports.len() && ports[k] == port;
                assert(front[k] == port);
            }
        }
    }
}

proof fn lemma_flagged_peers(ids: Seq<EndpointId>)
    ensures
        forall|i: int|
            0 <= i < with_peers(seq![], ids).len() ==> (#[trigger] with_peers(seq![], ids)[i])
                == flag_peer(with_peers(seq![], ids)[i].id) && ids.contains(
                with_peers(seq![], ids)[i].id,
            ),
    decreases ids.len(),
{
    if ids.len() > 0 {
        let front = ids.drop_last();
        lemma_flagged_peers(front);
        let t = with_peers(seq![], front);
        let u = with_peers(seq![], ids);
        assert forall|i: int| 0 <= i < u.len() implies (#[trigger] u[i]) == flag_peer(u[i].id)
            && ids.contains(u[i].id) by {
            if i < t.len() {
                assert(u[i] == t[i]);
                let k = choose|k: int| 0 <= k < front.len() && front[k] == u[i].id;
                assert(ids[k] == u[i].id);
            } else {
                assert(ids[ids.len() - 1] == u[i].id);
            }
        }
    }
}

/// There is no "allow anyone": with nothing configured, nobody is admitted and nothing
/// is reached.
pub proof fn nothing_is_allowed_by_default(id: EndpointId, proto: Proto, port: u16)
    ensures
        !config_admits(empty_config(), id),
        !may_reach(empty_config(), id, proto, port),
{
}

/// On a fresh machine the flags grant exactly what they name: only the peers they
/// allow are admitted, and those reach only the ports they offer.
pub proof fn flags_grant_exactly_what_they_name(
    allow: Seq<EndpointId>,
    tcp: Seq<u16>,
    udp: Seq<u16>,
    id: EndpointId,
    port: u16,
)
    ensures
        ({
            let c = seeded(empty_config(), allow, tcp, udp);
            &&& config_admits(c, id) <==> allow.contains(id)
            &&& may_reach(c, id, Proto::Tcp, port) <==> allow.contains(id) && tcp.contains(port)
            &&& may_reach(c, id, Proto::Udp, port) <==> allow.contains(id) && udp.contains(port)
        }),
{
    let c = seeded(empty_config(), allow, tcp, udp);
    let none = Seq::<OfferSpec>::empty();
    let t = with_offers(none, Proto::Tcp, tcp);
    lemma_flagged_offers(none, Proto::Tcp, tcp);
    lemma_flagged_offers(t, Proto::Udp, udp);
    assert(c.shared == with_offers(t, Proto::Udp, udp));
    assert(grants(c.shared, Proto::Tcp, port) <==> grants(t, Proto::Tcp, port));
    lemma_flagged_peers(allow);
    lemma_with_peers_extends(seq![], allow);
    first_at_is_first(peer_ids(c.peers), id);
    if allow.contains(id) {
        let k = choose|k: int| 0 <= k < allow.len() && allow[k] == id;
        assert(peer_ids(c.peers).contains(allow[k]));
    }
    let i = first_at(peer_ids(c.peers), id) as int;
    if i < c.peers.len() {
        assert(peer_ids(c.peers)[i] == c.peers[i].id);
        assert(c.peers[i] == flag_peer(id));
        assert(c.shared + c.peers[i].offers =~= c.shared);
    }
}

/// Flags that allow keys keep every id of the list a key.
pub proof fn seeding_keeps_ids_keys(
    c: ConfigSpec,
    allow: Seq<EndpointId>,
    tcp: Seq<u16>,
    udp: Seq<u16>,
    tcp_maps: Seq<PortMap>,
    udp_maps: Seq<PortMap>,
)
    requires
        ids_are_keys(c),
        forall|i: int| 0 <= i < allow.len() ==> text_reads_back((#[trigger] allow[i]).bytes),
    ensures
        ids_are_keys(seeded(c, allow, tcp, udp)),
        ids_are_keys(seeded_bindings(c, tcp_maps, udp_maps)),
    decreases allow.len(),
{
    if allow.len() > 0 {
        let front = allow.drop_last();
        assert(forall|i: int| 0 <= i < front.len() ==> front[i] == allow[i]);
        seeding_keeps_ids_keys(c, front, tcp, udp, tcp_maps, udp_maps);
        let t = with_peers(c.peers, front);
        let u = with_peers(c.peers, allow);
        assert(t == seeded(c, front, tcp, udp).peers);
        assert(text_reads_back(allow[allow.len() - 1].bytes));
        assert forall|i: int| 0 <= i < u.len() implies text_reads_back(
            (#[trigger] u[i]).id.bytes,
        ) by {
            if i < t.len() {
                assert(u[i] == t[i]);
            }
        }
    }
}

/// What the flags add to a list of offers: each added entry is for a flagged port of the
/// protocol that no entry before it is for, enabled and without a label, and the ports
/// come in the order in which the flags first name them.
proof fn lemma_added_offers(s: Seq<OfferSpec>, proto: Proto, ports: Seq<u16>)
    ensures
        ({
            let u = with_offers(s, proto, ports);
            &&& forall|i: int|
                s.len() <= i < u.len() ==> (#[trigger] u[i]).enabled && u[i].name.len() == 0
                    && u[i].proto == proto && ports.contains(u[i].port)
            &&& forall|i: int, j: int|
                0 <= j < i && s.len() <= i < u.len() ==> (#[trigger] u[j]).proto != (
                #[trigger] u[i]).proto || u[j].port != u[i].port
            &&& forall|i: int, j: int|
                s.len() <= i < j < u.len() ==> first_at(ports, (#[trigger] u[i]).port) < first_at(
                    ports,
                    (#[trigger] u[j]).port,
                )
        }),
    decreases ports.len(),
{
    if ports.len() > 0 {
        let front = ports.drop_last();
        lemma_added_offers(s, proto, front);
        lemma_with_offers_extends(s, proto, front);
        let t = with_offers(s, proto, front);
        let u = with_offers(s, proto, ports);
        let last = ports.last();
        assert(ports =~= front.push(last));
        assert forall|i: int| s.len() <= i < u.len() implies (#[trigger] u[i]).enabled
            && u[i].name.len() == 0 && u[i].proto == proto && ports.contains(u[i].port) by {
            if i < t.len() {
                assert(u[i] == t[i]);
                let k = front.index_of(u[i].port);
                assert(ports[k] == u[i].port);
            } else {
                assert(ports[ports.len() - 1] == u[i].port);
            }
        }
        assert forall|i: int, j: int| 0 <= j < i && s.len() <= i < u.len() implies (
        #[trigger] u[j]).proto != (#[trigger] u[i]).proto || u[j].port != u[i].port by {
            assert(u[j] == t[j]);
            if i < t.len() {
                assert(u[i] == t[i]);
            } else {
                assert(offer_keys(t)[j] == (t[j].proto, t[j].port));
            }
        }
        assert forall|i: int, j: int| s.len() <= i < j < u.len() implies first_at(
            ports,
            (#[trigger] u[i]).port,
        ) < first_at(ports, (#[trigger] u[j]).port) by {
            assert(u[i] == t[i]);
            crate::lists::first_at_of_push(front, last, u[i].port);
            crate::lists::first_at_of_push(front, last, u[j].port);
            first_at_is_first(front, u[i].port);
            if j < t.len() {
                assert(u[j] == t[j]);
            } else {
                if front.contains(last) {
                    let k = front.index_of(last);
                    assert(offer_keys(t).contains((proto, front[k])));
                }
            }
        }
    }
}

proof fn lemma_added_peers(s: Seq<PeerSpec>, ids: Seq<EndpointId>)
    ensures
        ({
            let u = with_peers(s, ids);
            &&& forall|i: int|
                s.len() <= i < u.len() ==> (#[trigger] u[i]).enabled && u[i].name.len() == 0
                    && u[i].offers.len() == 0 && ids.contains(u[i].id)
            &&& forall|i: int, j: int|
                0 <= j < i && s.len() <= i < u.len() ==> (#[trigger] u[j]).id != (#[trigger] u[i]).id
            &&& forall|i: int, j: int|
                s.len() <= i < j < u.len() ==> first_at(ids, (#[trigger] u[i]).id) < first_at(
                    ids,
                    (#[trigger] u[j]).id,
                )
        }),
    decreases ids.len(),
{
    if ids.len() > 0 {
        let front = ids.drop_last();
        lemma_added_peers(s, front);
        lemma_with_peers_extends(s, front);
        let t = with_peers(s, front);
        let u = with_peers(s, ids);
        let last = ids.last();
        assert(ids =~= front.push(last));
        assert forall|i: int| s.len() <= i < u.len() implies (#[trigger] u[i]).enabled
            && u[i].name.len() == 0 && u[i].offers.len() == 0 && ids.contains(u[i].id) by {
            if i < t.len() {
                assert(u[i] == t[i]);
                let k = front.index_of(u[i].id);
                assert(ids[k] == u[i].id);
            } else {
                assert(ids[ids.len() - 1] == u[i].id);
            }
        }
        assert forall|i: int, j: int| 0 <= j < i && s.len() <= i < u.len() implies (
        #[trigger] u[j]).id != (#[trigger] u[i]).id by {
            assert(u[j] == t[j]);
            if i < t.len() {
                assert(u[i] == t[i]);
            } else {
                assert(peer_ids(t)[j] == t[j].id);
            }
        }
        assert forall|i: int, j: int| s.len() <= i < j < u.len() implies first_at(
            ids,
            (#[trigger] u[i]).id,
        ) < first_at(ids, (#[trigger] u[j]).id) by {
            assert(u[i] == t[i]);
            crate::lists::first_at_of_push(front, last, u[i].id);
            crate::lists::first_at_of_push(front, last, u[j].id);
            first_at_is_first(front, u[i].id);
            if j < t.len() {
                assert(u[j] == t[j]);
            } else {
                if front.contains(last) {
                    let k = front.index_of(last);
                    assert(peer_ids(t).contains(front[k]));
                }
            }
        }
    }
}

proof fn lemma_added_bindings(s: Seq<BindingSpec>, proto: Proto, maps: Seq<PortMap>)
    ensures
        ({
            let u = with_bindings(s, proto, maps);
            &&& forall|i: int|
                s.len() <= i < u.len() ==> (#[trigger] u[i]).enabled && u[i].name.len() == 0
                    && u[i].proto == proto && names_first(maps, u[i].local, u[i].remote)
            &&& forall|i: int, j: int|
                0 <= j < i && s.len() <= i < u.len() ==> (#[trigger] u[j]).proto != (
                #[trigger] u[i]).proto || u[j].local != u[i].local
        }),
    decreases maps.len(),
{
    if maps.len() > 0 {
        let front = maps.drop_last();
        lemma_added_bindings(s, proto, front);
        lemma_with_bindings_extends(s, proto, front);
        let t = with_bindings(s, proto, front);
        let u = with_bindings(s, proto, maps);
        assert forall|i: int| s.len() <= i < u.len() implies (#[trigger] u[i]).enabled
            && u[i].name.len() == 0 && u[i].proto == proto && names_first(
            maps,
            u[i].local,
            u[i].remote,
        ) by {
            if i < t.len() {
                assert(u[i] == t[i]);
                let a = choose|a: int|
                    0 <= a < front.len() && (#[trigger] front[a]).local == u[i].local
                        && front[a].remote == u[i].remote && forall|x: int|
                        0 <= x < a ==> (#[trigger] front[x]).local != u[i].local;
                assert(maps[a] == front[a]);
                assert forall|x: int| 0 <= x < a implies (#[trigger] maps[x]).local
                    != u[i].local by {
                    assert(maps[x] == front[x]);
                }
            } else {
                let a = maps.len() - 1;
                assert(maps[a].local == u[i].local);
                assert forall|x: int| 0 <= x < a implies (#[trigger] maps[x]).local
                    != u[i].local by {
                    assert(maps[x] == front[x]);
                    assert(binding_keys(t).contains((proto, front[x].local)));
                }
            }
        }
        assert forall|i: int, j: int| 0 <= j < i && s.len() <= i < u.len() implies (
        #[trigger] u[j]).proto != (#[trigger] u[i]).proto || u[j].local != u[i].local by {
            assert(u[j] == t[j]);
            if i < t.len() {
                assert(u[i] == t[i]);
            } else {
                assert(binding_keys(t)[j] == (t[j].proto, t[j].local));
            }
        }
    }
}

/// Whether the first mapping from a local port leads to a remote port.
pub open spec fn names_first(maps: Seq<PortMap>, local: u16, remote: u16) -> bool {
    exists|a: int|
        0 <= a < maps.len() && (#[trigger] maps[a]).local == local && maps[a].remote == remote
            && forall|x: int| 0 <= x < a ==> (#[trigger] maps[x]).local != local
}

/// Whatever was configured before, an entry that the serving side's flags add is one that
/// they name and that was not there, enabled and without a label; a peer has no offers
/// of its own, and nothing of the connecting side is touched.
pub proof fn flags_add_enabled_entries(
    c: ConfigSpec,
    allow: Seq<EndpointId>,
    tcp: Seq<u16>,
    udp: Seq<u16>,
)
    ensures
        ({
            let d = seeded(c, allow, tcp, udp);
            &&& d.bindings == c.bindings
            &&& forall|i: int|
                c.peers.len() <= i < d.peers.len() ==> (#[trigger] d.peers[i]).enabled
                    && d.peers[i].name.len() == 0 && d.peers[i].offers.len() == 0 && allow.contains(
                    d.peers[i].id,
                )
            &&& forall|i: int, j: int|
                0 <= j < i && c.peers.len() <= i < d.peers.len() ==> (#[trigger] d.peers[j]).id != (
                #[trigger] d.peers[i]).id
            &&& forall|i: int, j: int|
                c.peers.len() <= i < j < d.peers.len() ==> first_at(allow, (#[trigger] d.peers[i]).id)
                    < first_at(allow, (#[trigger] d.peers[j]).id)
            &&& forall|i: int|
                c.shared.len() <= i < d.shared.len() ==> (#[trigger] d.shared[i]).enabled
                    && d.shared[i].name.len() == 0 && (match d.shared[i].proto {
                    Proto::Tcp => tcp.contains(d.shared[i].port),
                    Proto::Udp => udp.contains(d.shared[i].port),
                })
            &&& forall|i: int, j: int|
                0 <= j < i && c.shared.len() <= i < d.shared.len() ==> (#[trigger] d.shared[j]).proto
                    != (#[trigger] d.shared[i]).proto || d.shared[j].port != d.shared[i].port
        }),
{
    let t = with_offers(c.shared, Proto::Tcp, tcp);
    let d = seeded(c, allow, tcp, udp);
    lemma_added_offers(c.shared, Proto::Tcp, tcp);
    lemma_added_offers(t, Proto::Udp, udp);
    lemma_with_offers_extends(c.shared, Proto::Tcp, tcp);
    lemma_with_offers_extends(t, Proto::Udp, udp);
    lemma_added_peers(c.peers, allow);
    assert forall|i: int| c.shared.len() <= i < d.shared.len() implies (
    #[trigger] d.shared[i]).enabled && d.shared[i].name.len() == 0 && (match d.shared[i].proto {
        Proto::Tcp => tcp.contains(d.shared[i].port),
        Proto::Udp => udp.contains(d.shared[i].port),
    }) by {
        if i < t.len() {
            assert(d.shared[i] == t[i]);
        }
    }
    assert forall|i: int, j: int| 0 <= j < i && c.shared.len() <= i < d.shared.len() implies (
    #[trigger] d.shared[j]).proto != (#[trigger] d.shared[i]).proto || d.shared[j].port
        != d.shared[i].port by {
        if i < t.len() {
            assert(d.shared[i] == t[i] && d.shared[j] == t[j]);
        }
    }
}

/// Whatever was configured before, a binding that the connecting side's flags add leads
/// from a local port that no binding before it claims to the remote port that is first
/// named for it, enabled and without a label; every mapping that is named is listed, and
/// nothing of the serving side is touched.
pub proof fn flags_add_enabled_bindings(c: ConfigSpec, tcp: Seq<PortMap>, udp: Seq<PortMap>)
    ensures
        ({
            let d = seeded_bindings(c, tcp, udp);
            &&& d.shared == c.shared
            &&& d.peers == c.peers
            &&& forall|i: int|
                c.bindings.len() <= i < d.bindings.len() ==> (#[trigger] d.bindings[i]).enabled
                    && d.bindings[i].name.len() == 0 && (match d.bindings[i].proto {
                    Proto::Tcp => names_first(tcp, d.bindings[i].local, d.bindings[i].remote),
                    Proto::Udp => names_first(udp, d.bindings[i].local, d.bindings[i].remote),
                })
            &&& forall|i: int, j: int|
                0 <= j < i && c.bindings.len() <= i < d.bindings.len() ==> (
                #[trigger] d.bindings[j]).proto != (#[trigger] d.bindings[i]).proto
                    || d.bindings[j].local != d.bindings[i].local
            &&& forall|k: int|
                0 <= k < tcp.len() ==> binding_keys(d.bindings).contains(
                    (Proto::Tcp, (#[trigger] tcp[k]).local),
                )
            &&& forall|k: int|
                0 <= k < udp.len() ==> binding_keys(d.bindings).contains(
                    (Proto::Udp, (#[trigger] udp[k]).local),
                )
        }),
{
    let t = with_bindings(c.bindings, Proto::Tcp, tcp);
    let d = seeded_bindings(c, tcp, udp);
    lemma_added_bindings(c.bindings, Proto::Tcp, tcp);
    lemma_added_bindings(t, Proto::Udp, udp);
    lemma_with_bindings_extends(c.bindings, Proto::Tcp, tcp);
    lemma_with_bindings_extends(t, Proto::Udp, udp);
    assert forall|i: int| c.bindings.len() <= i < d.bindings.len() implies (
    #[trigger] d.bindings[i]).enabled && d.bindings[i].name.len() == 0 && (match d.bindings[i].proto {
        Proto::Tcp => names_first(tcp, d.bindings[i].local, d.bindings[i].remote),
        Proto::Udp => names_first(udp, d.bindings[i].local, d.bindings[i].remote),
    }) by {
        if i < t.len() {
            assert(d.bindings[i] == t[i]);
        }
    }
    assert forall|i: int, j: int| 0 <= j < i && c.bindings.len() <= i < d.bindings.len() implies (
    #[trigger] d.bindings[j]).proto != (#[trigger] d.bindings[i]).proto || d.bindings[j].local
        != d.bindings[i].local by {
        if i < t.len() {
            assert(d.bindings[i] == t[i] && d.bindings[j] == t[j]);
        }
    }
    assert forall|k: int| 0 <= k < tcp.len() implies binding_keys(d.bindings).contains(
        (Proto::Tcp, (#[trigger] tcp[k]).local),
    ) by {
        let x = binding_keys(t).index_of((Proto::Tcp, tcp[k].local));
        assert(binding_keys(d.bindings)[x] == (Proto::Tcp, tcp[k].local));
    }
}

/// Whatever was configured before, a peer that the flags allow and that was not listed is
/// admitted once they are applied, and reaches every port that they offer and that was
/// not listed; what a listed peer could reach it still can, and whether it is admitted
/// the flags do not change.
pub proof fn an_allowed_peer_is_admitted(
    c: ConfigSpec,
    allow: Seq<EndpointId>,
    tcp: Seq<u16>,
    udp: Seq<u16>,
    id: EndpointId,
    proto: Proto,
    port: u16,
)
    ensures
        ({
            let d = seeded(c, allow, tcp, udp);
            let listed = exists|i: int| 0 <= i < c.peers.len() && (#[trigger] c.peers[i]).id == id;
            let offered = exists|i: int|
                0 <= i < c.shared.len() && (#[trigger] c.shared[i]).proto == proto
                    && c.shared[i].port == port;
            let flagged = match proto {
                Proto::Tcp => tcp.contains(port),
                Proto::Udp => udp.contains(port),
            };
            &&& config_admits(d, id) <==> config_admits(c, id) || !listed && allow.contains(id)
            &&& config_admits(d, id) && flagged && !offered ==> may_reach(d, id, proto, port)
            &&& may_reach(c, id, proto, port) ==> may_reach(d, id, proto, port)
            &&& may_reach(d, id, proto, port) && !flagged && listed ==> may_reach(
                c,
                id,
                proto,
                port,
            )
        }),
{
    let d = seeded(c, allow, tcp, udp);
    flags_add_enabled_entries(c, allow, tcp, udp);
    seeding_never_clobbers(c, allow, tcp, udp, seq![], seq![]);
    seeding_lists_what_was_flagged(c, allow, tcp, udp);
    crate::grants::the_entry_found_carries_the_id(c.peers, id);
    crate::grants::the_entry_found_carries_the_id(d.peers, id);
    let listed = exists|i: int| 0 <= i < c.peers.len() && (#[trigger] c.peers[i]).id == id;
    let flagged = match proto {
        Proto::Tcp => tcp.contains(port),
        Proto::Udp => udp.contains(port),
    };
    if listed {
        first_at_is_first(peer_ids(c.peers), id);
        let i = first_at(peer_ids(c.peers), id) as int;
        let x = choose|x: int| 0 <= x < c.peers.len() && (#[trigger] c.peers[x]).id == id;
        assert(peer_ids(c.peers)[x] == id);
        assert(i < c.peers.len());
        assert forall|j: int| 0 <= j < i implies peer_ids(d.peers)[j] != id by {
            assert(d.peers[j] == c.peers[j]);
            assert(peer_ids(c.peers)[j] != id);
        }
        assert(d.peers[i] == c.peers[i]);
        assert(peer_ids(d.peers)[i] == id);
        crate::lists::first_at_found(peer_ids(d.peers), id, i);
    } else if allow.contains(id) {
        let k = allow.index_of(id);
        assert(peer_ids(d.peers).contains(allow[k]));
        let x = peer_ids(d.peers).index_of(id);
        assert(d.peers[x].id == id);
    }
    if may_reach(c, id, proto, port) {
        crate::grants::only_offered_ports_are_reachable(c, id, proto, port);
        assert(listed);
        lemma_grants_extended(c.shared, d.shared, proto, port);
        lemma_reach_parts(c, id, proto, port);
    }
    lemma_reach_parts(d, id, proto, port);
    if config_admits(d, id) && flagged && !(exists|i: int|
        0 <= i < c.shared.len() && (#[trigger] c.shared[i]).proto == proto && c.shared[i].port
            == port) {
        let ports = match proto {
            Proto::Tcp => tcp,
            Proto::Udp => udp,
        };
        let k = ports.index_of(port);
        assert(ports[k] == port);
        assert(offer_keys(d.shared).contains((proto, ports[k])));
        let x = offer_keys(d.shared).index_of((proto, port));
        assert(offer_keys(d.shared)[x] == (d.shared[x].proto, d.shared[x].port));
        if x < c.shared.len() {
            assert(d.shared[x] == c.shared[x]);
        }
        assert(d.shared[x].enabled);
        assert(grants(d.shared, proto, port));
    }
    if may_reach(d, id, proto, port) && !flagged && listed {
        lemma_reach_parts(c, id, proto, port);
        if grants(d.shared, proto, port) {
            let x = choose|x: int|
                0 <= x < d.shared.len() && (#[trigger] d.shared[x]).enabled && d.shared[x].proto
                    == proto && d.shared[x].port == port;
            assert(x < c.shared.len());
            assert(d.shared[x] == c.shared[x]);
            assert(c.shared[x].enabled);
            assert(grants(c.shared, proto, port));
        }
    }
}

spec fn find_own(c: ConfigSpec, id: EndpointId) -> Seq<OfferSpec> {
    match crate::grants::find_peer(c.peers, id) {
        Some(p) => p.offers,
        None => seq![],
    }
}

proof fn lemma_reach_parts(c: ConfigSpec, id: EndpointId, proto: Proto, port: u16)
    ensures
        may_reach(c, id, proto, port) <==> config_admits(c, id) && (grants(c.shared, proto, port)
            || grants(find_own(c, id), proto, port)),
{
    if config_admits(c, id) {
        if may_reach(c, id, proto, port) {
            crate::grants::only_offered_ports_are_reachable(c, id, proto, port);
        }
        if grants(c.shared, proto, port) {
            crate::grants::shared_ports_reach_every_admitted_peer(c, id, proto, port);
        }
        let own = find_own(c, id);
        if grants(own, proto, port) {
            let k = choose|k: int|
                0 <= k < own.len() && (#[trigger] own[k]).enabled && own[k].proto == proto
                    && own[k].port == port;
            let all = c.shared + own;
            assert(all[c.shared.len() + k] == own[k]);
            assert(grants(all, proto, port));
        }
    }
}

proof fn lemma_grants_extended(s: Seq<OfferSpec>, t: Seq<OfferSpec>, proto: Proto, port: u16)
    requires
        extends(s, t),
    ensures
        grants(s, proto, port) ==> grants(t, proto, port),
{
    if grants(s, proto, port) {
        let k = choose|k: int|
            0 <= k < s.len() && (#[trigger] s[k]).enabled && s[k].proto == proto && s[k].port
                == port;
        assert(t[k] == s[k]);
    }
}

} // verus!
