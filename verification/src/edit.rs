//! The edits that the admin surface makes to a configuration.
use crate::config::{
    binding_keys, bindings_view, offer_keys, offers_view, peer_ids, peers_view, Binding,
    BindingSpec, Config, ConfigSpec, Offer, OfferSpec, Peer, PeerSpec, Proto,
};
use crate::endpoint::EndpointId;
use crate::error::Fault;
use crate::grants::{find_peer, peer_index};
use crate::lists::{first_at, first_at_absent, first_at_found};
use crate::state::opt_text;
use vstd::prelude::*;

verus! {

/// What an edit makes of a configuration: another one, or a complaint.
pub type Edited = Result<ConfigSpec, Fault>;

/// Whether a configuration was edited as it should be; an edit that is turned away
/// leaves it as it was.
pub open spec fn carried_out(
    before: ConfigSpec,
    after: ConfigSpec,
    edited: Edited,
    r: Result<(), Fault>,
) -> bool {
    match edited {
        Ok(next) => r is Ok && after == next,
        Err(f) => r == Err::<(), Fault>(f) && after == before,
    }
}

/// A text, or another one where that is given.
pub open spec fn or_text(given: Option<Seq<char>>, text: Seq<char>) -> Seq<char> {
    match given {
        Some(t) => t,
        None => text,
    }
}

/// A value, or another one where that is given.
pub open spec fn or_value<T>(given: Option<T>, value: T) -> T {
    match given {
        Some(v) => v,
        None => value,
    }
}

fn or_kept(given: Option<String>, kept: String) -> (r: String)
    ensures
        r@ == or_text(opt_text(given), kept@),
{
    match given {
        Some(s) => s,
        None => kept,
    }
}

fn or_else<T>(given: Option<T>, kept: T) -> (r: T)
    ensures
        r == or_value(given, kept),
{
    match given {
        Some(v) => v,
        None => kept,
    }
}

/// What the entries of a list say.
pub(crate) open spec fn views<T: View>(s: Seq<T>) -> Seq<T::V> {
    s.map_values(|t: T| t@)
}

/// Drops the entries of a list for which `keep` does not hold.
fn retain<T: View, F: Fn(&T) -> bool>(list: &mut Vec<T>, keep: F, p: Ghost<spec_fn(T::V) -> bool>)
    requires
        forall|t: &T| #[trigger] call_requires(keep, (t,)),
        forall|t: &T, r: bool| #[trigger] call_ensures(keep, (t,), r) ==> r == p@(t@),
    ensures
        views(final(list)@) == views(old(list)@).filter(p@),
{
    let ghost all = views(list@);
    let ghost mut n: int = 0;
    let mut i: usize = 0;
    reveal(Seq::filter);
    assert(all.take(0).filter(p@) =~= Seq::empty());
    assert(views(list@) =~= Seq::<T::V>::empty() + all.skip(0));
    while i < list.len()
        invariant
            0 <= n <= all.len(),
            i == all.take(n).filter(p@).len(),
            views(list@) == all.take(n).filter(p@) + all.skip(n),
            forall|t: &T| #[trigger] call_requires(keep, (t,)),
            forall|t: &T, r: bool| #[trigger] call_ensures(keep, (t,), r) ==> r == p@(t@),
        decreases all.len() - n,
    {
        reveal(Seq::filter);
        let ghost done = all.take(n).filter(p@);
        proof {
            assert(views(list@).len() == list@.len());
            assert(views(list@)[i as int] == all[n]);
            assert(views(list@)[i as int] == list@[i as int]@);
            assert(all.take(n + 1).drop_last() =~= all.take(n));
        }
        let ghost was = list@;
        if keep(&list[i]) {
            i += 1;
            assert(views(list@) =~= done.push(all[n]) + all.skip(n + 1));
        } else {
            list.remove(i);
            assert(views(list@) =~= views(was).remove(i as int));
            assert(views(list@) =~= done + all.skip(n + 1));
        }
        proof {
            n = n + 1;
        }
    }
    proof {
        assert(views(list@).len() == list@.len());
        assert(n == all.len());
        assert(all.take(n) =~= all);
        assert(views(list@) =~= all.filter(p@));
    }
}

// ---------------------------------------------------------------- peers

/// Adding a peer: it goes to the end of the list, admitted and with no offers of its
/// own. One that is listed is turned away.
pub open spec fn peer_added(c: ConfigSpec, id: EndpointId, name: Seq<char>) -> Edited {
    if find_peer(c.peers, id) is Some {
        Err(Fault::PeerListed(id))
    } else {
        Ok(
            ConfigSpec {
                peers: c.peers.push(PeerSpec { id, name, enabled: true, offers: seq![] }),
                ..c
            },
        )
    }
}

/// Changing what is given of a peer: its name, whether it is admitted.
pub open spec fn peer_patched(
    c: ConfigSpec,
    id: EndpointId,
    name: Option<Seq<char>>,
    enabled: Option<bool>,
) -> Edited {
    match find_peer(c.peers, id) {
        None => Err(Fault::PeerNotListed(id)),
        Some(p) => Ok(
            ConfigSpec {
                peers: c.peers.update(
                    first_at(peer_ids(c.peers), id) as int,
                    PeerSpec {
                        name: or_text(name, p.name),
                        enabled: or_value(enabled, p.enabled),
                        ..p
                    },
                ),
                ..c
            },
        ),
    }
}

/// Removing a peer, with the offers that were its own.
pub open spec fn peer_deleted(c: ConfigSpec, id: EndpointId) -> Edited {
    if find_peer(c.peers, id) is None {
        Err(Fault::PeerNotListed(id))
    } else {
        Ok(ConfigSpec { peers: c.peers.filter(|p: PeerSpec| p.id != id), ..c })
    }
}

// ---------------------------------------------------------------- offers

/// Which list of offers is meant: the shared one, or that of one peer.
pub open spec fn offers_at(c: ConfigSpec, scope: Option<EndpointId>) -> Result<
    Seq<OfferSpec>,
    Fault,
> {
    match scope {
        None => Ok(c.shared),
        Some(id) => match find_peer(c.peers, id) {
            Some(p) => Ok(p.offers),
            None => Err(Fault::PeerNotListed(id)),
        },
    }
}

/// The configuration with another list of offers in that place.
pub open spec fn with_offers_at(
    c: ConfigSpec,
    scope: Option<EndpointId>,
    offers: Seq<OfferSpec>,
) -> ConfigSpec {
    match scope {
        None => ConfigSpec { shared: offers, ..c },
        Some(id) => {
            let i = first_at(peer_ids(c.peers), id) as int;
            ConfigSpec { peers: c.peers.update(i, PeerSpec { offers, ..c.peers[i] }), ..c }
        },
    }
}

/// An edit to one list of offers. The shared list and that of a peer are edited in
/// the same way, so that the two cannot drift apart.
pub open spec fn on_offers(
    c: ConfigSpec,
    scope: Option<EndpointId>,
    edit: spec_fn(Seq<OfferSpec>) -> Result<Seq<OfferSpec>, Fault>,
) -> Edited {
    match offers_at(c, scope) {
        Err(f) => Err(f),
        Ok(list) => match edit(list) {
            Err(f) => Err(f),
            Ok(next) => Ok(with_offers_at(c, scope, next)),
        },
    }
}

/// Adding an offer to a list: it goes to the end, enabled.
pub open spec fn offer_listed(s: Seq<OfferSpec>, proto: Proto, port: u16, name: Seq<char>) -> Result<
    Seq<OfferSpec>,
    Fault,
> {
    if offer_keys(s).contains((proto, port)) {
        Err(Fault::PortOffered(proto, port))
    } else {
        Ok(s.push(OfferSpec { proto, port, name, enabled: true }))
    }
}

/// Changing what is given of an offer: its name, whether it is enabled.
pub open spec fn offer_changed(
    s: Seq<OfferSpec>,
    proto: Proto,
    port: u16,
    name: Option<Seq<char>>,
    enabled: Option<bool>,
) -> Result<Seq<OfferSpec>, Fault> {
    let i = first_at(offer_keys(s), (proto, port)) as int;
    if i >= s.len() {
        Err(Fault::PortNotOffered(proto, port))
    } else {
        Ok(
            s.update(
                i,
                OfferSpec {
                    name: or_text(name, s[i].name),
                    enabled: or_value(enabled, s[i].enabled),
                    ..s[i]
                },
            ),
        )
    }
}

/// Withdrawing an offer from a list.
pub open spec fn offer_withdrawn(s: Seq<OfferSpec>, proto: Proto, port: u16) -> Result<
    Seq<OfferSpec>,
    Fault,
> {
    if !offer_keys(s).contains((proto, port)) {
        Err(Fault::PortNotOffered(proto, port))
    } else {
        Ok(s.filter(|o: OfferSpec| !(o.proto == proto && o.port == port)))
    }
}

pub open spec fn offer_added(
    c: ConfigSpec,
    scope: Option<EndpointId>,
    proto: Proto,
    port: u16,
    name: Seq<char>,
) -> Edited {
    on_offers(c, scope, |s: Seq<OfferSpec>| offer_listed(s, proto, port, name))
}

pub open spec fn offer_patched(
    c: ConfigSpec,
    scope: Option<EndpointId>,
    proto: Proto,
    port: u16,
    name: Option<Seq<char>>,
    enabled: Option<bool>,
) -> Edited {
    on_offers(c, scope, |s: Seq<OfferSpec>| offer_changed(s, proto, port, name, enabled))
}

pub open spec fn offer_deleted(
    c: ConfigSpec,
    scope: Option<EndpointId>,
    proto: Proto,
    port: u16,
) -> Edited {
    on_offers(c, scope, |s: Seq<OfferSpec>| offer_withdrawn(s, proto, port))
}

// ---------------------------------------------------------------- bindings

/// Adding a binding: it goes to the end of the list, enabled.
pub open spec fn binding_added(
    c: ConfigSpec,
    proto: Proto,
    local: u16,
    remote: u16,
    name: Seq<char>,
) -> Edited {
    if binding_keys(c.bindings).contains((proto, local)) {
        Err(Fault::LocalBound(proto, local))
    } else {
        Ok(
            ConfigSpec {
                bindings: c.bindings.push(
                    BindingSpec { proto, local, remote, name, enabled: true },
                ),
                ..c
            },
        )
    }
}

/// Changing what is given of a binding: its remote port, its name, whether it is
/// enabled.
pub open spec fn binding_patched(
    c: ConfigSpec,
    proto: Proto,
    local: u16,
    remote: Option<u16>,
    name: Option<Seq<char>>,
    enabled: Option<bool>,
) -> Edited {
    let i = first_at(binding_keys(c.bindings), (proto, local)) as int;
    if i >= c.bindings.len() {
        Err(Fault::LocalNotBound(proto, local))
    } else {
        let b = c.bindings[i];
        Ok(
            ConfigSpec {
                bindings: c.bindings.update(
                    i,
                    BindingSpec {
                        remote: or_value(remote, b.remote),
                        name: or_text(name, b.name),
                        enabled: or_value(enabled, b.enabled),
                        ..b
                    },
                ),
                ..c
            },
        )
    }
}

/// Removing a binding.
pub open spec fn binding_deleted(c: ConfigSpec, proto: Proto, local: u16) -> Edited {
    if !binding_keys(c.bindings).contains((proto, local)) {
        Err(Fault::LocalNotBound(proto, local))
    } else {
        Ok(
            ConfigSpec {
                bindings: c.bindings.filter(
                    |b: BindingSpec| !(b.proto == proto && b.local == local),
                ),
                ..c
            },
        )
    }
}

// ---------------------------------------------------------------- edits

fn offer_index(list: &Vec<Offer>, proto: Proto, port: u16) -> (i: usize)
    ensures
        i == first_at(offer_keys(offers_view(list@)), (proto, port)),
        i <= list@.len(),
        i < list@.len() <==> offer_keys(offers_view(list@)).contains((proto, port)),
{
    let ghost keys = offer_keys(offers_view(list@));
    let mut i: usize = 0;
    while i < list.len()
        invariant
            i <= list@.len(),
            keys == offer_keys(offers_view(list@)),
            forall|j: int| 0 <= j < i ==> keys[j] != (proto, port),
        decreases list@.len() - i,
    {
        assert(keys[i as int] == (list[i as int].proto, list[i as int].port));
        if list[i].proto == proto && list[i].port == port {
            proof {
                assert(keys[i as int] == (proto, port));
                first_at_found(keys, (proto, port), i as int);
            }
            return i;
        }
        i += 1;
    }
    proof {
        first_at_absent(keys, (proto, port));
    }
    i
}

fn binding_index(list: &Vec<Binding>, proto: Proto, local: u16) -> (i: usize)
    ensures
        i == first_at(binding_keys(bindings_view(list@)), (proto, local)),
        i <= list@.len(),
        i < list@.len() <==> binding_keys(bindings_view(list@)).contains((proto, local)),
{
    let ghost keys = binding_keys(bindings_view(list@));
    let mut i: usize = 0;
    while i < list.len()
        invariant
            i <= list@.len(),
            keys == binding_keys(bindings_view(list@)),
            forall|j: int| 0 <= j < i ==> keys[j] != (proto, local),
        decreases list@.len() - i,
    {
        assert(keys[i as int] == (list[i as int].proto, list[i as int].local));
        if list[i].proto == proto && list[i].local == local {
            proof {
                assert(keys[i as int] == (proto, local));
                first_at_found(keys, (proto, local), i as int);
            }
            return i;
        }
        i += 1;
    }
    proof {
        first_at_absent(keys, (proto, local));
    }
    i
}

/// Whether a list of offers was edited as it should be.
spec fn listed_as(
    before: Seq<OfferSpec>,
    after: Seq<OfferSpec>,
    edited: Result<Seq<OfferSpec>, Fault>,
    r: Result<(), Fault>,
) -> bool {
    match edited {
        Ok(next) => r is Ok && after == next,
        Err(f) => r == Err::<(), Fault>(f) && after == before,
    }
}

fn list_offer(list: &mut Vec<Offer>, proto: Proto, port: u16, name: String) -> (r: Result<
    (),
    Fault,
>)
    ensures
        listed_as(
            offers_view(old(list)@),
            offers_view(final(list)@),
            offer_listed(offers_view(old(list)@), proto, port, name@),
            r,
        ),
{
    if offer_index(list, proto, port) < list.len() {
        return Err(Fault::PortOffered(proto, port));
    }
    let o: Offer = Offer { proto, port, name, enabled: true };
    list.push(o);
    assert(offers_view(list@) =~= offers_view(old(list)@).push(o@));
    Ok(())
}

fn change_offer(
    list: &mut Vec<Offer>,
    proto: Proto,
    port: u16,
    name: Option<String>,
    enabled: Option<bool>,
) -> (r: Result<(), Fault>)
    ensures
        listed_as(
            offers_view(old(list)@),
            offers_view(final(list)@),
            offer_changed(offers_view(old(list)@), proto, port, opt_text(name), enabled),
            r,
        ),
{
    let i: usize = offer_index(list, proto, port);
    if i >= list.len() {
        return Err(Fault::PortNotOffered(proto, port));
    }
    let ghost was = offers_view(list@);
    let o: Offer = list.remove(i);
    assert(was[i as int] == o@);
    let o: Offer = Offer {
        proto: o.proto,
        port: o.port,
        name: or_kept(name, o.name),
        enabled: or_else(enabled, o.enabled),
    };
    list.insert(i, o);
    assert(offers_view(list@) =~= was.update(i as int, o@));
    Ok(())
}

fn withdraw_offer(list: &mut Vec<Offer>, proto: Proto, port: u16) -> (r: Result<(), Fault>)
    ensures
        listed_as(
            offers_view(old(list)@),
            offers_view(final(list)@),
            offer_withdrawn(offers_view(old(list)@), proto, port),
            r,
        ),
{
    if offer_index(list, proto, port) >= list.len() {
        return Err(Fault::PortNotOffered(proto, port));
    }
    let ghost keep = |o: OfferSpec| !(o.proto == proto && o.port == port);
    let other = |o: &Offer| -> (r: bool)
        ensures
            r == !(o.proto == proto && o.port == port),
    {
        let same: bool = o.proto == proto && o.port == port;
        !same
    };
    retain(list, other, Ghost(keep));
    assert(views(old(list)@) =~= offers_view(old(list)@));
    assert(views(list@) =~= offers_view(list@));
    Ok(())
}

impl Config {
    pub fn add_peer(&mut self, id: EndpointId, name: String) -> (r: Result<(), Fault>)
        ensures
            carried_out(old(self)@, final(self)@, peer_added(old(self)@, id, name@), r),
    {
        if peer_index(&self.serve.peers, &id) < self.serve.peers.len() {
            return Err(Fault::PeerListed(id));
        }
        let p: Peer = Peer { id, name, enabled: true, offers: Vec::new() };
        assert(p@.offers =~= Seq::<OfferSpec>::empty());
        self.serve.peers.push(p);
        assert(self@.peers =~= old(self)@.peers.push(p@));
        Ok(())
    }

    pub fn patch_peer(&mut self, id: EndpointId, name: Option<String>, enabled: Option<bool>) -> (r:
        Result<(), Fault>)
        ensures
            carried_out(
                old(self)@,
                final(self)@,
                peer_patched(old(self)@, id, opt_text(name), enabled),
                r,
            ),
    {
        let i: usize = peer_index(&self.serve.peers, &id);
        if i >= self.serve.peers.len() {
            return Err(Fault::PeerNotListed(id));
        }
        let p: Peer = self.serve.peers.remove(i);
        assert(old(self)@.peers[i as int] == p@);
        let p: Peer = Peer {
            id: p.id,
            name: or_kept(name, p.name),
            enabled: or_else(enabled, p.enabled),
            offers: p.offers,
        };
        self.serve.peers.insert(i, p);
        assert(self@.peers =~= old(self)@.peers.update(i as int, p@));
        Ok(())
    }

    pub fn del_peer(&mut self, id: EndpointId) -> (r: Result<(), Fault>)
        ensures
            carried_out(old(self)@, final(self)@, peer_deleted(old(self)@, id), r),
    {
        if peer_index(&self.serve.peers, &id) >= self.serve.peers.len() {
            return Err(Fault::PeerNotListed(id));
        }
        let ghost keep = |p: PeerSpec| p.id != id;
        let other = |p: &Peer| -> (r: bool)
            ensures
                r == (p.id != id),
        {
            let same: bool = p.id == id;
            !same
        };
        let ghost was = self.serve.peers@;
        retain(&mut self.serve.peers, other, Ghost(keep));
        assert(views(was) =~= peers_view(was));
        assert(views(self.serve.peers@) =~= peers_view(self.serve.peers@));
        Ok(())
    }

    pub fn add_offer(
        &mut self,
        scope: Option<EndpointId>,
        proto: Proto,
        port: u16,
        name: String,
    ) -> (r: Result<(), Fault>)
        ensures
            carried_out(
                old(self)@,
                final(self)@,
                offer_added(old(self)@, scope, proto, port, name@),
                r,
            ),
    {
        match scope {
            None => list_offer(&mut self.serve.shared, proto, port, name),
            Some(id) => {
                let i: usize = peer_index(&self.serve.peers, &id);
                if i >= self.serve.peers.len() {
                    return Err(Fault::PeerNotListed(id));
                }
                let mut p: Peer = self.serve.peers.remove(i);
                let ghost was = p@;
                assert(old(self)@.peers[i as int] == was);
                let r: Result<(), Fault> = list_offer(&mut p.offers, proto, port, name);
                let ghost now = p@;
                self.serve.peers.insert(i, p);
                assert(self@.peers =~= old(self)@.peers.update(i as int, now));
                assert(old(self)@.peers.update(i as int, was) =~= old(self)@.peers);
                r
            },
        }
    }

    pub fn patch_offer(
        &mut self,
        scope: Option<EndpointId>,
        proto: Proto,
        port: u16,
        name: Option<String>,
        enabled: Option<bool>,
    ) -> (r: Result<(), Fault>)
        ensures
            carried_out(
                old(self)@,
                final(self)@,
                offer_patched(old(self)@, scope, proto, port, opt_text(name), enabled),
                r,
            ),
    {
        match scope {
            None => change_offer(&mut self.serve.shared, proto, port, name, enabled),
            Some(id) => {
                let i: usize = peer_index(&self.serve.peers, &id);
                if i >= self.serve.peers.len() {
                    return Err(Fault::PeerNotListed(id));
                }
                let mut p: Peer = self.serve.peers.remove(i);
                let ghost was = p@;
                assert(old(self)@.peers[i as int] == was);
                let r: Result<(), Fault> = change_offer(&mut p.offers, proto, port, name, enabled);
                let ghost now = p@;
                self.serve.peers.insert(i, p);
                assert(self@.peers =~= old(self)@.peers.update(i as int, now));
                assert(old(self)@.peers.update(i as int, was) =~= old(self)@.peers);
                r
            },
        }
    }

    pub fn del_offer(&mut self, scope: Option<EndpointId>, proto: Proto, port: u16) -> (r: Result<
        (),
        Fault,
    >)
        ensures
            carried_out(old(self)@, final(self)@, offer_deleted(old(self)@, scope, proto, port), r),
    {
        match scope {
            None => withdraw_offer(&mut self.serve.shared, proto, port),
            Some(id) => {
                let i: usize = peer_index(&self.serve.peers, &id);
                if i >= self.serve.peers.len() {
                    return Err(Fault::PeerNotListed(id));
                }
                let mut p: Peer = self.serve.peers.remove(i);
                let ghost was = p@;
                assert(old(self)@.peers[i as int] == was);
                let r: Result<(), Fault> = withdraw_offer(&mut p.offers, proto, port);
                let ghost now = p@;
                self.serve.peers.insert(i, p);
                assert(self@.peers =~= old(self)@.peers.update(i as int, now));
                assert(old(self)@.peers.update(i as int, was) =~= old(self)@.peers);
                r
            },
        }
    }

    pub fn add_binding(&mut self, proto: Proto, local: u16, remote: u16, name: String) -> (r:
        Result<(), Fault>)
        ensures
            carried_out(
                old(self)@,
                final(self)@,
                binding_added(old(self)@, proto, local, remote, name@),
                r,
            ),
    {
        if binding_index(&self.connect.bindings, proto, local) < self.connect.bindings.len() {
            return Err(Fault::LocalBound(proto, local));
        }
        let b: Binding = Binding { proto, local, remote, name, enabled: true };
        self.connect.bindings.push(b);
        assert(self@.bindings =~= old(self)@.bindings.push(b@));
        Ok(())
    }

    pub fn patch_binding(
        &mut self,
        proto: Proto,
        local: u16,
        remote: Option<u16>,
        name: Option<String>,
        enabled: Option<bool>,
    ) -> (r: Result<(), Fault>)
        ensures
            carried_out(
                old(self)@,
                final(self)@,
                binding_patched(old(self)@, proto, local, remote, opt_text(name), enabled),
                r,
            ),
    {
        let i: usize = binding_index(&self.connect.bindings, proto, local);
        if i >= self.connect.bindings.len() {
            return Err(Fault::LocalNotBound(proto, local));
        }
        let b: Binding = self.connect.bindings.remove(i);
        assert(old(self)@.bindings[i as int] == b@);
        let b: Binding = Binding {
            proto: b.proto,
            local: b.local,
            remote: or_else(remote, b.remote),
            name: or_kept(name, b.name),
            enabled: or_else(enabled, b.enabled),
        };
        self.connect.bindings.insert(i, b);
        assert(self@.bindings =~= old(self)@.bindings.update(i as int, b@));
        Ok(())
    }

    pub fn del_binding(&mut self, proto: Proto, local: u16) -> (r: Result<(), Fault>)
        ensures
            carried_out(old(self)@, final(self)@, binding_deleted(old(self)@, proto, local), r),
    {
        if binding_index(&self.connect.bindings, proto, local) >= self.connect.bindings.len() {
            return Err(Fault::LocalNotBound(proto, local));
        }
        let ghost keep = |b: BindingSpec| !(b.proto == proto && b.local == local);
        let other = |b: &Binding| -> (r: bool)
            ensures
                r == !(b.proto == proto && b.local == local),
        {
            let same: bool = b.proto == proto && b.local == local;
            !same
        };
        let ghost was = self.connect.bindings@;
        retain(&mut self.connect.bindings, other, Ghost(keep));
        assert(views(was) =~= bindings_view(was));
        assert(views(self.connect.bindings@) =~= bindings_view(self.connect.bindings@));
        Ok(())
    }
}

// ---------------------------------------------------------------- laws

/// An edit that can be made is made, and said to be; one that cannot is refused with its
/// complaint and leaves everything as it was.
pub proof fn an_edit_is_made_or_refused(
    before: ConfigSpec,
    after: ConfigSpec,
    edited: Edited,
    r: Result<(), Fault>,
)
    requires
        carried_out(before, after, edited, r),
    ensures
        edited matches Ok(next) ==> r is Ok && after == next,
        edited matches Err(f) ==> after == before && (r matches Err(g) && g == f),
{
}

/// What is given takes the place of what was there; what is not given leaves it.
pub proof fn what_is_given_counts(text: Seq<char>, was: Seq<char>, value: bool, had: bool)
    ensures
        or_text(Some(text), was) == text,
        or_text(None, was) == was,
        or_value(Some(value), had) == value,
        or_value(None, had) == had,
{
}

} // verus!
