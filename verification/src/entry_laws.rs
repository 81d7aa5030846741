//! What each edit of the admin surface does to the entries of a configuration, field by
//! field, and what edits made one after the other come to.
use crate::config::{
    binding_keys, config_valid, offer_keys, peer_ids, BindingSpec, ConfigSpec, OfferSpec,
    PeerSpec, Proto,
};
use crate::edit::{
    binding_added, binding_deleted, binding_patched, offer_added, offer_deleted, offer_patched,
    peer_added, peer_deleted, peer_patched,
};
use crate::endpoint::EndpointId;
use crate::error::Fault;
use crate::grants::{
    config_admits, find_peer, grants, may_reach, reach_follows_the_entries,
    the_entry_found_carries_the_id,
};
use crate::lists::{filter_of_all, first_at, first_at_absent, first_at_found};
use vstd::prelude::*;

verus! {

// ---------------------------------------------------------------- peers

/// Whether the entry at `i` is the first that carries an id.
pub open spec fn peer_is_at(peers: Seq<PeerSpec>, i: int, id: EndpointId) -> bool {
    &&& 0 <= i < peers.len()
    &&& peers[i].id == id
    &&& forall|j: int| 0 <= j < i ==> (#[trigger] peers[j]).id != id
}

/// Whether no entry carries an id.
pub open spec fn peer_is_absent(peers: Seq<PeerSpec>, id: EndpointId) -> bool {
    forall|j: int| 0 <= j < peers.len() ==> (#[trigger] peers[j]).id != id
}

proof fn lemma_peer_at(peers: Seq<PeerSpec>, i: int, id: EndpointId)
    requires
        peer_is_at(peers, i, id),
    ensures
        first_at(peer_ids(peers), id) == i,
        find_peer(peers, id) == Some(peers[i]),
{
    assert forall|j: int| 0 <= j < i implies peer_ids(peers)[j] != id by {
        assert(peers[j].id != id);
    }
    assert(peer_ids(peers)[i] == id);
    first_at_found(peer_ids(peers), id, i);
}

proof fn lemma_peer_absent(peers: Seq<PeerSpec>, id: EndpointId)
    requires
        peer_is_absent(peers, id),
    ensures
        find_peer(peers, id) is None,
{
    assert forall|j: int| 0 <= j < peers.len() implies peer_ids(peers)[j] != id by {
        assert(peers[j].id != id);
    }
    first_at_absent(peer_ids(peers), id);
}

/// A peer that is added stands at the end of the list, under its id and its name,
/// enabled and with no offers of its own; everything else is as it was. One that is
/// listed is not added.
pub proof fn adding_a_peer_appends_it(c: ConfigSpec, id: EndpointId, name: Seq<char>)
    ensures
        !peer_is_absent(c.peers, id) ==> peer_added(c, id, name) == Err::<ConfigSpec, Fault>(
            Fault::PeerListed(id),
        ),
        peer_is_absent(c.peers, id) ==> (peer_added(c, id, name) matches Ok(d) && {
            &&& d.shared == c.shared
            &&& d.bindings == c.bindings
            &&& d.peers.len() == c.peers.len() + 1
            &&& forall|j: int| 0 <= j < c.peers.len() ==> d.peers[j] == c.peers[j]
            &&& d.peers.last().id == id
            &&& d.peers.last().name == name
            &&& d.peers.last().enabled
            &&& d.peers.last().offers.len() == 0
        }),
{
    the_entry_found_carries_the_id(c.peers, id);
}

/// Changing a peer changes what is given of it and nothing else: its id and its offers
/// stay, its name and whether it is enabled become what is given, or stay. Nobody else's
/// entry changes. One that is not listed is not changed.
pub proof fn changing_a_peer_changes_what_is_given(
    c: ConfigSpec,
    i: int,
    id: EndpointId,
    name: Option<Seq<char>>,
    enabled: Option<bool>,
)
    ensures
        peer_is_absent(c.peers, id) ==> peer_patched(c, id, name, enabled) == Err::<
            ConfigSpec,
            Fault,
        >(Fault::PeerNotListed(id)),
        peer_is_at(c.peers, i, id) ==> (peer_patched(c, id, name, enabled) matches Ok(d) && {
            &&& d.shared == c.shared
            &&& d.bindings == c.bindings
            &&& d.peers.len() == c.peers.len()
            &&& forall|j: int| 0 <= j < c.peers.len() && j != i ==> d.peers[j] == c.peers[j]
            &&& d.peers[i].id == id
            &&& d.peers[i].offers == c.peers[i].offers
            &&& name matches Some(t) ==> d.peers[i].name == t
            &&& name is None ==> d.peers[i].name == c.peers[i].name
            &&& enabled matches Some(e) ==> d.peers[i].enabled == e
            &&& enabled is None ==> d.peers[i].enabled == c.peers[i].enabled
        }),
{
    if peer_is_absent(c.peers, id) {
        lemma_peer_absent(c.peers, id);
    }
    if peer_is_at(c.peers, i, id) {
        lemma_peer_at(c.peers, i, id);
    }
}

/// Removing a peer leaves every entry but those that carry its id, and from an
/// acceptable configuration takes exactly the one that does. One that is not listed is
/// not removed.
pub proof fn removing_a_peer_takes_its_entry(c: ConfigSpec, i: int, id: EndpointId)
    ensures
        peer_is_absent(c.peers, id) ==> peer_deleted(c, id) == Err::<ConfigSpec, Fault>(
            Fault::PeerNotListed(id),
        ),
        peer_is_at(c.peers, i, id) ==> (peer_deleted(c, id) matches Ok(d) && {
            &&& d.shared == c.shared
            &&& d.bindings == c.bindings
            &&& forall|p: PeerSpec| #[trigger]
                d.peers.contains(p) <==> c.peers.contains(p) && p.id != id
            &&& config_valid(c) ==> d.peers == c.peers.remove(i)
        }),
{
    let keep = |p: PeerSpec| p.id != id;
    if peer_is_absent(c.peers, id) {
        lemma_peer_absent(c.peers, id);
    }
    if peer_is_at(c.peers, i, id) {
        lemma_peer_at(c.peers, i, id);
        lemma_filter_membership(c.peers, keep);
        if config_valid(c) {
            assert forall|j: int| 0 <= j < c.peers.len() && j != i implies keep(
                #[trigger] c.peers[j],
            ) by {
                assert(peer_ids(c.peers)[j] != peer_ids(c.peers)[i]);
            }
            lemma_filter_of_all_but_one(c.peers, keep, i);
        }
    }
}

proof fn lemma_filter_membership<A>(s: Seq<A>, keep: spec_fn(A) -> bool)
    ensures
        forall|x: A| #[trigger] s.filter(keep).contains(x) <==> s.contains(x) && keep(x),
{
    assert forall|x: A| #[trigger] s.filter(keep).contains(x) <==> s.contains(x) && keep(x) by {
        if s.contains(x) && keep(x) {
            s.lemma_filter_contains(keep, s.index_of(x));
        }
        if s.filter(keep).contains(x) {
            s.lemma_filter_contains_rev(keep, x);
            let k = s.filter(keep).index_of(x);
            s.lemma_filter_pred(keep, k);
        }
    }
}

proof fn lemma_filter_of_all_but_one<A>(s: Seq<A>, keep: spec_fn(A) -> bool, i: int)
    requires
        0 <= i < s.len(),
        !keep(s[i]),
        forall|j: int| 0 <= j < s.len() && j != i ==> keep(#[trigger] s[j]),
    ensures
        s.filter(keep) == s.remove(i),
    decreases s.len(),
{
    let t = s.drop_last();
    let x = s.last();
    assert(s =~= t.push(x));
    crate::lists::filter_of_push(t, x, keep);
    if i == s.len() - 1 {
        assert forall|j: int| 0 <= j < t.len() implies keep(#[trigger] t[j]) by {
            assert(t[j] == s[j]);
        }
        filter_of_all(t, keep);
        assert(s.remove(i) =~= t);
    } else {
        assert(t[i] == s[i]);
        assert forall|j: int| 0 <= j < t.len() && j != i implies keep(#[trigger] t[j]) by {
            assert(t[j] == s[j]);
        }
        lemma_filter_of_all_but_one(t, keep, i);
        assert(keep(s[s.len() - 1]));
        assert(s.remove(i) =~= t.remove(i).push(x));
    }
}

/// Of two changes made to a peer, the later one counts, and the earlier one only for what
/// the later does not give; changing nothing changes nothing. So a peer that is parked
/// and restored is as it was.
pub proof fn the_later_change_to_a_peer_counts(
    c: ConfigSpec,
    i: int,
    id: EndpointId,
    name: Option<Seq<char>>,
    enabled: Option<bool>,
    first: bool,
    second: bool,
)
    requires
        peer_is_at(c.peers, i, id),
    ensures
        peer_patched(c, id, None, None) == Ok::<ConfigSpec, Fault>(c),
        ({
            let once = peer_patched(c, id, name, Some(first))->Ok_0;
            &&& peer_patched(once, id, None, Some(second)) == peer_patched(
                c,
                id,
                name,
                Some(second),
            )
            &&& peer_patched(once, id, None, None) == Ok::<ConfigSpec, Fault>(once)
            &&& peer_patched(once, id, name, enabled) == (if enabled is Some {
                peer_patched(c, id, name, enabled)
            } else {
                Ok(once)
            })
        }),
        c.peers[i].enabled ==> peer_patched(
            peer_patched(c, id, None, Some(false))->Ok_0,
            id,
            None,
            Some(true),
        ) == Ok::<ConfigSpec, Fault>(c),
{
    lemma_peer_at(c.peers, i, id);
    let once = peer_patched(c, id, name, Some(first))->Ok_0;
    assert(peer_is_at(once.peers, i, id)) by {
        assert forall|j: int| 0 <= j < i implies (#[trigger] once.peers[j]).id != id by {
            assert(once.peers[j] == c.peers[j]);
        }
    }
    lemma_peer_at(once.peers, i, id);
    let parked = peer_patched(c, id, None, Some(false))->Ok_0;
    assert(peer_is_at(parked.peers, i, id)) by {
        assert forall|j: int| 0 <= j < i implies (#[trigger] parked.peers[j]).id != id by {
            assert(parked.peers[j] == c.peers[j]);
        }
    }
    lemma_peer_at(parked.peers, i, id);
    let none = peer_patched(c, id, None, None)->Ok_0;
    assert(none.peers =~= c.peers);
    let a = peer_patched(once, id, None, Some(second))->Ok_0;
    let b = peer_patched(c, id, name, Some(second))->Ok_0;
    assert(a.peers =~= b.peers);
    let same = peer_patched(once, id, None, None)->Ok_0;
    assert(same.peers =~= once.peers);
    let e = peer_patched(once, id, name, enabled)->Ok_0;
    if enabled is Some {
        assert(e.peers =~= peer_patched(c, id, name, enabled)->Ok_0.peers);
    } else {
        assert(e.peers =~= once.peers);
    }
    if c.peers[i].enabled {
        let back = peer_patched(parked, id, None, Some(true))->Ok_0;
        assert(back.peers =~= c.peers);
    }
}

/// A peer that is added is admitted, and reaches exactly the ports that are offered to
/// everyone; one that is enabled by a change is admitted.
pub proof fn an_added_or_enabled_peer_is_admitted(
    c: ConfigSpec,
    i: int,
    id: EndpointId,
    name: Seq<char>,
    label: Option<Seq<char>>,
    proto: Proto,
    port: u16,
)
    ensures
        peer_added(c, id, name) matches Ok(d) ==> config_admits(d, id) && (may_reach(
            d,
            id,
            proto,
            port,
        ) <==> exists|k: int|
            0 <= k < c.shared.len() && (#[trigger] c.shared[k]).enabled && c.shared[k].proto
                == proto && c.shared[k].port == port),
        peer_is_at(c.peers, i, id) ==> (peer_patched(c, id, label, Some(true)) matches Ok(d)
            && config_admits(d, id)),
{
    the_entry_found_carries_the_id(c.peers, id);
    if let Ok(d) = peer_added(c, id, name) {
        let n = c.peers.len() as int;
        assert(peer_is_at(d.peers, n, id)) by {
            assert forall|j: int| 0 <= j < n implies (#[trigger] d.peers[j]).id != id by {
                assert(d.peers[j] == c.peers[j]);
            }
        }
        lemma_peer_at(d.peers, n, id);
        assert(c.shared + d.peers[n].offers =~= c.shared);
    }
    if peer_is_at(c.peers, i, id) {
        lemma_peer_at(c.peers, i, id);
        let d = peer_patched(c, id, label, Some(true))->Ok_0;
        assert(peer_is_at(d.peers, i, id)) by {
            assert forall|j: int| 0 <= j < i implies (#[trigger] d.peers[j]).id != id by {
                assert(d.peers[j] == c.peers[j]);
            }
        }
        lemma_peer_at(d.peers, i, id);
    }
}

// ---------------------------------------------------------------- offers

/// Where a list of offers stands: for everyone, or with the peer entry at a place.
pub open spec fn offers_in(c: ConfigSpec, at: Option<int>) -> Seq<OfferSpec> {
    match at {
        None => c.shared,
        Some(i) => c.peers[i].offers,
    }
}

/// Whether a request for everyone, or for one peer, is about the list at a place.
pub open spec fn is_meant(c: ConfigSpec, scope: Option<EndpointId>, at: Option<int>) -> bool {
    match (scope, at) {
        (None, None) => true,
        (Some(id), Some(i)) => peer_is_at(c.peers, i, id),
        _ => false,
    }
}

/// Whether two configurations differ in nothing but one list of offers.
pub open spec fn differ_only_in(c: ConfigSpec, d: ConfigSpec, at: Option<int>) -> bool {
    &&& d.bindings == c.bindings
    &&& at is Some ==> d.shared == c.shared
    &&& d.peers.len() == c.peers.len()
    &&& forall|j: int|
        0 <= j < c.peers.len() ==> (#[trigger] d.peers[j]).id == c.peers[j].id && d.peers[j].name
            == c.peers[j].name && d.peers[j].enabled == c.peers[j].enabled
    &&& forall|j: int|
        0 <= j < c.peers.len() && at != Some(j) ==> (#[trigger] d.peers[j]).offers
            == c.peers[j].offers
}

/// Whether the offer at `k` is the first for a protocol and a port.
pub open spec fn offer_is_at(s: Seq<OfferSpec>, k: int, proto: Proto, port: u16) -> bool {
    &&& 0 <= k < s.len()
    &&& s[k].proto == proto && s[k].port == port
    &&& forall|j: int| 0 <= j < k ==> (#[trigger] s[j]).proto != proto || s[j].port != port
}

/// Whether no offer is for a protocol and a port.
pub open spec fn offer_is_absent(s: Seq<OfferSpec>, proto: Proto, port: u16) -> bool {
    forall|j: int| 0 <= j < s.len() ==> (#[trigger] s[j]).proto != proto || s[j].port != port
}

proof fn lemma_offer_at(s: Seq<OfferSpec>, k: int, proto: Proto, port: u16)
    requires
        offer_is_at(s, k, proto, port),
    ensures
        first_at(offer_keys(s), (proto, port)) == k,
        offer_keys(s).contains((proto, port)),
{
    let keys = offer_keys(s);
    assert forall|j: int| 0 <= j < k implies keys[j] != (proto, port) by {
        assert(keys[j] == (s[j].proto, s[j].port));
    }
    assert(keys[k] == (proto, port));
    first_at_found(keys, (proto, port), k);
}

proof fn lemma_offer_absent(s: Seq<OfferSpec>, proto: Proto, port: u16)
    ensures
        offer_is_absent(s, proto, port) <==> !offer_keys(s).contains((proto, port)),
        offer_is_absent(s, proto, port) ==> first_at(offer_keys(s), (proto, port)) == s.len(),
{
    let keys = offer_keys(s);
    if offer_is_absent(s, proto, port) {
        assert forall|j: int| 0 <= j < keys.len() implies keys[j] != (proto, port) by {
            assert(keys[j] == (s[j].proto, s[j].port));
        }
        first_at_absent(keys, (proto, port));
    } else {
        let j = choose|j: int|
            0 <= j < s.len() && (#[trigger] s[j]).proto == proto && s[j].port == port;
        assert(keys[j] == (proto, port));
    }
}

proof fn lemma_meant(c: ConfigSpec, scope: Option<EndpointId>, at: Option<int>, t: Seq<OfferSpec>)
    requires
        is_meant(c, scope, at),
    ensures
        crate::edit::offers_at(c, scope) == Ok::<Seq<OfferSpec>, Fault>(offers_in(c, at)),
        differ_only_in(c, crate::edit::with_offers_at(c, scope, t), at),
        offers_in(crate::edit::with_offers_at(c, scope, t), at) == t,
        is_meant(crate::edit::with_offers_at(c, scope, t), scope, at),
{
    if let (Some(id), Some(i)) = (scope, at) {
        lemma_peer_at(c.peers, i, id);
        let d = crate::edit::with_offers_at(c, scope, t);
        assert forall|j: int| 0 <= j < i implies (#[trigger] d.peers[j]).id != id by {
            assert(d.peers[j] == c.peers[j]);
        }
    }
}

/// Nothing is done to the offers of a peer that is not listed.
pub proof fn offers_of_strangers_are_not_edited(
    c: ConfigSpec,
    id: EndpointId,
    proto: Proto,
    port: u16,
    label: Seq<char>,
    name: Option<Seq<char>>,
    enabled: Option<bool>,
)
    requires
        peer_is_absent(c.peers, id),
    ensures
        ({
            let refused = Err::<ConfigSpec, Fault>(Fault::PeerNotListed(id));
            &&& offer_added(c, Some(id), proto, port, label) == refused
            &&& offer_patched(c, Some(id), proto, port, name, enabled) == refused
            &&& offer_deleted(c, Some(id), proto, port) == refused
        }),
{
    lemma_peer_absent(c.peers, id);
}

/// An offer that is added, for everyone or for one peer, stands at the end of that list,
/// for its protocol and port, under its name and enabled; nothing else changes. A
/// protocol and port that the list has is not added.
pub proof fn adding_an_offer_appends_it(
    c: ConfigSpec,
    scope: Option<EndpointId>,
    at: Option<int>,
    proto: Proto,
    port: u16,
    name: Seq<char>,
)
    requires
        is_meant(c, scope, at),
    ensures
        ({
            let s = offers_in(c, at);
            &&& !offer_is_absent(s, proto, port) ==> offer_added(c, scope, proto, port, name)
                == Err::<ConfigSpec, Fault>(Fault::PortOffered(proto, port))
            &&& offer_is_absent(s, proto, port) ==> (offer_added(c, scope, proto, port, name)
                matches Ok(d) && {
                let t = offers_in(d, at);
                &&& differ_only_in(c, d, at)
                &&& t.len() == s.len() + 1
                &&& forall|j: int| 0 <= j < s.len() ==> t[j] == s[j]
                &&& t.last().proto == proto && t.last().port == port && t.last().name == name
                &&& t.last().enabled
            })
        }),
{
    let s = offers_in(c, at);
    lemma_offer_absent(s, proto, port);
    lemma_meant(c, scope, at, s.push(OfferSpec { proto, port, name, enabled: true }));
}

/// Changing an offer changes what is given of it and nothing else: its protocol and port
/// stay, its name and whether it is enabled become what is given, or stay. No other
/// offer changes. One that the list does not have is not changed.
pub proof fn changing_an_offer_changes_what_is_given(
    c: ConfigSpec,
    scope: Option<EndpointId>,
    at: Option<int>,
    k: int,
    proto: Proto,
    port: u16,
    name: Option<Seq<char>>,
    enabled: Option<bool>,
)
    requires
        is_meant(c, scope, at),
    ensures
        ({
            let s = offers_in(c, at);
            &&& offer_is_absent(s, proto, port) ==> offer_patched(
                c,
                scope,
                proto,
                port,
                name,
                enabled,
            ) == Err::<ConfigSpec, Fault>(Fault::PortNotOffered(proto, port))
            &&& offer_is_at(s, k, proto, port) ==> (offer_patched(
                c,
                scope,
                proto,
                port,
                name,
                enabled,
            ) matches Ok(d) && {
                let t = offers_in(d, at);
                &&& differ_only_in(c, d, at)
                &&& t.len() == s.len()
                &&& forall|j: int| 0 <= j < s.len() && j != k ==> t[j] == s[j]
                &&& t[k].proto == proto && t[k].port == port
                &&& name matches Some(x) ==> t[k].name == x
                &&& name is None ==> t[k].name == s[k].name
                &&& enabled matches Some(e) ==> t[k].enabled == e
                &&& enabled is None ==> t[k].enabled == s[k].enabled
            })
        }),
{
    let s = offers_in(c, at);
    lemma_offer_absent(s, proto, port);
    lemma_meant(c, scope, at, s);
    if offer_is_at(s, k, proto, port) {
        lemma_offer_at(s, k, proto, port);
        lemma_meant(
            c,
            scope,
            at,
            crate::edit::offer_changed(s, proto, port, name, enabled)->Ok_0,
        );
    }
}

/// Withdrawing an offer leaves every offer of the list but those for its protocol and
/// port, and from an acceptable configuration takes exactly the one that is. One that
/// the list does not have is not withdrawn.
pub proof fn withdrawing_an_offer_takes_it(
    c: ConfigSpec,
    scope: Option<EndpointId>,
    at: Option<int>,
    k: int,
    proto: Proto,
    port: u16,
)
    requires
        is_meant(c, scope, at),
    ensures
        ({
            let s = offers_in(c, at);
            &&& offer_is_absent(s, proto, port) ==> offer_deleted(c, scope, proto, port) == Err::<
                ConfigSpec,
                Fault,
            >(Fault::PortNotOffered(proto, port))
            &&& offer_is_at(s, k, proto, port) ==> (offer_deleted(c, scope, proto, port) matches Ok(
                d,
            ) && {
                let t = offers_in(d, at);
                &&& differ_only_in(c, d, at)
                &&& forall|o: OfferSpec| #[trigger]
                    t.contains(o) <==> s.contains(o) && !(o.proto == proto && o.port == port)
                &&& config_valid(c) ==> t == s.remove(k)
            })
        }),
{
    let s = offers_in(c, at);
    let keep = |o: OfferSpec| !(o.proto == proto && o.port == port);
    lemma_offer_absent(s, proto, port);
    lemma_meant(c, scope, at, s.filter(keep));
    lemma_filter_membership(s, keep);
    if offer_is_at(s, k, proto, port) {
        lemma_offer_at(s, k, proto, port);
        if config_valid(c) {
            if let Some(i) = at {
                assert(crate::config::peer_valid(c.peers[i]));
            }
            assert forall|j: int| 0 <= j < s.len() && j != k implies keep(#[trigger] s[j]) by {
                assert(offer_keys(s)[j] != offer_keys(s)[k]);
            }
            lemma_filter_of_all_but_one(s, keep, k);
        }
    }
}

/// Of two changes made to an offer, the later one counts, and the earlier one only for
/// what the later does not give; changing nothing changes nothing. So an enabled offer
/// that is parked and restored is as it was.
pub proof fn the_later_change_to_an_offer_counts(
    c: ConfigSpec,
    scope: Option<EndpointId>,
    at: Option<int>,
    k: int,
    proto: Proto,
    port: u16,
    name: Option<Seq<char>>,
    first: bool,
    second: bool,
)
    requires
        is_meant(c, scope, at),
        offer_is_at(offers_in(c, at), k, proto, port),
    ensures
        offer_patched(c, scope, proto, port, None, None) == Ok::<ConfigSpec, Fault>(c),
        ({
            let once = offer_patched(c, scope, proto, port, name, Some(first))->Ok_0;
            &&& offer_patched(once, scope, proto, port, None, Some(second)) == offer_patched(
                c,
                scope,
                proto,
                port,
                name,
                Some(second),
            )
            &&& offer_patched(once, scope, proto, port, None, None) == Ok::<ConfigSpec, Fault>(once)
        }),
        offers_in(c, at)[k].enabled ==> offer_patched(
            offer_patched(c, scope, proto, port, None, Some(false))->Ok_0,
            scope,
            proto,
            port,
            None,
            Some(true),
        ) == Ok::<ConfigSpec, Fault>(c),
{
    let s = offers_in(c, at);
    changing_an_offer_changes_what_is_given(c, scope, at, k, proto, port, None, None);
    let none = offer_patched(c, scope, proto, port, None, None)->Ok_0;
    lemma_same_but_offers(c, none, at);
    let once = offer_patched(c, scope, proto, port, name, Some(first))->Ok_0;
    changing_an_offer_changes_what_is_given(c, scope, at, k, proto, port, name, Some(first));
    lemma_still_meant(c, once, scope, at);
    assert(offer_is_at(offers_in(once, at), k, proto, port)) by {
        let t = offers_in(once, at);
        assert forall|j: int| 0 <= j < k implies (#[trigger] t[j]).proto != proto || t[j].port
            != port by {
            assert(t[j] == s[j]);
        }
    }
    changing_an_offer_changes_what_is_given(c, scope, at, k, proto, port, name, Some(second));
    changing_an_offer_changes_what_is_given(once, scope, at, k, proto, port, None, Some(second));
    changing_an_offer_changes_what_is_given(once, scope, at, k, proto, port, None, None);
    let a = offer_patched(once, scope, proto, port, None, Some(second))->Ok_0;
    let b = offer_patched(c, scope, proto, port, name, Some(second))->Ok_0;
    lemma_same_but_offers(a, b, at);
    let same = offer_patched(once, scope, proto, port, None, None)->Ok_0;
    lemma_same_but_offers(once, same, at);
    if s[k].enabled {
        let parked = offer_patched(c, scope, proto, port, None, Some(false))->Ok_0;
        changing_an_offer_changes_what_is_given(c, scope, at, k, proto, port, None, Some(false));
        lemma_still_meant(c, parked, scope, at);
        assert(offer_is_at(offers_in(parked, at), k, proto, port)) by {
            let t = offers_in(parked, at);
            assert forall|j: int| 0 <= j < k implies (#[trigger] t[j]).proto != proto || t[j].port
                != port by {
                assert(t[j] == s[j]);
            }
        }
        changing_an_offer_changes_what_is_given(
            parked,
            scope,
            at,
            k,
            proto,
            port,
            None,
            Some(true),
        );
        let back = offer_patched(parked, scope, proto, port, None, Some(true))->Ok_0;
        lemma_same_but_offers(c, back, at);
    }
}

proof fn lemma_still_meant(
    c: ConfigSpec,
    d: ConfigSpec,
    scope: Option<EndpointId>,
    at: Option<int>,
)
    requires
        is_meant(c, scope, at),
        differ_only_in(c, d, at),
    ensures
        is_meant(d, scope, at),
{
    if let (Some(id), Some(i)) = (scope, at) {
        assert(d.peers[i].id == c.peers[i].id);
        assert forall|j: int| 0 <= j < i implies (#[trigger] d.peers[j]).id != id by {
            assert(c.peers[j].id != id);
        }
    }
}

proof fn lemma_same_but_offers(c: ConfigSpec, d: ConfigSpec, at: Option<int>)
    requires
        d.bindings == c.bindings,
        at is Some ==> d.shared == c.shared,
        d.peers.len() == c.peers.len(),
        forall|j: int|
            0 <= j < c.peers.len() ==> (#[trigger] d.peers[j]).id == c.peers[j].id
                && d.peers[j].name == c.peers[j].name && d.peers[j].enabled == c.peers[j].enabled,
        forall|j: int|
            0 <= j < c.peers.len() && at != Some(j) ==> (#[trigger] d.peers[j]).offers
                == c.peers[j].offers,
        offers_in(c, at) =~= offers_in(d, at),
    ensures
        d == c,
{
    assert forall|j: int| 0 <= j < c.peers.len() implies d.peers[j] == c.peers[j] by {
        assert(d.peers[j].offers == c.peers[j].offers);
        assert(d.peers[j] =~= c.peers[j]);
    }
    assert(d.peers =~= c.peers);
}

/// An offer that is restored opens its port to every admitted peer that it is meant for;
/// one whose name is changed opens what it opened before, to everyone.
pub proof fn a_restored_offer_opens_its_port(
    c: ConfigSpec,
    scope: Option<EndpointId>,
    at: Option<int>,
    k: int,
    proto: Proto,
    port: u16,
    name: Option<Seq<char>>,
    i: int,
    p: Proto,
    q: u16,
)
    requires
        config_valid(c),
        is_meant(c, scope, at),
        offer_is_at(offers_in(c, at), k, proto, port),
        0 <= i < c.peers.len(),
    ensures
        ({
            let restored = offer_patched(c, scope, proto, port, name, Some(true))->Ok_0;
            let renamed = offer_patched(c, scope, proto, port, name, None)->Ok_0;
            &&& c.peers[i].enabled && (at is None || at == Some(i)) ==> may_reach(
                restored,
                c.peers[i].id,
                proto,
                port,
            )
            &&& may_reach(c, c.peers[i].id, p, q) ==> may_reach(restored, c.peers[i].id, p, q)
            &&& may_reach(renamed, c.peers[i].id, p, q) == may_reach(c, c.peers[i].id, p, q)
        }),
{
    let s = offers_in(c, at);
    let restored = offer_patched(c, scope, proto, port, name, Some(true))->Ok_0;
    let renamed = offer_patched(c, scope, proto, port, name, None)->Ok_0;
    changing_an_offer_changes_what_is_given(c, scope, at, k, proto, port, name, Some(true));
    changing_an_offer_changes_what_is_given(c, scope, at, k, proto, port, name, None);
    lemma_ids_differ(c, c);
    lemma_ids_differ(c, restored);
    lemma_ids_differ(c, renamed);
    reach_follows_the_entries(c, i, p, q);
    reach_follows_the_entries(restored, i, p, q);
    reach_follows_the_entries(restored, i, proto, port);
    reach_follows_the_entries(renamed, i, p, q);
    let (x, y) = (offers_in(restored, at), offers_in(renamed, at));
    assert(x[k].enabled && x[k].proto == proto && x[k].port == port);
    lemma_grants_more(s, x, p, q);
    lemma_grants_more(s, y, p, q);
    lemma_grants_more(y, s, p, q);
    assert(grants(x, proto, port));
    assert(c.peers[i].id == restored.peers[i].id && c.peers[i].id == renamed.peers[i].id);
}

proof fn lemma_grants_more(s: Seq<OfferSpec>, t: Seq<OfferSpec>, proto: Proto, port: u16)
    requires
        s.len() == t.len(),
        forall|j: int|
            0 <= j < s.len() ==> (#[trigger] s[j]).proto == t[j].proto && s[j].port == t[j].port
                && (s[j].enabled ==> t[j].enabled),
    ensures
        grants(s, proto, port) ==> grants(t, proto, port),
{
    if grants(s, proto, port) {
        let j = choose|j: int|
            0 <= j < s.len() && (#[trigger] s[j]).enabled && s[j].proto == proto && s[j].port
                == port;
        assert(t[j].enabled);
    }
}

proof fn lemma_ids_differ(c: ConfigSpec, d: ConfigSpec)
    requires
        config_valid(c),
        d.peers.len() == c.peers.len(),
        forall|j: int| 0 <= j < c.peers.len() ==> (#[trigger] d.peers[j]).id == c.peers[j].id,
    ensures
        forall|a: int, b: int|
            0 <= a < b < d.peers.len() ==> (#[trigger] d.peers[a]).id != (#[trigger] d.peers[b]).id,
{
    assert forall|a: int, b: int| 0 <= a < b < d.peers.len() implies (#[trigger] d.peers[a]).id
        != (#[trigger] d.peers[b]).id by {
        assert(peer_ids(c.peers)[a] != peer_ids(c.peers)[b]);
    }
}

// ---------------------------------------------------------------- bindings

/// Whether the binding at `i` is the first for a protocol and a local port.
pub open spec fn binding_is_at(s: Seq<BindingSpec>, i: int, proto: Proto, local: u16) -> bool {
    &&& 0 <= i < s.len()
    &&& s[i].proto == proto && s[i].local == local
    &&& forall|j: int| 0 <= j < i ==> (#[trigger] s[j]).proto != proto || s[j].local != local
}

/// Whether no binding is for a protocol and a local port.
pub open spec fn binding_is_absent(s: Seq<BindingSpec>, proto: Proto, local: u16) -> bool {
    forall|j: int| 0 <= j < s.len() ==> (#[trigger] s[j]).proto != proto || s[j].local != local
}

proof fn lemma_binding_at(s: Seq<BindingSpec>, i: int, proto: Proto, local: u16)
    requires
        binding_is_at(s, i, proto, local),
    ensures
        first_at(binding_keys(s), (proto, local)) == i,
        binding_keys(s).contains((proto, local)),
{
    let keys = binding_keys(s);
    assert forall|j: int| 0 <= j < i implies keys[j] != (proto, local) by {
        assert(keys[j] == (s[j].proto, s[j].local));
    }
    assert(keys[i] == (proto, local));
    first_at_found(keys, (proto, local), i);
}

proof fn lemma_binding_absent(s: Seq<BindingSpec>, proto: Proto, local: u16)
    ensures
        binding_is_absent(s, proto, local) <==> !binding_keys(s).contains((proto, local)),
        binding_is_absent(s, proto, local) ==> first_at(binding_keys(s), (proto, local))
            == s.len(),
{
    let keys = binding_keys(s);
    if binding_is_absent(s, proto, local) {
        assert forall|j: int| 0 <= j < keys.len() implies keys[j] != (proto, local) by {
            assert(keys[j] == (s[j].proto, s[j].local));
        }
        first_at_absent(keys, (proto, local));
    } else {
        let j = choose|j: int|
            0 <= j < s.len() && (#[trigger] s[j]).proto == proto && s[j].local == local;
        assert(keys[j] == (proto, local));
    }
}

/// A binding that is added stands at the end of the list, from its local to its remote
/// port, under its name and enabled; nothing else changes. A protocol and local port
/// that is listed is not added.
pub proof fn adding_a_binding_appends_it(
    c: ConfigSpec,
    proto: Proto,
    local: u16,
    remote: u16,
    name: Seq<char>,
)
    ensures
        !binding_is_absent(c.bindings, proto, local) ==> binding_added(
            c,
            proto,
            local,
            remote,
            name,
        ) == Err::<ConfigSpec, Fault>(Fault::LocalBound(proto, local)),
        binding_is_absent(c.bindings, proto, local) ==> (binding_added(
            c,
            proto,
            local,
            remote,
            name,
        ) matches Ok(d) && {
            &&& d.shared == c.shared
            &&& d.peers == c.peers
            &&& d.bindings.len() == c.bindings.len() + 1
            &&& forall|j: int| 0 <= j < c.bindings.len() ==> d.bindings[j] == c.bindings[j]
            &&& d.bindings.last().proto == proto && d.bindings.last().local == local
            &&& d.bindings.last().remote == remote
            &&& d.bindings.last().name == name
            &&& d.bindings.last().enabled
        }),
{
    lemma_binding_absent(c.bindings, proto, local);
}

/// Changing a binding changes what is given of it and nothing else: its protocol and its
/// local port stay, its remote port, its name and whether it is enabled become what is
/// given, or stay. No other binding changes. One that is not listed is not changed.
pub proof fn changing_a_binding_changes_what_is_given(
    c: ConfigSpec,
    i: int,
    proto: Proto,
    local: u16,
    remote: Option<u16>,
    name: Option<Seq<char>>,
    enabled: Option<bool>,
)
    ensures
        binding_is_absent(c.bindings, proto, local) ==> binding_patched(
            c,
            proto,
            local,
            remote,
            name,
            enabled,
        ) == Err::<ConfigSpec, Fault>(Fault::LocalNotBound(proto, local)),
        binding_is_at(c.bindings, i, proto, local) ==> (binding_patched(
            c,
            proto,
            local,
            remote,
            name,
            enabled,
        ) matches Ok(d) && {
            let (b, e) = (c.bindings[i], d.bindings[i]);
            &&& d.shared == c.shared
            &&& d.peers == c.peers
            &&& d.bindings.len() == c.bindings.len()
            &&& forall|j: int|
                0 <= j < c.bindings.len() && j != i ==> d.bindings[j] == c.bindings[j]
            &&& e.proto == proto && e.local == local
            &&& remote matches Some(x) ==> e.remote == x
            &&& remote is None ==> e.remote == b.remote
            &&& name matches Some(x) ==> e.name == x
            &&& name is None ==> e.name == b.name
            &&& enabled matches Some(x) ==> e.enabled == x
            &&& enabled is None ==> e.enabled == b.enabled
        }),
{
    lemma_binding_absent(c.bindings, proto, local);
    if binding_is_at(c.bindings, i, proto, local) {
        lemma_binding_at(c.bindings, i, proto, local);
    }
}

/// Removing a binding leaves every binding but those for its protocol and local port, and
/// from an acceptable configuration takes exactly the one that is. One that is not
/// listed is not removed.
pub proof fn removing_a_binding_takes_it(c: ConfigSpec, i: int, proto: Proto, local: u16)
    ensures
        binding_is_absent(c.bindings, proto, local) ==> binding_deleted(c, proto, local) == Err::<
            ConfigSpec,
            Fault,
        >(Fault::LocalNotBound(proto, local)),
        binding_is_at(c.bindings, i, proto, local) ==> (binding_deleted(c, proto, local) matches Ok(
            d,
        ) && {
            &&& d.shared == c.shared
            &&& d.peers == c.peers
            &&& forall|b: BindingSpec| #[trigger]
                d.bindings.contains(b) <==> c.bindings.contains(b) && !(b.proto == proto && b.local
                    == local)
            &&& config_valid(c) ==> d.bindings == c.bindings.remove(i)
        }),
{
    let s = c.bindings;
    let keep = |b: BindingSpec| !(b.proto == proto && b.local == local);
    lemma_binding_absent(s, proto, local);
    lemma_filter_membership(s, keep);
    if binding_is_at(s, i, proto, local) {
        lemma_binding_at(s, i, proto, local);
        if config_valid(c) {
            assert forall|j: int| 0 <= j < s.len() && j != i implies keep(#[trigger] s[j]) by {
                assert(binding_keys(s)[j] != binding_keys(s)[i]);
            }
            lemma_filter_of_all_but_one(s, keep, i);
        }
    }
}

/// Of two changes made to a binding, the later one counts, and the earlier one only for
/// what the later does not give; changing nothing changes nothing.
pub proof fn the_later_change_to_a_binding_counts(
    c: ConfigSpec,
    i: int,
    proto: Proto,
    local: u16,
    first: u16,
    second: u16,
    name: Option<Seq<char>>,
    enabled: bool,
)
    requires
        binding_is_at(c.bindings, i, proto, local),
    ensures
        binding_patched(c, proto, local, None, None, None) == Ok::<ConfigSpec, Fault>(c),
        ({
            let once = binding_patched(c, proto, local, Some(first), name, Some(enabled))->Ok_0;
            &&& binding_patched(once, proto, local, Some(second), None, None) == binding_patched(
                c,
                proto,
                local,
                Some(second),
                name,
                Some(enabled),
            )
            &&& binding_patched(once, proto, local, None, None, Some(!enabled)) == binding_patched(
                c,
                proto,
                local,
                Some(first),
                name,
                Some(!enabled),
            )
        }),
{
    lemma_binding_at(c.bindings, i, proto, local);
    let none = binding_patched(c, proto, local, None, None, None)->Ok_0;
    assert(none.bindings =~= c.bindings);
    let once = binding_patched(c, proto, local, Some(first), name, Some(enabled))->Ok_0;
    assert(binding_is_at(once.bindings, i, proto, local)) by {
        assert forall|j: int| 0 <= j < i implies (#[trigger] once.bindings[j]).proto != proto
            || once.bindings[j].local != local by {
            assert(once.bindings[j] == c.bindings[j]);
        }
    }
    lemma_binding_at(once.bindings, i, proto, local);
    let a = binding_patched(once, proto, local, Some(second), None, None)->Ok_0;
    assert(a.bindings =~= binding_patched(
        c,
        proto,
        local,
        Some(second),
        name,
        Some(enabled),
    )->Ok_0.bindings);
    let b = binding_patched(once, proto, local, None, None, Some(!enabled))->Ok_0;
    assert(b.bindings =~= binding_patched(
        c,
        proto,
        local,
        Some(first),
        name,
        Some(!enabled),
    )->Ok_0.bindings);
}

} // verus!
