//! What the edits of the admin surface do to one another and to who may reach what.
use crate::config::{
    binding_keys, bindings_valid, config_valid, ids_are_keys, offer_keys, offers_valid, peer_ids,
    peers_valid, BindingSpec, ConfigSpec, OfferSpec, PeerSpec, Proto,
};
use crate::edit::{
    binding_added, binding_deleted, binding_patched, offer_added, offer_changed, offer_deleted,
    offer_patched, offer_withdrawn, offers_at, peer_added, peer_deleted, peer_patched,
    with_offers_at, Edited,
};
use crate::endpoint::{text_reads_back, EndpointId};
use crate::error::Fault;
use crate::grants::{config_admits, find_peer, grants, may_reach, offers_for};
use crate::lists::{
    filter_keeps_order, filter_of_all, filter_of_push, first_at, first_at_is_first,
    first_at_of_push,
};
use vstd::prelude::*;

verus! {

proof fn lemma_find_after_filter(peers: Seq<PeerSpec>, id: EndpointId, other: EndpointId)
    ensures
        find_peer(peers.filter(|p: PeerSpec| p.id != id), id) is None,
        other != id ==> find_peer(peers.filter(|p: PeerSpec| p.id != id), other) == find_peer(
            peers,
            other,
        ),
    decreases peers.len(),
{
    let keep = |p: PeerSpec| p.id != id;
    if peers.len() == 0 {
        reveal(Seq::filter);
        assert(peers.filter(keep) =~= peers);
    } else {
        let t = peers.drop_last();
        let x = peers.last();
        lemma_find_after_filter(t, id, other);
        assert(peers =~= t.push(x));
        filter_of_push(t, x, keep);
        let f = t.filter(keep);
        assert(peer_ids(peers) =~= peer_ids(t).push(x.id));
        assert(peer_ids(f.push(x)) =~= peer_ids(f).push(x.id));
        first_at_of_push(peer_ids(t), x.id, other);
        first_at_of_push(peer_ids(f), x.id, other);
        first_at_of_push(peer_ids(f), x.id, id);
        first_at_is_first(peer_ids(f), id);
        first_at_is_first(peer_ids(f), other);
        first_at_is_first(peer_ids(t), other);
    }
}

proof fn lemma_find_after_update(peers: Seq<PeerSpec>, i: int, p: PeerSpec, id: EndpointId)
    requires
        0 <= i < peers.len(),
        p.id == peers[i].id,
    ensures
        peer_ids(peers.update(i, p)) == peer_ids(peers),
        find_peer(peers.update(i, p), id) == (if first_at(peer_ids(peers), id) == i {
            Some(p)
        } else {
            find_peer(peers, id)
        }),
{
    assert(peer_ids(peers.update(i, p)) =~= peer_ids(peers));
}

/// Removing a peer that was just added gives back the configuration of before.
pub proof fn removing_undoes_adding_a_peer(c: ConfigSpec, id: EndpointId, name: Seq<char>)
    requires
        peer_added(c, id, name) is Ok,
    ensures
        peer_deleted(peer_added(c, id, name)->Ok_0, id) == Ok::<ConfigSpec, Fault>(c),
{
    let x = PeerSpec { id, name, enabled: true, offers: seq![] };
    let d = peer_added(c, id, name)->Ok_0;
    let keep = |p: PeerSpec| p.id != id;
    first_at_is_first(peer_ids(c.peers), id);
    assert(peer_ids(d.peers) =~= peer_ids(c.peers).push(id));
    first_at_of_push(peer_ids(c.peers), id, id);
    filter_of_push(c.peers, x, keep);
    assert forall|i: int| 0 <= i < c.peers.len() implies keep(#[trigger] c.peers[i]) by {
        assert(peer_ids(c.peers)[i] == c.peers[i].id);
    }
    filter_of_all(c.peers, keep);
}

/// Withdrawing an offer that was just added, to everyone or to one peer, gives back
/// the configuration of before.
pub proof fn withdrawing_undoes_adding_an_offer(
    c: ConfigSpec,
    scope: Option<EndpointId>,
    proto: Proto,
    port: u16,
    name: Seq<char>,
)
    requires
        offer_added(c, scope, proto, port, name) is Ok,
    ensures
        offer_deleted(offer_added(c, scope, proto, port, name)->Ok_0, scope, proto, port) == Ok::<
            ConfigSpec,
            Fault,
        >(c),
{
    let s = offers_at(c, scope)->Ok_0;
    let x = OfferSpec { proto, port, name, enabled: true };
    let d = offer_added(c, scope, proto, port, name)->Ok_0;
    let keep = |o: OfferSpec| !(o.proto == proto && o.port == port);
    filter_of_push(s, x, keep);
    assert forall|i: int| 0 <= i < s.len() implies keep(#[trigger] s[i]) by {
        assert(offer_keys(s)[i] == (s[i].proto, s[i].port));
    }
    filter_of_all(s, keep);
    assert(offer_keys(s.push(x))[s.len() as int] == (proto, port));
    assert(offer_withdrawn(s.push(x), proto, port) == Ok::<Seq<OfferSpec>, Fault>(s));
    assert(d == with_offers_at(c, scope, s.push(x)));
    match scope {
        None => {},
        Some(id) => {
            let i = first_at(peer_ids(c.peers), id) as int;
            let p = PeerSpec { offers: s.push(x), ..c.peers[i] };
            lemma_find_after_update(c.peers, i, p, id);
            assert(d.peers == c.peers.update(i, p));
            assert(d.peers.update(i, PeerSpec { offers: s, ..d.peers[i] }) =~= c.peers);
        },
    }
    assert(with_offers_at(d, scope, s) == c);
}

/// Removing a binding that was just added gives back the configuration of before.
pub proof fn removing_undoes_adding_a_binding(
    c: ConfigSpec,
    proto: Proto,
    local: u16,
    remote: u16,
    name: Seq<char>,
)
    requires
        binding_added(c, proto, local, remote, name) is Ok,
    ensures
        binding_deleted(binding_added(c, proto, local, remote, name)->Ok_0, proto, local) == Ok::<
            ConfigSpec,
            Fault,
        >(c),
{
    let s = c.bindings;
    let x = BindingSpec { proto, local, remote, name, enabled: true };
    let keep = |b: BindingSpec| !(b.proto == proto && b.local == local);
    filter_of_push(s, x, keep);
    assert forall|i: int| 0 <= i < s.len() implies keep(#[trigger] s[i]) by {
        assert(binding_keys(s)[i] == (s[i].proto, s[i].local));
    }
    filter_of_all(s, keep);
    assert(binding_keys(s.push(x))[s.len() as int] == (proto, local));
}

/// A peer that is removed is shut out, and nobody else notices.
pub proof fn a_removed_peer_is_shut_out(
    c: ConfigSpec,
    id: EndpointId,
    other: EndpointId,
    proto: Proto,
    port: u16,
)
    requires
        peer_deleted(c, id) is Ok,
    ensures
        !config_admits(peer_deleted(c, id)->Ok_0, id),
        !may_reach(peer_deleted(c, id)->Ok_0, id, proto, port),
        other != id ==> may_reach(peer_deleted(c, id)->Ok_0, other, proto, port) == may_reach(
            c,
            other,
            proto,
            port,
        ),
{
    lemma_find_after_filter(c.peers, id, other);
}

/// A peer that is parked is shut out, but keeps its name and its offers; nobody else
/// notices.
pub proof fn a_parked_peer_is_shut_out(
    c: ConfigSpec,
    id: EndpointId,
    other: EndpointId,
    proto: Proto,
    port: u16,
)
    requires
        peer_patched(c, id, None, Some(false)) is Ok,
    ensures
        ({
            let d = peer_patched(c, id, None, Some(false))->Ok_0;
            &&& !config_admits(d, id)
            &&& !may_reach(d, id, proto, port)
            &&& find_peer(d.peers, id) == Some(
                PeerSpec { enabled: false, ..find_peer(c.peers, id)->Some_0 },
            )
            &&& other != id ==> may_reach(d, other, proto, port) == may_reach(
                c,
                other,
                proto,
                port,
            )
        }),
{
    let i = first_at(peer_ids(c.peers), id) as int;
    let p = PeerSpec { enabled: false, ..c.peers[i] };
    lemma_find_after_update(c.peers, i, p, id);
    lemma_find_after_update(c.peers, i, p, other);
    first_at_is_first(peer_ids(c.peers), id);
    first_at_is_first(peer_ids(c.peers), other);
}

/// Parking a binding and restoring it gives back the configuration of before: the row
/// survives being parked, so its label and mapping are not lost.
pub proof fn a_binding_can_be_parked_and_restored(c: ConfigSpec, proto: Proto, local: u16)
    requires
        binding_patched(c, proto, local, None, None, Some(false)) is Ok,
        c.bindings[first_at(binding_keys(c.bindings), (proto, local)) as int].enabled,
    ensures
        ({
            let parked = binding_patched(c, proto, local, None, None, Some(false))->Ok_0;
            &&& parked.bindings.len() == c.bindings.len()
            &&& binding_patched(parked, proto, local, None, None, Some(true)) == Ok::<
                ConfigSpec,
                Fault,
            >(c)
        }),
{
    let i = first_at(binding_keys(c.bindings), (proto, local)) as int;
    let parked = binding_patched(c, proto, local, None, None, Some(false))->Ok_0;
    assert(binding_keys(parked.bindings) =~= binding_keys(c.bindings));
    assert(parked.bindings.update(i, c.bindings[i]) =~= c.bindings);
}

/// What is done to the offers of one peer touches neither the shared offers, nor any
/// other peer, nor the bindings.
pub proof fn an_edit_to_one_peer_stays_with_it(
    c: ConfigSpec,
    id: EndpointId,
    other: EndpointId,
    offers: Seq<OfferSpec>,
)
    requires
        offers_at(c, Some(id)) is Ok,
        other != id,
    ensures
        with_offers_at(c, Some(id), offers).shared == c.shared,
        with_offers_at(c, Some(id), offers).bindings == c.bindings,
        find_peer(with_offers_at(c, Some(id), offers).peers, id) == Some(
            PeerSpec { offers, ..find_peer(c.peers, id)->Some_0 },
        ),
        find_peer(with_offers_at(c, Some(id), offers).peers, other) == find_peer(c.peers, other),
{
    let i = first_at(peer_ids(c.peers), id) as int;
    let p = PeerSpec { offers, ..c.peers[i] };
    lemma_find_after_update(c.peers, i, p, id);
    lemma_find_after_update(c.peers, i, p, other);
    first_at_is_first(peer_ids(c.peers), id);
    first_at_is_first(peer_ids(c.peers), other);
}

/// An offer that is added, to everyone or to one peer, can be used at once by every
/// peer that it is meant for, if that peer is admitted.
pub proof fn an_added_offer_can_be_used(
    c: ConfigSpec,
    scope: Option<EndpointId>,
    proto: Proto,
    port: u16,
    name: Seq<char>,
    peer: EndpointId,
)
    requires
        offer_added(c, scope, proto, port, name) is Ok,
        config_admits(c, peer),
        scope matches Some(id) ==> id == peer,
    ensures
        may_reach(offer_added(c, scope, proto, port, name)->Ok_0, peer, proto, port),
{
    let s = offers_at(c, scope)->Ok_0;
    let x = OfferSpec { proto, port, name, enabled: true };
    let d = offer_added(c, scope, proto, port, name)->Ok_0;
    match scope {
        None => {
            let i = s.len() as int;
            assert(offers_for(d, peer)[i] == x);
        },
        Some(id) => {
            let i = first_at(peer_ids(c.peers), id) as int;
            lemma_find_after_update(c.peers, i, PeerSpec { offers: s.push(x), ..c.peers[i] }, id);
            let k = c.shared.len() + s.len();
            assert(offers_for(d, peer)[k as int] == x);
        },
    }
    assert(grants(offers_for(d, peer), proto, port));
}

proof fn lemma_filter_keeps_valid_offers(s: Seq<OfferSpec>, p: spec_fn(OfferSpec) -> bool)
    requires
        offers_valid(s),
    ensures
        offers_valid(s.filter(p)),
{
    let t = s.filter(p);
    assert forall|i: int| 0 <= i < t.len() implies crate::config::offer_valid(#[trigger] t[i]) by {
        assert(t.contains(t[i]));
        s.lemma_filter_contains_rev(p, t[i]);
    }
    assert forall|i: int, j: int|
        0 <= i < offer_keys(t).len() && 0 <= j < offer_keys(t).len() && i
            != j implies offer_keys(t)[i] != offer_keys(t)[j] by {
        let (x, y) = if i < j {
            (i, j)
        } else {
            (j, i)
        };
        filter_keeps_order(s, p, x, y);
        let (a, b) = choose|a: int, b: int|
            0 <= a < b < s.len() && #[trigger] s[a] == t[x] && #[trigger] s[b] == t[y];
        assert(offer_keys(s)[a] != offer_keys(s)[b]);
    }
}

/// Removing something never leaves a configuration that is turned away.
pub proof fn removals_keep_a_config_valid(
    c: ConfigSpec,
    id: EndpointId,
    scope: Option<EndpointId>,
    proto: Proto,
    port: u16,
)
    requires
        config_valid(c),
    ensures
        peer_deleted(c, id) matches Ok(d) ==> config_valid(d),
        offer_deleted(c, scope, proto, port) matches Ok(d) ==> config_valid(d),
        binding_deleted(c, proto, port) matches Ok(d) ==> config_valid(d),
{
    let pk = |p: PeerSpec| p.id != id;
    let peers = c.peers.filter(pk);
    assert(peers_valid(peers)) by {
        assert forall|i: int| 0 <= i < peers.len() implies crate::config::peer_valid(
            #[trigger] peers[i],
        ) by {
            assert(peers.contains(peers[i]));
            c.peers.lemma_filter_contains_rev(pk, peers[i]);
        }
        assert forall|i: int, j: int|
            0 <= i < peer_ids(peers).len() && 0 <= j < peer_ids(peers).len() && i
                != j implies peer_ids(peers)[i] != peer_ids(peers)[j] by {
            let (x, y) = if i < j {
                (i, j)
            } else {
                (j, i)
            };
            filter_keeps_order(c.peers, pk, x, y);
            let (a, b) = choose|a: int, b: int|
                0 <= a < b < c.peers.len() && #[trigger] c.peers[a] == peers[x]
                    && #[trigger] c.peers[b] == peers[y];
            assert(peer_ids(c.peers)[a] != peer_ids(c.peers)[b]);
        }
    }
    let bk = |b: BindingSpec| !(b.proto == proto && b.local == port);
    let bindings = c.bindings.filter(bk);
    assert(bindings_valid(bindings)) by {
        assert forall|i: int| 0 <= i < bindings.len() implies crate::config::binding_valid(
            #[trigger] bindings[i],
        ) by {
            assert(bindings.contains(bindings[i]));
            c.bindings.lemma_filter_contains_rev(bk, bindings[i]);
        }
        assert forall|i: int, j: int|
            0 <= i < binding_keys(bindings).len() && 0 <= j < binding_keys(bindings).len() && i
                != j implies binding_keys(bindings)[i] != binding_keys(bindings)[j] by {
            let (x, y) = if i < j {
                (i, j)
            } else {
                (j, i)
            };
            filter_keeps_order(c.bindings, bk, x, y);
            let (a, b) = choose|a: int, b: int|
                0 <= a < b < c.bindings.len() && #[trigger] c.bindings[a] == bindings[x]
                    && #[trigger] c.bindings[b] == bindings[y];
            assert(binding_keys(c.bindings)[a] != binding_keys(c.bindings)[b]);
        }
    }
    let ok = |o: OfferSpec| !(o.proto == proto && o.port == port);
    if offer_deleted(c, scope, proto, port) is Ok {
        let s = offers_at(c, scope)->Ok_0;
        let d = offer_deleted(c, scope, proto, port)->Ok_0;
        assert(d == with_offers_at(c, scope, s.filter(ok)));
        match scope {
            None => {
                lemma_filter_keeps_valid_offers(s, ok);
            },
            Some(p) => {
                let i = first_at(peer_ids(c.peers), p) as int;
                let x = PeerSpec { offers: s.filter(ok), ..c.peers[i] };
                lemma_find_after_update(c.peers, i, x, p);
                assert(crate::config::peer_valid(c.peers[i]));
                lemma_filter_keeps_valid_offers(s, ok);
                assert forall|j: int| 0 <= j < d.peers.len() implies crate::config::peer_valid(
                    #[trigger] d.peers[j],
                ) by {
                    if j != i {
                        assert(d.peers[j] == c.peers[j]);
                    }
                }
            },
        }
    }
}

/// Whether a list of offers other than the one that is edited opens a port to a peer:
/// its own, where the shared one is edited, else the shared one.
pub open spec fn opened_elsewhere(
    c: ConfigSpec,
    scope: Option<EndpointId>,
    peer: EndpointId,
    proto: Proto,
    port: u16,
) -> bool {
    match scope {
        None => find_peer(c.peers, peer) matches Some(p) && grants(p.offers, proto, port),
        Some(_) => grants(c.shared, proto, port),
    }
}

proof fn lemma_closed_list_closes(
    c: ConfigSpec,
    scope: Option<EndpointId>,
    offers: Seq<OfferSpec>,
    proto: Proto,
    port: u16,
    peer: EndpointId,
)
    requires
        offers_at(c, scope) is Ok,
        scope matches Some(id) ==> id == peer,
        !grants(offers, proto, port),
        !opened_elsewhere(c, scope, peer, proto, port),
    ensures
        !may_reach(with_offers_at(c, scope, offers), peer, proto, port),
{
    let d = with_offers_at(c, scope, offers);
    if let Some(id) = scope {
        let i = first_at(peer_ids(c.peers), id) as int;
        lemma_find_after_update(c.peers, i, PeerSpec { offers, ..c.peers[i] }, id);
    }
    if may_reach(d, peer, proto, port) {
        let all = offers_for(d, peer);
        let k = choose|k: int|
            0 <= k < all.len() && (#[trigger] all[k]).enabled && all[k].proto == proto
                && all[k].port == port;
        let own = find_peer(d.peers, peer)->Some_0.offers;
        if k < d.shared.len() {
            assert(d.shared[k] == all[k]);
        } else {
            assert(own[k - d.shared.len()] == all[k]);
        }
    }
}

/// An offer that is withdrawn, from everyone or from one peer, no longer opens its
/// port to a peer that it was meant for, unless another list does.
pub proof fn a_withdrawn_offer_is_closed(
    c: ConfigSpec,
    scope: Option<EndpointId>,
    proto: Proto,
    port: u16,
    peer: EndpointId,
)
    requires
        offer_deleted(c, scope, proto, port) is Ok,
        scope matches Some(id) ==> id == peer,
        !opened_elsewhere(c, scope, peer, proto, port),
    ensures
        !may_reach(offer_deleted(c, scope, proto, port)->Ok_0, peer, proto, port),
{
    let s = offers_at(c, scope)->Ok_0;
    let keep = |o: OfferSpec| !(o.proto == proto && o.port == port);
    let left = s.filter(keep);
    if grants(left, proto, port) {
        let k = choose|k: int|
            0 <= k < left.len() && (#[trigger] left[k]).enabled && left[k].proto == proto
                && left[k].port == port;
        s.lemma_filter_pred(keep, k);
    }
    lemma_closed_list_closes(c, scope, left, proto, port, peer);
}

/// An offer that is parked, for everyone or for one peer, no longer opens its port to
/// a peer that it was meant for, unless another list does.
pub proof fn a_parked_offer_is_closed(
    c: ConfigSpec,
    scope: Option<EndpointId>,
    proto: Proto,
    port: u16,
    name: Option<Seq<char>>,
    peer: EndpointId,
)
    requires
        config_valid(c),
        offer_patched(c, scope, proto, port, name, Some(false)) is Ok,
        scope matches Some(id) ==> id == peer,
        !opened_elsewhere(c, scope, peer, proto, port),
    ensures
        !may_reach(
            offer_patched(c, scope, proto, port, name, Some(false))->Ok_0,
            peer,
            proto,
            port,
        ),
{
    let s = offers_at(c, scope)->Ok_0;
    let t = offer_changed(s, proto, port, name, Some(false))->Ok_0;
    let i = first_at(offer_keys(s), (proto, port)) as int;
    if let Some(id) = scope {
        let j = first_at(peer_ids(c.peers), id) as int;
        assert(crate::config::peer_valid(c.peers[j]));
    }
    assert(offers_valid(s));
    first_at_is_first(offer_keys(s), (proto, port));
    if grants(t, proto, port) {
        let k = choose|k: int|
            0 <= k < t.len() && (#[trigger] t[k]).enabled && t[k].proto == proto && t[k].port
                == port;
        assert(k != i);
        assert(offer_keys(s)[k] == offer_keys(s)[i]);
    }
    lemma_closed_list_closes(c, scope, t, proto, port, peer);
}

/// Whether an edit leaves a configuration whose ids are keys, if they were before.
pub open spec fn keeps_keys(c: ConfigSpec, edited: Edited) -> bool {
    ids_are_keys(c) ==> (edited matches Ok(d) ==> ids_are_keys(d))
}

/// Adding a peer by a key keeps every id of the list a key, and so do changing and
/// removing one.
pub proof fn peer_edits_keep_ids_keys(
    c: ConfigSpec,
    id: EndpointId,
    label: Seq<char>,
    name: Option<Seq<char>>,
    enabled: Option<bool>,
)
    ensures
        text_reads_back(id.bytes) ==> keeps_keys(c, peer_added(c, id, label)),
        keeps_keys(c, peer_patched(c, id, name, enabled)),
        keeps_keys(c, peer_deleted(c, id)),
{
    if ids_are_keys(c) {
        let keep = |p: PeerSpec| p.id != id;
        let left = c.peers.filter(keep);
        assert forall|i: int| 0 <= i < left.len() implies text_reads_back(
            (#[trigger] left[i]).id.bytes,
        ) by {
            assert(left.contains(left[i]));
            c.peers.lemma_filter_contains_rev(keep, left[i]);
        }
    }
}

/// Edits to offers touch no id.
pub proof fn offer_edits_keep_ids_keys(
    c: ConfigSpec,
    scope: Option<EndpointId>,
    proto: Proto,
    port: u16,
    label: Seq<char>,
    name: Option<Seq<char>>,
    enabled: Option<bool>,
)
    ensures
        keeps_keys(c, offer_added(c, scope, proto, port, label)),
        keeps_keys(c, offer_patched(c, scope, proto, port, name, enabled)),
        keeps_keys(c, offer_deleted(c, scope, proto, port)),
{
}

/// Edits to bindings touch no id.
pub proof fn binding_edits_keep_ids_keys(
    c: ConfigSpec,
    proto: Proto,
    local: u16,
    remote: u16,
    to: Option<u16>,
    label: Seq<char>,
    name: Option<Seq<char>>,
    enabled: Option<bool>,
)
    ensures
        keeps_keys(c, binding_added(c, proto, local, remote, label)),
        keeps_keys(c, binding_patched(c, proto, local, to, name, enabled)),
        keeps_keys(c, binding_deleted(c, proto, local)),
{
}

} // verus!
