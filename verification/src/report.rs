//! The state of a running process, as the admin surface shows it.
use crate::admin::Admin;
use crate::config::{
    clone_offers, offers_view, Binding, BindingSpec, Config, Offer, Peer, PeerSpec, Proto,
};
use crate::endpoint::{id_short, id_text, EndpointId};
use crate::state::{
    lists_ids, live_report, secs_between, BindSpec, BindState, LocalPort, PeerLive, Role, Shared,
};
use std::sync::Arc;
use vstd::prelude::*;

verus! {

/// A listed peer, as it is shown.
#[derive(Debug)]
pub struct PeerView {
    pub id: String,
    pub short: String,
    pub name: String,
    pub enabled: bool,
    pub offers: Vec<Offer>,
}

/// A binding and what became of it, as it is shown.
#[derive(Debug)]
pub struct BindingView {
    pub proto: Proto,
    pub local: u16,
    pub remote: u16,
    pub name: String,
    pub enabled: bool,
    pub runtime: Option<BindState>,
}

/// Everything that is shown.
#[derive(Debug)]
pub struct StateView {
    pub role: Role,
    /// The endpoint id of this process, shown so that a user can copy it to the peer.
    pub id: String,
    pub config_path: String,
    pub uptime_secs: u64,
    pub shared_offers: Vec<Offer>,
    pub peers: Vec<PeerView>,
    pub bindings: Vec<BindingView>,
    pub live_peers: Vec<PeerLive>,
}

/// Whether a listed peer is shown as it is.
pub open spec fn shows_peer(v: PeerView, p: PeerSpec) -> bool {
    &&& v.id@ == id_text(p.id)
    &&& v.short@ == id_short(p.id)
    &&& v.name@ == p.name
    &&& v.enabled == p.enabled
    &&& offers_view(v.offers@) == p.offers
}

/// What an optional bind state says.
pub open spec fn opt_bind(st: Option<BindState>) -> Option<BindSpec> {
    match st {
        Some(st) => Some(st@),
        None => None,
    }
}

/// Whether a binding is shown as it is, with what is reported of its local port.
pub open spec fn shows_binding(
    v: BindingView,
    b: BindingSpec,
    binds: Map<LocalPort, BindSpec>,
) -> bool {
    let k = LocalPort { proto: b.proto, port: b.local };
    &&& v.proto == b.proto
    &&& v.local == b.local
    &&& v.remote == b.remote
    &&& v.name@ == b.name
    &&& v.enabled == b.enabled
    &&& opt_bind(v.runtime) == (if binds.dom().contains(k) {
        Some(binds[k])
    } else {
        None
    })
}

fn show_peers(peers: &Vec<Peer>) -> (r: Vec<PeerView>)
    ensures
        r@.len() == peers@.len(),
        forall|i: int| 0 <= i < r@.len() ==> shows_peer(#[trigger] r@[i], peers@[i]@),
{
    let mut r: Vec<PeerView> = Vec::new();
    let mut i: usize = 0;
    while i < peers.len()
        invariant
            i <= peers@.len(),
            r@.len() == i,
            forall|j: int| 0 <= j < i ==> shows_peer(#[trigger] r@[j], peers@[j]@),
        decreases peers@.len() - i,
    {
        let p: &Peer = &peers[i];
        r.push(
            PeerView {
                id: p.id.to_text(),
                short: p.id.fmt_short(),
                name: p.name.clone(),
                enabled: p.enabled,
                offers: clone_offers(&p.offers),
            },
        );
        i += 1;
    }
    r
}

fn show_bindings(bindings: &Vec<Binding>, shared: &Shared) -> (r: Vec<BindingView>)
    ensures
        r@.len() == bindings@.len(),
        forall|i: int|
            0 <= i < r@.len() ==> shows_binding(
                #[trigger] r@[i],
                bindings@[i]@,
                shared@.binds,
            ),
{
    let mut r: Vec<BindingView> = Vec::new();
    let mut i: usize = 0;
    while i < bindings.len()
        invariant
            i <= bindings@.len(),
            r@.len() == i,
            forall|j: int|
                0 <= j < i ==> shows_binding(#[trigger] r@[j], bindings@[j]@, shared@.binds),
        decreases bindings@.len() - i,
    {
        let b: &Binding = &bindings[i];
        r.push(
            BindingView {
                proto: b.proto,
                local: b.local,
                remote: b.remote,
                name: b.name.clone(),
                enabled: b.enabled,
                runtime: shared.bind_state(b),
            },
        );
        i += 1;
    }
    r
}

/// Everything that the admin surface shows of a running process.
pub fn get_state(admin: &Admin, shared: &Shared, now: u64) -> (v: StateView)
    ensures
        v.role == shared@.role,
        v.id@ == admin.id@,
        v.config_path@ == shared@.path,
        v.uptime_secs == secs_between(shared@.started, now),
        offers_view(v.shared_offers@) == shared@.config.shared,
        v.peers@.len() == shared@.config.peers.len(),
        forall|i: int|
            0 <= i < v.peers@.len() ==> shows_peer(
                #[trigger] v.peers@[i],
                shared@.config.peers[i],
            ),
        v.bindings@.len() == shared@.config.bindings.len(),
        forall|i: int|
            0 <= i < v.bindings@.len() ==> shows_binding(
                #[trigger] v.bindings@[i],
                shared@.config.bindings[i],
                shared@.binds,
            ),
        exists|ids: Seq<EndpointId>| #[trigger]
            lists_ids(ids, shared@.peers.dom()) && v.live_peers@.len() == ids.len() && forall|
                i: int,
            |
                0 <= i < ids.len() ==> (#[trigger] v.live_peers@[i])@ == live_report(
                    ids[i],
                    shared@.peers[ids[i]],
                    now,
                ),
{
    let cfg: Arc<Config> = shared.config();
    StateView {
        role: shared.role(),
        id: admin.id.clone(),
        config_path: shared.config_path().to_owned(),
        uptime_secs: shared.uptime_secs(now),
        shared_offers: clone_offers(&cfg.serve.shared),
        peers: show_peers(&cfg.serve.peers),
        bindings: show_bindings(&cfg.connect.bindings, shared),
        live_peers: shared.live_peers(now),
    }
}

// ---------------------------------------------------------------- laws

/// A listed peer is shown under its own id, name and offers, as enabled exactly when it
/// is.
pub proof fn a_peer_is_shown_as_it_is(v: PeerView, p: PeerSpec)
    requires
        shows_peer(v, p),
    ensures
        v.id@ == id_text(p.id),
        v.short@ == id_text(p.id).take(10),
        v.name@ == p.name,
        v.enabled <==> p.enabled,
        v.offers@.len() == p.offers.len(),
        forall|i: int| 0 <= i < p.offers.len() ==> (#[trigger] v.offers@[i])@ == p.offers[i],
{
    crate::endpoint::short_text_starts_the_full_text(p.id);
    assert forall|i: int| 0 <= i < p.offers.len() implies (#[trigger] v.offers@[i])@
        == p.offers[i] by {
        assert(offers_view(v.offers@)[i] == v.offers@[i]@);
    }
}

/// A binding is shown with its own ports and name, as enabled exactly when it is, and
/// with what is reported of its local port, if anything is.
pub proof fn a_binding_is_shown_as_it_is(
    v: BindingView,
    b: BindingSpec,
    binds: Map<LocalPort, BindSpec>,
)
    requires
        shows_binding(v, b, binds),
    ensures
        v.proto == b.proto && v.local == b.local && v.remote == b.remote && v.name@ == b.name,
        v.enabled <==> b.enabled,
        ({
            let k = LocalPort { proto: b.proto, port: b.local };
            &&& v.runtime is Some <==> binds.dom().contains(k)
            &&& v.runtime matches Some(st) ==> (st is Listening <==> binds[k] is Listening)
            &&& v.runtime matches Some(BindState::Failed { error }) ==> binds[k]
                == BindSpec::Failed(error@)
        }),
{
}

} // verus!
