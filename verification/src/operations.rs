//! What the operations of the library do, said of the operations themselves: what holds
//! of whatever they return and leave behind.
use crate::address::{admin_addr, SocketAddr};
use crate::admin::{
    add_binding, add_offer, add_peer, bearer_token, body_fits, del_binding, del_offer, del_peer,
    each_request_goes_where_it_should, edit_reply, header_view, is_path_of, not_found,
    patch_binding, patch_offer, patch_peer, query_view, route, scope_of, token_of, Admin,
    BindingAdd, BindingPatch, BindingRef, Denial, IdRef, Method, OfferAdd, OfferPatch, OfferRef,
    PeerAdd, PeerPatch, Reply, Route, Subject,
};
use crate::config::{config_valid, what_is_acceptable, Binding, Config, ConfigSpec, Proto};
use crate::config_file::{
    every_field_is_read_as_it_is, load, of_doc, to_doc, ConfigDoc, ConfigFile,
};
use crate::connect::{
    a_reply_touches_only_its_session, payload_cap, pump_udp_in, pump_udp_out,
    reaping_releases_what_was_silent_for_a_minute, sending_touches_only_its_flow, Flow,
    ReplyStep,
};
use crate::edit::{
    binding_added, binding_deleted, binding_patched, offer_added, offer_deleted, offer_patched,
    peer_added, peer_deleted, peer_patched, Edited,
};
use crate::endpoint::{endpoint_id_parse, id_of_text, id_text, EndpointId};
use crate::error::{Error, Fault};
use crate::grants::{
    a_binding_is_active_exactly_when_enabled, admission_follows_the_entry, config_admits,
    may_reach, reach_follows_the_entries,
};
use crate::identity::{load_or_create_key, KeyFile, KeyStep};
use crate::link::{
    start, the_listeners_follow_the_configuration, Link, LinkEvent, LinkStep, Phase,
};
use crate::listeners::{Listeners, Sock};
use crate::path::{
    report_path, the_selected_path_is_reported, Occasion, PathEvent, PathInfo, PathStep,
};
use crate::portmap::PortMap;
use crate::proto::{
    bytes_content, datagram_parts, datagram_round_trips, decode_datagram, encode_datagram,
};
use crate::report::{
    a_binding_is_shown_as_it_is, a_peer_is_shown_as_it_is, get_state, StateView,
};
use crate::seed::{
    an_allowed_peer_is_admitted, flags_add_enabled_bindings, flags_add_enabled_entries,
    names_first, seeding_never_clobbers,
};
use crate::serve::{serve_conn, Accepted, ConnStep};
use crate::state::{
    a_mutation_is_answered_by_what_became_of_it, a_refused_mutation_changes_nothing,
    a_report_shows_what_is_known, an_accepted_mutation_is_valid_and_saved, lists_ids, live_report,
    opt_text, settled, BindState, LocalPort, Shared, SharedSpec,
};
use crate::text::{trimmed, u16_of};
use crate::token::{load_or_create_token, TokenStep};
use bytes::Bytes;
use std::sync::Arc;
use vstd::prelude::*;

verus! {

// ---------------------------------------------------------------- grants

/// Of an acceptable configuration, a listed peer is admitted exactly when its entry is
/// enabled, and the ports it is granted are those of the enabled offers of the protocol,
/// shared or its own, and no others; a peer that is not admitted is granted no list.
pub proof fn peers_are_granted_what_is_offered(
    cfg: &Config,
    i: int,
    proto: Proto,
    admitted: bool,
    granted: Option<Vec<u16>>,
    port: u16,
)
    requires
        config_valid(cfg@),
        0 <= i < cfg.serve.peers@.len(),
        call_ensures(Config::admits, (cfg, &cfg.serve.peers@[i].id), admitted),
        call_ensures(Config::granted, (cfg, &cfg.serve.peers@[i].id, proto), granted),
    ensures
        admitted == cfg.serve.peers@[i].enabled,
        granted is Some <==> cfg.serve.peers@[i].enabled,
        granted matches Some(ports) ==> {
            let (shared, own) = (cfg.serve.shared@, cfg.serve.peers@[i].offers@);
            ports@.contains(port) <==> (exists|k: int|
                0 <= k < shared.len() && (#[trigger] shared[k]).enabled && shared[k].proto == proto
                    && shared[k].port == port) || (exists|k: int|
                0 <= k < own.len() && (#[trigger] own[k]).enabled && own[k].proto == proto
                    && own[k].port == port)
        },
{
    let c = cfg@;
    what_is_acceptable(c);
    assert(c.peers[i] == cfg.serve.peers@[i]@);
    admission_follows_the_entry(c, i, c.peers[i].id);
    reach_follows_the_entries(c, i, proto, port);
    if let Some(ports) = granted {
        let (shared, own) = (cfg.serve.shared@, cfg.serve.peers@[i].offers@);
        assert(ports@.contains(port) <==> may_reach(c, c.peers[i].id, proto, port));
        assert(forall|k: int| 0 <= k < shared.len() ==> c.shared[k] == (#[trigger] shared[k])@);
        assert(forall|k: int|
            0 <= k < own.len() ==> c.peers[i].offers[k] == (#[trigger] own[k])@);
        if exists|k: int|
            0 <= k < c.shared.len() && (#[trigger] c.shared[k]).enabled && c.shared[k].proto
                == proto && c.shared[k].port == port {
            let k = choose|k: int|
                0 <= k < c.shared.len() && (#[trigger] c.shared[k]).enabled && c.shared[k].proto
                    == proto && c.shared[k].port == port;
            assert(shared[k].enabled);
        }
        if exists|k: int|
            0 <= k < c.peers[i].offers.len() && (#[trigger] c.peers[i].offers[k]).enabled
                && c.peers[i].offers[k].proto == proto && c.peers[i].offers[k].port == port {
            let k = choose|k: int|
                0 <= k < c.peers[i].offers.len() && (#[trigger] c.peers[i].offers[k]).enabled
                    && c.peers[i].offers[k].proto == proto && c.peers[i].offers[k].port == port;
            assert(own[k].enabled);
        }
        if exists|k: int|
            0 <= k < shared.len() && (#[trigger] shared[k]).enabled && shared[k].proto == proto
                && shared[k].port == port {
            let k = choose|k: int|
                0 <= k < shared.len() && (#[trigger] shared[k]).enabled && shared[k].proto == proto
                    && shared[k].port == port;
            assert(c.shared[k].enabled);
        }
        if exists|k: int|
            0 <= k < own.len() && (#[trigger] own[k]).enabled && own[k].proto == proto
                && own[k].port == port {
            let k = choose|k: int|
                0 <= k < own.len() && (#[trigger] own[k]).enabled && own[k].proto == proto
                    && own[k].port == port;
            assert(c.peers[i].offers[k].enabled);
        }
    }
}

/// The active bindings are the enabled ones, of either protocol, and no others.
pub proof fn the_active_bindings_are_the_enabled_ones(cfg: &Config, r: Vec<Binding>)
    requires
        call_ensures(Config::active_bindings, (cfg,), r),
    ensures
        forall|j: int|
            0 <= j < r@.len() ==> (#[trigger] r@[j]).enabled && exists|i: int|
                0 <= i < cfg.connect.bindings@.len() && (#[trigger] cfg.connect.bindings@[i])@
                    == r@[j]@,
        forall|i: int|
            0 <= i < cfg.connect.bindings@.len() && (#[trigger] cfg.connect.bindings@[i]).enabled
                ==> exists|j: int| 0 <= j < r@.len() && (#[trigger] r@[j])@
                == cfg.connect.bindings@[i]@,
{
    let all = cfg@.bindings;
    let w = crate::grants::enabled_bindings(all);
    assert(w == crate::config::bindings_view(r@));
    assert forall|j: int| 0 <= j < r@.len() implies (#[trigger] r@[j]).enabled && exists|i: int|
        0 <= i < cfg.connect.bindings@.len() && (#[trigger] cfg.connect.bindings@[i])@ == r@[j]@ by {
        assert(w[j] == r@[j]@);
        a_binding_is_active_exactly_when_enabled(all, w[j], w[j]);
        assert(w.contains(w[j]));
        let i = all.index_of(w[j]);
        assert(all[i] == cfg.connect.bindings@[i]@);
    }
    assert forall|i: int|
        0 <= i < cfg.connect.bindings@.len() && (
        #[trigger] cfg.connect.bindings@[i]).enabled implies exists|j: int|
        0 <= j < r@.len() && (#[trigger] r@[j])@ == cfg.connect.bindings@[i]@ by {
        let b = cfg.connect.bindings@[i]@;
        assert(all[i] == b);
        assert(all.contains(b));
        a_binding_is_active_exactly_when_enabled(all, b, b);
        let j = w.index_of(b);
        assert(w[j] == r@[j]@);
    }
}

// ---------------------------------------------------------------- edits

/// Whether an edit came to what it should: it was made, or refused for what is wrong with
/// it and everything is as it was.
pub open spec fn came_to(
    before: ConfigSpec,
    after: ConfigSpec,
    edited: Edited,
    r: Result<(), Fault>,
) -> bool {
    &&& r is Ok ==> edited == Ok::<ConfigSpec, Fault>(after)
    &&& r matches Err(f) ==> edited == Err::<ConfigSpec, Fault>(f) && after == before
}

/// Each edit of a configuration is the one its name says, on what it is given.
pub proof fn each_edit_is_the_one_it_is_called(
    id: EndpointId,
    scope: Option<EndpointId>,
    proto: Proto,
    port: u16,
    remote: u16,
    to: Option<u16>,
    label: String,
    name: Option<String>,
    enabled: Option<bool>,
)
    ensures
        forall|c: &mut Config, r: Result<(), Fault>| #[trigger]
            call_ensures(Config::add_peer, (c, id, label), r) ==> came_to(
                (*c)@,
                (*final(c))@,
                peer_added((*c)@, id, label@),
                r,
            ),
        forall|c: &mut Config, r: Result<(), Fault>| #[trigger]
            call_ensures(Config::patch_peer, (c, id, name, enabled), r) ==> came_to(
                (*c)@,
                (*final(c))@,
                peer_patched((*c)@, id, opt_text(name), enabled),
                r,
            ),
        forall|c: &mut Config, r: Result<(), Fault>| #[trigger]
            call_ensures(Config::del_peer, (c, id), r) ==> came_to(
                (*c)@,
                (*final(c))@,
                peer_deleted((*c)@, id),
                r,
            ),
        forall|c: &mut Config, r: Result<(), Fault>| #[trigger]
            call_ensures(Config::add_offer, (c, scope, proto, port, label), r) ==> came_to(
                (*c)@,
                (*final(c))@,
                offer_added((*c)@, scope, proto, port, label@),
                r,
            ),
        forall|c: &mut Config, r: Result<(), Fault>| #[trigger]
            call_ensures(Config::patch_offer, (c, scope, proto, port, name, enabled), r) ==> came_to(
                (*c)@,
                (*final(c))@,
                offer_patched((*c)@, scope, proto, port, opt_text(name), enabled),
                r,
            ),
        forall|c: &mut Config, r: Result<(), Fault>| #[trigger]
            call_ensures(Config::del_offer, (c, scope, proto, port), r) ==> came_to(
                (*c)@,
                (*final(c))@,
                offer_deleted((*c)@, scope, proto, port),
                r,
            ),
        forall|c: &mut Config, r: Result<(), Fault>| #[trigger]
            call_ensures(Config::add_binding, (c, proto, port, remote, label), r) ==> came_to(
                (*c)@,
                (*final(c))@,
                binding_added((*c)@, proto, port, remote, label@),
                r,
            ),
        forall|c: &mut Config, r: Result<(), Fault>| #[trigger]
            call_ensures(Config::patch_binding, (c, proto, port, to, name, enabled), r) ==> came_to(
                (*c)@,
                (*final(c))@,
                binding_patched((*c)@, proto, port, to, opt_text(name), enabled),
                r,
            ),
        forall|c: &mut Config, r: Result<(), Fault>| #[trigger]
            call_ensures(Config::del_binding, (c, proto, port), r) ==> came_to(
                (*c)@,
                (*final(c))@,
                binding_deleted((*c)@, proto, port),
                r,
            ),
{
}

/// Whether a request came to what it should: one that is answered with success has
/// published what the edit leaves, which is acceptable, and wakes every watcher; one that
/// is not has changed nothing. Who is connected and what is bound it does not touch.
pub open spec fn request_came_to(
    before: SharedSpec,
    after: SharedSpec,
    edited: Edited,
    r: Result<(), Error>,
) -> bool {
    &&& r is Ok ==> edited == Ok::<ConfigSpec, Fault>(after.config) && config_valid(after.config)
        && after.version != before.version
    &&& r is Err ==> after == before
    &&& edited matches Err(f) ==> r == Err::<(), Error>(Error::Fault(f))
    &&& after.peers == before.peers && after.binds == before.binds && after.started
        == before.started
}

proof fn lemma_request<G>(
    before: SharedSpec,
    after: SharedSpec,
    edited: Edited,
    save: G,
    r: Result<(), Error>,
) where G: FnOnce(&Config) -> Result<(), String>
    requires
        crate::admin::applied(before, after, edited, save, r),
    ensures
        request_came_to(before, after, edited, r),
{
    crate::admin::an_edit_is_answered_by_what_became_of_it(before, after, edited, save, r);
    crate::admin::an_edit_is_all_or_nothing(before, after, edited, save, r);
}

/// Each request about peers is the edit that it is called, on the peer that it names.
pub proof fn each_peer_request_is_the_one_it_is_called<G>(
    add: PeerAdd,
    patch: PeerPatch,
    del: IdRef,
    save: G,
) where G: FnOnce(&Config) -> Result<(), String>
    ensures
        forall|s: &mut Shared, r: Result<(), Error>| #[trigger]
            call_ensures(add_peer::<G>, (s, add, save), r) ==> match id_of_text(add.id@) {
                Ok(id) => request_came_to(
                    (*s)@,
                    (*final(s))@,
                    peer_added((*s)@.config, id, add.name@),
                    r,
                ),
                Err(_) => r is Err && (*final(s))@ == (*s)@,
            },
        forall|s: &mut Shared, r: Result<(), Error>| #[trigger]
            call_ensures(patch_peer::<G>, (s, patch, save), r) ==> match id_of_text(patch.id@) {
                Ok(id) => request_came_to(
                    (*s)@,
                    (*final(s))@,
                    peer_patched((*s)@.config, id, opt_text(patch.name), patch.enabled),
                    r,
                ),
                Err(_) => r is Err && (*final(s))@ == (*s)@,
            },
        forall|s: &mut Shared, r: Result<(), Error>| #[trigger]
            call_ensures(del_peer::<G>, (s, del, save), r) ==> match id_of_text(del.id@) {
                Ok(id) => request_came_to(
                    (*s)@,
                    (*final(s))@,
                    peer_deleted((*s)@.config, id),
                    r,
                ),
                Err(_) => r is Err && (*final(s))@ == (*s)@,
            },
{
    assert forall|s: &mut Shared, r: Result<(), Error>| #[trigger]
        call_ensures(add_peer::<G>, (s, add, save), r) implies match id_of_text(add.id@) {
        Ok(id) => request_came_to(
            (*s)@,
            (*final(s))@,
            peer_added((*s)@.config, id, add.name@),
            r,
        ),
        Err(_) => r is Err && (*final(s))@ == (*s)@,
    } by {
        if let Ok(id) = id_of_text(add.id@) {
            let edited = peer_added((*s)@.config, id, add.name@);
            lemma_request((*s)@, (*final(s))@, edited, save, r);
        }
    }
    assert forall|s: &mut Shared, r: Result<(), Error>| #[trigger]
        call_ensures(patch_peer::<G>, (s, patch, save), r) implies match id_of_text(patch.id@) {
        Ok(id) => request_came_to(
            (*s)@,
            (*final(s))@,
            peer_patched((*s)@.config, id, opt_text(patch.name), patch.enabled),
            r,
        ),
        Err(_) => r is Err && (*final(s))@ == (*s)@,
    } by {
        if let Ok(id) = id_of_text(patch.id@) {
            let edited = peer_patched((*s)@.config, id, opt_text(patch.name), patch.enabled);
            lemma_request((*s)@, (*final(s))@, edited, save, r);
        }
    }
    assert forall|s: &mut Shared, r: Result<(), Error>| #[trigger]
        call_ensures(del_peer::<G>, (s, del, save), r) implies match id_of_text(del.id@) {
        Ok(id) => request_came_to((*s)@, (*final(s))@, peer_deleted((*s)@.config, id), r),
        Err(_) => r is Err && (*final(s))@ == (*s)@,
    } by {
        if let Ok(id) = id_of_text(del.id@) {
            let edited = peer_deleted((*s)@.config, id);
            lemma_request((*s)@, (*final(s))@, edited, save, r);
        }
    }
}

/// Each request about offers is the edit that it is called, on the list that it names.
pub proof fn each_offer_request_is_the_one_it_is_called<G>(
    add: OfferAdd,
    patch: OfferPatch,
    del: OfferRef,
    save: G,
) where G: FnOnce(&Config) -> Result<(), String>
    ensures
        forall|s: &mut Shared, r: Result<(), Error>| #[trigger]
            call_ensures(add_offer::<G>, (s, add, save), r) ==> match scope_of(opt_text(add.peer)) {
                Ok(at) => request_came_to(
                    (*s)@,
                    (*final(s))@,
                    offer_added((*s)@.config, at, add.proto, add.port, add.name@),
                    r,
                ),
                Err(_) => r is Err && (*final(s))@ == (*s)@,
            },
        forall|s: &mut Shared, r: Result<(), Error>| #[trigger]
            call_ensures(patch_offer::<G>, (s, patch, save), r) ==> match scope_of(
                opt_text(patch.peer),
            ) {
                Ok(at) => request_came_to(
                    (*s)@,
                    (*final(s))@,
                    offer_patched(
                        (*s)@.config,
                        at,
                        patch.proto,
                        patch.port,
                        opt_text(patch.name),
                        patch.enabled,
                    ),
                    r,
                ),
                Err(_) => r is Err && (*final(s))@ == (*s)@,
            },
        forall|s: &mut Shared, r: Result<(), Error>| #[trigger]
            call_ensures(del_offer::<G>, (s, del, save), r) ==> match scope_of(opt_text(del.peer)) {
                Ok(at) => request_came_to(
                    (*s)@,
                    (*final(s))@,
                    offer_deleted((*s)@.config, at, del.proto, del.port),
                    r,
                ),
                Err(_) => r is Err && (*final(s))@ == (*s)@,
            },
{
    assert forall|s: &mut Shared, r: Result<(), Error>| #[trigger]
        call_ensures(add_offer::<G>, (s, add, save), r) implies match scope_of(
        opt_text(add.peer),
    ) {
        Ok(at) => request_came_to(
            (*s)@,
            (*final(s))@,
            offer_added((*s)@.config, at, add.proto, add.port, add.name@),
            r,
        ),
        Err(_) => r is Err && (*final(s))@ == (*s)@,
    } by {
        if let Ok(at) = scope_of(opt_text(add.peer)) {
            let edited = offer_added((*s)@.config, at, add.proto, add.port, add.name@);
            lemma_request((*s)@, (*final(s))@, edited, save, r);
        }
    }
    assert forall|s: &mut Shared, r: Result<(), Error>| #[trigger]
        call_ensures(patch_offer::<G>, (s, patch, save), r) implies match scope_of(
        opt_text(patch.peer),
    ) {
        Ok(at) => request_came_to(
            (*s)@,
            (*final(s))@,
            offer_patched(
                (*s)@.config,
                at,
                patch.proto,
                patch.port,
                opt_text(patch.name),
                patch.enabled,
            ),
            r,
        ),
        Err(_) => r is Err && (*final(s))@ == (*s)@,
    } by {
        if let Ok(at) = scope_of(opt_text(patch.peer)) {
            let edited = offer_patched(
                (*s)@.config,
                at,
                patch.proto,
                patch.port,
                opt_text(patch.name),
                patch.enabled,
            );
            lemma_request((*s)@, (*final(s))@, edited, save, r);
        }
    }
    assert forall|s: &mut Shared, r: Result<(), Error>| #[trigger]
        call_ensures(del_offer::<G>, (s, del, save), r) implies match scope_of(
        opt_text(del.peer),
    ) {
        Ok(at) => request_came_to(
            (*s)@,
            (*final(s))@,
            offer_deleted((*s)@.config, at, del.proto, del.port),
            r,
        ),
        Err(_) => r is Err && (*final(s))@ == (*s)@,
    } by {
        if let Ok(at) = scope_of(opt_text(del.peer)) {
            let edited = offer_deleted((*s)@.config, at, del.proto, del.port);
            lemma_request((*s)@, (*final(s))@, edited, save, r);
        }
    }
}

/// Each request about bindings is the edit that it is called, on the binding that it
/// names.
pub proof fn each_binding_request_is_the_one_it_is_called<G>(
    add: BindingAdd,
    patch: BindingPatch,
    del: BindingRef,
    save: G,
) where G: FnOnce(&Config) -> Result<(), String>
    ensures
        forall|s: &mut Shared, r: Result<(), Error>| #[trigger]
            call_ensures(add_binding::<G>, (s, add, save), r) ==> request_came_to(
                (*s)@,
                (*final(s))@,
                binding_added((*s)@.config, add.proto, add.local, add.remote, add.name@),
                r,
            ),
        forall|s: &mut Shared, r: Result<(), Error>| #[trigger]
            call_ensures(patch_binding::<G>, (s, patch, save), r) ==> request_came_to(
                (*s)@,
                (*final(s))@,
                binding_patched(
                    (*s)@.config,
                    patch.proto,
                    patch.local,
                    patch.remote,
                    opt_text(patch.name),
                    patch.enabled,
                ),
                r,
            ),
        forall|s: &mut Shared, r: Result<(), Error>| #[trigger]
            call_ensures(del_binding::<G>, (s, del, save), r) ==> request_came_to(
                (*s)@,
                (*final(s))@,
                binding_deleted((*s)@.config, del.proto, del.local),
                r,
            ),
{
    assert forall|s: &mut Shared, r: Result<(), Error>| #[trigger]
        call_ensures(add_binding::<G>, (s, add, save), r) implies request_came_to(
        (*s)@,
        (*final(s))@,
        binding_added((*s)@.config, add.proto, add.local, add.remote, add.name@),
        r,
    ) by {
        let edited = binding_added((*s)@.config, add.proto, add.local, add.remote, add.name@);
        lemma_request((*s)@, (*final(s))@, edited, save, r);
    }
    assert forall|s: &mut Shared, r: Result<(), Error>| #[trigger]
        call_ensures(patch_binding::<G>, (s, patch, save), r) implies request_came_to(
        (*s)@,
        (*final(s))@,
        binding_patched(
            (*s)@.config,
            patch.proto,
            patch.local,
            patch.remote,
            opt_text(patch.name),
            patch.enabled,
        ),
        r,
    ) by {
        let edited = binding_patched(
            (*s)@.config,
            patch.proto,
            patch.local,
            patch.remote,
            opt_text(patch.name),
            patch.enabled,
        );
        lemma_request((*s)@, (*final(s))@, edited, save, r);
    }
    assert forall|s: &mut Shared, r: Result<(), Error>| #[trigger]
        call_ensures(del_binding::<G>, (s, del, save), r) implies request_came_to(
        (*s)@,
        (*final(s))@,
        binding_deleted((*s)@.config, del.proto, del.local),
        r,
    ) by {
        let edited = binding_deleted((*s)@.config, del.proto, del.local);
        lemma_request((*s)@, (*final(s))@, edited, save, r);
    }
}

// ---------------------------------------------------------------- flags

/// Whatever was configured, the serving side's flags admit every peer that they allow and
/// that was not listed, open every port that they name and that was not listed to every
/// admitted peer, keep every entry as it is in its place, and say whether they added
/// anything.
pub proof fn flags_of_the_serving_side_take_hold(
    allow: &[EndpointId],
    tcp: &[u16],
    udp: &[u16],
    id: EndpointId,
    i: int,
)
    ensures
        forall|c: &mut Config, changed: bool| #[trigger]
            call_ensures(Config::seed_from_flags, (c, allow, tcp, udp), changed) ==> {
                let (was, left) = ((*c)@, (*final(c))@);
                &&& changed <==> left != was
                &&& left.bindings == was.bindings
                &&& 0 <= i < was.peers.len() ==> left.peers[i] == was.peers[i]
                &&& 0 <= i < was.shared.len() ==> left.shared[i] == was.shared[i]
                &&& was.peers.len() <= i < left.peers.len() ==> left.peers[i].enabled
                    && left.peers[i].name.len() == 0 && left.peers[i].offers.len() == 0
                    && allow@.contains(left.peers[i].id)
                &&& was.shared.len() <= i < left.shared.len() ==> left.shared[i].enabled
                    && left.shared[i].name.len() == 0
                &&& allow@.contains(id) && (forall|k: int|
                    0 <= k < was.peers.len() ==> (#[trigger] was.peers[k]).id != id)
                    ==> config_admits(left, id)
                &&& !allow@.contains(id) ==> config_admits(left, id) == config_admits(was, id)
            },
{
    assert forall|c: &mut Config, changed: bool| #[trigger]
        call_ensures(Config::seed_from_flags, (c, allow, tcp, udp), changed) implies ({
        let (was, left) = ((*c)@, (*final(c))@);
        &&& changed <==> left != was
        &&& left.bindings == was.bindings
        &&& 0 <= i < was.peers.len() ==> left.peers[i] == was.peers[i]
        &&& 0 <= i < was.shared.len() ==> left.shared[i] == was.shared[i]
        &&& was.peers.len() <= i < left.peers.len() ==> left.peers[i].enabled && left.peers[i].name.len()
            == 0 && left.peers[i].offers.len() == 0 && allow@.contains(left.peers[i].id)
        &&& was.shared.len() <= i < left.shared.len() ==> left.shared[i].enabled
            && left.shared[i].name.len() == 0
        &&& allow@.contains(id) && (forall|k: int|
            0 <= k < was.peers.len() ==> (#[trigger] was.peers[k]).id != id) ==> config_admits(
            left,
            id,
        )
        &&& !allow@.contains(id) ==> config_admits(left, id) == config_admits(was, id)
    }) by {
        let was = (*c)@;
        flags_add_enabled_entries(was, allow@, tcp@, udp@);
        seeding_never_clobbers(was, allow@, tcp@, udp@, seq![], seq![]);
        an_allowed_peer_is_admitted(was, allow@, tcp@, udp@, id, Proto::Tcp, 0);
    }
}

/// Whatever was configured, the connecting side's flags keep every entry as it is in its
/// place and add enabled bindings only; they say whether they added any.
pub proof fn flags_of_the_connecting_side_take_hold(tcp: &[PortMap], udp: &[PortMap], i: int)
    ensures
        forall|c: &mut Config, changed: bool| #[trigger]
            call_ensures(Config::seed_bindings, (c, tcp, udp), changed) ==> {
                let (was, left) = ((*c)@, (*final(c))@);
                &&& changed <==> left != was
                &&& left.peers == was.peers && left.shared == was.shared
                &&& 0 <= i < was.bindings.len() ==> left.bindings[i] == was.bindings[i]
                &&& was.bindings.len() <= i < left.bindings.len() ==> left.bindings[i].enabled
                    && left.bindings[i].name.len() == 0 && (match left.bindings[i].proto {
                    Proto::Tcp => names_first(tcp@, left.bindings[i].local, left.bindings[i].remote),
                    Proto::Udp => names_first(udp@, left.bindings[i].local, left.bindings[i].remote),
                })
            },
{
    assert forall|c: &mut Config, changed: bool| #[trigger]
        call_ensures(Config::seed_bindings, (c, tcp, udp), changed) implies ({
        let (was, left) = ((*c)@, (*final(c))@);
        &&& changed <==> left != was
        &&& left.peers == was.peers && left.shared == was.shared
        &&& 0 <= i < was.bindings.len() ==> left.bindings[i] == was.bindings[i]
        &&& was.bindings.len() <= i < left.bindings.len() ==> left.bindings[i].enabled
            && left.bindings[i].name.len() == 0 && (match left.bindings[i].proto {
                    Proto::Tcp => names_first(tcp@, left.bindings[i].local, left.bindings[i].remote),
                    Proto::Udp => names_first(udp@, left.bindings[i].local, left.bindings[i].remote),
                })
    }) by {
        let was = (*c)@;
        flags_add_enabled_bindings(was, tcp@, udp@);
        seeding_never_clobbers(was, seq![], seq![], seq![], tcp@, udp@);
    }
}

// ---------------------------------------------------------------- the file

/// What is put into the file says of each entry what the entry says, and what is read
/// from it says of each entry what the file says: name, offers, and whether it is
/// enabled.
pub proof fn the_file_says_what_the_configuration_says(
    cfg: &Config,
    d: ConfigDoc,
    from: ConfigDoc,
    r: Result<Config, String>,
    i: int,
)
    requires
        call_ensures(to_doc, (cfg,), d),
        call_ensures(of_doc, (from,), r),
    ensures
        d.peers@.len() == cfg.serve.peers@.len(),
        d@.shared == cfg@.shared && d@.bindings == cfg@.bindings,
        0 <= i < d.peers@.len() ==> d.peers@[i].id@ == id_text(cfg.serve.peers@[i].id)
            && d.peers@[i].name@ == cfg.serve.peers@[i].name@ && d.peers@[i].enabled
            == cfg.serve.peers@[i].enabled && d.peers@[i]@.offers == cfg.serve.peers@[i]@.offers,
        r matches Ok(c) ==> {
            &&& c.serve.peers@.len() == from.peers@.len()
            &&& c@.shared == from@.shared && c@.bindings == from@.bindings
            &&& 0 <= i < from.peers@.len() ==> endpoint_id_parse(from.peers@[i].id@) == Ok::<
                [u8; 32],
                Seq<char>,
            >(c.serve.peers@[i].id.bytes) && c.serve.peers@[i].name@ == from.peers@[i].name@
                && c.serve.peers@[i].enabled == from.peers@[i].enabled
                && c.serve.peers@[i]@.offers == from.peers@[i]@.offers
        },
{
    if 0 <= i < d.peers@.len() {
        assert(d@.peers[i] == d.peers@[i]@);
        assert(cfg@.peers[i] == cfg.serve.peers@[i]@);
        crate::config_file::every_field_is_written_as_it_is(cfg@, i);
    }
    every_field_is_read_as_it_is(from@);
    if let Ok(c) = r {
        if 0 <= i < from.peers@.len() {
            assert(from@.peers[i] == from.peers@[i]@);
            assert(c@.peers[i] == c.serve.peers@[i]@);
        }
    }
}

/// A file that is loaded gives an acceptable configuration in which each peer is admitted
/// exactly when its entry in the file says that it is enabled; a missing file gives one
/// that admits nobody.
pub proof fn a_loaded_file_admits_whom_it_names<P>(
    path: &str,
    file: ConfigFile,
    parse: P,
    cfg: Config,
    stranger: EndpointId,
) where P: FnOnce(&str) -> Result<ConfigDoc, String>
    requires
        call_ensures(load::<P>, (path, file, parse), Ok(cfg)),
    ensures
        !(file is Unreadable),
        file is Missing ==> !config_admits(cfg@, stranger),
        file matches ConfigFile::Text(text) ==> config_valid(cfg@) && exists|
            words: &str,
            d: ConfigDoc,
        |
            {
                &&& words@ == text@
                &&& #[trigger] call_ensures(parse, (words,), Ok(d))
                &&& cfg@.peers.len() == d.peers@.len()
                &&& forall|i: int|
                    0 <= i < d.peers@.len() ==> config_admits(cfg@, (#[trigger] cfg@.peers[i]).id)
                        == d.peers@[i].enabled
            },
{
    if let ConfigFile::Text(text) = file {
        let (words, parsed) = choose|words: &str, parsed: Result<ConfigDoc, String>|
            words@ == text@ && #[trigger] call_ensures(parse, (words,), parsed)
                && crate::config_file::parsed_as(path@, parsed, Ok(cfg));
        let d = parsed->Ok_0;
        assert(parsed == Ok::<ConfigDoc, String>(d));
        every_field_is_read_as_it_is(d@);
        assert forall|i: int| 0 <= i < d.peers@.len() implies config_admits(
            cfg@,
            (#[trigger] cfg@.peers[i]).id,
        ) == d.peers@[i].enabled by {
            crate::config_file::a_loaded_peer_is_admitted_as_the_file_says(path@, d, cfg, i);
        }
        assert(call_ensures(parse, (words,), Ok::<ConfigDoc, String>(d)));
    }
}

// ---------------------------------------------------------------- the link

/// Once a link is started, or has followed a change of an acceptable configuration, no
/// parked binding is bound, of either protocol, and whatever is bound leads where an
/// enabled binding for it says; a link that is started has every enabled binding bound.
pub proof fn parked_bindings_are_not_bound<T, U, B>(
    peer: EndpointId,
    bind: &B,
    i: int,
    k: LocalPort,
    now: u64,
) where B: Fn(&Binding) -> Result<Sock<T, U>, String>
    ensures
        forall|l: &mut Listeners<T, U>, s: &mut Shared, r: Result<Link, Error>| #[trigger]
            call_ensures(start::<T, U, B>, (l, s, peer, bind), r) && config_valid((*s)@.config) && 0
                <= i < (*s)@.config.bindings.len() ==> {
                let b = (*s)@.config.bindings[i];
                let own = LocalPort { proto: b.proto, port: b.local };
                &&& !b.enabled ==> !(*final(l))@.dom().contains(own)
                &&& b.enabled && r is Ok ==> (*final(l))@.dom().contains(own)
                    && (*final(l))@[own].remote == b.remote
            },
        forall|
            link: &mut Link,
            l: &mut Listeners<T, U>,
            s: &mut Shared,
            step: LinkStep<T, U>,
        | #[trigger]
            call_ensures(
                Link::step::<T, U, B>,
                (link, l, s, LinkEvent::ConfigChanged, now, bind),
                step,
            ) && config_valid((*s)@.config) && 0 <= i < (*s)@.config.bindings.len() && ((
            *link).phase == Phase::Carrying || (*link).phase == Phase::Waiting) ==> {
                let b = (*s)@.config.bindings[i];
                let own = LocalPort { proto: b.proto, port: b.local };
                &&& !b.enabled ==> !(*final(l))@.dom().contains(own)
                &&& b.enabled && (*l)@.dom().contains(own) ==> (*final(l))@.dom().contains(own)
                    && (*final(l))@[own].remote == b.remote
                    && (*final(l))@[own].sock == (*l)@[own].sock
                &&& (*final(l))@.dom().contains(k) ==> exists|j: int|
                    0 <= j < (*s)@.config.bindings.len() && (
                    #[trigger] (*s)@.config.bindings[j]).enabled
                        && (*s)@.config.bindings[j].proto == k.proto
                        && (*s)@.config.bindings[j].local == k.port
            },
{
    assert forall|l: &mut Listeners<T, U>, s: &mut Shared, r: Result<Link, Error>| #[trigger]
        call_ensures(start::<T, U, B>, (l, s, peer, bind), r) && config_valid((*s)@.config) && 0
            <= i < (*s)@.config.bindings.len() implies ({
        let b = (*s)@.config.bindings[i];
        let own = LocalPort { proto: b.proto, port: b.local };
        &&& !b.enabled ==> !(*final(l))@.dom().contains(own)
        &&& b.enabled && r is Ok ==> (*final(l))@.dom().contains(own)
            && (*final(l))@[own].remote == b.remote
    }) by {
        let changed = choose|changed: bool| #[trigger]
            crate::link::followed(
                (*l)@,
                (*final(l))@,
                (*s)@,
                (*final(s))@,
                *bind,
                changed,
            );
        let b = (*s)@.config.bindings[i];
        the_listeners_follow_the_configuration(
            (*l)@,
            (*final(l))@,
            (*s)@,
            (*final(s))@,
            *bind,
            changed,
            i,
            k,
        );
        crate::link::what_was_asked_for_is_what_is_enabled((*s)@.config.bindings, (*final(l))@, 0);
    }
    assert forall|
        link: &mut Link,
        l: &mut Listeners<T, U>,
        s: &mut Shared,
        step: LinkStep<T, U>,
    | #[trigger]
        call_ensures(
            Link::step::<T, U, B>,
            (link, l, s, LinkEvent::ConfigChanged, now, bind),
            step,
        ) && config_valid((*s)@.config) && 0 <= i < (*s)@.config.bindings.len() && ((*link).phase
            == Phase::Carrying || (*link).phase == Phase::Waiting) implies ({
        let b = (*s)@.config.bindings[i];
        let own = LocalPort { proto: b.proto, port: b.local };
        &&& !b.enabled ==> !(*final(l))@.dom().contains(own)
        &&& b.enabled && (*l)@.dom().contains(own) ==> (*final(l))@.dom().contains(own)
            && (*final(l))@[own].remote == b.remote
            && (*final(l))@[own].sock == (*l)@[own].sock
        &&& (*final(l))@.dom().contains(k) ==> exists|j: int|
            0 <= j < (*s)@.config.bindings.len() && (#[trigger] (*s)@.config.bindings[j]).enabled
                && (*s)@.config.bindings[j].proto == k.proto && (*s)@.config.bindings[j].local
                == k.port
    }) by {
        assert(crate::link::follows((*link)@.phase, LinkEvent::ConfigChanged));
        let changed = choose|changed: bool| #[trigger]
            crate::link::followed(
                (*l)@,
                (*final(l))@,
                (*s)@,
                (*final(s))@,
                *bind,
                changed,
            );
        the_listeners_follow_the_configuration(
            (*l)@,
            (*final(l))@,
            (*s)@,
            (*final(s))@,
            *bind,
            changed,
            i,
            k,
        );
    }
}

// ---------------------------------------------------------------- datagrams

/// What is framed is read back as it was framed, and nothing shorter than a frame is
/// read.
pub proof fn a_framed_datagram_is_read_back(
    session: u32,
    port: u16,
    payload: &[u8],
    dg: Bytes,
    parts: Option<(u32, u16, Bytes)>,
)
    requires
        call_ensures(encode_datagram, (session, port, payload), dg),
        call_ensures(decode_datagram, (&dg,), parts),
    ensures
        parts matches Some((s, p, b)) && s == session && p == port && bytes_content(b)
            == payload@,
{
    datagram_round_trips(session, port, payload@);
}

/// A datagram goes out under the id of its flow and for the remote port of its mapping;
/// whatever comes back under that id is delivered to the source it was sent from, on the
/// socket of its session, for as long as the session is held.
pub proof fn an_answer_is_delivered_to_its_sender<S>(
    src: SocketAddr,
    m: PortMap,
    sock: &Arc<S>,
    payload: &[u8],
    now: u64,
    back: &Bytes,
    later: u64,
)
    ensures
        forall|s: &mut crate::connect::Sessions<S>, dg: Bytes| #[trigger]
            call_ensures(pump_udp_out::<S>, (s, src, m, sock, payload, now), dg) && (*s).wf()
                && crate::connect::has_room_for((*s)@, Flow { src, port: m.remote }) ==> {
                let left = (*final(s))@;
                let id = left.by_key[Flow { src, port: m.remote }];
                &&& left.by_key.dom().contains(Flow { src, port: m.remote })
                &&& left.by_id.dom().contains(id) && left.by_id[id].src == src && left.by_id[id].last
                    == now
                &&& datagram_parts(bytes_content(dg)) == Some((id, m.remote, payload@))
            },
        forall|s: &mut crate::connect::Sessions<S>, step: ReplyStep<S>| #[trigger]
            call_ensures(pump_udp_in::<S>, (s, back, later), step) ==> {
                let (was, left) = ((*s)@, (*final(s))@);
                &&& left.by_key == was.by_key
                &&& left.by_id.dom() == was.by_id.dom()
                &&& datagram_parts(bytes_content(*back)) matches Some((id, port, answer)) ==> {
                    &&& was.by_id.dom().contains(id) ==> (step matches ReplyStep::Deliver {
                        id: i,
                        sock: out,
                        src: to,
                        payload: b,
                    } && i == id && out == was.by_id[id].sock && to == was.by_id[id].src
                        && bytes_content(b) == answer && left.by_id[id].last == later)
                    &&& !was.by_id.dom().contains(id) ==> step is Unknown
                }
            },
{
    assert forall|s: &mut crate::connect::Sessions<S>, dg: Bytes| #[trigger]
        call_ensures(pump_udp_out::<S>, (s, src, m, sock, payload, now), dg) && (*s).wf()
            && crate::connect::has_room_for((*s)@, Flow { src, port: m.remote }) implies ({
        let left = (*final(s))@;
        let id = left.by_key[Flow { src, port: m.remote }];
        &&& left.by_key.dom().contains(Flow { src, port: m.remote })
        &&& left.by_id.dom().contains(id) && left.by_id[id].src == src && left.by_id[id].last == now
        &&& datagram_parts(bytes_content(dg)) == Some((id, m.remote, payload@))
    }) by {
        let f = Flow { src, port: m.remote };
        sending_touches_only_its_flow((*s)@, f, *sock, now, f, 0);
        datagram_round_trips(crate::connect::flow_id((*s)@, f), m.remote, payload@);
    }
    assert forall|s: &mut crate::connect::Sessions<S>, step: ReplyStep<S>| #[trigger]
        call_ensures(pump_udp_in::<S>, (s, back, later), step) implies ({
        let (was, left) = ((*s)@, (*final(s))@);
        &&& left.by_key == was.by_key
        &&& left.by_id.dom() == was.by_id.dom()
        &&& datagram_parts(bytes_content(*back)) matches Some((id, port, answer)) ==> {
            &&& was.by_id.dom().contains(id) ==> (step matches ReplyStep::Deliver {
                id: i,
                sock: out,
                src: to,
                payload: b,
            } && i == id && out == was.by_id[id].sock && to == was.by_id[id].src && bytes_content(b)
                == answer && left.by_id[id].last == later)
            &&& !was.by_id.dom().contains(id) ==> step is Unknown
        }
    }) by {
        if let Some((id, port, answer)) = datagram_parts(bytes_content(*back)) {
            a_reply_touches_only_its_session((*s)@, id, later, id);
        }
    }
}

/// Reaping takes the sessions that have been silent for a minute, and no others.
pub proof fn reaping_takes_silent_sessions_only<S, R>(now: u64, id: u32)
    ensures
        forall|s: &mut crate::connect::Sessions<S>, r: ()| #[trigger]
            call_ensures(crate::connect::Sessions::<S>::reap, (s, now), r) && (*s).wf() ==> {
                let (was, left) = ((*s)@, (*final(s))@);
                &&& left.by_id.dom().contains(id) <==> was.by_id.dom().contains(id) && now
                    - was.by_id[id].last < 60_000_000_000
                &&& left.by_id.dom().contains(id) ==> left.by_id[id] == was.by_id[id]
            },
        forall|s: &mut crate::serve::Sessions<S, R>, r: ()| #[trigger]
            call_ensures(crate::serve::Sessions::<S, R>::reap, (s, now), r) ==> {
                let (was, left) = ((*s)@, (*final(s))@);
                &&& left.dom().contains(id) <==> was.dom().contains(id) && now - was[id].last
                    < 60_000_000_000
                &&& left.dom().contains(id) ==> left[id] == was[id]
            },
{
    assert forall|s: &mut crate::connect::Sessions<S>, r: ()| #[trigger]
        call_ensures(crate::connect::Sessions::<S>::reap, (s, now), r) && (*s).wf() implies ({
        let (was, left) = ((*s)@, (*final(s))@);
        &&& left.by_id.dom().contains(id) <==> was.by_id.dom().contains(id) && now
            - was.by_id[id].last < 60_000_000_000
        &&& left.by_id.dom().contains(id) ==> left.by_id[id] == was.by_id[id]
    }) by {
        let f = Flow { src: SocketAddr::V4 { ip: 0, port: 0 }, port: 0 };
        reaping_releases_what_was_silent_for_a_minute((*s)@, now, f, id);
    }
}

// ---------------------------------------------------------------- requests

/// No list is edited and no state is shown but to a request that presents the token of
/// this process, and no list is edited unless it came in the header; which list, and how,
/// the path and the method say.
pub proof fn a_request_is_let_through_by_its_token(
    admin: &Admin,
    method: Method,
    path: &str,
    authorization: Option<&[u8]>,
    query: Option<&str>,
    r: Route,
    subject: Subject,
)
    requires
        call_ensures(route, (admin, method, path, authorization, query), r),
    ensures
        ({
            let shown = token_of(header_view(authorization), query_view(query));
            let headed = bearer_token(header_view(authorization));
            &&& r is State ==> shown == Some(admin.token@)
            &&& r == Route::Create(subject) <==> headed == Some(admin.token@) && method
                == Method::Post && is_path_of(path@, subject)
            &&& r == Route::Change(subject) <==> headed == Some(admin.token@) && method
                == Method::Patch && is_path_of(path@, subject)
            &&& r == Route::Remove(subject) <==> headed == Some(admin.token@) && method
                == Method::Delete && is_path_of(path@, subject)
            &&& r is Page <==> method == Method::Get && (path@ == "/"@ || path@ == "/index.html"@)
        }),
{
    each_request_goes_where_it_should(
        method,
        path@,
        header_view(authorization),
        query_view(query),
        admin.token@,
        subject,
    );
}

// ---------------------------------------------------------------- what is known

/// A peer that connects is connected from then on, unless it was; one that disconnects no
/// longer is; what is learned of the path of a connected peer is kept, of any other
/// ignored. None of this touches another peer, or anything else.
pub proof fn what_is_known_of_a_peer(
    id: EndpointId,
    now: u64,
    path: &str,
    addr: Option<String>,
    rtt: Option<u64>,
    other: EndpointId,
)
    ensures
        forall|s: &mut Shared, r: ()| #[trigger]
            call_ensures(Shared::peer_connected, (s, id, now), r) ==> {
                let (was, left) = ((*s)@, (*final(s))@);
                &&& left == (SharedSpec { peers: left.peers, ..was })
                &&& left.peers.dom().contains(id)
                &&& was.peers.dom().contains(id) ==> left.peers[id] == was.peers[id]
                &&& !was.peers.dom().contains(id) ==> left.peers[id].since == now
                    && left.peers[id].path.len() == 0
                &&& other != id ==> crate::listeners::same_at(was.peers, left.peers, other)
            },
        forall|s: &mut Shared, r: ()| #[trigger]
            call_ensures(Shared::peer_disconnected, (s, &id), r) ==> {
                let (was, left) = ((*s)@, (*final(s))@);
                &&& left == (SharedSpec { peers: left.peers, ..was })
                &&& !left.peers.dom().contains(id)
                &&& other != id ==> crate::listeners::same_at(was.peers, left.peers, other)
            },
        forall|s: &mut Shared, r: ()| #[trigger]
            call_ensures(Shared::peer_path, (s, id, path, addr, rtt), r) ==> {
                let (was, left) = ((*s)@, (*final(s))@);
                &&& left == (SharedSpec { peers: left.peers, ..was })
                &&& left.peers.dom() == was.peers.dom()
                &&& left.peers.dom().contains(id) ==> left.peers[id].path == path@ && left.peers[id].addr
                    == opt_text(addr) && left.peers[id].rtt_ms == rtt && left.peers[id].since
                    == was.peers[id].since
                &&& other != id ==> crate::listeners::same_at(was.peers, left.peers, other)
            },
{
    assert forall|s: &mut Shared, r: ()| #[trigger]
        call_ensures(Shared::peer_path, (s, id, path, addr, rtt), r)
        implies (*final(s))@.peers.dom() == (*s)@.peers.dom() by {
        assert((*final(s))@.peers.dom() =~= (*s)@.peers.dom());
    }
}

/// What is reported of a local port is what was last noted of it, until that is cleared;
/// noting or clearing it touches nothing else.
pub proof fn what_is_known_of_a_local_port(
    proto: Proto,
    local: u16,
    st: BindState,
    other: LocalPort,
    b: &Binding,
)
    requires
        other.proto != proto || other.port != local,
    ensures
        forall|s: &mut Shared, r: ()| #[trigger]
            call_ensures(Shared::set_bind, (s, proto, local, st), r) ==> {
                let (was, left) = ((*s)@, (*final(s))@);
                let k = LocalPort { proto, port: local };
                &&& left == (SharedSpec { binds: left.binds, ..was })
                &&& left.binds.dom().contains(k) && left.binds[k] == st@
                &&& crate::listeners::same_at(was.binds, left.binds, other)
            },
        forall|s: &mut Shared, r: ()| #[trigger]
            call_ensures(Shared::clear_bind, (s, proto, local), r) ==> {
                let (was, left) = ((*s)@, (*final(s))@);
                &&& left == (SharedSpec { binds: left.binds, ..was })
                &&& !left.binds.dom().contains(LocalPort { proto, port: local })
                &&& crate::listeners::same_at(was.binds, left.binds, other)
            },
        forall|s: &Shared, r: Option<BindState>| #[trigger]
            call_ensures(Shared::bind_state, (s, b), r) ==> {
                let k = LocalPort { proto: b.proto, port: b.local };
                &&& r is Some <==> s@.binds.dom().contains(k)
                &&& r matches Some(x) ==> x@ == s@.binds[k]
            },
{
}

/// What is shown of a running process is what it is: each listed peer and each binding in
/// its place, as enabled exactly when it is, every connected peer, and the offers for
/// everyone.
pub proof fn the_state_is_shown_as_it_is(
    admin: &Admin,
    shared: &Shared,
    now: u64,
    v: StateView,
    i: int,
)
    requires
        call_ensures(get_state, (admin, shared, now), v),
    ensures
        v.role == shared@.role && v.id@ == admin.id@ && v.config_path@ == shared@.path,
        now >= shared@.started ==> v.uptime_secs == (now - shared@.started) / 1_000_000_000,
        v.shared_offers@.len() == shared@.config.shared.len(),
        0 <= i < v.shared_offers@.len() ==> v.shared_offers@[i]@ == shared@.config.shared[i],
        v.peers@.len() == shared@.config.peers.len(),
        0 <= i < v.peers@.len() ==> {
            let (x, p) = (v.peers@[i], shared@.config.peers[i]);
            x.id@ == id_text(p.id) && x.name@ == p.name && x.enabled == p.enabled && x.offers@.len()
                == p.offers.len()
        },
        v.bindings@.len() == shared@.config.bindings.len(),
        0 <= i < v.bindings@.len() ==> {
            let (x, b) = (v.bindings@[i], shared@.config.bindings[i]);
            x.proto == b.proto && x.local == b.local && x.remote == b.remote && x.name@ == b.name
                && x.enabled == b.enabled && (x.runtime is Some
                <==> shared@.binds.dom().contains(LocalPort { proto: b.proto, port: b.local }))
        },
        0 <= i < v.live_peers@.len() ==> exists|id: EndpointId| #[trigger]
            shared@.peers.dom().contains(id) && v.live_peers@[i].id@ == id_text(id)
                && v.live_peers@[i].rtt_ms == shared@.peers[id].rtt_ms,
{
    if 0 <= i < v.shared_offers@.len() {
        assert(crate::config::offers_view(v.shared_offers@)[i] == v.shared_offers@[i]@);
    }
    assert(crate::config::offers_view(v.shared_offers@).len() == v.shared_offers@.len());
    if 0 <= i < v.peers@.len() {
        a_peer_is_shown_as_it_is(v.peers@[i], shared@.config.peers[i]);
    }
    if 0 <= i < v.bindings@.len() {
        a_binding_is_shown_as_it_is(v.bindings@[i], shared@.config.bindings[i], shared@.binds);
    }
    let ids = choose|ids: Seq<EndpointId>| #[trigger]
        lists_ids(ids, shared@.peers.dom()) && v.live_peers@.len() == ids.len() && forall|i: int|
            0 <= i < ids.len() ==> (#[trigger] v.live_peers@[i])@ == live_report(
                ids[i],
                shared@.peers[ids[i]],
                now,
            );
    if 0 <= i < v.live_peers@.len() {
        assert(ids.contains(ids[i]));
        assert(v.live_peers@[i]@ == live_report(ids[i], shared@.peers[ids[i]], now));
        a_report_shows_what_is_known(ids[i], shared@.peers[ids[i]], now);
        assert(shared@.peers.dom().contains(ids[i]));
    }
}

/// A path is reported when another is selected and while the connection is held, and then
/// as it is.
pub proof fn a_path_is_reported_as_it_is(
    event: PathEvent,
    paths: &[PathInfo],
    step: PathStep,
    i: int,
)
    requires
        call_ensures(report_path, (event, paths), step),
    ensures
        event is Ended <==> step is Stop,
        event is Other <==> step is Ignore,
        event matches PathEvent::Selected { relayed, addr } ==> (step matches PathStep::Report(r)
            && r.path@ == (if relayed {
            "relayed"@
        } else {
            "direct"@
        }) && (r.addr matches Some(a) && a@ == addr@)),
        event is Tick && 0 <= i < paths@.len() && paths@[i].selected && (forall|j: int|
            0 <= j < i ==> !(#[trigger] paths@[j]).selected) ==> (step matches PathStep::Report(r)
            && r.path@ == (if paths@[i].relayed {
            "relayed"@
        } else {
            "direct"@
        }) && (r.addr matches Some(a) && a@ == paths@[i].addr@) && r.rtt_nanos == Some(
            paths@[i].rtt_nanos,
        )),
{
    the_selected_path_is_reported(paths@, Occasion::StillUp, i);
}

/// A key or a token that was kept is used as it is; only where there is none is one made,
/// and a key that cannot be read or is damaged is never replaced.
pub proof fn what_was_kept_is_used(
    path: &str,
    key: KeyFile,
    k: Result<KeyStep, Error>,
    token: Option<&str>,
    t: TokenStep,
)
    requires
        call_ensures(load_or_create_key, (path, key), k),
        call_ensures(load_or_create_token, (token,), t),
    ensures
        k matches Ok(KeyStep::Create(_)) <==> key is Missing,
        k matches Ok(KeyStep::Keep(x)) ==> (key matches KeyFile::Bytes(v) && v@ == x@),
        key matches KeyFile::Bytes(v) ==> (k is Ok <==> v@.len() == 32),
        key is Unreadable ==> k is Err,
        t is Keep <==> (token matches Some(s) && trimmed(s@).len() > 0),
        t matches TokenStep::Keep(x) ==> (token matches Some(s) && x@ == trimmed(s@)),
        t matches TokenStep::Create(x) ==> x@.len() == 32,
{
    if let TokenStep::Create(x) = t {
        crate::token::a_token_is_hexadecimal(x@, 0);
    }
}

/// An edit is answered with success exactly when it was carried out, and otherwise with
/// what went wrong; whoever is denied is told so, and that nothing is there is told too.
pub proof fn a_reply_says_what_happened(
    done: &Result<(), Error>,
    r: Reply,
    denial: Denial,
    d: Reply,
    none: Reply,
)
    requires
        call_ensures(edit_reply, (done,), r),
        call_ensures(Denial::reply, (denial,), d),
        call_ensures(not_found, (), none),
    ensures
        r.status == 200 <==> done is Ok,
        r.status == 422 <==> done is Err,
        r.error is None <==> done is Ok,
        *done matches Err(e) ==> (r.error matches Some(m) && m@ == e.words()),
        d.status == 401 && d.error is Some,
        none.status == 404 && none.error is Some,
{
}

/// A bare port of the admin surface is one of this machine alone; an address is taken as
/// it is; port zero is no port of either.
pub proof fn a_bare_admin_port_stays_on_this_machine(
    spec: &str,
    parsed: Option<SocketAddr>,
    r: Result<SocketAddr, Error>,
)
    requires
        call_ensures(admin_addr, (spec, parsed), r),
    ensures
        u16_of(spec@) matches Some(port) ==> (r is Ok <==> port > 0) && (r matches Ok(a)
            ==> a.loopback() && a.port_number() == port),
        u16_of(spec@) is None ==> (r is Ok <==> (parsed matches Some(a) && a.port_number() > 0))
            && (r matches Ok(a) ==> parsed == Some(a)),
        r matches Ok(a) ==> a.port_number() > 0,
{
}

/// A payload fits where it and the header of six bytes fit together; a body is read only
/// if it says that it is no more than 64 KiB.
pub proof fn what_fits(
    max: Option<usize>,
    cap: Option<usize>,
    upper: Option<u64>,
    read: bool,
    payload: nat,
)
    requires
        call_ensures(payload_cap, (max,), cap),
        call_ensures(body_fits, (upper,), read),
    ensures
        cap is Some <==> max is Some,
        max matches Some(m) ==> (m >= 6 ==> (payload <= cap->Some_0 <==> payload + 6 <= m)) && (m
            < 6 ==> cap == Some(0usize)),
        read <==> (upper matches Some(n) && n <= 64 * 1024),
{
}

/// A connection that is over leaves no session behind; one that goes on keeps them all.
pub proof fn an_ended_connection_leaves_no_session<S, R>(saw: Accepted)
    ensures
        forall|s: &mut crate::serve::Sessions<S, R>, step: ConnStep| #[trigger]
            call_ensures(serve_conn::<S, R>, (s, saw), step) ==> {
                &&& step == ConnStep::TearDown <==> saw == Accepted::Ended
                &&& saw == Accepted::Ended ==> forall|id: u32|
                    !(#[trigger] (*final(s))@.dom().contains(id))
                &&& saw == Accepted::Stream ==> (*final(s))@ == (*s)@
            },
{
}

/// A configuration is accepted exactly when it is acceptable; every mutation leaves an
/// acceptable one acceptable, and one that fails leaves everything as it was.
pub proof fn a_mutation_is_all_or_nothing<F, G, T>(
    cfg: &Config,
    v: Result<(), Fault>,
    edit: F,
    save: G,
) where F: FnOnce(&mut Config) -> Result<T, Error>, G: FnOnce(&Config) -> Result<(), String>
    requires
        call_ensures(Config::validate, (cfg,), v),
    ensures
        v is Ok <==> config_valid(cfg@),
        forall|s: &mut Shared, r: Result<T, Error>| #[trigger]
            call_ensures(Shared::mutate::<F, G, T>, (s, edit, save), r) ==> {
                let (was, left) = ((*s)@, (*final(s))@);
                &&& r is Err ==> left == was
                &&& r is Ok ==> config_valid(left.config) && left.version != was.version
                &&& r is Ok ==> exists|next: Config|
                    next@ == left.config && #[trigger] call_ensures(save, (&next,), Ok(()))
                &&& left.peers == was.peers && left.binds == was.binds && left.path == was.path
            },
{
    assert forall|s: &mut Shared, r: Result<T, Error>| #[trigger]
        call_ensures(Shared::mutate::<F, G, T>, (s, edit, save), r) implies ({
        let (was, left) = ((*s)@, (*final(s))@);
        &&& r is Err ==> left == was
        &&& r is Ok ==> config_valid(left.config) && left.version != was.version
        &&& r is Ok ==> exists|next: Config|
            next@ == left.config && #[trigger] call_ensures(save, (&next,), Ok(()))
        &&& left.peers == was.peers && left.binds == was.binds && left.path == was.path
    }) by {
        let (was, left) = ((*s)@, (*final(s))@);
        let (copy, next, out) = choose|copy: &mut Config, next: Config, out: Result<T, Error>|
            #[trigger] call_ensures(edit, (copy,), out) && (*copy)@ == was.config && *final(copy)
                == next && #[trigger] settled(was, left, next, out, save, r);
        a_mutation_is_answered_by_what_became_of_it(was, left, next, out, save, r);
        if r is Err {
            a_refused_mutation_changes_nothing(was, left, next, out, save, r);
        } else {
            an_accepted_mutation_is_valid_and_saved(was, left, next, out, save, r);
        }
    }
}

} // verus!
