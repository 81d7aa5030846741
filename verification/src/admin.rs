//! The admin surface: what each request is answered.
//!
//! It can grant a peer access to loopback services, so it is treated as a
//! credential-bearing surface, not a convenience: every request carries a token
//! compared in constant time, and mutations must present the token in a header that
//! no cross-origin form can forge.
use crate::address::SocketAddr;
use crate::config::{
    config_fault, config_valid, faults_are_exactly_invalidity, ids_are_keys, Config, ConfigSpec,
    Proto,
};
use crate::edit::{
    binding_added, binding_deleted, binding_patched, offer_added, offer_deleted, offer_patched,
    peer_added, peer_deleted, peer_patched, Edited,
};
use crate::edit_laws::{
    a_parked_offer_is_closed, a_parked_peer_is_shut_out, a_removed_peer_is_shut_out,
    a_withdrawn_offer_is_closed, an_added_offer_can_be_used, binding_edits_keep_ids_keys,
    offer_edits_keep_ids_keys, opened_elsewhere, peer_edits_keep_ids_keys,
};
use crate::endpoint::{id_of_text, parse_id, EndpointId};
use crate::entry_laws::{
    a_restored_offer_opens_its_port, an_added_or_enabled_peer_is_admitted, is_meant, offer_is_at,
    offers_in, peer_is_at,
};
use crate::error::{Error, Fault};
use crate::grants::{config_admits, may_reach};
use crate::state::{
    committed, opt_text, published, publishing_changes_only_the_configuration, Shared, SharedSpec,
    Subscription,
};
use crate::text::{
    after_prefix, cut, cut_is_at_the_first, hex_digit, hex_lower, lemma_cut_at, same_text, split_once,
    strip_prefix, trim, trim_end, trim_start, trimmed,
};
use crate::token::{is_token, token_eq};
use vstd::prelude::*;

verus! {

/// Request bodies are tiny; a cap keeps a stray large one from being buffered.
pub const MAX_BODY: u64 = 65_536;

// ---------------------------------------------------------------- the token

/// Whether the bytes of a header are text: visible ASCII, spaces and tabs.
pub open spec fn is_header_text(b: Seq<u8>) -> bool {
    forall|i: int| 0 <= i < b.len() ==> 32 <= #[trigger] b[i] < 127 || b[i] == 9
}

/// The text that such bytes spell.
pub open spec fn header_chars(b: Seq<u8>) -> Seq<char> {
    b.map_values(|x: u8| x as char)
}

/// The text of a header, if it is text.
pub fn header_text(b: &[u8]) -> (r: Option<String>)
    ensures
        match r {
            Some(s) => is_header_text(b@) && s@ == header_chars(b@),
            None => !is_header_text(b@),
        },
{
    let mut s: String = String::new();
    let mut i: usize = 0;
    assert(s@ =~= header_chars(b@.take(0)));
    while i < b.len()
        invariant
            i <= b@.len(),
            forall|j: int| 0 <= j < i ==> 32 <= #[trigger] b@[j] < 127 || b@[j] == 9,
            s@ == header_chars(b@.take(i as int)),
        decreases b@.len() - i,
    {
        let x: u8 = b[i];
        if !(32 <= x && x < 127 || x == 9) {
            assert(b@[i as int] == x);
            return None;
        }
        s.push(x as char);
        assert(header_chars(b@.take(i + 1)) =~= header_chars(b@.take(i as int)).push(x as char));
        i += 1;
    }
    assert(b@.take(i as int) =~= b@);
    Some(s)
}

/// The token in an `Authorization: Bearer` header.
pub open spec fn bearer_token(authorization: Option<Seq<u8>>) -> Option<Seq<char>> {
    match authorization {
        Some(b) => if is_header_text(b) {
            match after_prefix(header_chars(b), "Bearer "@) {
                Some(rest) => Some(trimmed(rest)),
                None => None,
            }
        } else {
            None
        },
        None => None,
    }
}

/// The value of the parameter `t`, if a piece of a query string is that.
pub open spec fn t_value(piece: Seq<char>) -> Option<Seq<char>> {
    match cut(piece, '=') {
        Some((k, v)) => if k == "t"@ {
            Some(v)
        } else {
            None
        },
        None => None,
    }
}

/// The value of the first parameter `t` of a query string.
pub open spec fn query_token(q: Seq<char>) -> Option<Seq<char>>
    decreases q.len(),
{
    match cut(q, '&') {
        None => t_value(q),
        Some((piece, rest)) => match t_value(piece) {
            Some(v) => Some(v),
            None => {
                proof {
                    cut_is_at_the_first(q, '&');
                }
                query_token(rest)
            },
        },
    }
}

/// The token that a request presents: in the header, else in the query. The query
/// form exists so that a printed address works in a browser.
pub open spec fn token_of(authorization: Option<Seq<u8>>, query: Option<Seq<char>>) -> Option<
    Seq<char>,
> {
    match bearer_token(authorization) {
        Some(t) => Some(t),
        None => match query {
            Some(q) => query_token(q),
            None => None,
        },
    }
}

/// The bytes of an optional header.
pub open spec fn header_view(h: Option<&[u8]>) -> Option<Seq<u8>> {
    match h {
        Some(b) => Some(b@),
        None => None,
    }
}

/// The text of an optional query.
pub open spec fn query_view(q: Option<&str>) -> Option<Seq<char>> {
    match q {
        Some(s) => Some(s@),
        None => None,
    }
}

fn t_value_of(piece: &str) -> (r: Option<String>)
    ensures
        opt_text(r) == t_value(piece@),
{
    match split_once(piece, '=') {
        Some((k, v)) => if same_text(k.as_str(), "t") {
            Some(v)
        } else {
            None
        },
        None => None,
    }
}

fn query_token_of(query: &str) -> (r: Option<String>)
    ensures
        opt_text(r) == query_token(query@),
    decreases query@.len(),
{
    match split_once(query, '&') {
        None => t_value_of(query),
        Some((piece, rest)) => match t_value_of(piece.as_str()) {
            Some(v) => Some(v),
            None => {
                proof {
                    cut_is_at_the_first(query@, '&');
                }
                query_token_of(rest.as_str())
            },
        },
    }
}

fn bearer(authorization: Option<&[u8]>) -> (r: Option<String>)
    ensures
        opt_text(r) == bearer_token(header_view(authorization)),
{
    let text: String = match authorization {
        Some(b) => match header_text(b) {
            Some(s) => s,
            None => return None,
        },
        None => return None,
    };
    match strip_prefix(text.as_str(), "Bearer ") {
        Some(rest) => Some(trim(rest.as_str())),
        None => None,
    }
}

pub fn presented_token(authorization: Option<&[u8]>, query: Option<&str>) -> (r: Option<String>)
    ensures
        opt_text(r) == token_of(header_view(authorization), query_view(query)),
{
    if let Some(t) = bearer(authorization) {
        return Some(t);
    }
    match query {
        Some(q) => query_token_of(q),
        None => None,
    }
}

// ---------------------------------------------------------------- routing

#[derive(Clone, Copy, Debug, PartialEq, Eq, Structural)]
pub enum Method {
    Get,
    Post,
    Patch,
    Delete,
    Other,
}

/// Which list a request edits.
#[derive(Clone, Copy, Debug, PartialEq, Eq, Structural)]
pub enum Subject {
    Peers,
    Offers,
    Bindings,
}

/// Why a request is turned away before it is looked at.
#[derive(Clone, Copy, Debug, PartialEq, Eq, Structural)]
pub enum Denial {
    MissingToken,
    BadToken,
    /// The token came in the query, which is not enough for a mutation.
    HeaderRequired,
}

/// What a request is for.
#[derive(Clone, Copy, Debug, PartialEq, Eq, Structural)]
pub enum Route {
    Page,
    Denied(Denial),
    State,
    Create(Subject),
    Change(Subject),
    Remove(Subject),
    NotFound,
}

/// The list that a path names.
pub open spec fn subject_of(path: Seq<char>) -> Option<Subject> {
    if path == "/api/peers"@ {
        Some(Subject::Peers)
    } else if path == "/api/offers"@ {
        Some(Subject::Offers)
    } else if path == "/api/bindings"@ {
        Some(Subject::Bindings)
    } else {
        None
    }
}

/// What a request is for once its token has been accepted.
pub open spec fn endpoint_of(method: Method, path: Seq<char>) -> Route {
    match method {
        Method::Get => if path == "/api/state"@ {
            Route::State
        } else {
            Route::NotFound
        },
        Method::Post => match subject_of(path) {
            Some(s) => Route::Create(s),
            None => Route::NotFound,
        },
        Method::Patch => match subject_of(path) {
            Some(s) => Route::Change(s),
            None => Route::NotFound,
        },
        Method::Delete => match subject_of(path) {
            Some(s) => Route::Remove(s),
            None => Route::NotFound,
        },
        Method::Other => Route::NotFound,
    }
}

/// Whether a request asks for the page itself, which carries no secret.
pub open spec fn asks_for_page(method: Method, path: Seq<char>) -> bool {
    method == Method::Get && (path == "/"@ || path == "/index.html"@)
}

/// What a request is for. Everything but the page needs the token, and everything but
/// reading needs it in the header.
pub open spec fn route_of(
    method: Method,
    path: Seq<char>,
    authorization: Option<Seq<u8>>,
    query: Option<Seq<char>>,
    token: Seq<char>,
) -> Route {
    if asks_for_page(method, path) {
        Route::Page
    } else {
        match token_of(authorization, query) {
            None => Route::Denied(Denial::MissingToken),
            Some(t) => if t != token {
                Route::Denied(Denial::BadToken)
            } else if method != Method::Get && bearer_token(authorization) is None {
                Route::Denied(Denial::HeaderRequired)
            } else {
                endpoint_of(method, path)
            },
        }
    }
}

fn subject(path: &str) -> (r: Option<Subject>)
    ensures
        r == subject_of(path@),
{
    if same_text(path, "/api/peers") {
        Some(Subject::Peers)
    } else if same_text(path, "/api/offers") {
        Some(Subject::Offers)
    } else if same_text(path, "/api/bindings") {
        Some(Subject::Bindings)
    } else {
        None
    }
}

/// What the admin surface knows of its own process.
#[derive(Debug)]
pub struct Admin {
    pub token: String,
    /// The endpoint id of this process, shown so that a user can copy it to the peer.
    pub id: String,
}

pub fn route(
    admin: &Admin,
    method: Method,
    path: &str,
    authorization: Option<&[u8]>,
    query: Option<&str>,
) -> (r: Route)
    ensures
        r == route_of(
            method,
            path@,
            header_view(authorization),
            query_view(query),
            admin.token@,
        ),
{
    if method == Method::Get && (same_text(path, "/") || same_text(path, "/index.html")) {
        return Route::Page;
    }
    let tok: String = match presented_token(authorization, query) {
        Some(t) => t,
        None => return Route::Denied(Denial::MissingToken),
    };
    if !token_eq(tok.as_str(), admin.token.as_str()) {
        return Route::Denied(Denial::BadToken);
    }
    // A cross-origin form can send a request but cannot set this header, so a page
    // that somehow learned the token still cannot edit the allowlist.
    if method != Method::Get && bearer(authorization).is_none() {
        return Route::Denied(Denial::HeaderRequired);
    }
    match method {
        Method::Get => if same_text(path, "/api/state") {
            Route::State
        } else {
            Route::NotFound
        },
        Method::Post => match subject(path) {
            Some(s) => Route::Create(s),
            None => Route::NotFound,
        },
        Method::Patch => match subject(path) {
            Some(s) => Route::Change(s),
            None => Route::NotFound,
        },
        Method::Delete => match subject(path) {
            Some(s) => Route::Remove(s),
            None => Route::NotFound,
        },
        Method::Other => Route::NotFound,
    }
}

// ---------------------------------------------------------------- edits

/// What an edit made through the admin surface comes to: one that is turned away, or
/// that leaves a configuration that is, changes nothing; otherwise the configuration
/// is saved, and published if that succeeds.
pub open spec fn applied<G>(
    before: SharedSpec,
    after: SharedSpec,
    edited: Edited,
    save: G,
    r: Result<(), Error>,
) -> bool where G: FnOnce(&Config) -> Result<(), String> {
    match edited {
        Err(f) => r == Err::<(), Error>(Error::Fault(f)) && after == before,
        Ok(next) => match config_fault(next) {
            Some(f) => r == Err::<(), Error>(Error::Fault(f)) && after == before,
            None => exists|cfg: Config, saved: Result<(), String>|
                cfg@ == next && #[trigger] call_ensures(save, (&cfg,), saved) && committed(
                    before,
                    after,
                    next,
                    (),
                    saved,
                    r,
                ),
        },
    }
}

/// Whether an edit of a configuration was carried out, or why not.
pub open spec fn answered(
    before: ConfigSpec,
    after: ConfigSpec,
    edited: Edited,
    out: Result<(), Error>,
) -> bool {
    match edited {
        Ok(next) => out is Ok && after == next,
        Err(f) => out == Err::<(), Error>(Error::Fault(f)) && after == before,
    }
}

/// Whether an edit was turned away because a text in it is no endpoint id.
pub open spec fn not_an_id(
    before: SharedSpec,
    after: SharedSpec,
    text: Seq<char>,
    why: Seq<char>,
    r: Result<(), Error>,
) -> bool {
    after == before && (r matches Err(Error::BadId { text: t, why: w }) && t@ == trimmed(text) && w@
        == why)
}

/// The answer to an edit that was carried out, or turned away.
fn answer(r: Result<(), Fault>) -> (out: Result<(), Error>)
    ensures
        match r {
            Ok(()) => out is Ok,
            Err(f) => out == Err::<(), Error>(Error::Fault(f)),
        },
{
    match r {
        Ok(()) => Ok(()),
        Err(f) => Err(Error::Fault(f)),
    }
}

// ---------------------------------------------------------------- peers

/// A peer to be added.
#[derive(Debug)]
pub struct PeerAdd {
    pub id: String,
    pub name: String,
}

/// A peer to be changed, and what of it.
#[derive(Debug)]
pub struct PeerPatch {
    pub id: String,
    pub name: Option<String>,
    pub enabled: Option<bool>,
}

/// A peer to be removed.
#[derive(Debug)]
pub struct IdRef {
    pub id: String,
}

pub fn add_peer<G>(shared: &mut Shared, b: PeerAdd, save: G) -> (r: Result<(), Error>) where
    G: FnOnce(&Config) -> Result<(), String>,

    requires
        forall|next: &Config|
            config_valid(next@) && (id_of_text(b.id@) matches Ok(id)
                && peer_added(old(shared)@.config, id, b.name@) == Ok::<
                ConfigSpec,
                Fault,
            >(next@)) ==> #[trigger] call_requires(save, (next,)),
    ensures
        match id_of_text(b.id@) {
            Ok(id) => applied(
                old(shared)@,
                final(shared)@,
                peer_added(old(shared)@.config, id, b.name@),
                save,
                r,
            ),
            Err(why) => not_an_id(old(shared)@, final(shared)@, b.id@, why, r),
        },
        ids_are_keys(old(shared)@.config) ==> ids_are_keys(final(shared)@.config),
{
    let id: EndpointId = match parse_id(b.id.as_str()) {
        Ok(id) => id,
        Err(e) => return Err(e),
    };
    let name: String = b.name;
    let edit = |c: &mut Config| -> (out: Result<(), Error>)
        ensures
            answered(old(c)@, final(c)@, peer_added(old(c)@, id, name@), out),
    {
        answer(c.add_peer(id, name))
    };
    proof {
        peer_edits_keep_ids_keys(shared@.config, id, b.name@, None, None);
    }
    shared.mutate(edit, save)
}

pub fn patch_peer<G>(shared: &mut Shared, b: PeerPatch, save: G) -> (r: Result<(), Error>) where
    G: FnOnce(&Config) -> Result<(), String>,

    requires
        forall|next: &Config|
            config_valid(next@) && (id_of_text(b.id@) matches Ok(id)
                && peer_patched(
                old(shared)@.config,
                id,
                opt_text(b.name),
                b.enabled,
            ) == Ok::<
                ConfigSpec,
                Fault,
            >(next@)) ==> #[trigger] call_requires(save, (next,)),
    ensures
        match id_of_text(b.id@) {
            Ok(id) => applied(
                old(shared)@,
                final(shared)@,
                peer_patched(old(shared)@.config, id, opt_text(b.name), b.enabled),
                save,
                r,
            ),
            Err(why) => not_an_id(old(shared)@, final(shared)@, b.id@, why, r),
        },
        ids_are_keys(old(shared)@.config) ==> ids_are_keys(final(shared)@.config),
{
    let id: EndpointId = match parse_id(b.id.as_str()) {
        Ok(id) => id,
        Err(e) => return Err(e),
    };
    let name: Option<String> = b.name;
    let enabled: Option<bool> = b.enabled;
    let edit = |c: &mut Config| -> (out: Result<(), Error>)
        ensures
            answered(old(c)@, final(c)@, peer_patched(old(c)@, id, opt_text(name), enabled), out),
    {
        answer(c.patch_peer(id, name, enabled))
    };
    proof {
        peer_edits_keep_ids_keys(shared@.config, id, seq![], opt_text(b.name), b.enabled);
    }
    shared.mutate(edit, save)
}

/// Removes a peer. Its live connection is closed by the eviction watcher.
pub fn del_peer<G>(shared: &mut Shared, b: IdRef, save: G) -> (r: Result<(), Error>) where
    G: FnOnce(&Config) -> Result<(), String>,

    requires
        forall|next: &Config|
            config_valid(next@) && (id_of_text(b.id@) matches Ok(id)
                && peer_deleted(old(shared)@.config, id) == Ok::<
                ConfigSpec,
                Fault,
            >(next@)) ==> #[trigger] call_requires(save, (next,)),
    ensures
        match id_of_text(b.id@) {
            Ok(id) => applied(
                old(shared)@,
                final(shared)@,
                peer_deleted(old(shared)@.config, id),
                save,
                r,
            ),
            Err(why) => not_an_id(old(shared)@, final(shared)@, b.id@, why, r),
        },
        ids_are_keys(old(shared)@.config) ==> ids_are_keys(final(shared)@.config),
{
    let id: EndpointId = match parse_id(b.id.as_str()) {
        Ok(id) => id,
        Err(e) => return Err(e),
    };
    let edit = |c: &mut Config| -> (out: Result<(), Error>)
        ensures
            answered(old(c)@, final(c)@, peer_deleted(old(c)@, id), out),
    {
        answer(c.del_peer(id))
    };
    proof {
        peer_edits_keep_ids_keys(shared@.config, id, seq![], None, None);
    }
    shared.mutate(edit, save)
}

// ---------------------------------------------------------------- offers

/// An offer to be added: to everyone, or to one peer.
#[derive(Debug)]
pub struct OfferAdd {
    pub peer: Option<String>,
    pub proto: Proto,
    pub port: u16,
    pub name: String,
}

/// An offer to be changed, and what of it.
#[derive(Debug)]
pub struct OfferPatch {
    pub peer: Option<String>,
    pub proto: Proto,
    pub port: u16,
    pub name: Option<String>,
    pub enabled: Option<bool>,
}

/// An offer to be withdrawn.
#[derive(Debug)]
pub struct OfferRef {
    /// Absent means the shared set; present scopes the offer to one peer.
    pub peer: Option<String>,
    pub proto: Proto,
    pub port: u16,
}

/// Which list of offers is meant, or why the text names no peer.
pub open spec fn scope_of(peer: Option<Seq<char>>) -> Result<Option<EndpointId>, Seq<char>> {
    match peer {
        None => Ok(None),
        Some(p) => match id_of_text(p) {
            Ok(id) => Ok(Some(id)),
            Err(why) => Err(why),
        },
    }
}

fn offers_of(peer: &Option<String>) -> (r: Result<Option<EndpointId>, Error>)
    ensures
        match r {
            Ok(scope) => scope_of(opt_text(*peer)) == Ok::<Option<EndpointId>, Seq<char>>(scope),
            Err(e) => (opt_text(*peer) matches Some(p) && (e matches Error::BadId { text, why }
                && text@ == trimmed(p) && scope_of(Some(p)) == Err::<
                Option<EndpointId>,
                Seq<char>,
            >(why@))),
        },
{
    match peer {
        None => Ok(None),
        Some(p) => match parse_id(p.as_str()) {
            Ok(id) => Ok(Some(id)),
            Err(e) => Err(e),
        },
    }
}

pub fn add_offer<G>(shared: &mut Shared, b: OfferAdd, save: G) -> (r: Result<(), Error>) where
    G: FnOnce(&Config) -> Result<(), String>,

    requires
        forall|next: &Config|
            config_valid(next@) && (scope_of(opt_text(b.peer)) matches Ok(scope) && offer_added(
                old(shared)@.config,
                scope,
                b.proto,
                b.port,
                b.name@,
            ) == Ok::<
                ConfigSpec,
                Fault,
            >(next@)) ==> #[trigger] call_requires(save, (next,)),
    ensures
        match scope_of(opt_text(b.peer)) {
            Ok(scope) => applied(
                old(shared)@,
                final(shared)@,
                offer_added(old(shared)@.config, scope, b.proto, b.port, b.name@),
                save,
                r,
            ),
            Err(why) => opt_text(b.peer) matches Some(p) && not_an_id(
                old(shared)@,
                final(shared)@,
                p,
                why,
                r,
            ),
        },
        ids_are_keys(old(shared)@.config) ==> ids_are_keys(final(shared)@.config),
{
    let scope: Option<EndpointId> = match offers_of(&b.peer) {
        Ok(scope) => scope,
        Err(e) => return Err(e),
    };
    let (proto, port): (Proto, u16) = (b.proto, b.port);
    let name: String = b.name;
    let edit = |c: &mut Config| -> (out: Result<(), Error>)
        ensures
            answered(
                old(c)@,
                final(c)@,
                offer_added(old(c)@, scope, proto, port, name@),
                out,
            ),
    {
        answer(c.add_offer(scope, proto, port, name))
    };
    proof {
        offer_edits_keep_ids_keys(shared@.config, scope, proto, port, b.name@, None, None);
    }
    shared.mutate(edit, save)
}

pub fn patch_offer<G>(shared: &mut Shared, b: OfferPatch, save: G) -> (r: Result<(), Error>) where
    G: FnOnce(&Config) -> Result<(), String>,

    requires
        forall|next: &Config|
            config_valid(next@) && (scope_of(opt_text(b.peer)) matches Ok(scope) && offer_patched(
                old(shared)@.config,
                scope,
                b.proto,
                b.port,
                opt_text(b.name),
                b.enabled,
            ) == Ok::<
                ConfigSpec,
                Fault,
            >(next@)) ==> #[trigger] call_requires(save, (next,)),
    ensures
        match scope_of(opt_text(b.peer)) {
            Ok(scope) => applied(
                old(shared)@,
                final(shared)@,
                offer_patched(
                    old(shared)@.config,
                    scope,
                    b.proto,
                    b.port,
                    opt_text(b.name),
                    b.enabled,
                ),
                save,
                r,
            ),
            Err(why) => opt_text(b.peer) matches Some(p) && not_an_id(
                old(shared)@,
                final(shared)@,
                p,
                why,
                r,
            ),
        },
        ids_are_keys(old(shared)@.config) ==> ids_are_keys(final(shared)@.config),
{
    let scope: Option<EndpointId> = match offers_of(&b.peer) {
        Ok(scope) => scope,
        Err(e) => return Err(e),
    };
    let (proto, port): (Proto, u16) = (b.proto, b.port);
    let name: Option<String> = b.name;
    let enabled: Option<bool> = b.enabled;
    let edit = |c: &mut Config| -> (out: Result<(), Error>)
        ensures
            answered(
                old(c)@,
                final(c)@,
                offer_patched(
                    old(c)@,
                    scope,
                    proto,
                    port,
                    opt_text(name),
                    enabled,
                ),
                out,
            ),
    {
        answer(c.patch_offer(scope, proto, port, name, enabled))
    };
    proof {
        offer_edits_keep_ids_keys(
            shared@.config,
            scope,
            proto,
            port,
            seq![],
            opt_text(b.name),
            b.enabled,
        );
    }
    shared.mutate(edit, save)
}

pub fn del_offer<G>(shared: &mut Shared, b: OfferRef, save: G) -> (r: Result<(), Error>) where
    G: FnOnce(&Config) -> Result<(), String>,

    requires
        forall|next: &Config|
            config_valid(next@) && (scope_of(opt_text(b.peer)) matches Ok(scope) && offer_deleted(
                old(shared)@.config,
                scope,
                b.proto,
                b.port,
            ) == Ok::<
                ConfigSpec,
                Fault,
            >(next@)) ==> #[trigger] call_requires(save, (next,)),
    ensures
        match scope_of(opt_text(b.peer)) {
            Ok(scope) => applied(
                old(shared)@,
                final(shared)@,
                offer_deleted(old(shared)@.config, scope, b.proto, b.port),
                save,
                r,
            ),
            Err(why) => opt_text(b.peer) matches Some(p) && not_an_id(
                old(shared)@,
                final(shared)@,
                p,
                why,
                r,
            ),
        },
        ids_are_keys(old(shared)@.config) ==> ids_are_keys(final(shared)@.config),
{
    let scope: Option<EndpointId> = match offers_of(&b.peer) {
        Ok(scope) => scope,
        Err(e) => return Err(e),
    };
    let (proto, port): (Proto, u16) = (b.proto, b.port);
    let edit = |c: &mut Config| -> (out: Result<(), Error>)
        ensures
            answered(
                old(c)@,
                final(c)@,
                offer_deleted(old(c)@, scope, proto, port),
                out,
            ),
    {
        answer(c.del_offer(scope, proto, port))
    };
    proof {
        offer_edits_keep_ids_keys(shared@.config, scope, proto, port, seq![], None, None);
    }
    shared.mutate(edit, save)
}

// ---------------------------------------------------------------- bindings

/// A binding to be added.
#[derive(Debug)]
pub struct BindingAdd {
    pub proto: Proto,
    pub local: u16,
    pub remote: u16,
    pub name: String,
}

/// A binding to be changed, and what of it.
#[derive(Debug)]
pub struct BindingPatch {
    pub proto: Proto,
    pub local: u16,
    pub remote: Option<u16>,
    pub name: Option<String>,
    pub enabled: Option<bool>,
}

/// A binding to be removed.
#[derive(Debug)]
pub struct BindingRef {
    pub proto: Proto,
    pub local: u16,
}

pub fn add_binding<G>(shared: &mut Shared, b: BindingAdd, save: G) -> (r: Result<(), Error>) where
    G: FnOnce(&Config) -> Result<(), String>,

    requires
        forall|next: &Config|
            config_valid(next@) && binding_added(
                old(shared)@.config,
                b.proto,
                b.local,
                b.remote,
                b.name@,
            ) == Ok::<ConfigSpec, Fault>(next@) ==> #[trigger] call_requires(
                save,
                (next,),
            ),
    ensures
        applied(
            old(shared)@,
            final(shared)@,
            binding_added(old(shared)@.config, b.proto, b.local, b.remote, b.name@),
            save,
            r,
        ),
        ids_are_keys(old(shared)@.config) ==> ids_are_keys(final(shared)@.config),
{
    let (proto, local): (Proto, u16) = (b.proto, b.local);
    let remote: u16 = b.remote;
    let name: String = b.name;
    let edit = |c: &mut Config| -> (out: Result<(), Error>)
        ensures
            answered(
                old(c)@,
                final(c)@,
                binding_added(old(c)@, proto, local, remote, name@),
                out,
            ),
    {
        answer(c.add_binding(proto, local, remote, name))
    };
    proof {
        binding_edits_keep_ids_keys(
            shared@.config,
            proto,
            local,
            remote,
            None,
            b.name@,
            None,
            None,
        );
    }
    shared.mutate(edit, save)
}

pub fn patch_binding<G>(shared: &mut Shared, b: BindingPatch, save: G) -> (r: Result<(), Error>) where
    G: FnOnce(&Config) -> Result<(), String>,

    requires
        forall|next: &Config|
            config_valid(next@) && binding_patched(
                old(shared)@.config,
                b.proto,
                b.local,
                b.remote,
                opt_text(b.name),
                b.enabled,
            ) == Ok::<ConfigSpec, Fault>(next@) ==> #[trigger] call_requires(
                save,
                (next,),
            ),
    ensures
        applied(
            old(shared)@,
            final(shared)@,
            binding_patched(
                old(shared)@.config,
                b.proto,
                b.local,
                b.remote,
                opt_text(b.name),
                b.enabled,
            ),
            save,
            r,
        ),
        ids_are_keys(old(shared)@.config) ==> ids_are_keys(final(shared)@.config),
{
    let (proto, local): (Proto, u16) = (b.proto, b.local);
    let remote: Option<u16> = b.remote;
    let name: Option<String> = b.name;
    let enabled: Option<bool> = b.enabled;
    let edit = |c: &mut Config| -> (out: Result<(), Error>)
        ensures
            answered(
                old(c)@,
                final(c)@,
                binding_patched(
                old(c)@,
                proto,
                local,
                remote,
                opt_text(name),
                enabled,
            ),
                out,
            ),
    {
        answer(c.patch_binding(proto, local, remote, name, enabled))
    };
    proof {
        binding_edits_keep_ids_keys(
            shared@.config,
            proto,
            local,
            0,
            b.remote,
            seq![],
            opt_text(b.name),
            b.enabled,
        );
    }
    shared.mutate(edit, save)
}

pub fn del_binding<G>(shared: &mut Shared, b: BindingRef, save: G) -> (r: Result<(), Error>) where
    G: FnOnce(&Config) -> Result<(), String>,

    requires
        forall|next: &Config|
            config_valid(next@) && binding_deleted(
                old(shared)@.config,
                b.proto,
                b.local,
            ) == Ok::<ConfigSpec, Fault>(next@) ==> #[trigger] call_requires(
                save,
                (next,),
            ),
    ensures
        applied(
            old(shared)@,
            final(shared)@,
            binding_deleted(old(shared)@.config, b.proto, b.local),
            save,
            r,
        ),
        ids_are_keys(old(shared)@.config) ==> ids_are_keys(final(shared)@.config),
{
    let (proto, local): (Proto, u16) = (b.proto, b.local);
    let edit = |c: &mut Config| -> (out: Result<(), Error>)
        ensures
            answered(
                old(c)@,
                final(c)@,
                binding_deleted(old(c)@, proto, local),
                out,
            ),
    {
        answer(c.del_binding(proto, local))
    };
    proof {
        binding_edits_keep_ids_keys(shared@.config, proto, local, 0, None, seq![], None, None);
    }
    shared.mutate(edit, save)
}

// ---------------------------------------------------------------- replies

/// How a character stands in a JSON string: as itself, unless it is a quote, a
/// backslash or one of the first 32 characters.
pub open spec fn json_char(c: char) -> Seq<char> {
    if c == '"' {
        seq!['\\', '"']
    } else if c == '\\' {
        seq!['\\', '\\']
    } else if c as int == 8 {
        seq!['\\', 'b']
    } else if c as int == 9 {
        seq!['\\', 't']
    } else if c as int == 10 {
        seq!['\\', 'n']
    } else if c as int == 12 {
        seq!['\\', 'f']
    } else if c as int == 13 {
        seq!['\\', 'r']
    } else if (c as int) < 32 {
        seq!['\\', 'u', '0', '0', hex_digit(c as int / 16), hex_digit(c as int % 16)]
    } else {
        seq![c]
    }
}

/// The characters of a text, each as it stands in a JSON string.
pub open spec fn json_chars(s: Seq<char>) -> Seq<char>
    decreases s.len(),
{
    if s.len() == 0 {
        seq![]
    } else {
        json_chars(s.drop_last()) + json_char(s.last())
    }
}

/// A text as a JSON string, between quotes.
pub open spec fn json_text(s: Seq<char>) -> Seq<char> {
    seq!['"'] + json_chars(s) + seq!['"']
}

/// `<serde_json::Value as ToString>::to_string` of a string value: the string as it
/// stands in a JSON document, quoted and escaped as [`json_text`] says.
#[verifier::external_body]
fn json_string(s: &str) -> (r: String)
    ensures
        r@ == json_text(s@),
{
    serde_json::Value::String(s.to_owned()).to_string()
}

/// What a request is answered: a status, and what went wrong if anything did.
#[derive(Debug)]
pub struct Reply {
    pub status: u16,
    pub error: Option<String>,
}

/// What a reply says.
#[verifier::ext_equal]
pub struct ReplySpec {
    pub status: u16,
    pub error: Option<Seq<char>>,
}

impl View for Reply {
    type V = ReplySpec;

    open spec fn view(&self) -> ReplySpec {
        ReplySpec { status: self.status, error: opt_text(self.error) }
    }
}

/// The body of a reply, given how its message stands in a JSON document.
pub open spec fn body_of(message: Option<Seq<char>>) -> Seq<char> {
    match message {
        Some(m) => "{\"error\":"@ + m + "}"@,
        None => "{\"ok\":true}"@,
    }
}

/// The body of a reply, given how its message stands in a JSON document.
pub fn reply_body(message: Option<&str>) -> (s: String)
    ensures
        s@ == body_of(query_view(message)),
{
    match message {
        Some(m) => {
            let mut s: String = String::new();
            s.append("{\"error\":");
            s.append(m);
            s.append("}");
            assert(s@ =~= body_of(Some(m@)));
            s
        },
        None => "{\"ok\":true}".to_owned(),
    }
}

impl Reply {
    /// The JSON document that is sent.
    pub fn body(&self) -> (s: String)
        ensures
            s@ == body_of(
                match opt_text(self.error) {
                    Some(e) => Some(json_text(e)),
                    None => None,
                },
            ),
    {
        match &self.error {
            Some(e) => {
                let m: String = json_string(e.as_str());
                reply_body(Some(m.as_str()))
            },
            None => reply_body(None),
        }
    }
}

/// What some headers say: each a name and a value.
pub open spec fn headers_view(h: Seq<(&'static str, &'static str)>) -> Seq<(Seq<char>, Seq<char>)> {
    h.map_values(|e: (&'static str, &'static str)| (e.0@, e.1@))
}

/// The headers of every reply that is a JSON document. Nothing that is sent is to be
/// kept, nor taken for anything else.
pub fn json_headers() -> (h: Vec<(&'static str, &'static str)>)
    ensures
        headers_view(h@) == seq![
            ("content-type"@, "application/json"@),
            ("cache-control"@, "no-store"@),
            ("x-content-type-options"@, "nosniff"@),
        ],
{
    let mut h: Vec<(&'static str, &'static str)> = Vec::new();
    h.push(("content-type", "application/json"));
    h.push(("cache-control", "no-store"));
    h.push(("x-content-type-options", "nosniff"));
    assert(headers_view(h@) =~= seq![
        ("content-type"@, "application/json"@),
        ("cache-control"@, "no-store"@),
        ("x-content-type-options"@, "nosniff"@),
    ]);
    h
}

/// The headers of the page. Its address may hold the token, so it is not to be passed
/// on to others.
pub fn page_headers() -> (h: Vec<(&'static str, &'static str)>)
    ensures
        headers_view(h@) == seq![
            ("content-type"@, "text/html; charset=utf-8"@),
            ("cache-control"@, "no-store"@),
            ("x-content-type-options"@, "nosniff"@),
            ("referrer-policy"@, "no-referrer"@),
        ],
{
    let mut h: Vec<(&'static str, &'static str)> = Vec::new();
    h.push(("content-type", "text/html; charset=utf-8"));
    h.push(("cache-control", "no-store"));
    h.push(("x-content-type-options", "nosniff"));
    h.push(("referrer-policy", "no-referrer"));
    assert(headers_view(h@) =~= seq![
        ("content-type"@, "text/html; charset=utf-8"@),
        ("cache-control"@, "no-store"@),
        ("x-content-type-options"@, "nosniff"@),
        ("referrer-policy"@, "no-referrer"@),
    ]);
    h
}

impl Denial {
    pub open spec fn words(self) -> Seq<char> {
        match self {
            Denial::MissingToken => "missing token"@,
            Denial::BadToken => "bad token"@,
            Denial::HeaderRequired => "mutations require the Authorization header"@,
        }
    }

    pub fn reply(self) -> (r: Reply)
        ensures
            r@ == (ReplySpec { status: 401, error: Some(self.words()) }),
    {
        let words: &str = match self {
            Denial::MissingToken => "missing token",
            Denial::BadToken => "bad token",
            Denial::HeaderRequired => "mutations require the Authorization header",
        };
        Reply { status: 401, error: Some(words.to_owned()) }
    }
}

/// The reply to a request for something that is not there.
pub fn not_found() -> (r: Reply)
    ensures
        r@ == (ReplySpec { status: 404, error: Some("no such endpoint"@) }),
{
    Reply { status: 404, error: Some("no such endpoint".to_owned()) }
}

/// Why the body of a request could not be used.
#[derive(Debug)]
pub enum BodyFault {
    TooLarge,
    Unreadable(String),
    NotJson(String),
}

impl BodyFault {
    pub open spec fn status_code(self) -> u16 {
        match self {
            BodyFault::TooLarge => 413,
            BodyFault::Unreadable(_) => 400,
            BodyFault::NotJson(_) => 400,
        }
    }

    pub open spec fn words(self) -> Seq<char> {
        match self {
            BodyFault::TooLarge => "body too large"@,
            BodyFault::Unreadable(e) => "reading body: "@ + e@,
            BodyFault::NotJson(e) => "invalid json: "@ + e@,
        }
    }

    pub fn reply(&self) -> (r: Reply)
        ensures
            r@ == (ReplySpec { status: self.status_code(), error: Some(self.words()) }),
    {
        match self {
            BodyFault::TooLarge => Reply { status: 413, error: Some("body too large".to_owned()) },
            BodyFault::Unreadable(e) => {
                let mut s: String = "reading body: ".to_owned();
                s.append(e.as_str());
                Reply { status: 400, error: Some(s) }
            },
            BodyFault::NotJson(e) => {
                let mut s: String = "invalid json: ".to_owned();
                s.append(e.as_str());
                Reply { status: 400, error: Some(s) }
            },
        }
    }
}

/// Whether a body is read at all, given the most that it can come to. One that does
/// not say is too large.
pub fn body_fits(upper: Option<u64>) -> (r: bool)
    ensures
        r == (upper matches Some(n) && n <= MAX_BODY),
{
    match upper {
        Some(n) => n <= MAX_BODY,
        None => false,
    }
}

/// The reply to an edit. A rejected edit is the user's mistake far more often than a
/// bug, so its message is returned verbatim.
pub fn edit_reply(done: &Result<(), Error>) -> (r: Reply)
    ensures
        r@ == (match *done {
            Ok(()) => ReplySpec { status: 200, error: None },
            Err(e) => ReplySpec { status: 422, error: Some(e.words()) },
        }),
{
    match done {
        Ok(()) => Reply { status: 200, error: None },
        Err(e) => Reply { status: 422, error: Some(e.message()) },
    }
}

// ---------------------------------------------------------------- starting up

/// The line that tells a user where the admin surface is.
pub open spec fn banner_text(addr: Seq<char>, token: Seq<char>) -> Seq<char> {
    "admin ui http://"@ + addr + "/?t="@ + token
}

/// The line that tells a user where the admin surface is: the one thing a user must
/// have.
pub fn banner(addr: &str, token: &str) -> (s: String)
    ensures
        s@ == banner_text(addr@, token@),
{
    let mut s: String = "admin ui http://".to_owned();
    s.append(addr);
    s.append("/?t=");
    s.append(token);
    s
}

/// Whether to warn that others than this machine can reach the admin surface.
pub fn is_exposed(addr: &SocketAddr) -> (r: bool)
    ensures
        r == !addr.loopback(),
{
    !addr.is_loopback()
}

// ---------------------------------------------------------------- laws

/// Nothing is edited, and no state is shown, without the token; nothing is edited
/// unless the token came in the `Authorization` header.
pub proof fn edits_need_the_token_in_the_header(
    method: Method,
    path: Seq<char>,
    authorization: Option<Seq<u8>>,
    query: Option<Seq<char>>,
    token: Seq<char>,
)
    ensures
        ({
            let r = route_of(method, path, authorization, query, token);
            let edits = r is Create || r is Change || r is Remove;
            &&& edits || r is State ==> token_of(authorization, query) == Some(token)
            &&& edits ==> bearer_token(authorization) == Some(token) && method != Method::Get
        }),
{
}

/// A request with the token in the header is never turned away for want of it.
pub proof fn the_header_token_opens_every_endpoint(
    method: Method,
    path: Seq<char>,
    authorization: Option<Seq<u8>>,
    query: Option<Seq<char>>,
    token: Seq<char>,
)
    requires
        bearer_token(authorization) == Some(token),
    ensures
        !(route_of(method, path, authorization, query, token) is Denied),
{
}

/// The page is served without a token: it carries no secret.
pub proof fn the_page_needs_no_token(
    path: Seq<char>,
    authorization: Option<Seq<u8>>,
    query: Option<Seq<char>>,
    token: Seq<char>,
)
    requires
        path == "/"@ || path == "/index.html"@,
    ensures
        route_of(Method::Get, path, authorization, query, token) == Route::Page,
{
}

proof fn lemma_hex_chars(bytes: Seq<u8>, i: int)
    requires
        0 <= i < hex_lower(bytes).len(),
    ensures
        '0' <= hex_lower(bytes)[i] <= '9' || 'a' <= hex_lower(bytes)[i] <= 'f',
{
}

/// A token that was minted is read back, both from the printed address and from the
/// header, so that it opens the surface.
pub proof fn a_minted_token_is_read_back(token: Seq<char>, header: Seq<u8>)
    requires
        is_token(token),
        is_header_text(header),
        header_chars(header) == "Bearer "@ + token,
    ensures
        query_token("t="@ + token) == Some(token),
        bearer_token(Some(header)) == Some(token),
{
    let bytes = choose|bytes: [u8; 16]| token == hex_lower(#[trigger] bytes@);
    reveal_strlit("t=");
    reveal_strlit("t");
    reveal_strlit("Bearer ");
    let q = "t="@ + token;
    assert forall|i: int| 0 <= i < q.len() implies q[i] != '&' by {
        if i >= 2 {
            lemma_hex_chars(bytes@, i - 2);
        }
    }
    cut_is_at_the_first(q, '&');
    lemma_cut_at(q, '=', 1);
    assert(q.take(1) =~= "t"@);
    assert(q.skip(2) =~= token);
    assert(header_chars(header).skip(7) =~= token);
    lemma_hex_chars(bytes@, 0);
    lemma_hex_chars(bytes@, 31);
    assert(trim_start(token) == token);
    assert(trim_end(token) == token);
}

/// An edit that is answered with an error has changed nothing; one that succeeds has
/// published what it was to leave, and that is acceptable.
pub proof fn an_edit_is_all_or_nothing<G>(
    before: SharedSpec,
    after: SharedSpec,
    edited: Edited,
    save: G,
    r: Result<(), Error>,
) where G: FnOnce(&Config) -> Result<(), String>
    requires
        applied(before, after, edited, save, r),
    ensures
        r is Err ==> after == before,
        r is Ok ==> edited is Ok && after == published(before, edited->Ok_0) && config_valid(
            after.config,
        ),
{
    if r is Ok {
        faults_are_exactly_invalidity(edited->Ok_0);
    }
}

/// Removing or parking a peer takes effect at once: whoever watches the configuration
/// is woken, and finds the peer neither admitted nor able to reach anything.
pub proof fn revoking_a_peer_takes_effect_at_once<G>(
    before: SharedSpec,
    after: SharedSpec,
    id: EndpointId,
    save: G,
    proto: Proto,
    port: u16,
    w: Subscription,
) where G: FnOnce(&Config) -> Result<(), String>
    requires
        applied(before, after, peer_deleted(before.config, id), save, Ok(())) || applied(
            before,
            after,
            peer_patched(before.config, id, None, Some(false)),
            save,
            Ok(()),
        ),
        w.seen == before.version,
    ensures
        w.seen != after.version,
        !config_admits(after.config, id),
        !may_reach(after.config, id, proto, port),
{
    let gone = peer_deleted(before.config, id);
    let parked = peer_patched(before.config, id, None, Some(false));
    if applied(before, after, gone, save, Ok(())) {
        an_edit_is_all_or_nothing(before, after, gone, save, Ok(()));
        a_removed_peer_is_shut_out(before.config, id, id, proto, port);
    } else {
        an_edit_is_all_or_nothing(before, after, parked, save, Ok(()));
        a_parked_peer_is_shut_out(before.config, id, id, proto, port);
    }
}

/// Offering a port takes effect at once: whoever watches the configuration is woken,
/// and a peer that the offer is meant for can reach the port, if it is admitted.
pub proof fn offering_a_port_takes_effect_at_once<G>(
    before: SharedSpec,
    after: SharedSpec,
    scope: Option<EndpointId>,
    proto: Proto,
    port: u16,
    name: Seq<char>,
    save: G,
    peer: EndpointId,
    w: Subscription,
) where G: FnOnce(&Config) -> Result<(), String>
    requires
        applied(before, after, offer_added(before.config, scope, proto, port, name), save, Ok(())),
        config_admits(before.config, peer),
        scope matches Some(id) ==> id == peer,
        w.seen == before.version,
    ensures
        w.seen != after.version,
        may_reach(after.config, peer, proto, port),
{
    let edited = offer_added(before.config, scope, proto, port, name);
    an_edit_is_all_or_nothing(before, after, edited, save, Ok(()));
    an_added_offer_can_be_used(before.config, scope, proto, port, name, peer);
}

/// Withdrawing or parking an offer, for everyone or for one peer, takes effect at once:
/// whoever watches the configuration is woken, and a peer that the offer was meant for
/// cannot reach the port any more, unless another list opens it.
pub proof fn withdrawing_a_port_takes_effect_at_once<G>(
    before: SharedSpec,
    after: SharedSpec,
    scope: Option<EndpointId>,
    proto: Proto,
    port: u16,
    name: Option<Seq<char>>,
    save: G,
    peer: EndpointId,
    w: Subscription,
) where G: FnOnce(&Config) -> Result<(), String>
    requires
        config_valid(before.config),
        applied(before, after, offer_deleted(before.config, scope, proto, port), save, Ok(()))
            || applied(
            before,
            after,
            offer_patched(before.config, scope, proto, port, name, Some(false)),
            save,
            Ok(()),
        ),
        scope matches Some(id) ==> id == peer,
        !opened_elsewhere(before.config, scope, peer, proto, port),
        w.seen == before.version,
    ensures
        w.seen != after.version,
        !may_reach(after.config, peer, proto, port),
{
    let gone = offer_deleted(before.config, scope, proto, port);
    let parked = offer_patched(before.config, scope, proto, port, name, Some(false));
    if applied(before, after, gone, save, Ok(())) {
        an_edit_is_all_or_nothing(before, after, gone, save, Ok(()));
        a_withdrawn_offer_is_closed(before.config, scope, proto, port, peer);
    } else {
        an_edit_is_all_or_nothing(before, after, parked, save, Ok(()));
        a_parked_offer_is_closed(before.config, scope, proto, port, name, peer);
    }
}

/// The text of a header is its bytes, each as the character of that number, and they are
/// text exactly where none of them is below the space, but for tabs, or above the tilde.
pub proof fn header_text_is_its_bytes(b: Seq<u8>)
    ensures
        header_chars(b).len() == b.len(),
        forall|i: int| 0 <= i < b.len() ==> header_chars(b)[i] as int == b[i],
        is_header_text(b) <==> forall|i: int|
            0 <= i < b.len() ==> b[i] == 9 || 0x20 <= #[trigger] b[i] <= 0x7e,
{
    if forall|i: int| 0 <= i < b.len() ==> b[i] == 9 || 0x20 <= #[trigger] b[i] <= 0x7e {
        assert(is_header_text(b));
    }
}

/// A header presents what follows `Bearer ` in it, without white space around it; one
/// that is no text, or starts with anything else, presents nothing.
pub proof fn a_header_presents_what_follows_bearer(header: Seq<u8>, rest: Seq<char>)
    ensures
        bearer_token(None) is None,
        !is_header_text(header) ==> bearer_token(Some(header)) is None,
        is_header_text(header) && header_chars(header) == "Bearer "@ + rest ==> bearer_token(
            Some(header),
        ) == Some(trimmed(rest)),
        is_header_text(header) && !(header.len() >= 7 && header_chars(header).take(7)
            == "Bearer "@) ==> bearer_token(Some(header)) is None,
{
    reveal_strlit("Bearer ");
    crate::text::a_prefix_and_what_follows_make_the_text(header_chars(header), "Bearer "@, rest);
}

proof fn lemma_t_value(piece: Seq<char>, v: Seq<char>)
    ensures
        t_value("t="@ + v) == Some(v),
        !(piece.len() >= 2 && piece[0] == 't' && piece[1] == '=') ==> t_value(piece) is None,
{
    reveal_strlit("t=");
    reveal_strlit("t");
    let s = "t="@ + v;
    lemma_cut_at(s, '=', 1);
    assert(s.take(1) =~= "t"@);
    assert(s.skip(2) =~= v);
    cut_is_at_the_first(piece, '=');
    if let Some((k, x)) = cut(piece, '=') {
        assert(k.push('=') + x == piece);
        if k == "t"@ {
            assert(piece[0] == 't');
            assert(piece[1] == '=');
        }
    }
}

/// A query presents the value of its first parameter `t`: what stands between `t=` and
/// the next ampersand, or the end. Parameters before it that are not `t` are passed over,
/// and a query without it presents nothing.
pub proof fn a_query_presents_its_first_t(v: Seq<char>, piece: Seq<char>, rest: Seq<char>)
    requires
        !v.contains('&'),
        !piece.contains('&'),
        !(piece.len() >= 2 && piece[0] == 't' && piece[1] == '='),
    ensures
        query_token("t="@ + v) == Some(v),
        query_token(("t="@ + v).push('&') + rest) == Some(v),
        query_token(piece) is None,
        query_token(piece.push('&') + rest) == query_token(rest),
{
    reveal_strlit("t=");
    lemma_t_value(piece, v);
    let one = "t="@ + v;
    assert(!one.contains('&')) by {
        if one.contains('&') {
            let k = one.index_of('&');
            assert(one[k] == '&');
            assert(k >= 2);
            assert(v[k - 2] == '&');
        }
    }
    cut_is_at_the_first(one, '&');
    cut_is_at_the_first(piece, '&');
    lemma_first_piece(one, rest);
    lemma_first_piece(piece, rest);
}

proof fn lemma_first_piece(piece: Seq<char>, rest: Seq<char>)
    requires
        !piece.contains('&'),
    ensures
        cut(piece.push('&') + rest, '&') == Some((piece, rest)),
{
    let s = piece.push('&') + rest;
    let n = piece.len() as int;
    assert forall|j: int| 0 <= j < n implies s[j] != '&' by {
        assert(s[j] == piece[j]);
    }
    lemma_cut_at(s, '&', n);
    assert(s.take(n) =~= piece);
    assert(s.skip(n + 1) =~= rest);
}

/// A token in the header is the one that counts; only without one is the query looked
/// at.
pub proof fn the_header_comes_before_the_query(
    authorization: Option<Seq<u8>>,
    query: Option<Seq<char>>,
    q: Seq<char>,
)
    ensures
        bearer_token(authorization) is Some ==> token_of(authorization, query) == bearer_token(
            authorization,
        ),
        bearer_token(authorization) is None ==> token_of(authorization, Some(q)) == query_token(q)
            && token_of(authorization, None) is None,
{
}

/// Whether a path is that of a list.
pub open spec fn is_path_of(path: Seq<char>, s: Subject) -> bool {
    match s {
        Subject::Peers => path == "/api/peers"@,
        Subject::Offers => path == "/api/offers"@,
        Subject::Bindings => path == "/api/bindings"@,
    }
}

/// What each request comes to. The page is for whoever asks. Everything else is denied
/// without a token, with another one, or, if it is more than reading, with one that did
/// not come in the header. What is left goes by its method and its path, and there is
/// nothing else.
pub proof fn each_request_goes_where_it_should(
    method: Method,
    path: Seq<char>,
    authorization: Option<Seq<u8>>,
    query: Option<Seq<char>>,
    token: Seq<char>,
    s: Subject,
)
    ensures
        ({
            let r = route_of(method, path, authorization, query, token);
            let page = method == Method::Get && (path == "/"@ || path == "/index.html"@);
            let presented = token_of(authorization, query);
            let right = presented == Some(token) && (method == Method::Get || bearer_token(
                authorization,
            ) is Some);
            &&& r is Page <==> page
            &&& r == Route::Denied(Denial::MissingToken) <==> !page && presented is None
            &&& r == Route::Denied(Denial::BadToken) <==> !page && presented is Some && presented
                != Some(token)
            &&& r == Route::Denied(Denial::HeaderRequired) <==> !page && presented == Some(token)
                && method != Method::Get && bearer_token(authorization) is None
            &&& r is State <==> right && method == Method::Get && path == "/api/state"@
            &&& r == Route::Create(s) <==> right && method == Method::Post && is_path_of(path, s)
            &&& r == Route::Change(s) <==> right && method == Method::Patch && is_path_of(path, s)
            &&& r == Route::Remove(s) <==> right && method == Method::Delete && is_path_of(path, s)
        }),
{
    reveal_strlit("/api/peers");
    reveal_strlit("/api/offers");
    reveal_strlit("/api/bindings");
    reveal_strlit("/api/state");
    reveal_strlit("/");
    reveal_strlit("/index.html");
    assert("/api/peers"@.len() != "/api/offers"@.len());
    assert("/api/bindings"@.len() != "/api/offers"@.len());
    assert("/api/bindings"@.len() != "/api/peers"@.len());
    assert("/api/state"@.len() != "/"@.len());
    assert("/api/state"@[1] != "/index.html"@[1]);
}

/// An edit is carried out exactly when nothing is wrong with it, what it leaves is
/// acceptable, and saving that succeeds. One that is turned away is answered with its own
/// complaint, one that leaves what is not acceptable with the complaint about that, and
/// one that cannot be saved with why.
pub proof fn an_edit_is_answered_by_what_became_of_it<G>(
    before: SharedSpec,
    after: SharedSpec,
    edited: Edited,
    save: G,
    r: Result<(), Error>,
) where G: FnOnce(&Config) -> Result<(), String>
    requires
        applied(before, after, edited, save, r),
    ensures
        edited matches Err(f) ==> r == Err::<(), Error>(Error::Fault(f)) && after == before,
        edited matches Ok(next) ==> {
            &&& !config_valid(next) ==> (r matches Err(Error::Fault(f)) && config_fault(next)
                == Some(f)) && after == before
            &&& config_valid(next) ==> exists|cfg: Config, saved: Result<(), String>|
                cfg@ == next && #[trigger] call_ensures(save, (&cfg,), saved) && match saved {
                    Ok(()) => r is Ok && after.config == next && after.version != before.version,
                    Err(why) => after == before && (r matches Err(Error::Persist { path, cause })
                        && path@ == before.path && cause@ == why@),
                }
        },
        after.peers == before.peers && after.binds == before.binds && after.role == before.role
            && after.path == before.path && after.started == before.started,
{
    if let Ok(next) = edited {
        faults_are_exactly_invalidity(next);
        if config_valid(next) {
            let (cfg, saved) = choose|cfg: Config, saved: Result<(), String>|
                cfg@ == next && #[trigger] call_ensures(save, (&cfg,), saved) && committed(
                    before,
                    after,
                    next,
                    (),
                    saved,
                    r,
                );
            publishing_changes_only_the_configuration(before, next);
            assert(call_ensures(save, (&cfg,), saved));
        }
    }
}

/// Adding or enabling a peer takes effect at once: whoever watches the configuration is
/// woken, and finds the peer admitted.
pub proof fn admitting_a_peer_takes_effect_at_once<G>(
    before: SharedSpec,
    after: SharedSpec,
    id: EndpointId,
    name: Seq<char>,
    label: Option<Seq<char>>,
    i: int,
    save: G,
    w: Subscription,
) where G: FnOnce(&Config) -> Result<(), String>
    requires
        applied(before, after, peer_added(before.config, id, name), save, Ok(())) || peer_is_at(
            before.config.peers,
            i,
            id,
        ) && applied(
            before,
            after,
            peer_patched(before.config, id, label, Some(true)),
            save,
            Ok(()),
        ),
        w.seen == before.version,
    ensures
        w.seen != after.version,
        config_admits(after.config, id),
{
    let added = peer_added(before.config, id, name);
    let enabled = peer_patched(before.config, id, label, Some(true));
    an_added_or_enabled_peer_is_admitted(before.config, i, id, name, label, Proto::Tcp, 0);
    if applied(before, after, added, save, Ok(())) {
        an_edit_is_all_or_nothing(before, after, added, save, Ok(()));
    } else {
        an_edit_is_all_or_nothing(before, after, enabled, save, Ok(()));
    }
}

/// Restoring an offer takes effect at once: whoever watches the configuration is woken,
/// and every admitted peer that the offer is meant for can reach the port.
pub proof fn restoring_a_port_takes_effect_at_once<G>(
    before: SharedSpec,
    after: SharedSpec,
    scope: Option<EndpointId>,
    at: Option<int>,
    k: int,
    proto: Proto,
    port: u16,
    name: Option<Seq<char>>,
    save: G,
    i: int,
    w: Subscription,
) where G: FnOnce(&Config) -> Result<(), String>
    requires
        config_valid(before.config),
        is_meant(before.config, scope, at),
        offer_is_at(offers_in(before.config, at), k, proto, port),
        applied(
            before,
            after,
            offer_patched(before.config, scope, proto, port, name, Some(true)),
            save,
            Ok(()),
        ),
        0 <= i < before.config.peers.len(),
        before.config.peers[i].enabled,
        at is None || at == Some(i),
        w.seen == before.version,
    ensures
        w.seen != after.version,
        may_reach(after.config, before.config.peers[i].id, proto, port),
{
    let restored = offer_patched(before.config, scope, proto, port, name, Some(true));
    an_edit_is_all_or_nothing(before, after, restored, save, Ok(()));
    a_restored_offer_opens_its_port(
        before.config,
        scope,
        at,
        k,
        proto,
        port,
        name,
        i,
        proto,
        port,
    );
}

/// A request about offers that names no peer is about those for everyone; one that names
/// a peer is about that peer's own.
pub proof fn offers_are_for_everyone_or_for_the_named_peer(p: Seq<char>)
    ensures
        scope_of(None) == Ok::<Option<EndpointId>, Seq<char>>(None),
        match id_of_text(p) {
            Ok(id) => scope_of(Some(p)) == Ok::<Option<EndpointId>, Seq<char>>(Some(id)),
            Err(why) => scope_of(Some(p)) == Err::<Option<EndpointId>, Seq<char>>(why),
        },
{
}

/// What is read of a reply is what the reply holds.
pub proof fn replies_are_read_as_they_are(r: Reply)
    ensures
        r@.status == r.status,
        r.error is None <==> r@.error is None,
        r.error matches Some(e) ==> r@.error == Some(e@),
{
}

/// The printed line ends with the token, as the value of the parameter `t`.
pub proof fn the_printed_line_ends_with_the_token(addr: Seq<char>, token: Seq<char>)
    ensures
        exists|start: Seq<char>| banner_text(addr, token) == #[trigger] (start + ("?t="@ + token)),
        exists|start: Seq<char>, end: Seq<char>|
            banner_text(addr, token) == #[trigger] (start + ("http://"@ + addr + "/"@) + end),
{
    reveal_strlit("admin ui http://");
    reveal_strlit("admin ui ");
    reveal_strlit("http://");
    reveal_strlit("/?t=");
    reveal_strlit("/");
    reveal_strlit("?t=");
    let all = banner_text(addr, token);
    let start = "admin ui http://"@ + addr + "/"@;
    assert("/?t="@ =~= "/"@ + "?t="@);
    assert("admin ui http://"@ =~= "admin ui "@ + "http://"@);
    assert(all =~= start + ("?t="@ + token));
    assert(all =~= "admin ui "@ + ("http://"@ + addr + "/"@) + ("?t="@ + token));
}

/// A message stands in the body of a reply as it is, in a document of its own.
pub proof fn a_message_stands_in_the_body(m: Seq<char>)
    ensures
        body_of(Some(m)) == "{\"error\":"@ + m + "}"@,
        body_of(None) == "{\"ok\":true}"@,
{
}

/// What could not be used of a body is said with its cause.
pub proof fn a_body_fault_holds_its_cause(f: BodyFault)
    ensures
        f is TooLarge ==> f.status_code() == 413,
        !(f is TooLarge) ==> f.status_code() == 400,
        f matches BodyFault::Unreadable(e) ==> f.words() == "reading body: "@ + e@,
        f matches BodyFault::NotJson(e) ==> f.words() == "invalid json: "@ + e@,
{
}

/// An edit that names what is no id changes nothing, and is answered with the text that
/// was named and why it is none.
pub proof fn a_text_that_is_no_id_changes_nothing(
    before: SharedSpec,
    after: SharedSpec,
    text: Seq<char>,
    why: Seq<char>,
    r: Result<(), Error>,
)
    requires
        not_an_id(before, after, text, why, r),
    ensures
        after == before,
        r matches Err(Error::BadId { text: t, why: w }) && t@ == trimmed(text) && w@ == why,
{
}

} // verus!
