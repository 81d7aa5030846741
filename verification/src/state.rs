//! The live, shared view of the configuration, plus the runtime facts that are
//! reported back.
//!
//! One writer path and many cheap readers: every mutation goes through
//! [`Shared::mutate`], which validates, persists, then publishes a new immutable
//! snapshot. Moments are nanoseconds on a clock that never goes back.
use crate::config::{config_fault, config_valid, Binding, Config, ConfigSpec, Proto};
use crate::endpoint::{id_before, id_short, id_text, EndpointId, Place};
use crate::error::Error;
use crate::share::share;
use crate::table::{Key, Table};
use std::sync::Arc;
use vstd::prelude::*;

verus! {

pub const NANOS_PER_SEC: u64 = 1_000_000_000;

/// Which role is running.
#[derive(Clone, Copy, Debug, PartialEq, Eq, Structural)]
pub enum Role {
    Serve,
    Connect,
}

impl Role {
    pub open spec fn word(self) -> Seq<char> {
        match self {
            Role::Serve => "serve"@,
            Role::Connect => "connect"@,
        }
    }

    pub fn as_str(self) -> (s: &'static str)
        ensures
            s@ == self.word(),
    {
        match self {
            Role::Serve => "serve",
            Role::Connect => "connect",
        }
    }

    /// So that a panel can hide what the running role has no use for.
    pub fn is_serve(self) -> (r: bool)
        ensures
            r == (self == Role::Serve),
    {
        match self {
            Role::Serve => true,
            Role::Connect => false,
        }
    }
}

/// A protocol and a local port: what one listener claims.
#[derive(Clone, Copy, Debug, PartialEq, Eq, Structural)]
pub struct LocalPort {
    pub proto: Proto,
    pub port: u16,
}

impl Key for LocalPort {
    fn same(&self, other: &Self) -> (r: bool) {
        *self == *other
    }
}

/// Why a local listener is not carrying traffic, if it is not. Reported verbatim,
/// so "address already in use" is visible without reading the log.
#[derive(Debug, PartialEq, Eq)]
pub enum BindState {
    Listening,
    Failed { error: String },
}

/// What a bind state says.
pub enum BindSpec {
    Listening,
    Failed(Seq<char>),
}

impl View for BindState {
    type V = BindSpec;

    open spec fn view(&self) -> BindSpec {
        match self {
            BindState::Listening => BindSpec::Listening,
            BindState::Failed { error } => BindSpec::Failed(error@),
        }
    }
}

impl Clone for BindState {
    fn clone(&self) -> (r: Self)
        ensures
            r@ == self@,
    {
        match self {
            BindState::Listening => BindState::Listening,
            BindState::Failed { error } => BindState::Failed { error: error.clone() },
        }
    }
}

/// One connected peer, as it is reported.
#[derive(Debug)]
pub struct PeerLive {
    pub id: String,
    pub short: String,
    /// "direct", "relayed" or "pending".
    pub path: String,
    pub addr: Option<String>,
    pub rtt_ms: Option<u64>,
    pub since_secs: u64,
}

/// What the report on a connected peer says.
#[verifier::ext_equal]
pub struct PeerLiveSpec {
    pub id: Seq<char>,
    pub short: Seq<char>,
    pub path: Seq<char>,
    pub addr: Option<Seq<char>>,
    pub rtt_ms: Option<u64>,
    pub since_secs: u64,
}

/// An optional text.
pub open spec fn opt_text(s: Option<String>) -> Option<Seq<char>> {
    match s {
        Some(s) => Some(s@),
        None => None,
    }
}

pub fn clone_opt(s: &Option<String>) -> (r: Option<String>)
    ensures
        opt_text(r) == opt_text(*s),
{
    match s {
        Some(s) => Some(s.clone()),
        None => None,
    }
}

impl View for PeerLive {
    type V = PeerLiveSpec;

    open spec fn view(&self) -> PeerLiveSpec {
        PeerLiveSpec {
            id: self.id@,
            short: self.short@,
            path: self.path@,
            addr: opt_text(self.addr),
            rtt_ms: self.rtt_ms,
            since_secs: self.since_secs,
        }
    }
}

struct Live {
    since: u64,
    path: String,
    addr: Option<String>,
    rtt_ms: Option<u64>,
}

/// What is known of a connected peer: since when, and by which path. The path is
/// empty until one is selected.
#[verifier::ext_equal]
pub struct LiveSpec {
    pub since: u64,
    pub path: Seq<char>,
    pub addr: Option<Seq<char>>,
    pub rtt_ms: Option<u64>,
}

impl View for Live {
    type V = LiveSpec;

    closed spec fn view(&self) -> LiveSpec {
        LiveSpec {
            since: self.since,
            path: self.path@,
            addr: opt_text(self.addr),
            rtt_ms: self.rtt_ms,
        }
    }
}

/// A peer that has just connected, before any path is selected.
pub open spec fn fresh_live(now: u64) -> LiveSpec {
    LiveSpec { since: now, path: seq![], addr: None, rtt_ms: None }
}

/// Whole seconds from one moment to another; none if the clock disagrees.
pub open spec fn secs_between(from: u64, to: u64) -> u64 {
    if to >= from {
        ((to - from) / NANOS_PER_SEC as int) as u64
    } else {
        0
    }
}

pub fn elapsed_secs(from: u64, to: u64) -> (s: u64)
    ensures
        s == secs_between(from, to),
{
    to.saturating_sub(from) / NANOS_PER_SEC
}

/// How a connected peer is reported.
pub open spec fn live_report(id: EndpointId, l: LiveSpec, now: u64) -> PeerLiveSpec {
    PeerLiveSpec {
        id: id_text(id),
        short: id_short(id),
        path: if l.path.len() == 0 {
            "pending"@
        } else {
            l.path
        },
        addr: l.addr,
        rtt_ms: l.rtt_ms,
        since_secs: secs_between(l.since, now),
    }
}

/// Ids in rising order.
pub open spec fn ids_rising(ids: Seq<EndpointId>) -> bool {
    forall|i: int, j: int| 0 <= i < j < ids.len() ==> id_before(ids[i], ids[j])
}

/// The ids that a set holds, in rising order.
pub open spec fn lists_ids(ids: Seq<EndpointId>, set: Set<EndpointId>) -> bool {
    &&& ids_rising(ids)
    &&& forall|id: EndpointId| #[trigger] ids.contains(id) <==> set.contains(id)
}

/// Everything that the admin surface and the data plane share.
pub struct Shared {
    path: String,
    role: Role,
    config: Arc<Config>,
    version: u64,
    peers: Table<EndpointId, Live>,
    binds: Table<LocalPort, BindState>,
    started: u64,
}

/// What the shared state says. `version` counts the published configurations.
#[verifier::ext_equal]
pub struct SharedSpec {
    pub path: Seq<char>,
    pub role: Role,
    pub config: ConfigSpec,
    pub version: u64,
    pub peers: Map<EndpointId, LiveSpec>,
    pub binds: Map<LocalPort, BindSpec>,
    pub started: u64,
}

impl View for Shared {
    type V = SharedSpec;

    closed spec fn view(&self) -> SharedSpec {
        SharedSpec {
            path: self.path@,
            role: self.role,
            config: self.config@,
            version: self.version,
            peers: self.peers@.map_values(|l: Live| l@),
            binds: self.binds@.map_values(|b: BindState| b@),
            started: self.started,
        }
    }
}

/// The version after the given one.
pub open spec fn next_version(v: u64) -> u64 {
    if v == u64::MAX {
        0
    } else {
        (v + 1) as u64
    }
}

/// The state once a configuration is published.
pub open spec fn published(s: SharedSpec, next: ConfigSpec) -> SharedSpec {
    SharedSpec { config: next, version: next_version(s.version), ..s }
}

/// What became of an edited configuration, given what saving it said: it is
/// published only if it was saved.
pub open spec fn committed<T>(
    before: SharedSpec,
    after: SharedSpec,
    next: ConfigSpec,
    out: T,
    saved: Result<(), String>,
    r: Result<T, Error>,
) -> bool {
    match saved {
        Ok(()) => r == Ok::<T, Error>(out) && after == published(before, next),
        Err(why) => after == before && (r matches Err(Error::Persist { path, cause }) && path@
            == before.path && cause == why),
    }
}

/// What a mutation comes to, once the edit has left `next` behind and said `out`: if
/// the edit failed, or what it left is turned away, nothing has happened; otherwise
/// `next` is saved, and published if that succeeds.
pub open spec fn settled<G, T>(
    before: SharedSpec,
    after: SharedSpec,
    next: Config,
    out: Result<T, Error>,
    save: G,
    r: Result<T, Error>,
) -> bool where G: FnOnce(&Config) -> Result<(), String> {
    match out {
        Err(e) => r == Err::<T, Error>(e) && after == before,
        Ok(t) => match config_fault(next@) {
            Some(f) => r == Err::<T, Error>(Error::Fault(f)) && after == before,
            None => exists|saved: Result<(), String>| #[trigger]
                call_ensures(save, (&next,), saved) && committed(
                    before,
                    after,
                    next@,
                    t,
                    saved,
                    r,
                ),
        },
    }
}

impl Shared {
    pub fn new(cfg: Config, path: String, role: Role, now: u64) -> (s: Shared)
        ensures
            s@ == (SharedSpec {
                path: path@,
                role,
                config: cfg@,
                version: 0,
                peers: Map::empty(),
                binds: Map::empty(),
                started: now,
            }),
    {
        let s = Shared {
            path,
            role,
            config: Arc::new(cfg),
            version: 0,
            peers: Table::new(),
            binds: Table::new(),
            started: now,
        };
        assert(s@.peers =~= Map::<EndpointId, LiveSpec>::empty());
        assert(s@.binds =~= Map::<LocalPort, BindSpec>::empty());
        s
    }

    pub fn role(&self) -> (r: Role)
        ensures
            r == self@.role,
    {
        self.role
    }

    pub fn config_path(&self) -> (p: &str)
        ensures
            p@ == self@.path,
    {
        self.path.as_str()
    }

    /// The current snapshot. Cheap: another owner of the same value.
    pub fn config(&self) -> (c: Arc<Config>)
        ensures
            c@ == self@.config,
    {
        share(&self.config)
    }

    pub fn uptime_secs(&self, now: u64) -> (s: u64)
        ensures
            s == secs_between(self@.started, now),
    {
        elapsed_secs(self.started, now)
    }

    /// Applies `edit` to a copy, validates it, saves it, and only then publishes it.
    /// A rejected or unwritable edit leaves the running configuration exactly as it
    /// was, and a rejected one never reaches `save`, which takes nothing but what the
    /// edit left.
    pub fn mutate<F, G, T>(&mut self, edit: F, save: G) -> (r: Result<T, Error>) where
        F: FnOnce(&mut Config) -> Result<T, Error>,
        G: FnOnce(&Config) -> Result<(), String>,

        requires
            forall|copy: &mut Config|
                (*copy)@ == old(self)@.config ==> #[trigger] call_requires(edit, (copy,)),
            forall|next: &Config|
                config_valid(next@) && (exists|copy: &mut Config, out: Result<T, Error>| #[trigger]
                    call_ensures(edit, (copy,), out) && (*copy)@ == old(self)@.config
                        && *final(copy) == *next && out is Ok) ==> #[trigger] call_requires(
                    save,
                    (next,),
                ),
        ensures
            exists|copy: &mut Config, next: Config, out: Result<T, Error>| #[trigger]
                call_ensures(edit, (copy,), out) && (*copy)@ == old(self)@.config && *final(copy)
                    == next && #[trigger] settled(
                    old(self)@,
                    final(self)@,
                    next,
                    out,
                    save,
                    r,
                ),
    {
        let ghost (before, saving) = (self@, save);
        let mut next: Config = (*self.config).clone();
        let out: Result<T, Error> = edit(&mut next);
        let ghost said = out;
        let t: T = match out {
            Ok(t) => t,
            Err(e) => {
                let r: Result<T, Error> = Err(e);
                assert(settled(before, self@, next, said, saving, r));
                return r;
            },
        };
        if let Err(f) = next.validate() {
            let r: Result<T, Error> = Err(Error::Fault(f));
            assert(settled(before, self@, next, said, saving, r));
            return r;
        }
        let saved: Result<(), String> = save(&next);
        let ghost told = saved;
        let ghost kept = next;
        assert(call_ensures(saving, (&kept,), told));
        match saved {
            Err(cause) => {
                let r: Result<T, Error> = Err(Error::Persist { path: self.path.clone(), cause });
                assert(committed(before, self@, kept@, t, told, r));
                assert(settled(before, self@, kept, said, saving, r));
                r
            },
            Ok(()) => {
                // Published after the write succeeds, so what is running is always
                // what is on disk.
                self.version = self.version.wrapping_add(1);
                self.config = Arc::new(next);
                let r: Result<T, Error> = Ok(t);
                assert(self@ =~= published(before, kept@));
                assert(committed(before, self@, kept@, t, told, r));
                assert(settled(before, self@, kept, said, saving, r));
                r
            },
        }
    }

    // ------------------------------------------------------------ watching

    /// A watcher that has seen the current configuration.
    pub fn subscribe(&self) -> (w: Subscription)
        ensures
            w.seen == self@.version,
    {
        Subscription { seen: self.version }
    }

    /// Whether a configuration was published that the watcher has not seen.
    pub fn has_changed(&self, w: &Subscription) -> (r: bool)
        ensures
            r == (w.seen != self@.version),
    {
        w.seen != self.version
    }

    /// The current configuration, which the watcher has then seen.
    pub fn borrow_and_update(&self, w: &mut Subscription) -> (c: Arc<Config>)
        ensures
            c@ == self@.config,
            final(w).seen == self@.version,
    {
        w.seen = self.version;
        share(&self.config)
    }

    // ------------------------------------------------------------ runtime facts

    /// Notes that a peer is connected; one that is known keeps what is known of it.
    pub fn peer_connected(&mut self, id: EndpointId, now: u64)
        ensures
            final(self)@ == (SharedSpec {
                peers: if old(self)@.peers.dom().contains(id) {
                    old(self)@.peers
                } else {
                    old(self)@.peers.insert(id, fresh_live(now))
                },
                ..old(self)@
            }),
    {
        if !self.peers.contains(&id) {
            let l: Live = Live { since: now, path: String::new(), addr: None, rtt_ms: None };
            assert(l@ =~= fresh_live(now));
            self.peers.set(id, l);
            assert(self@.peers =~= old(self)@.peers.insert(id, fresh_live(now)));
        }
    }

    pub fn peer_disconnected(&mut self, id: &EndpointId)
        ensures
            final(self)@ == (SharedSpec { peers: old(self)@.peers.remove(*id), ..old(self)@ }),
    {
        self.peers.remove(id);
        assert(self@.peers =~= old(self)@.peers.remove(*id));
    }

    /// Notes the path of a connected peer. A report on a peer that is not connected
    /// is ignored: it must not bring the peer back.
    pub fn peer_path(
        &mut self,
        id: EndpointId,
        path: &str,
        addr: Option<String>,
        rtt_ms: Option<u64>,
    )
        ensures
            final(self)@ == (SharedSpec {
                peers: if old(self)@.peers.dom().contains(id) {
                    old(self)@.peers.insert(
                        id,
                        LiveSpec {
                            since: old(self)@.peers[id].since,
                            path: path@,
                            addr: opt_text(addr),
                            rtt_ms,
                        },
                    )
                } else {
                    old(self)@.peers
                },
                ..old(self)@
            }),
    {
        let since: u64 = match self.peers.get(&id) {
            None => return,
            Some(l) => l.since,
        };
        let l: Live = Live { since, path: path.to_owned(), addr, rtt_ms };
        self.peers.set(id, l);
        assert(self@.peers =~= old(self)@.peers.insert(id, l@));
    }

    /// The connected peers, in the order of their ids.
    pub fn live_peers(&self, now: u64) -> (r: Vec<PeerLive>)
        ensures
            exists|ids: Seq<EndpointId>| #[trigger]
                lists_ids(ids, self@.peers.dom()) && r@.len() == ids.len() && forall|i: int|
                    0 <= i < ids.len() ==> (#[trigger] r@[i])@ == live_report(
                        ids[i],
                        self@.peers[ids[i]],
                        now,
                    ),
    {
        let ids: Vec<EndpointId> = sorted_ids(self.peers.keys());
        let mut r: Vec<PeerLive> = Vec::new();
        let mut i: usize = 0;
        while i < ids.len()
            invariant
                i <= ids@.len(),
                lists_ids(ids@, self.peers@.dom()),
                r@.len() == i,
                forall|j: int|
                    0 <= j < i ==> (#[trigger] r@[j])@ == live_report(
                        ids@[j],
                        self@.peers[ids@[j]],
                        now,
                    ),
            decreases ids@.len() - i,
        {
            let id: EndpointId = ids[i];
            assert(ids@.contains(id));
            if let Some(l) = self.peers.get(&id) {
                let path: String = if l.path.as_str().is_empty() {
                    "pending".to_owned()
                } else {
                    l.path.clone()
                };
                let p: PeerLive = PeerLive {
                    id: id.to_text(),
                    short: id.fmt_short(),
                    path,
                    addr: clone_opt(&l.addr),
                    rtt_ms: l.rtt_ms,
                    since_secs: elapsed_secs(l.since, now),
                };
                assert(p@ =~= live_report(id, self@.peers[id], now));
                r.push(p);
            }
            i += 1;
        }
        assert(lists_ids(ids@, self@.peers.dom())) by {
            assert(self@.peers.dom() =~= self.peers@.dom());
        }
        r
    }

    pub fn set_bind(&mut self, proto: Proto, local: u16, st: BindState)
        ensures
            final(self)@ == (SharedSpec {
                binds: old(self)@.binds.insert(LocalPort { proto, port: local }, st@),
                ..old(self)@
            }),
    {
        self.binds.set(LocalPort { proto, port: local }, st);
        assert(self@.binds =~= old(self)@.binds.insert(LocalPort { proto, port: local }, st@));
    }

    pub fn clear_bind(&mut self, proto: Proto, local: u16)
        ensures
            final(self)@ == (SharedSpec {
                binds: old(self)@.binds.remove(LocalPort { proto, port: local }),
                ..old(self)@
            }),
    {
        self.binds.remove(&LocalPort { proto, port: local });
        assert(self@.binds =~= old(self)@.binds.remove(LocalPort { proto, port: local }));
    }

    pub fn bind_state(&self, b: &Binding) -> (r: Option<BindState>)
        ensures
            match r {
                Some(st) => self@.binds.dom().contains(LocalPort { proto: b.proto, port: b.local })
                    && st@ == self@.binds[LocalPort { proto: b.proto, port: b.local }],
                None => !self@.binds.dom().contains(LocalPort { proto: b.proto, port: b.local }),
            },
    {
        match self.binds.get(&LocalPort { proto: b.proto, port: b.local }) {
            Some(st) => Some(st.clone()),
            None => None,
        }
    }
}

/// What a watcher of the configuration has seen.
#[derive(Clone, Copy, Debug, PartialEq, Eq, Structural)]
pub struct Subscription {
    pub seen: u64,
}

/// Puts ids in their order.
fn sorted_ids(ids: Vec<EndpointId>) -> (r: Vec<EndpointId>)
    requires
        ids@.no_duplicates(),
    ensures
        ids_rising(r@),
        forall|id: EndpointId| #[trigger] r@.contains(id) <==> ids@.contains(id),
{
    let mut r: Vec<EndpointId> = Vec::new();
    let mut i: usize = 0;
    while i < ids.len()
        invariant
            i <= ids@.len(),
            ids@.no_duplicates(),
            ids_rising(r@),
            forall|id: EndpointId| #[trigger] r@.contains(id) <==> ids@.take(i as int).contains(id),
        decreases ids@.len() - i,
    {
        let ghost seen = ids@.take(i as int);
        let ghost next = ids@.take(i + 1);
        let ghost before = r@;
        let id: EndpointId = ids[i];
        assert(!seen.contains(id));
        assert(!before.contains(id));
        insert_id(&mut r, id);
        assert forall|x: EndpointId| #[trigger] r@.contains(x) <==> next.contains(x) by {
            assert(before.contains(x) <==> seen.contains(x));
            if seen.contains(x) {
                let k = choose|k: int| 0 <= k < seen.len() && seen[k] == x;
                assert(next[k] == x);
            }
            if next.contains(x) {
                let k = choose|k: int| 0 <= k < next.len() && next[k] == x;
                if k < i {
                    assert(seen[k] == x);
                }
            }
            assert(next[i as int] == id);
        }
        i += 1;
    }
    assert(ids@.take(ids@.len() as int) =~= ids@);
    r
}

/// Puts an id where it belongs in a rising list that does not hold it.
fn insert_id(r: &mut Vec<EndpointId>, id: EndpointId)
    requires
        ids_rising(old(r)@),
        !old(r)@.contains(id),
    ensures
        ids_rising(final(r)@),
        forall|x: EndpointId| #[trigger] final(r)@.contains(x) <==> old(r)@.contains(x) || x == id,
{
    let mut i: usize = 0;
    while i < r.len()
        invariant_except_break
            i <= r@.len(),
            r@ == old(r)@,
            !r@.contains(id),
            forall|j: int| 0 <= j < i ==> id_before(#[trigger] r@[j], id),
        ensures
            i <= r@.len(),
            r@ == old(r)@,
            forall|j: int| 0 <= j < i ==> id_before(#[trigger] r@[j], id),
            i < r@.len() ==> id_before(id, r@[i as int]),
        decreases r@.len() - i,
    {
        match r[i].place(&id) {
            Place::Before => {},
            Place::Same => {
                assert(r@.contains(r@[i as int]));
            },
            Place::After => {
                break ;
            },
        }
        i += 1;
    }
    let ghost before = r@;
    r.insert(i, id);
    let ghost after = r@;
    assert(after[i as int] == id);
    assert forall|x: EndpointId| #[trigger] after.contains(x) <==> before.contains(x) || x == id by {
        if before.contains(x) {
            let k = choose|k: int| 0 <= k < before.len() && before[k] == x;
            if k < i {
                assert(after[k] == x);
            } else {
                assert(after[k + 1] == x);
            }
        }
        if after.contains(x) && x != id {
            let k = choose|k: int| 0 <= k < after.len() && after[k] == x;
            if k < i {
                assert(before[k] == x);
            } else {
                assert(before[k - 1] == x);
            }
        }
    }
    assert forall|a: int, b: int| 0 <= a < b < after.len() implies id_before(after[a], after[b]) by {
        if b == i {
        } else if a == i {
            if b - 1 > i {
                assert(id_before(before[i as int], before[b - 1]));
                crate::endpoint::id_order_is_transitive(id, before[i as int], before[b - 1]);
            }
        } else {
            let x = if a < i { a } else { a - 1 };
            let y = if b < i { b } else { b - 1 };
            assert(id_before(before[x], before[y]));
        }
    }
}

// ---------------------------------------------------------------- laws

/// A mutation that is refused, by the edit, by validation or by the disk, changes
/// nothing at all.
pub proof fn a_refused_mutation_changes_nothing<G, T>(
    before: SharedSpec,
    after: SharedSpec,
    next: Config,
    out: Result<T, Error>,
    save: G,
    r: Result<T, Error>,
) where G: FnOnce(&Config) -> Result<(), String>
    requires
        settled(before, after, next, out, save, r),
        r is Err,
    ensures
        after == before,
{
}

/// What is running after an accepted mutation is acceptable, and is what was saved.
pub proof fn an_accepted_mutation_is_valid_and_saved<G, T>(
    before: SharedSpec,
    after: SharedSpec,
    next: Config,
    out: Result<T, Error>,
    save: G,
    r: Result<T, Error>,
) where G: FnOnce(&Config) -> Result<(), String>
    requires
        settled(before, after, next, out, save, r),
        r is Ok,
    ensures
        config_valid(after.config),
        call_ensures(save, (&next,), Ok(())) && next@ == after.config,
        after == published(before, after.config),
{
    let saved = choose|saved: Result<(), String>| #[trigger]
        call_ensures(save, (&next,), saved) && committed(before, after, next@, out->Ok_0, saved, r);
    assert(saved is Ok && saved->Ok_0 == ());
    assert forall|c: ConfigSpec| config_fault(c) is None implies config_valid(c) by {
        crate::config::faults_are_exactly_invalidity(c);
    }
}

/// The running configuration stays acceptable whatever is asked of it.
pub proof fn mutation_keeps_the_config_valid<G, T>(
    before: SharedSpec,
    after: SharedSpec,
    next: Config,
    out: Result<T, Error>,
    save: G,
    r: Result<T, Error>,
) where G: FnOnce(&Config) -> Result<(), String>
    requires
        settled(before, after, next, out, save, r),
        config_valid(before.config),
    ensures
        config_valid(after.config),
{
    if r is Ok {
        an_accepted_mutation_is_valid_and_saved(before, after, next, out, save, r);
    } else {
        a_refused_mutation_changes_nothing(before, after, next, out, save, r);
    }
}

/// Every watcher that was up to date sees a published configuration, whether or not
/// anyone was watching when it was published.
pub proof fn watchers_see_what_is_published(before: SharedSpec, next: ConfigSpec, w: Subscription)
    requires
        w.seen == before.version,
    ensures
        w.seen != published(before, next).version,
{
}

/// Publishing a configuration puts that one in the place of the one before and tells
/// every watcher; nothing else that is shared changes.
pub proof fn publishing_changes_only_the_configuration(s: SharedSpec, next: ConfigSpec)
    ensures
        published(s, next).config == next,
        published(s, next).version != s.version,
        published(s, next).path == s.path,
        published(s, next).role == s.role,
        published(s, next).peers == s.peers,
        published(s, next).binds == s.binds,
        published(s, next).started == s.started,
{
}

/// The version after a number of publications.
pub open spec fn version_after(v: u64, publications: nat) -> u64
    decreases publications,
{
    if publications == 0 {
        v
    } else {
        next_version(version_after(v, (publications - 1) as nat))
    }
}

/// A watcher that missed any number of publications, as many as a version can count,
/// still notices.
pub proof fn no_publication_goes_unnoticed(v: u64, n: nat)
    requires
        0 < n <= u64::MAX,
    ensures
        version_after(v, n) != v,
{
    lemma_version_after(v, n);
}

proof fn lemma_version_after(v: u64, n: nat)
    requires
        n <= u64::MAX,
    ensures
        version_after(v, n) == (if v + n <= u64::MAX {
            v + n
        } else {
            v + n - u64::MAX - 1
        }),
    decreases n,
{
    if n > 0 {
        lemma_version_after(v, (n - 1) as nat);
    }
}

/// Whatever was asked of a mutation, it is accepted exactly when the edit says so, what
/// it leaves is acceptable and saving it succeeds; it is then answered with what the edit
/// said. An edit that is turned away is answered with its own complaint, one that leaves
/// what is not acceptable with the complaint about that, and one that cannot be saved
/// with why, and where it was to be saved.
pub proof fn a_mutation_is_answered_by_what_became_of_it<G, T>(
    before: SharedSpec,
    after: SharedSpec,
    next: Config,
    out: Result<T, Error>,
    save: G,
    r: Result<T, Error>,
) where G: FnOnce(&Config) -> Result<(), String>
    requires
        settled(before, after, next, out, save, r),
    ensures
        out matches Err(e) ==> r == Err::<T, Error>(e),
        out is Ok && !config_valid(next@) ==> (r matches Err(Error::Fault(f)) && config_fault(next@)
            == Some(f)),
        out is Ok && config_valid(next@) ==> exists|saved: Result<(), String>| #[trigger]
            call_ensures(save, (&next,), saved) && match saved {
                Ok(()) => r == out && after.config == next@ && after.version != before.version,
                Err(why) => r matches Err(Error::Persist { path, cause }) && path@ == before.path
                    && cause == why && after == before,
            },
        after.peers == before.peers && after.binds == before.binds && after.role == before.role
            && after.path == before.path && after.started == before.started,
{
    crate::config::faults_are_exactly_invalidity(next@);
    if let Ok(t) = out {
        if config_valid(next@) {
            let saved = choose|saved: Result<(), String>| #[trigger]
                call_ensures(save, (&next,), saved) && committed(
                    before,
                    after,
                    next@,
                    t,
                    saved,
                    r,
                );
            publishing_changes_only_the_configuration(before, next@);
            assert(call_ensures(save, (&next,), saved));
        }
    }
}

/// The seconds from one moment to another are whole ones, rounded down.
pub proof fn seconds_are_rounded_down(from: u64, to: u64)
    ensures
        to >= from ==> secs_between(from, to) * 1_000_000_000 <= to - from < (secs_between(
            from,
            to,
        ) + 1) * 1_000_000_000,
        to < from ==> secs_between(from, to) == 0,
{
}

/// A report on a connected peer shows its id, what is known of its path, and for how
/// long it has been connected; the path is shown as pending exactly while none is known.
pub proof fn a_report_shows_what_is_known(id: EndpointId, l: LiveSpec, now: u64)
    ensures
        live_report(id, l, now).id == id_text(id),
        live_report(id, l, now).short == id_text(id).take(10),
        l.path.len() == 0 ==> live_report(id, l, now).path == "pending"@,
        l.path.len() > 0 ==> live_report(id, l, now).path == l.path,
        live_report(id, l, now).addr == l.addr,
        live_report(id, l, now).rtt_ms == l.rtt_ms,
        now >= l.since ==> live_report(id, l, now).since_secs == (now - l.since) / 1_000_000_000,
{
    crate::endpoint::short_text_starts_the_full_text(id);
}

/// A peer that has just connected is connected since then, on no path yet.
pub proof fn a_fresh_peer_has_no_path(now: u64)
    ensures
        fresh_live(now).since == now,
        fresh_live(now).path.len() == 0,
        fresh_live(now).addr is None,
        fresh_live(now).rtt_ms is None,
{
}

/// What is read of a report is what the report holds.
pub proof fn reports_are_read_as_they_are(b: BindState, p: PeerLive, s: Option<String>)
    ensures
        b is Listening <==> b@ is Listening,
        b matches BindState::Failed { error } ==> b@ == BindSpec::Failed(error@),
        p@.id == p.id@ && p@.short == p.short@ && p@.path == p.path@ && p@.rtt_ms == p.rtt_ms
            && p@.since_secs == p.since_secs,
        p.addr is None <==> p@.addr is None,
        p.addr matches Some(a) ==> p@.addr == Some(a@),
        s is None <==> opt_text(s) is None,
        s matches Some(t) ==> opt_text(s) == Some(t@),
{
}

/// A list of the ids of a set has each of them once, the one whose bytes differ first
/// and are less before the other.
pub proof fn ids_are_listed_by_their_bytes(ids: Seq<EndpointId>, set: Set<EndpointId>, i: int, j: int)
    requires
        lists_ids(ids, set),
        0 <= i < j < ids.len(),
    ensures
        set.contains(ids[i]),
        exists|k: int|
            0 <= k < 32 && (#[trigger] ids[i].bytes[k]) < ids[j].bytes[k] && forall|x: int|
                0 <= x < k ==> ids[i].bytes[x] == ids[j].bytes[x],
{
    assert(ids.contains(ids[i]));
    assert(id_before(ids[i], ids[j]));
    let k = choose|k: int| #[trigger]
        crate::endpoint::differ_first_at(ids[i].bytes@, ids[j].bytes@, k) && ids[i].bytes[k]
            < ids[j].bytes[k];
    assert(ids[i].bytes[k] < ids[j].bytes[k]);
    assert forall|x: int| 0 <= x < k implies ids[i].bytes[x] == ids[j].bytes[x] by {
        assert(ids[i].bytes@[x] == ids[j].bytes@[x]);
    }
}

} // verus!
