//! Holding the link to the serving peer: dialing, carrying, giving up, trying again.
use crate::config::{binding_keys, bindings_view, config_valid, Binding, BindingSpec};
use crate::endpoint::EndpointId;
use crate::error::Error;
use crate::grants::{a_binding_is_active_exactly_when_enabled, enabled_bindings};
use crate::listeners::{
    active_bindings_claim_different_ports, claim, forwarders_of, lists_bound, reconciled,
    reconciling_serves_what_is_wanted, same_at, served, tcp_of, to_be_bound, udp_of, Forwarder,
    Listener, Listeners, Sock,
};
use crate::state::{fresh_live, LocalPort, Shared, SharedSpec, Subscription};
use vstd::prelude::*;

verus! {

/// The delay before the first retry, in seconds.
pub const BACKOFF_START_SECS: u64 = 1;

/// The longest delay before a retry, in seconds. A peer that comes back in a minute
/// is picked up within a minute.
pub const BACKOFF_MAX_SECS: u64 = 30;

/// What the link is waiting for.
#[derive(Clone, Copy, Debug, PartialEq, Eq, Structural)]
pub enum Phase {
    /// A dial is under way.
    Dialing,
    /// A connection is held; its end and the configuration are watched.
    Carrying,
    /// A connection is held; only its end is watched.
    Draining,
    /// The next dial is due after the delay; the configuration is watched.
    Waiting,
    /// The link is over for good.
    Over,
}

/// Why a connection ended.
#[derive(Debug)]
pub enum Ended {
    /// The peer closed it on purpose.
    ByPeer { reason: Vec<u8>, code: u64 },
    /// It was lost.
    Lost,
}

/// What happened to the link.
#[derive(Debug)]
pub enum LinkEvent {
    /// The dial came through, to the holder of this key.
    Dialed { remote: EndpointId },
    /// The dial failed.
    DialFailed,
    /// The connection ended.
    Closed(Ended),
    /// A configuration was published.
    ConfigChanged,
    /// No configuration will be published any more.
    ConfigGone,
    /// The delay is over.
    RetryDue,
}

/// What is to be done next.
pub enum LinkStep<T, U> {
    /// The peer is dialed.
    Dial,
    /// These forwarders are started on the new connection.
    Carry(Vec<Forwarder<T, U>>),
    /// The forwarders are stopped, and these are started in their place.
    Restart(Vec<Forwarder<T, U>>),
    /// The forwarders are stopped, and the next dial is due after this many seconds.
    Wait { secs: u64 },
    /// The forwarders are stopped, and the link is given up.
    GiveUp(Error),
    /// Whatever is running goes on.
    Hold,
}

/// The link to one serving peer.
pub struct Link {
    pub peer: EndpointId,
    pub phase: Phase,
    pub delay: u64,
    pub watch: Subscription,
}

/// The delay after the given one: twice as long, up to the longest.
pub open spec fn longer(delay: u64) -> u64 {
    if 2 * delay <= BACKOFF_MAX_SECS {
        (2 * delay) as u64
    } else {
        BACKOFF_MAX_SECS
    }
}

fn longer_delay(delay: u64) -> (d: u64)
    ensures
        d == longer(delay),
{
    if delay > BACKOFF_MAX_SECS / 2 {
        BACKOFF_MAX_SECS
    } else {
        delay * 2
    }
}

/// Whether the listeners were held to the active bindings of the configuration that
/// is published.
pub open spec fn followed<T, U, B>(
    before: Map<LocalPort, Listener<T, U>>,
    after: Map<LocalPort, Listener<T, U>>,
    shared: SharedSpec,
    shared_after: SharedSpec,
    bind: B,
    changed: bool,
) -> bool where B: Fn(&Binding) -> Result<Sock<T, U>, String> {
    exists|want: Seq<Binding>|
        bindings_view(want) == enabled_bindings(shared.config.bindings) && #[trigger] reconciled(
            before,
            after,
            shared,
            shared_after,
            want,
            bind,
            changed,
        )
}

fn follow<T, U, B>(listeners: &mut Listeners<T, U>, shared: &mut Shared, bind: &B) -> (changed:
    bool) where B: Fn(&Binding) -> Result<Sock<T, U>, String>
    requires
        forall|b: &Binding|
            to_be_bound(
                enabled_bindings(old(shared)@.config.bindings),
                old(listeners)@,
                b@,
            ) ==> #[trigger] call_requires(*bind, (b,)),
    ensures
        followed(
            old(listeners)@,
            final(listeners)@,
            old(shared)@,
            final(shared)@,
            *bind,
            changed,
        ),
{
    let want: Vec<Binding> = shared.config().active_bindings();
    listeners.reconcile(&want, shared, bind)
}

/// Whether there is no listener at all.
pub open spec fn nothing_bound<T, U>(bound: Map<LocalPort, Listener<T, U>>) -> bool {
    bound.dom() =~= Set::<LocalPort>::empty()
}

/// Whether every one of some bindings is bound.
pub open spec fn all_bound<T, U>(
    asked: Seq<BindingSpec>,
    bound: Map<LocalPort, Listener<T, U>>,
) -> bool {
    forall|i: int| 0 <= i < asked.len() ==> bound.dom().contains(claim(#[trigger] asked[i]))
}

/// Whether the binding at `i` is the first of some bindings that is not bound.
pub open spec fn first_unbound<T, U>(
    asked: Seq<BindingSpec>,
    bound: Map<LocalPort, Listener<T, U>>,
    i: int,
) -> bool {
    &&& 0 <= i < asked.len()
    &&& !bound.dom().contains(claim(asked[i]))
    &&& forall|j: int| 0 <= j < i ==> bound.dom().contains(claim(#[trigger] asked[j]))
}

/// Binds the listeners, before the first dial, so that a port already in use fails the
/// command rather than failing later: a command that did not get every listener it
/// asked for has failed. One that asked for none is only there to be edited, which is
/// fine.
pub fn start<T, U, B>(
    listeners: &mut Listeners<T, U>,
    shared: &mut Shared,
    peer: EndpointId,
    bind: &B,
) -> (r: Result<Link, Error>) where B: Fn(&Binding) -> Result<Sock<T, U>, String>
    requires
        forall|b: &Binding|
            to_be_bound(
                enabled_bindings(old(shared)@.config.bindings),
                old(listeners)@,
                b@,
            ) ==> #[trigger] call_requires(*bind, (b,)),
    ensures
        exists|changed: bool| #[trigger]
            followed(
                old(listeners)@,
                final(listeners)@,
                old(shared)@,
                final(shared)@,
                *bind,
                changed,
            ),
        match r {
            Ok(link) => {
                &&& all_bound(
                    enabled_bindings(old(shared)@.config.bindings),
                    final(listeners)@,
                )
                &&& link.peer == peer
                &&& link.phase == Phase::Dialing
                &&& link.delay == BACKOFF_START_SECS
                &&& link.watch.seen == old(shared)@.version
            },
            Err(e) => exists|i: int| #[trigger]
                first_unbound(
                    enabled_bindings(old(shared)@.config.bindings),
                    final(listeners)@,
                    i,
                ) && e == (if nothing_bound(final(listeners)@) {
                    Error::NothingBound
                } else {
                    Error::LocalUnbound {
                        proto: enabled_bindings(old(shared)@.config.bindings)[i].proto,
                        local: enabled_bindings(old(shared)@.config.bindings)[i].local,
                    }
                }),
        },
{
    let watch: Subscription = shared.subscribe();
    let initial: Vec<Binding> = shared.config().active_bindings();
    let ghost asked = enabled_bindings(shared@.config.bindings);
    assert(bindings_view(initial@).len() == initial@.len());
    let changed: bool = listeners.reconcile(&initial, shared, bind);
    assert(followed(
        old(listeners)@,
        listeners@,
        old(shared)@,
        shared@,
        *bind,
        changed,
    ));
    let mut i: usize = 0;
    while i < initial.len()
        invariant
            i <= initial@.len(),
            asked == bindings_view(initial@),
            forall|j: int| 0 <= j < i ==> listeners@.dom().contains(claim(#[trigger] asked[j])),
            asked == enabled_bindings(old(shared)@.config.bindings),
            exists|changed: bool| #[trigger]
                followed(
                    old(listeners)@,
                    listeners@,
                    old(shared)@,
                    shared@,
                    *bind,
                    changed,
                ),
        decreases initial@.len() - i,
    {
        let b: &Binding = &initial[i];
        assert(asked[i as int] == b@);
        if !listeners.is_bound(&LocalPort { proto: b.proto, port: b.local }) {
            assert(first_unbound(asked, listeners@, i as int));
            if listeners.is_empty() {
                return Err(Error::NothingBound);
            }
            return Err(Error::LocalUnbound { proto: b.proto, local: b.local });
        }
        i += 1;
    }
    Ok(Link { peer, phase: Phase::Dialing, delay: BACKOFF_START_SECS, watch })
}

/// The state of a link, apart from what it shares with others.
#[verifier::ext_equal]
pub struct LinkSpec {
    pub peer: EndpointId,
    pub phase: Phase,
    pub delay: u64,
    pub seen: u64,
}

impl View for Link {
    type V = LinkSpec;

    open spec fn view(&self) -> LinkSpec {
        LinkSpec {
            peer: self.peer,
            phase: self.phase,
            delay: self.delay,
            seen: self.watch.seen,
        }
    }
}

/// The link after an event. An event that its phase does not wait for is left alone.
pub open spec fn link_after(l: LinkSpec, event: LinkEvent, version: u64) -> LinkSpec {
    match (l.phase, event) {
        // A link that formed once earns a fresh ladder of delays.
        (Phase::Dialing, LinkEvent::Dialed { remote }) => LinkSpec {
            phase: Phase::Carrying,
            delay: BACKOFF_START_SECS,
            ..l
        },
        (Phase::Dialing, LinkEvent::DialFailed) => LinkSpec { phase: Phase::Waiting, ..l },
        (Phase::Carrying, LinkEvent::ConfigChanged) => LinkSpec { seen: version, ..l },
        (Phase::Carrying, LinkEvent::ConfigGone) => LinkSpec { phase: Phase::Draining, ..l },
        (Phase::Carrying, LinkEvent::Closed(Ended::Lost)) => LinkSpec {
            phase: Phase::Waiting,
            ..l
        },
        (Phase::Draining, LinkEvent::Closed(Ended::Lost)) => LinkSpec {
            phase: Phase::Waiting,
            ..l
        },
        // "Refused" and "gone" are different answers: a close by the peer is final.
        (Phase::Carrying, LinkEvent::Closed(Ended::ByPeer { reason, code })) => LinkSpec {
            phase: Phase::Over,
            ..l
        },
        (Phase::Draining, LinkEvent::Closed(Ended::ByPeer { reason, code })) => LinkSpec {
            phase: Phase::Over,
            ..l
        },
        (Phase::Waiting, LinkEvent::ConfigChanged) => LinkSpec { seen: version, ..l },
        (Phase::Waiting, LinkEvent::ConfigGone) => LinkSpec {
            phase: Phase::Dialing,
            delay: longer(l.delay),
            ..l
        },
        (Phase::Waiting, LinkEvent::RetryDue) => LinkSpec {
            phase: Phase::Dialing,
            delay: longer(l.delay),
            ..l
        },
        _ => l,
    }
}

/// Whether the phase is one in which an event of the configuration is followed.
pub open spec fn follows(phase: Phase, event: LinkEvent) -> bool {
    event is ConfigChanged && (phase == Phase::Carrying || phase == Phase::Waiting)
}

/// The shared state after an event that is not a change of the configuration: a peer
/// is listed as connected for as long as the connection is held.
pub open spec fn shared_after(l: LinkSpec, s: SharedSpec, event: LinkEvent, now: u64) -> SharedSpec {
    match (l.phase, event) {
        (Phase::Dialing, LinkEvent::Dialed { remote }) => SharedSpec {
            peers: if s.peers.dom().contains(remote) {
                s.peers
            } else {
                s.peers.insert(remote, fresh_live(now))
            },
            ..s
        },
        (Phase::Carrying, LinkEvent::Closed(_)) => SharedSpec { peers: s.peers.remove(l.peer), ..s },
        (Phase::Draining, LinkEvent::Closed(_)) => SharedSpec { peers: s.peers.remove(l.peer), ..s },
        _ => s,
    }
}

/// What is to be done next, given whether the set of listeners changed and what it
/// now calls for.
pub open spec fn is_step<T, U>(
    l: LinkSpec,
    event: LinkEvent,
    changed: bool,
    forwarders: Seq<Forwarder<T, U>>,
    step: LinkStep<T, U>,
) -> bool {
    match (l.phase, event) {
        (Phase::Dialing, LinkEvent::Dialed { remote }) => step matches LinkStep::Carry(f) && f@
            == forwarders,
        (Phase::Dialing, LinkEvent::DialFailed) => step == LinkStep::<T, U>::Wait {
            secs: l.delay,
        },
        (Phase::Carrying, LinkEvent::ConfigChanged) => if changed {
            step matches LinkStep::Restart(f) && f@ == forwarders
        } else {
            step == LinkStep::<T, U>::Hold
        },
        (Phase::Carrying, LinkEvent::Closed(Ended::Lost)) => step == LinkStep::<T, U>::Wait {
            secs: l.delay,
        },
        (Phase::Draining, LinkEvent::Closed(Ended::Lost)) => step == LinkStep::<T, U>::Wait {
            secs: l.delay,
        },
        (Phase::Carrying, LinkEvent::Closed(Ended::ByPeer { reason, code })) => step
            == LinkStep::<T, U>::GiveUp(Error::ClosedByPeer { reason, code }),
        (Phase::Draining, LinkEvent::Closed(Ended::ByPeer { reason, code })) => step
            == LinkStep::<T, U>::GiveUp(Error::ClosedByPeer { reason, code }),
        (Phase::Waiting, LinkEvent::ConfigGone) => step == LinkStep::<T, U>::Dial,
        (Phase::Waiting, LinkEvent::RetryDue) => step == LinkStep::<T, U>::Dial,
        _ => step == LinkStep::<T, U>::Hold,
    }
}

impl Link {
    /// One turn of the link. Waiting for a retry still follows the configuration, or
    /// a binding added during an outage would not appear until the peer came back.
    pub fn step<T, U, B>(
        &mut self,
        listeners: &mut Listeners<T, U>,
        shared: &mut Shared,
        event: LinkEvent,
        now: u64,
        bind: &B,
    ) -> (step: LinkStep<T, U>) where B: Fn(&Binding) -> Result<Sock<T, U>, String>
        requires
            follows(old(self)@.phase, event) ==> forall|b: &Binding|
                to_be_bound(
                    enabled_bindings(old(shared)@.config.bindings),
                    old(listeners)@,
                    b@,
                ) ==> #[trigger] call_requires(*bind, (b,)),
        ensures
            final(self)@ == link_after(old(self)@, event, old(shared)@.version),
            step is Carry || step is Restart ==> lists_bound(
                final(listeners).order(),
                final(listeners)@,
            ),
            exists|changed: bool|
                {
                    &&& #[trigger] is_step(
                        old(self)@,
                        event,
                        changed,
                        forwarders_of(
                            tcp_of(final(listeners).order(), final(listeners)@),
                            udp_of(final(listeners).order(), final(listeners)@),
                        ),
                        step,
                    )
                    &&& if follows(old(self)@.phase, event) {
                        followed(
                            old(listeners)@,
                            final(listeners)@,
                            old(shared)@,
                            final(shared)@,
                            *bind,
                            changed,
                        )
                    } else {
                        final(listeners)@ == old(listeners)@ && final(shared)@ == shared_after(
                            old(self)@,
                            old(shared)@,
                            event,
                            now,
                        )
                    }
                },
    {
        let ghost was = self@;
        let ghost said = event;
        let mut changed: bool = false;
        let step: LinkStep<T, U> = match (self.phase, event) {
            (Phase::Dialing, LinkEvent::Dialed { remote }) => {
                self.delay = BACKOFF_START_SECS;
                self.phase = Phase::Carrying;
                shared.peer_connected(remote, now);
                LinkStep::Carry(listeners.forwarders())
            },
            (Phase::Dialing, LinkEvent::DialFailed) => {
                self.phase = Phase::Waiting;
                LinkStep::Wait { secs: self.delay }
            },
            (Phase::Carrying, LinkEvent::ConfigChanged) => {
                let _cfg = shared.borrow_and_update(&mut self.watch);
                changed = follow(listeners, shared, bind);
                if changed {
                    LinkStep::Restart(listeners.forwarders())
                } else {
                    LinkStep::Hold
                }
            },
            (Phase::Carrying, LinkEvent::ConfigGone) => {
                self.phase = Phase::Draining;
                LinkStep::Hold
            },
            (Phase::Carrying, LinkEvent::Closed(ended)) => self.ended(shared, ended),
            (Phase::Draining, LinkEvent::Closed(ended)) => self.ended(shared, ended),
            (Phase::Waiting, LinkEvent::ConfigChanged) => {
                let _cfg = shared.borrow_and_update(&mut self.watch);
                changed = follow(listeners, shared, bind);
                LinkStep::Hold
            },
            (Phase::Waiting, LinkEvent::ConfigGone) => {
                self.phase = Phase::Dialing;
                self.delay = longer_delay(self.delay);
                LinkStep::Dial
            },
            (Phase::Waiting, LinkEvent::RetryDue) => {
                self.phase = Phase::Dialing;
                self.delay = longer_delay(self.delay);
                LinkStep::Dial
            },
            _ => LinkStep::Hold,
        };
        assert(is_step(
            was,
            said,
            changed,
            forwarders_of(
                tcp_of(listeners.order(), listeners@),
                udp_of(listeners.order(), listeners@),
            ),
            step,
        ));
        step
    }

    fn ended<T, U>(&mut self, shared: &mut Shared, ended: Ended) -> (step: LinkStep<T, U>)
        ensures
            final(shared)@ == (SharedSpec {
                peers: old(shared)@.peers.remove(old(self)@.peer),
                ..old(shared)@
            }),
            match ended {
                Ended::Lost => final(self)@ == (LinkSpec { phase: Phase::Waiting, ..old(self)@ })
                    && step == LinkStep::<T, U>::Wait { secs: old(self)@.delay },
                Ended::ByPeer { reason, code } => final(self)@ == (LinkSpec {
                    phase: Phase::Over,
                    ..old(self)@
                }) && step == LinkStep::<T, U>::GiveUp(Error::ClosedByPeer { reason, code }),
            },
    {
        shared.peer_disconnected(&self.peer);
        match ended {
            Ended::Lost => {
                self.phase = Phase::Waiting;
                LinkStep::Wait { secs: self.delay }
            },
            Ended::ByPeer { reason, code } => {
                self.phase = Phase::Over;
                LinkStep::GiveUp(Error::ClosedByPeer { reason, code })
            },
        }
    }
}

// ---------------------------------------------------------------- laws

/// The delay after a number of dials in a row that came to nothing.
pub open spec fn ladder(failures: nat) -> u64
    decreases failures,
{
    if failures == 0 {
        BACKOFF_START_SECS
    } else {
        longer(ladder((failures - 1) as nat))
    }
}

/// The delays double from a second to half a minute and stay there.
pub proof fn delays_grow_to_a_ceiling(n: nat)
    ensures
        BACKOFF_START_SECS <= ladder(n) <= BACKOFF_MAX_SECS,
        ladder(n) <= ladder(n + 1),
        n < 5 ==> ladder(n) == vstd::arithmetic::power2::pow2(n),
        n >= 5 ==> ladder(n) == BACKOFF_MAX_SECS,
    decreases n,
{
    vstd::arithmetic::power2::lemma2_to64();
    if n > 0 {
        delays_grow_to_a_ceiling((n - 1) as nat);
        if n < 5 {
            vstd::arithmetic::power2::lemma_pow2_unfold(n);
        }
    }
}

/// A dial that fails is followed by a wait of the current delay, and the dial after
/// it has the next delay of the ladder ahead of it.
pub proof fn a_failed_dial_climbs_the_ladder(l: LinkSpec, n: nat, version: u64)
    requires
        l.phase == Phase::Dialing,
        l.delay == ladder(n),
    ensures
        ({
            let waiting = link_after(l, LinkEvent::DialFailed, version);
            let again = link_after(waiting, LinkEvent::RetryDue, version);
            waiting.phase == Phase::Waiting && waiting.delay == ladder(n) && again.phase
                == Phase::Dialing && again.delay == ladder(n + 1)
        }),
{
}

/// A link that formed starts the ladder afresh, however long it was down before.
pub proof fn a_formed_link_starts_the_ladder_afresh(
    l: LinkSpec,
    remote: EndpointId,
    version: u64,
)
    requires
        l.phase == Phase::Dialing,
    ensures
        ({
            let held = link_after(l, LinkEvent::Dialed { remote }, version);
            let lost = link_after(held, LinkEvent::Closed(Ended::Lost), version);
            held.phase == Phase::Carrying && lost.phase == Phase::Waiting && lost.delay == ladder(0)
        }),
{
}

/// A refusal is terminal: once the peer has closed the connection on purpose, nothing
/// makes the link dial again.
pub proof fn a_refusal_is_terminal(
    l: LinkSpec,
    reason: Vec<u8>,
    code: u64,
    event: LinkEvent,
    version: u64,
    later: u64,
)
    requires
        l.phase == Phase::Carrying || l.phase == Phase::Draining,
    ensures
        ({
            let over = link_after(
                l,
                LinkEvent::Closed(Ended::ByPeer { reason, code }),
                version,
            );
            over.phase == Phase::Over && link_after(over, event, later) == over
        }),
{
}

/// A lost link is never given up: from every phase but the last, waiting for a
/// connection to be lost, a dial to fail or a delay to pass leads to another dial.
pub proof fn a_lost_link_is_dialed_again(l: LinkSpec, version: u64)
    ensures
        l.phase == Phase::Carrying || l.phase == Phase::Draining ==> link_after(
            link_after(l, LinkEvent::Closed(Ended::Lost), version),
            LinkEvent::RetryDue,
            version,
        ).phase == Phase::Dialing,
        l.phase == Phase::Dialing ==> link_after(
            link_after(l, LinkEvent::DialFailed, version),
            LinkEvent::RetryDue,
            version,
        ).phase == Phase::Dialing,
        l.phase == Phase::Waiting ==> link_after(l, LinkEvent::RetryDue, version).phase
            == Phase::Dialing,
{
}

/// The peer is listed as connected while the connection is held and not once it has
/// ended, where the one that answered the dial is the one that was dialed.
pub proof fn a_held_peer_is_listed(
    l: LinkSpec,
    s: SharedSpec,
    ended: Ended,
    version: u64,
    now: u64,
    later: u64,
)
    requires
        l.phase == Phase::Dialing,
    ensures
        ({
            let event = LinkEvent::Dialed { remote: l.peer };
            let held = link_after(l, event, version);
            let up = shared_after(l, s, event, now);
            let down = shared_after(held, up, LinkEvent::Closed(ended), later);
            up.peers.dom().contains(l.peer) && !down.peers.dom().contains(l.peer)
        }),
{
}

/// Once the listeners follow an acceptable configuration, a binding that is parked, of
/// either protocol, is not bound; one that is enabled is served, as is every other; and
/// nothing is bound that no enabled binding asks for.
pub proof fn the_listeners_follow_the_configuration<T, U, B>(
    before: Map<LocalPort, Listener<T, U>>,
    after: Map<LocalPort, Listener<T, U>>,
    s: SharedSpec,
    t: SharedSpec,
    bind: B,
    changed: bool,
    i: int,
    k: LocalPort,
) where B: Fn(&Binding) -> Result<Sock<T, U>, String>
    requires
        config_valid(s.config),
        followed(before, after, s, t, bind, changed),
        0 <= i < s.config.bindings.len(),
    ensures
        ({
            let b = s.config.bindings[i];
            let own = LocalPort { proto: b.proto, port: b.local };
            &&& !b.enabled ==> !after.dom().contains(own) && (before.dom().contains(own)
                ==> !t.binds.dom().contains(own))
            &&& b.enabled ==> exists|x: Binding|
                x@ == b && #[trigger] served(before, after, s.binds, t.binds, x, bind)
        }),
        after.dom().contains(k) ==> exists|j: int|
            0 <= j < s.config.bindings.len() && (#[trigger] s.config.bindings[j]).enabled
                && s.config.bindings[j].proto == k.proto && s.config.bindings[j].local == k.port
                && s.config.bindings[j].remote == after[k].remote,
        changed <==> after != before,
        t.config == s.config && t.version == s.version && t.peers == s.peers,
{
    let all = s.config.bindings;
    let want = choose|want: Seq<Binding>|
        bindings_view(want) == enabled_bindings(all) && #[trigger] reconciled(
            before,
            after,
            s,
            t,
            want,
            bind,
            changed,
        );
    let w = enabled_bindings(all);
    let b = all[i];
    let own = LocalPort { proto: b.proto, port: b.local };
    active_bindings_claim_different_ports(s.config);
    assert forall|x: int, y: int| 0 <= x < y < want.len() implies (#[trigger] want[x]).proto
        != (#[trigger] want[y]).proto || want[x].local != want[y].local by {
        assert(w[x] == want[x]@ && w[y] == want[y]@);
        assert(claim(w[x]) != claim(w[y]));
    }
    reconciling_serves_what_is_wanted(before, after, s, t, want, bind, changed, own);
    reconciling_serves_what_is_wanted(before, after, s, t, want, bind, changed, k);
    if b.enabled {
        a_binding_is_active_exactly_when_enabled(all, b, b);
        assert(all.contains(b));
        let j = w.index_of(b);
        assert(w[j] == want[j]@);
        assert(served(before, after, s.binds, t.binds, want[j], bind));
    } else {
        assert forall|j: int| 0 <= j < want.len() implies (#[trigger] want[j]).proto != own.proto
            || want[j].local != own.port by {
            let x = w[j];
            assert(x == want[j]@);
            a_binding_is_active_exactly_when_enabled(all, x, x);
            assert(w.contains(x));
            let y = all.index_of(x);
            if x.proto == b.proto && x.local == b.local {
                assert(binding_keys(all)[y] == binding_keys(all)[i]);
            }
        }
    }
    if after.dom().contains(k) {
        let j = choose|j: int|
            0 <= j < want.len() && (#[trigger] want[j]).proto == k.proto && want[j].local == k.port;
        let x = w[j];
        assert(x == want[j]@);
        a_binding_is_active_exactly_when_enabled(all, x, x);
        assert(w.contains(x));
        assert(served(before, after, s.binds, t.binds, want[j], bind));
        assert(LocalPort { proto: want[j].proto, port: want[j].local } == k);
        let y = all.index_of(x);
        assert(all[y] == x);
    }
}

/// Whatever happens, a link is to the same peer. It has seen the configuration that is
/// published exactly when it followed one.
pub proof fn a_link_stays_with_its_peer(l: LinkSpec, event: LinkEvent, version: u64)
    ensures
        link_after(l, event, version).peer == l.peer,
        link_after(l, event, version).seen == (if event is ConfigChanged && (l.phase
            == Phase::Carrying || l.phase == Phase::Waiting) {
            version
        } else {
            l.seen
        }),
{
}

/// What is to be done says how the link goes on: a dial is asked for exactly when one
/// was being waited for and no longer is; a wait is for the delay that holds; the link is
/// given up exactly when it is over, with what the peer said; what carries the bytes is
/// started exactly when a connection came up, and started anew only while one is held.
pub proof fn a_step_says_how_the_link_goes_on<T, U>(
    l: LinkSpec,
    event: LinkEvent,
    version: u64,
    changed: bool,
    forwarders: Seq<Forwarder<T, U>>,
    step: LinkStep<T, U>,
)
    requires
        is_step(l, event, changed, forwarders, step),
    ensures
        ({
            let next = link_after(l, event, version);
            &&& step is Dial <==> l.phase == Phase::Waiting && next.phase == Phase::Dialing
            &&& step is Dial <==> l.phase == Phase::Waiting && (event is RetryDue || event
                is ConfigGone)
            &&& step is Wait <==> l.phase != Phase::Waiting && next.phase == Phase::Waiting
            &&& step is Wait ==> step->secs == next.delay && next.delay == l.delay
            &&& step is GiveUp <==> l.phase != Phase::Over && next.phase == Phase::Over
            &&& step matches LinkStep::GiveUp(e) ==> (event matches LinkEvent::Closed(
                Ended::ByPeer { reason, code },
            ) && e == Error::ClosedByPeer { reason, code })
            &&& step is Carry <==> l.phase == Phase::Dialing && next.phase == Phase::Carrying
            &&& step is Restart <==> l.phase == Phase::Carrying && event is ConfigChanged
                && changed
            &&& step is Restart ==> next.phase == Phase::Carrying
            &&& step matches LinkStep::Carry(f) ==> f@ == forwarders
            &&& step matches LinkStep::Restart(f) ==> f@ == forwarders
        }),
{
}

/// A link moves on nothing but what it waits for: a dial that came through or failed
/// while it dials, the end of the connection or of the configuration while it holds one,
/// the end of the delay or of the configuration while it waits.
pub proof fn a_link_moves_only_on_what_it_waits_for(l: LinkSpec, event: LinkEvent, version: u64)
    ensures
        ({
            let next = link_after(l, event, version);
            &&& l.phase == Phase::Dialing ==> next.phase == (match event {
                LinkEvent::Dialed { remote } => Phase::Carrying,
                LinkEvent::DialFailed => Phase::Waiting,
                _ => Phase::Dialing,
            })
            &&& l.phase == Phase::Carrying && !(event is Closed) ==> next.phase == (if event
                is ConfigGone {
                Phase::Draining
            } else {
                Phase::Carrying
            })
            &&& l.phase == Phase::Draining && !(event is Closed) ==> next.phase == Phase::Draining
            &&& l.phase == Phase::Waiting && !(event is RetryDue || event is ConfigGone)
                ==> next.phase == Phase::Waiting
            &&& l.phase == Phase::Over ==> next == l
            &&& next.delay != l.delay ==> next.phase != l.phase
        }),
{
}

/// The delays are one second, then twice as long after every further failure, and half
/// a minute from the sixth on.
pub proof fn the_delays_in_seconds(n: nat)
    ensures
        ladder(0) == 1,
        ladder(n + 1) == (if 2 * ladder(n) < 30 {
            2 * ladder(n) as int
        } else {
            30
        }),
        ladder(5) == 30,
{
    delays_grow_to_a_ceiling(5);
}

/// An event changes nothing that is shared but which peers are connected, and of those
/// only the one that answered the dial, as connected from now on, or the one whose
/// connection ended.
pub proof fn an_event_touches_only_its_peer(
    l: LinkSpec,
    s: SharedSpec,
    event: LinkEvent,
    now: u64,
    other: EndpointId,
)
    ensures
        ({
            let t = shared_after(l, s, event, now);
            &&& t.config == s.config && t.version == s.version && t.binds == s.binds && t.role
                == s.role && t.path == s.path && t.started == s.started
            &&& same_at(t.peers, s.peers, other) || other == l.peer && event is Closed || (event
                matches LinkEvent::Dialed { remote } && other == remote)
            &&& l.phase == Phase::Dialing ==> (event matches LinkEvent::Dialed { remote }
                ==> t.peers.dom().contains(remote) && (!s.peers.dom().contains(remote)
                ==> t.peers[remote].since == now && t.peers[remote].path.len() == 0
                && t.peers[remote].addr is None && t.peers[remote].rtt_ms is None))
            &&& l.phase == Phase::Carrying || l.phase == Phase::Draining ==> (event is Closed
                ==> !t.peers.dom().contains(l.peer))
            &&& s.peers.dom().contains(other) && !(event is Closed) ==> t.peers.dom().contains(
                other,
            ) && t.peers[other] == s.peers[other]
        }),
{
}

/// A link follows a published configuration while it holds a connection, and no less
/// while it waits for the next dial; nothing else makes it do so.
pub proof fn a_waiting_link_still_follows(phase: Phase, event: LinkEvent)
    ensures
        event is ConfigChanged ==> (follows(phase, event) <==> phase == Phase::Carrying || phase
            == Phase::Waiting),
        !(event is ConfigChanged) ==> !follows(phase, event),
{
}

/// The next delay is twice the one before, but no more than half a minute.
pub proof fn a_delay_doubles_up_to_half_a_minute(delay: u64)
    ensures
        delay <= 15 ==> longer(delay) == delay + delay,
        delay > 15 ==> longer(delay) == 30,
{
}

/// Every binding that was asked for is bound exactly when each enabled one is; a binding
/// that is named as missing is the first enabled one that is not bound.
pub proof fn what_was_asked_for_is_what_is_enabled<T, U>(
    s: Seq<BindingSpec>,
    bound: Map<LocalPort, Listener<T, U>>,
    i: int,
)
    ensures
        all_bound(enabled_bindings(s), bound) <==> forall|j: int|
            0 <= j < s.len() && (#[trigger] s[j]).enabled ==> bound.dom().contains(
                LocalPort { proto: s[j].proto, port: s[j].local },
            ),
        first_unbound(enabled_bindings(s), bound, i) ==> {
            let b = enabled_bindings(s)[i];
            &&& s.contains(b) && b.enabled
            &&& !bound.dom().contains(LocalPort { proto: b.proto, port: b.local })
            &&& forall|j: int|
                0 <= j < i ==> {
                    let x = #[trigger] enabled_bindings(s)[j];
                    bound.dom().contains(LocalPort { proto: x.proto, port: x.local })
                }
        },
        nothing_bound(bound) <==> forall|k: LocalPort| !(#[trigger] bound.dom().contains(k)),
{
    let w = enabled_bindings(s);
    if all_bound(w, bound) {
        assert forall|j: int|
            0 <= j < s.len() && (#[trigger] s[j]).enabled implies bound.dom().contains(
            LocalPort { proto: s[j].proto, port: s[j].local },
        ) by {
            a_binding_is_active_exactly_when_enabled(s, s[j], s[j]);
            assert(s.contains(s[j]));
            let k = w.index_of(s[j]);
            assert(bound.dom().contains(claim(w[k])));
        }
    }
    if forall|j: int|
        0 <= j < s.len() && (#[trigger] s[j]).enabled ==> bound.dom().contains(
            LocalPort { proto: s[j].proto, port: s[j].local },
        ) {
        assert forall|k: int| 0 <= k < w.len() implies bound.dom().contains(
            claim(#[trigger] w[k]),
        ) by {
            a_binding_is_active_exactly_when_enabled(s, w[k], w[k]);
            assert(w.contains(w[k]));
            let j = s.index_of(w[k]);
            assert(s[j].enabled);
        }
    }
    if first_unbound(w, bound, i) {
        a_binding_is_active_exactly_when_enabled(s, w[i], w[i]);
        assert(w.contains(w[i]));
        assert forall|j: int| 0 <= j < i implies ({
            let x = #[trigger] enabled_bindings(s)[j];
            bound.dom().contains(LocalPort { proto: x.proto, port: x.local })
        }) by {
            assert(bound.dom().contains(claim(w[j])));
        }
    }
}

/// What is read of a link is what the link holds.
pub proof fn links_are_read_as_they_are(l: Link)
    ensures
        l@.peer == l.peer && l@.phase == l.phase && l@.delay == l.delay && l@.seen == l.watch.seen,
{
}

} // verus!
