//! The local listeners of the connecting side, held to the configuration: adding a
//! binding binds a socket, removing one drops it, and neither disturbs the others.
use crate::config::{
    binding_keys, bindings_view, config_valid, Binding, BindingSpec, ConfigSpec,
};
use crate::grants::enabled_bindings;
use crate::lists::filter_keeps_order;
use crate::portmap::PortMap;
use crate::share::share;
use crate::state::{BindSpec, BindState, LocalPort, Shared, SharedSpec};
use crate::table::Table;
use std::sync::Arc;
use vstd::prelude::*;

verus! {

/// A bound local socket, kept across reconnects so that a client reaching it during
/// an outage queues rather than finding nothing listening.
pub enum Sock<T, U> {
    Tcp(Arc<T>),
    Udp(Arc<U>),
}

/// A bound socket and the port it stands for on the far side.
pub struct Listener<T, U> {
    pub sock: Sock<T, U>,
    pub remote: u16,
}

/// The listeners that are bound.
pub struct Listeners<T, U> {
    bound: Table<LocalPort, Listener<T, U>>,
}

/// The local port that a binding claims.
pub open spec fn claim(b: BindingSpec) -> LocalPort {
    LocalPort { proto: b.proto, port: b.local }
}

/// Whether any of the wanted bindings claims a local port.
pub open spec fn wanted(want: Seq<BindingSpec>, k: LocalPort) -> bool {
    exists|i: int| 0 <= i < want.len() && claim(#[trigger] want[i]) == k
}

/// Whether a binding is one to be bound: it is wanted, and its local port is not held.
pub open spec fn to_be_bound<T, U>(
    want: Seq<BindingSpec>,
    bound: Map<LocalPort, Listener<T, U>>,
    b: BindingSpec,
) -> bool {
    want.contains(b) && !bound.dom().contains(claim(b))
}

/// What is bound, what is reported of each local port, and whether the set of
/// listeners changed.
#[verifier::ext_equal]
pub struct Round<T, U> {
    pub bound: Map<LocalPort, Listener<T, U>>,
    pub binds: Map<LocalPort, BindSpec>,
    pub changed: bool,
}

/// First, what is no longer wanted is dropped, and its report with it.
pub open spec fn dropped<T, U>(
    bound: Map<LocalPort, Listener<T, U>>,
    binds: Map<LocalPort, BindSpec>,
    want: Seq<BindingSpec>,
) -> Round<T, U> {
    Round {
        bound: bound.restrict(Set::new(|k: LocalPort| wanted(want, k))),
        binds: binds.remove_keys(
            Set::new(|k: LocalPort| bound.dom().contains(k) && !wanted(want, k)),
        ),
        changed: exists|k: LocalPort| #[trigger] bound.dom().contains(k) && !wanted(want, k),
    }
}

/// Then each wanted binding in turn: one that is bound is pointed at its remote port;
/// one that is not is bound, and `outcome` is what binding it came to. A failure is
/// reported and leaves the others alone.
pub open spec fn placed<T, U>(
    r: Round<T, U>,
    b: BindingSpec,
    outcome: Result<Sock<T, U>, String>,
) -> Round<T, U> {
    let k = claim(b);
    if r.bound.dom().contains(k) {
        if r.bound[k].remote == b.remote {
            r
        } else {
            Round {
                bound: r.bound.insert(k, Listener { sock: r.bound[k].sock, remote: b.remote }),
                changed: true,
                ..r
            }
        }
    } else {
        match outcome {
            Ok(sock) => Round {
                bound: r.bound.insert(k, Listener { sock, remote: b.remote }),
                binds: r.binds.insert(k, BindSpec::Listening),
                changed: true,
            },
            Err(e) => Round { binds: r.binds.insert(k, BindSpec::Failed(e@)), ..r },
        }
    }
}

/// The round after the first `n` wanted bindings.
pub open spec fn round_after<T, U>(
    start: Round<T, U>,
    want: Seq<BindingSpec>,
    outcomes: Seq<Result<Sock<T, U>, String>>,
    n: nat,
) -> Round<T, U>
    decreases n,
{
    if n == 0 {
        start
    } else {
        placed(
            round_after(start, want, outcomes, (n - 1) as nat),
            want[n - 1],
            outcomes[n - 1],
        )
    }
}

/// Whether what binding came to is what `bind` said, for each wanted binding that was
/// not bound when its turn came. What is noted for one that was is of no account.
pub open spec fn told_by<T, U, B>(
    start: Round<T, U>,
    want: Seq<Binding>,
    bind: B,
    outcomes: Seq<Result<Sock<T, U>, String>>,
) -> bool where B: Fn(&Binding) -> Result<Sock<T, U>, String> {
    outcomes.len() == want.len() && forall|i: int|
        0 <= i < want.len() && !round_after(
            start,
            bindings_view(want),
            outcomes,
            i as nat,
        ).bound.dom().contains(claim(want[i]@)) ==> #[trigger] call_ensures(
            bind,
            (&want[i],),
            outcomes[i],
        )
}

/// What holding the listeners to a list of bindings comes to: what is bound and what
/// is reported of each local port. Nothing else that is shared changes.
pub open spec fn reconciled<T, U, B>(
    before: Map<LocalPort, Listener<T, U>>,
    after: Map<LocalPort, Listener<T, U>>,
    shared: SharedSpec,
    shared_after: SharedSpec,
    want: Seq<Binding>,
    bind: B,
    changed: bool,
) -> bool where B: Fn(&Binding) -> Result<Sock<T, U>, String> {
    exists|outcomes: Seq<Result<Sock<T, U>, String>>| #[trigger]
        told_by(dropped(before, shared.binds, bindings_view(want)), want, bind, outcomes) && ({
            let end = round_after(
                dropped(before, shared.binds, bindings_view(want)),
                bindings_view(want),
                outcomes,
                want.len(),
            );
            after == end.bound && shared_after == (SharedSpec { binds: end.binds, ..shared })
                && changed == end.changed
        })
}

proof fn lemma_round_is_local<T, U>(
    start: Round<T, U>,
    want: Seq<BindingSpec>,
    a: Seq<Result<Sock<T, U>, String>>,
    b: Seq<Result<Sock<T, U>, String>>,
    n: nat,
)
    requires
        n <= a.len(),
        n <= b.len(),
        forall|i: int| 0 <= i < n ==> a[i] == b[i],
    ensures
        round_after(start, want, a, n) == round_after(start, want, b, n),
    decreases n,
{
    if n > 0 {
        lemma_round_is_local(start, want, a, b, (n - 1) as nat);
    }
}

fn is_wanted(want: &Vec<Binding>, k: &LocalPort) -> (r: bool)
    ensures
        r == wanted(bindings_view(want@), *k),
{
    let ghost w = bindings_view(want@);
    let mut i: usize = 0;
    while i < want.len()
        invariant
            i <= want@.len(),
            w == bindings_view(want@),
            forall|j: int| 0 <= j < i ==> claim(#[trigger] w[j]) != *k,
        decreases want@.len() - i,
    {
        assert(w[i as int] == want@[i as int]@);
        if want[i].proto == k.proto && want[i].local == k.port {
            assert(claim(w[i as int]) == *k);
            return true;
        }
        i += 1;
    }
    false
}

impl<T, U> View for Listeners<T, U> {
    type V = Map<LocalPort, Listener<T, U>>;

    closed spec fn view(&self) -> Map<LocalPort, Listener<T, U>> {
        self.bound@
    }
}

impl<T, U> Listeners<T, U> {
    /// The bound local ports, each once: in the order in which they were bound or last
    /// pointed at another port.
    pub closed spec fn order(&self) -> Seq<LocalPort> {
        self.bound.order()
    }

    pub fn new() -> (l: Self)
        ensures
            l@ == Map::<LocalPort, Listener<T, U>>::empty(),
    {
        Listeners { bound: Table::new() }
    }

    pub fn is_empty(&self) -> (r: bool)
        ensures
            r == (self@.dom() =~= Set::<LocalPort>::empty()),
    {
        self.bound.is_empty()
    }

    pub fn is_bound(&self, k: &LocalPort) -> (r: bool)
        ensures
            r == self@.dom().contains(*k),
    {
        self.bound.contains(k)
    }

    fn drop_unwanted(&mut self, want: &Vec<Binding>, shared: &mut Shared) -> (changed: bool)
        ensures
            ({
                let r = dropped(old(self)@, old(shared)@.binds, bindings_view(want@));
                final(self)@ == r.bound && final(shared)@ == (SharedSpec {
                    binds: r.binds,
                    ..old(shared)@
                }) && changed == r.changed
            }),
    {
        let ghost w = bindings_view(want@);
        let ghost was = self@;
        let keys: Vec<LocalPort> = self.bound.keys();
        let mut changed: bool = false;
        let mut i: usize = 0;
        while i < keys.len()
            invariant
                i <= keys@.len(),
                keys@.no_duplicates(),
                w == bindings_view(want@),
                was == old(self)@,
                forall|k: LocalPort| #[trigger] keys@.contains(k) <==> was.dom().contains(k),
                self@ == was.remove_keys(
                    Set::new(
                        |k: LocalPort| keys@.take(i as int).contains(k) && !wanted(w, k),
                    ),
                ),
                shared@ == (SharedSpec { binds: shared@.binds, ..old(shared)@ }),
                shared@.binds == old(shared)@.binds.remove_keys(
                    Set::new(
                        |k: LocalPort| keys@.take(i as int).contains(k) && !wanted(w, k),
                    ),
                ),
                changed == exists|k: LocalPort| #[trigger]
                    keys@.take(i as int).contains(k) && !wanted(w, k),
            decreases keys@.len() - i,
        {
            let k: LocalPort = keys[i];
            let ghost a = keys@.take(i as int);
            let ghost b = keys@.take(i + 1);
            proof {
                if changed {
                    let x = choose|x: LocalPort| #[trigger] a.contains(x) && !wanted(w, x);
                    assert(b =~= a.push(k));
                    let j = choose|j: int| 0 <= j < a.len() && a[j] == x;
                    assert(b[j] == x);
                    assert(b.contains(x));
                }
                assert(keys@.contains(k));
                assert(b =~= a.push(k));
                assert forall|x: LocalPort| #[trigger] b.contains(x) <==> a.contains(x) || x
                    == k by {
                    assert(b[i as int] == k);
                    if a.contains(x) {
                        let j = choose|j: int| 0 <= j < a.len() && a[j] == x;
                        assert(b[j] == x);
                    }
                }
                assert(!a.contains(k));
            }
            if !is_wanted(want, &k) {
                self.bound.remove(&k);
                shared.clear_bind(k.proto, k.port);
                assert(LocalPort { proto: k.proto, port: k.port } == k);
                assert(b.contains(k));
                changed = true;
            }
            proof {
                let gone = Set::new(|x: LocalPort| b.contains(x) && !wanted(w, x));
                assert(self@ =~= was.remove_keys(gone));
                assert(shared@.binds =~= old(shared)@.binds.remove_keys(gone));
                if exists|x: LocalPort| #[trigger] b.contains(x) && !wanted(w, x) {
                    let x = choose|x: LocalPort| #[trigger] b.contains(x) && !wanted(w, x);
                    assert(a.contains(x) || x == k);
                }
            }
            i += 1;
        }
        proof {
            assert(keys@.take(i as int) =~= keys@);
            let r = dropped(was, old(shared)@.binds, w);
            assert(self@ =~= r.bound);
            assert(shared@.binds =~= r.binds);
            if r.changed {
                let k = choose|k: LocalPort| #[trigger] was.dom().contains(k) && !wanted(w, k);
                assert(keys@.contains(k));
            }
        }
        changed
    }

    /// Binds what is newly configured, drops what is gone, and retargets a binding
    /// whose remote port changed. Says whether the set changed, so that only then the
    /// forwarders are restarted. A port in use must not take the other listeners
    /// down: it is reported, and tried again on the next change. `bind` is asked for
    /// nothing but what is wanted and not held.
    pub fn reconcile<B>(&mut self, want: &Vec<Binding>, shared: &mut Shared, bind: &B) -> (changed:
        bool) where B: Fn(&Binding) -> Result<Sock<T, U>, String>
        requires
            forall|b: &Binding|
                to_be_bound(bindings_view(want@), old(self)@, b@) ==> #[trigger] call_requires(
                    *bind,
                    (b,),
                ),
        ensures
            reconciled(
                old(self)@,
                final(self)@,
                old(shared)@,
                final(shared)@,
                want@,
                *bind,
                changed,
            ),
    {
        let ghost w = bindings_view(want@);
        let ghost start = dropped(self@, shared@.binds, w);
        let mut changed: bool = self.drop_unwanted(want, shared);
        let ghost mut outcomes: Seq<Result<Sock<T, U>, String>> = Seq::empty();
        let mut i: usize = 0;
        assert(round_after(start, w, outcomes, 0) == start);
        while i < want.len()
            invariant
                i <= want@.len(),
                w == bindings_view(want@),
                forall|b: &Binding|
                    to_be_bound(w, old(self)@, b@) ==> #[trigger] call_requires(*bind, (b,)),
                forall|k: LocalPort| #[trigger]
                    old(self)@.dom().contains(k) && wanted(w, k) ==> self@.dom().contains(k),
                outcomes.len() == i,
                forall|j: int|
                    0 <= j < i && !round_after(start, w, outcomes, j as nat).bound.dom().contains(
                        claim(want@[j]@),
                    ) ==> #[trigger] call_ensures(*bind, (&want@[j],), outcomes[j]),
                shared@ == (SharedSpec { binds: shared@.binds, ..old(shared)@ }),
                round_after(start, w, outcomes, i as nat) == (Round {
                    bound: self@,
                    binds: shared@.binds,
                    changed,
                }),
            decreases want@.len() - i,
        {
            let b: &Binding = &want[i];
            let ghost here = round_after(start, w, outcomes, i as nat);
            let ghost before = outcomes;
            let k: LocalPort = LocalPort { proto: b.proto, port: b.local };
            assert(w[i as int] == want@[i as int]@);
            let now: Option<u16> = match self.bound.get(&k) {
                Some(l) => Some(l.remote),
                None => None,
            };
            match now {
                Some(remote) => {
                    proof {
                        outcomes = before.push(arbitrary());
                    }
                    if remote != b.remote {
                        if let Some(l) = self.bound.remove(&k) {
                            self.bound.set(k, Listener { sock: l.sock, remote: b.remote });
                        }
                        changed = true;
                    }
                },
                None => {
                    proof {
                        assert(w.contains(w[i as int]));
                        assert(wanted(w, claim(w[i as int])));
                    }
                    let outcome: Result<Sock<T, U>, String> = bind(b);
                    proof {
                        outcomes = before.push(outcome);
                    }
                    match outcome {
                        Ok(sock) => {
                            self.bound.set(k, Listener { sock, remote: b.remote });
                            shared.set_bind(b.proto, b.local, BindState::Listening);
                            changed = true;
                        },
                        Err(error) => {
                            shared.set_bind(b.proto, b.local, BindState::Failed { error });
                        },
                    }
                },
            }
            proof {
                lemma_round_is_local(start, w, before, outcomes, i as nat);
                assert forall|j: int|
                    0 <= j < i + 1 && !round_after(
                        start,
                        w,
                        outcomes,
                        j as nat,
                    ).bound.dom().contains(claim(want@[j]@)) implies #[trigger] call_ensures(
                    *bind,
                    (&want@[j],),
                    outcomes[j],
                ) by {
                    lemma_round_is_local(start, w, before, outcomes, j as nat);
                    if j < i {
                        assert(before[j] == outcomes[j]);
                    }
                }
                assert(round_after(start, w, outcomes, (i + 1) as nat) == placed(
                    here,
                    w[i as int],
                    outcomes[i as int],
                ));
                assert(placed(here, w[i as int], outcomes[i as int]) =~= (Round {
                    bound: self@,
                    binds: shared@.binds,
                    changed,
                }));
            }
            i += 1;
        }
        assert(told_by(start, want@, *bind, outcomes));
        changed
    }

    /// The bound TCP listeners, each with its mapping.
    pub fn tcp(&self) -> (r: Vec<(Arc<T>, PortMap)>)
        ensures
            lists_bound(self.order(), self@),
            r@ == tcp_of(self.order(), self@),
    {
        let keys: Vec<LocalPort> = self.bound.keys();
        let mut r: Vec<(Arc<T>, PortMap)> = Vec::new();
        let mut i: usize = 0;
        assert(tcp_of(keys@.take(0), self@) =~= r@);
        while i < keys.len()
            invariant
                i <= keys@.len(),
                keys@ == self.order(),
                forall|k: LocalPort| #[trigger] keys@.contains(k) <==> self@.dom().contains(k),
                r@ == tcp_of(keys@.take(i as int), self@),
            decreases keys@.len() - i,
        {
            let k: LocalPort = keys[i];
            assert(keys@.contains(k));
            assert(keys@.take(i + 1).drop_last() =~= keys@.take(i as int));
            if let Some(l) = self.bound.get(&k) {
                match &l.sock {
                    Sock::Tcp(s) => {
                        r.push((share(s), PortMap { local: k.port, remote: l.remote }));
                    },
                    Sock::Udp(_) => {},
                }
            }
            i += 1;
        }
        assert(keys@.take(i as int) =~= keys@);
        r
    }

    /// The bound UDP sockets, each with its mapping.
    pub fn udp(&self) -> (r: Vec<(Arc<U>, PortMap)>)
        ensures
            lists_bound(self.order(), self@),
            r@ == udp_of(self.order(), self@),
    {
        let keys: Vec<LocalPort> = self.bound.keys();
        let mut r: Vec<(Arc<U>, PortMap)> = Vec::new();
        let mut i: usize = 0;
        assert(udp_of(keys@.take(0), self@) =~= r@);
        while i < keys.len()
            invariant
                i <= keys@.len(),
                keys@ == self.order(),
                forall|k: LocalPort| #[trigger] keys@.contains(k) <==> self@.dom().contains(k),
                r@ == udp_of(keys@.take(i as int), self@),
            decreases keys@.len() - i,
        {
            let k: LocalPort = keys[i];
            assert(keys@.contains(k));
            assert(keys@.take(i + 1).drop_last() =~= keys@.take(i as int));
            if let Some(l) = self.bound.get(&k) {
                match &l.sock {
                    Sock::Udp(s) => {
                        r.push((share(s), PortMap { local: k.port, remote: l.remote }));
                    },
                    Sock::Tcp(_) => {},
                }
            }
            i += 1;
        }
        assert(keys@.take(i as int) =~= keys@);
        r
    }

    /// Everything that carries bytes for one connection, so that losing it tears all
    /// of it down and the next one starts clean: in particular the UDP session table,
    /// whose ids the far side forgot when the link died.
    pub fn forwarders(&self) -> (r: Vec<Forwarder<T, U>>)
        ensures
            lists_bound(self.order(), self@),
            r@ == forwarders_of(tcp_of(self.order(), self@), udp_of(self.order(), self@)),
    {
        let tcp: Vec<(Arc<T>, PortMap)> = self.tcp();
        let udp: Vec<(Arc<U>, PortMap)> = self.udp();
        let mut r: Vec<Forwarder<T, U>> = Vec::new();
        let mut i: usize = 0;
        while i < tcp.len()
            invariant
                i <= tcp@.len(),
                r@ == tcp@.take(i as int).map_values(
                    |e: (Arc<T>, PortMap)| Forwarder::<T, U>::AcceptTcp { listener: e.0, map: e.1 },
                ),
            decreases tcp@.len() - i,
        {
            r.push(Forwarder::AcceptTcp { listener: share(&tcp[i].0), map: tcp[i].1 });
            i += 1;
            assert(r@ =~= tcp@.take(i as int).map_values(
                |e: (Arc<T>, PortMap)| Forwarder::<T, U>::AcceptTcp { listener: e.0, map: e.1 },
            ));
        }
        assert(tcp@.take(i as int) =~= tcp@);
        if udp.len() == 0 {
            assert(r@ =~= forwarders_of(tcp@, udp@));
            return r;
        }
        let ghost first = r@;
        let mut j: usize = 0;
        while j < udp.len()
            invariant
                j <= udp@.len(),
                r@ == first + udp@.take(j as int).map_values(
                    |e: (Arc<U>, PortMap)| Forwarder::<T, U>::PumpUdpOut { sock: e.0, map: e.1 },
                ),
            decreases udp@.len() - j,
        {
            r.push(Forwarder::PumpUdpOut { sock: share(&udp[j].0), map: udp[j].1 });
            j += 1;
            assert(r@ =~= first + udp@.take(j as int).map_values(
                |e: (Arc<U>, PortMap)| Forwarder::<T, U>::PumpUdpOut { sock: e.0, map: e.1 },
            ));
        }
        assert(udp@.take(j as int) =~= udp@);
        r.push(Forwarder::PumpUdpIn);
        r.push(Forwarder::ReapSessions);
        assert(r@ =~= forwarders_of(tcp@, udp@));
        r
    }
}

/// Whether a list names exactly the bound local ports, each once.
pub open spec fn lists_bound<T, U>(
    order: Seq<LocalPort>,
    bound: Map<LocalPort, Listener<T, U>>,
) -> bool {
    &&& order.no_duplicates()
    &&& forall|k: LocalPort| #[trigger] order.contains(k) <==> bound.dom().contains(k)
}

/// The TCP listeners among some bound local ports, in their order.
pub open spec fn tcp_of<T, U>(keys: Seq<LocalPort>, m: Map<LocalPort, Listener<T, U>>) -> Seq<
    (Arc<T>, PortMap),
>
    decreases keys.len(),
{
    if keys.len() == 0 {
        seq![]
    } else {
        let k = keys.last();
        match m[k].sock {
            Sock::Tcp(s) => tcp_of(keys.drop_last(), m).push(
                (s, PortMap { local: k.port, remote: m[k].remote }),
            ),
            Sock::Udp(_) => tcp_of(keys.drop_last(), m),
        }
    }
}

/// The UDP sockets among some bound local ports, in their order.
pub open spec fn udp_of<T, U>(keys: Seq<LocalPort>, m: Map<LocalPort, Listener<T, U>>) -> Seq<
    (Arc<U>, PortMap),
>
    decreases keys.len(),
{
    if keys.len() == 0 {
        seq![]
    } else {
        let k = keys.last();
        match m[k].sock {
            Sock::Udp(s) => udp_of(keys.drop_last(), m).push(
                (s, PortMap { local: k.port, remote: m[k].remote }),
            ),
            Sock::Tcp(_) => udp_of(keys.drop_last(), m),
        }
    }
}

/// Something that carries bytes for one connection.
pub enum Forwarder<T, U> {
    /// Accepts TCP connections, and opens one stream to the mapped port for each.
    AcceptTcp { listener: Arc<T>, map: PortMap },
    /// Sends what arrives at a UDP socket to the mapped port.
    PumpUdpOut { sock: Arc<U>, map: PortMap },
    /// Hands the datagrams of the far side back to the local sources.
    PumpUdpIn,
    /// Releases the UDP sessions that have gone quiet.
    ReapSessions,
}

/// The forwarders for some listeners: one for each, and, where there is any UDP
/// socket, the two that all of those share.
pub open spec fn forwarders_of<T, U>(
    tcp: Seq<(Arc<T>, PortMap)>,
    udp: Seq<(Arc<U>, PortMap)>,
) -> Seq<Forwarder<T, U>> {
    tcp.map_values(
        |e: (Arc<T>, PortMap)| Forwarder::<T, U>::AcceptTcp { listener: e.0, map: e.1 },
    ) + (if udp.len() == 0 {
        seq![]
    } else {
        udp.map_values(
            |e: (Arc<U>, PortMap)| Forwarder::<T, U>::PumpUdpOut { sock: e.0, map: e.1 },
        ).push(Forwarder::PumpUdpIn).push(Forwarder::ReapSessions)
    })
}

// ---------------------------------------------------------------- laws

/// Whether two maps say the same of a key.
pub open spec fn same_at<K, V>(a: Map<K, V>, b: Map<K, V>, k: K) -> bool {
    a.dom().contains(k) == b.dom().contains(k) && (a.dom().contains(k) ==> a[k] == b[k])
}

/// Whether no two bindings claim one local port.
pub open spec fn claims_differ(want: Seq<BindingSpec>) -> bool {
    forall|i: int, j: int|
        0 <= i < want.len() && 0 <= j < want.len() && claim(#[trigger] want[i]) == claim(
            #[trigger] want[j],
        ) ==> i == j
}

/// In a valid configuration no two active bindings claim one local port.
pub proof fn active_bindings_claim_different_ports(c: ConfigSpec)
    requires
        config_valid(c),
    ensures
        claims_differ(enabled_bindings(c.bindings)),
{
    let want = enabled_bindings(c.bindings);
    let p = |b: BindingSpec| b.enabled;
    assert forall|i: int, j: int| 0 <= i < j < want.len() implies claim(#[trigger] want[i])
        != claim(#[trigger] want[j]) by {
        filter_keeps_order(c.bindings, p, i, j);
        let (a, b) = choose|a: int, b: int|
            0 <= a < b < c.bindings.len() && #[trigger] c.bindings[a] == c.bindings.filter(p)[i]
                && #[trigger] c.bindings[b] == c.bindings.filter(p)[j];
        let keys = binding_keys(c.bindings);
        assert(keys[a] == (want[i].proto, want[i].local) && keys[b] == (
            want[j].proto,
            want[j].local,
        ));
    }
}

/// What became of one wanted binding: one that was bound keeps its socket and is
/// pointed at its remote port, and its report stays; one that was not is bound if
/// binding it succeeded, and reported either way.
pub open spec fn honoured<T, U>(
    start: Round<T, U>,
    end: Round<T, U>,
    b: BindingSpec,
    outcome: Result<Sock<T, U>, String>,
) -> bool {
    let k = claim(b);
    if start.bound.dom().contains(k) {
        end.bound.dom().contains(k) && end.bound[k] == (Listener {
            sock: start.bound[k].sock,
            remote: b.remote,
        }) && same_at(end.binds, start.binds, k)
    } else {
        end.binds.dom().contains(k) && match outcome {
            Ok(sock) => end.bound.dom().contains(k) && end.bound[k] == (Listener {
                sock,
                remote: b.remote,
            }) && end.binds[k] == BindSpec::Listening,
            Err(e) => !end.bound.dom().contains(k) && end.binds[k] == BindSpec::Failed(e@),
        }
    }
}

/// Whether one wanted binding makes the set of listeners another: it was pointed
/// elsewhere, or it was not bound and now is.
pub open spec fn moves<T, U>(
    start: Round<T, U>,
    b: BindingSpec,
    outcome: Result<Sock<T, U>, String>,
) -> bool {
    if start.bound.dom().contains(claim(b)) {
        start.bound[claim(b)].remote != b.remote
    } else {
        outcome is Ok
    }
}

proof fn lemma_round<T, U>(
    start: Round<T, U>,
    want: Seq<BindingSpec>,
    outcomes: Seq<Result<Sock<T, U>, String>>,
    n: nat,
)
    requires
        n <= want.len(),
        claims_differ(want),
    ensures
        ({
            let end = round_after(start, want, outcomes, n);
            &&& forall|i: int|
                0 <= i < n ==> honoured(start, end, #[trigger] want[i], outcomes[i])
            &&& forall|k: LocalPort|
                !wanted(want.take(n as int), k) ==> #[trigger] same_at(end.bound, start.bound, k)
                    && same_at(end.binds, start.binds, k)
            &&& end.changed <==> start.changed || exists|i: int|
                0 <= i < n && moves(start, #[trigger] want[i], outcomes[i])
        }),
    decreases n,
{
    if n > 0 {
        let m = (n - 1) as nat;
        lemma_round(start, want, outcomes, m);
        let mid = round_after(start, want, outcomes, m);
        let end = round_after(start, want, outcomes, n);
        let b = want[n - 1];
        let k = claim(b);
        assert(!wanted(want.take(m as int), k)) by {
            if wanted(want.take(m as int), k) {
                let i = choose|i: int|
                    0 <= i < m && claim(#[trigger] want.take(m as int)[i]) == k;
                assert(want[i] == want.take(m as int)[i]);
            }
        }
        assert(same_at(mid.bound, start.bound, k));
        assert(end == placed(mid, b, outcomes[n - 1]));
        assert forall|i: int| 0 <= i < n implies honoured(
            start,
            end,
            #[trigger] want[i],
            outcomes[i],
        ) by {
            if i < m {
                assert(honoured(start, mid, want[i], outcomes[i]));
                assert(claim(want[i]) != k);
            }
        }
        assert forall|x: LocalPort| !wanted(want.take(n as int), x) implies #[trigger] same_at(
            end.bound,
            start.bound,
            x,
        ) && same_at(end.binds, start.binds, x) by {
            assert(want.take(n as int)[n - 1] == b);
            assert(x != k);
            assert(!wanted(want.take(m as int), x)) by {
                if wanted(want.take(m as int), x) {
                    let i = choose|i: int|
                        0 <= i < m && claim(#[trigger] want.take(m as int)[i]) == x;
                    assert(want.take(n as int)[i] == want.take(m as int)[i]);
                }
            }
            assert(same_at(mid.bound, start.bound, x));
        }
        assert(end.changed <==> mid.changed || moves(start, b, outcomes[n - 1]));
        if start.changed || exists|i: int|
            0 <= i < n && moves(start, #[trigger] want[i], outcomes[i]) {
            if !start.changed {
                let i = choose|i: int|
                    0 <= i < n && moves(start, #[trigger] want[i], outcomes[i]);
                if i < m {
                    assert(mid.changed);
                }
            }
        }
        if end.changed && !mid.changed {
            assert(moves(start, want[n - 1], outcomes[n - 1]));
        }
    }
}

/// Holding the listeners to a list of bindings, no two of which claim one local port,
/// honours each of them, and drops every listener that none of them claims together
/// with its report.
pub proof fn reconciling_honours_each_binding<T, U>(
    before: Map<LocalPort, Listener<T, U>>,
    binds: Map<LocalPort, BindSpec>,
    want: Seq<BindingSpec>,
    outcomes: Seq<Result<Sock<T, U>, String>>,
    i: int,
    k: LocalPort,
)
    requires
        claims_differ(want),
        0 <= i < want.len(),
    ensures
        ({
            let start = Round { bound: before, binds, changed: false };
            let end = round_after(dropped(before, binds, want), want, outcomes, want.len());
            &&& honoured(start, end, want[i], outcomes[i])
            &&& !wanted(want, k) ==> !end.bound.dom().contains(k)
            &&& !wanted(want, k) && before.dom().contains(k) ==> !end.binds.dom().contains(k)
            &&& !wanted(want, k) && !before.dom().contains(k) ==> same_at(end.binds, binds, k)
        }),
{
    let start = dropped(before, binds, want);
    lemma_round(start, want, outcomes, want.len());
    assert(want.take(want.len() as int) =~= want);
    let end = round_after(start, want, outcomes, want.len());
    assert(wanted(want, claim(want[i])));
    assert(honoured(start, end, want[i], outcomes[i]));
    if !wanted(want, k) {
        assert(same_at(end.bound, start.bound, k));
    }
}

/// A listener that is still wanted as it is keeps its socket and its mapping: what
/// else is added or removed does not disturb it.
pub proof fn reconciling_does_not_disturb_the_others<T, U>(
    before: Map<LocalPort, Listener<T, U>>,
    binds: Map<LocalPort, BindSpec>,
    want: Seq<BindingSpec>,
    outcomes: Seq<Result<Sock<T, U>, String>>,
    i: int,
)
    requires
        claims_differ(want),
        0 <= i < want.len(),
        before.dom().contains(claim(want[i])),
        before[claim(want[i])].remote == want[i].remote,
    ensures
        ({
            let end = round_after(dropped(before, binds, want), want, outcomes, want.len());
            end.bound.dom().contains(claim(want[i])) && end.bound[claim(want[i])] == before[claim(
                want[i],
            )]
        }),
{
    reconciling_honours_each_binding(before, binds, want, outcomes, i, claim(want[i]));
}

/// The forwarders are restarted exactly when the set of listeners is another one.
pub proof fn a_change_is_reported_when_there_is_one<T, U>(
    before: Map<LocalPort, Listener<T, U>>,
    binds: Map<LocalPort, BindSpec>,
    want: Seq<BindingSpec>,
    outcomes: Seq<Result<Sock<T, U>, String>>,
)
    requires
        claims_differ(want),
    ensures
        ({
            let end = round_after(dropped(before, binds, want), want, outcomes, want.len());
            end.changed <==> end.bound != before
        }),
{
    let start = dropped(before, binds, want);
    let end = round_after(start, want, outcomes, want.len());
    lemma_round(start, want, outcomes, want.len());
    assert(want.take(want.len() as int) =~= want);
    if end.changed {
        if start.changed {
            let k = choose|k: LocalPort| #[trigger]
                before.dom().contains(k) && !wanted(want, k);
            assert(same_at(end.bound, start.bound, k));
        } else {
            let i = choose|i: int|
                0 <= i < want.len() && moves(start, #[trigger] want[i], outcomes[i]);
            assert(honoured(start, end, want[i], outcomes[i]));
            assert(wanted(want, claim(want[i])));
        }
    } else {
        assert forall|k: LocalPort| #[trigger] end.bound.dom().contains(k)
            == before.dom().contains(k) && (before.dom().contains(k) ==> end.bound[k]
            == before[k]) by {
            if wanted(want, k) {
                let i = choose|i: int| 0 <= i < want.len() && claim(#[trigger] want[i]) == k;
                assert(honoured(start, end, want[i], outcomes[i]));
                assert(!moves(start, want[i], outcomes[i]));
            } else {
                assert(same_at(end.bound, start.bound, k));
            }
        }
        assert(end.bound =~= before);
    }
}

/// Once everything that is wanted is bound, and nothing else is, holding the
/// listeners to the same list again changes nothing.
pub proof fn a_settled_set_stays_settled<T, U>(
    before: Map<LocalPort, Listener<T, U>>,
    binds: Map<LocalPort, BindSpec>,
    want: Seq<BindingSpec>,
    outcomes: Seq<Result<Sock<T, U>, String>>,
)
    requires
        claims_differ(want),
        forall|k: LocalPort| #[trigger] before.dom().contains(k) ==> wanted(want, k),
        forall|i: int|
            0 <= i < want.len() ==> before.dom().contains(claim(#[trigger] want[i])) && before[claim(
                want[i],
            )].remote == want[i].remote,
    ensures
        round_after(dropped(before, binds, want), want, outcomes, want.len()) == (Round {
            bound: before,
            binds,
            changed: false,
        }),
{
    let start = dropped(before, binds, want);
    let end = round_after(start, want, outcomes, want.len());
    lemma_round(start, want, outcomes, want.len());
    assert(want.take(want.len() as int) =~= want);
    assert(start.bound =~= before);
    assert(start.binds =~= binds);
    assert(!end.changed);
    a_change_is_reported_when_there_is_one(before, binds, want, outcomes);
    assert forall|k: LocalPort| #[trigger] end.binds.dom().contains(k) == binds.dom().contains(k)
        && (binds.dom().contains(k) ==> end.binds[k] == binds[k]) by {
        if wanted(want, k) {
            let i = choose|i: int| 0 <= i < want.len() && claim(#[trigger] want[i]) == k;
            assert(honoured(start, end, want[i], outcomes[i]));
        } else {
            assert(same_at(end.bound, start.bound, k));
        }
    }
    assert(end.binds =~= binds);
}

proof fn lemma_tcp_of<T, U>(order: Seq<LocalPort>, m: Map<LocalPort, Listener<T, U>>)
    ensures
        forall|e: (Arc<T>, PortMap)| #[trigger]
            tcp_of(order, m).contains(e) <==> exists|k: LocalPort| #[trigger]
                order.contains(k) && m[k].sock == Sock::<T, U>::Tcp(e.0) && e.1 == (PortMap {
                    local: k.port,
                    remote: m[k].remote,
                }),
    decreases order.len(),
{
    if order.len() > 0 {
        let t = order.drop_last();
        let x = order.last();
        lemma_tcp_of(t, m);
        assert forall|k: LocalPort| #[trigger] order.contains(k) <==> t.contains(k) || k == x by {
            lemma_contains_last(order, k);
        }
        assert forall|e: (Arc<T>, PortMap)| #[trigger] tcp_of(order, m).contains(e)
            <==> exists|k: LocalPort| #[trigger]
            order.contains(k) && m[k].sock == Sock::<T, U>::Tcp(e.0) && e.1 == (PortMap {
                local: k.port,
                remote: m[k].remote,
            }) by {
            if tcp_of(order, m) != tcp_of(t, m) {
                assert(tcp_of(order, m).drop_last() =~= tcp_of(t, m));
                lemma_contains_last(tcp_of(order, m), e);
            }
            if tcp_of(order, m).contains(e) && !tcp_of(t, m).contains(e) {
                assert(order.contains(x));
            }
            if tcp_of(t, m).contains(e) {
                let k = choose|k: LocalPort| #[trigger]
                    t.contains(k) && m[k].sock == Sock::<T, U>::Tcp(e.0) && e.1 == (PortMap {
                        local: k.port,
                        remote: m[k].remote,
                    });
                assert(order.contains(k));
            }
        }
    }
}

proof fn lemma_udp_of<T, U>(order: Seq<LocalPort>, m: Map<LocalPort, Listener<T, U>>)
    ensures
        forall|e: (Arc<U>, PortMap)| #[trigger]
            udp_of(order, m).contains(e) <==> exists|k: LocalPort| #[trigger]
                order.contains(k) && m[k].sock == Sock::<T, U>::Udp(e.0) && e.1 == (PortMap {
                    local: k.port,
                    remote: m[k].remote,
                }),
    decreases order.len(),
{
    if order.len() > 0 {
        let t = order.drop_last();
        let x = order.last();
        lemma_udp_of(t, m);
        assert forall|k: LocalPort| #[trigger] order.contains(k) <==> t.contains(k) || k == x by {
            lemma_contains_last(order, k);
        }
        assert forall|e: (Arc<U>, PortMap)| #[trigger] udp_of(order, m).contains(e)
            <==> exists|k: LocalPort| #[trigger]
            order.contains(k) && m[k].sock == Sock::<T, U>::Udp(e.0) && e.1 == (PortMap {
                local: k.port,
                remote: m[k].remote,
            }) by {
            if udp_of(order, m) != udp_of(t, m) {
                assert(udp_of(order, m).drop_last() =~= udp_of(t, m));
                lemma_contains_last(udp_of(order, m), e);
            }
            if udp_of(order, m).contains(e) && !udp_of(t, m).contains(e) {
                assert(order.contains(x));
            }
            if udp_of(t, m).contains(e) {
                let k = choose|k: LocalPort| #[trigger]
                    t.contains(k) && m[k].sock == Sock::<T, U>::Udp(e.0) && e.1 == (PortMap {
                        local: k.port,
                        remote: m[k].remote,
                    });
                assert(order.contains(k));
            }
        }
    }
}

proof fn lemma_contains_last<A>(s: Seq<A>, x: A)
    requires
        s.len() > 0,
    ensures
        s.contains(x) <==> s.drop_last().contains(x) || x == s.last(),
{
    let t = s.drop_last();
    if s.contains(x) {
        let i = choose|i: int| 0 <= i < s.len() && s[i] == x;
        if i < t.len() {
            assert(t[i] == x);
        }
    }
    if t.contains(x) {
        let i = choose|i: int| 0 <= i < t.len() && t[i] == x;
        assert(s[i] == x);
    }
    assert(s[s.len() - 1] == s.last());
}

/// The forwarder that carries a bound local port.
pub open spec fn forwarder_for<T, U>(k: LocalPort, l: Listener<T, U>) -> Forwarder<T, U> {
    let map = PortMap { local: k.port, remote: l.remote };
    match l.sock {
        Sock::Tcp(listener) => Forwarder::AcceptTcp { listener, map },
        Sock::Udp(sock) => Forwarder::PumpUdpOut { sock, map },
    }
}

/// Every bound local port is forwarded to its remote port, and, where it is a UDP port,
/// the replies are handed back and quiet sessions released.
pub proof fn every_bound_port_is_forwarded<T, U>(
    order: Seq<LocalPort>,
    bound: Map<LocalPort, Listener<T, U>>,
    k: LocalPort,
)
    requires
        lists_bound(order, bound),
        bound.dom().contains(k),
    ensures
        ({
            let f = forwarders_of(tcp_of(order, bound), udp_of(order, bound));
            &&& f.contains(forwarder_for(k, bound[k]))
            &&& bound[k].sock is Udp ==> f.contains(Forwarder::PumpUdpIn) && f.contains(
                Forwarder::ReapSessions,
            )
        }),
{
    let tcp = tcp_of(order, bound);
    let udp = udp_of(order, bound);
    let f = forwarders_of(tcp, udp);
    let map = PortMap { local: k.port, remote: bound[k].remote };
    lemma_tcp_of(order, bound);
    lemma_udp_of(order, bound);
    assert(order.contains(k));
    match bound[k].sock {
        Sock::Tcp(s) => {
            assert(tcp.contains((s, map)));
            let i = choose|i: int| 0 <= i < tcp.len() && tcp[i] == (s, map);
            assert(f[i] == forwarder_for(k, bound[k]));
        },
        Sock::Udp(s) => {
            assert(udp.contains((s, map)));
            let i = choose|i: int| 0 <= i < udp.len() && udp[i] == (s, map);
            assert(f[tcp.len() + i] == forwarder_for(k, bound[k]));
            assert(f[(tcp.len() + udp.len()) as int] == Forwarder::<T, U>::PumpUdpIn);
            assert(f[(tcp.len() + udp.len() + 1) as int] == Forwarder::<T, U>::ReapSessions);
        },
    }
}

/// Nothing but a bound local port is forwarded.
pub proof fn only_bound_ports_are_forwarded<T, U>(
    order: Seq<LocalPort>,
    bound: Map<LocalPort, Listener<T, U>>,
    i: int,
)
    requires
        lists_bound(order, bound),
        0 <= i < forwarders_of(tcp_of(order, bound), udp_of(order, bound)).len(),
    ensures
        ({
            let f = forwarders_of(tcp_of(order, bound), udp_of(order, bound))[i];
            f is AcceptTcp || f is PumpUdpOut ==> exists|k: LocalPort| #[trigger]
                bound.dom().contains(k) && f == forwarder_for(k, bound[k])
        }),
{
    let tcp = tcp_of(order, bound);
    let udp = udp_of(order, bound);
    let f = forwarders_of(tcp, udp)[i];
    lemma_tcp_of(order, bound);
    lemma_udp_of(order, bound);
    if f is AcceptTcp {
        assert(tcp.contains(tcp[i]));
        let k = choose|k: LocalPort| #[trigger]
            order.contains(k) && bound[k].sock == Sock::<T, U>::Tcp(tcp[i].0) && tcp[i].1 == (
            PortMap { local: k.port, remote: bound[k].remote });
        assert(bound.dom().contains(k) && f == forwarder_for(k, bound[k]));
    } else if f is PumpUdpOut {
        let j = i - tcp.len();
        assert(udp.contains(udp[j]));
        let k = choose|k: LocalPort| #[trigger]
            order.contains(k) && bound[k].sock == Sock::<T, U>::Udp(udp[j].0) && udp[j].1 == (
            PortMap { local: k.port, remote: bound[k].remote });
        assert(bound.dom().contains(k) && f == forwarder_for(k, bound[k]));
    }
}

/// A binding that is added binds its local port and is forwarded, if binding it
/// succeeds; one that was bound is forwarded to where it points now.
pub proof fn a_wanted_binding_is_forwarded<T, U>(
    before: Map<LocalPort, Listener<T, U>>,
    binds: Map<LocalPort, BindSpec>,
    want: Seq<BindingSpec>,
    outcomes: Seq<Result<Sock<T, U>, String>>,
    i: int,
    order: Seq<LocalPort>,
)
    requires
        claims_differ(want),
        0 <= i < want.len(),
        lists_bound(
            order,
            round_after(dropped(before, binds, want), want, outcomes, want.len()).bound,
        ),
        before.dom().contains(claim(want[i])) || outcomes[i] is Ok,
    ensures
        ({
            let end = round_after(dropped(before, binds, want), want, outcomes, want.len()).bound;
            let k = claim(want[i]);
            &&& end.dom().contains(k)
            &&& end[k].remote == want[i].remote
            &&& forwarders_of(tcp_of(order, end), udp_of(order, end)).contains(
                forwarder_for(k, end[k]),
            )
        }),
{
    let end = round_after(dropped(before, binds, want), want, outcomes, want.len()).bound;
    reconciling_honours_each_binding(before, binds, want, outcomes, i, claim(want[i]));
    every_bound_port_is_forwarded(order, end, claim(want[i]));
}

/// Whether a binding that is wanted is served: a socket that was held for its local port
/// is held still; otherwise `bind` was asked, its socket is held if it gave one, and
/// what it said is reported. Whatever is held leads to the remote port of the binding.
pub open spec fn served<T, U, B>(
    before: Map<LocalPort, Listener<T, U>>,
    after: Map<LocalPort, Listener<T, U>>,
    reports_before: Map<LocalPort, BindSpec>,
    reports: Map<LocalPort, BindSpec>,
    b: Binding,
    bind: B,
) -> bool where B: Fn(&Binding) -> Result<Sock<T, U>, String> {
    let k = LocalPort { proto: b.proto, port: b.local };
    &&& after.dom().contains(k) ==> after[k].remote == b.remote
    &&& before.dom().contains(k) ==> after.dom().contains(k) && after[k].sock == before[k].sock
        && same_at(reports_before, reports, k)
    &&& !before.dom().contains(k) ==> exists|outcome: Result<Sock<T, U>, String>| #[trigger]
        call_ensures(bind, (&b,), outcome) && reports.dom().contains(k) && match outcome {
            Ok(sock) => after.dom().contains(k) && after[k].sock == sock && reports[k]
                == BindSpec::Listening,
            Err(e) => !after.dom().contains(k) && reports[k] == BindSpec::Failed(e@),
        }
}

/// Holding the listeners to some bindings, no two of which share a protocol and a local
/// port, serves each of them, holds no other local port, and touches nothing that is
/// shared but the reports on local ports. It says that something changed exactly when
/// something did.
pub proof fn reconciling_serves_what_is_wanted<T, U, B>(
    before: Map<LocalPort, Listener<T, U>>,
    after: Map<LocalPort, Listener<T, U>>,
    s: SharedSpec,
    t: SharedSpec,
    want: Seq<Binding>,
    bind: B,
    changed: bool,
    k: LocalPort,
) where B: Fn(&Binding) -> Result<Sock<T, U>, String>
    requires
        reconciled(before, after, s, t, want, bind, changed),
        forall|i: int, j: int|
            0 <= i < j < want.len() ==> (#[trigger] want[i]).proto != (#[trigger] want[j]).proto
                || want[i].local != want[j].local,
    ensures
        forall|j: int|
            0 <= j < want.len() ==> served(
                before,
                after,
                s.binds,
                t.binds,
                #[trigger] want[j],
                bind,
            ),
        (forall|j: int|
            0 <= j < want.len() ==> (#[trigger] want[j]).proto != k.proto || want[j].local
                != k.port) ==> !after.dom().contains(k) && (if before.dom().contains(k) {
            !t.binds.dom().contains(k)
        } else {
            same_at(s.binds, t.binds, k)
        }),
        changed <==> after != before,
        t.config == s.config && t.version == s.version && t.peers == s.peers && t.role == s.role
            && t.path == s.path && t.started == s.started,
{
    let w = bindings_view(want);
    assert forall|i: int, j: int|
        0 <= i < w.len() && 0 <= j < w.len() && claim(#[trigger] w[i]) == claim(
            #[trigger] w[j],
        ) implies i == j by {
        assert(w[i] == want[i]@ && w[j] == want[j]@);
        if i < j {
            assert(want[i].proto != want[j].proto || want[i].local != want[j].local);
        } else if j < i {
            assert(want[j].proto != want[i].proto || want[j].local != want[i].local);
        }
    }
    assert(claims_differ(w));
    let start = dropped(before, s.binds, w);
    let outcomes = choose|outcomes: Seq<Result<Sock<T, U>, String>>| #[trigger]
        told_by(start, want, bind, outcomes) && ({
            let end = round_after(start, w, outcomes, want.len());
            after == end.bound && t == (SharedSpec { binds: end.binds, ..s }) && changed
                == end.changed
        });
    let end = round_after(start, w, outcomes, want.len());
    a_change_is_reported_when_there_is_one(before, s.binds, w, outcomes);
    lemma_round(start, w, outcomes, want.len());
    assert(w.take(want.len() as int) =~= w);
    assert forall|j: int| 0 <= j < want.len() implies served(
        before,
        after,
        s.binds,
        t.binds,
        #[trigger] want[j],
        bind,
    ) by {
        reconciling_honours_each_binding(before, s.binds, w, outcomes, j, k);
        assert(w[j] == want[j]@);
        let key = claim(w[j]);
        if !before.dom().contains(key) {
            lemma_round(start, w, outcomes, j as nat);
            if wanted(w.take(j), key) {
                let i = choose|i: int| 0 <= i < w.take(j).len() && claim(#[trigger] w.take(j)[i])
                    == key;
                assert(claim(w[i]) == claim(w[j]));
            }
            let here = round_after(start, w, outcomes, j as nat);
            assert(same_at(here.bound, start.bound, key));
            assert(call_ensures(bind, (&want[j],), outcomes[j]));
        }
    }
    if forall|j: int|
        0 <= j < want.len() ==> (#[trigger] want[j]).proto != k.proto || want[j].local != k.port {
        if wanted(w, k) {
            let j = choose|j: int| 0 <= j < w.len() && claim(#[trigger] w[j]) == k;
            assert(w[j] == want[j]@);
            assert(want[j].proto == k.proto && want[j].local == k.port);
        }
        assert(!wanted(w.take(want.len() as int), k));
        lemma_round(start, w, outcomes, want.len());
        assert(same_at(end.bound, start.bound, k));
        assert(same_at(end.binds, start.binds, k));
    }
}

/// There is one forwarder for each bound local port and, where any of those holds a UDP
/// socket, the two that all of them share; no more.
pub proof fn each_bound_port_is_forwarded_once<T, U>(
    order: Seq<LocalPort>,
    bound: Map<LocalPort, Listener<T, U>>,
)
    requires
        lists_bound(order, bound),
    ensures
        ({
            let f = forwarders_of(tcp_of(order, bound), udp_of(order, bound));
            let udp = exists|k: LocalPort| #[trigger]
                bound.dom().contains(k) && bound[k].sock is Udp;
            &&& f.len() == order.len() + (if udp {
                2int
            } else {
                0int
            })
            &&& f.contains(Forwarder::PumpUdpIn) <==> udp
            &&& f.contains(Forwarder::ReapSessions) <==> udp
        }),
{
    let tcp = tcp_of(order, bound);
    let pumps = udp_of(order, bound);
    let f = forwarders_of(tcp, pumps);
    lemma_parted(order, bound);
    lemma_udp_of(order, bound);
    if exists|k: LocalPort| #[trigger] bound.dom().contains(k) && bound[k].sock is Udp {
        let k = choose|k: LocalPort| #[trigger] bound.dom().contains(k) && bound[k].sock is Udp;
        assert(order.contains(k));
        let s = bound[k].sock->Udp_0;
        assert(pumps.contains((s, PortMap { local: k.port, remote: bound[k].remote })));
        assert(f[f.len() - 2] == Forwarder::<T, U>::PumpUdpIn);
        assert(f[f.len() - 1] == Forwarder::<T, U>::ReapSessions);
    } else {
        if pumps.len() > 0 {
            let e = pumps[0];
            assert(pumps.contains(e));
            let k = choose|k: LocalPort| #[trigger]
                order.contains(k) && bound[k].sock == Sock::<T, U>::Udp(e.0) && e.1 == (PortMap {
                    local: k.port,
                    remote: bound[k].remote,
                });
            assert(bound.dom().contains(k));
        }
        assert(f =~= tcp.map_values(
            |e: (Arc<T>, PortMap)| Forwarder::<T, U>::AcceptTcp { listener: e.0, map: e.1 },
        ));
    }
}

proof fn lemma_parted<T, U>(order: Seq<LocalPort>, m: Map<LocalPort, Listener<T, U>>)
    ensures
        tcp_of(order, m).len() + udp_of(order, m).len() == order.len(),
    decreases order.len(),
{
    if order.len() > 0 {
        lemma_parted(order.drop_last(), m);
    }
}

} // verus!
