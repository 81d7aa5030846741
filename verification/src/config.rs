//! The persisted, hand-editable source of truth for both roles' allowlists: what
//! it holds, when it is acceptable, and what it grants.
use crate::endpoint::{text_reads_back, EndpointId};
use crate::error::{Error, Fault, PortKind};
use crate::lists::{first_repeat, first_repeat_finds_repeats, first_repeat_stays};
use crate::portmap::PortMap;
use crate::text::{chars_of, is_control, is_control_char, lower, same_text, to_lower};
use vstd::prelude::*;

verus! {

/// A human label attached to an allowlist entry has at most this many characters.
pub const NAME_MAX: usize = 64;

/// TCP or UDP.
#[derive(Clone, Copy, Debug, PartialEq, Eq, PartialOrd, Ord, Hash, Structural)]
pub enum Proto {
    Tcp,
    Udp,
}

impl Proto {
    pub open spec fn word(self) -> Seq<char> {
        match self {
            Proto::Tcp => "tcp"@,
            Proto::Udp => "udp"@,
        }
    }

    pub fn as_str(self) -> (s: &'static str)
        ensures
            s@ == self.word(),
    {
        match self {
            Proto::Tcp => "tcp",
            Proto::Udp => "udp",
        }
    }
}

/// The protocol that a word names, in any mix of cases.
pub open spec fn proto_of(s: Seq<char>) -> Option<Proto> {
    if lower(s) == "tcp"@ {
        Some(Proto::Tcp)
    } else if lower(s) == "udp"@ {
        Some(Proto::Udp)
    } else {
        None
    }
}

impl std::str::FromStr for Proto {
    type Err = Error;

    fn from_str(s: &str) -> (r: Result<Self, Error>)
        ensures
            match r {
                Ok(p) => proto_of(s@) == Some(p),
                Err(e) => proto_of(s@) is None && (e matches Error::BadProto(t) && t@ == lower(s@)),
            },
    {
        let word: String = to_lower(s);
        if same_text(word.as_str(), "tcp") {
            Ok(Proto::Tcp)
        } else if same_text(word.as_str(), "udp") {
            proof {
                reveal_strlit("tcp");
                reveal_strlit("udp");
                assert("tcp"@[0] != "udp"@[0]);
            }
            Ok(Proto::Udp)
        } else {
            Err(Error::BadProto(word))
        }
    }
}

/// The name of a protocol is read back as that protocol.
pub proof fn proto_name_is_read_back(p: Proto)
    ensures
        proto_of(p.word()) == Some(p),
{
    reveal_strlit("tcp");
    reveal_strlit("udp");
    assert(lower("tcp"@) =~= "tcp"@);
    assert(lower("udp"@) =~= "udp"@);
    assert("tcp"@[0] != "udp"@[0]);
}

// ---------------------------------------------------------------- contents

/// One offered local port on the serving side. `port` is the loopback port that
/// may be reached; `enabled` is how a grant is parked without losing its name.
#[derive(Debug, PartialEq, Eq)]
pub struct Offer {
    pub proto: Proto,
    pub port: u16,
    pub name: String,
    pub enabled: bool,
}

/// One allowlisted peer, plus the ports granted to that peer alone. An empty
/// `offers` list means the peer gets only the shared ports.
#[derive(Debug, PartialEq, Eq)]
pub struct Peer {
    pub id: EndpointId,
    pub name: String,
    pub enabled: bool,
    pub offers: Vec<Offer>,
}

/// One local listener on the connecting side. `local` is bound on this machine's
/// loopback and forwarded to `remote` on the serving peer.
#[derive(Debug, PartialEq, Eq)]
pub struct Binding {
    pub proto: Proto,
    pub local: u16,
    pub remote: u16,
    pub name: String,
    pub enabled: bool,
}

/// What the serving side offers, and to whom.
#[derive(Debug, PartialEq, Eq)]
pub struct ServeConfig {
    /// Ports every enabled peer may reach. Kept separate from per-peer offers so
    /// revoking one peer's extra grant cannot revoke the common ones.
    pub shared: Vec<Offer>,
    pub peers: Vec<Peer>,
}

/// What the connecting side binds.
#[derive(Debug, PartialEq, Eq)]
pub struct ConnectConfig {
    pub bindings: Vec<Binding>,
}

/// The whole file. `serve` and `connect` sections coexist so one machine running
/// both roles keeps one config.
#[derive(Debug, PartialEq, Eq)]
pub struct Config {
    pub serve: ServeConfig,
    pub connect: ConnectConfig,
}

/// What an offer says.
#[verifier::ext_equal]
pub struct OfferSpec {
    pub proto: Proto,
    pub port: u16,
    pub name: Seq<char>,
    pub enabled: bool,
}

/// What a peer entry says.
#[verifier::ext_equal]
pub struct PeerSpec {
    pub id: EndpointId,
    pub name: Seq<char>,
    pub enabled: bool,
    pub offers: Seq<OfferSpec>,
}

/// What a binding says.
#[verifier::ext_equal]
pub struct BindingSpec {
    pub proto: Proto,
    pub local: u16,
    pub remote: u16,
    pub name: Seq<char>,
    pub enabled: bool,
}

/// What a configuration says.
#[verifier::ext_equal]
pub struct ConfigSpec {
    pub shared: Seq<OfferSpec>,
    pub peers: Seq<PeerSpec>,
    pub bindings: Seq<BindingSpec>,
}

impl View for Offer {
    type V = OfferSpec;

    open spec fn view(&self) -> OfferSpec {
        OfferSpec { proto: self.proto, port: self.port, name: self.name@, enabled: self.enabled }
    }
}

pub open spec fn offers_view(s: Seq<Offer>) -> Seq<OfferSpec> {
    s.map_values(|o: Offer| o@)
}

impl View for Peer {
    type V = PeerSpec;

    open spec fn view(&self) -> PeerSpec {
        PeerSpec {
            id: self.id,
            name: self.name@,
            enabled: self.enabled,
            offers: offers_view(self.offers@),
        }
    }
}

pub open spec fn peers_view(s: Seq<Peer>) -> Seq<PeerSpec> {
    s.map_values(|p: Peer| p@)
}

impl View for Binding {
    type V = BindingSpec;

    open spec fn view(&self) -> BindingSpec {
        BindingSpec {
            proto: self.proto,
            local: self.local,
            remote: self.remote,
            name: self.name@,
            enabled: self.enabled,
        }
    }
}

pub open spec fn bindings_view(s: Seq<Binding>) -> Seq<BindingSpec> {
    s.map_values(|b: Binding| b@)
}

impl View for Config {
    type V = ConfigSpec;

    open spec fn view(&self) -> ConfigSpec {
        ConfigSpec {
            shared: offers_view(self.serve.shared@),
            peers: peers_view(self.serve.peers@),
            bindings: bindings_view(self.connect.bindings@),
        }
    }
}

/// A configuration with no entries at all.
pub open spec fn empty_config() -> ConfigSpec {
    ConfigSpec { shared: seq![], peers: seq![], bindings: seq![] }
}

impl Clone for Offer {
    fn clone(&self) -> (r: Self)
        ensures
            r@ == self@,
    {
        Offer {
            proto: self.proto,
            port: self.port,
            name: self.name.clone(),
            enabled: self.enabled,
        }
    }
}

pub(crate) fn clone_offers(s: &Vec<Offer>) -> (r: Vec<Offer>)
    ensures
        offers_view(r@) == offers_view(s@),
{
    let mut r: Vec<Offer> = Vec::new();
    let mut i: usize = 0;
    while i < s.len()
        invariant
            i <= s@.len(),
            r@.len() == i,
            forall|j: int| 0 <= j < i ==> (#[trigger] r@[j])@ == s@[j]@,
        decreases s@.len() - i,
    {
        r.push(s[i].clone());
        i += 1;
    }
    assert(offers_view(r@) =~= offers_view(s@));
    r
}

impl Clone for Peer {
    fn clone(&self) -> (r: Self)
        ensures
            r@ == self@,
    {
        Peer {
            id: self.id,
            name: self.name.clone(),
            enabled: self.enabled,
            offers: clone_offers(&self.offers),
        }
    }
}

fn clone_peers(s: &Vec<Peer>) -> (r: Vec<Peer>)
    ensures
        peers_view(r@) == peers_view(s@),
{
    let mut r: Vec<Peer> = Vec::new();
    let mut i: usize = 0;
    while i < s.len()
        invariant
            i <= s@.len(),
            r@.len() == i,
            forall|j: int| 0 <= j < i ==> (#[trigger] r@[j])@ == s@[j]@,
        decreases s@.len() - i,
    {
        r.push(s[i].clone());
        i += 1;
    }
    assert(peers_view(r@) =~= peers_view(s@));
    r
}

impl Clone for Binding {
    fn clone(&self) -> (r: Self)
        ensures
            r@ == self@,
    {
        Binding {
            proto: self.proto,
            local: self.local,
            remote: self.remote,
            name: self.name.clone(),
            enabled: self.enabled,
        }
    }
}

pub(crate) fn clone_bindings(s: &Vec<Binding>) -> (r: Vec<Binding>)
    ensures
        bindings_view(r@) == bindings_view(s@),
{
    let mut r: Vec<Binding> = Vec::new();
    let mut i: usize = 0;
    while i < s.len()
        invariant
            i <= s@.len(),
            r@.len() == i,
            forall|j: int| 0 <= j < i ==> (#[trigger] r@[j])@ == s@[j]@,
        decreases s@.len() - i,
    {
        r.push(s[i].clone());
        i += 1;
    }
    assert(bindings_view(r@) =~= bindings_view(s@));
    r
}

impl Clone for Config {
    fn clone(&self) -> (r: Self)
        ensures
            r@ == self@,
    {
        Config {
            serve: ServeConfig {
                shared: clone_offers(&self.serve.shared),
                peers: clone_peers(&self.serve.peers),
            },
            connect: ConnectConfig { bindings: clone_bindings(&self.connect.bindings) },
        }
    }
}

impl Default for Config {
    fn default() -> (r: Self)
        ensures
            r@ == empty_config(),
    {
        Config {
            serve: ServeConfig { shared: Vec::new(), peers: Vec::new() },
            connect: ConnectConfig { bindings: Vec::new() },
        }
    }
}

impl Binding {
    pub fn map(&self) -> (m: PortMap)
        ensures
            m == (PortMap { local: self.local, remote: self.remote }),
    {
        PortMap { local: self.local, remote: self.remote }
    }
}

// ---------------------------------------------------------------- validation

pub open spec fn offer_keys(s: Seq<OfferSpec>) -> Seq<(Proto, u16)> {
    s.map_values(|o: OfferSpec| (o.proto, o.port))
}

pub open spec fn peer_ids(s: Seq<PeerSpec>) -> Seq<EndpointId> {
    s.map_values(|p: PeerSpec| p.id)
}

pub open spec fn binding_keys(s: Seq<BindingSpec>) -> Seq<(Proto, u16)> {
    s.map_values(|b: BindingSpec| (b.proto, b.local))
}

/// An acceptable label: short enough, and without control characters.
pub open spec fn name_valid(name: Seq<char>) -> bool {
    &&& name.len() <= NAME_MAX
    &&& forall|i: int| 0 <= i < name.len() ==> !is_control_char(#[trigger] name[i])
}

pub open spec fn offer_valid(o: OfferSpec) -> bool {
    o.port != 0 && name_valid(o.name)
}

pub open spec fn binding_valid(b: BindingSpec) -> bool {
    b.local != 0 && b.remote != 0 && name_valid(b.name)
}

/// An acceptable list of offers: each acceptable, no protocol and port twice.
pub open spec fn offers_valid(s: Seq<OfferSpec>) -> bool {
    &&& forall|i: int| 0 <= i < s.len() ==> offer_valid(#[trigger] s[i])
    &&& offer_keys(s).no_duplicates()
}

pub open spec fn peer_valid(p: PeerSpec) -> bool {
    name_valid(p.name) && offers_valid(p.offers)
}

pub open spec fn peers_valid(s: Seq<PeerSpec>) -> bool {
    &&& forall|i: int| 0 <= i < s.len() ==> peer_valid(#[trigger] s[i])
    &&& peer_ids(s).no_duplicates()
}

pub open spec fn bindings_valid(s: Seq<BindingSpec>) -> bool {
    &&& forall|i: int| 0 <= i < s.len() ==> binding_valid(#[trigger] s[i])
    &&& binding_keys(s).no_duplicates()
}

/// Whether every peer id of a configuration is a key: one that its text names.
pub open spec fn ids_are_keys(c: ConfigSpec) -> bool {
    forall|i: int| 0 <= i < c.peers.len() ==> text_reads_back((#[trigger] c.peers[i]).id.bytes)
}

/// An acceptable configuration.
pub open spec fn config_valid(c: ConfigSpec) -> bool {
    offers_valid(c.shared) && peers_valid(c.peers) && bindings_valid(c.bindings)
}

/// The complaint about a label, length before content.
pub open spec fn name_fault(name: Seq<char>) -> Option<Fault> {
    if name.len() > NAME_MAX {
        Some(Fault::NameTooLong)
    } else if exists|i: int| 0 <= i < name.len() && is_control_char(#[trigger] name[i]) {
        Some(Fault::NameHasControl)
    } else {
        None
    }
}

pub open spec fn offer_fault(o: OfferSpec) -> Option<Fault> {
    if o.port == 0 {
        Some(Fault::PortZero(PortKind::Offered))
    } else {
        name_fault(o.name)
    }
}

pub open spec fn binding_fault(b: BindingSpec) -> Option<Fault> {
    if b.local == 0 {
        Some(Fault::PortZero(PortKind::Local))
    } else if b.remote == 0 {
        Some(Fault::PortZero(PortKind::Remote))
    } else {
        name_fault(b.name)
    }
}

/// The complaint about the first offer that has one.
pub open spec fn each_offer_fault(s: Seq<OfferSpec>) -> Option<Fault>
    decreases s.len(),
{
    if s.len() == 0 {
        None
    } else {
        match each_offer_fault(s.drop_last()) {
            Some(f) => Some(f),
            None => offer_fault(s.last()),
        }
    }
}

/// The complaint about a peer: its label, then its offers one by one, then an offer
/// listed twice.
pub open spec fn peer_fault(p: PeerSpec) -> Option<Fault> {
    match name_fault(p.name) {
        Some(f) => Some(f),
        None => match each_offer_fault(p.offers) {
            Some(f) => Some(f),
            None => match first_repeat(offer_keys(p.offers)) {
                Some((proto, port)) => Some(Fault::PeerOfferTwice(p.id, proto, port)),
                None => None,
            },
        },
    }
}

/// The first complaint along the peers: about a peer itself, or that its id was
/// listed before.
pub open spec fn peers_fault(s: Seq<PeerSpec>) -> Option<Fault>
    decreases s.len(),
{
    if s.len() == 0 {
        None
    } else {
        match peers_fault(s.drop_last()) {
            Some(f) => Some(f),
            None => match peer_fault(s.last()) {
                Some(f) => Some(f),
                None => if peer_ids(s.drop_last()).contains(s.last().id) {
                    Some(Fault::PeerTwice(s.last().id))
                } else {
                    None
                },
            },
        }
    }
}

/// The first complaint along the bindings: about a binding itself, or that its
/// local port was claimed before.
pub open spec fn bindings_fault(s: Seq<BindingSpec>) -> Option<Fault>
    decreases s.len(),
{
    if s.len() == 0 {
        None
    } else {
        match bindings_fault(s.drop_last()) {
            Some(f) => Some(f),
            None => match binding_fault(s.last()) {
                Some(f) => Some(f),
                None => if binding_keys(s.drop_last()).contains((s.last().proto, s.last().local)) {
                    Some(Fault::LocalTwice(s.last().proto, s.last().local))
                } else {
                    None
                },
            },
        }
    }
}

/// The complaint that a configuration is turned away with: shared offers first,
/// then peers, then bindings.
pub open spec fn config_fault(c: ConfigSpec) -> Option<Fault> {
    match each_offer_fault(c.shared) {
        Some(f) => Some(f),
        None => match first_repeat(offer_keys(c.shared)) {
            Some((proto, port)) => Some(Fault::SharedOfferTwice(proto, port)),
            None => match peers_fault(c.peers) {
                Some(f) => Some(f),
                None => bindings_fault(c.bindings),
            },
        },
    }
}

/// A verdict as the result that reports it.
pub open spec fn verdict(f: Option<Fault>) -> Result<(), Fault> {
    match f {
        None => Ok(()),
        Some(f) => Err(f),
    }
}

/// There is a complaint exactly about what is not acceptable.
pub proof fn faults_are_exactly_invalidity(c: ConfigSpec)
    ensures
        config_fault(c) is None <==> config_valid(c),
{
    lemma_each_offer_fault(c.shared);
    first_repeat_finds_repeats(offer_keys(c.shared));
    lemma_peers_fault(c.peers);
    lemma_bindings_fault(c.bindings);
}

proof fn lemma_each_offer_fault(s: Seq<OfferSpec>)
    ensures
        each_offer_fault(s) is None <==> forall|i: int|
            0 <= i < s.len() ==> offer_valid(#[trigger] s[i]),
    decreases s.len(),
{
    if s.len() > 0 {
        let t = s.drop_last();
        lemma_each_offer_fault(t);
        assert(forall|i: int| 0 <= i < t.len() ==> t[i] == s[i]);
        if each_offer_fault(s) is None {
            assert forall|i: int| 0 <= i < s.len() implies offer_valid(#[trigger] s[i]) by {
                if i < t.len() {
                    assert(offer_valid(t[i]));
                }
            }
        }
        if forall|i: int| 0 <= i < s.len() ==> offer_valid(#[trigger] s[i]) {
            assert(offer_valid(s[s.len() - 1]));
            assert forall|i: int| 0 <= i < t.len() implies offer_valid(#[trigger] t[i]) by {
                assert(offer_valid(s[i]));
            }
        }
    }
}

proof fn lemma_peer_fault(p: PeerSpec)
    ensures
        peer_fault(p) is None <==> peer_valid(p),
{
    lemma_each_offer_fault(p.offers);
    first_repeat_finds_repeats(offer_keys(p.offers));
}

proof fn lemma_peers_fault(s: Seq<PeerSpec>)
    ensures
        peers_fault(s) is None <==> peers_valid(s),
    decreases s.len(),
{
    if s.len() > 0 {
        let t = s.drop_last();
        lemma_peers_fault(t);
        lemma_peer_fault(s.last());
        assert(forall|i: int| 0 <= i < t.len() ==> t[i] == s[i]);
        first_repeat_finds_repeats(peer_ids(s));
        first_repeat_finds_repeats(peer_ids(t));
        assert(peer_ids(s).drop_last() =~= peer_ids(t));
        if peers_fault(s) is None {
            assert forall|i: int| 0 <= i < s.len() implies peer_valid(#[trigger] s[i]) by {
                if i < t.len() {
                    assert(peer_valid(t[i]));
                }
            }
        }
        if peers_valid(s) {
            assert(peer_valid(s[s.len() - 1]));
            assert forall|i: int| 0 <= i < t.len() implies peer_valid(#[trigger] t[i]) by {
                assert(peer_valid(s[i]));
            }
        }
    }
}

proof fn lemma_bindings_fault(s: Seq<BindingSpec>)
    ensures
        bindings_fault(s) is None <==> bindings_valid(s),
    decreases s.len(),
{
    if s.len() > 0 {
        let t = s.drop_last();
        lemma_bindings_fault(t);
        assert(forall|i: int| 0 <= i < t.len() ==> t[i] == s[i]);
        first_repeat_finds_repeats(binding_keys(s));
        first_repeat_finds_repeats(binding_keys(t));
        assert(binding_keys(s).drop_last() =~= binding_keys(t));
        if bindings_fault(s) is None {
            assert forall|i: int| 0 <= i < s.len() implies binding_valid(#[trigger] s[i]) by {
                if i < t.len() {
                    assert(binding_valid(t[i]));
                }
            }
        }
        if bindings_valid(s) {
            assert(binding_valid(s[s.len() - 1]));
            assert forall|i: int| 0 <= i < t.len() implies binding_valid(#[trigger] t[i]) by {
                assert(binding_valid(s[i]));
            }
        }
    }
}

proof fn lemma_each_offer_fault_stays(s: Seq<OfferSpec>, i: int)
    requires
        0 <= i <= s.len(),
        each_offer_fault(s.take(i)) is Some,
    ensures
        each_offer_fault(s) == each_offer_fault(s.take(i)),
    decreases s.len() - i,
{
    if i == s.len() {
        assert(s.take(i) =~= s);
    } else {
        assert(s.take(i + 1).drop_last() =~= s.take(i));
        lemma_each_offer_fault_stays(s, i + 1);
    }
}

proof fn lemma_peers_fault_stays(s: Seq<PeerSpec>, i: int)
    requires
        0 <= i <= s.len(),
        peers_fault(s.take(i)) is Some,
    ensures
        peers_fault(s) == peers_fault(s.take(i)),
    decreases s.len() - i,
{
    if i == s.len() {
        assert(s.take(i) =~= s);
    } else {
        assert(s.take(i + 1).drop_last() =~= s.take(i));
        lemma_peers_fault_stays(s, i + 1);
    }
}

proof fn lemma_bindings_fault_stays(s: Seq<BindingSpec>, i: int)
    requires
        0 <= i <= s.len(),
        bindings_fault(s.take(i)) is Some,
    ensures
        bindings_fault(s) == bindings_fault(s.take(i)),
    decreases s.len() - i,
{
    if i == s.len() {
        assert(s.take(i) =~= s);
    } else {
        assert(s.take(i + 1).drop_last() =~= s.take(i));
        lemma_bindings_fault_stays(s, i + 1);
    }
}

/// Judges a label.
pub fn check_name(name: &str) -> (r: Result<(), Fault>)
    ensures
        r == verdict(name_fault(name@)),
{
    let v: Vec<char> = chars_of(name);
    if v.len() > NAME_MAX {
        return Err(Fault::NameTooLong);
    }
    let mut i: usize = 0;
    while i < v.len()
        invariant
            v@ == name@,
            v@.len() <= NAME_MAX,
            i <= v@.len(),
            forall|j: int| 0 <= j < i ==> !is_control_char(#[trigger] v@[j]),
        decreases v@.len() - i,
    {
        if is_control(v[i]) {
            assert(is_control_char(name@[i as int]));
            return Err(Fault::NameHasControl);
        }
        i += 1;
    }
    Ok(())
}

/// Judges a port: zero is no port.
pub fn check_port(port: u16, which: PortKind) -> (r: Result<(), Fault>)
    ensures
        r == (if port == 0 {
            Err::<(), Fault>(Fault::PortZero(which))
        } else {
            Ok(())
        }),
{
    if port == 0 {
        return Err(Fault::PortZero(which));
    }
    Ok(())
}

/// The first protocol and port that a list of offers names a second time.
pub fn dedupe_offers(offers: &Vec<Offer>) -> (r: Option<(Proto, u16)>)
    ensures
        r == first_repeat(offer_keys(offers_view(offers@))),
{
    let ghost keys = offer_keys(offers_view(offers@));
    let mut i: usize = 0;
    while i < offers.len()
        invariant
            i <= offers@.len(),
            keys == offer_keys(offers_view(offers@)),
            first_repeat(keys.take(i as int)) is None,
        decreases offers@.len() - i,
    {
        let ghost seen = keys.take(i as int);
        let mut j: usize = 0;
        assert(keys.take(i + 1).drop_last() =~= seen);
        assert(keys[i as int] == (offers[i as int].proto, offers[i as int].port));
        while j < i
            invariant
                j <= i < offers@.len(),
                keys == offer_keys(offers_view(offers@)),
                seen == keys.take(i as int),
                first_repeat(seen) is None,
                keys.take(i + 1).drop_last() == seen,
                keys[i as int] == (offers[i as int].proto, offers[i as int].port),
                forall|k: int| 0 <= k < j ==> keys[k] != keys[i as int],
            decreases i - j,
        {
            if offers[i].proto == offers[j].proto && offers[i].port == offers[j].port {
                proof {
                    assert(seen[j as int] == keys[i as int]);
                    assert(seen.contains(keys[i as int]));
                    first_repeat_stays(keys, i + 1);
                }
                return Some((offers[i].proto, offers[i].port));
            }
            j += 1;
        }
        assert(!seen.contains(keys[i as int]));
        i += 1;
    }
    assert(keys.take(keys.len() as int) =~= keys);
    None
}

fn check_each_offer(offers: &Vec<Offer>) -> (r: Result<(), Fault>)
    ensures
        r == verdict(each_offer_fault(offers_view(offers@))),
{
    let ghost all = offers_view(offers@);
    let mut i: usize = 0;
    while i < offers.len()
        invariant
            i <= offers@.len(),
            all == offers_view(offers@),
            each_offer_fault(all.take(i as int)) is None,
        decreases offers@.len() - i,
    {
        assert(all.take(i + 1).drop_last() =~= all.take(i as int));
        assert(all[i as int] == offers[i as int]@);
        if let Err(f) = offers[i].validate() {
            proof {
                lemma_each_offer_fault_stays(all, i + 1);
            }
            return Err(f);
        }
        i += 1;
    }
    assert(all.take(all.len() as int) =~= all);
    Ok(())
}

impl Offer {
    pub fn validate(&self) -> (r: Result<(), Fault>)
        ensures
            r == verdict(offer_fault(self@)),
    {
        check_port(self.port, PortKind::Offered)?;
        check_name(self.name.as_str())
    }
}

impl Binding {
    pub fn validate(&self) -> (r: Result<(), Fault>)
        ensures
            r == verdict(binding_fault(self@)),
    {
        check_port(self.local, PortKind::Local)?;
        check_port(self.remote, PortKind::Remote)?;
        check_name(self.name.as_str())
    }
}

impl Peer {
    pub fn validate(&self) -> (r: Result<(), Fault>)
        ensures
            r == verdict(peer_fault(self@)),
            r is Ok <==> peer_valid(self@),
    {
        proof {
            lemma_peer_fault(self@);
        }
        check_name(self.name.as_str())?;
        check_each_offer(&self.offers)?;
        match dedupe_offers(&self.offers) {
            Some((proto, port)) => Err(Fault::PeerOfferTwice(self.id, proto, port)),
            None => Ok(()),
        }
    }
}

fn check_peers(peers: &Vec<Peer>) -> (r: Result<(), Fault>)
    ensures
        r == verdict(peers_fault(peers_view(peers@))),
{
    let ghost all = peers_view(peers@);
    let mut i: usize = 0;
    while i < peers.len()
        invariant
            i <= peers@.len(),
            all == peers_view(peers@),
            peers_fault(all.take(i as int)) is None,
        decreases peers@.len() - i,
    {
        let ghost seen = all.take(i as int);
        assert(all.take(i + 1).drop_last() =~= seen);
        assert(all[i as int] == peers[i as int]@);
        if let Err(f) = peers[i].validate() {
            proof {
                lemma_peers_fault_stays(all, i + 1);
            }
            return Err(f);
        }
        let mut j: usize = 0;
        while j < i
            invariant
                j <= i < peers@.len(),
                all == peers_view(peers@),
                seen == all.take(i as int),
                peers_fault(seen) is None,
                peer_fault(all[i as int]) is None,
                all[i as int] == peers[i as int]@,
                all.take(i + 1).drop_last() == seen,
                forall|k: int| 0 <= k < j ==> (#[trigger] peers[k]).id != peers[i as int].id,
            decreases i - j,
        {
            if peers[i].id == peers[j].id {
                proof {
                    assert(peer_ids(seen)[j as int] == peers[j as int].id);
                    assert(peer_ids(seen).contains(all[i as int].id));
                    lemma_peers_fault_stays(all, i + 1);
                }
                return Err(Fault::PeerTwice(peers[i].id));
            }
            j += 1;
        }
        assert(!peer_ids(seen).contains(all[i as int].id)) by {
            if peer_ids(seen).contains(all[i as int].id) {
                let k = choose|k: int|
                    0 <= k < seen.len() && peer_ids(seen)[k] == all[i as int].id;
                assert(peers[k].id == peers[i as int].id);
            }
        }
        i += 1;
    }
    assert(all.take(all.len() as int) =~= all);
    Ok(())
}

fn check_bindings(bindings: &Vec<Binding>) -> (r: Result<(), Fault>)
    ensures
        r == verdict(bindings_fault(bindings_view(bindings@))),
{
    let ghost all = bindings_view(bindings@);
    let mut i: usize = 0;
    while i < bindings.len()
        invariant
            i <= bindings@.len(),
            all == bindings_view(bindings@),
            bindings_fault(all.take(i as int)) is None,
        decreases bindings@.len() - i,
    {
        let ghost seen = all.take(i as int);
        assert(all.take(i + 1).drop_last() =~= seen);
        assert(all[i as int] == bindings[i as int]@);
        if let Err(f) = bindings[i].validate() {
            proof {
                lemma_bindings_fault_stays(all, i + 1);
            }
            return Err(f);
        }
        let ghost key = (all[i as int].proto, all[i as int].local);
        let mut j: usize = 0;
        while j < i
            invariant
                j <= i < bindings@.len(),
                all == bindings_view(bindings@),
                seen == all.take(i as int),
                bindings_fault(seen) is None,
                binding_fault(all[i as int]) is None,
                all[i as int] == bindings[i as int]@,
                key == (all[i as int].proto, all[i as int].local),
                all.take(i + 1).drop_last() == seen,
                forall|k: int|
                    0 <= k < j ==> ((#[trigger] bindings[k]).proto, bindings[k].local) != key,
            decreases i - j,
        {
            if bindings[i].proto == bindings[j].proto && bindings[i].local == bindings[j].local {
                proof {
                    assert(binding_keys(seen)[j as int] == key);
                    assert(binding_keys(seen).contains(key));
                    lemma_bindings_fault_stays(all, i + 1);
                }
                return Err(Fault::LocalTwice(bindings[i].proto, bindings[i].local));
            }
            j += 1;
        }
        assert(!binding_keys(seen).contains(key)) by {
            if binding_keys(seen).contains(key) {
                let k = choose|k: int| 0 <= k < seen.len() && binding_keys(seen)[k] == key;
                assert((bindings[k].proto, bindings[k].local) == key);
            }
        }
        i += 1;
    }
    assert(all.take(all.len() as int) =~= all);
    Ok(())
}

impl Config {
    /// Judges the whole configuration; the first complaint is the one reported.
    pub fn validate(&self) -> (r: Result<(), Fault>)
        ensures
            r == verdict(config_fault(self@)),
            r is Ok <==> config_valid(self@),
    {
        proof {
            faults_are_exactly_invalidity(self@);
        }
        check_each_offer(&self.serve.shared)?;
        if let Some((proto, port)) = dedupe_offers(&self.serve.shared) {
            return Err(Fault::SharedOfferTwice(proto, port));
        }
        check_peers(&self.serve.peers)?;
        // Two listeners on one local port cannot both bind, so the config is
        // rejected rather than letting the second one fail at runtime.
        check_bindings(&self.connect.bindings)
    }
}

// ---------------------------------------------------------------- laws

/// What is read of an entry is what the entry holds.
pub proof fn entries_are_read_as_they_are(o: Offer, p: Peer, b: Binding, c: Config)
    ensures
        o@.proto == o.proto && o@.port == o.port && o@.name == o.name@ && o@.enabled == o.enabled,
        p@.id == p.id && p@.name == p.name@ && p@.enabled == p.enabled,
        p@.offers.len() == p.offers@.len(),
        forall|i: int| 0 <= i < p.offers@.len() ==> p@.offers[i] == p.offers@[i]@,
        b@.proto == b.proto && b@.local == b.local && b@.remote == b.remote && b@.name == b.name@
            && b@.enabled == b.enabled,
        c@.shared.len() == c.serve.shared@.len(),
        forall|i: int| 0 <= i < c@.shared.len() ==> c@.shared[i] == c.serve.shared@[i]@,
        c@.peers.len() == c.serve.peers@.len(),
        forall|i: int| 0 <= i < c@.peers.len() ==> c@.peers[i] == c.serve.peers@[i]@,
        c@.bindings.len() == c.connect.bindings@.len(),
        forall|i: int| 0 <= i < c@.bindings.len() ==> c@.bindings[i] == c.connect.bindings@[i]@,
{
}

/// Whether a text is fit to be a label: 64 characters at most, and none that a terminal
/// would act on.
pub open spec fn is_label(name: Seq<char>) -> bool {
    name.len() <= 64 && forall|i: int|
        0 <= i < name.len() ==> ' ' <= #[trigger] name[i] < '\u{7f}' || '\u{9f}' < name[i]
}

/// Whether each of some offers is for a port, under a label, and no two are for the same.
pub open spec fn are_offers(s: Seq<OfferSpec>) -> bool {
    &&& forall|i: int| 0 <= i < s.len() ==> (#[trigger] s[i]).port > 0 && is_label(s[i].name)
    &&& forall|i: int, j: int|
        0 <= i < j < s.len() ==> (#[trigger] s[i]).proto != (#[trigger] s[j]).proto || s[i].port
            != s[j].port
}

/// A configuration is acceptable exactly when every port in it is one, every name a
/// label, and no two offers of one list, no two peers and no two bindings are for the
/// same.
pub proof fn what_is_acceptable(c: ConfigSpec)
    ensures
        config_valid(c) <==> {
            &&& are_offers(c.shared)
            &&& forall|i: int|
                0 <= i < c.peers.len() ==> is_label((#[trigger] c.peers[i]).name) && are_offers(
                    c.peers[i].offers,
                )
            &&& forall|i: int, j: int|
                0 <= i < j < c.peers.len() ==> (#[trigger] c.peers[i]).id
                    != (#[trigger] c.peers[j]).id
            &&& forall|i: int|
                0 <= i < c.bindings.len() ==> (#[trigger] c.bindings[i]).local > 0
                    && c.bindings[i].remote > 0 && is_label(c.bindings[i].name)
            &&& forall|i: int, j: int|
                0 <= i < j < c.bindings.len() ==> (#[trigger] c.bindings[i]).proto
                    != (#[trigger] c.bindings[j]).proto || c.bindings[i].local
                    != c.bindings[j].local
        },
{
    lemma_are_offers(c.shared);
    assert forall|i: int| 0 <= i < c.peers.len() implies peer_valid(#[trigger] c.peers[i]) == (
    is_label(c.peers[i].name) && are_offers(c.peers[i].offers)) by {
        lemma_is_label(c.peers[i].name);
        lemma_are_offers(c.peers[i].offers);
    }
    assert forall|i: int| 0 <= i < c.bindings.len() implies binding_valid(#[trigger] c.bindings[i])
        == (c.bindings[i].local > 0 && c.bindings[i].remote > 0 && is_label(
        c.bindings[i].name,
    )) by {
        lemma_is_label(c.bindings[i].name);
    }
    let ids = peer_ids(c.peers);
    if config_valid(c) {
        assert forall|i: int, j: int| 0 <= i < j < c.peers.len() implies (#[trigger] c.peers[i]).id
            != (#[trigger] c.peers[j]).id by {
            assert(ids[i] != ids[j]);
        }
        let keys = binding_keys(c.bindings);
        assert forall|i: int, j: int| 0 <= i < j < c.bindings.len() implies (
        #[trigger] c.bindings[i]).proto != (#[trigger] c.bindings[j]).proto || c.bindings[i].local
            != c.bindings[j].local by {
            assert(keys[i] != keys[j]);
        }
    }
    if forall|i: int, j: int|
        0 <= i < j < c.peers.len() ==> (#[trigger] c.peers[i]).id != (#[trigger] c.peers[j]).id {
        assert forall|i: int, j: int| 0 <= i < ids.len() && 0 <= j < ids.len() && i
            != j implies ids[i] != ids[j] by {
            if i < j {
                assert(c.peers[i].id != c.peers[j].id);
            } else {
                assert(c.peers[j].id != c.peers[i].id);
            }
        }
    }
    if forall|i: int, j: int|
        0 <= i < j < c.bindings.len() ==> (#[trigger] c.bindings[i]).proto != (
        #[trigger] c.bindings[j]).proto || c.bindings[i].local != c.bindings[j].local {
        let keys = binding_keys(c.bindings);
        assert forall|i: int, j: int| 0 <= i < keys.len() && 0 <= j < keys.len() && i
            != j implies keys[i] != keys[j] by {
            let (x, y) = if i < j {
                (i, j)
            } else {
                (j, i)
            };
            assert(c.bindings[x].proto != c.bindings[y].proto || c.bindings[x].local
                != c.bindings[y].local);
        }
    }
}

proof fn lemma_is_label(name: Seq<char>)
    ensures
        name_valid(name) == is_label(name),
{
    if is_label(name) {
        assert forall|i: int| 0 <= i < name.len() implies !is_control_char(#[trigger] name[i]) by {
        }
    }
    if name_valid(name) {
        assert forall|i: int| 0 <= i < name.len() implies ' ' <= #[trigger] name[i] < '\u{7f}'
            || '\u{9f}' < name[i] by {
            assert(!is_control_char(name[i]));
        }
    }
}

proof fn lemma_are_offers(s: Seq<OfferSpec>)
    ensures
        offers_valid(s) == are_offers(s),
{
    let keys = offer_keys(s);
    assert forall|i: int| 0 <= i < s.len() implies offer_valid(#[trigger] s[i]) == (s[i].port > 0
        && is_label(s[i].name)) by {
        lemma_is_label(s[i].name);
    }
    if offers_valid(s) {
        assert forall|i: int, j: int| 0 <= i < j < s.len() implies (#[trigger] s[i]).proto != (
        #[trigger] s[j]).proto || s[i].port != s[j].port by {
            assert(keys[i] != keys[j]);
        }
    }
    if are_offers(s) {
        assert forall|i: int, j: int| 0 <= i < keys.len() && 0 <= j < keys.len() && i
            != j implies keys[i] != keys[j] by {
            let (x, y) = if i < j {
                (i, j)
            } else {
                (j, i)
            };
            assert(s[x].proto != s[y].proto || s[x].port != s[y].port);
        }
    }
}

/// Whether a complaint about a label is true of it.
pub open spec fn label_bears_out(name: Seq<char>, f: Fault) -> bool {
    match f {
        Fault::NameTooLong => name.len() > 64,
        Fault::NameHasControl => name.len() <= 64 && exists|i: int|
            0 <= i < name.len() && ((#[trigger] name[i]) < ' ' || '\u{7f}' <= name[i]
                <= '\u{9f}'),
        _ => false,
    }
}

/// Whether a complaint about an offer is true of it.
pub open spec fn offer_bears_out(o: OfferSpec, f: Fault) -> bool {
    if o.port == 0 {
        f == Fault::PortZero(PortKind::Offered)
    } else {
        label_bears_out(o.name, f)
    }
}

/// Whether a complaint about a binding is true of it; its local port is looked at first,
/// then its remote port, then its label.
pub open spec fn binding_bears_out(b: BindingSpec, f: Fault) -> bool {
    if b.local == 0 {
        f == Fault::PortZero(PortKind::Local)
    } else if b.remote == 0 {
        f == Fault::PortZero(PortKind::Remote)
    } else {
        label_bears_out(b.name, f)
    }
}

/// Whether some offers are for a protocol and a port twice.
pub open spec fn offered_twice(s: Seq<OfferSpec>, proto: Proto, port: u16) -> bool {
    exists|i: int, j: int|
        0 <= i < j < s.len() && (#[trigger] s[i]).proto == proto && s[i].port == port && (
        #[trigger] s[j]).proto == proto && s[j].port == port
}

/// Whether a complaint about a peer's own entry is true of it.
pub open spec fn peer_bears_out(p: PeerSpec, f: Fault) -> bool {
    ||| label_bears_out(p.name, f)
    ||| exists|k: int| 0 <= k < p.offers.len() && offer_bears_out(#[trigger] p.offers[k], f)
    ||| (f matches Fault::PeerOfferTwice(id, proto, port) && id == p.id && offered_twice(
        p.offers,
        proto,
        port,
    ))
}

/// A complaint about a configuration is true: it names what some entry of it has wrong.
pub proof fn a_complaint_is_true(c: ConfigSpec)
    ensures
        config_fault(c) matches Some(f) ==> {
            ||| exists|k: int| 0 <= k < c.shared.len() && offer_bears_out(#[trigger] c.shared[k], f)
            ||| (f matches Fault::SharedOfferTwice(proto, port) && offered_twice(
                c.shared,
                proto,
                port,
            ))
            ||| exists|i: int| 0 <= i < c.peers.len() && peer_bears_out(#[trigger] c.peers[i], f)
            ||| (f matches Fault::PeerTwice(id) && exists|i: int, j: int|
                0 <= i < j < c.peers.len() && (#[trigger] c.peers[i]).id == id && (
                #[trigger] c.peers[j]).id == id)
            ||| exists|i: int|
                0 <= i < c.bindings.len() && binding_bears_out(#[trigger] c.bindings[i], f)
            ||| (f matches Fault::LocalTwice(proto, local) && exists|i: int, j: int|
                0 <= i < j < c.bindings.len() && (#[trigger] c.bindings[i]).proto == proto
                    && c.bindings[i].local == local && (#[trigger] c.bindings[j]).proto == proto
                    && c.bindings[j].local == local)
        },
{
    lemma_offer_complaint(c.shared);
    lemma_repeat_complaint(c.shared);
    lemma_peers_complaint(c.peers);
    lemma_bindings_complaint(c.bindings);
}

proof fn lemma_offer_complaint(s: Seq<OfferSpec>)
    ensures
        each_offer_fault(s) matches Some(f) ==> exists|k: int|
            0 <= k < s.len() && offer_bears_out(#[trigger] s[k], f),
    decreases s.len(),
{
    if s.len() > 0 {
        let t = s.drop_last();
        lemma_offer_complaint(t);
        if let Some(f) = each_offer_fault(t) {
            let k = choose|k: int| 0 <= k < t.len() && offer_bears_out(#[trigger] t[k], f);
            assert(s[k] == t[k]);
        } else if let Some(f) = each_offer_fault(s) {
            assert(offer_bears_out(s[s.len() - 1], f));
        }
    }
}

proof fn lemma_repeat_complaint(s: Seq<OfferSpec>)
    ensures
        first_repeat(offer_keys(s)) matches Some(k) ==> offered_twice(s, k.0, k.1),
{
    let keys = offer_keys(s);
    crate::lists::first_repeat_is_the_first(keys);
    if let Some(k) = first_repeat(keys) {
        let (i, j) = choose|i: int, j: int|
            0 <= i < j < keys.len() && #[trigger] keys[i] == k && #[trigger] keys[j] == k
                && keys.take(j).no_duplicates();
        assert(keys[i] == (s[i].proto, s[i].port));
        assert(keys[j] == (s[j].proto, s[j].port));
    }
}

proof fn lemma_peers_complaint(s: Seq<PeerSpec>)
    ensures
        peers_fault(s) matches Some(f) ==> {
            ||| exists|i: int| 0 <= i < s.len() && peer_bears_out(#[trigger] s[i], f)
            ||| (f matches Fault::PeerTwice(id) && exists|i: int, j: int|
                0 <= i < j < s.len() && (#[trigger] s[i]).id == id && (#[trigger] s[j]).id == id)
        },
    decreases s.len(),
{
    if s.len() > 0 {
        let t = s.drop_last();
        let p = s.last();
        lemma_peers_complaint(t);
        assert(forall|i: int| 0 <= i < t.len() ==> s[i] == t[i]);
        if let Some(f) = peers_fault(t) {
            if exists|i: int| 0 <= i < t.len() && peer_bears_out(#[trigger] t[i], f) {
                let i = choose|i: int| 0 <= i < t.len() && peer_bears_out(#[trigger] t[i], f);
                assert(peer_bears_out(s[i], f));
            } else {
                let id = f->PeerTwice_0;
                let (i, j) = choose|i: int, j: int|
                    0 <= i < j < t.len() && (#[trigger] t[i]).id == id && (#[trigger] t[j]).id
                        == id;
                assert(s[i].id == id && s[j].id == id);
            }
        } else if let Some(f) = peer_fault(p) {
            lemma_offer_complaint(p.offers);
            lemma_repeat_complaint(p.offers);
            assert(peer_bears_out(s[s.len() - 1], f));
        } else if peer_ids(t).contains(p.id) {
            let i = peer_ids(t).index_of(p.id);
            assert(s[i].id == p.id && s[s.len() - 1].id == p.id);
        }
    }
}

proof fn lemma_bindings_complaint(s: Seq<BindingSpec>)
    ensures
        bindings_fault(s) matches Some(f) ==> {
            ||| exists|i: int| 0 <= i < s.len() && binding_bears_out(#[trigger] s[i], f)
            ||| (f matches Fault::LocalTwice(proto, local) && exists|i: int, j: int|
                0 <= i < j < s.len() && (#[trigger] s[i]).proto == proto && s[i].local == local && (
                #[trigger] s[j]).proto == proto && s[j].local == local)
        },
    decreases s.len(),
{
    if s.len() > 0 {
        let t = s.drop_last();
        let b = s.last();
        lemma_bindings_complaint(t);
        assert(forall|i: int| 0 <= i < t.len() ==> s[i] == t[i]);
        if let Some(f) = bindings_fault(t) {
            if exists|i: int| 0 <= i < t.len() && binding_bears_out(#[trigger] t[i], f) {
                let i = choose|i: int| 0 <= i < t.len() && binding_bears_out(#[trigger] t[i], f);
                assert(binding_bears_out(s[i], f));
            } else {
                let (proto, local) = (f->LocalTwice_0, f->LocalTwice_1);
                let (i, j) = choose|i: int, j: int|
                    0 <= i < j < t.len() && (#[trigger] t[i]).proto == proto && t[i].local == local
                        && (#[trigger] t[j]).proto == proto && t[j].local == local;
                assert(s[i] == t[i] && s[j] == t[j]);
            }
        } else if let Some(f) = binding_fault(b) {
            assert(binding_bears_out(s[s.len() - 1], f));
        } else if binding_keys(t).contains((b.proto, b.local)) {
            let i = binding_keys(t).index_of((b.proto, b.local));
            assert(binding_keys(t)[i] == (t[i].proto, t[i].local));
            assert(s[i].proto == b.proto && s[s.len() - 1].proto == b.proto);
        }
    }
}

/// The first complaint is the one that is made: what is wrong with the shared offers
/// comes before what is wrong with the peers, that before what is wrong with the
/// bindings, and of the entries of one list an earlier one before a later one.
pub proof fn the_first_complaint_is_made(c: ConfigSpec, peers: int, bindings: int)
    requires
        0 <= peers <= c.peers.len(),
        0 <= bindings <= c.bindings.len(),
    ensures
        ({
            let start = ConfigSpec { peers: c.peers.take(peers), bindings: seq![], ..c };
            config_fault(start) is Some ==> config_fault(c) == config_fault(start)
        }),
        ({
            let start = ConfigSpec { bindings: c.bindings.take(bindings), ..c };
            config_fault(start) is Some ==> config_fault(c) == config_fault(start)
        }),
{
    if peers_fault(c.peers.take(peers)) is Some {
        lemma_peers_fault_stays(c.peers, peers);
    }
    if bindings_fault(c.bindings.take(bindings)) is Some {
        lemma_bindings_fault_stays(c.bindings, bindings);
    }
}

/// A word names a protocol in any mix of cases, and only the two words do.
pub proof fn a_word_names_a_protocol_in_any_case(s: Seq<char>)
    ensures
        proto_of(s) == Some(Proto::Tcp) <==> s.len() == 3 && (s[0] == 't' || s[0] == 'T') && (s[1]
            == 'c' || s[1] == 'C') && (s[2] == 'p' || s[2] == 'P'),
        proto_of(s) == Some(Proto::Udp) <==> s.len() == 3 && (s[0] == 'u' || s[0] == 'U') && (s[1]
            == 'd' || s[1] == 'D') && (s[2] == 'p' || s[2] == 'P'),
{
    reveal_strlit("tcp");
    reveal_strlit("udp");
    let w = lower(s);
    assert(w.len() == s.len());
    if s.len() == 3 {
        crate::text::lower_case_of_a_letter(s[0]);
        crate::text::lower_case_of_a_letter(s[1]);
        crate::text::lower_case_of_a_letter(s[2]);
        assert(w[0] == crate::text::ascii_lower(s[0]));
        assert(w[1] == crate::text::ascii_lower(s[1]));
        assert(w[2] == crate::text::ascii_lower(s[2]));
    }
    if w == "tcp"@ {
        assert(w[0] == 't' && w[1] == 'c' && w[2] == 'p');
    }
    if w == "udp"@ {
        assert(w[0] == 'u' && w[1] == 'd' && w[2] == 'p');
    }
    if s.len() == 3 && w[0] == 't' && w[1] == 'c' && w[2] == 'p' {
        assert(w =~= "tcp"@);
    }
    if s.len() == 3 && w[0] == 'u' && w[1] == 'd' && w[2] == 'p' {
        assert(w =~= "udp"@);
    }
}

/// What is complained about is refused with the complaint; what is not is accepted.
pub proof fn a_complaint_is_a_refusal(f: Fault)
    ensures
        verdict(None) is Ok,
        verdict(Some(f)) == Err::<(), Fault>(f),
{
}

/// A label is refused for its length before its characters, and only for these.
pub proof fn what_is_wrong_with_a_label(name: Seq<char>)
    ensures
        name_fault(name) == Some(Fault::NameTooLong) <==> name.len() > 64,
        name_fault(name) is None <==> is_label(name),
        name_fault(name) is Some && name.len() <= 64 ==> name_fault(name) == Some(
            Fault::NameHasControl,
        ),
{
    lemma_is_label(name);
}

/// An offer or a binding is refused exactly for a port that is zero or a name that is no
/// label.
pub proof fn what_is_wrong_with_an_entry(o: OfferSpec, b: BindingSpec)
    ensures
        offer_fault(o) is None <==> o.port > 0 && is_label(o.name),
        binding_fault(b) is None <==> b.local > 0 && b.remote > 0 && is_label(b.name),
        offer_fault(o) matches Some(f) ==> offer_bears_out(o, f),
        binding_fault(b) matches Some(f) ==> binding_bears_out(b, f),
{
    lemma_is_label(o.name);
    lemma_is_label(b.name);
}

} // verus!
