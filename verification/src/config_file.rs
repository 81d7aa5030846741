//! The configuration file: what is put into it, and what a file that was read amounts
//! to. The words of the file are TOML; writing and reading those is handed in.
use crate::config::{
    bindings_view, clone_bindings, clone_offers, config_fault, config_valid, empty_config,
    ids_are_keys, offers_view, peers_view, Binding, BindingSpec, Config, ConfigSpec,
    ConnectConfig, Offer, OfferSpec, Peer, PeerSpec, ServeConfig,
};
use crate::endpoint::{endpoint_id_parse, id_text, parse_key, text_reads_back, EndpointId};
use crate::error::Error;
use vstd::prelude::*;

verus! {

/// A peer as it stands in the file: its id is the 64-character text.
#[derive(Debug, PartialEq, Eq)]
pub struct PeerDoc {
    pub id: String,
    pub name: String,
    pub enabled: bool,
    pub offers: Vec<Offer>,
}

/// What the file holds.
#[derive(Debug, PartialEq, Eq)]
pub struct ConfigDoc {
    pub shared: Vec<Offer>,
    pub peers: Vec<PeerDoc>,
    pub bindings: Vec<Binding>,
}

/// What a peer in the file says.
#[verifier::ext_equal]
pub struct PeerDocSpec {
    pub id: Seq<char>,
    pub name: Seq<char>,
    pub enabled: bool,
    pub offers: Seq<OfferSpec>,
}

/// What the file says.
#[verifier::ext_equal]
pub struct ConfigDocSpec {
    pub shared: Seq<OfferSpec>,
    pub peers: Seq<PeerDocSpec>,
    pub bindings: Seq<BindingSpec>,
}

impl View for PeerDoc {
    type V = PeerDocSpec;

    open spec fn view(&self) -> PeerDocSpec {
        PeerDocSpec {
            id: self.id@,
            name: self.name@,
            enabled: self.enabled,
            offers: offers_view(self.offers@),
        }
    }
}

pub open spec fn peer_docs_view(s: Seq<PeerDoc>) -> Seq<PeerDocSpec> {
    s.map_values(|p: PeerDoc| p@)
}

impl View for ConfigDoc {
    type V = ConfigDocSpec;

    open spec fn view(&self) -> ConfigDocSpec {
        ConfigDocSpec {
            shared: offers_view(self.shared@),
            peers: peer_docs_view(self.peers@),
            bindings: bindings_view(self.bindings@),
        }
    }
}

// ---------------------------------------------------------------- to and from the file

/// How a peer stands in the file.
pub open spec fn peer_doc(p: PeerSpec) -> PeerDocSpec {
    PeerDocSpec { id: id_text(p.id), name: p.name, enabled: p.enabled, offers: p.offers }
}

/// How a configuration stands in the file.
pub open spec fn doc_of(c: ConfigSpec) -> ConfigDocSpec {
    ConfigDocSpec {
        shared: c.shared,
        peers: c.peers.map_values(|p: PeerSpec| peer_doc(p)),
        bindings: c.bindings,
    }
}

/// The peers that the file lists, or why an id among them is none.
pub open spec fn peers_of(s: Seq<PeerDocSpec>) -> Result<Seq<PeerSpec>, Seq<char>>
    decreases s.len(),
{
    if s.len() == 0 {
        Ok(seq![])
    } else {
        match (peers_of(s.drop_last()), endpoint_id_parse(s.last().id)) {
            (Err(why), _) => Err(why),
            (Ok(_), Err(why)) => Err(why),
            (Ok(peers), Ok(bytes)) => Ok(
                peers.push(
                    PeerSpec {
                        id: EndpointId { bytes },
                        name: s.last().name,
                        enabled: s.last().enabled,
                        offers: s.last().offers,
                    },
                ),
            ),
        }
    }
}

/// The configuration that the file describes, or why an id in it is none.
pub open spec fn config_of(d: ConfigDocSpec) -> Result<ConfigSpec, Seq<char>> {
    match peers_of(d.peers) {
        Ok(peers) => Ok(ConfigSpec { shared: d.shared, peers, bindings: d.bindings }),
        Err(why) => Err(why),
    }
}

/// What is put into the file for a configuration.
pub fn to_doc(cfg: &Config) -> (d: ConfigDoc)
    ensures
        d@ == doc_of(cfg@),
        d.peers@.len() == cfg.serve.peers@.len(),
        forall|i: int|
            0 <= i < d.peers@.len() ==> (#[trigger] d.peers@[i]).enabled
                == cfg.serve.peers@[i].enabled && d.peers@[i].name@ == cfg.serve.peers@[i].name@,
{
    let mut peers: Vec<PeerDoc> = Vec::new();
    let mut i: usize = 0;
    while i < cfg.serve.peers.len()
        invariant
            i <= cfg.serve.peers@.len(),
            peers@.len() == i,
            forall|j: int|
                0 <= j < i ==> (#[trigger] peers@[j])@ == peer_doc(cfg.serve.peers@[j]@)
                    && peers@[j].enabled == cfg.serve.peers@[j].enabled && peers@[j].name@
                    == cfg.serve.peers@[j].name@,
        decreases cfg.serve.peers@.len() - i,
    {
        let p: &Peer = &cfg.serve.peers[i];
        let doc: PeerDoc = PeerDoc {
            id: p.id.to_text(),
            name: p.name.clone(),
            enabled: p.enabled,
            offers: clone_offers(&p.offers),
        };
        assert(doc@ =~= peer_doc(p@));
        peers.push(doc);
        i += 1;
    }
    let d: ConfigDoc = ConfigDoc {
        shared: clone_offers(&cfg.serve.shared),
        peers,
        bindings: clone_bindings(&cfg.connect.bindings),
    };
    assert(d@.peers =~= doc_of(cfg@).peers);
    d
}

/// The configuration that the file describes.
pub fn of_doc(d: ConfigDoc) -> (r: Result<Config, String>)
    ensures
        match r {
            Ok(c) => config_of(d@) == Ok::<ConfigSpec, Seq<char>>(c@) && ids_are_keys(c@)
                && c.serve.shared == d.shared && c.connect.bindings == d.bindings
                && c.serve.peers@.len() == d.peers@.len() && forall|i: int|
                0 <= i < d.peers@.len() ==> (#[trigger] c.serve.peers@[i]).enabled
                    == d.peers@[i].enabled && c.serve.peers@[i].name@ == d.peers@[i].name@,
            Err(why) => config_of(d@) == Err::<ConfigSpec, Seq<char>>(why@),
        },
{
    let ghost all = d@.peers;
    let mut peers: Vec<Peer> = Vec::new();
    let mut i: usize = 0;
    assert(peers_view(peers@) =~= seq![]);
    while i < d.peers.len()
        invariant
            i <= d.peers@.len(),
            all == peer_docs_view(d.peers@),
            peers_of(all.take(i as int)) == Ok::<Seq<PeerSpec>, Seq<char>>(peers_view(peers@)),
            peers@.len() == i,
            forall|j: int|
                0 <= j < peers@.len() ==> text_reads_back((#[trigger] peers@[j]).id.bytes)
                    && peers@[j].enabled == d.peers@[j].enabled && peers@[j].name@
                    == d.peers@[j].name@,
        decreases d.peers@.len() - i,
    {
        let p: &PeerDoc = &d.peers[i];
        assert(all[i as int] == p@);
        assert(all.take(i + 1).drop_last() =~= all.take(i as int));
        match parse_key(p.id.as_str()) {
            Err(why) => {
                proof {
                    lemma_peers_of_stays(all, i + 1);
                }
                return Err(why);
            },
            Ok(bytes) => {
                let ghost before = peers@;
                let peer: Peer = Peer {
                    id: EndpointId { bytes },
                    name: p.name.clone(),
                    enabled: p.enabled,
                    offers: clone_offers(&p.offers),
                };
                peers.push(peer);
                assert(peers_view(peers@) =~= peers_view(before).push(peer@));
            },
        }
        i += 1;
    }
    assert(all.take(i as int) =~= all);
    let c: Config = Config {
        serve: ServeConfig { shared: d.shared, peers },
        connect: ConnectConfig { bindings: d.bindings },
    };
    assert forall|j: int| 0 <= j < c@.peers.len() implies text_reads_back(
        (#[trigger] c@.peers[j]).id.bytes,
    ) by {
        assert(c@.peers[j] == c.serve.peers@[j]@);
    }
    Ok(c)
}

proof fn lemma_peers_of_stays(s: Seq<PeerDocSpec>, i: int)
    requires
        0 <= i <= s.len(),
        peers_of(s.take(i)) is Err,
    ensures
        peers_of(s) == peers_of(s.take(i)),
    decreases s.len() - i,
{
    if i == s.len() {
        assert(s.take(i) =~= s);
    } else {
        assert(s.take(i + 1).drop_last() =~= s.take(i));
        lemma_peers_of_stays(s, i + 1);
    }
}

// ---------------------------------------------------------------- loading

/// What reading the configuration file gave.
#[derive(Debug)]
pub enum ConfigFile {
    Text(String),
    Missing,
    Unreadable(String),
}

/// Whether a configuration from a file was accepted, or turned away as it should be.
pub open spec fn accepted_as(path: Seq<char>, c: ConfigSpec, r: Result<Config, Error>) -> bool {
    match config_fault(c) {
        None => r matches Ok(cfg) && cfg@ == c && config_valid(c),
        Some(f) => r matches Err(Error::FileFault { path: p, fault }) && p@ == path && fault == f,
    }
}

/// Whether a file whose words were read is loaded as it should be. `parsed` is what the
/// words were read as.
pub open spec fn parsed_as(
    path: Seq<char>,
    parsed: Result<ConfigDoc, String>,
    r: Result<Config, Error>,
) -> bool {
    match parsed {
        Err(why) => r matches Err(Error::Unparsable { path: p, cause }) && p@ == path && cause@
            == why@,
        Ok(d) => match config_of(d@) {
            Err(why) => r matches Err(Error::Unparsable { path: p, cause }) && p@ == path && cause@
                == why,
            Ok(c) => accepted_as(path, c, r),
        },
    }
}

/// Whether a file is loaded as it should be, where `parse` reads its words.
pub open spec fn loaded_as<P>(
    path: Seq<char>,
    file: ConfigFile,
    parse: P,
    r: Result<Config, Error>,
) -> bool where P: FnOnce(&str) -> Result<ConfigDoc, String> {
    match file {
        ConfigFile::Text(text) => exists|words: &str, parsed: Result<ConfigDoc, String>|
            words@ == text@ && #[trigger] call_ensures(parse, (words,), parsed) && parsed_as(
                path,
                parsed,
                r,
            ),
        ConfigFile::Missing => r matches Ok(c) && c@ == empty_config(),
        ConfigFile::Unreadable(why) => r matches Err(Error::Unreadable { path: p, cause }) && p@
            == path && cause == why,
    }
}

/// Judges a configuration that came from a file.
pub fn accept(path: &str, cfg: Config) -> (r: Result<Config, Error>)
    ensures
        accepted_as(path@, cfg@, r),
{
    match cfg.validate() {
        Ok(()) => Ok(cfg),
        Err(fault) => Err(Error::FileFault { path: path.to_owned(), fault }),
    }
}

/// The configuration to run with. A missing file is an empty configuration, not an
/// error: the first run must work on a machine with no file at all. `parse` reads the
/// words of the file. Whatever is loaded, its peer ids are keys.
pub fn load<P>(path: &str, file: ConfigFile, parse: P) -> (r: Result<Config, Error>) where
    P: FnOnce(&str) -> Result<ConfigDoc, String>,

    requires
        file matches ConfigFile::Text(text) ==> forall|words: &str|
            words@ == text@ ==> #[trigger] call_requires(parse, (words,)),
    ensures
        loaded_as(path@, file, parse, r),
        r matches Ok(c) ==> ids_are_keys(c@),
{
    match file {
        ConfigFile::Missing => Ok(Config::default()),
        ConfigFile::Unreadable(cause) => Err(Error::Unreadable { path: path.to_owned(), cause }),
        ConfigFile::Text(text) => {
            let ghost reading = parse;
            let words: &str = text.as_str();
            let parsed: Result<ConfigDoc, String> = parse(words);
            let ghost was = parsed;
            let r: Result<Config, Error> = match parsed {
                Err(cause) => Err(Error::Unparsable { path: path.to_owned(), cause }),
                Ok(doc) => match of_doc(doc) {
                    Err(cause) => Err(Error::Unparsable { path: path.to_owned(), cause }),
                    Ok(cfg) => accept(path, cfg),
                },
            };
            assert(call_ensures(reading, (words,), was) && parsed_as(path@, was, r));
            r
        },
    }
}

// ---------------------------------------------------------------- saving

/// The comment that heads a written file.
pub open spec fn file_header() -> Seq<char> {
    "# rtun configuration. Managed by the admin UI; safe to hand-edit while\n# rtun is not running, and re-read on the next start.\n\n"@
}

/// Whether a configuration is put into words as it should be, where `render` writes the
/// words: they follow the header, and are those for exactly this configuration. One
/// that a restart would turn away is not put into words at all.
pub open spec fn saved_as<W>(c: ConfigSpec, render: W, r: Result<String, Error>) -> bool where
    W: FnOnce(&ConfigDoc) -> Result<String, String>,
 {
    match config_fault(c) {
        Some(f) => r == Err::<String, Error>(Error::SaveFault(f)),
        None => exists|doc: ConfigDoc, words: Result<String, String>|
            doc@ == doc_of(c) && #[trigger] call_ensures(render, (&doc,), words) && match words {
                Ok(toml) => r matches Ok(body) && body@ == file_header() + toml@,
                Err(cause) => r == Err::<String, Error>(Error::Unwritable(cause)),
            },
    }
}

/// The text of the file for a configuration. `render` writes its words.
pub fn save<W>(cfg: &Config, render: W) -> (r: Result<String, Error>) where
    W: FnOnce(&ConfigDoc) -> Result<String, String>,

    requires
        config_valid(cfg@) ==> forall|doc: &ConfigDoc|
            doc@ == doc_of(cfg@) ==> #[trigger] call_requires(render, (doc,)),
    ensures
        saved_as(cfg@, render, r),
{
    match cfg.validate() {
        Err(fault) => Err(Error::SaveFault(fault)),
        Ok(()) => {
            let ghost writing = render;
            let doc: ConfigDoc = to_doc(cfg);
            let words: Result<String, String> = render(&doc);
            assert(call_ensures(writing, (&doc,), words));
            match words {
                Err(cause) => Err(Error::Unwritable(cause)),
                Ok(toml) => {
                    let mut body: String =
                        "# rtun configuration. Managed by the admin UI; safe to hand-edit while\n# rtun is not running, and re-read on the next start.\n\n".to_owned();
                    body.append(toml.as_str());
                    Ok(body)
                },
            }
        },
    }
}

// ---------------------------------------------------------------- laws

/// Whether a reader reads back what a writer writes, under the header of the file.
pub open spec fn reads_back<W, P>(render: W, parse: P) -> bool where
    W: FnOnce(&ConfigDoc) -> Result<String, String>,
    P: FnOnce(&str) -> Result<ConfigDoc, String>,
 {
    forall|doc: &ConfigDoc, toml: String, words: &str, parsed: Result<ConfigDoc, String>|
        #[trigger] call_ensures(render, (doc,), Ok(toml)) && #[trigger] call_ensures(
            parse,
            (words,),
            parsed,
        ) && words@ == file_header() + toml@ ==> (parsed matches Ok(d) && d@ == doc@)
}

/// What is put into the file describes the configuration it was made from: names,
/// flags, the order of everything, and the offers of each peer.
pub proof fn the_file_describes_its_config(c: ConfigSpec)
    requires
        ids_are_keys(c),
    ensures
        config_of(doc_of(c)) == Ok::<ConfigSpec, Seq<char>>(c),
{
    lemma_peers_read_back(c.peers);
}

proof fn lemma_peers_read_back(s: Seq<PeerSpec>)
    requires
        forall|i: int| 0 <= i < s.len() ==> text_reads_back((#[trigger] s[i]).id.bytes),
    ensures
        peers_of(s.map_values(|p: PeerSpec| peer_doc(p))) == Ok::<Seq<PeerSpec>, Seq<char>>(s),
    decreases s.len(),
{
    let docs = s.map_values(|p: PeerSpec| peer_doc(p));
    if s.len() == 0 {
        assert(s =~= seq![]);
    } else {
        let t = s.drop_last();
        assert forall|i: int| 0 <= i < t.len() implies text_reads_back(
            (#[trigger] t[i]).id.bytes,
        ) by {
            assert(t[i] == s[i]);
        }
        lemma_peers_read_back(t);
        assert(docs.drop_last() =~= t.map_values(|p: PeerSpec| peer_doc(p)));
        assert(text_reads_back(s[s.len() - 1].id.bytes));
        assert(s =~= t.push(s.last()));
    }
}

/// The file holds each peer id as its 64-character text.
pub proof fn the_file_holds_each_id_as_text(c: ConfigSpec, i: int)
    requires
        0 <= i < c.peers.len(),
    ensures
        doc_of(c).peers[i].id == id_text(c.peers[i].id),
        doc_of(c).peers[i].id.len() == 64,
{
}

/// What is saved is what is loaded: where the reader reads back what the writer writes,
/// the text that was written for a configuration is loaded as that configuration.
pub proof fn what_is_saved_is_loaded<W, P>(
    path: Seq<char>,
    c: ConfigSpec,
    render: W,
    parse: P,
    text: String,
    r: Result<Config, Error>,
) where
    W: FnOnce(&ConfigDoc) -> Result<String, String>,
    P: FnOnce(&str) -> Result<ConfigDoc, String>,

    requires
        ids_are_keys(c),
        reads_back(render, parse),
        saved_as(c, render, Ok(text)),
        loaded_as(path, ConfigFile::Text(text), parse, r),
    ensures
        r matches Ok(cfg) && cfg@ == c,
{
    let (doc, words) = choose|doc: ConfigDoc, words: Result<String, String>|
        doc@ == doc_of(c) && #[trigger] call_ensures(render, (&doc,), words) && (words matches Ok(
            toml,
        ) && text@ == file_header() + toml@);
    let (read, parsed) = choose|read: &str, parsed: Result<ConfigDoc, String>|
        read@ == text@ && #[trigger] call_ensures(parse, (read,), parsed) && parsed_as(
            path,
            parsed,
            r,
        );
    let toml = words->Ok_0;
    assert(words == Ok::<String, String>(toml));
    assert(call_ensures(render, (&doc,), Ok::<String, String>(toml)));
    the_file_describes_its_config(c);
}

/// What is read of the file is what the file holds.
pub proof fn the_file_is_read_as_it_is(p: PeerDoc, d: ConfigDoc)
    ensures
        p@.id == p.id@ && p@.name == p.name@ && p@.enabled == p.enabled,
        p@.offers.len() == p.offers@.len(),
        forall|i: int| 0 <= i < p.offers@.len() ==> p@.offers[i] == p.offers@[i]@,
        d@.shared.len() == d.shared@.len(),
        forall|i: int| 0 <= i < d@.shared.len() ==> d@.shared[i] == d.shared@[i]@,
        d@.peers.len() == d.peers@.len(),
        forall|i: int| 0 <= i < d@.peers.len() ==> d@.peers[i] == d.peers@[i]@,
        d@.bindings.len() == d.bindings@.len(),
        forall|i: int| 0 <= i < d@.bindings.len() ==> d@.bindings[i] == d.bindings@[i]@,
{
}

/// What is written says of every entry what the entry says, under the same name: offers
/// and bindings as they are, and of each peer, in its place, its name, its offers and
/// whether it is enabled.
pub proof fn every_field_is_written_as_it_is(c: ConfigSpec, i: int)
    requires
        0 <= i < c.peers.len(),
    ensures
        doc_of(c).shared == c.shared,
        doc_of(c).bindings == c.bindings,
        doc_of(c).peers.len() == c.peers.len(),
        doc_of(c).peers[i].id == id_text(c.peers[i].id),
        doc_of(c).peers[i].name == c.peers[i].name,
        doc_of(c).peers[i].enabled == c.peers[i].enabled,
        doc_of(c).peers[i].offers == c.peers[i].offers,
{
}

proof fn lemma_peers_of_fields(s: Seq<PeerDocSpec>)
    ensures
        match peers_of(s) {
            Ok(peers) => peers.len() == s.len() && forall|i: int|
                0 <= i < s.len() ==> endpoint_id_parse(s[i].id) == Ok::<[u8; 32], Seq<char>>(
                    (#[trigger] peers[i]).id.bytes,
                ) && peers[i].name == s[i].name && peers[i].enabled == s[i].enabled
                    && peers[i].offers == s[i].offers,
            Err(why) => exists|i: int|
                0 <= i < s.len() && endpoint_id_parse((#[trigger] s[i]).id) == Err::<
                    [u8; 32],
                    Seq<char>,
                >(why) && forall|j: int|
                    0 <= j < i ==> endpoint_id_parse((#[trigger] s[j]).id) is Ok,
        },
    decreases s.len(),
{
    if s.len() > 0 {
        let t = s.drop_last();
        lemma_peers_of_fields(t);
        assert(forall|i: int| 0 <= i < t.len() ==> t[i] == s[i]);
        match peers_of(t) {
            Err(why) => {
                let i = choose|i: int|
                    0 <= i < t.len() && endpoint_id_parse((#[trigger] t[i]).id) == Err::<
                        [u8; 32],
                        Seq<char>,
                    >(why) && forall|j: int|
                        0 <= j < i ==> endpoint_id_parse((#[trigger] t[j]).id) is Ok;
                assert(s[i] == t[i]);
                assert forall|j: int| 0 <= j < i implies endpoint_id_parse(
                    (#[trigger] s[j]).id,
                ) is Ok by {
                    assert(s[j] == t[j]);
                }
            },
            Ok(peers) => {
                if endpoint_id_parse(s.last().id) is Err {
                    let i = s.len() - 1;
                    assert(s[i] == s.last());
                    assert forall|j: int| 0 <= j < i implies endpoint_id_parse(
                        (#[trigger] s[j]).id,
                    ) is Ok by {
                        assert(peers[j].name == t[j].name);
                    }
                } else {
                    let all = peers_of(s)->Ok_0;
                    assert forall|i: int| 0 <= i < s.len() implies endpoint_id_parse(s[i].id)
                        == Ok::<[u8; 32], Seq<char>>((#[trigger] all[i]).id.bytes) && all[i].name
                        == s[i].name && all[i].enabled == s[i].enabled && all[i].offers
                        == s[i].offers by {
                        if i < t.len() {
                            assert(all[i] == peers[i]);
                        }
                    }
                }
            },
        }
    }
}

/// What is read says of every entry what the file says of it, under the same name:
/// offers and bindings as they are, and of each peer, in its place, the id that its text
/// names, its name, its offers and whether it is enabled. The file is turned away exactly
/// for the first text that names no id.
pub proof fn every_field_is_read_as_it_is(d: ConfigDocSpec)
    ensures
        match config_of(d) {
            Ok(c) => {
                &&& c.shared == d.shared
                &&& c.bindings == d.bindings
                &&& c.peers.len() == d.peers.len()
                &&& forall|i: int|
                    0 <= i < d.peers.len() ==> endpoint_id_parse(d.peers[i].id) == Ok::<
                        [u8; 32],
                        Seq<char>,
                    >((#[trigger] c.peers[i]).id.bytes) && c.peers[i].name == d.peers[i].name
                        && c.peers[i].enabled == d.peers[i].enabled && c.peers[i].offers
                        == d.peers[i].offers
            },
            Err(why) => exists|i: int|
                0 <= i < d.peers.len() && endpoint_id_parse((#[trigger] d.peers[i]).id) == Err::<
                    [u8; 32],
                    Seq<char>,
                >(why) && forall|j: int|
                    0 <= j < i ==> endpoint_id_parse((#[trigger] d.peers[j]).id) is Ok,
        },
{
    lemma_peers_of_fields(d.peers);
}

/// A peer in a file that is loaded is admitted exactly when its entry says that it is
/// enabled.
pub proof fn a_loaded_peer_is_admitted_as_the_file_says(
    path: Seq<char>,
    d: ConfigDoc,
    cfg: Config,
    i: int,
)
    requires
        parsed_as(path, Ok(d), Ok(cfg)),
        0 <= i < d.peers@.len(),
    ensures
        cfg@.peers.len() == d.peers@.len(),
        endpoint_id_parse(d.peers@[i].id@) == Ok::<[u8; 32], Seq<char>>(cfg@.peers[i].id.bytes),
        crate::grants::config_admits(cfg@, cfg@.peers[i].id) == d.peers@[i].enabled,
{
    every_field_is_read_as_it_is(d@);
    assert(d@.peers[i] == d.peers@[i]@);
    let c = cfg@;
    assert(config_valid(c));
    crate::config::what_is_acceptable(c);
    crate::grants::admission_follows_the_entry(c, i, c.peers[i].id);
}

/// A file whose ids are keys, and that describes an acceptable configuration, is loaded;
/// another is turned away with what is wrong with it, and so is one that cannot be read.
/// A missing file is a configuration without entries.
pub proof fn a_file_is_loaded_exactly_when_acceptable<P>(
    path: Seq<char>,
    file: ConfigFile,
    parse: P,
    r: Result<Config, Error>,
) where P: FnOnce(&str) -> Result<ConfigDoc, String>
    requires
        loaded_as(path, file, parse, r),
    ensures
        match file {
            ConfigFile::Missing => r matches Ok(c) && c@.shared.len() == 0 && c@.peers.len() == 0
                && c@.bindings.len() == 0,
            ConfigFile::Unreadable(why) => r matches Err(Error::Unreadable { path: p, cause })
                && p@ == path && cause@ == why@,
            ConfigFile::Text(text) => exists|words: &str, parsed: Result<ConfigDoc, String>|
                words@ == text@ && #[trigger] call_ensures(parse, (words,), parsed) && match parsed {
                    Err(why) => r matches Err(Error::Unparsable { path: p, cause }) && p@ == path
                        && cause@ == why@,
                    Ok(d) => match config_of(d@) {
                        Err(why) => r matches Err(Error::Unparsable { path: p, cause }) && p@
                            == path && cause@ == why,
                        Ok(c) => (r is Ok <==> config_valid(c)) && (r matches Ok(cfg) ==> cfg@ == c)
                            && (r matches Err(e) ==> (e matches Error::FileFault { path: p, fault }
                            && p@ == path && config_fault(c) == Some(fault))),
                    },
                },
        },
{
    if let ConfigFile::Text(text) = file {
        let (words, parsed) = choose|words: &str, parsed: Result<ConfigDoc, String>|
            words@ == text@ && #[trigger] call_ensures(parse, (words,), parsed) && parsed_as(
                path,
                parsed,
                r,
            );
        if let Ok(d) = parsed {
            if let Ok(c) = config_of(d@) {
                crate::config::faults_are_exactly_invalidity(c);
            }
        }
    }
}

/// A configuration is put into words exactly when it is acceptable and its words can be
/// written; the words follow the header.
pub proof fn an_acceptable_configuration_is_saved<W>(
    c: ConfigSpec,
    render: W,
    r: Result<String, Error>,
) where W: FnOnce(&ConfigDoc) -> Result<String, String>
    requires
        saved_as(c, render, r),
    ensures
        !config_valid(c) ==> (r matches Err(Error::SaveFault(f)) && config_fault(c) == Some(f)),
        config_valid(c) ==> exists|doc: ConfigDoc, words: Result<String, String>|
            doc@ == doc_of(c) && #[trigger] call_ensures(render, (&doc,), words) && match words {
                Ok(toml) => r matches Ok(body) && body@ == file_header() + toml@,
                Err(cause) => r matches Err(Error::Unwritable(why)) && why@ == cause@,
            },
{
    crate::config::faults_are_exactly_invalidity(c);
}

/// The header is whole lines, each of which is a comment or empty.
pub proof fn the_header_is_nothing_but_comment(i: int)
    requires
        0 <= i < file_header().len(),
    ensures
        file_header().last() == '\n',
        i == 0 || file_header()[i - 1] == '\n' ==> file_header()[i] == '#' || file_header()[i]
            == '\n',
{
    reveal_strlit(
        "# rtun configuration. Managed by the admin UI; safe to hand-edit while\n# rtun is not running, and re-read on the next start.\n\n",
    );
}

} // verus!
