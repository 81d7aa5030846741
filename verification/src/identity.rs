//! Where state is kept, and the keypair kept there.
use crate::endpoint::{fresh_secret, generated};
use crate::error::Error;
use vstd::prelude::*;

verus! {

/// Where a platform keeps per-user state.
#[derive(Clone, Copy, Debug, PartialEq, Eq, Structural)]
pub enum Platform {
    Unix,
    Windows,
}

/// A path: a directory, and what is joined to it, one after the other.
#[derive(Debug)]
pub struct StatePath {
    pub base: String,
    pub parts: Vec<String>,
}

/// What a path says.
#[verifier::ext_equal]
pub struct StatePathSpec {
    pub base: Seq<char>,
    pub parts: Seq<Seq<char>>,
}

impl View for StatePath {
    type V = StatePathSpec;

    open spec fn view(&self) -> StatePathSpec {
        StatePathSpec { base: self.base@, parts: self.parts@.map_values(|s: String| s@) }
    }
}

pub open spec fn joined(p: StatePathSpec, part: Seq<char>) -> StatePathSpec {
    StatePathSpec { base: p.base, parts: p.parts.push(part) }
}

/// A directory named outright.
pub open spec fn plain_path(base: Seq<char>) -> StatePathSpec {
    StatePathSpec { base, parts: seq![] }
}

/// An environment variable counts when it is set to something.
pub open spec fn set_to(v: Option<&str>) -> Option<Seq<char>> {
    match v {
        Some(s) => if s@.len() > 0 {
            Some(s@)
        } else {
            None
        },
        None => None,
    }
}

/// The state directory: the program's own variable, else the service manager's,
/// else the platform's place below the user's directory.
pub open spec fn state_dir_of(
    rtun_state_dir: Option<&str>,
    state_directory: Option<&str>,
    user_dir: Option<&str>,
    platform: Platform,
) -> Option<StatePathSpec> {
    match (set_to(rtun_state_dir), set_to(state_directory), user_dir) {
        (Some(d), _, _) => Some(plain_path(d)),
        (None, Some(d), _) => Some(plain_path(d)),
        (None, None, Some(d)) => Some(
            joined(
                match platform {
                    Platform::Unix => joined(plain_path(d@), ".local/state"@),
                    Platform::Windows => plain_path(d@),
                },
                "rtun"@,
            ),
        ),
        (None, None, None) => None,
    }
}

impl StatePath {
    fn plain(base: &str) -> (p: StatePath)
        ensures
            p@ == plain_path(base@),
    {
        let p: StatePath = StatePath { base: base.to_owned(), parts: Vec::new() };
        assert(p@ =~= plain_path(base@));
        p
    }

    /// The path of an entry of this directory.
    pub fn join(self, part: &str) -> (p: StatePath)
        ensures
            p@ == joined(self@, part@),
    {
        let ghost before = self@;
        let mut parts: Vec<String> = self.parts;
        parts.push(part.to_owned());
        let p: StatePath = StatePath { base: self.base, parts };
        assert(p@ =~= joined(before, part@));
        p
    }
}

/// Where the persisted secret key lives. `RTUN_STATE_DIR` overrides everything,
/// which is also how two roles share one machine; a systemd `StateDirectory` shows
/// up as `STATE_DIRECTORY`. `user_dir` is `HOME`, or `APPDATA` on Windows.
pub fn state_dir(
    rtun_state_dir: Option<&str>,
    state_directory: Option<&str>,
    user_dir: Option<&str>,
    platform: Platform,
) -> (r: Result<StatePath, Error>)
    ensures
        match r {
            Ok(p) => state_dir_of(rtun_state_dir, state_directory, user_dir, platform) == Some(p@),
            Err(e) => state_dir_of(rtun_state_dir, state_directory, user_dir, platform) is None && e
                is NoStateDir,
        },
{
    if let Some(d) = rtun_state_dir {
        if !d.is_empty() {
            return Ok(StatePath::plain(d));
        }
    }
    if let Some(d) = state_directory {
        if !d.is_empty() {
            return Ok(StatePath::plain(d));
        }
    }
    match user_dir {
        None => Err(Error::NoStateDir),
        Some(d) => {
            let base: StatePath = match platform {
                Platform::Unix => StatePath::plain(d).join(".local/state"),
                Platform::Windows => StatePath::plain(d),
            };
            Ok(base.join("rtun"))
        },
    }
}

/// The configuration file, in the state directory.
pub fn config_path(
    rtun_state_dir: Option<&str>,
    state_directory: Option<&str>,
    user_dir: Option<&str>,
    platform: Platform,
) -> (r: Result<StatePath, Error>)
    ensures
        match r {
            Ok(p) => state_dir_of(rtun_state_dir, state_directory, user_dir, platform) matches Some(d)
                && p@ == joined(d, "config.toml"@),
            Err(e) => state_dir_of(rtun_state_dir, state_directory, user_dir, platform) is None && e
                is NoStateDir,
        },
{
    match state_dir(rtun_state_dir, state_directory, user_dir, platform) {
        Ok(d) => Ok(d.join("config.toml")),
        Err(e) => Err(e),
    }
}

/// What reading the key file gave.
#[derive(Debug)]
pub enum KeyFile {
    Bytes(Vec<u8>),
    Missing,
    Unreadable(String),
}

/// What becomes of the key file.
#[derive(Debug)]
pub enum KeyStep {
    /// The file holds the key.
    Keep([u8; 32]),
    /// There is no file; this key is to be written to it.
    Create([u8; 32]),
}

/// The endpoint's identity is its keypair, so it is generated once and kept: only
/// a file that is not there is replaced by a new key, never one that is damaged.
pub fn load_or_create_key(path: &str, file: KeyFile) -> (r: Result<KeyStep, Error>)
    ensures
        match file {
            KeyFile::Bytes(v) => if v@.len() == 32 {
                r matches Ok(KeyStep::Keep(key)) && key@ == v@
            } else {
                r matches Err(Error::KeyLength(p)) && p@ == path@
            },
            KeyFile::Missing => r matches Ok(KeyStep::Create(key)) && generated(key),
            KeyFile::Unreadable(why) => r matches Err(Error::Unreadable { path: p, cause }) && p@
                == path@ && cause == why,
        },
{
    match file {
        KeyFile::Bytes(v) => {
            if v.len() != 32 {
                return Err(Error::KeyLength(path.to_owned()));
            }
            let mut key: [u8; 32] = [0u8;32];
            let mut i: usize = 0;
            while i < 32
                invariant
                    i <= 32,
                    v@.len() == 32,
                    forall|j: int| 0 <= j < i ==> key@[j] == v@[j],
                decreases 32 - i,
            {
                key[i] = v[i];
                i += 1;
            }
            assert(key@ =~= v@);
            Ok(KeyStep::Keep(key))
        },
        KeyFile::Missing => Ok(KeyStep::Create(fresh_secret())),
        KeyFile::Unreadable(cause) => Err(Error::Unreadable { path: path.to_owned(), cause }),
    }
}

// ---------------------------------------------------------------- laws

/// Whether an environment variable is set to something.
pub open spec fn is_set(v: Option<&str>) -> bool {
    v matches Some(s) && s@.len() > 0
}

/// The program's own variable settles where state is kept, whatever else is set; without
/// it the service manager's does; without either it is below the user's directory, in
/// the place that the platform has for it, and nowhere if that is not known.
pub proof fn the_own_variable_comes_first(
    own: Option<&str>,
    service: Option<&str>,
    user: Option<&str>,
    platform: Platform,
)
    ensures
        is_set(own) ==> (state_dir_of(own, service, user, platform) matches Some(d) && own matches Some(
            s,
        ) && d.base == s@ && d.parts.len() == 0),
        !is_set(own) && is_set(service) ==> (state_dir_of(own, service, user, platform) matches Some(
            d,
        ) && service matches Some(s) && d.base == s@ && d.parts.len() == 0),
        !is_set(own) && !is_set(service) ==> match user {
            None => state_dir_of(own, service, user, platform) is None,
            Some(u) => state_dir_of(own, service, user, platform) matches Some(d) && d.base == u@
                && d.parts == (match platform {
                Platform::Unix => seq![".local/state"@, "rtun"@],
                Platform::Windows => seq!["rtun"@],
            }),
        },
{
    if !is_set(own) && !is_set(service) {
        if let Some(u) = user {
            let d = state_dir_of(own, service, user, platform)->Some_0;
            match platform {
                Platform::Unix => {
                    assert(d.parts =~= seq![".local/state"@, "rtun"@]);
                },
                Platform::Windows => {
                    assert(d.parts =~= seq!["rtun"@]);
                },
            }
        }
    }
}

/// Joining puts one part at the end of a path.
pub proof fn joining_appends_a_part(p: StatePathSpec, part: Seq<char>)
    ensures
        joined(p, part).base == p.base,
        joined(p, part).parts.len() == p.parts.len() + 1,
        joined(p, part).parts.last() == part,
        forall|i: int| 0 <= i < p.parts.len() ==> joined(p, part).parts[i] == p.parts[i],
{
}

} // verus!
