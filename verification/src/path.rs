//! By which path the bytes of a connection travel, and when that is said.
use crate::state::opt_text;
use vstd::prelude::*;

verus! {

/// How often a held connection restates its path, in seconds. Slow enough to be
/// quiet, often enough that a log answers "was it still direct at 03:00" without
/// inference.
pub const PATH_HEARTBEAT_SECS: u64 = 60;

/// One of the paths of a connection.
#[derive(Debug)]
pub struct PathInfo {
    pub relayed: bool,
    pub addr: String,
    pub rtt_nanos: u64,
    pub selected: bool,
}

/// The word for how a path runs.
pub open spec fn kind_word(relayed: bool) -> Seq<char> {
    if relayed {
        "relayed"@
    } else {
        "direct"@
    }
}

pub fn path_kind(relayed: bool) -> (s: &'static str)
    ensures
        s@ == kind_word(relayed),
{
    if relayed {
        "relayed"
    } else {
        "direct"
    }
}

/// On which occasion a path is reported.
#[derive(Clone, Copy, Debug, PartialEq, Eq, Structural)]
pub enum Occasion {
    Established,
    PathSelected,
    StillUp,
}

impl Occasion {
    pub open spec fn word(self) -> Seq<char> {
        match self {
            Occasion::Established => "established"@,
            Occasion::PathSelected => "path selected"@,
            Occasion::StillUp => "still up"@,
        }
    }

    pub fn as_str(self) -> (s: &'static str)
        ensures
            s@ == self.word(),
    {
        match self {
            Occasion::Established => "established",
            Occasion::PathSelected => "path selected",
            Occasion::StillUp => "still up",
        }
    }
}

/// A report on the path of a connection.
#[derive(Debug)]
pub struct PathReport {
    pub occasion: Occasion,
    /// "direct", "relayed" or "pending".
    pub path: &'static str,
    pub addr: Option<String>,
    pub rtt_nanos: Option<u64>,
}

/// What a report says.
#[verifier::ext_equal]
pub struct PathReportSpec {
    pub occasion: Occasion,
    pub path: Seq<char>,
    pub addr: Option<Seq<char>>,
    pub rtt_nanos: Option<u64>,
}

impl View for PathReport {
    type V = PathReportSpec;

    open spec fn view(&self) -> PathReportSpec {
        PathReportSpec {
            occasion: self.occasion,
            path: self.path@,
            addr: opt_text(self.addr),
            rtt_nanos: self.rtt_nanos,
        }
    }
}

impl PathReport {
    /// The round-trip time in whole milliseconds, if one is known.
    pub fn rtt_ms(&self) -> (ms: Option<u64>)
        ensures
            ms == (match self.rtt_nanos {
                Some(n) => Some(n / 1_000_000),
                None => None,
            }),
    {
        match self.rtt_nanos {
            Some(n) => Some(n / 1_000_000),
            None => None,
        }
    }
}

/// Where the first selected path stands among the paths of a connection, or their
/// number where there is none.
pub open spec fn first_selected(paths: Seq<PathInfo>) -> nat
    decreases paths.len(),
{
    if paths.len() == 0 {
        0
    } else if first_selected(paths.drop_last()) < paths.len() - 1 {
        first_selected(paths.drop_last())
    } else if paths.last().selected {
        (paths.len() - 1) as nat
    } else {
        paths.len()
    }
}

/// The report on the selected path; "pending" while there is none.
pub open spec fn selected_report(paths: Seq<PathInfo>, occasion: Occasion) -> PathReportSpec {
    let i = first_selected(paths);
    if i < paths.len() {
        PathReportSpec {
            occasion,
            path: kind_word(paths[i as int].relayed),
            addr: Some(paths[i as int].addr@),
            rtt_nanos: Some(paths[i as int].rtt_nanos),
        }
    } else {
        PathReportSpec { occasion, path: "pending"@, addr: None, rtt_nanos: None }
    }
}

/// The first selected path is selected, and none before it is.
pub proof fn first_selected_is_first(paths: Seq<PathInfo>)
    ensures
        first_selected(paths) <= paths.len(),
        first_selected(paths) < paths.len() ==> paths[first_selected(paths) as int].selected,
        forall|j: int| 0 <= j < first_selected(paths) ==> !(#[trigger] paths[j]).selected,
    decreases paths.len(),
{
    if paths.len() > 0 {
        first_selected_is_first(paths.drop_last());
        assert forall|j: int| 0 <= j < first_selected(paths) implies !(
        #[trigger] paths[j]).selected by {
            if j < paths.len() - 1 {
                assert(paths[j] == paths.drop_last()[j]);
            }
        }
    }
}

/// Reports the selected path of a connection.
pub fn log_selected(paths: &[PathInfo], occasion: Occasion) -> (r: PathReport)
    ensures
        r@ == selected_report(paths@, occasion),
{
    proof {
        first_selected_is_first(paths@);
    }
    let mut i: usize = 0;
    while i < paths.len()
        invariant
            i <= paths@.len(),
            forall|j: int| 0 <= j < i ==> !(#[trigger] paths@[j]).selected,
            first_selected(paths@) <= paths@.len(),
            first_selected(paths@) < paths@.len() ==> paths@[first_selected(
                paths@,
            ) as int].selected,
            forall|j: int| 0 <= j < first_selected(paths@) ==> !(#[trigger] paths@[j]).selected,
        decreases paths@.len() - i,
    {
        if paths[i].selected {
            assert(first_selected(paths@) == i);
            let r: PathReport = PathReport {
                occasion,
                path: path_kind(paths[i].relayed),
                addr: Some(paths[i].addr.clone()),
                rtt_nanos: Some(paths[i].rtt_nanos),
            };
            assert(r@ =~= selected_report(paths@, occasion));
            return r;
        }
        i += 1;
    }
    let r: PathReport = PathReport { occasion, path: "pending", addr: None, rtt_nanos: None };
    assert(r@ =~= selected_report(paths@, occasion));
    r
}

/// What the path reporter of a connection was told.
#[derive(Debug)]
pub enum PathEvent {
    /// Another path was selected.
    Selected { relayed: bool, addr: String },
    /// Something else happened to the paths.
    Other,
    /// The connection is over.
    Ended,
    /// It is time to restate the path.
    Tick,
}

/// What the path reporter does next.
#[derive(Debug)]
pub enum PathStep {
    Report(PathReport),
    Ignore,
    Stop,
}

/// One turn of the path reporter: every upgrade is reported, and the path is restated
/// while the connection is held. Direct versus relayed is the single most useful
/// diagnostic there is.
pub fn report_path(event: PathEvent, paths: &[PathInfo]) -> (step: PathStep)
    ensures
        match event {
            PathEvent::Selected { relayed, addr } => step matches PathStep::Report(r) && r@ == (
            PathReportSpec {
                occasion: Occasion::PathSelected,
                path: kind_word(relayed),
                addr: Some(addr@),
                rtt_nanos: None,
            }),
            PathEvent::Other => step is Ignore,
            PathEvent::Ended => step is Stop,
            PathEvent::Tick => step matches PathStep::Report(r) && r@ == selected_report(
                paths@,
                Occasion::StillUp,
            ),
        },
{
    match event {
        PathEvent::Selected { relayed, addr } => {
            let r: PathReport = PathReport {
                occasion: Occasion::PathSelected,
                path: path_kind(relayed),
                addr: Some(addr),
                rtt_nanos: None,
            };
            PathStep::Report(r)
        },
        PathEvent::Other => PathStep::Ignore,
        PathEvent::Ended => PathStep::Stop,
        PathEvent::Tick => PathStep::Report(log_selected(paths, Occasion::StillUp)),
    }
}

// ---------------------------------------------------------------- laws

/// The path that is reported is the first selected one, with its address and its
/// round-trip time, as relayed exactly when it runs over a relay; while none is selected
/// it is pending, and nothing more is said.
pub proof fn the_selected_path_is_reported(paths: Seq<PathInfo>, occasion: Occasion, i: int)
    ensures
        selected_report(paths, occasion).occasion == occasion,
        0 <= i < paths.len() && paths[i].selected && (forall|j: int|
            0 <= j < i ==> !(#[trigger] paths[j]).selected) ==> {
            let r = selected_report(paths, occasion);
            &&& r.path == (if paths[i].relayed {
                "relayed"@
            } else {
                "direct"@
            })
            &&& r.addr == Some(paths[i].addr@)
            &&& r.rtt_nanos == Some(paths[i].rtt_nanos)
        },
        (forall|j: int| 0 <= j < paths.len() ==> !(#[trigger] paths[j]).selected) ==> {
            let r = selected_report(paths, occasion);
            r.path == "pending"@ && r.addr is None && r.rtt_nanos is None
        },
{
    first_selected_is_first(paths);
}

/// What is read of a report is what the report holds.
pub proof fn path_reports_are_read_as_they_are(r: PathReport)
    ensures
        r@.occasion == r.occasion && r@.path == r.path@ && r@.rtt_nanos == r.rtt_nanos,
        r.addr is None <==> r@.addr is None,
        r.addr matches Some(a) ==> r@.addr == Some(a@),
{
}

} // verus!
