//! Progress of one install pipeline, and the request check that starts one.
//!
//! A pipeline runs `Idle -> Cleaning -> Installing -> Idle`. Starting one
//! resets the counters; a start while another pipeline is active is
//! refused and changes nothing. Within a pipeline the counters only grow.

use crate::resolve::string_views;
use crate::text::ends_with;
use vstd::prelude::*;

verus! {

/// Name of the folder an install location must end with.
pub const TARGET_FOLDER: &'static str = "Plugins";

#[derive(Debug, Clone, Copy, PartialEq, Eq, Structural)]
pub enum Phase {
    Idle,
    Cleaning,
    Installing,
}

/// Why an install request was refused.
#[derive(Debug, Clone, Copy, PartialEq, Eq, Structural)]
pub enum InstallError {
    /// The location does not end with the target folder.
    InvalidLocation,
    /// Another install is still running.
    InProgress,
}

/// What a poll of the progress returns.
#[derive(Debug, Clone, PartialEq, Eq)]
pub struct ProgressSnapshot {
    pub cleaning_count: usize,
    pub cleaning_max: usize,
    pub installed_count: usize,
    pub installed_max: usize,
    pub files_cleaned: Vec<String>,
    pub files_copied: Vec<String>,
}

/// The state of a tracker.
pub struct ProgressView {
    pub phase: Phase,
    pub cleaning_max: nat,
    /// The cleaning maximum of this run has been set.
    pub cleaning_max_fixed: bool,
    pub installed_max: nat,
    pub files_cleaned: Seq<Seq<char>>,
    pub files_copied: Seq<Seq<char>>,
}

impl ProgressView {
    pub open spec fn cleaning_count(self) -> nat {
        self.files_cleaned.len()
    }

    pub open spec fn installed_count(self) -> nat {
        self.files_copied.len()
    }
}

/// One change that a running pipeline reports.
pub enum ProgressEvent {
    /// The number of destination entries cleanup will visit; only the
    /// first one of a run counts.
    CleaningMax(nat),
    /// Cleanup visited an entry with this name.
    Visited(Seq<char>),
    /// Cleanup is over; this many source paths will be installed.
    Installing(nat),
    /// A source path with this display name was installed.
    Installed(Seq<char>),
    /// The pipeline is over.
    Finished,
}

/// The state of a pipeline that has just started.
pub open spec fn started() -> ProgressView {
    ProgressView {
        phase: Phase::Cleaning,
        cleaning_max: 0,
        cleaning_max_fixed: false,
        installed_max: 0,
        files_cleaned: Seq::empty(),
        files_copied: Seq::empty(),
    }
}

/// The state after event `e`. An event that does not fit the phase changes
/// nothing; the cleaning maximum is set once per run, before the first
/// visit.
pub open spec fn after(m: ProgressView, e: ProgressEvent) -> ProgressView {
    match e {
        ProgressEvent::CleaningMax(x) => if m.phase == Phase::Cleaning && !m.cleaning_max_fixed
            && m.files_cleaned.len() == 0 {
            ProgressView { cleaning_max: x, cleaning_max_fixed: true, ..m }
        } else {
            m
        },
        ProgressEvent::Visited(n) => if m.phase == Phase::Cleaning {
            ProgressView { files_cleaned: m.files_cleaned.push(n), ..m }
        } else {
            m
        },
        ProgressEvent::Installing(x) => if m.phase == Phase::Cleaning {
            ProgressView { phase: Phase::Installing, installed_max: x, ..m }
        } else {
            m
        },
        ProgressEvent::Installed(n) => if m.phase == Phase::Installing {
            ProgressView { files_copied: m.files_copied.push(n), ..m }
        } else {
            m
        },
        ProgressEvent::Finished => ProgressView { phase: Phase::Idle, ..m },
    }
}

/// The state after the events `es`, in order.
pub open spec fn run(m: ProgressView, es: Seq<ProgressEvent>) -> ProgressView
    decreases es.len(),
{
    if es.len() == 0 {
        m
    } else {
        after(run(m, es.drop_last()), es.last())
    }
}

/// A state that a run can reach: an unset cleaning maximum is still zero,
/// and no installing maximum is set while cleaning.
pub open spec fn consistent(m: ProgressView) -> bool {
    &&& !m.cleaning_max_fixed ==> m.cleaning_max == 0
    &&& m.phase == Phase::Cleaning ==> m.installed_max == 0
}

/// `b` holds everything `a` holds: no count, maximum or list has shrunk.
pub open spec fn progressed(a: ProgressView, b: ProgressView) -> bool {
    &&& a.cleaning_count() <= b.cleaning_count()
    &&& a.installed_count() <= b.installed_count()
    &&& a.cleaning_max <= b.cleaning_max
    &&& a.installed_max <= b.installed_max
    &&& b.files_cleaned.take(a.files_cleaned.len() as int) == a.files_cleaned
    &&& b.files_copied.take(a.files_copied.len() as int) == a.files_copied
}

/// Events keep a state consistent, and a run starts consistent.
pub proof fn lemma_after_consistent(m: ProgressView, e: ProgressEvent)
    requires
        consistent(m),
    ensures
        consistent(after(m, e)),
{
}

/// Within a pipeline no count, maximum or list goes down: from a state a
/// run can reach, whatever events follow, the state after them holds every
/// file recorded before and maxima at least as large.
pub proof fn lemma_counts_monotone(m: ProgressView, es: Seq<ProgressEvent>)
    requires
        consistent(m),
    ensures
        progressed(m, run(m, es)),
        consistent(run(m, es)),
    decreases es.len(),
{
    if es.len() == 0 {
        assert(m.files_cleaned.take(m.files_cleaned.len() as int) == m.files_cleaned);
        assert(m.files_copied.take(m.files_copied.len() as int) == m.files_copied);
    } else {
        lemma_counts_monotone(m, es.drop_last());
        let p = run(m, es.drop_last());
        let q = after(p, es.last());
        assert(q.files_cleaned.take(p.files_cleaned.len() as int) == p.files_cleaned);
        assert(q.files_copied.take(p.files_copied.len() as int) == p.files_copied);
        assert(q.files_cleaned.take(m.files_cleaned.len() as int) == p.files_cleaned.take(
            m.files_cleaned.len() as int,
        ));
        assert(q.files_copied.take(m.files_copied.len() as int) == p.files_copied.take(
            m.files_copied.len() as int,
        ));
    }
}

/// Counters and lists of the running (or last) install pipeline.
pub struct ProgressTracker {
    phase: Phase,
    cleaning_max: usize,
    cleaning_max_fixed: bool,
    installed_max: usize,
    files_cleaned: Vec<String>,
    files_copied: Vec<String>,
}

impl View for ProgressTracker {
    type V = ProgressView;

    closed spec fn view(&self) -> ProgressView {
        ProgressView {
            phase: self.phase,
            cleaning_max: self.cleaning_max as nat,
            cleaning_max_fixed: self.cleaning_max_fixed,
            installed_max: self.installed_max as nat,
            files_cleaned: string_views(self.files_cleaned@),
            files_copied: string_views(self.files_copied@),
        }
    }
}

impl ProgressTracker {
    /// An idle tracker with nothing recorded.
    pub fn new() -> (r: ProgressTracker)
        ensures
            r@ == (ProgressView { phase: Phase::Idle, ..started() }),
            consistent(r@),
    {
        let r = ProgressTracker {
            phase: Phase::Idle,
            cleaning_max: 0,
            cleaning_max_fixed: false,
            installed_max: 0,
            files_cleaned: Vec::new(),
            files_copied: Vec::new(),
        };
        assert(r@.files_cleaned =~= Seq::<Seq<char>>::empty());
        assert(r@.files_copied =~= Seq::<Seq<char>>::empty());
        r
    }

    pub fn phase(&self) -> (r: Phase)
        ensures
            r == self@.phase,
    {
        self.phase
    }

    /// Accepts or refuses an install request to `location`. A location that
    /// does not end with the target folder is refused first; then a request
    /// while a pipeline is active. A refusal changes nothing. An accepted
    /// request resets every counter and list, enters the cleaning phase and
    /// returns the all-zero snapshot.
    pub fn begin_install(&mut self, location: &str) -> (r: Result<ProgressSnapshot, InstallError>)
        ensures
            !has_target_suffix(location@) ==> r == Err::<ProgressSnapshot, InstallError>(
                InstallError::InvalidLocation,
            ) && final(self)@ == old(self)@,
            has_target_suffix(location@) && old(self)@.phase != Phase::Idle ==> r == Err::<
                ProgressSnapshot,
                InstallError,
            >(InstallError::InProgress) && final(self)@ == old(self)@,
            has_target_suffix(location@) && old(self)@.phase == Phase::Idle ==> r is Ok
                && final(self)@ == started() && snapshot_matches(r->Ok_0, started()),
    {
        if !ends_with(location, TARGET_FOLDER) {
            return Err(InstallError::InvalidLocation);
        }
        match self.phase {
            Phase::Idle => {},
            _ => {
                return Err(InstallError::InProgress);
            },
        }
        self.phase = Phase::Cleaning;
        self.cleaning_max = 0;
        self.cleaning_max_fixed = false;
        self.installed_max = 0;
        self.files_cleaned = Vec::new();
        self.files_copied = Vec::new();
        assert(self@.files_cleaned =~= Seq::<Seq<char>>::empty());
        assert(self@.files_copied =~= Seq::<Seq<char>>::empty());
        Ok(self.snapshot())
    }

    /// Fixes the number of entries cleanup will visit: only the first call
    /// of a run, before the first visit, has an effect.
    pub fn set_cleaning_max(&mut self, max: usize)
        ensures
            final(self)@ == after(old(self)@, ProgressEvent::CleaningMax(max as nat)),
    {
        match self.phase {
            Phase::Cleaning => {
                if !self.cleaning_max_fixed && self.files_cleaned.len() == 0 {
                    self.cleaning_max = max;
                    self.cleaning_max_fixed = true;
                }
            },
            _ => {},
        }
    }

    /// Records a destination entry that cleanup visited.
    pub fn record_cleaned(&mut self, name: String)
        ensures
            final(self)@ == after(old(self)@, ProgressEvent::Visited(name@)),
    {
        match self.phase {
            Phase::Cleaning => {
                let ghost before = self@;
                self.files_cleaned.push(name);
                assert(self@.files_cleaned =~= before.files_cleaned.push(name@));
            },
            _ => {},
        }
    }

    /// Ends cleanup: `max` source paths are to be installed.
    pub fn begin_installing(&mut self, max: usize)
        ensures
            final(self)@ == after(old(self)@, ProgressEvent::Installing(max as nat)),
    {
        match self.phase {
            Phase::Cleaning => {
                self.phase = Phase::Installing;
                self.installed_max = max;
            },
            _ => {},
        }
    }

    /// Records a source path that was installed, by its display name.
    pub fn record_installed(&mut self, name: String)
        ensures
            final(self)@ == after(old(self)@, ProgressEvent::Installed(name@)),
    {
        match self.phase {
            Phase::Installing => {
                let ghost before = self@;
                self.files_copied.push(name);
                assert(self@.files_copied =~= before.files_copied.push(name@));
            },
            _ => {},
        }
    }

    /// Ends the pipeline; what it recorded stays readable.
    pub fn finish(&mut self)
        ensures
            final(self)@ == after(old(self)@, ProgressEvent::Finished),
    {
        self.phase = Phase::Idle;
    }

    /// The current counters and lists, by value.
    pub fn snapshot(&self) -> (r: ProgressSnapshot)
        ensures
            snapshot_matches(r, self@),
    {
        let cleaned = self.files_cleaned.clone();
        let copied = self.files_copied.clone();
        assert(string_views(cleaned@) =~= string_views(self.files_cleaned@));
        assert(string_views(copied@) =~= string_views(self.files_copied@));
        ProgressSnapshot {
            cleaning_count: self.files_cleaned.len(),
            cleaning_max: self.cleaning_max,
            installed_count: self.files_copied.len(),
            installed_max: self.installed_max,
            files_cleaned: cleaned,
            files_copied: copied,
        }
    }
}

/// `location` ends with the target folder.
pub open spec fn has_target_suffix(location: Seq<char>) -> bool {
    crate::text::has_suffix(location, TARGET_FOLDER@)
}

/// The snapshot `s` shows the state `m`.
pub open spec fn snapshot_matches(s: ProgressSnapshot, m: ProgressView) -> bool {
    &&& s.cleaning_count == m.cleaning_count()
    &&& s.cleaning_max == m.cleaning_max
    &&& s.installed_count == m.installed_count()
    &&& s.installed_max == m.installed_max
    &&& string_views(s.files_cleaned@) == m.files_cleaned
    &&& string_views(s.files_copied@) == m.files_copied
}

} // verus!
