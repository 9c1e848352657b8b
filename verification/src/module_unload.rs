//! The forced unload of one module: release requests one at a time, each
//! followed by a fresh module inventory, and never a second request
//! without an inventory that still maps the module.
use vstd::prelude::*;
use crate::module_list::views;
use crate::modules::{ModuleView, ProcessModule};
use crate::text::{eq_ignore_ascii_case, same_ignoring_ascii_case};

verus! {

/// The most release requests one forced unload issues.
pub const MAX_FORCE_UNLOAD_RELEASES: u32 = 64;

/// Whether the inventory `ms` still maps the module at `base` loaded from
/// `path` (paths compared ignoring ASCII case).
pub open spec fn maps_module(ms: Seq<ModuleView>, base: u64, path: Seq<char>) -> bool {
    exists|i: int|
        0 <= i < ms.len() && #[trigger] ms[i].base_address == base && same_ignoring_ascii_case(
            ms[i].path,
            path,
        )
}

/// Whether `modules` still maps the module at `base` loaded from `path`.
pub fn still_mapped(modules: &[ProcessModule], base: u64, path: &str) -> (b: bool)
    ensures
        b == maps_module(views(modules@), base, path@),
{
    let mut i: usize = 0;
    while i < modules.len()
        invariant
            i <= modules@.len(),
            forall|j: int|
                0 <= j < i ==> !(#[trigger] views(modules@)[j].base_address == base
                    && same_ignoring_ascii_case(views(modules@)[j].path, path@)),
        decreases modules@.len() - i,
    {
        let m = &modules[i];
        proof {
            assert(views(modules@)[i as int] == m@);
        }
        if m.base_address == base && eq_ignore_ascii_case(m.path.as_str(), path) {
            proof {
                let ms = views(modules@);
                assert(ms[i as int].base_address == base && same_ignoring_ascii_case(ms[i as int].path, path@));
            }
            return true;
        }
        i = i + 1;
    }
    false
}

/// What a forced unload is waiting for.
#[derive(Debug, Clone, Copy, PartialEq, Eq, Structural)]
pub enum UnloadWait {
    /// The answer to a release request.
    Release,
    /// A fresh inventory after a release request that went through.
    InventoryAfterRelease,
    /// A fresh inventory after a release request that failed.
    InventoryAfterError,
    /// Nothing: the run is over.
    Done,
}

/// What the platform answered.
#[derive(Debug, Clone, PartialEq, Eq)]
pub enum UnloadEvent {
    /// One release request went through; the platform may have seen
    /// whether the module is still mapped.
    Released(Option<bool>),
    /// The release request failed with this error.
    ReleaseFailed(String),
    /// A fresh inventory, and whether it still maps the module.
    Listed(bool),
    /// The inventory could not be read.
    ListFailed(String),
}

/// How a forced unload ended.
#[derive(Debug, Clone, PartialEq, Eq)]
pub enum UnloadOutcome {
    /// The last inventory no longer maps the module.
    Unloaded,
    /// A release request failed with this error.
    ActionError(String),
    /// The inventory could not be refreshed after this many releases.
    RefreshFailed { releases: u32, error: String },
    /// The module is still mapped after this many releases.
    StillMapped { releases: u32 },
    /// Nothing conclusive was observed.
    Failed,
}

/// What the caller does next.
#[derive(Debug, Clone, PartialEq, Eq)]
pub enum UnloadAction {
    /// Issue one release request.
    Release,
    /// Enumerate the process's modules again.
    List,
    /// Report the result; the run is over.
    Finish(UnloadOutcome),
}

/// What a forced unload has seen so far.
pub struct UnloadState {
    /// Release requests issued.
    pub attempts: u32,
    /// Release requests that went through.
    pub releases: u32,
    /// What the last inventory showed.
    pub observed: Option<bool>,
    /// What the last release that went through reported.
    pub reported: Option<bool>,
    pub action_error: Option<Seq<char>>,
    pub refresh_error: Option<Seq<char>>,
    pub wait: UnloadWait,
}

/// A forced unload in progress.
pub struct ForceUnload {
    attempts: u32,
    releases: u32,
    observed: Option<bool>,
    reported: Option<bool>,
    action_error: Option<String>,
    refresh_error: Option<String>,
    wait: UnloadWait,
}

/// The text an optional message holds, as characters.
pub open spec fn text_of(t: Option<String>) -> Option<Seq<char>> {
    match t {
        Some(s) => Some(s@),
        None => None,
    }
}

impl View for ForceUnload {
    type V = UnloadState;

    closed spec fn view(&self) -> UnloadState {
        UnloadState {
            attempts: self.attempts,
            releases: self.releases,
            observed: self.observed,
            reported: self.reported,
            action_error: text_of(self.action_error),
            refresh_error: text_of(self.refresh_error),
            wait: self.wait,
        }
    }
}

/// The report a run that has seen `s` ends with: an inventory without the
/// module wins, then a failed request, then a failed inventory, then an
/// inventory that still maps it.
pub open spec fn outcome_of(o: UnloadOutcome, s: UnloadState) -> bool {
    if s.observed == Some(false) {
        o is Unloaded
    } else if s.action_error is Some {
        o matches UnloadOutcome::ActionError(e) && Some(e@) == s.action_error
    } else if s.refresh_error is Some {
        o matches UnloadOutcome::RefreshFailed { releases, error } && releases == s.releases && Some(
            error@,
        ) == s.refresh_error
    } else if s.observed == Some(true) {
        o matches UnloadOutcome::StillMapped { releases } && releases == s.releases
    } else {
        o is Failed
    }
}

/// The action that answers what `s` waits for.
pub open spec fn awaited(a: UnloadAction, s: UnloadState) -> bool {
    match s.wait {
        UnloadWait::Release => a is Release,
        UnloadWait::InventoryAfterRelease | UnloadWait::InventoryAfterError => a is List,
        UnloadWait::Done => a matches UnloadAction::Finish(o) && outcome_of(o, s),
    }
}

/// Whether `e` answers what `s` waits for.
pub open spec fn answers(e: UnloadEvent, s: UnloadState) -> bool {
    match s.wait {
        UnloadWait::Release => e is Released || e is ReleaseFailed,
        UnloadWait::InventoryAfterRelease | UnloadWait::InventoryAfterError => e is Listed || e is ListFailed,
        UnloadWait::Done => false,
    }
}

/// The state after `e` answers what `s` waits for.
pub open spec fn after(s: UnloadState, e: UnloadEvent) -> UnloadState {
    match e {
        UnloadEvent::Released(r) => UnloadState {
            attempts: (s.attempts + 1) as u32,
            releases: (s.releases + 1) as u32,
            reported: r,
            wait: UnloadWait::InventoryAfterRelease,
            ..s
        },
        UnloadEvent::ReleaseFailed(err) => UnloadState {
            attempts: (s.attempts + 1) as u32,
            action_error: Some(err@),
            wait: UnloadWait::InventoryAfterError,
            ..s
        },
        UnloadEvent::Listed(still) => UnloadState {
            observed: Some(still),
            wait: if s.wait == UnloadWait::InventoryAfterRelease && still && s.attempts
                < MAX_FORCE_UNLOAD_RELEASES {
                UnloadWait::Release
            } else {
                UnloadWait::Done
            },
            ..s
        },
        UnloadEvent::ListFailed(err) => UnloadState {
            refresh_error: Some(err@),
            observed: if s.wait == UnloadWait::InventoryAfterRelease {
                s.reported
            } else {
                s.observed
            },
            wait: UnloadWait::Done,
            ..s
        },
    }
}

fn copy_text(t: &Option<String>) -> (c: Option<String>)
    ensures
        text_of(c) == text_of(*t),
{
    match t {
        Some(s) => Some(s.clone()),
        None => None,
    }
}

impl ForceUnload {
    #[verifier::type_invariant]
    closed spec fn counted(self) -> bool {
        &&& self.attempts <= MAX_FORCE_UNLOAD_RELEASES
        &&& self.releases <= self.attempts
        &&& self.wait == UnloadWait::Release ==> self.attempts < MAX_FORCE_UNLOAD_RELEASES
    }

    /// A new run and its first action: one release request.
    pub fn start() -> (r: (ForceUnload, UnloadAction))
        ensures
            r.0@.attempts == 0,
            r.0@.releases == 0,
            r.0@.observed is None,
            r.0@.reported is None,
            r.0@.action_error is None,
            r.0@.refresh_error is None,
            r.0@.wait == UnloadWait::Release,
            r.1 is Release,
    {
        (
            ForceUnload {
                attempts: 0,
                releases: 0,
                observed: None,
                reported: None,
                action_error: None,
                refresh_error: None,
                wait: UnloadWait::Release,
            },
            UnloadAction::Release,
        )
    }

    /// Whether the run is over.
    pub fn is_done(&self) -> (b: bool)
        ensures
            b == (self@.wait == UnloadWait::Done),
    {
        self.wait == UnloadWait::Done
    }

    /// Release requests that went through so far.
    pub fn releases(&self) -> (n: u32)
        ensures
            n == self@.releases,
    {
        self.releases
    }

    fn outcome(&self) -> (o: UnloadOutcome)
        ensures
            outcome_of(o, self@),
    {
        if self.observed == Some(false) {
            UnloadOutcome::Unloaded
        } else if let Some(e) = &self.action_error {
            UnloadOutcome::ActionError(e.clone())
        } else if let Some(e) = &self.refresh_error {
            UnloadOutcome::RefreshFailed { releases: self.releases, error: e.clone() }
        } else if self.observed == Some(true) {
            UnloadOutcome::StillMapped { releases: self.releases }
        } else {
            UnloadOutcome::Failed
        }
    }

    /// What the run waits for, asked again.
    fn pending(&self) -> (a: UnloadAction)
        ensures
            awaited(a, self@),
    {
        match self.wait {
            UnloadWait::Release => UnloadAction::Release,
            UnloadWait::InventoryAfterRelease | UnloadWait::InventoryAfterError => UnloadAction::List,
            UnloadWait::Done => UnloadAction::Finish(self.outcome()),
        }
    }

    /// Takes the platform's answer and says what to do next. An answer to
    /// something the run does not wait for changes nothing and the pending
    /// action is asked again. A release is asked for again only after an
    /// inventory that still maps the module, and never more than
    /// [`MAX_FORCE_UNLOAD_RELEASES`] times in one run.
    pub fn step(&mut self, event: UnloadEvent) -> (a: UnloadAction)
        ensures
            answers(event, old(self)@) ==> final(self)@ == after(old(self)@, event),
            !answers(event, old(self)@) ==> final(self)@ == old(self)@,
            awaited(a, final(self)@),
            final(self)@.attempts <= MAX_FORCE_UNLOAD_RELEASES,
            final(self)@.releases <= final(self)@.attempts,
            answers(event, old(self)@) && a is Release ==> event == UnloadEvent::Listed(true)
                && old(self)@.wait == UnloadWait::InventoryAfterRelease,
    {
        proof {
            use_type_invariant(&*self);
        }
        let wait = self.wait;
        match (wait, event) {
            (UnloadWait::Release, UnloadEvent::Released(r)) => {
                *self = ForceUnload {
                    attempts: self.attempts + 1,
                    releases: self.releases + 1,
                    observed: self.observed,
                    reported: r,
                    action_error: copy_text(&self.action_error),
                    refresh_error: copy_text(&self.refresh_error),
                    wait: UnloadWait::InventoryAfterRelease,
                };
            },
            (UnloadWait::Release, UnloadEvent::ReleaseFailed(err)) => {
                *self = ForceUnload {
                    attempts: self.attempts + 1,
                    releases: self.releases,
                    observed: self.observed,
                    reported: self.reported,
                    action_error: Some(err),
                    refresh_error: copy_text(&self.refresh_error),
                    wait: UnloadWait::InventoryAfterError,
                };
            },
            (UnloadWait::InventoryAfterRelease, UnloadEvent::Listed(still))
            | (UnloadWait::InventoryAfterError, UnloadEvent::Listed(still)) => {
                let again = wait == UnloadWait::InventoryAfterRelease && still && self.attempts
                    < MAX_FORCE_UNLOAD_RELEASES;
                *self = ForceUnload {
                    attempts: self.attempts,
                    releases: self.releases,
                    observed: Some(still),
                    reported: self.reported,
                    action_error: copy_text(&self.action_error),
                    refresh_error: copy_text(&self.refresh_error),
                    wait: if again {
                        UnloadWait::Release
                    } else {
                        UnloadWait::Done
                    },
                };
            },
            (UnloadWait::InventoryAfterRelease, UnloadEvent::ListFailed(err))
            | (UnloadWait::InventoryAfterError, UnloadEvent::ListFailed(err)) => {
                let observed = if wait == UnloadWait::InventoryAfterRelease {
                    self.reported
                } else {
                    self.observed
                };
                *self = ForceUnload {
                    attempts: self.attempts,
                    releases: self.releases,
                    observed,
                    reported: self.reported,
                    action_error: copy_text(&self.action_error),
                    refresh_error: Some(err),
                    wait: UnloadWait::Done,
                };
            },
            _ => {},
        }
        proof {
            use_type_invariant(&*self);
        }
        self.pending()
    }
}

} // verus!
