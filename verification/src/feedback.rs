//! Whether a run passed, as the fuzzer's feedback and observer record it,
//! and the coverage metadata kept with a case.
use vstd::prelude::*;

use crate::reduce::ExitStatus;

verus! {

/// The prefix of the name of the pass/fail feedback.
pub const PASSEDFEEDBACK_PREFIX: &'static str = "passedfeedback_metadata_";

/// Whether a case's run passed.
#[derive(Clone, Copy, Debug, PartialEq, Eq, Structural)]
pub struct PassedMetadata {
    pub is_passed: bool,
}

/// Records, for each run, whether it passed, until the case's metadata is
/// written.
#[derive(Clone, Debug)]
pub struct PassedFeedback {
    name: String,
    pending: Option<PassedMetadata>,
}

impl PassedFeedback {
    pub closed spec fn name_view(&self) -> Seq<char> {
        self.name@
    }

    pub closed spec fn pending_view(&self) -> Option<PassedMetadata> {
        self.pending
    }

    /// A feedback with nothing pending.
    pub fn new() -> (f: Self)
        ensures
            f.name_view() == PASSEDFEEDBACK_PREFIX@,
            f.pending_view() is None,
    {
        PassedFeedback { name: PASSEDFEEDBACK_PREFIX.to_owned(), pending: None }
    }

    pub fn name(&self) -> (s: &str)
        ensures
            s@ == self.name_view(),
    {
        self.name.as_str()
    }

    /// Every run is interesting; what is kept is whether it exited normally.
    pub fn is_interesting(&mut self, exit: ExitStatus) -> (b: bool)
        ensures
            b,
            final(self).pending_view() == Some(PassedMetadata { is_passed: exit == ExitStatus::Success }),
            final(self).name_view() == old(self).name_view(),
    {
        self.pending = Some(PassedMetadata { is_passed: exit == ExitStatus::Success });
        true
    }

    /// Takes the recorded outcome for the case's metadata; `None` when no
    /// run was recorded.
    pub fn append_metadata(&mut self) -> (r: Option<PassedMetadata>)
        ensures
            r == old(self).pending_view(),
            final(self).pending_view() is None,
            final(self).name_view() == old(self).name_view(),
    {
        self.pending.take()
    }
}

/// Observes whether the last run passed.
#[derive(Clone, Debug)]
pub struct PassedObserver {
    name: String,
    passed: Option<bool>,
}

impl PassedObserver {
    pub closed spec fn name_view(&self) -> Seq<char> {
        self.name@
    }

    pub closed spec fn passed_view(&self) -> Option<bool> {
        self.passed
    }

    pub fn new(name: &str) -> (o: Self)
        ensures
            o.name_view() == name@,
            o.passed_view() is None,
    {
        PassedObserver { name: name.to_owned(), passed: None }
    }

    pub fn name(&self) -> (s: &str)
        ensures
            s@ == self.name_view(),
    {
        self.name.as_str()
    }

    /// Before a run: nothing observed.
    pub fn pre_exec(&mut self)
        ensures
            final(self).passed_view() is None,
            final(self).name_view() == old(self).name_view(),
    {
        self.passed = None;
    }

    /// After a run: whether it exited normally.
    pub fn post_exec(&mut self, exit: ExitStatus)
        ensures
            final(self).passed_view() == Some(exit == ExitStatus::Success),
            final(self).name_view() == old(self).name_view(),
    {
        self.passed = Some(exit == ExitStatus::Success);
    }

    pub fn passed(&self) -> (r: Option<bool>)
        ensures
            r == self.passed_view(),
    {
        self.passed
    }
}

/// The raw coverage maps of a case, by coverage name, with whether it
/// passed and whether it is the initial case.
#[derive(Clone, Debug)]
pub struct MultiCoverageMetadata {
    pub coverage: Vec<(String, Vec<u8>)>,
    pub is_passed: bool,
    pub is_initial: bool,
}

} // verus!
