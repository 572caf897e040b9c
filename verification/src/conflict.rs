//! Run-scoped overwrite/skip conflict resolution.
//!
//! When a transfer would write to a local path that already exists, the
//! operator is asked whether to proceed. An "apply to all" answer is
//! remembered for the rest of the run: once the decision leaves
//! `AskEachTime` it never changes again.

use vstd::prelude::*;

verus! {

/// Process-wide decision state. Initial state is `AskEachTime`; the first
/// "apply to all" answer moves it to `OverwriteAll` or `SkipAll`, and it
/// never moves again.
#[derive(Clone, Copy, Debug, PartialEq, Eq, Structural)]
pub enum ConflictDecision {
    AskEachTime,
    OverwriteAll,
    SkipAll,
}

/// A single operator answer to an overwrite prompt. `Invalid` stands for
/// any unrecognized input.
#[derive(Clone, Copy, Debug, PartialEq, Eq, Structural)]
pub enum OperatorChoice {
    Yes,
    No,
    AllYes,
    AllNo,
    Invalid,
}

/// The outcome of conflict resolution for one target path.
#[derive(Clone, Copy, Debug, PartialEq, Eq, Structural)]
pub enum Resolution {
    Proceed,
    Skip,
}

/// Classifies one trimmed operator input line, given as bytes:
/// `y`, `n`, `A` and `N` are recognized, anything else is `Invalid`.
pub open spec fn choice_of(s: Seq<u8>) -> OperatorChoice {
    if s.len() == 1 && s[0] == 121 {
        OperatorChoice::Yes
    } else if s.len() == 1 && s[0] == 110 {
        OperatorChoice::No
    } else if s.len() == 1 && s[0] == 65 {
        OperatorChoice::AllYes
    } else if s.len() == 1 && s[0] == 78 {
        OperatorChoice::AllNo
    } else {
        OperatorChoice::Invalid
    }
}

/// A prompt is needed exactly when the target exists and no run-wide
/// decision has been taken yet.
pub open spec fn spec_needs_prompt(d: ConflictDecision, exists: bool) -> bool {
    exists && d == ConflictDecision::AskEachTime
}

/// Resolution when no prompt is needed: a missing target always proceeds,
/// and a run-wide decision applies to every existing target.
pub open spec fn spec_resolve_decided(d: ConflictDecision, exists: bool) -> Option<Resolution> {
    if !exists {
        Some(Resolution::Proceed)
    } else {
        match d {
            ConflictDecision::OverwriteAll => Some(Resolution::Proceed),
            ConflictDecision::SkipAll => Some(Resolution::Skip),
            ConflictDecision::AskEachTime => None,
        }
    }
}

/// Resolution once an operator answer is available for the prompt case:
/// `y` and `A` proceed, `n`, `N` and anything unrecognized skip.
pub open spec fn spec_resolution(
    d: ConflictDecision,
    exists: bool,
    c: OperatorChoice,
) -> Resolution {
    if !exists {
        Resolution::Proceed
    } else {
        match d {
            ConflictDecision::OverwriteAll => Resolution::Proceed,
            ConflictDecision::SkipAll => Resolution::Skip,
            ConflictDecision::AskEachTime => match c {
                OperatorChoice::Yes => Resolution::Proceed,
                OperatorChoice::AllYes => Resolution::Proceed,
                _ => Resolution::Skip,
            },
        }
    }
}

/// State after resolving: only an "apply to all" answer at an actual
/// prompt moves the decision, and only away from `AskEachTime`.
pub open spec fn spec_next_decision(
    d: ConflictDecision,
    exists: bool,
    c: OperatorChoice,
) -> ConflictDecision {
    if spec_needs_prompt(d, exists) {
        match c {
            OperatorChoice::AllYes => ConflictDecision::OverwriteAll,
            OperatorChoice::AllNo => ConflictDecision::SkipAll,
            _ => d,
        }
    } else {
        d
    }
}

/// Tracks the run-scoped decision and resolves conflicts one target path
/// at a time. The caller reports whether the target exists and, when a
/// prompt was needed, what the operator answered.
pub struct ConflictResolver {
    pub decision: ConflictDecision,
}

impl ConflictResolver {
    /// A fresh run starts with no run-wide decision taken.
    pub fn new() -> (r: ConflictResolver)
        ensures
            r.decision == ConflictDecision::AskEachTime,
    {
        ConflictResolver { decision: ConflictDecision::AskEachTime }
    }

    /// Whether resolving an (existing or not) target would require an
    /// operator prompt in the current state.
    pub fn needs_prompt(&self, exists: bool) -> (r: bool)
        ensures
            r == spec_needs_prompt(self.decision, exists),
    {
        exists && matches!(self.decision, ConflictDecision::AskEachTime)
    }

    /// Resolves the cases that need no operator input; returns `None`
    /// exactly when a prompt is required.
    pub fn resolve(&self, exists: bool) -> (r: Option<Resolution>)
        ensures
            r == spec_resolve_decided(self.decision, exists),
            r is None <==> spec_needs_prompt(self.decision, exists),
    {
        if !exists {
            Some(Resolution::Proceed)
        } else {
            match self.decision {
                ConflictDecision::OverwriteAll => Some(Resolution::Proceed),
                ConflictDecision::SkipAll => Some(Resolution::Skip),
                ConflictDecision::AskEachTime => None,
            }
        }
    }

    /// Full resolution step for one target: `choice` is the operator's
    /// answer and is consulted only when a prompt was actually needed.
    /// An "apply to all" answer is remembered for the rest of the run.
    pub fn resolve_with_answer(&mut self, exists: bool, choice: OperatorChoice) -> (r: Resolution)
        ensures
            r == spec_resolution(old(self).decision, exists, choice),
            final(self).decision == spec_next_decision(old(self).decision, exists, choice),
    {
        if !exists {
            return Resolution::Proceed;
        }
        match self.decision {
            ConflictDecision::OverwriteAll => Resolution::Proceed,
            ConflictDecision::SkipAll => Resolution::Skip,
            ConflictDecision::AskEachTime => match choice {
                OperatorChoice::Yes => Resolution::Proceed,
                OperatorChoice::AllYes => {
                    self.decision = ConflictDecision::OverwriteAll;
                    Resolution::Proceed
                },
                OperatorChoice::AllNo => {
                    self.decision = ConflictDecision::SkipAll;
                    Resolution::Skip
                },
                _ => Resolution::Skip,
            },
        }
    }
}

/// Parses one trimmed operator input line into a choice: `y` proceeds
/// once, `n` skips once, `A` means overwrite-all, `N` means skip-all;
/// anything else is reported as invalid and skips once.
pub fn parse_choice(input: &[u8]) -> (c: OperatorChoice)
    ensures
        c == choice_of(input@),
{
    if input.len() == 1 {
        if input[0] == 121 {
            OperatorChoice::Yes
        } else if input[0] == 110 {
            OperatorChoice::No
        } else if input[0] == 65 {
            OperatorChoice::AllYes
        } else if input[0] == 78 {
            OperatorChoice::AllNo
        } else {
            OperatorChoice::Invalid
        }
    } else {
        OperatorChoice::Invalid
    }
}

/// Once the run-wide decision is `SkipAll`, every existing target
/// resolves to `Skip`, with no prompt.
pub proof fn lemma_skip_all_always_skips(d: ConflictDecision, exists: bool)
    requires
        d == ConflictDecision::SkipAll,
        exists,
    ensures
        spec_resolve_decided(d, exists) == Some(Resolution::Skip),
        !spec_needs_prompt(d, exists),
        forall|c: OperatorChoice| spec_resolution(d, exists, c) == Resolution::Skip,
        forall|c: OperatorChoice| spec_next_decision(d, exists, c) == d,
{
}

/// Once the run-wide decision is `OverwriteAll`, every existing target
/// resolves to `Proceed`, with no prompt.
pub proof fn lemma_overwrite_all_always_proceeds(d: ConflictDecision, exists: bool)
    requires
        d == ConflictDecision::OverwriteAll,
        exists,
    ensures
        spec_resolve_decided(d, exists) == Some(Resolution::Proceed),
        !spec_needs_prompt(d, exists),
        forall|c: OperatorChoice| spec_resolution(d, exists, c) == Resolution::Proceed,
        forall|c: OperatorChoice| spec_next_decision(d, exists, c) == d,
{
}

/// A target that does not exist locally always resolves to `Proceed`,
/// whatever the current decision, with no prompt and no state change.
pub proof fn lemma_missing_target_always_proceeds(d: ConflictDecision)
    ensures
        spec_resolve_decided(d, false) == Some(Resolution::Proceed),
        !spec_needs_prompt(d, false),
        forall|c: OperatorChoice| spec_resolution(d, false, c) == Resolution::Proceed,
        forall|c: OperatorChoice| spec_next_decision(d, false, c) == d,
{
}

} // verus!
