//! Monotone progress of a projection along the write-ahead log.

use super::lsn::LogSequenceNumber;
use crate::text::{decimal, decimal_text, joined};
use vstd::prelude::*;

verus! {

/// Why four positions do not make a progress.
#[derive(Clone, Copy, Debug, PartialEq, Eq, Structural)]
pub enum ProjectionProgressError {
    DurableAheadOfReceived,
    AppliedAheadOfDurable,
    PublishedAheadOfApplied,
}

/// The positions of a progress, from the head of the log to what readers see.
pub struct ProgressView {
    pub received: LogSequenceNumber,
    pub durable: LogSequenceNumber,
    pub applied: LogSequenceNumber,
    pub published: LogSequenceNumber,
}

impl ProgressView {
    /// Whether no position is ahead of the one that it depends on.
    pub open spec fn chained(self) -> bool {
        self.published.0 <= self.applied.0 <= self.durable.0 <= self.received.0
    }

    /// Whether no position is behind that of `earlier`.
    pub open spec fn reaches(self, earlier: ProgressView) -> bool {
        &&& earlier.received.0 <= self.received.0
        &&& earlier.durable.0 <= self.durable.0
        &&& earlier.applied.0 <= self.applied.0
        &&& earlier.published.0 <= self.published.0
    }

    /// Why the positions do not make a progress, if so.
    pub open spec fn error(self) -> Option<ProjectionProgressError> {
        if self.durable.0 > self.received.0 {
            Some(ProjectionProgressError::DurableAheadOfReceived)
        } else if self.applied.0 > self.durable.0 {
            Some(ProjectionProgressError::AppliedAheadOfDurable)
        } else if self.published.0 > self.applied.0 {
            Some(ProjectionProgressError::PublishedAheadOfApplied)
        } else {
            None
        }
    }

    /// The progress after `lsn` was observed on the stream.
    pub open spec fn observed(self, lsn: LogSequenceNumber) -> ProgressView {
        ProgressView { received: self.received.later_of(lsn), ..self }
    }

    /// The progress after everything up to `lsn` became durable.
    pub open spec fn made_durable(self, lsn: LogSequenceNumber) -> ProgressView {
        let durable = self.durable.later_of(lsn);
        ProgressView { received: self.received.later_of(durable), durable, ..self }
    }

    /// The progress after everything up to `lsn` was applied.
    pub open spec fn made_applied(self, lsn: LogSequenceNumber) -> ProgressView {
        ProgressView { applied: self.applied.later_of(lsn), ..self }
    }

    /// The progress after everything up to `lsn` was published.
    pub open spec fn made_published(self, lsn: LogSequenceNumber) -> ProgressView {
        ProgressView { published: self.published.later_of(lsn), ..self }
    }
}

/// Progress of a projection: what is published was applied, what is applied is durable, and
/// what is durable was received.
#[derive(Clone, Copy, Debug, PartialEq, Eq, Structural)]
pub struct ProjectionProgress {
    received: LogSequenceNumber,
    durable: LogSequenceNumber,
    applied: LogSequenceNumber,
    published: LogSequenceNumber,
}

impl View for ProjectionProgress {
    type V = ProgressView;

    closed spec fn view(&self) -> ProgressView {
        ProgressView {
            received: self.received,
            durable: self.durable,
            applied: self.applied,
            published: self.published,
        }
    }
}

impl ProjectionProgress {
    #[verifier::type_invariant]
    spec fn in_order(self) -> bool {
        self@.chained()
    }

    /// The progress before anything was received.
    pub fn zero() -> (progress: Self)
        ensures
            progress@ == (ProgressView {
                received: LogSequenceNumber(0),
                durable: LogSequenceNumber(0),
                applied: LogSequenceNumber(0),
                published: LogSequenceNumber(0),
            }),
    {
        ProjectionProgress {
            received: LogSequenceNumber(0),
            durable: LogSequenceNumber(0),
            applied: LogSequenceNumber(0),
            published: LogSequenceNumber(0),
        }
    }

    /// A progress from its four positions.
    pub fn try_new(
        received: LogSequenceNumber,
        durable: LogSequenceNumber,
        applied: LogSequenceNumber,
        published: LogSequenceNumber,
    ) -> (result: Result<Self, ProjectionProgressError>)
        ensures
            ({
                let parts = ProgressView { received, durable, applied, published };
                match result {
                    Ok(progress) => parts.error() is None && progress@ == parts,
                    Err(error) => parts.error() == Some(error),
                }
            }),
    {
        if durable.0 > received.0 {
            return Err(ProjectionProgressError::DurableAheadOfReceived);
        }
        if applied.0 > durable.0 {
            return Err(ProjectionProgressError::AppliedAheadOfDurable);
        }
        if published.0 > applied.0 {
            return Err(ProjectionProgressError::PublishedAheadOfApplied);
        }
        Ok(ProjectionProgress { received, durable, applied, published })
    }

    /// The greatest position observed on the stream.
    pub fn received(self) -> (lsn: LogSequenceNumber)
        ensures
            lsn == self@.received,
    {
        self.received
    }

    /// The position up to which everything is durable.
    pub fn durable(self) -> (lsn: LogSequenceNumber)
        ensures
            lsn == self@.durable,
            self@.chained(),
    {
        proof {
            use_type_invariant(&self);
        }
        self.durable
    }

    /// The position up to which everything is applied.
    pub fn applied(self) -> (lsn: LogSequenceNumber)
        ensures
            lsn == self@.applied,
    {
        self.applied
    }

    /// The position up to which everything is published.
    pub fn published(self) -> (lsn: LogSequenceNumber)
        ensures
            lsn == self@.published,
    {
        self.published
    }
}

/// Why a step of the progress is refused.
#[derive(Clone, Copy, Debug, PartialEq, Eq, Structural)]
pub enum CdcProgressError {
    Projection(ProjectionProgressError),
    AppliedAheadOfDurable { attempted: LogSequenceNumber, durable: LogSequenceNumber },
    PublishedAheadOfApplied { attempted: LogSequenceNumber, applied: LogSequenceNumber },
}

impl From<ProjectionProgressError> for CdcProgressError {
    fn from(value: ProjectionProgressError) -> (error: Self) {
        CdcProgressError::Projection(value)
    }
}

impl vstd::std_specs::convert::FromSpecImpl<ProjectionProgressError> for CdcProgressError {
    open spec fn obeys_from_spec() -> bool {
        true
    }

    open spec fn from_spec(value: ProjectionProgressError) -> Self {
        CdcProgressError::Projection(value)
    }
}

/// Tracker of the progress of one writer.
#[derive(Clone, Copy, Debug, PartialEq, Eq, Structural)]
pub struct CdcProgressTracker {
    progress: ProjectionProgress,
}

impl View for CdcProgressTracker {
    type V = ProgressView;

    closed spec fn view(&self) -> ProgressView {
        self.progress@
    }
}

impl CdcProgressTracker {
    /// A tracker before anything was received.
    pub fn zero() -> (tracker: Self)
        ensures
            tracker@ == (ProgressView {
                received: LogSequenceNumber(0),
                durable: LogSequenceNumber(0),
                applied: LogSequenceNumber(0),
                published: LogSequenceNumber(0),
            }),
    {
        CdcProgressTracker { progress: ProjectionProgress::zero() }
    }

    /// The tracker after a restart: what is durable counts as received.
    pub fn recover(
        durable: LogSequenceNumber,
        applied: LogSequenceNumber,
        published: LogSequenceNumber,
    ) -> (result: Result<Self, CdcProgressError>)
        ensures
            ({
                let parts = ProgressView { received: durable, durable, applied, published };
                match result {
                    Ok(tracker) => parts.error() is None && tracker@ == parts,
                    Err(error) => parts.error() is Some && error == CdcProgressError::Projection(
                        parts.error()->0,
                    ),
                }
            }),
    {
        match ProjectionProgress::try_new(durable, durable, applied, published) {
            Ok(progress) => Ok(CdcProgressTracker { progress }),
            Err(error) => Err(CdcProgressError::from(error)),
        }
    }

    /// The current progress.
    pub fn snapshot(self) -> (progress: ProjectionProgress)
        ensures
            progress@ == self@,
    {
        self.progress
    }

    /// Records a position observed on the stream. An earlier one changes nothing.
    pub fn observe_received(&mut self, lsn: LogSequenceNumber) -> (result: Result<
        (),
        CdcProgressError,
    >)
        ensures
            result is Ok,
            final(self)@ == old(self)@.observed(lsn),
    {
        let durable = self.progress.durable();
        match ProjectionProgress::try_new(
            self.progress.received().later(lsn),
            durable,
            self.progress.applied(),
            self.progress.published(),
        ) {
            Ok(progress) => {
                self.progress = progress;
                Ok(())
            },
            Err(error) => Err(CdcProgressError::from(error)),
        }
    }

    /// Records that everything up to `lsn` is durable. An earlier position changes nothing.
    pub fn mark_durable(&mut self, lsn: LogSequenceNumber) -> (result: Result<
        (),
        CdcProgressError,
    >)
        ensures
            result is Ok,
            final(self)@ == old(self)@.made_durable(lsn),
    {
        let durable = self.progress.durable().later(lsn);
        match ProjectionProgress::try_new(
            self.progress.received().later(durable),
            durable,
            self.progress.applied(),
            self.progress.published(),
        ) {
            Ok(progress) => {
                self.progress = progress;
                Ok(())
            },
            Err(error) => Err(CdcProgressError::from(error)),
        }
    }

    /// Records that everything up to `lsn` is applied, which must be durable.
    pub fn mark_applied(&mut self, lsn: LogSequenceNumber) -> (result: Result<
        (),
        CdcProgressError,
    >)
        ensures
            match result {
                Ok(_) => lsn.0 <= old(self)@.durable.0 && final(self)@ == old(self)@.made_applied(
                    lsn,
                ),
                Err(error) => {
                    &&& lsn.0 > old(self)@.durable.0
                    &&& error == (CdcProgressError::AppliedAheadOfDurable {
                        attempted: lsn,
                        durable: old(self)@.durable,
                    })
                    &&& *final(self) == *old(self)
                },
            },
    {
        let durable = self.progress.durable();
        if lsn.0 > durable.0 {
            return Err(CdcProgressError::AppliedAheadOfDurable { attempted: lsn, durable });
        }
        match ProjectionProgress::try_new(
            self.progress.received(),
            durable,
            self.progress.applied().later(lsn),
            self.progress.published(),
        ) {
            Ok(progress) => {
                self.progress = progress;
                Ok(())
            },
            Err(error) => Err(CdcProgressError::from(error)),
        }
    }

    /// Records that everything up to `lsn` is published, which must be applied.
    pub fn mark_published(&mut self, lsn: LogSequenceNumber) -> (result: Result<
        (),
        CdcProgressError,
    >)
        ensures
            match result {
                Ok(_) => lsn.0 <= old(self)@.applied.0 && final(self)@
                    == old(self)@.made_published(lsn),
                Err(error) => {
                    &&& lsn.0 > old(self)@.applied.0
                    &&& error == (CdcProgressError::PublishedAheadOfApplied {
                        attempted: lsn,
                        applied: old(self)@.applied,
                    })
                    &&& *final(self) == *old(self)
                },
            },
    {
        let durable = self.progress.durable();
        let applied = self.progress.applied();
        if lsn.0 > applied.0 {
            return Err(CdcProgressError::PublishedAheadOfApplied { attempted: lsn, applied });
        }
        match ProjectionProgress::try_new(
            self.progress.received(),
            durable,
            applied,
            self.progress.published().later(lsn),
        ) {
            Ok(progress) => {
                self.progress = progress;
                Ok(())
            },
            Err(error) => Err(CdcProgressError::from(error)),
        }
    }
}

/// Every step keeps the positions in order and none behind where it was: what is published was
/// applied, what is applied is durable, what is durable was received.
pub proof fn law_progress_is_chained_and_monotone(progress: ProgressView, lsn: LogSequenceNumber)
    requires
        progress.chained(),
    ensures
        progress.error() is None,
        progress.observed(lsn).chained(),
        progress.observed(lsn).reaches(progress),
        progress.made_durable(lsn).chained(),
        progress.made_durable(lsn).reaches(progress),
        lsn.0 <= progress.durable.0 ==> progress.made_applied(lsn).chained(),
        progress.made_applied(lsn).reaches(progress),
        lsn.0 <= progress.applied.0 ==> progress.made_published(lsn).chained(),
        progress.made_published(lsn).reaches(progress),
{
}

/// Replaying a position that is already covered changes nothing.
pub proof fn law_stale_position_changes_nothing(progress: ProgressView, lsn: LogSequenceNumber)
    requires
        progress.chained(),
    ensures
        lsn.0 <= progress.received.0 ==> progress.observed(lsn) == progress,
        lsn.0 <= progress.durable.0 ==> progress.made_durable(lsn) == progress,
        lsn.0 <= progress.applied.0 ==> progress.made_applied(lsn) == progress,
        lsn.0 <= progress.published.0 ==> progress.made_published(lsn) == progress,
{
}

impl ProjectionProgressError {
    /// The diagnostic text of this error.
    pub open spec fn spec_message(self) -> Seq<char> {
        match self {
            ProjectionProgressError::DurableAheadOfReceived => {
                "durable LSN is ahead of received LSN"@
            },
            ProjectionProgressError::AppliedAheadOfDurable => {
                "applied LSN is ahead of durable LSN"@
            },
            ProjectionProgressError::PublishedAheadOfApplied => {
                "published LSN is ahead of applied LSN"@
            },
        }
    }

    /// The diagnostic text of this error.
    pub fn message(&self) -> (text: String)
        ensures
            text@ == self.spec_message(),
    {
        match self {
            ProjectionProgressError::DurableAheadOfReceived => {
                "durable LSN is ahead of received LSN".to_owned()
            },
            ProjectionProgressError::AppliedAheadOfDurable => {
                "applied LSN is ahead of durable LSN".to_owned()
            },
            ProjectionProgressError::PublishedAheadOfApplied => {
                "published LSN is ahead of applied LSN".to_owned()
            },
        }
    }
}

impl CdcProgressError {
    /// The diagnostic text of this error.
    pub open spec fn spec_message(self) -> Seq<char> {
        match self {
            CdcProgressError::Projection(error) => {
                "invalid projection progress: "@ + error.spec_message()
            },
            CdcProgressError::AppliedAheadOfDurable { attempted, durable } => {
                "cannot apply LSN "@ + decimal(attempted.0 as int) + " beyond durable LSN "@
                    + decimal(durable.0 as int)
            },
            CdcProgressError::PublishedAheadOfApplied { attempted, applied } => {
                "cannot publish LSN "@ + decimal(attempted.0 as int) + " beyond applied LSN "@
                    + decimal(applied.0 as int)
            },
        }
    }

    /// The diagnostic text of this error.
    pub fn message(&self) -> (text: String)
        ensures
            text@ == self.spec_message(),
    {
        match self {
            CdcProgressError::Projection(error) => {
                joined("invalid projection progress: ", error.message().as_str())
            },
            CdcProgressError::AppliedAheadOfDurable { attempted, durable } => {
                let mut text = joined("cannot apply LSN ", decimal_text(attempted.0).as_str());
                text.append(" beyond durable LSN ");
                text.append(decimal_text(durable.0).as_str());
                text
            },
            CdcProgressError::PublishedAheadOfApplied { attempted, applied } => {
                let mut text = joined("cannot publish LSN ", decimal_text(attempted.0).as_str());
                text.append(" beyond applied LSN ");
                text.append(decimal_text(applied.0).as_str());
                text
            },
        }
    }
}

/// Observing a position moves what is received to the later of the two, and nothing else.
/// Making a position durable counts it as received too, and applies or publishes nothing.
/// Applying and publishing move their own position only.
pub proof fn law_each_step_moves_its_own_position(progress: ProgressView, lsn: LogSequenceNumber)
    requires
        progress.chained(),
    ensures
        ({
            let next = progress.observed(lsn);
            &&& lsn.0 <= next.received.0
            &&& progress.received.0 < next.received.0 ==> next.received == lsn
            &&& next.durable == progress.durable
            &&& next.applied == progress.applied
            &&& next.published == progress.published
        }),
        ({
            let next = progress.made_durable(lsn);
            &&& lsn.0 <= next.durable.0 <= next.received.0
            &&& progress.durable.0 < next.durable.0 ==> next.durable == lsn
            &&& progress.received.0 < next.received.0 ==> next.received == lsn
            &&& next.applied == progress.applied
            &&& next.published == progress.published
        }),
        ({
            let next = progress.made_applied(lsn);
            &&& lsn.0 <= next.applied.0
            &&& progress.applied.0 < next.applied.0 ==> next.applied == lsn
            &&& next.received == progress.received
            &&& next.durable == progress.durable
            &&& next.published == progress.published
        }),
        ({
            let next = progress.made_published(lsn);
            &&& lsn.0 <= next.published.0
            &&& progress.published.0 < next.published.0 ==> next.published == lsn
            &&& next.received == progress.received
            &&& next.durable == progress.durable
            &&& next.applied == progress.applied
        }),
{
}

/// Four positions make a progress exactly if none is ahead of the one that it depends on, and a
/// refusal names two positions of which the first is ahead of the second.
pub proof fn law_progress_is_refused_exactly_if_out_of_order(parts: ProgressView)
    ensures
        parts.error() is None <==> parts.chained(),
        parts.error() == Some(ProjectionProgressError::DurableAheadOfReceived)
            ==> parts.received.0 < parts.durable.0,
        parts.error() == Some(ProjectionProgressError::AppliedAheadOfDurable)
            ==> parts.durable.0 < parts.applied.0,
        parts.error() == Some(ProjectionProgressError::PublishedAheadOfApplied)
            ==> parts.applied.0 < parts.published.0,
{
}

} // verus!
