//! Live replication: what every event does to durable, projected and checkpointed state, and when
//! a position may be acknowledged.
//!
//! Writing files and applying transactions to the projection are the caller's work. A step either
//! is done, or says what has to be done next and is continued by the function that is told how it
//! went.

use super::bootstrap::BootstrapError;
use super::checkpoint::{
    advanced, applied_state, law_every_later_transaction_advances, record, AppliedCheckpoint,
    AppliedState, CheckpointAdvance, CheckpointError,
};
use super::event::CdcEvent;
use super::journal::{stored, JournalError, ReplayDecision};
use super::lsn::{lsn_name, lsn_text, LogSequenceNumber};
use super::pgoutput::{message_of, MessageView, PgOutputMessage};
use super::processor::{
    is_durable, DurableTransactionProcessor, ProcessingOutcome, ProcessorError, ProcessorStep,
    ProcessorView, StageView, StepView,
};
use super::stream::{law_stream_emits_nothing_until_commit, StreamError};
use super::transaction::{
    batch_fingerprint, law_begin_opens_an_empty_transaction, BatchView, TransactionBatch,
};
use crate::text::{joined, Diagnostic};
use vstd::prelude::*;

verus! {

/// How far replication has come.
#[derive(Clone, Copy, Debug, PartialEq, Eq, Structural)]
pub struct CdcProgress {
    pub received_lsn: LogSequenceNumber,
    pub durable_lsn: LogSequenceNumber,
    pub applied_lsn: LogSequenceNumber,
}

impl CdcProgress {
    /// All three positions at `lsn`.
    pub open spec fn at(lsn: LogSequenceNumber) -> CdcProgress {
        CdcProgress { received_lsn: lsn, durable_lsn: lsn, applied_lsn: lsn }
    }

    /// The progress after `lsn` was received.
    pub open spec fn received(self, lsn: LogSequenceNumber) -> CdcProgress {
        CdcProgress { received_lsn: self.received_lsn.later_of(lsn), ..self }
    }

    /// The progress after everything up to `lsn` was applied.
    pub open spec fn acknowledged(self, lsn: LogSequenceNumber) -> CdcProgress {
        CdcProgress {
            received_lsn: self.received_lsn.later_of(lsn),
            durable_lsn: self.durable_lsn.later_of(lsn),
            applied_lsn: self.applied_lsn.later_of(lsn),
        }
    }

    /// Whether no position lies behind the one of `other`.
    pub open spec fn reaches(self, other: CdcProgress) -> bool {
        &&& other.received_lsn.0 <= self.received_lsn.0
        &&& other.durable_lsn.0 <= self.durable_lsn.0
        &&& other.applied_lsn.0 <= self.applied_lsn.0
    }

    /// Whether nothing is durable that was not received, nor applied that is not durable.
    pub open spec fn ordered(self) -> bool {
        self.applied_lsn.0 <= self.durable_lsn.0 <= self.received_lsn.0
    }
}

impl Default for CdcProgress {
    fn default() -> (progress: Self)
        ensures
            progress == CdcProgress::at(LogSequenceNumber(0)),
    {
        CdcProgress {
            received_lsn: LogSequenceNumber::zero(),
            durable_lsn: LogSequenceNumber::zero(),
            applied_lsn: LogSequenceNumber::zero(),
        }
    }
}

/// What an event leads to.
#[derive(Clone, Copy, Debug, PartialEq, Eq, Structural)]
pub enum LiveEventOutcome {
    Continue,
    Acknowledge(LogSequenceNumber),
    Stop(LogSequenceNumber),
}

/// What live replication waits for.
#[derive(Clone, Copy, Debug, PartialEq, Eq, Structural)]
pub enum LiveStage {
    /// For the next event.
    Idle,
    /// For the journal record of a transaction to be durable.
    Journal,
    /// For the projection to apply a durable transaction.
    Projection,
    /// For the checkpoint record of an applied transaction to be durable.
    Checkpoint,
}

/// Progress of live replication.
#[derive(Clone, Copy, Debug, PartialEq, Eq, Structural)]
pub struct LiveReplicationState {
    pub progress: CdcProgress,
    pub transaction_open: bool,
    pub stage: LiveStage,
}

impl LiveReplicationState {
    /// The state after recovery up to `resume_lsn`.
    pub open spec fn spec_recovered(resume_lsn: LogSequenceNumber) -> LiveReplicationState {
        LiveReplicationState {
            progress: CdcProgress::at(resume_lsn),
            transaction_open: false,
            stage: LiveStage::Idle,
        }
    }

    /// The state after recovery up to `resume_lsn`.
    pub fn recovered(resume_lsn: LogSequenceNumber) -> (state: Self)
        ensures
            state == LiveReplicationState::spec_recovered(resume_lsn),
    {
        LiveReplicationState {
            progress: CdcProgress {
                received_lsn: resume_lsn,
                durable_lsn: resume_lsn,
                applied_lsn: resume_lsn,
            },
            transaction_open: false,
            stage: LiveStage::Idle,
        }
    }

    /// How far replication has come.
    pub fn progress(self) -> (progress: CdcProgress)
        ensures
            progress == self.progress,
    {
        self.progress
    }

    /// Whether a transaction is open.
    pub fn transaction_open(self) -> (open: bool)
        ensures
            open == self.transaction_open,
    {
        self.transaction_open
    }

    fn observe_received(&mut self, lsn: LogSequenceNumber)
        ensures
            *final(self) == (LiveReplicationState {
                progress: old(self).progress.received(lsn),
                ..*old(self)
            }),
    {
        self.progress.received_lsn = self.progress.received_lsn.later(lsn);
    }

    fn acknowledge(&mut self, lsn: LogSequenceNumber)
        ensures
            *final(self) == (LiveReplicationState {
                progress: old(self).progress.acknowledged(lsn),
                transaction_open: false,
                stage: LiveStage::Idle,
            }),
    {
        self.progress.received_lsn = self.progress.received_lsn.later(lsn);
        self.progress.durable_lsn = self.progress.durable_lsn.later(lsn);
        self.progress.applied_lsn = self.progress.applied_lsn.later(lsn);
        self.transaction_open = false;
        self.stage = LiveStage::Idle;
    }
}

impl Default for LiveReplicationState {
    fn default() -> (state: Self)
        ensures
            state == LiveReplicationState::spec_recovered(LogSequenceNumber(0)),
    {
        LiveReplicationState::recovered(LogSequenceNumber::zero())
    }
}

/// What a run of live replication did.
#[derive(Clone, Copy, Debug, PartialEq, Eq, Structural)]
pub struct LiveRunSummary {
    pub events_seen: u64,
    pub acknowledgements: u64,
    pub progress: CdcProgress,
}

impl Default for LiveRunSummary {
    fn default() -> (summary: Self)
        ensures
            summary == (LiveRunSummary {
                events_seen: 0,
                acknowledgements: 0,
                progress: CdcProgress::at(LogSequenceNumber(0)),
            }),
    {
        LiveRunSummary { events_seen: 0, acknowledgements: 0, progress: CdcProgress::default() }
    }
}

/// Why a durable transaction did not become applied and checkpointed.
#[derive(Clone, Debug, PartialEq, Eq)]
pub enum CheckpointApplyError<E> {
    Apply(E),
    Checkpoint(CheckpointError),
}

/// Why live replication gave up.
#[derive(Clone, Debug, PartialEq, Eq)]
pub enum LiveReplicationError<E> {
    Journal(JournalError),
    Checkpoint(CheckpointError),
    Processor(ProcessorError<CheckpointApplyError<E>>),
    Bootstrap(BootstrapError),
    /// The transport failed; the text is what it reported.
    Transport(String),
    UnsupportedLogicalMessage(String),
    StoppedMidTransaction(LogSequenceNumber),
    UnexpectedBoundaryOutcome,
}

/// What a step asks the caller to do.
#[derive(Clone, Debug, PartialEq, Eq)]
pub enum LiveStep {
    /// Nothing more: the event is dealt with.
    Done(LiveEventOutcome),
    /// To append and synchronise these journal bytes, then to report to `journal_written`.
    WriteJournal(Vec<u8>),
    /// To apply the processor's `batch_to_apply`, then to report to `projection_applied`.
    Project,
    /// To append and synchronise these checkpoint bytes, then to report to `checkpoint_written`.
    WriteCheckpoint(Vec<u8>),
}

/// What a step asks the caller to do.
#[verifier::ext_equal]
pub enum LiveStepView {
    Done(LiveEventOutcome),
    WriteJournal(Seq<u8>),
    Project,
    WriteCheckpoint(Seq<u8>),
}

impl View for LiveStep {
    type V = LiveStepView;

    open spec fn view(&self) -> LiveStepView {
        match *self {
            LiveStep::Done(outcome) => LiveStepView::Done(outcome),
            LiveStep::WriteJournal(bytes) => LiveStepView::WriteJournal(bytes@),
            LiveStep::Project => LiveStepView::Project,
            LiveStep::WriteCheckpoint(bytes) => LiveStepView::WriteCheckpoint(bytes@),
        }
    }
}

/// What a step returns.
pub type LiveReply<E> = Result<LiveStepView, LiveReplicationError<E>>;

/// What a step returns.
pub open spec fn reply_view<E>(result: Result<LiveStep, LiveReplicationError<E>>) -> LiveReply<E> {
    match result {
        Ok(step) => Ok(step@),
        Err(error) => Err(error),
    }
}

/// Whether a durable transaction still has to be applied, given what was applied last.
pub open spec fn apply_needed(applied: AppliedState, batch: BatchView) -> Result<
    bool,
    CheckpointError,
> {
    if batch.commit_lsn.0 < applied.commit_lsn.0 {
        Ok(false)
    } else if batch.commit_lsn.0 > applied.commit_lsn.0 {
        Ok(true)
    } else if batch.end_lsn != applied.end_lsn || batch_fingerprint(batch) != applied.fingerprint {
        Err(CheckpointError::DurableMismatch(batch.commit_lsn))
    } else {
        Ok(false)
    }
}

/// Decides whether a durable transaction still has to be applied.
pub fn apply_checkpointed(checkpoint: &AppliedCheckpoint, batch: &TransactionBatch) -> (result:
    Result<bool, CheckpointError>)
    ensures
        result == apply_needed(checkpoint@, batch@),
{
    let applied = checkpoint.state();
    let commit_lsn = batch.commit_lsn();
    if commit_lsn.0 < applied.commit_lsn.0 {
        return Ok(false);
    }
    if commit_lsn.0 > applied.commit_lsn.0 {
        return Ok(true);
    }
    if batch.end_lsn() != applied.end_lsn || batch.fingerprint() != applied.fingerprint {
        return Err(CheckpointError::DurableMismatch(commit_lsn));
    }
    Ok(false)
}

/// Everything that live replication works on.
#[verifier::ext_equal]
pub struct LiveView {
    pub processor: ProcessorView,
    pub checkpoint: AppliedState,
    pub state: LiveReplicationState,
}

/// The message that a begin event stands for.
pub open spec fn begin_message(final_lsn: LogSequenceNumber, xid: u32, micros: i64) -> MessageView {
    MessageView::Begin { final_lsn, commit_timestamp_micros: micros, xid }
}

/// The message that a commit event stands for.
pub open spec fn commit_message(
    lsn: LogSequenceNumber,
    end_lsn: LogSequenceNumber,
    micros: i64,
) -> MessageView {
    MessageView::Commit { flags: 0, commit_lsn: lsn, end_lsn, commit_timestamp_micros: micros }
}

impl LiveView {
    /// What holds at every step: the processor waits for what replication waits for.
    pub open spec fn wf(self) -> bool {
        &&& self.processor.wf()
        &&& match self.state.stage {
            LiveStage::Idle => self.processor.stage is Idle,
            LiveStage::Journal => self.processor.stage is Writing,
            LiveStage::Projection | LiveStage::Checkpoint => self.processor.stage is Applying,
        }
    }

    /// The transaction in hand.
    pub open spec fn batch(self) -> BatchView {
        self.processor.stage->Applying_0
    }

    /// The same with another stage.
    pub open spec fn at(self, stage: LiveStage) -> LiveView {
        LiveView { state: LiveReplicationState { stage, ..self.state }, ..self }
    }

    /// The same with another processor.
    pub open spec fn with_processor(self, processor: ProcessorView) -> LiveView {
        LiveView { processor, ..self }
    }

    /// The state after `lsn` was received.
    pub open spec fn received(self, lsn: LogSequenceNumber) -> LiveView {
        LiveView {
            state: LiveReplicationState {
                progress: self.state.progress.received(lsn),
                ..self.state
            },
            ..self
        }
    }

    /// The state after the transaction in hand could not be applied or checkpointed.
    pub open spec fn failed<E>(self, error: CheckpointApplyError<E>) -> (LiveView, LiveReply<E>) {
        (
            self.with_processor(self.processor.poison()).at(LiveStage::Idle),
            Err(LiveReplicationError::Processor(ProcessorError::Apply(error))),
        )
    }

    /// The state after the transaction in hand became durable, applied and checkpointed.
    pub open spec fn settled<E>(self) -> (LiveView, LiveReply<E>) {
        let lsn = self.batch().end_lsn;
        (
            LiveView {
                processor: ProcessorView { stage: StageView::Idle, ..self.processor },
                checkpoint: self.checkpoint,
                state: LiveReplicationState {
                    progress: self.state.progress.acknowledged(lsn),
                    transaction_open: false,
                    stage: LiveStage::Idle,
                },
            },
            Ok(LiveStepView::Done(LiveEventOutcome::Acknowledge(lsn))),
        )
    }

    /// What a durable transaction in hand asks for.
    pub open spec fn offered<E>(self) -> (LiveView, LiveReply<E>) {
        match apply_needed(self.checkpoint, self.batch()) {
            Err(error) => self.failed(CheckpointApplyError::Checkpoint(error)),
            Ok(false) => self.settled(),
            Ok(true) => (self.at(LiveStage::Projection), Ok(LiveStepView::Project)),
        }
    }

    /// What the processor's answer to a message asks for.
    pub open spec fn carried<E>(
        self,
        step: Result<StepView, ProcessorError<CheckpointApplyError<E>>>,
    ) -> (LiveView, LiveReply<E>) {
        match step {
            Err(error) => (self, Err(LiveReplicationError::Processor(error))),
            Ok(StepView::Pending) => (self, Ok(LiveStepView::Done(LiveEventOutcome::Continue))),
            Ok(StepView::Write(bytes)) => (
                self.at(LiveStage::Journal),
                Ok(LiveStepView::WriteJournal(bytes)),
            ),
            Ok(StepView::Apply) => self.offered(),
        }
    }

    /// The state after an event, and what it asks for.
    pub open spec fn event_taken<E>(self, event: CdcEvent) -> (LiveView, LiveReply<E>) {
        match event {
            CdcEvent::KeepAlive { wal_end, .. } => (
                self.received(wal_end),
                Ok(LiveStepView::Done(LiveEventOutcome::Continue)),
            ),
            CdcEvent::Begin { final_lsn, xid, commit_time_micros } => {
                let (processor, step) = self.processor.consumed::<CheckpointApplyError<E>>(
                    begin_message(final_lsn, xid, commit_time_micros),
                );
                let next = self.received(final_lsn).with_processor(processor);
                match step {
                    Err(error) => (next, Err(LiveReplicationError::Processor(error))),
                    Ok(_) => (
                        LiveView {
                            state: LiveReplicationState { transaction_open: true, ..next.state },
                            ..next
                        },
                        Ok(LiveStepView::Done(LiveEventOutcome::Continue)),
                    ),
                }
            },
            CdcEvent::XLogData { wal_start, wal_end, data, .. } => {
                let (processor, step) = self.processor.pushed::<CheckpointApplyError<E>>(data@);
                self.received(wal_start).received(wal_end).with_processor(processor).carried(step)
            },
            CdcEvent::Commit { lsn, end_lsn, commit_time_micros } => {
                let (processor, step) = self.processor.consumed::<CheckpointApplyError<E>>(
                    commit_message(lsn, end_lsn, commit_time_micros),
                );
                self.received(end_lsn).with_processor(processor).carried(step)
            },
            CdcEvent::Message { prefix, .. } => (
                self,
                Err(LiveReplicationError::UnsupportedLogicalMessage(prefix)),
            ),
            CdcEvent::StoppedAt { reached } => {
                let next = self.received(reached);
                if self.state.transaction_open {
                    (next, Err(LiveReplicationError::StoppedMidTransaction(reached)))
                } else {
                    (next, Ok(LiveStepView::Done(LiveEventOutcome::Stop(reached))))
                }
            },
        }
    }

    /// The state after the attempt to write the journal record.
    pub open spec fn journal_written<E>(self, outcome: Result<(), String>) -> (
        LiveView,
        LiveReply<E>,
    ) {
        let (processor, result) = self.processor.written::<CheckpointApplyError<E>>(outcome);
        let next = self.with_processor(processor);
        match result {
            Err(error) => (
                next.at(LiveStage::Idle),
                Err(LiveReplicationError::Processor(error)),
            ),
            Ok(_) => next.offered(),
        }
    }

    /// The state after the projection's attempt to apply the transaction in hand.
    pub open spec fn projection_applied<E>(self, outcome: Result<(), E>) -> (
        LiveView,
        LiveReply<E>,
    ) {
        match outcome {
            Err(error) => self.failed(CheckpointApplyError::Apply(error)),
            Ok(_) => match advanced(self.checkpoint, self.batch()) {
                Err(error) => self.failed(CheckpointApplyError::Checkpoint(error)),
                Ok(CheckpointAdvance::Duplicate) => self.settled(),
                Ok(CheckpointAdvance::Advanced) => (
                    self.at(LiveStage::Checkpoint),
                    Ok(LiveStepView::WriteCheckpoint(record(applied_state(self.batch())))),
                ),
            },
        }
    }

    /// The state after the attempt to write the checkpoint record.
    pub open spec fn checkpoint_written<E>(self, outcome: Result<(), String>) -> (
        LiveView,
        LiveReply<E>,
    ) {
        match outcome {
            Err(detail) => self.failed(
                CheckpointApplyError::Checkpoint(CheckpointError::Io(detail)),
            ),
            Ok(_) => LiveView { checkpoint: applied_state(self.batch()), ..self }.settled(),
        }
    }
}

/// Everything that live replication works on.
pub open spec fn live(
    processor: DurableTransactionProcessor,
    checkpoint: AppliedCheckpoint,
    state: LiveReplicationState,
) -> LiveView {
    LiveView { processor: processor@, checkpoint: checkpoint@, state }
}

fn fail<E>(
    processor: &mut DurableTransactionProcessor,
    state: &mut LiveReplicationState,
    error: CheckpointApplyError<E>,
    Ghost(checkpoint): Ghost<AppliedState>,
) -> (result: Result<LiveStep, LiveReplicationError<E>>)
    requires
        old(processor)@.stage is Applying,
    ensures
        (
            LiveView { processor: final(processor)@, checkpoint, state: *final(state) },
            reply_view(result),
        ) == (LiveView {
            processor: old(processor)@,
            checkpoint,
            state: *old(state),
        }).failed(error),
{
    state.stage = LiveStage::Idle;
    let outcome = processor.batch_applied(Err(error));
    match outcome {
        Err(error) => Err(LiveReplicationError::Processor(error)),
        Ok(_) => Err(LiveReplicationError::UnexpectedBoundaryOutcome),
    }
}

fn settle<E>(
    processor: &mut DurableTransactionProcessor,
    state: &mut LiveReplicationState,
    Ghost(checkpoint): Ghost<AppliedState>,
) -> (result: Result<LiveStep, LiveReplicationError<E>>)
    requires
        old(processor)@.stage is Applying,
    ensures
        (
            LiveView { processor: final(processor)@, checkpoint, state: *final(state) },
            reply_view(result),
        ) == (LiveView {
            processor: old(processor)@,
            checkpoint,
            state: *old(state),
        }).settled::<E>(),
{
    let outcome: Result<ProcessingOutcome, ProcessorError<CheckpointApplyError<E>>> =
        processor.batch_applied(Ok(()));
    match outcome {
        Ok(ProcessingOutcome::Applied { acknowledge_lsn, .. }) => {
            state.acknowledge(acknowledge_lsn);
            Ok(LiveStep::Done(LiveEventOutcome::Acknowledge(acknowledge_lsn)))
        },
        _ => Err(LiveReplicationError::UnexpectedBoundaryOutcome),
    }
}

fn offer<E>(
    processor: &mut DurableTransactionProcessor,
    checkpoint: &AppliedCheckpoint,
    state: &mut LiveReplicationState,
) -> (result: Result<LiveStep, LiveReplicationError<E>>)
    requires
        old(processor)@.stage is Applying,
    ensures
        (live(*final(processor), *checkpoint, *final(state)), reply_view(result)) == live(
            *old(processor),
            *checkpoint,
            *old(state),
        ).offered::<E>(),
{
    let needed = match processor.batch_to_apply() {
        Some(batch) => apply_checkpointed(checkpoint, batch),
        None => Ok(false),
    };
    match needed {
        Err(error) => fail(
            processor,
            state,
            CheckpointApplyError::Checkpoint(error),
            Ghost(checkpoint@),
        ),
        Ok(false) => settle(processor, state, Ghost(checkpoint@)),
        Ok(true) => {
            state.stage = LiveStage::Projection;
            Ok(LiveStep::Project)
        },
    }
}

fn carry<E>(
    processor: &mut DurableTransactionProcessor,
    checkpoint: &AppliedCheckpoint,
    state: &mut LiveReplicationState,
    step: Result<ProcessorStep, ProcessorError<CheckpointApplyError<E>>>,
) -> (result: Result<LiveStep, LiveReplicationError<E>>)
    requires
        step matches Ok(ProcessorStep::Apply) ==> old(processor)@.stage is Applying,
    ensures
        (live(*final(processor), *checkpoint, *final(state)), reply_view(result)) == live(
            *old(processor),
            *checkpoint,
            *old(state),
        ).carried::<E>(super::processor::step_view(step)),
{
    match step {
        Err(error) => Err(LiveReplicationError::Processor(error)),
        Ok(ProcessorStep::Pending) => Ok(LiveStep::Done(LiveEventOutcome::Continue)),
        Ok(ProcessorStep::Write(bytes)) => {
            state.stage = LiveStage::Journal;
            Ok(LiveStep::WriteJournal(bytes))
        },
        Ok(ProcessorStep::Apply) => offer(processor, checkpoint, state),
    }
}

/// Takes one replication event.
pub fn process_replication_event<E>(
    processor: &mut DurableTransactionProcessor,
    checkpoint: &AppliedCheckpoint,
    state: &mut LiveReplicationState,
    event: CdcEvent,
) -> (result: Result<LiveStep, LiveReplicationError<E>>)
    requires
        live(*old(processor), *checkpoint, *old(state)).wf(),
        old(state).stage == LiveStage::Idle,
    ensures
        (live(*final(processor), *checkpoint, *final(state)), reply_view(result)) == live(
            *old(processor),
            *checkpoint,
            *old(state),
        ).event_taken::<E>(event),
        live(*final(processor), *checkpoint, *final(state)).wf(),
{
    match event {
        CdcEvent::KeepAlive { wal_end, .. } => {
            state.observe_received(wal_end);
            Ok(LiveStep::Done(LiveEventOutcome::Continue))
        },
        CdcEvent::Begin { final_lsn, xid, commit_time_micros } => {
            state.observe_received(final_lsn);
            proof {
                law_stream_emits_nothing_until_commit(
                    processor@.stream,
                    begin_message(final_lsn, xid, commit_time_micros),
                );
            }
            let step: Result<ProcessorStep, ProcessorError<CheckpointApplyError<E>>> =
                processor.consume_message(
                PgOutputMessage::Begin {
                    final_lsn,
                    commit_timestamp_micros: commit_time_micros,
                    xid,
                },
            );
            match step {
                Err(error) => Err(LiveReplicationError::Processor(error)),
                Ok(_) => {
                    state.transaction_open = true;
                    Ok(LiveStep::Done(LiveEventOutcome::Continue))
                },
            }
        },
        CdcEvent::XLogData { wal_start, wal_end, data, .. } => {
            state.observe_received(wal_start);
            state.observe_received(wal_end);
            let step = processor.push(data.as_slice());
            carry(processor, checkpoint, state, step)
        },
        CdcEvent::Commit { lsn, end_lsn, commit_time_micros } => {
            state.observe_received(end_lsn);
            let step = processor.consume_message(
                PgOutputMessage::Commit {
                    flags: 0,
                    commit_lsn: lsn,
                    end_lsn,
                    commit_timestamp_micros: commit_time_micros,
                },
            );
            carry(processor, checkpoint, state, step)
        },
        CdcEvent::Message { prefix, .. } => {
            Err(LiveReplicationError::UnsupportedLogicalMessage(prefix))
        },
        CdcEvent::StoppedAt { reached } => {
            state.observe_received(reached);
            if state.transaction_open {
                return Err(LiveReplicationError::StoppedMidTransaction(reached));
            }
            Ok(LiveStep::Done(LiveEventOutcome::Stop(reached)))
        },
    }
}

/// Takes note of how writing and synchronising the journal record went.
pub fn journal_written<E>(
    processor: &mut DurableTransactionProcessor,
    checkpoint: &AppliedCheckpoint,
    state: &mut LiveReplicationState,
    outcome: Result<(), String>,
) -> (result: Result<LiveStep, LiveReplicationError<E>>)
    requires
        live(*old(processor), *checkpoint, *old(state)).wf(),
        old(state).stage == LiveStage::Journal,
    ensures
        (live(*final(processor), *checkpoint, *final(state)), reply_view(result)) == live(
            *old(processor),
            *checkpoint,
            *old(state),
        ).journal_written::<E>(outcome),
        live(*final(processor), *checkpoint, *final(state)).wf(),
{
    let result: Result<(), ProcessorError<CheckpointApplyError<E>>> = processor.journal_written(
        outcome,
    );
    match result {
        Err(error) => {
            state.stage = LiveStage::Idle;
            Err(LiveReplicationError::Processor(error))
        },
        Ok(_) => offer(processor, checkpoint, state),
    }
}

/// Takes note of how applying the transaction to the projection went.
pub fn projection_applied<E>(
    processor: &mut DurableTransactionProcessor,
    checkpoint: &AppliedCheckpoint,
    state: &mut LiveReplicationState,
    outcome: Result<(), E>,
) -> (result: Result<LiveStep, LiveReplicationError<E>>)
    requires
        live(*old(processor), *checkpoint, *old(state)).wf(),
        old(state).stage == LiveStage::Projection,
    ensures
        (live(*final(processor), *checkpoint, *final(state)), reply_view(result)) == live(
            *old(processor),
            *checkpoint,
            *old(state),
        ).projection_applied::<E>(outcome),
        live(*final(processor), *checkpoint, *final(state)).wf(),
{
    match outcome {
        Err(error) => fail(
            processor,
            state,
            CheckpointApplyError::Apply(error),
            Ghost(checkpoint@),
        ),
        Ok(_) => {
            let advance = match processor.batch_to_apply() {
                Some(batch) => checkpoint.advance(batch),
                None => Ok(None),
            };
            match advance {
                Err(error) => fail(
                    processor,
                    state,
                    CheckpointApplyError::Checkpoint(error),
                    Ghost(checkpoint@),
                ),
                Ok(None) => settle(processor, state, Ghost(checkpoint@)),
                Ok(Some(bytes)) => {
                    state.stage = LiveStage::Checkpoint;
                    Ok(LiveStep::WriteCheckpoint(bytes))
                },
            }
        },
    }
}

/// Takes note of how writing and synchronising the checkpoint record went.
pub fn checkpoint_written<E>(
    processor: &mut DurableTransactionProcessor,
    checkpoint: &mut AppliedCheckpoint,
    state: &mut LiveReplicationState,
    outcome: Result<(), String>,
) -> (result: Result<LiveStep, LiveReplicationError<E>>)
    requires
        live(*old(processor), *old(checkpoint), *old(state)).wf(),
        old(state).stage == LiveStage::Checkpoint,
    ensures
        (live(*final(processor), *final(checkpoint), *final(state)), reply_view(result)) == live(
            *old(processor),
            *old(checkpoint),
            *old(state),
        ).checkpoint_written::<E>(outcome),
        live(*final(processor), *final(checkpoint), *final(state)).wf(),
{
    match outcome {
        Err(detail) => fail(
            processor,
            state,
            CheckpointApplyError::Checkpoint(CheckpointError::Io(detail)),
            Ghost(checkpoint@),
        ),
        Ok(_) => {
            if let Some(batch) = processor.batch_to_apply() {
                checkpoint.confirm(batch);
            }
            settle(processor, state, Ghost(checkpoint@))
        },
    }
}

// ---------------------------------------------------------------------------------------------
// Recovery
// ---------------------------------------------------------------------------------------------

/// What recovery asks the caller to do.
#[derive(Clone, Debug, PartialEq, Eq)]
pub enum RecoveryStep {
    /// Nothing more: replication resumes at this position.
    Done(LogSequenceNumber),
    /// To apply the processor's `batch_to_replay`, then to report to `projection_replayed`.
    Project,
    /// To append and synchronise these checkpoint bytes, then to report to
    /// `checkpoint_replayed`.
    WriteCheckpoint(Vec<u8>),
}

/// What recovery asks the caller to do.
#[verifier::ext_equal]
pub enum RecoveryStepView {
    Done(LogSequenceNumber),
    Project,
    WriteCheckpoint(Seq<u8>),
}

impl View for RecoveryStep {
    type V = RecoveryStepView;

    open spec fn view(&self) -> RecoveryStepView {
        match *self {
            RecoveryStep::Done(lsn) => RecoveryStepView::Done(lsn),
            RecoveryStep::Project => RecoveryStepView::Project,
            RecoveryStep::WriteCheckpoint(bytes) => RecoveryStepView::WriteCheckpoint(bytes@),
        }
    }
}

/// What a step of recovery returns.
pub type RecoveryReply<E> = Result<RecoveryStepView, LiveReplicationError<E>>;

/// What a step of recovery returns.
pub open spec fn recovery_view<E>(
    result: Result<RecoveryStep, LiveReplicationError<E>>,
) -> RecoveryReply<E> {
    match result {
        Ok(step) => Ok(step@),
        Err(error) => Err(error),
    }
}

/// What recovery waits for.
#[derive(Clone, Copy, Debug, PartialEq, Eq, Structural)]
pub enum RecoveryStage {
    /// For nothing: it is over.
    Over,
    /// For the projection to apply the next transaction of the journal.
    Projection,
    /// For the checkpoint record of that transaction to be durable.
    Checkpoint,
}

/// A recovery in progress: the checkpoint that it started from, and whether the journal was found
/// to hold its transaction.
#[derive(Clone, Copy, Debug, PartialEq, Eq, Structural)]
pub struct CheckpointedRecovery {
    pub target: AppliedState,
    pub found: bool,
    pub stage: RecoveryStage,
}

/// Everything that recovery works on.
#[verifier::ext_equal]
pub struct RecoveryView {
    pub processor: ProcessorView,
    pub checkpoint: AppliedState,
    pub recovery: CheckpointedRecovery,
}

impl RecoveryView {
    /// What holds at every step.
    pub open spec fn wf(self) -> bool {
        &&& self.processor.wf()
        &&& self.recovery.stage == RecoveryStage::Over ==> self.processor.stage is Idle
        &&& self.recovery.stage != RecoveryStage::Over ==> self.processor.replays()
    }

    /// The next transaction of the journal.
    pub open spec fn batch(self) -> BatchView {
        self.processor.stage->Replaying_0[self.processor.stage->Replaying_1 as int]
    }

    /// The number of transactions that are left.
    pub open spec fn left(self) -> nat {
        if self.processor.replays() {
            (self.processor.stage->Replaying_0.len() - self.processor.stage->Replaying_1) as nat
        } else {
            0
        }
    }

    /// The same at another stage.
    pub open spec fn at(self, stage: RecoveryStage) -> RecoveryView {
        RecoveryView { recovery: CheckpointedRecovery { stage, ..self.recovery }, ..self }
    }

    /// The state after the next transaction could not be applied or checkpointed.
    pub open spec fn failed<E>(self, error: CheckpointApplyError<E>) -> (
        RecoveryView,
        RecoveryReply<E>,
    ) {
        (
            RecoveryView { processor: self.processor.poison(), ..self }.at(RecoveryStage::Over),
            Err(LiveReplicationError::Processor(ProcessorError::Apply(error))),
        )
    }

    /// The state after the next transaction is dealt with.
    pub open spec fn passed(self) -> RecoveryView {
        RecoveryView {
            processor: ProcessorView {
                stage: StageView::Replaying(
                    self.processor.stage->Replaying_0,
                    self.processor.stage->Replaying_1 + 1,
                ),
                ..self.processor
            },
            recovery: CheckpointedRecovery {
                found: self.recovery.found || self.batch().commit_lsn
                    == self.recovery.target.commit_lsn,
                ..self.recovery
            },
            ..self
        }
    }

    /// Whether the journal runs past the checkpoint without holding its transaction.
    pub open spec fn misses_target(self) -> bool {
        self.batch().commit_lsn.0 > self.recovery.target.commit_lsn.0 && !self.recovery.found
    }

    /// Passes over what is applied already, up to the next transaction that has to be applied or
    /// to the end.
    pub open spec fn resumed<E>(self) -> (RecoveryView, RecoveryReply<E>)
        decreases self.left(),
    {
        if !self.processor.replays() {
            let over = RecoveryView {
                processor: ProcessorView { stage: StageView::Idle, ..self.processor },
                ..self
            }.at(RecoveryStage::Over);
            if self.recovery.found {
                (over, Ok(RecoveryStepView::Done(self.checkpoint.end_lsn)))
            } else {
                (
                    over,
                    Err(
                        LiveReplicationError::Checkpoint(
                            CheckpointError::MissingFromJournal(self.recovery.target.commit_lsn),
                        ),
                    ),
                )
            }
        } else if self.misses_target() {
            self.failed(
                CheckpointApplyError::Checkpoint(
                    CheckpointError::MissingFromJournal(self.recovery.target.commit_lsn),
                ),
            )
        } else {
            match apply_needed(self.checkpoint, self.batch()) {
                Err(error) => self.failed(CheckpointApplyError::Checkpoint(error)),
                Ok(false) => self.passed().resumed(),
                Ok(true) => (self.at(RecoveryStage::Projection), Ok(RecoveryStepView::Project)),
            }
        }
    }

    /// The state after recovery started.
    pub open spec fn started<E>(
        processor: ProcessorView,
        checkpoint: AppliedState,
        contents: Result<Seq<u8>, String>,
    ) -> (RecoveryView, RecoveryReply<E>) {
        let (next, result) = processor.recovering::<CheckpointApplyError<E>>(contents);
        let begun = RecoveryView {
            processor: next,
            checkpoint,
            recovery: CheckpointedRecovery {
                target: checkpoint,
                found: checkpoint.commit_lsn.0 == 0,
                stage: RecoveryStage::Over,
            },
        };
        match result {
            Err(error) => (begun, Err(LiveReplicationError::Processor(error))),
            Ok(_) => begun.resumed(),
        }
    }

    /// The state after the projection's attempt to apply the next transaction.
    pub open spec fn projection_replayed<E>(self, outcome: Result<(), E>) -> (
        RecoveryView,
        RecoveryReply<E>,
    ) {
        match outcome {
            Err(error) => self.failed(CheckpointApplyError::Apply(error)),
            Ok(_) => match advanced(self.checkpoint, self.batch()) {
                Err(error) => self.failed(CheckpointApplyError::Checkpoint(error)),
                Ok(CheckpointAdvance::Duplicate) => self.passed().resumed(),
                Ok(CheckpointAdvance::Advanced) => (
                    self.at(RecoveryStage::Checkpoint),
                    Ok(RecoveryStepView::WriteCheckpoint(record(applied_state(self.batch())))),
                ),
            },
        }
    }

    /// The state after the attempt to write the checkpoint record.
    pub open spec fn checkpoint_replayed<E>(self, outcome: Result<(), String>) -> (
        RecoveryView,
        RecoveryReply<E>,
    ) {
        match outcome {
            Err(detail) => self.failed(
                CheckpointApplyError::Checkpoint(CheckpointError::Io(detail)),
            ),
            Ok(_) => RecoveryView {
                checkpoint: applied_state(self.batch()),
                ..self.passed()
            }.resumed(),
        }
    }
}

/// Everything that recovery works on.
pub open spec fn recovering(
    processor: DurableTransactionProcessor,
    checkpoint: AppliedCheckpoint,
    recovery: CheckpointedRecovery,
) -> RecoveryView {
    RecoveryView { processor: processor@, checkpoint: checkpoint@, recovery }
}

fn fail_recovery<E>(
    processor: &mut DurableTransactionProcessor,
    recovery: &mut CheckpointedRecovery,
    error: CheckpointApplyError<E>,
    Ghost(checkpoint): Ghost<AppliedState>,
) -> (result: Result<RecoveryStep, LiveReplicationError<E>>)
    requires
        old(processor)@.replays(),
    ensures
        (
            RecoveryView { processor: final(processor)@, checkpoint, recovery: *final(recovery) },
            recovery_view(result),
        ) == (RecoveryView {
            processor: old(processor)@,
            checkpoint,
            recovery: *old(recovery),
        }).failed(error),
{
    recovery.stage = RecoveryStage::Over;
    let result = processor.batch_replayed(Err(error));
    match result {
        Err(error) => Err(LiveReplicationError::Processor(error)),
        Ok(_) => Err(LiveReplicationError::UnexpectedBoundaryOutcome),
    }
}

fn pass<E>(
    processor: &mut DurableTransactionProcessor,
    recovery: &mut CheckpointedRecovery,
    Ghost(checkpoint): Ghost<AppliedState>,
)
    requires
        old(processor)@.replays(),
    ensures
        (RecoveryView { processor: final(processor)@, checkpoint, recovery: *final(recovery) })
            == (RecoveryView {
            processor: old(processor)@,
            checkpoint,
            recovery: *old(recovery),
        }).passed(),
        final(processor)@.wf(),
{
    if let Some(batch) = processor.batch_to_replay() {
        if batch.commit_lsn() == recovery.target.commit_lsn {
            recovery.found = true;
        }
    }
    let _: Result<(), ProcessorError<CheckpointApplyError<E>>> = processor.batch_replayed(Ok(()));
}

fn resume<E>(
    processor: &mut DurableTransactionProcessor,
    checkpoint: &AppliedCheckpoint,
    recovery: &mut CheckpointedRecovery,
) -> (result: Result<RecoveryStep, LiveReplicationError<E>>)
    requires
        old(processor)@.wf(),
        old(processor)@.stage is Replaying,
    ensures
        (recovering(*final(processor), *checkpoint, *final(recovery)), recovery_view(result))
            == recovering(*old(processor), *checkpoint, *old(recovery)).resumed::<E>(),
        recovering(*final(processor), *checkpoint, *final(recovery)).wf(),
{
    let ghost start = recovering(*processor, *checkpoint, *recovery);
    loop
        invariant
            start == recovering(*old(processor), *checkpoint, *old(recovery)),
            processor@.wf(),
            processor@.stage is Replaying,
            start.resumed::<E>() == recovering(*processor, *checkpoint, *recovery).resumed::<E>(),
        decreases recovering(*processor, *checkpoint, *recovery).left(),
    {
        let needed = match processor.batch_to_replay() {
            None => {
                processor.recovered();
                recovery.stage = RecoveryStage::Over;
                if recovery.found {
                    return Ok(RecoveryStep::Done(checkpoint.state().end_lsn));
                }
                return Err(
                    LiveReplicationError::Checkpoint(
                        CheckpointError::MissingFromJournal(recovery.target.commit_lsn),
                    ),
                );
            },
            Some(batch) => if batch.commit_lsn().0 > recovery.target.commit_lsn.0
                && !recovery.found {
                Err(CheckpointError::MissingFromJournal(recovery.target.commit_lsn))
            } else {
                apply_checkpointed(checkpoint, batch)
            },
        };
        match needed {
            Err(error) => {
                return fail_recovery(
                    processor,
                    recovery,
                    CheckpointApplyError::Checkpoint(error),
                    Ghost(checkpoint@),
                );
            },
            Ok(false) => {
                pass::<E>(processor, recovery, Ghost(checkpoint@));
            },
            Ok(true) => {
                recovery.stage = RecoveryStage::Projection;
                return Ok(RecoveryStep::Project);
            },
        }
    }
}

/// Starts recovery from the journal's contents, or from what reading them reported.
///
/// Transactions that the checkpoint covers are passed over. The journal has to hold the
/// checkpointed transaction itself, exactly.
pub fn recover_checkpointed<E>(
    processor: &mut DurableTransactionProcessor,
    checkpoint: &AppliedCheckpoint,
    contents: Result<Vec<u8>, String>,
) -> (result: (CheckpointedRecovery, Result<RecoveryStep, LiveReplicationError<E>>))
    requires
        old(processor)@.stage is Idle,
    ensures
        (recovering(*final(processor), *checkpoint, result.0), recovery_view(result.1))
            == RecoveryView::started::<E>(
            old(processor)@,
            checkpoint@,
            match contents {
                Ok(bytes) => Ok(bytes@),
                Err(detail) => Err(detail),
            },
        ),
        recovering(*final(processor), *checkpoint, result.0).wf(),
{
    let target = checkpoint.state();
    let mut recovery = CheckpointedRecovery {
        target,
        found: target.commit_lsn.0 == 0,
        stage: RecoveryStage::Over,
    };
    let started: Result<(), ProcessorError<CheckpointApplyError<E>>> = processor.recover(contents);
    match started {
        Err(error) => (recovery, Err(LiveReplicationError::Processor(error))),
        Ok(_) => {
            let result = resume(processor, checkpoint, &mut recovery);
            (recovery, result)
        },
    }
}

/// Takes note of how applying the next transaction of the journal went.
pub fn projection_replayed<E>(
    processor: &mut DurableTransactionProcessor,
    checkpoint: &AppliedCheckpoint,
    recovery: &mut CheckpointedRecovery,
    outcome: Result<(), E>,
) -> (result: Result<RecoveryStep, LiveReplicationError<E>>)
    requires
        recovering(*old(processor), *checkpoint, *old(recovery)).wf(),
        old(recovery).stage == RecoveryStage::Projection,
    ensures
        (recovering(*final(processor), *checkpoint, *final(recovery)), recovery_view(result))
            == recovering(*old(processor), *checkpoint, *old(recovery)).projection_replayed::<E>(
            outcome,
        ),
        recovering(*final(processor), *checkpoint, *final(recovery)).wf(),
{
    match outcome {
        Err(error) => fail_recovery(
            processor,
            recovery,
            CheckpointApplyError::Apply(error),
            Ghost(checkpoint@),
        ),
        Ok(_) => {
            let advance = match processor.batch_to_replay() {
                Some(batch) => checkpoint.advance(batch),
                None => Ok(None),
            };
            match advance {
                Err(error) => fail_recovery(
                    processor,
                    recovery,
                    CheckpointApplyError::Checkpoint(error),
                    Ghost(checkpoint@),
                ),
                Ok(None) => {
                    pass::<E>(processor, recovery, Ghost(checkpoint@));
                    resume(processor, checkpoint, recovery)
                },
                Ok(Some(bytes)) => {
                    recovery.stage = RecoveryStage::Checkpoint;
                    Ok(RecoveryStep::WriteCheckpoint(bytes))
                },
            }
        },
    }
}

/// Takes note of how writing and synchronising the checkpoint record went.
pub fn checkpoint_replayed<E>(
    processor: &mut DurableTransactionProcessor,
    checkpoint: &mut AppliedCheckpoint,
    recovery: &mut CheckpointedRecovery,
    outcome: Result<(), String>,
) -> (result: Result<RecoveryStep, LiveReplicationError<E>>)
    requires
        recovering(*old(processor), *old(checkpoint), *old(recovery)).wf(),
        old(recovery).stage == RecoveryStage::Checkpoint,
    ensures
        (recovering(*final(processor), *final(checkpoint), *final(recovery)), recovery_view(result))
            == recovering(
            *old(processor),
            *old(checkpoint),
            *old(recovery),
        ).checkpoint_replayed::<E>(outcome),
        recovering(*final(processor), *final(checkpoint), *final(recovery)).wf(),
{
    match outcome {
        Err(detail) => fail_recovery(
            processor,
            recovery,
            CheckpointApplyError::Checkpoint(CheckpointError::Io(detail)),
            Ghost(checkpoint@),
        ),
        Ok(_) => {
            if let Some(batch) = processor.batch_to_replay() {
                checkpoint.confirm(batch);
            }
            pass::<E>(processor, recovery, Ghost(checkpoint@));
            resume(processor, checkpoint, recovery)
        },
    }
}

// ---------------------------------------------------------------------------------------------
// Driver
// ---------------------------------------------------------------------------------------------

/// State of a `LiveReplicationDriver`.
#[verifier::ext_equal]
pub struct DriverView {
    pub live: LiveView,
    pub resume_lsn: LogSequenceNumber,
    pub events_seen: u64,
    pub acknowledgements: u64,
}

/// One more, up to the largest number.
pub open spec fn one_more(count: u64) -> u64 {
    if count == u64::MAX {
        count
    } else {
        (count + 1) as u64
    }
}

impl DriverView {
    /// A driver that starts at `resume_lsn`.
    pub open spec fn opened(
        processor: ProcessorView,
        checkpoint: AppliedState,
        resume_lsn: LogSequenceNumber,
    ) -> DriverView {
        DriverView {
            live: LiveView {
                processor,
                checkpoint,
                state: LiveReplicationState::spec_recovered(resume_lsn),
            },
            resume_lsn,
            events_seen: 0,
            acknowledgements: 0,
        }
    }

    /// The state after a step of live replication; an acknowledgement is counted.
    pub open spec fn stepped<E>(self, taken: (LiveView, LiveReply<E>)) -> (
        DriverView,
        LiveReply<E>,
    ) {
        (
            DriverView {
                live: taken.0,
                acknowledgements: if taken.1 matches Ok(
                    LiveStepView::Done(LiveEventOutcome::Acknowledge(_)),
                ) {
                    one_more(self.acknowledgements)
                } else {
                    self.acknowledgements
                },
                ..self
            },
            taken.1,
        )
    }

    /// The state after an event, which is counted whatever comes of it.
    pub open spec fn processed<E>(self, event: CdcEvent) -> (DriverView, LiveReply<E>) {
        DriverView { events_seen: one_more(self.events_seen), ..self }.stepped(
            self.live.event_taken(event),
        )
    }
}

/// Where replication resumes above a snapshot, or why it cannot.
pub open spec fn baseline_position(
    recovered: LogSequenceNumber,
    baseline: LogSequenceNumber,
) -> Result<LogSequenceNumber, BootstrapError> {
    if recovered.0 == 0 {
        Ok(baseline)
    } else if recovered.0 < baseline.0 {
        Err(BootstrapError::RecoveredBeforeBaseline { baseline, recovered })
    } else {
        Ok(recovered)
    }
}

/// Live replication with its counters.
#[derive(Debug)]
pub struct LiveReplicationDriver {
    processor: DurableTransactionProcessor,
    checkpoint: AppliedCheckpoint,
    state: LiveReplicationState,
    resume_lsn: LogSequenceNumber,
    events_seen: u64,
    acknowledgements: u64,
}

impl View for LiveReplicationDriver {
    type V = DriverView;

    closed spec fn view(&self) -> DriverView {
        DriverView {
            live: live(self.processor, self.checkpoint, self.state),
            resume_lsn: self.resume_lsn,
            events_seen: self.events_seen,
            acknowledgements: self.acknowledgements,
        }
    }
}

impl LiveReplicationDriver {
    /// A driver over recovered state.
    pub fn open(
        processor: DurableTransactionProcessor,
        checkpoint: AppliedCheckpoint,
        recovered: LogSequenceNumber,
    ) -> (driver: Self)
        requires
            processor@.stage is Idle,
        ensures
            driver@ == DriverView::opened(processor@, checkpoint@, recovered),
            driver@.live.wf(),
    {
        LiveReplicationDriver {
            processor,
            checkpoint,
            state: LiveReplicationState::recovered(recovered),
            resume_lsn: recovered,
            events_seen: 0,
            acknowledgements: 0,
        }
    }

    /// A driver over recovered state that continues a snapshot. Without any recovered
    /// transaction it starts at the snapshot; recovered state must not end before it.
    pub fn open_from_baseline<E>(
        processor: DurableTransactionProcessor,
        checkpoint: AppliedCheckpoint,
        recovered: LogSequenceNumber,
        baseline: LogSequenceNumber,
    ) -> (result: Result<Self, LiveReplicationError<E>>)
        requires
            processor@.stage is Idle,
        ensures
            match result {
                Ok(driver) => {
                    &&& baseline_position(recovered, baseline) matches Ok(position)
                    &&& driver@ == DriverView::opened(processor@, checkpoint@, position)
                    &&& driver@.live.wf()
                },
                Err(error) => {
                    &&& baseline_position(recovered, baseline) matches Err(expected)
                    &&& error == LiveReplicationError::<E>::Bootstrap(expected)
                },
            },
    {
        if recovered.0 == 0 {
            return Ok(LiveReplicationDriver::open(processor, checkpoint, baseline));
        }
        if recovered.0 < baseline.0 {
            return Err(
                LiveReplicationError::Bootstrap(
                    BootstrapError::RecoveredBeforeBaseline { baseline, recovered },
                ),
            );
        }
        Ok(LiveReplicationDriver::open(processor, checkpoint, recovered))
    }

    /// Where replication resumes.
    pub fn resume_lsn(&self) -> (lsn: LogSequenceNumber)
        ensures
            lsn == self@.resume_lsn,
    {
        self.resume_lsn
    }

    /// What the run did so far.
    pub fn summary(&self) -> (summary: LiveRunSummary)
        ensures
            summary == (LiveRunSummary {
                events_seen: self@.events_seen,
                acknowledgements: self@.acknowledgements,
                progress: self@.live.state.progress,
            }),
    {
        LiveRunSummary {
            events_seen: self.events_seen,
            acknowledgements: self.acknowledgements,
            progress: self.state.progress(),
        }
    }

    /// The durable transaction that waits to be applied to the projection.
    pub fn batch_to_apply(&self) -> (batch: Option<&TransactionBatch>)
        ensures
            match batch {
                Some(batch) => self@.live.processor.stage matches StageView::Applying(expected, _)
                    && expected == batch@,
                None => !(self@.live.processor.stage is Applying),
            },
    {
        self.processor.batch_to_apply()
    }

    /// Takes one replication event.
    pub fn process<E>(&mut self, event: CdcEvent) -> (result: Result<
        LiveStep,
        LiveReplicationError<E>,
    >)
        requires
            old(self)@.live.wf(),
            old(self)@.live.state.stage == LiveStage::Idle,
        ensures
            (final(self)@, reply_view(result)) == old(self)@.processed::<E>(event),
            final(self)@.live.wf(),
    {
        self.events_seen = counted(self.events_seen);
        let result = process_replication_event(
            &mut self.processor,
            &self.checkpoint,
            &mut self.state,
            event,
        );
        self.count_acknowledgement(&result);
        result
    }

    /// Takes note of how writing and synchronising the journal record went.
    pub fn journal_written<E>(&mut self, outcome: Result<(), String>) -> (result: Result<
        LiveStep,
        LiveReplicationError<E>,
    >)
        requires
            old(self)@.live.wf(),
            old(self)@.live.state.stage == LiveStage::Journal,
        ensures
            (final(self)@, reply_view(result)) == old(self)@.stepped::<E>(
                old(self)@.live.journal_written(outcome),
            ),
            final(self)@.live.wf(),
    {
        let result = journal_written(
            &mut self.processor,
            &self.checkpoint,
            &mut self.state,
            outcome,
        );
        self.count_acknowledgement(&result);
        result
    }

    /// Takes note of how applying the transaction to the projection went.
    pub fn projection_applied<E>(&mut self, outcome: Result<(), E>) -> (result: Result<
        LiveStep,
        LiveReplicationError<E>,
    >)
        requires
            old(self)@.live.wf(),
            old(self)@.live.state.stage == LiveStage::Projection,
        ensures
            (final(self)@, reply_view(result)) == old(self)@.stepped::<E>(
                old(self)@.live.projection_applied(outcome),
            ),
            final(self)@.live.wf(),
    {
        let result = projection_applied(
            &mut self.processor,
            &self.checkpoint,
            &mut self.state,
            outcome,
        );
        self.count_acknowledgement(&result);
        result
    }

    /// Takes note of how writing and synchronising the checkpoint record went.
    pub fn checkpoint_written<E>(&mut self, outcome: Result<(), String>) -> (result: Result<
        LiveStep,
        LiveReplicationError<E>,
    >)
        requires
            old(self)@.live.wf(),
            old(self)@.live.state.stage == LiveStage::Checkpoint,
        ensures
            (final(self)@, reply_view(result)) == old(self)@.stepped::<E>(
                old(self)@.live.checkpoint_written(outcome),
            ),
            final(self)@.live.wf(),
    {
        let result = checkpoint_written(
            &mut self.processor,
            &mut self.checkpoint,
            &mut self.state,
            outcome,
        );
        self.count_acknowledgement(&result);
        result
    }

    fn count_acknowledgement<E>(&mut self, result: &Result<LiveStep, LiveReplicationError<E>>)
        ensures
            final(self)@ == (DriverView {
                acknowledgements: if reply_view(*result) matches Ok(
                    LiveStepView::Done(LiveEventOutcome::Acknowledge(_)),
                ) {
                    one_more(old(self)@.acknowledgements)
                } else {
                    old(self)@.acknowledgements
                },
                ..old(self)@
            }),
    {
        if let Ok(LiveStep::Done(LiveEventOutcome::Acknowledge(_))) = result {
            self.acknowledgements = counted(self.acknowledgements);
        }
    }
}

fn counted(count: u64) -> (next: u64)
    ensures
        next == one_more(count),
{
    if count == u64::MAX {
        count
    } else {
        count + 1
    }
}

// ---------------------------------------------------------------------------------------------
// Laws
// ---------------------------------------------------------------------------------------------

/// Whether a step returned an acknowledgement.
pub open spec fn acknowledges<E>(reply: LiveReply<E>) -> bool {
    reply matches Ok(LiveStepView::Done(LiveEventOutcome::Acknowledge(_)))
}

/// What an acknowledgement means: it is the position behind a transaction that is durable and
/// that the checkpoint covers, and the progress has reached it.
pub open spec fn acknowledgement_is_safe<E>(
    after: (LiveView, LiveReply<E>),
    batch: BatchView,
) -> bool {
    &&& after.1 == Ok::<LiveStepView, LiveReplicationError<E>>(
        LiveStepView::Done(LiveEventOutcome::Acknowledge(batch.end_lsn)),
    )
    &&& is_durable(after.0.processor.durable, batch)
    &&& batch.commit_lsn.0 <= after.0.checkpoint.commit_lsn.0
    &&& batch.end_lsn.0 <= after.0.state.progress.applied_lsn.0
}

/// A position is acknowledged only for a transaction that is durable in the journal, applied by
/// the projection and covered by the durable checkpoint. The projection's report alone never
/// acknowledges anything, and the report on the journal does so only for a transaction that the
/// checkpoint covered before.
pub proof fn law_acknowledged_only_when_durable_applied_and_checkpointed<E>(
    before: LiveView,
    event: CdcEvent,
    written: Result<(), String>,
    applied: Result<(), E>,
)
    requires
        before.wf(),
    ensures
        before.state.stage == LiveStage::Idle && acknowledges(before.event_taken::<E>(event).1)
            ==> exists|batch: BatchView|
            acknowledgement_is_safe(before.event_taken::<E>(event), batch) && batch.commit_lsn.0
                <= before.checkpoint.commit_lsn.0,
        before.state.stage == LiveStage::Journal && acknowledges(
            before.journal_written::<E>(written).1,
        ) ==> {
            &&& written is Ok
            &&& acknowledgement_is_safe(
                before.journal_written::<E>(written),
                before.processor.stage->Writing_0,
            )
            &&& before.processor.stage->Writing_0.commit_lsn.0 <= before.checkpoint.commit_lsn.0
        },
        before.state.stage == LiveStage::Projection && apply_needed(
            before.checkpoint,
            before.batch(),
        ) == Ok::<bool, CheckpointError>(true) ==> !acknowledges(
            before.projection_applied::<E>(applied).1,
        ),
        before.state.stage == LiveStage::Checkpoint && acknowledges(
            before.checkpoint_written::<E>(written).1,
        ) ==> {
            &&& written is Ok
            &&& acknowledgement_is_safe(before.checkpoint_written::<E>(written), before.batch())
            &&& before.checkpoint_written::<E>(written).0.checkpoint == applied_state(
                before.batch(),
            )
        },
{
    if before.state.stage == LiveStage::Idle && acknowledges(before.event_taken::<E>(event).1) {
        match event {
            CdcEvent::XLogData { data, .. } => {
                let processor = before.processor.pushed::<CheckpointApplyError<E>>(data@).0;
                let batch = processor.stage->Applying_0;
                assert(acknowledgement_is_safe(before.event_taken::<E>(event), batch));
            },
            CdcEvent::Commit { lsn, end_lsn, commit_time_micros } => {
                let processor = before.processor.consumed::<CheckpointApplyError<E>>(
                    commit_message(lsn, end_lsn, commit_time_micros),
                ).0;
                let batch = processor.stage->Applying_0;
                assert(acknowledgement_is_safe(before.event_taken::<E>(event), batch));
            },
            _ => {},
        }
    }
}

proof fn lemma_offer_keeps_progress<E>(before: LiveView)
    requires
        before.state.progress.ordered(),
    ensures
        before.offered::<E>().0.state.progress.reaches(before.state.progress),
        before.offered::<E>().0.state.progress.ordered(),
{
}

proof fn lemma_carry_keeps_progress<E>(
    before: LiveView,
    step: Result<StepView, ProcessorError<CheckpointApplyError<E>>>,
)
    requires
        before.state.progress.ordered(),
    ensures
        before.carried::<E>(step).0.state.progress.reaches(before.state.progress),
        before.carried::<E>(step).0.state.progress.ordered(),
{
    lemma_offer_keeps_progress::<E>(before);
}

proof fn lemma_event_keeps_progress<E>(before: LiveView, event: CdcEvent)
    requires
        before.state.progress.ordered(),
    ensures
        before.event_taken::<E>(event).0.state.progress.reaches(before.state.progress),
        before.event_taken::<E>(event).0.state.progress.ordered(),
{
    match event {
        CdcEvent::XLogData { wal_start, wal_end, data, .. } => {
            let (processor, step) = before.processor.pushed::<CheckpointApplyError<E>>(data@);
            let fed = before.received(wal_start).received(wal_end).with_processor(processor);
            lemma_carry_keeps_progress::<E>(fed, step);
        },
        CdcEvent::Commit { lsn, end_lsn, commit_time_micros } => {
            let (processor, step) = before.processor.consumed::<CheckpointApplyError<E>>(
                commit_message(lsn, end_lsn, commit_time_micros),
            );
            lemma_carry_keeps_progress::<E>(
                before.received(end_lsn).with_processor(processor),
                step,
            );
        },
        _ => {},
    }
}

/// No event and no report ever moves any position of the progress backwards, and the positions
/// stay in order.
pub proof fn law_progress_never_regresses<E>(
    before: LiveView,
    event: CdcEvent,
    written: Result<(), String>,
    applied: Result<(), E>,
)
    requires
        before.state.progress.ordered(),
    ensures
        before.event_taken::<E>(event).0.state.progress.reaches(before.state.progress),
        before.journal_written::<E>(written).0.state.progress.reaches(before.state.progress),
        before.projection_applied::<E>(applied).0.state.progress.reaches(before.state.progress),
        before.checkpoint_written::<E>(written).0.state.progress.reaches(before.state.progress),
        before.event_taken::<E>(event).0.state.progress.ordered(),
        before.journal_written::<E>(written).0.state.progress.ordered(),
        before.projection_applied::<E>(applied).0.state.progress.ordered(),
        before.checkpoint_written::<E>(written).0.state.progress.ordered(),
{
    lemma_event_keeps_progress::<E>(before, event);
    let processor = before.processor.written::<CheckpointApplyError<E>>(written).0;
    lemma_offer_keeps_progress::<E>(before.with_processor(processor));
}

/// Whether neither the durable nor the applied position nor the checkpoint moved.
pub open spec fn nothing_published(before: LiveView, after: LiveView) -> bool {
    &&& after.checkpoint == before.checkpoint
    &&& after.state.progress.durable_lsn == before.state.progress.durable_lsn
    &&& after.state.progress.applied_lsn == before.state.progress.applied_lsn
}

/// A refused event or a failed report publishes nothing, and every failure of a transaction
/// poisons the processor.
pub proof fn law_failure_publishes_nothing<E>(
    before: LiveView,
    event: CdcEvent,
    written: Result<(), String>,
    applied: Result<(), E>,
)
    requires
        before.wf(),
    ensures
        before.event_taken::<E>(event).1 is Err ==> nothing_published(
            before,
            before.event_taken::<E>(event).0,
        ),
        before.event_taken::<E>(event).1 matches Err(LiveReplicationError::Processor(_))
            ==> before.event_taken::<E>(event).0.processor.poisoned,
        before.state.stage == LiveStage::Journal && before.journal_written::<E>(written).1 is Err
            ==> nothing_published(before, before.journal_written::<E>(written).0)
            && before.journal_written::<E>(written).0.processor.poisoned,
        before.projection_applied::<E>(applied).1 is Err ==> nothing_published(
            before,
            before.projection_applied::<E>(applied).0,
        ) && before.projection_applied::<E>(applied).0.processor.poisoned,
        before.checkpoint_written::<E>(written).1 is Err ==> nothing_published(
            before,
            before.checkpoint_written::<E>(written).0,
        ) && before.checkpoint_written::<E>(written).0.processor.poisoned,
{
}

/// The boundaries of a transaction lead where they should: a begin never acknowledges or asks for
/// anything, and a commit never merely continues.
pub proof fn law_boundaries_are_never_mistaken<E>(
    before: LiveView,
    final_lsn: LogSequenceNumber,
    xid: u32,
    lsn: LogSequenceNumber,
    end_lsn: LogSequenceNumber,
    commit_time_micros: i64,
)
    ensures
        ({
            let reply = before.event_taken::<E>(
                CdcEvent::Begin { final_lsn, xid, commit_time_micros },
            ).1;
            reply matches Ok(step) ==> step == LiveStepView::Done(LiveEventOutcome::Continue)
        }),
        ({
            let reply = before.event_taken::<E>(
                CdcEvent::Commit { lsn, end_lsn, commit_time_micros },
            ).1;
            reply != Ok::<LiveStepView, LiveReplicationError<E>>(
                LiveStepView::Done(LiveEventOutcome::Continue),
            )
        }),
{
}

/// Replication never stops cleanly inside a transaction, and a stop publishes nothing.
pub proof fn law_stop_inside_a_transaction_fails<E>(before: LiveView, reached: LogSequenceNumber)
    ensures
        before.state.transaction_open ==> before.event_taken::<E>(
            CdcEvent::StoppedAt { reached },
        ).1 == Err::<LiveStepView, LiveReplicationError<E>>(
            LiveReplicationError::StoppedMidTransaction(reached),
        ),
        nothing_published(before, before.event_taken::<E>(CdcEvent::StoppedAt { reached }).0),
{
}

impl RecoveryView {
    /// Whether the checkpoint covers every transaction of the journal that recovery has dealt
    /// with.
    pub open spec fn covers_replayed(self) -> bool {
        self.processor.stage matches StageView::Replaying(batches, next) ==> forall|i: int|
            0 <= i < next && i < batches.len() ==> (#[trigger] batches[i]).commit_lsn.0
                <= self.checkpoint.commit_lsn.0
    }
}

/// When recovery is over, the checkpoint covers every transaction of the journal, the journal
/// holds the transaction that the checkpoint named, and replication resumes behind the
/// checkpoint.
pub proof fn law_recovery_ends_with_the_whole_journal_covered<E>(before: RecoveryView)
    requires
        before.processor.wf(),
        before.processor.stage is Replaying,
        before.covers_replayed(),
    ensures
        ({
            let (after, reply) = before.resumed::<E>();
            &&& after.checkpoint == before.checkpoint
            &&& reply matches Ok(RecoveryStepView::Done(lsn)) ==> {
                &&& lsn == after.checkpoint.end_lsn
                &&& after.recovery.found
                &&& forall|i: int|
                    0 <= i < before.processor.stage->Replaying_0.len() ==> (
                    #[trigger] before.processor.stage->Replaying_0[i]).commit_lsn.0
                        <= after.checkpoint.commit_lsn.0
            }
            &&& reply matches Ok(RecoveryStepView::Project) ==> {
                &&& after.covers_replayed()
                &&& after.processor.replays()
                &&& after.processor.stage->Replaying_0 == before.processor.stage->Replaying_0
                &&& after.batch().commit_lsn.0 > after.checkpoint.commit_lsn.0
            }
        }),
    decreases before.left(),
{
    if before.processor.replays() && !before.misses_target() {
        if apply_needed(before.checkpoint, before.batch()) == Ok::<bool, CheckpointError>(false) {
            law_recovery_ends_with_the_whole_journal_covered::<E>(before.passed());
        }
    }
}

/// Checkpointing the transaction that recovery has applied keeps everything before it covered.
pub proof fn law_recovery_checkpoint_covers_more<E>(before: RecoveryView)
    requires
        before.wf(),
        before.recovery.stage == RecoveryStage::Checkpoint,
        before.covers_replayed(),
        before.batch().commit_lsn.0 > before.checkpoint.commit_lsn.0,
    ensures
        (RecoveryView {
            checkpoint: applied_state(before.batch()),
            ..before.passed()
        }).covers_replayed(),
{
}

/// A rejected event is counted and never acknowledged.
pub proof fn law_rejected_event_is_counted_but_never_acknowledged<E>(
    driver: DriverView,
    event: CdcEvent,
)
    ensures
        driver.processed::<E>(event).0.events_seen == one_more(driver.events_seen),
        driver.processed::<E>(event).1 is Err ==> driver.processed::<E>(event).0.acknowledgements
            == driver.acknowledgements,
{
}

/// A transaction that completes live goes the whole way: its journal record is asked for, then the
/// projection, then its own checkpoint record, and only then its end is acknowledged. Checkpoint
/// and progress then stand at that transaction.
pub proof fn law_live_transaction_goes_the_whole_way<E>(
    before: LiveView,
    batch: BatchView,
    lsn: LogSequenceNumber,
    end_lsn: LogSequenceNumber,
    commit_time_micros: i64,
)
    requires
        before.wf(),
        before.state.stage == LiveStage::Idle,
        !before.processor.poisoned,
        before.processor.stream.consumed(
            commit_message(lsn, end_lsn, commit_time_micros),
        ).1 == Ok::<
            Option<BatchView>,
            StreamError,
        >(Some(batch)),
        !before.processor.durable.contains_key(batch.commit_lsn.0),
        stored(batch) is Ok,
        before.checkpoint.commit_lsn.0 < batch.commit_lsn.0,
        before.checkpoint.end_lsn.0 <= batch.end_lsn.0,
        batch.ordered(),
    ensures
        ({
            let taken = before.event_taken::<E>(
                CdcEvent::Commit { lsn, end_lsn, commit_time_micros },
            );
            let written = taken.0.journal_written::<E>(Ok(()));
            let projected = written.0.projection_applied::<E>(Ok(()));
            let settled = projected.0.checkpoint_written::<E>(Ok(()));
            &&& taken.1 == Ok::<LiveStepView, LiveReplicationError<E>>(
                LiveStepView::WriteJournal(stored(batch)->Ok_0),
            )
            &&& written.1 == Ok::<LiveStepView, LiveReplicationError<E>>(LiveStepView::Project)
            &&& written.0.processor.stage == StageView::Applying(batch, ReplayDecision::Apply)
            &&& projected.1 == Ok::<LiveStepView, LiveReplicationError<E>>(
                LiveStepView::WriteCheckpoint(record(applied_state(batch))),
            )
            &&& settled.1 == Ok::<LiveStepView, LiveReplicationError<E>>(
                LiveStepView::Done(LiveEventOutcome::Acknowledge(batch.end_lsn)),
            )
            &&& settled.0.checkpoint == applied_state(batch)
            &&& settled.0.state.stage == LiveStage::Idle
            &&& !settled.0.state.transaction_open
            &&& settled.0.state.progress.applied_lsn.0 == if batch.end_lsn.0
                > before.state.progress.applied_lsn.0 {
                batch.end_lsn.0
            } else {
                before.state.progress.applied_lsn.0
            }
            &&& settled.0.state.progress.durable_lsn.0 == if batch.end_lsn.0
                > before.state.progress.durable_lsn.0 {
                batch.end_lsn.0
            } else {
                before.state.progress.durable_lsn.0
            }
            &&& settled.0.processor.durable == before.processor.durable.insert(
                batch.commit_lsn.0,
                batch_fingerprint(batch),
            )
        }),
{
    law_every_later_transaction_advances(before.checkpoint, batch);
}

/// A transaction that is durable and that the checkpoint covers is acknowledged at once when it is
/// delivered again; it is neither written nor applied nor checkpointed a second time.
pub proof fn law_settled_transaction_is_acknowledged_at_once<E>(
    before: LiveView,
    batch: BatchView,
    lsn: LogSequenceNumber,
    end_lsn: LogSequenceNumber,
    commit_time_micros: i64,
)
    requires
        before.wf(),
        before.state.stage == LiveStage::Idle,
        !before.processor.poisoned,
        before.processor.stream.consumed(
            commit_message(lsn, end_lsn, commit_time_micros),
        ).1 == Ok::<
            Option<BatchView>,
            StreamError,
        >(Some(batch)),
        is_durable(before.processor.durable, batch),
        batch.commit_lsn.0 < before.checkpoint.commit_lsn.0 || applied_state(batch)
            == before.checkpoint,
    ensures
        ({
            let (after, reply) = before.event_taken::<E>(
                CdcEvent::Commit { lsn, end_lsn, commit_time_micros },
            );
            &&& reply == Ok::<LiveStepView, LiveReplicationError<E>>(
                LiveStepView::Done(LiveEventOutcome::Acknowledge(batch.end_lsn)),
            )
            &&& after.checkpoint == before.checkpoint
            &&& after.processor.durable == before.processor.durable
            &&& after.state.stage == LiveStage::Idle
        }),
{
}

/// Whether a durable transaction is applied depends on the checkpoint alone: one behind it is, one
/// before it is not, and the one it names is not; another one at its position is a mismatch.
pub proof fn law_only_what_is_behind_the_checkpoint_is_applied(
    applied: AppliedState,
    batch: BatchView,
)
    ensures
        apply_needed(applied, batch) == Ok::<bool, CheckpointError>(true) <==> batch.commit_lsn.0
            > applied.commit_lsn.0,
        apply_needed(applied, batch) == Ok::<bool, CheckpointError>(false) <==> batch.commit_lsn.0
            < applied.commit_lsn.0 || applied_state(batch) == applied,
        apply_needed(applied, batch) is Err ==> apply_needed(applied, batch) == Err::<
            bool,
            CheckpointError,
        >(CheckpointError::DurableMismatch(batch.commit_lsn)),
{
}

/// The greater of two positions.
pub open spec fn greater(left: LogSequenceNumber, right: LogSequenceNumber) -> int {
    if left.0 < right.0 {
        right.0 as int
    } else {
        left.0 as int
    }
}

/// What an event that concerns no transaction does: a keepalive moves the received position up to
/// what the server has and nothing else; a logical message is refused under its own prefix and
/// changes nothing; a stop outside a transaction stops where it was reached.
pub proof fn law_events_between_transactions<E>(
    before: LiveView,
    wal_end: LogSequenceNumber,
    reply_requested: bool,
    server_time_micros: i64,
    transactional: bool,
    lsn: LogSequenceNumber,
    prefix: String,
    content: Vec<u8>,
)
    ensures
        ({
            let (after, reply) = before.event_taken::<E>(
                CdcEvent::KeepAlive { wal_end, reply_requested, server_time_micros },
            );
            &&& reply == Ok::<LiveStepView, LiveReplicationError<E>>(
                LiveStepView::Done(LiveEventOutcome::Continue),
            )
            &&& after.state.progress.received_lsn.0 == greater(
                before.state.progress.received_lsn,
                wal_end,
            )
            &&& after.state.progress.durable_lsn == before.state.progress.durable_lsn
            &&& after.state.progress.applied_lsn == before.state.progress.applied_lsn
            &&& after.state.transaction_open == before.state.transaction_open
            &&& after.state.stage == before.state.stage
            &&& after.processor == before.processor
            &&& after.checkpoint == before.checkpoint
        }),
        before.event_taken::<E>(CdcEvent::Message { transactional, lsn, prefix, content }) == (
            before,
            Err::<LiveStepView, LiveReplicationError<E>>(
                LiveReplicationError::UnsupportedLogicalMessage(prefix),
            ),
        ),
        !before.state.transaction_open ==> before.event_taken::<E>(
            CdcEvent::StoppedAt { reached: wal_end },
        ).1 == Ok::<LiveStepView, LiveReplicationError<E>>(
            LiveStepView::Done(LiveEventOutcome::Stop(wal_end)),
        ),
{
}

/// A begin outside a transaction opens one, under the id and the position it declares; data inside
/// it is taken for the message that it decodes to.
pub proof fn law_events_inside_a_transaction<E>(
    before: LiveView,
    final_lsn: LogSequenceNumber,
    xid: u32,
    commit_time_micros: i64,
    wal_start: LogSequenceNumber,
    wal_end: LogSequenceNumber,
    server_time_micros: i64,
    data: Vec<u8>,
)
    requires
        !before.processor.poisoned,
    ensures
        before.processor.stream.builder.open is None ==> {
            let (after, reply) = before.event_taken::<E>(
                CdcEvent::Begin { final_lsn, xid, commit_time_micros },
            );
            &&& reply == Ok::<LiveStepView, LiveReplicationError<E>>(
                LiveStepView::Done(LiveEventOutcome::Continue),
            )
            &&& after.state.transaction_open
            &&& after.processor.stream.builder.open matches Some(open)
            &&& open.xid == xid
            &&& open.final_lsn == final_lsn
            &&& open.changes.len() == 0
        },
        ({
            let (after, reply) = before.event_taken::<E>(
                CdcEvent::XLogData { wal_start, wal_end, server_time_micros, data },
            );
            &&& message_of(data@) matches Err(error) ==> reply == Err::<
                LiveStepView,
                LiveReplicationError<E>,
            >(LiveReplicationError::Processor(ProcessorError::Decode(error)))
            &&& message_of(data@) matches Ok(message) ==> {
                let (stream, emitted) = before.processor.stream.consumed(message);
                &&& emitted matches Ok(None) ==> {
                    &&& reply == Ok::<LiveStepView, LiveReplicationError<E>>(
                        LiveStepView::Done(LiveEventOutcome::Continue),
                    )
                    &&& after.processor.stream == stream
                    &&& after.state.progress.received_lsn.0 == greater(
                        LogSequenceNumber(
                            greater(before.state.progress.received_lsn, wal_start) as u64,
                        ),
                        wal_end,
                    )
                    &&& after.state.transaction_open == before.state.transaction_open
                }
                &&& emitted matches Err(error) ==> reply == Err::<
                    LiveStepView,
                    LiveReplicationError<E>,
                >(LiveReplicationError::Processor(ProcessorError::Stream(error)))
            }
        }),
{
    law_begin_opens_an_empty_transaction(before.processor.stream.builder, xid, final_lsn);
}

/// Replication continues where recovery ended, or at the snapshot where nothing was recovered;
/// recovered state that ends before the snapshot is refused.
pub proof fn law_replication_continues_without_a_gap(
    recovered: LogSequenceNumber,
    baseline: LogSequenceNumber,
)
    ensures
        baseline_position(recovered, baseline) matches Ok(position) ==> {
            &&& baseline.0 <= position.0
            &&& position == recovered || recovered.0 == 0 && position == baseline
        },
        baseline_position(recovered, baseline) is Err <==> 0 < recovered.0 < baseline.0,
{
}

/// A driver starts at the position that it resumes from: everything up to there counts as received,
/// durable and applied, no transaction is open, and nothing was counted.
pub proof fn law_driver_starts_where_it_resumes(
    processor: ProcessorView,
    checkpoint: AppliedState,
    resume_lsn: LogSequenceNumber,
)
    ensures
        ({
            let driver = DriverView::opened(processor, checkpoint, resume_lsn);
            &&& driver.resume_lsn == resume_lsn
            &&& driver.live.processor == processor
            &&& driver.live.checkpoint == checkpoint
            &&& driver.live.state.progress.received_lsn == resume_lsn
            &&& driver.live.state.progress.durable_lsn == resume_lsn
            &&& driver.live.state.progress.applied_lsn == resume_lsn
            &&& !driver.live.state.transaction_open
            &&& driver.live.state.stage == LiveStage::Idle
            &&& driver.events_seen == 0
            &&& driver.acknowledgements == 0
        }),
{
}

/// A driver counts every event once and every acknowledgement once, up to the largest number.
pub proof fn law_driver_counts_what_happened<E>(
    driver: DriverView,
    event: CdcEvent,
    taken: (LiveView, LiveReply<E>),
)
    ensures
        driver.events_seen < u64::MAX ==> driver.processed::<E>(event).0.events_seen
            == driver.events_seen + 1,
        driver.events_seen == u64::MAX ==> driver.processed::<E>(event).0.events_seen == u64::MAX,
        driver.acknowledgements == u64::MAX ==> driver.stepped(taken).0.acknowledgements
            == u64::MAX,
        driver.stepped(taken).1 == taken.1,
        driver.stepped(taken).0.live == taken.0,
        driver.stepped(taken).0.events_seen == driver.events_seen,
        driver.stepped(taken).0.resume_lsn == driver.resume_lsn,
        driver.acknowledgements < u64::MAX ==> driver.stepped(taken).0.acknowledgements
            == driver.acknowledgements + if acknowledges(taken.1) {
            1int
        } else {
            0
        },
        driver.processed::<E>(event).1 == driver.live.event_taken::<E>(event).1,
        driver.processed::<E>(event).0.live == driver.live.event_taken::<E>(event).0,
{
}

/// Recovery passes over exactly what the checkpoint covers: it stops at the first transaction of
/// the journal behind the checkpoint, and is over only where there is none. As long as the journal
/// holds what the checkpoint names, nothing but a mismatch stops it.
pub proof fn law_recovery_passes_over_what_is_covered<E>(before: RecoveryView)
    requires
        before.processor.wf(),
        before.processor.stage is Replaying,
    ensures
        ({
            let batches = before.processor.stage->Replaying_0;
            let from = before.processor.stage->Replaying_1;
            let applied = before.checkpoint;
            let (after, reply) = before.resumed::<E>();
            &&& reply matches Ok(RecoveryStepView::Project) ==> {
                &&& after.processor.stage matches StageView::Replaying(same, at)
                &&& same == batches
                &&& from <= at < batches.len()
                &&& batches[at as int].commit_lsn.0 > applied.commit_lsn.0
                &&& forall|i: int|
                    from <= i < at ==> (#[trigger] batches[i]).commit_lsn.0 <= applied.commit_lsn.0
                &&& after.recovery.stage == RecoveryStage::Projection
            }
            &&& reply matches Ok(RecoveryStepView::Done(lsn)) ==> {
                &&& lsn == applied.end_lsn
                &&& forall|i: int|
                    from <= i < batches.len() ==> (#[trigger] batches[i]).commit_lsn.0
                        <= applied.commit_lsn.0
                &&& after.processor.stage is Idle
                &&& after.processor.poisoned == before.processor.poisoned
            }
            &&& before.recovery.found && (forall|i: int|
                from <= i < batches.len() && (#[trigger] batches[i]).commit_lsn
                    == applied.commit_lsn ==> applied_state(batches[i]) == applied) ==> reply is Ok
            &&& !(reply matches Ok(RecoveryStepView::WriteCheckpoint(_)))
            &&& after.processor.durable == before.processor.durable
        }),
    decreases before.left(),
{
    if before.processor.replays() && !before.misses_target() {
        if apply_needed(before.checkpoint, before.batch()) == Ok::<bool, CheckpointError>(false) {
            law_recovery_passes_over_what_is_covered::<E>(before.passed());
        }
    }
}

/// Recovery does not go past a checkpoint whose transaction the journal does not hold: it ends
/// with the position that is missing.
pub proof fn law_recovery_misses_nothing<E>(before: RecoveryView)
    requires
        before.processor.wf(),
        before.processor.stage is Replaying,
        !before.recovery.found,
        before.checkpoint == before.recovery.target,
        forall|i: int|
            before.processor.stage->Replaying_1 <= i < before.processor.stage->Replaying_0.len()
                ==> (#[trigger] before.processor.stage->Replaying_0[i]).commit_lsn
                != before.recovery.target.commit_lsn,
    ensures
        before.resumed::<E>().1 is Err,
        ({
            let missing = CheckpointError::MissingFromJournal(before.recovery.target.commit_lsn);
            let error = before.resumed::<E>().1->Err_0;
            ||| error == LiveReplicationError::<E>::Checkpoint(missing)
            ||| error == LiveReplicationError::<E>::Processor(
                ProcessorError::Apply(CheckpointApplyError::Checkpoint(missing)),
            )
        }),
    decreases before.left(),
{
    if before.processor.replays() && !before.misses_target() {
        assert(before.batch().commit_lsn != before.recovery.target.commit_lsn);
        if apply_needed(before.checkpoint, before.batch()) == Ok::<bool, CheckpointError>(false) {
            law_recovery_misses_nothing::<E>(before.passed());
        }
    }
}

/// A transaction that recovery applies gets its own checkpoint record, and once that is written
/// the checkpoint names it and recovery goes on with the one behind it.
pub proof fn law_recovered_transaction_is_checkpointed<E>(before: RecoveryView)
    requires
        before.wf(),
        before.processor.replays(),
        before.batch().ordered(),
        before.checkpoint.commit_lsn.0 < before.batch().commit_lsn.0,
        before.checkpoint.end_lsn.0 <= before.batch().end_lsn.0,
    ensures
        ({
            let (after, reply) = before.projection_replayed::<E>(Ok(()));
            &&& reply == Ok::<RecoveryStepView, LiveReplicationError<E>>(
                RecoveryStepView::WriteCheckpoint(record(applied_state(before.batch()))),
            )
            &&& after.batch() == before.batch()
            &&& after.checkpoint == before.checkpoint
            &&& after.recovery.stage == RecoveryStage::Checkpoint
        }),
        before.checkpoint_replayed::<E>(Ok(())).0.checkpoint == applied_state(before.batch()),
{
    law_every_later_transaction_advances(before.checkpoint, before.batch());
    let next = RecoveryView { checkpoint: applied_state(before.batch()), ..before.passed() };
    lemma_resume_keeps_the_checkpoint::<E>(next);
}

proof fn lemma_resume_keeps_the_checkpoint<E>(before: RecoveryView)
    ensures
        before.resumed::<E>().0.checkpoint == before.checkpoint,
    decreases before.left(),
{
    if before.processor.replays() && !before.misses_target() {
        if apply_needed(before.checkpoint, before.batch()) == Ok::<bool, CheckpointError>(false) {
            lemma_resume_keeps_the_checkpoint::<E>(before.passed());
        }
    }
}

// ---------------------------------------------------------------------------------------------
// Diagnostics
// ---------------------------------------------------------------------------------------------

/// A text in the quoted form of `core::fmt::Debug`.
pub uninterp spec fn quoted(text: Seq<char>) -> Seq<char>;

/// A text in quotation marks, with what cannot be printed escaped.
///
/// Trusted: `format!` with `{:?}`, that is the `core::fmt::Debug` of `str`. What it gives depends
/// on the text alone, and has the name `quoted` here; which characters it escapes is left unsaid.
#[verifier::external_body]
fn quoted_text(text: &str) -> (out: String)
    ensures
        out@ == quoted(text@),
{
    format!("{text:?}")
}

impl<E: Diagnostic> Diagnostic for CheckpointApplyError<E> {
    open spec fn spec_message(&self) -> Seq<char> {
        match *self {
            CheckpointApplyError::Apply(error) => "projection apply: "@ + error.spec_message(),
            CheckpointApplyError::Checkpoint(error) => "applied checkpoint: "@
                + error.spec_message(),
        }
    }

    fn message(&self) -> String {
        match self {
            CheckpointApplyError::Apply(error) => {
                joined("projection apply: ", error.message().as_str())
            },
            CheckpointApplyError::Checkpoint(error) => {
                joined("applied checkpoint: ", error.message().as_str())
            },
        }
    }
}

impl<E: Diagnostic> Diagnostic for LiveReplicationError<E> {
    open spec fn spec_message(&self) -> Seq<char> {
        match *self {
            LiveReplicationError::Journal(error) => "journal: "@ + error.spec_message(),
            LiveReplicationError::Checkpoint(error) => "checkpoint: "@ + error.spec_message(),
            LiveReplicationError::Processor(error) => "processor: "@ + error.spec_message(),
            LiveReplicationError::Bootstrap(error) => "bootstrap: "@ + error.spec_message(),
            LiveReplicationError::Transport(detail) => "transport: "@ + detail@,
            LiveReplicationError::UnsupportedLogicalMessage(prefix) => {
                "unsupported logical replication message "@ + quoted(prefix@)
            },
            LiveReplicationError::StoppedMidTransaction(lsn) => {
                "replication stopped mid-transaction at "@ + lsn_name(lsn)
            },
            LiveReplicationError::UnexpectedBoundaryOutcome => {
                "unexpected transaction-boundary processing outcome"@
            },
        }
    }

    fn message(&self) -> String {
        match self {
            LiveReplicationError::Journal(error) => joined("journal: ", error.message().as_str()),
            LiveReplicationError::Checkpoint(error) => {
                joined("checkpoint: ", error.message().as_str())
            },
            LiveReplicationError::Processor(error) => {
                joined("processor: ", error.message().as_str())
            },
            LiveReplicationError::Bootstrap(error) => {
                joined("bootstrap: ", error.message().as_str())
            },
            LiveReplicationError::Transport(detail) => joined("transport: ", detail.as_str()),
            LiveReplicationError::UnsupportedLogicalMessage(prefix) => {
                joined(
                    "unsupported logical replication message ",
                    quoted_text(prefix.as_str()).as_str(),
                )
            },
            LiveReplicationError::StoppedMidTransaction(lsn) => {
                joined("replication stopped mid-transaction at ", lsn_text(*lsn).as_str())
            },
            LiveReplicationError::UnexpectedBoundaryOutcome => {
                "unexpected transaction-boundary processing outcome".to_owned()
            },
        }
    }
}

} // verus!
