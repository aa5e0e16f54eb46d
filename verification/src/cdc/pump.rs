//! Coordinator that makes transactions durable before the server hears of them.
//!
//! The order at a commit is fixed: assemble, append, synchronise, mark durable, acknowledge.
//! What the coordinator cannot do itself (receive, write, read, acknowledge) it asks for by a
//! `PumpStep`; the outcome is handed to the method named there.

use super::assembler::{
    ActionView, AssemblerAction, AssemblerError, AssemblyView, CdcAssembler,
};
use super::codec::encoded;
use super::durable::{
    compared_payload, record, replayable, AppendOutcome, AppendStep, DurableCdcLog,
    DurableLogError, LogView,
};
use super::event::CdcEvent;
use super::lsn::LogSequenceNumber;
use super::model::{ModelBatchView, TransactionBatch};
use super::postgres::{map_event, to_pg_lsn, PostgresCdcError, PostgresErrorView, TransportEvent};
use super::progress::{CdcProgressError, CdcProgressTracker, ProgressView};
use crate::text::joined;
use vstd::prelude::*;

verus! {

/// Result of one round of the coordinator.
#[derive(Clone, Debug, PartialEq, Eq)]
pub enum CdcPumpEvent {
    /// A complete transaction is durable, and the server may know it.
    Transaction { batch: TransactionBatch, append: AppendOutcome },
    /// The stream reached its configured end.
    StoppedAt(LogSequenceNumber),
    /// The server ended the stream.
    EndOfStream,
}

/// Contents of a `CdcPumpEvent`.
#[verifier::ext_equal]
pub enum PumpEventView {
    Transaction { batch: ModelBatchView, append: AppendOutcome },
    StoppedAt(LogSequenceNumber),
    EndOfStream,
}

impl View for CdcPumpEvent {
    type V = PumpEventView;

    open spec fn view(&self) -> PumpEventView {
        match *self {
            CdcPumpEvent::Transaction { batch, append } => {
                PumpEventView::Transaction { batch: batch@, append }
            },
            CdcPumpEvent::StoppedAt(lsn) => PumpEventView::StoppedAt(lsn),
            CdcPumpEvent::EndOfStream => PumpEventView::EndOfStream,
        }
    }
}

/// Why a round of the coordinator fails.
#[derive(Debug, PartialEq, Eq)]
pub enum CdcPumpError {
    Transport(PostgresCdcError),
    Assembly(AssemblerError),
    Durable(DurableLogError),
    Progress(CdcProgressError),
}

/// Contents of a `CdcPumpError`.
#[verifier::ext_equal]
pub enum PumpErrorView {
    Transport(PostgresErrorView),
    Assembly(AssemblerError),
    Durable(DurableLogError),
    Progress(CdcProgressError),
}

impl View for CdcPumpError {
    type V = PumpErrorView;

    open spec fn view(&self) -> PumpErrorView {
        match *self {
            CdcPumpError::Transport(error) => PumpErrorView::Transport(error@),
            CdcPumpError::Assembly(error) => PumpErrorView::Assembly(error),
            CdcPumpError::Durable(error) => PumpErrorView::Durable(error),
            CdcPumpError::Progress(error) => PumpErrorView::Progress(error),
        }
    }
}

/// What the coordinator needs next.
#[derive(Clone, Debug, PartialEq, Eq)]
pub enum PumpStep {
    /// To receive from the transport, and to hand the outcome to `received`.
    Receive,
    /// To append these bytes to the log and synchronise it, and to report to `written`.
    Write(Vec<u8>),
    /// To read the log, and to hand its contents to `compared`.
    Compare,
    /// To report this raw position to the server as durable, and to call `acknowledged`.
    Acknowledge(u64),
    /// Nothing: the round is over.
    Done(CdcPumpEvent),
}

/// Contents of a `PumpStep`.
#[verifier::ext_equal]
pub enum PumpStepView {
    Receive,
    Write(Seq<u8>),
    Compare,
    Acknowledge(u64),
    Done(PumpEventView),
}

impl View for PumpStep {
    type V = PumpStepView;

    open spec fn view(&self) -> PumpStepView {
        match *self {
            PumpStep::Receive => PumpStepView::Receive,
            PumpStep::Write(bytes) => PumpStepView::Write(bytes@),
            PumpStep::Compare => PumpStepView::Compare,
            PumpStep::Acknowledge(position) => PumpStepView::Acknowledge(position),
            PumpStep::Done(event) => PumpStepView::Done(event@),
        }
    }
}

/// What the coordinator waits for.
#[verifier::ext_equal]
pub enum PumpStageView {
    /// The next event.
    Receiving,
    /// The append of a transaction.
    Writing(ModelBatchView),
    /// The contents of the log, to compare a transaction that it should hold already.
    Comparing(ModelBatchView, Seq<u8>),
    /// The acknowledgement of a durable transaction.
    Acknowledging(ModelBatchView, AppendOutcome),
}

/// Contents of a `CdcPump`.
#[verifier::ext_equal]
pub struct PumpView {
    pub assembly: AssemblyView,
    pub log: LogView,
    pub progress: ProgressView,
    pub stage: PumpStageView,
}

impl PumpView {
    /// The state and the step after a complete transaction was assembled.
    pub open spec fn appending(self, batch: ModelBatchView) -> (
        PumpView,
        Result<PumpStepView, PumpErrorView>,
    ) {
        let reached = PumpView { progress: self.progress.observed(batch.end_lsn), ..self };
        match encoded(batch, self.log.limits) {
            Err(error) => (reached, Err(PumpErrorView::Durable(DurableLogError::Codec(error)))),
            Ok(payload) => if batch.end_lsn.0 <= self.log.last_durable_lsn.0 {
                (
                    PumpView { stage: PumpStageView::Comparing(batch, payload), ..reached },
                    Ok(PumpStepView::Compare),
                )
            } else if payload.len() > u32::MAX {
                (reached, Err(PumpErrorView::Durable(DurableLogError::RecordLengthOverflow)))
            } else {
                (
                    PumpView { stage: PumpStageView::Writing(batch), ..reached },
                    Ok(PumpStepView::Write(record(payload, batch.end_lsn))),
                )
            },
        }
    }

    /// The state and the step after an event.
    pub open spec fn pushed(self, event: CdcEvent) -> (
        PumpView,
        Result<PumpStepView, PumpErrorView>,
    ) {
        let (assembly, action) = self.assembly.step(event);
        let next = PumpView { assembly, ..self };
        match action {
            Err(error) => (next, Err(PumpErrorView::Assembly(error))),
            Ok(ActionView::Nothing) => (next, Ok(PumpStepView::Receive)),
            Ok(ActionView::WalObserved(lsn)) => (
                PumpView { progress: self.progress.observed(lsn), ..next },
                Ok(PumpStepView::Receive),
            ),
            Ok(ActionView::StoppedAt(lsn)) => (
                PumpView { progress: self.progress.observed(lsn), ..next },
                Ok(PumpStepView::Done(PumpEventView::StoppedAt(lsn))),
            ),
            Ok(ActionView::Transaction(batch)) => next.appending(batch),
        }
    }

    /// The state and the step after the transport answered.
    pub open spec fn after_receive(self, answer: Result<Option<TransportEvent>, String>) -> (
        PumpView,
        Result<PumpStepView, PumpErrorView>,
    ) {
        match answer {
            Err(text) => (self, Err(PumpErrorView::Transport(PostgresErrorView::Transport(text@)))),
            Ok(None) => (self, Ok(PumpStepView::Done(PumpEventView::EndOfStream))),
            Ok(Some(event)) => self.pushed(event.meaning()),
        }
    }

    /// The state and the step after a transaction became durable, or was found to be so.
    pub open spec fn fenced(self, batch: ModelBatchView, append: AppendOutcome) -> (
        PumpView,
        Result<PumpStepView, PumpErrorView>,
    ) {
        let progress = self.progress.made_durable(batch.end_lsn);
        (
            PumpView { progress, stage: PumpStageView::Acknowledging(batch, append), ..self },
            Ok(PumpStepView::Acknowledge(progress.durable.0)),
        )
    }

    /// The state and the step after the log was written, or failed to be.
    pub open spec fn after_write(self, outcome: Result<(), String>) -> (
        PumpView,
        Result<PumpStepView, PumpErrorView>,
    ) {
        let batch = self.stage->Writing_0;
        match outcome {
            Err(detail) => (
                PumpView { stage: PumpStageView::Receiving, ..self },
                Err(PumpErrorView::Durable(DurableLogError::Io(detail))),
            ),
            Ok(_) => PumpView {
                log: LogView { last_durable_lsn: batch.end_lsn, ..self.log },
                ..self
            }.fenced(batch, AppendOutcome::Appended),
        }
    }

    /// The state and the step after the log was read, or failed to be.
    pub open spec fn after_read(self, contents: Result<Seq<u8>, String>) -> (
        PumpView,
        Result<PumpStepView, PumpErrorView>,
    ) {
        let batch = self.stage->Comparing_0;
        let idle = PumpView { stage: PumpStageView::Receiving, ..self };
        match contents {
            Err(detail) => (idle, Err(PumpErrorView::Durable(DurableLogError::Io(detail)))),
            Ok(contents) => match compared_payload(
                contents,
                self.log.limits,
                self.stage->Comparing_1,
                batch.end_lsn,
            ) {
                Err(error) => (idle, Err(PumpErrorView::Durable(error))),
                Ok(outcome) => self.fenced(batch, outcome),
            },
        }
    }

    /// Whether the coordinator is in order: the progress is, and it knows all that is durable.
    pub open spec fn wf(self) -> bool {
        &&& self.progress.chained()
        &&& self.log.last_durable_lsn.0 <= self.progress.durable.0
        &&& self.stage matches PumpStageView::Writing(batch) ==> self.log.last_durable_lsn.0
            < batch.end_lsn.0
        &&& self.stage matches PumpStageView::Comparing(batch, _) ==> batch.end_lsn.0
            <= self.log.last_durable_lsn.0
        &&& self.stage matches PumpStageView::Acknowledging(batch, _) ==> batch.end_lsn.0
            <= self.log.last_durable_lsn.0
    }
}

enum PumpStage {
    Receiving,
    Writing(TransactionBatch),
    Comparing(TransactionBatch, Vec<u8>),
    Acknowledging(TransactionBatch, AppendOutcome),
}

impl PumpStage {
    spec fn content(self) -> PumpStageView {
        match self {
            PumpStage::Receiving => PumpStageView::Receiving,
            PumpStage::Writing(batch) => PumpStageView::Writing(batch@),
            PumpStage::Comparing(batch, payload) => PumpStageView::Comparing(batch@, payload@),
            PumpStage::Acknowledging(batch, append) => {
                PumpStageView::Acknowledging(batch@, append)
            },
        }
    }
}

/// Coordinator of one replication stream and one durable log.
pub struct CdcPump {
    assembler: CdcAssembler,
    log: DurableCdcLog,
    progress: CdcProgressTracker,
    stage: PumpStage,
}

impl View for CdcPump {
    type V = PumpView;

    closed spec fn view(&self) -> PumpView {
        PumpView {
            assembly: self.assembler@,
            log: self.log@,
            progress: self.progress@,
            stage: self.stage.content(),
        }
    }
}

/// The contents of a result of the coordinator.
pub open spec fn pump_result(result: Result<PumpStep, CdcPumpError>) -> Result<
    PumpStepView,
    PumpErrorView,
> {
    match result {
        Ok(step) => Ok(step@),
        Err(error) => Err(error@),
    }
}

impl CdcPump {
    /// A coordinator that waits for its first event.
    pub fn new(assembler: CdcAssembler, log: DurableCdcLog, progress: CdcProgressTracker) -> (pump:
        Self)
        ensures
            pump@ == (PumpView {
                assembly: assembler@,
                log: log@,
                progress: progress@,
                stage: PumpStageView::Receiving,
            }),
    {
        CdcPump { assembler, log, progress, stage: PumpStage::Receiving }
    }

    /// The current progress.
    pub fn progress(&self) -> (progress: CdcProgressTracker)
        ensures
            progress@ == self@.progress,
    {
        self.progress
    }

    /// The last position that is durable in the log.
    pub fn durable_lsn(&self) -> (lsn: LogSequenceNumber)
        ensures
            lsn == self@.log.last_durable_lsn,
    {
        self.log.last_durable_lsn()
    }

    /// Takes the answer of the transport: an event, the clean end of the stream, or a failure.
    pub fn received(&mut self, answer: Result<Option<TransportEvent>, String>) -> (result: Result<
        PumpStep,
        CdcPumpError,
    >)
        requires
            old(self)@.stage is Receiving,
        ensures
            (final(self)@, pump_result(result)) == old(self)@.after_receive(answer),
    {
        match answer {
            Err(text) => Err(CdcPumpError::Transport(PostgresCdcError::Transport(text))),
            Ok(None) => Ok(PumpStep::Done(CdcPumpEvent::EndOfStream)),
            Ok(Some(event)) => match map_event(event) {
                Ok(event) => self.push(event),
                Err(error) => Err(CdcPumpError::Transport(error)),
            },
        }
    }

    fn observe(&mut self, lsn: LogSequenceNumber) -> (result: Result<(), CdcPumpError>)
        ensures
            result is Ok,
            final(self)@ == (PumpView {
                progress: old(self)@.progress.observed(lsn),
                ..old(self)@
            }),
    {
        match self.progress.observe_received(lsn) {
            Ok(_) => Ok(()),
            Err(error) => Err(CdcPumpError::Progress(error)),
        }
    }

    fn push(&mut self, event: CdcEvent) -> (result: Result<PumpStep, CdcPumpError>)
        requires
            old(self)@.stage is Receiving,
        ensures
            (final(self)@, pump_result(result)) == old(self)@.pushed(event),
    {
        let action = match self.assembler.push(event) {
            Ok(action) => action,
            Err(error) => return Err(CdcPumpError::Assembly(error)),
        };
        match action {
            AssemblerAction::Nothing => Ok(PumpStep::Receive),
            AssemblerAction::WalObserved(lsn) => {
                self.observe(lsn)?;
                Ok(PumpStep::Receive)
            },
            AssemblerAction::StoppedAt(lsn) => {
                self.observe(lsn)?;
                Ok(PumpStep::Done(CdcPumpEvent::StoppedAt(lsn)))
            },
            AssemblerAction::Transaction(batch) => {
                self.observe(batch.end_lsn())?;
                match self.log.append(&batch) {
                    Ok(AppendStep::Write(bytes)) => {
                        self.stage = PumpStage::Writing(batch);
                        Ok(PumpStep::Write(bytes))
                    },
                    Ok(AppendStep::Compare(payload)) => {
                        self.stage = PumpStage::Comparing(batch, payload);
                        Ok(PumpStep::Compare)
                    },
                    Err(error) => Err(CdcPumpError::Durable(error)),
                }
            },
        }
    }

    fn fence(&mut self, batch: TransactionBatch, append: AppendOutcome) -> (result: Result<
        PumpStep,
        CdcPumpError,
    >)
        ensures
            (final(self)@, pump_result(result)) == old(self)@.fenced(batch@, append),
    {
        if let Err(error) = self.progress.mark_durable(batch.end_lsn()) {
            return Err(CdcPumpError::Progress(error));
        }
        let position: u64 = match to_pg_lsn(self.progress.snapshot().durable()) {
            Ok(position) => position,
            Err(error) => return Err(CdcPumpError::Transport(error)),
        };
        self.stage = PumpStage::Acknowledging(batch, append);
        Ok(PumpStep::Acknowledge(position))
    }

    /// Takes the outcome of the append: whether the bytes are written and synchronised.
    pub fn written(&mut self, outcome: Result<(), String>) -> (result: Result<
        PumpStep,
        CdcPumpError,
    >)
        requires
            old(self)@.stage is Writing,
        ensures
            (final(self)@, pump_result(result)) == old(self)@.after_write(outcome),
    {
        let mut stage = PumpStage::Receiving;
        std::mem::swap(&mut stage, &mut self.stage);
        match outcome {
            Err(detail) => Err(CdcPumpError::Durable(DurableLogError::Io(detail))),
            Ok(_) => match stage {
                PumpStage::Writing(batch) => {
                    let append = self.log.confirm(&batch);
                    self.fence(batch, append)
                },
                _ => Ok(PumpStep::Receive),
            },
        }
    }

    /// Takes the contents of the log, to compare them with a transaction that the log should
    /// hold already.
    pub fn compared(&mut self, contents: Result<Vec<u8>, String>) -> (result: Result<
        PumpStep,
        CdcPumpError,
    >)
        requires
            old(self)@.stage is Comparing,
        ensures
            (final(self)@, pump_result(result)) == old(self)@.after_read(
                match contents {
                    Ok(contents) => Ok(contents@),
                    Err(detail) => Err(detail),
                },
            ),
    {
        let mut stage = PumpStage::Receiving;
        std::mem::swap(&mut stage, &mut self.stage);
        let contents = match contents {
            Ok(contents) => contents,
            Err(detail) => return Err(CdcPumpError::Durable(DurableLogError::Io(detail))),
        };
        match stage {
            PumpStage::Comparing(batch, payload) => {
                match self.log.compare(contents.as_slice(), payload.as_slice(), batch.end_lsn()) {
                    Ok(outcome) => self.fence(batch, outcome),
                    Err(error) => Err(CdcPumpError::Durable(error)),
                }
            },
            _ => Ok(PumpStep::Receive),
        }
    }

    /// Ends the round after the server was told the durable position.
    pub fn acknowledged(&mut self) -> (event: CdcPumpEvent)
        requires
            old(self)@.stage is Acknowledging,
        ensures
            event@ == (PumpEventView::Transaction {
                batch: old(self)@.stage->Acknowledging_0,
                append: old(self)@.stage->Acknowledging_1,
            }),
            final(self)@ == (PumpView { stage: PumpStageView::Receiving, ..old(self)@ }),
    {
        let mut stage = PumpStage::Receiving;
        std::mem::swap(&mut stage, &mut self.stage);
        match stage {
            PumpStage::Acknowledging(batch, append) => CdcPumpEvent::Transaction { batch, append },
            _ => CdcPumpEvent::EndOfStream,
        }
    }
}

// ---------------------------------------------------------------------------------------------
// Laws
// ---------------------------------------------------------------------------------------------

/// Every step of the coordinator keeps it in order, and no position of its progress goes back.
pub proof fn law_pump_stays_in_order(
    pump: PumpView,
    answer: Result<Option<TransportEvent>, String>,
    outcome: Result<(), String>,
    contents: Result<Seq<u8>, String>,
)
    requires
        pump.wf(),
    ensures
        pump.stage is Receiving ==> pump.after_receive(answer).0.wf()
            && pump.after_receive(answer).0.progress.reaches(pump.progress),
        pump.stage is Writing ==> pump.after_write(outcome).0.wf() && pump.after_write(
            outcome,
        ).0.progress.reaches(pump.progress),
        pump.stage is Comparing ==> pump.after_read(contents).0.wf() && pump.after_read(
            contents,
        ).0.progress.reaches(pump.progress),
{
}

/// The server is told a position only after the transaction up to it is in the log: either its
/// append was just written and synchronised, or the log was read and holds the same bytes. The
/// position told is the greatest durable one, never an older one of a replayed transaction.
pub proof fn law_acknowledged_only_when_durable(
    pump: PumpView,
    answer: Result<Option<TransportEvent>, String>,
    outcome: Result<(), String>,
    contents: Result<Seq<u8>, String>,
)
    requires
        pump.wf(),
    ensures
        !(pump.after_receive(answer).1 matches Ok(PumpStepView::Acknowledge(_))),
        pump.stage is Writing ==> (pump.after_write(outcome).1 matches Ok(
            PumpStepView::Acknowledge(position),
        ) ==> {
            &&& outcome is Ok
            &&& position == pump.after_write(outcome).0.progress.durable.0
            &&& pump.stage->Writing_0.end_lsn.0 <= position
            &&& pump.after_write(outcome).0.log.last_durable_lsn == pump.stage->Writing_0.end_lsn
        }),
        pump.stage is Comparing ==> (pump.after_read(contents).1 matches Ok(
            PumpStepView::Acknowledge(position),
        ) ==> {
            &&& contents is Ok
            &&& compared_payload(
                contents->Ok_0,
                pump.log.limits,
                pump.stage->Comparing_1,
                pump.stage->Comparing_0.end_lsn,
            ) is Ok
            &&& position == pump.progress.durable.0
        }),
{
}

/// A failed step leaves the durable position and the log where they were, and the coordinator
/// waits for the next event.
pub proof fn law_failed_step_makes_nothing_durable(
    pump: PumpView,
    answer: Result<Option<TransportEvent>, String>,
    outcome: Result<(), String>,
    contents: Result<Seq<u8>, String>,
)
    ensures
        pump.after_receive(answer).0.log == pump.log,
        pump.after_receive(answer).0.progress.durable == pump.progress.durable,
        pump.stage is Writing && pump.after_write(outcome).1 is Err ==> pump.after_write(outcome).0
            == (PumpView { stage: PumpStageView::Receiving, ..pump }),
        pump.stage is Comparing && pump.after_read(contents).1 is Err ==> pump.after_read(
            contents,
        ).0 == (PumpView { stage: PumpStageView::Receiving, ..pump }),
{
}

impl PumpErrorView {
    /// The diagnostic text of this error.
    pub open spec fn message(self) -> Seq<char> {
        match self {
            PumpErrorView::Transport(error) => "CDC transport failed: "@ + error.message(),
            PumpErrorView::Assembly(error) => {
                "CDC transaction assembly failed: "@ + error.spec_message()
            },
            PumpErrorView::Durable(error) => "CDC durability failed: "@ + error.spec_message(),
            PumpErrorView::Progress(error) => "CDC progress failed: "@ + error.spec_message(),
        }
    }
}

impl CdcPumpError {
    /// The diagnostic text of this error.
    pub fn message(&self) -> (text: String)
        ensures
            text@ == self@.message(),
    {
        match self {
            CdcPumpError::Transport(error) => {
                joined("CDC transport failed: ", error.message().as_str())
            },
            CdcPumpError::Assembly(error) => {
                joined("CDC transaction assembly failed: ", error.message().as_str())
            },
            CdcPumpError::Durable(error) => {
                joined("CDC durability failed: ", error.message().as_str())
            },
            CdcPumpError::Progress(error) => {
                joined("CDC progress failed: ", error.message().as_str())
            },
        }
    }
}

/// A new transaction goes the whole way: its commit asks for the record of its encoding to be
/// written, a successful write makes its end durable and asks for the acknowledgement of the
/// greatest durable position, and what is handed out then is that transaction, as appended.
pub proof fn law_new_transaction_goes_the_whole_way(
    pump: PumpView,
    event: TransportEvent,
    batch: ModelBatchView,
)
    requires
        pump.wf(),
        pump.assembly.step(event.meaning()).1 == Ok::<ActionView, AssemblerError>(
            ActionView::Transaction(batch),
        ),
        replayable(batch, pump.log.limits),
        pump.log.last_durable_lsn.0 < batch.end_lsn.0,
    ensures
        ({
            let (writing, step) = pump.after_receive(Ok(Some(event)));
            let (written, answer) = writing.after_write(Ok(()));
            &&& step == Ok::<PumpStepView, PumpErrorView>(
                PumpStepView::Write(record(encoded(batch, pump.log.limits)->Ok_0, batch.end_lsn)),
            )
            &&& writing.stage == PumpStageView::Writing(batch)
            &&& writing.progress.durable == pump.progress.durable
            &&& batch.end_lsn.0 <= writing.progress.received.0
            &&& written.stage == PumpStageView::Acknowledging(batch, AppendOutcome::Appended)
            &&& written.log.last_durable_lsn == batch.end_lsn
            &&& written.log.limits == pump.log.limits
            &&& answer == Ok::<PumpStepView, PumpErrorView>(
                PumpStepView::Acknowledge(written.progress.durable.0),
            )
            &&& batch.end_lsn.0 <= written.progress.durable.0
            &&& pump.progress.durable.0 <= written.progress.durable.0
            &&& pump.progress.durable.0 < batch.end_lsn.0 ==> written.progress.durable
                == batch.end_lsn
            &&& written.progress.applied == pump.progress.applied
            &&& written.progress.published == pump.progress.published
        }),
{
}

/// A transaction that is not behind the log is compared with what the log holds. Where the log
/// holds the same bytes for its position it is acknowledged and handed out as a duplicate, and
/// the log stays as it is; where it does not, nothing is acknowledged.
pub proof fn law_redelivered_transaction_is_compared(
    pump: PumpView,
    event: TransportEvent,
    batch: ModelBatchView,
    contents: Seq<u8>,
)
    requires
        pump.wf(),
        pump.assembly.step(event.meaning()).1 == Ok::<ActionView, AssemblerError>(
            ActionView::Transaction(batch),
        ),
        replayable(batch, pump.log.limits),
        batch.end_lsn.0 <= pump.log.last_durable_lsn.0,
    ensures
        ({
            let payload = encoded(batch, pump.log.limits)->Ok_0;
            let found = compared_payload(contents, pump.log.limits, payload, batch.end_lsn);
            let (comparing, step) = pump.after_receive(Ok(Some(event)));
            let (compared, answer) = comparing.after_read(Ok(contents));
            &&& step == Ok::<PumpStepView, PumpErrorView>(PumpStepView::Compare)
            &&& comparing.stage == PumpStageView::Comparing(batch, payload)
            &&& comparing.log == pump.log
            &&& compared.log == pump.log
            &&& compared.progress.durable == pump.progress.durable
            &&& found matches Ok(outcome) ==> {
                &&& answer == Ok::<PumpStepView, PumpErrorView>(
                    PumpStepView::Acknowledge(pump.progress.durable.0),
                )
                &&& compared.stage == PumpStageView::Acknowledging(batch, outcome)
            }
            &&& found matches Err(error) ==> {
                &&& answer == Err::<PumpStepView, PumpErrorView>(PumpErrorView::Durable(error))
                &&& compared.stage is Receiving
            }
        }),
{
}

/// What is not a commit asks for the next event and makes nothing durable; what was observed
/// counts as received. A stream that stops or ends ends the round with that.
pub proof fn law_other_events_only_move_what_is_received(pump: PumpView, event: TransportEvent)
    requires
        pump.wf(),
        pump.stage is Receiving,
    ensures
        ({
            let (next, step) = pump.after_receive(Ok(Some(event)));
            let action = pump.assembly.step(event.meaning()).1;
            &&& next.assembly == pump.assembly.step(event.meaning()).0
            &&& next.log == pump.log
            &&& next.progress.durable == pump.progress.durable
            &&& next.progress.applied == pump.progress.applied
            &&& next.progress.published == pump.progress.published
            &&& action matches Err(error) ==> {
                &&& step == Err::<PumpStepView, PumpErrorView>(PumpErrorView::Assembly(error))
                &&& next.progress == pump.progress
            }
            &&& action == Ok::<ActionView, AssemblerError>(ActionView::Nothing) ==> {
                &&& step == Ok::<PumpStepView, PumpErrorView>(PumpStepView::Receive)
                &&& next.progress == pump.progress
            }
            &&& action matches Ok(ActionView::WalObserved(lsn)) ==> {
                &&& step == Ok::<PumpStepView, PumpErrorView>(PumpStepView::Receive)
                &&& lsn.0 <= next.progress.received.0
                &&& pump.progress.received.0 < next.progress.received.0
                    ==> next.progress.received == lsn
            }
            &&& action matches Ok(ActionView::StoppedAt(lsn)) ==> {
                &&& step == Ok::<PumpStepView, PumpErrorView>(
                    PumpStepView::Done(PumpEventView::StoppedAt(lsn)),
                )
                &&& lsn.0 <= next.progress.received.0
            }
            &&& step is Err || step->Ok_0 is Receive || step->Ok_0 is Done ==> next.stage
                is Receiving
        }),
        pump.after_receive(Ok(None)) == (pump, Ok::<PumpStepView, PumpErrorView>(
            PumpStepView::Done(PumpEventView::EndOfStream),
        )),
{
}

/// A failure of the transport or of the file is reported in its own words.
pub proof fn law_failures_are_reported_as_they_came(pump: PumpView, text: String)
    ensures
        pump.after_receive(Err(text)).1 == Err::<PumpStepView, PumpErrorView>(
            PumpErrorView::Transport(PostgresErrorView::Transport(text@)),
        ),
        pump.stage is Writing ==> pump.after_write(Err(text)).1 == Err::<
            PumpStepView,
            PumpErrorView,
        >(PumpErrorView::Durable(DurableLogError::Io(text))),
        pump.stage is Comparing ==> pump.after_read(Err(text)).1 == Err::<
            PumpStepView,
            PumpErrorView,
        >(PumpErrorView::Durable(DurableLogError::Io(text))),
{
}

} // verus!
