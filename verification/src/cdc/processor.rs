//! Crash-safe transaction processing boundary.
//!
//! The order is fixed: a complete transaction is assembled, its journal record is written and
//! synchronised, the projection applies it, and only then does its position become available for
//! acknowledgement. Writing and applying are the caller's work: a processor says what has to be
//! done next and is told how it went. Every failure poisons the processor for good.

use super::journal::{
    batches_view, classified, is_highest, law_journal_replays_everything_in_order, noted, records,
    recovered, scanned, storable, stored, Journal, JournalAppend, JournalError, ReplayDecision,
};
use super::lsn::LogSequenceNumber;
use super::pgoutput::{
    message_of, MessageView, PgOutputDecoder, PgOutputError, PgOutputMessage, RelationView,
};
use super::stream::{StreamError, StreamView, TransactionStream};
use super::transaction::{batch_fingerprint, BatchView, TransactionBatch};
use crate::text::{joined, Diagnostic};
use vstd::prelude::*;

verus! {

/// Result of consuming one replication message.
#[derive(Clone, Copy, Debug, PartialEq, Eq, Structural)]
pub enum ProcessingOutcome {
    /// The message did not finish a transaction, so nothing may be acknowledged yet.
    Pending,
    /// A complete transaction is durable and applied to the projection. This position is the only
    /// one that may be acknowledged upstream.
    Applied { acknowledge_lsn: LogSequenceNumber, replay: ReplayDecision },
}

/// What a message asks the caller to do.
#[derive(Clone, Debug, PartialEq, Eq)]
pub enum ProcessorStep {
    /// Nothing: the message did not finish a transaction.
    Pending,
    /// To append and synchronise these journal bytes, then to report to `journal_written`.
    Write(Vec<u8>),
    /// To apply `batch_to_apply`, which is durable, then to report to `batch_applied`.
    Apply,
}

/// What a message asks the caller to do.
#[verifier::ext_equal]
pub enum StepView {
    Pending,
    Write(Seq<u8>),
    Apply,
}

impl View for ProcessorStep {
    type V = StepView;

    open spec fn view(&self) -> StepView {
        match *self {
            ProcessorStep::Pending => StepView::Pending,
            ProcessorStep::Write(bytes) => StepView::Write(bytes@),
            ProcessorStep::Apply => StepView::Apply,
        }
    }
}

/// Why a processor refused or gave up.
#[derive(Clone, Debug, PartialEq, Eq)]
pub enum ProcessorError<E> {
    Decode(PgOutputError),
    Stream(StreamError),
    Journal(JournalError),
    Apply(E),
    Poisoned,
}

/// What a processor waits for.
#[verifier::ext_equal]
pub enum StageView {
    /// For the next message.
    Idle,
    /// For the journal record of this transaction to be durable.
    Writing(BatchView),
    /// For this durable transaction to be applied.
    Applying(BatchView, ReplayDecision),
    /// For the transactions of the journal from this one on to be applied.
    Replaying(Seq<BatchView>, nat),
}

/// State of a `DurableTransactionProcessor`.
#[verifier::ext_equal]
pub struct ProcessorView {
    pub stream: StreamView,
    pub durable: Map<u64, u64>,
    pub poisoned: bool,
    pub stage: StageView,
}

/// Whether exactly this transaction is noted as durable.
pub open spec fn is_durable(durable: Map<u64, u64>, batch: BatchView) -> bool {
    durable.contains_key(batch.commit_lsn.0) && durable[batch.commit_lsn.0] == batch_fingerprint(
        batch,
    )
}

/// The position behind the last of `batches`, zero for none.
pub open spec fn resume_position(batches: Seq<BatchView>) -> LogSequenceNumber {
    if batches.len() == 0 {
        LogSequenceNumber(0)
    } else {
        batches.last().end_lsn
    }
}

/// What a step returns.
pub open spec fn step_view<E>(result: Result<ProcessorStep, ProcessorError<E>>) -> Result<
    StepView,
    ProcessorError<E>,
> {
    match result {
        Ok(step) => Ok(step@),
        Err(error) => Err(error),
    }
}

impl ProcessorView {
    /// A processor whose journal holds `durable`.
    pub open spec fn opened(durable: Map<u64, u64>) -> ProcessorView {
        ProcessorView {
            stream: StreamView::fresh(),
            durable,
            poisoned: false,
            stage: StageView::Idle,
        }
    }

    /// What holds of every processor: only a durable transaction is ever applied.
    pub open spec fn wf(self) -> bool {
        match self.stage {
            StageView::Applying(batch, _) => is_durable(self.durable, batch),
            StageView::Replaying(batches, next) => next <= batches.len(),
            _ => true,
        }
    }

    /// The same processor, out of use for good.
    pub open spec fn poison(self) -> ProcessorView {
        ProcessorView { poisoned: true, stage: StageView::Idle, ..self }
    }

    /// The state after a decoded message, and what it asks for.
    pub open spec fn consumed<E>(self, message: MessageView) -> (
        ProcessorView,
        Result<StepView, ProcessorError<E>>,
    ) {
        if self.poisoned {
            (self, Err(ProcessorError::Poisoned))
        } else {
            let (stream, emitted) = self.stream.consumed(message);
            let fed = ProcessorView { stream, ..self };
            match emitted {
                Err(error) => (fed.poison(), Err(ProcessorError::Stream(error))),
                Ok(None) => (fed, Ok(StepView::Pending)),
                Ok(Some(batch)) => match classified(self.durable, batch) {
                    Err(error) => (fed.poison(), Err(ProcessorError::Journal(error))),
                    Ok(ReplayDecision::Duplicate) => (
                        ProcessorView {
                            stage: StageView::Applying(batch, ReplayDecision::Duplicate),
                            ..fed
                        },
                        Ok(StepView::Apply),
                    ),
                    Ok(ReplayDecision::Apply) => match stored(batch) {
                        Err(error) => (fed.poison(), Err(ProcessorError::Journal(error))),
                        Ok(bytes) => (
                            ProcessorView { stage: StageView::Writing(batch), ..fed },
                            Ok(StepView::Write(bytes)),
                        ),
                    },
                },
            }
        }
    }

    /// The state after one raw message, and what it asks for.
    pub open spec fn pushed<E>(self, input: Seq<u8>) -> (
        ProcessorView,
        Result<StepView, ProcessorError<E>>,
    ) {
        if self.poisoned {
            (self, Err(ProcessorError::Poisoned))
        } else {
            match message_of(input) {
                Err(error) => (self.poison(), Err(ProcessorError::Decode(error))),
                Ok(message) => self.consumed(message),
            }
        }
    }

    /// The state after the attempt to write the record of `batch`.
    pub open spec fn written<E>(self, outcome: Result<(), String>) -> (
        ProcessorView,
        Result<(), ProcessorError<E>>,
    ) {
        match outcome {
            Ok(_) => (
                ProcessorView {
                    durable: noted(self.durable, self.stage->Writing_0),
                    stage: StageView::Applying(self.stage->Writing_0, ReplayDecision::Apply),
                    ..self
                },
                Ok(()),
            ),
            Err(detail) => (
                self.poison(),
                Err(ProcessorError::Journal(JournalError::Io(detail))),
            ),
        }
    }

    /// The state after the attempt to apply the transaction in hand.
    pub open spec fn applied<E>(self, outcome: Result<(), E>) -> (
        ProcessorView,
        Result<ProcessingOutcome, ProcessorError<E>>,
    ) {
        match outcome {
            Ok(_) => (
                ProcessorView { stage: StageView::Idle, ..self },
                Ok(
                    ProcessingOutcome::Applied {
                        acknowledge_lsn: self.stage->Applying_0.end_lsn,
                        replay: self.stage->Applying_1,
                    },
                ),
            ),
            Err(error) => (self.poison(), Err(ProcessorError::Apply(error))),
        }
    }

    /// The state after the journal was read for recovery.
    pub open spec fn recovering<E>(self, contents: Result<Seq<u8>, String>) -> (
        ProcessorView,
        Result<(), ProcessorError<E>>,
    ) {
        if self.poisoned {
            (self, Err(ProcessorError::Poisoned))
        } else {
            match contents {
                Err(detail) => (
                    self.poison(),
                    Err(ProcessorError::Journal(JournalError::Io(detail))),
                ),
                Ok(bytes) => match scanned(bytes, 0, false) {
                    Err(error) => (self.poison(), Err(ProcessorError::Journal(error))),
                    Ok((batches, _)) => (
                        ProcessorView { stage: StageView::Replaying(batches, 0), ..self },
                        Ok(()),
                    ),
                },
            }
        }
    }

    /// The state after the attempt to apply the next transaction of the journal.
    pub open spec fn replayed<E>(self, outcome: Result<(), E>) -> (
        ProcessorView,
        Result<(), ProcessorError<E>>,
    ) {
        match outcome {
            Ok(_) => (
                ProcessorView {
                    stage: StageView::Replaying(
                        self.stage->Replaying_0,
                        self.stage->Replaying_1 + 1,
                    ),
                    ..self
                },
                Ok(()),
            ),
            Err(error) => (self.poison(), Err(ProcessorError::Apply(error))),
        }
    }

    /// Whether a transaction of the journal is left to apply.
    pub open spec fn replays(self) -> bool {
        self.stage matches StageView::Replaying(batches, next) && next < batches.len()
    }
}

/// What a processor waits for.
#[derive(Debug)]
enum Stage {
    Idle,
    Writing(TransactionBatch),
    Applying(TransactionBatch, ReplayDecision),
    Replaying(Vec<TransactionBatch>, usize),
}

spec fn stage_view(stage: Stage) -> StageView {
    match stage {
        Stage::Idle => StageView::Idle,
        Stage::Writing(batch) => StageView::Writing(batch@),
        Stage::Applying(batch, replay) => StageView::Applying(batch@, replay),
        Stage::Replaying(batches, next) => StageView::Replaying(
            batches_view(batches@),
            next as nat,
        ),
    }
}

/// Crash-safe transaction processor, apart from the journal's file and the projection.
///
/// A position may be acknowledged upstream only once `batch_applied` returned it. Any decode,
/// stream, journal or apply failure poisons the processor for good; only a restart with recovery
/// accepts more messages.
#[derive(Debug)]
pub struct DurableTransactionProcessor {
    stream: TransactionStream,
    journal: Journal,
    poisoned: bool,
    stage: Stage,
}

impl View for DurableTransactionProcessor {
    type V = ProcessorView;

    closed spec fn view(&self) -> ProcessorView {
        ProcessorView {
            stream: self.stream@,
            durable: self.journal@,
            poisoned: self.poisoned,
            stage: stage_view(self.stage),
        }
    }
}

impl DurableTransactionProcessor {
    /// A processor over a journal with these contents. The second part of the result is where the
    /// contents have to be cut, for contents that end inside a record.
    pub fn open(contents: &[u8]) -> (result: Result<(Self, Option<u64>), JournalError>)
        ensures
            match (result, scanned(contents@, 0, true)) {
                (Ok((processor, cut)), Ok((batches, torn))) => {
                    &&& recovered(Map::empty(), batches) matches Ok(durable)
                    &&& processor@ == ProcessorView::opened(durable)
                    &&& cut == torn
                },
                (Err(error), Ok((batches, _))) => recovered(Map::empty(), batches) == Err::<
                    Map<u64, u64>,
                    JournalError,
                >(error),
                (Err(error), Err(expected)) => error == expected,
                (Ok(_), Err(_)) => false,
            },
    {
        let (journal, cut) = Journal::open(contents)?;
        let processor = DurableTransactionProcessor {
            stream: TransactionStream::new(),
            journal,
            poisoned: false,
            stage: Stage::Idle,
        };
        Ok((processor, cut))
    }

    /// Takes one raw message.
    pub fn push<E>(&mut self, input: &[u8]) -> (result: Result<ProcessorStep, ProcessorError<E>>)
        requires
            old(self)@.stage is Idle,
        ensures
            (final(self)@, step_view(result)) == old(self)@.pushed::<E>(input@),
            old(self)@.wf() ==> final(self)@.wf(),
    {
        self.ensure_usable()?;
        match PgOutputDecoder::decode(input) {
            Ok(message) => self.consume_message(message),
            Err(error) => {
                self.poison();
                Err(ProcessorError::Decode(error))
            },
        }
    }

    /// Takes one decoded message.
    ///
    /// This is the boundary for transports that deliver transaction boundaries apart from raw
    /// data.
    pub fn consume_message<E>(&mut self, message: PgOutputMessage) -> (result: Result<
        ProcessorStep,
        ProcessorError<E>,
    >)
        requires
            old(self)@.stage is Idle,
        ensures
            (final(self)@, step_view(result)) == old(self)@.consumed::<E>(message@),
            old(self)@.wf() ==> final(self)@.wf(),
    {
        self.ensure_usable()?;
        match self.stream.consume(message) {
            Ok(Some(batch)) => match self.journal.append(&batch) {
                Ok(JournalAppend::Duplicate) => {
                    self.stage = Stage::Applying(batch, ReplayDecision::Duplicate);
                    Ok(ProcessorStep::Apply)
                },
                Ok(JournalAppend::Write(bytes)) => {
                    self.stage = Stage::Writing(batch);
                    Ok(ProcessorStep::Write(bytes))
                },
                Err(error) => {
                    self.poison();
                    Err(ProcessorError::Journal(error))
                },
            },
            Ok(None) => Ok(ProcessorStep::Pending),
            Err(error) => {
                self.poison();
                Err(ProcessorError::Stream(error))
            },
        }
    }

    /// Takes note of how writing and synchronising the journal record went; an error carries what
    /// the file operation reported.
    pub fn journal_written<E>(&mut self, outcome: Result<(), String>) -> (result: Result<
        (),
        ProcessorError<E>,
    >)
        requires
            old(self)@.stage is Writing,
        ensures
            (final(self)@, result) == old(self)@.written::<E>(outcome),
            final(self)@.wf(),
    {
        match outcome {
            Ok(_) => {
                let mut stage = Stage::Idle;
                std::mem::swap(&mut stage, &mut self.stage);
                if let Stage::Writing(batch) = stage {
                    self.journal.confirm(&batch);
                    self.stage = Stage::Applying(batch, ReplayDecision::Apply);
                }
                Ok(())
            },
            Err(detail) => {
                self.poison();
                Err(ProcessorError::Journal(JournalError::Io(detail)))
            },
        }
    }

    /// The durable transaction that waits to be applied.
    pub fn batch_to_apply(&self) -> (batch: Option<&TransactionBatch>)
        ensures
            match batch {
                Some(batch) => self@.stage matches StageView::Applying(expected, _) && expected
                    == batch@,
                None => !(self@.stage is Applying),
            },
    {
        match &self.stage {
            Stage::Applying(batch, _) => Some(batch),
            _ => None,
        }
    }

    /// Takes note of how applying the transaction went, and gives the position to acknowledge.
    ///
    /// Applying must be idempotent: a transaction can be delivered again after a crash, and one
    /// that was durable before a failed attempt is retried.
    pub fn batch_applied<E>(&mut self, outcome: Result<(), E>) -> (result: Result<
        ProcessingOutcome,
        ProcessorError<E>,
    >)
        requires
            old(self)@.stage is Applying,
        ensures
            (final(self)@, result) == old(self)@.applied::<E>(outcome),
            final(self)@.wf(),
    {
        match outcome {
            Ok(_) => {
                let mut stage = Stage::Idle;
                std::mem::swap(&mut stage, &mut self.stage);
                match stage {
                    Stage::Applying(batch, replay) => Ok(
                        ProcessingOutcome::Applied { acknowledge_lsn: batch.end_lsn(), replay },
                    ),
                    _ => Ok(ProcessingOutcome::Pending),
                }
            },
            Err(error) => {
                self.poison();
                Err(ProcessorError::Apply(error))
            },
        }
    }

    /// Starts recovery from the journal's contents, or from what reading them reported.
    ///
    /// Every durable transaction has to be applied again before live messages are taken.
    pub fn recover<E>(&mut self, contents: Result<Vec<u8>, String>) -> (result: Result<
        (),
        ProcessorError<E>,
    >)
        requires
            old(self)@.stage is Idle,
        ensures
            (final(self)@, result) == old(self)@.recovering::<E>(
                match contents {
                    Ok(bytes) => Ok(bytes@),
                    Err(detail) => Err(detail),
                },
            ),
            final(self)@.wf(),
    {
        self.ensure_usable()?;
        match contents {
            Ok(bytes) => match Journal::replay(bytes.as_slice()) {
                Ok(batches) => {
                    self.stage = Stage::Replaying(batches, 0);
                    Ok(())
                },
                Err(error) => {
                    self.poison();
                    Err(ProcessorError::Journal(error))
                },
            },
            Err(detail) => {
                self.poison();
                Err(ProcessorError::Journal(JournalError::Io(detail)))
            },
        }
    }

    /// The next transaction of the journal that waits to be applied again.
    pub fn batch_to_replay(&self) -> (batch: Option<&TransactionBatch>)
        ensures
            match batch {
                Some(batch) => self@.replays() && self@.stage->Replaying_0[self@.stage->Replaying_1 as int]
                    == batch@,
                None => !self@.replays(),
            },
    {
        match &self.stage {
            Stage::Replaying(batches, next) => {
                if *next < batches.len() {
                    Some(&batches[*next])
                } else {
                    None
                }
            },
            _ => None,
        }
    }

    /// Takes note of how applying the next transaction of the journal went.
    pub fn batch_replayed<E>(&mut self, outcome: Result<(), E>) -> (result: Result<
        (),
        ProcessorError<E>,
    >)
        requires
            old(self)@.replays(),
        ensures
            (final(self)@, result) == old(self)@.replayed::<E>(outcome),
            final(self)@.wf(),
    {
        match outcome {
            Ok(_) => {
                let mut stage = Stage::Idle;
                std::mem::swap(&mut stage, &mut self.stage);
                if let Stage::Replaying(batches, next) = stage {
                    let count: usize = batches.len();
                    assert(next < count);
                    self.stage = Stage::Replaying(batches, next + 1);
                }
                Ok(())
            },
            Err(error) => {
                self.poison();
                Err(ProcessorError::Apply(error))
            },
        }
    }

    /// Ends recovery and gives the position behind the last transaction, zero for an empty
    /// journal.
    pub fn recovered(&mut self) -> (lsn: LogSequenceNumber)
        requires
            old(self)@.stage is Replaying,
            !old(self)@.replays(),
        ensures
            lsn == resume_position(old(self)@.stage->Replaying_0),
            final(self)@ == (ProcessorView { stage: StageView::Idle, ..old(self)@ }),
    {
        let mut stage = Stage::Idle;
        std::mem::swap(&mut stage, &mut self.stage);
        match stage {
            Stage::Replaying(batches, _) => {
                if batches.len() == 0 {
                    LogSequenceNumber::zero()
                } else {
                    batches[batches.len() - 1].end_lsn()
                }
            },
            _ => LogSequenceNumber::zero(),
        }
    }

    /// The highest durable commit position, zero for an empty journal.
    pub fn highest_durable_commit_lsn(&self) -> (lsn: LogSequenceNumber)
        ensures
            is_highest(self@.durable, lsn.0),
    {
        self.journal.highest_commit_lsn()
    }

    /// Whether a failure has put the processor out of use.
    pub fn is_poisoned(&self) -> (poisoned: bool)
        ensures
            poisoned == self@.poisoned,
    {
        self.poisoned
    }

    fn poison(&mut self)
        ensures
            final(self)@ == old(self)@.poison(),
    {
        self.poisoned = true;
        self.stage = Stage::Idle;
    }

    fn ensure_usable<E>(&self) -> (result: Result<(), ProcessorError<E>>)
        ensures
            result == (if self@.poisoned {
                Err::<(), ProcessorError<E>>(ProcessorError::Poisoned)
            } else {
                Ok(())
            }),
    {
        if self.poisoned {
            Err(ProcessorError::Poisoned)
        } else {
            Ok(())
        }
    }
}

// ---------------------------------------------------------------------------------------------
// Laws
// ---------------------------------------------------------------------------------------------

/// A position becomes available for acknowledgement only for a transaction that is durable and
/// was applied without failure, and it is the position behind that transaction.
pub proof fn law_acknowledged_transaction_is_durable_and_applied<E>(
    state: ProcessorView,
    outcome: Result<(), E>,
)
    requires
        state.wf(),
        state.stage is Applying,
    ensures
        state.applied(outcome).1 is Ok <==> outcome is Ok,
        state.applied(outcome).1 matches Ok(ProcessingOutcome::Applied { acknowledge_lsn, replay })
            ==> {
            &&& acknowledge_lsn == state.stage->Applying_0.end_lsn
            &&& is_durable(state.applied(outcome).0.durable, state.stage->Applying_0)
        },
{
}

/// A transaction is offered for applying only once it is durable: at once where the journal holds
/// it already, otherwise after its record was written.
pub proof fn law_only_durable_transactions_are_applied<E>(
    state: ProcessorView,
    message: MessageView,
    outcome: Result<(), String>,
)
    requires
        state.wf(),
        state.stage is Idle,
    ensures
        state.consumed::<E>(message).0.wf(),
        state.consumed::<E>(message).0.stage is Writing ==> state.consumed::<E>(
            message,
        ).0.written::<E>(outcome).0.wf(),
{
}

/// A failure poisons the processor, and a poisoned processor refuses every message and stays as it
/// is.
pub proof fn law_poisoned_processor_stays_poisoned<E>(
    state: ProcessorView,
    message: MessageView,
    input: Seq<u8>,
    contents: Result<Seq<u8>, String>,
)
    ensures
        state.consumed::<E>(message).1 is Err ==> state.consumed::<E>(message).0.poisoned,
        state.pushed::<E>(input).1 is Err ==> state.pushed::<E>(input).0.poisoned,
        state.poisoned ==> {
            &&& state.consumed::<E>(message) == (state, Err::<StepView, ProcessorError<E>>(
                ProcessorError::Poisoned,
            ))
            &&& state.pushed::<E>(input) == (state, Err::<StepView, ProcessorError<E>>(
                ProcessorError::Poisoned,
            ))
            &&& state.recovering::<E>(contents) == (state, Err::<(), ProcessorError<E>>(
                ProcessorError::Poisoned,
            ))
        },
{
}

/// No message takes a durable transaction away.
pub proof fn law_durable_transactions_stay<E>(
    state: ProcessorView,
    message: MessageView,
    outcome: Result<(), String>,
)
    requires
        state.stage is Idle,
    ensures
        state.consumed::<E>(message).0.durable == state.durable,
        state.consumed::<E>(message).0.stage is Writing ==> state.durable.submap_of(
            state.consumed::<E>(message).0.written::<E>(outcome).0.durable,
        ),
{
    let next = state.consumed::<E>(message).0;
    if next.stage is Writing && outcome is Ok {
        let batch = next.stage->Writing_0;
        assert(classified(state.durable, batch) == Ok::<ReplayDecision, JournalError>(
            ReplayDecision::Apply,
        ));
        assert(!state.durable.contains_key(batch.commit_lsn.0));
    }
}

impl<E: Diagnostic> Diagnostic for ProcessorError<E> {
    open spec fn spec_message(&self) -> Seq<char> {
        match *self {
            ProcessorError::Decode(error) => "decode: "@ + error.spec_message(),
            ProcessorError::Stream(error) => "stream: "@ + error.spec_message(),
            ProcessorError::Journal(error) => "journal: "@ + error.spec_message(),
            ProcessorError::Apply(error) => "apply: "@ + error.spec_message(),
            ProcessorError::Poisoned => "processor is poisoned; restart required"@,
        }
    }

    fn message(&self) -> String {
        match self {
            ProcessorError::Decode(error) => joined("decode: ", error.message().as_str()),
            ProcessorError::Stream(error) => joined("stream: ", error.message().as_str()),
            ProcessorError::Journal(error) => joined("journal: ", error.message().as_str()),
            ProcessorError::Apply(error) => joined("apply: ", error.message().as_str()),
            ProcessorError::Poisoned => "processor is poisoned; restart required".to_owned(),
        }
    }
}

/// A transaction that completes goes the whole way: a new one asks for its own journal record to
/// be written, is offered for applying once that is done, and once applied makes the position
/// behind it available. One that is durable already is offered at once.
pub proof fn law_completed_transaction_goes_the_whole_way<E>(
    state: ProcessorView,
    message: MessageView,
)
    requires
        !state.poisoned,
        state.stage is Idle,
    ensures
        state.stream.consumed(message).1 matches Ok(Some(batch)) ==> {
            let (next, answer) = state.consumed::<E>(message);
            let known = state.durable.contains_key(batch.commit_lsn.0);
            &&& !known && stored(batch) is Ok ==> {
                let (noted, report) = next.written::<E>(Ok(()));
                let (after, outcome) = noted.applied::<E>(Ok(()));
                &&& answer == Ok::<StepView, ProcessorError<E>>(
                    StepView::Write(stored(batch)->Ok_0),
                )
                &&& report is Ok
                &&& noted.stage == StageView::Applying(batch, ReplayDecision::Apply)
                &&& noted.durable == state.durable.insert(
                    batch.commit_lsn.0,
                    batch_fingerprint(batch),
                )
                &&& outcome == Ok::<ProcessingOutcome, ProcessorError<E>>(
                    ProcessingOutcome::Applied {
                        acknowledge_lsn: batch.end_lsn,
                        replay: ReplayDecision::Apply,
                    },
                )
                &&& after.stage is Idle
                &&& !after.poisoned
                &&& after.durable == noted.durable
                &&& after.stream == state.stream.consumed(message).0
            }
            &&& known && state.durable[batch.commit_lsn.0] == batch_fingerprint(batch) ==> {
                let (after, outcome) = next.applied::<E>(Ok(()));
                &&& answer == Ok::<StepView, ProcessorError<E>>(StepView::Apply)
                &&& next.stage == StageView::Applying(batch, ReplayDecision::Duplicate)
                &&& outcome == Ok::<ProcessingOutcome, ProcessorError<E>>(
                    ProcessingOutcome::Applied {
                        acknowledge_lsn: batch.end_lsn,
                        replay: ReplayDecision::Duplicate,
                    },
                )
                &&& after.durable == state.durable
            }
            &&& known && state.durable[batch.commit_lsn.0] != batch_fingerprint(batch) ==> answer
                == Err::<StepView, ProcessorError<E>>(
                ProcessorError::Journal(JournalError::ConflictingReplay(batch.commit_lsn)),
            )
        },
{
}

/// A message that completes no transaction is fed to the stream and asks for nothing; one that the
/// stream refuses is reported with what the stream said.
pub proof fn law_other_messages_ask_for_nothing<E>(state: ProcessorView, message: MessageView)
    requires
        !state.poisoned,
    ensures
        state.stream.consumed(message).1 matches Ok(None) ==> state.consumed::<E>(message) == (
            ProcessorView { stream: state.stream.consumed(message).0, ..state },
            Ok::<StepView, ProcessorError<E>>(StepView::Pending),
        ),
        state.stream.consumed(message).1 matches Err(error) ==> state.consumed::<E>(message).1
            == Err::<StepView, ProcessorError<E>>(ProcessorError::Stream(error)),
{
}

/// A raw message is taken for exactly the message it decodes to; one that does not decode is
/// reported with what is wrong with it.
pub proof fn law_raw_message_is_taken_for_what_it_means<E>(state: ProcessorView, input: Seq<u8>)
    requires
        !state.poisoned,
    ensures
        message_of(input) matches Ok(message) ==> state.pushed::<E>(input) == state.consumed::<E>(
            message,
        ),
        message_of(input) matches Err(error) ==> state.pushed::<E>(input).1 == Err::<
            StepView,
            ProcessorError<E>,
        >(ProcessorError::Decode(error)),
{
}

/// A failed write or a failed apply makes nothing available: it is reported with what failed, no
/// transaction becomes durable, and the processor is out of use.
pub proof fn law_failed_step_acknowledges_nothing<E>(
    state: ProcessorView,
    detail: String,
    failure: E,
)
    ensures
        state.written::<E>(Err(detail)).1 == Err::<(), ProcessorError<E>>(
            ProcessorError::Journal(JournalError::Io(detail)),
        ),
        state.written::<E>(Err(detail)).0.durable == state.durable,
        state.written::<E>(Err(detail)).0.poisoned,
        state.applied::<E>(Err(failure)).1 == Err::<ProcessingOutcome, ProcessorError<E>>(
            ProcessorError::Apply(failure),
        ),
        state.applied::<E>(Err(failure)).0.durable == state.durable,
        state.applied::<E>(Err(failure)).0.poisoned,
        state.replayed::<E>(Err(failure)).1 == Err::<(), ProcessorError<E>>(
            ProcessorError::Apply(failure),
        ),
        state.replayed::<E>(Err(failure)).0.poisoned,
{
}

/// The processor after `count` transactions of the journal were applied again.
pub open spec fn after_replaying<E>(state: ProcessorView, count: nat) -> ProcessorView
    decreases count,
{
    if count == 0 {
        state
    } else {
        after_replaying::<E>(state, (count - 1) as nat).replayed::<E>(Ok(())).0
    }
}

/// Recovery offers every transaction of the journal once, in the order of the journal, and then
/// none; the position it ends at is the one behind the last of them, or zero.
pub proof fn law_recovery_offers_every_durable_transaction<E>(
    state: ProcessorView,
    batches: Seq<BatchView>,
    count: nat,
)
    requires
        !state.poisoned,
        forall|i: int| 0 <= i < batches.len() ==> storable(#[trigger] batches[i]),
        count <= batches.len(),
    ensures
        ({
            let started = state.recovering::<E>(Ok(records(batches)));
            let reached = after_replaying::<E>(started.0, count);
            &&& started.1 is Ok
            &&& reached.stage == StageView::Replaying(batches, count)
            &&& reached.replays() <==> count < batches.len()
            &&& !reached.poisoned
            &&& reached.durable == state.durable
        }),
        batches.len() > 0 ==> resume_position(batches) == batches[batches.len() - 1].end_lsn,
        batches.len() == 0 ==> resume_position(batches).0 == 0,
    decreases count,
{
    law_journal_replays_everything_in_order(batches, false);
    if count > 0 {
        law_recovery_offers_every_durable_transaction::<E>(state, batches, (count - 1) as nat);
    }
}

/// A processor opens with what its journal holds, in use, waiting for a message, and with a stream
/// that has seen nothing.
pub proof fn law_opened_processor_knows_its_journal(durable: Map<u64, u64>)
    ensures
        ProcessorView::opened(durable).durable == durable,
        !ProcessorView::opened(durable).poisoned,
        ProcessorView::opened(durable).stage is Idle,
        ProcessorView::opened(durable).stream.builder.open is None,
        ProcessorView::opened(durable).stream.relations == Map::<u32, RelationView>::empty(),
{
}

} // verus!
