//! Assembly of replication events into complete transactions.

use super::event::CdcEvent;
use super::lsn::LogSequenceNumber;
use super::model::{
    items_view, payload_total, BatchLimits, BatchValidationError, ItemView, LogicalMessage,
    LogicalMessageView, ModelBatchView, TransactionBatch, TransactionItem, WalChunk, WalView,
};
use crate::text::{decimal, joined, signed_decimal_text};
use vstd::prelude::*;
use vstd::utf8::encode_utf8;

verus! {

/// What an event means for the consumer. A transaction appears at its commit only.
#[derive(Clone, Debug, PartialEq, Eq)]
pub enum AssemblerAction {
    /// Nothing to act on yet.
    Nothing,
    WalObserved(LogSequenceNumber),
    Transaction(TransactionBatch),
    StoppedAt(LogSequenceNumber),
}

/// Contents of an `AssemblerAction`.
#[verifier::ext_equal]
pub enum ActionView {
    Nothing,
    WalObserved(LogSequenceNumber),
    Transaction(ModelBatchView),
    StoppedAt(LogSequenceNumber),
}

impl View for AssemblerAction {
    type V = ActionView;

    open spec fn view(&self) -> ActionView {
        match *self {
            AssemblerAction::Nothing => ActionView::Nothing,
            AssemblerAction::WalObserved(lsn) => ActionView::WalObserved(lsn),
            AssemblerAction::Transaction(batch) => ActionView::Transaction(batch@),
            AssemblerAction::StoppedAt(lsn) => ActionView::StoppedAt(lsn),
        }
    }
}

/// Why a sequence of events is refused.
#[derive(Clone, Debug, PartialEq, Eq)]
pub enum AssemblerError {
    NestedBegin,
    WalOutsideTransaction,
    MessageOutsideTransaction,
    NonTransactionalLogicalMessage,
    CommitWithoutBegin,
    StoppedInsideTransaction,
    TooManyItems,
    CommitTimeMismatch { begin: i64, commit: i64 },
    InvalidBatch(BatchValidationError),
}

/// The part of a transaction that has arrived.
#[verifier::ext_equal]
pub struct PendingView {
    pub xid: u32,
    pub final_lsn: LogSequenceNumber,
    pub commit_time_micros: i64,
    pub items: Seq<ItemView>,
}

impl PendingView {
    /// The same part with one item more.
    pub open spec fn with_item(self, item: ItemView) -> PendingView {
        PendingView { items: self.items.push(item), ..self }
    }

    /// The transaction that a commit makes of this part.
    pub open spec fn committed(
        self,
        commit_lsn: LogSequenceNumber,
        end_lsn: LogSequenceNumber,
    ) -> ModelBatchView {
        ModelBatchView {
            xid: self.xid,
            begin_final_lsn: self.final_lsn,
            commit_lsn,
            end_lsn,
            commit_time_micros: self.commit_time_micros,
            items: self.items,
        }
    }
}

/// Contents of a `CdcAssembler`.
#[verifier::ext_equal]
pub struct AssemblyView {
    pub pending: Option<PendingView>,
    pub limits: BatchLimits,
}

impl AssemblyView {
    /// What is left to do with an item that arrives: the item and its position, or a refusal.
    pub open spec fn accept(
        self,
        item: ItemView,
        observed: LogSequenceNumber,
        outside: AssemblerError,
        refusal: Option<BatchValidationError>,
    ) -> (AssemblyView, Result<ActionView, AssemblerError>) {
        match self.pending {
            None => (self, Err(outside)),
            Some(pending) => if pending.items.len() >= self.limits.max_items {
                (self, Err(AssemblerError::TooManyItems))
            } else {
                match refusal {
                    Some(error) => (self, Err(AssemblerError::InvalidBatch(error))),
                    None => (
                        AssemblyView { pending: Some(pending.with_item(item)), ..self },
                        Ok(ActionView::WalObserved(observed)),
                    ),
                }
            },
        }
    }

    /// The state after an event, and what the event means.
    pub open spec fn step(self, event: CdcEvent) -> (
        AssemblyView,
        Result<ActionView, AssemblerError>,
    ) {
        match event {
            CdcEvent::KeepAlive { wal_end, .. } => (self, Ok(ActionView::WalObserved(wal_end))),
            CdcEvent::Begin { final_lsn, xid, commit_time_micros } => if self.pending is Some {
                (self, Err(AssemblerError::NestedBegin))
            } else {
                let pending = PendingView {
                    xid,
                    final_lsn,
                    commit_time_micros,
                    items: Seq::empty(),
                };
                (AssemblyView { pending: Some(pending), ..self }, Ok(ActionView::Nothing))
            },
            CdcEvent::XLogData { wal_start, wal_end, server_time_micros, data } => {
                let chunk = WalView { wal_start, wal_end, server_time_micros, data: data@ };
                self.accept(
                    ItemView::Wal(chunk),
                    wal_end,
                    AssemblerError::WalOutsideTransaction,
                    chunk.error(self.limits),
                )
            },
            CdcEvent::Message { transactional, lsn, prefix, content } => if !transactional {
                (self, Err(AssemblerError::NonTransactionalLogicalMessage))
            } else {
                let message = LogicalMessageView { lsn, prefix: prefix@, content: content@ };
                self.accept(
                    ItemView::Message(message),
                    lsn,
                    AssemblerError::MessageOutsideTransaction,
                    message.error(self.limits),
                )
            },
            CdcEvent::Commit { lsn, end_lsn, commit_time_micros } => {
                let closed_state = AssemblyView { pending: None, ..self };
                match self.pending {
                    None => (self, Err(AssemblerError::CommitWithoutBegin)),
                    Some(pending) => if pending.commit_time_micros != commit_time_micros {
                        (
                            closed_state,
                            Err(
                                AssemblerError::CommitTimeMismatch {
                                    begin: pending.commit_time_micros,
                                    commit: commit_time_micros,
                                },
                            ),
                        )
                    } else {
                        let batch = pending.committed(lsn, end_lsn);
                        match batch.error(self.limits) {
                            Some(error) => (
                                closed_state,
                                Err(AssemblerError::InvalidBatch(error)),
                            ),
                            None => (closed_state, Ok(ActionView::Transaction(batch))),
                        }
                    },
                }
            },
            CdcEvent::StoppedAt { reached } => if self.pending is Some {
                (self, Err(AssemblerError::StoppedInsideTransaction))
            } else {
                (self, Ok(ActionView::StoppedAt(reached)))
            },
        }
    }
}

struct PendingTransaction {
    xid: u32,
    final_lsn: LogSequenceNumber,
    commit_time_micros: i64,
    items: Vec<TransactionItem>,
}

impl PendingTransaction {
    spec fn content(self) -> PendingView {
        PendingView {
            xid: self.xid,
            final_lsn: self.final_lsn,
            commit_time_micros: self.commit_time_micros,
            items: items_view(self.items@),
        }
    }
}

/// Assembler of one ordered stream of replication events.
pub struct CdcAssembler {
    pending: Option<PendingTransaction>,
    limits: BatchLimits,
}

impl View for CdcAssembler {
    type V = AssemblyView;

    closed spec fn view(&self) -> AssemblyView {
        AssemblyView {
            pending: match self.pending {
                Some(pending) => Some(pending.content()),
                None => None,
            },
            limits: self.limits,
        }
    }
}

impl CdcAssembler {
    /// An assembler outside of any transaction.
    pub fn new(limits: BatchLimits) -> (assembler: Self)
        ensures
            assembler@ == (AssemblyView { pending: None, limits }),
    {
        CdcAssembler { pending: None, limits }
    }

    /// Whether a transaction is incomplete and therefore invisible.
    pub fn in_transaction(&self) -> (open: bool)
        ensures
            open == (self@.pending is Some),
    {
        self.pending.is_some()
    }

    /// Takes one event of the stream.
    pub fn push(&mut self, event: CdcEvent) -> (result: Result<AssemblerAction, AssemblerError>)
        ensures
            ({
                let (state, outcome) = old(self)@.step(event);
                &&& final(self)@ == state
                &&& match result {
                    Ok(action) => outcome == Ok::<ActionView, AssemblerError>(action@),
                    Err(error) => outcome == Err::<ActionView, AssemblerError>(error),
                }
            }),
    {
        match event {
            CdcEvent::KeepAlive { wal_end, .. } => Ok(AssemblerAction::WalObserved(wal_end)),
            CdcEvent::Begin { final_lsn, xid, commit_time_micros } => {
                if self.pending.is_some() {
                    return Err(AssemblerError::NestedBegin);
                }
                let items: Vec<TransactionItem> = Vec::new();
                assert(items_view(items@) =~= Seq::empty());
                self.pending = Some(
                    PendingTransaction { xid, final_lsn, commit_time_micros, items },
                );
                Ok(AssemblerAction::Nothing)
            },
            CdcEvent::XLogData { wal_start, wal_end, server_time_micros, data } => {
                self.room_for_item(AssemblerError::WalOutsideTransaction)?;
                match WalChunk::try_new(wal_start, wal_end, server_time_micros, data, self.limits) {
                    Ok(chunk) => {
                        self.take_item(TransactionItem::Wal(chunk));
                        Ok(AssemblerAction::WalObserved(wal_end))
                    },
                    Err(error) => Err(AssemblerError::InvalidBatch(error)),
                }
            },
            CdcEvent::Message { transactional, lsn, prefix, content } => {
                if !transactional {
                    return Err(AssemblerError::NonTransactionalLogicalMessage);
                }
                self.room_for_item(AssemblerError::MessageOutsideTransaction)?;
                match LogicalMessage::try_new(lsn, prefix, content, self.limits) {
                    Ok(message) => {
                        self.take_item(TransactionItem::Message(message));
                        Ok(AssemblerAction::WalObserved(lsn))
                    },
                    Err(error) => Err(AssemblerError::InvalidBatch(error)),
                }
            },
            CdcEvent::Commit { lsn, end_lsn, commit_time_micros } => {
                let pending = match self.pending.take() {
                    Some(pending) => pending,
                    None => return Err(AssemblerError::CommitWithoutBegin),
                };
                if pending.commit_time_micros != commit_time_micros {
                    return Err(
                        AssemblerError::CommitTimeMismatch {
                            begin: pending.commit_time_micros,
                            commit: commit_time_micros,
                        },
                    );
                }
                match TransactionBatch::try_new(
                    pending.xid,
                    pending.final_lsn,
                    lsn,
                    end_lsn,
                    commit_time_micros,
                    pending.items,
                    self.limits,
                ) {
                    Ok(batch) => Ok(AssemblerAction::Transaction(batch)),
                    Err(error) => Err(AssemblerError::InvalidBatch(error)),
                }
            },
            CdcEvent::StoppedAt { reached } => {
                if self.pending.is_some() {
                    return Err(AssemblerError::StoppedInsideTransaction);
                }
                Ok(AssemblerAction::StoppedAt(reached))
            },
        }
    }

    fn room_for_item(&self, outside: AssemblerError) -> (result: Result<(), AssemblerError>)
        ensures
            match result {
                Ok(_) => self@.pending is Some && self@.pending->0.items.len()
                    < self@.limits.max_items,
                Err(error) => if self@.pending is None {
                    error == outside
                } else {
                    error == AssemblerError::TooManyItems && self@.pending->0.items.len()
                        >= self@.limits.max_items
                },
            },
    {
        match &self.pending {
            None => Err(outside),
            Some(pending) => if pending.items.len() >= self.limits.max_items {
                Err(AssemblerError::TooManyItems)
            } else {
                Ok(())
            },
        }
    }

    fn take_item(&mut self, item: TransactionItem)
        requires
            old(self)@.pending is Some,
        ensures
            final(self)@ == (AssemblyView {
                pending: Some(old(self)@.pending->0.with_item(item@)),
                ..old(self)@
            }),
    {
        if let Some(mut pending) = self.pending.take() {
            let ghost before = pending.items@;
            pending.items.push(item);
            assert(items_view(pending.items@) =~= items_view(before).push(item@));
            self.pending = Some(pending);
        }
    }
}

/// A transaction is handed out at a commit only: every other event keeps or opens the
/// incomplete part, or is refused. What is handed out is exactly what had arrived, and
/// nothing stays behind.
pub proof fn law_transaction_appears_only_at_its_commit(state: AssemblyView, event: CdcEvent)
    ensures
        state.step(event).1 matches Ok(ActionView::Transaction(batch)) ==> {
            &&& event is Commit
            &&& state.pending is Some
            &&& batch.items == state.pending->0.items
            &&& batch.xid == state.pending->0.xid
            &&& batch.error(state.limits) is None
            &&& batch.ordered()
            &&& state.step(event).0.pending is None
        },
        !(event is Commit) && state.pending is Some ==> state.step(event).0.pending is Some
            && state.pending->0.items.is_prefix_of(state.step(event).0.pending->0.items),
{
}

/// A refused event leaves the incomplete part as it is, except that a commit always closes it:
/// a transaction whose commit is refused is never exposed later.
pub proof fn law_refused_event_exposes_nothing(state: AssemblyView, event: CdcEvent)
    requires
        state.step(event).1 is Err,
    ensures
        !(event is Commit) ==> state.step(event).0 == state,
        event is Commit ==> state.step(event).0.pending is None,
{
}

/// The items that an event brings.
pub open spec fn items_of(event: CdcEvent) -> Seq<ItemView> {
    match event {
        CdcEvent::XLogData { wal_start, wal_end, server_time_micros, data } => seq![
            ItemView::Wal(WalView { wal_start, wal_end, server_time_micros, data: data@ }),
        ],
        CdcEvent::Message { transactional, lsn, prefix, content } => seq![
            ItemView::Message(LogicalMessageView { lsn, prefix: prefix@, content: content@ }),
        ],
        _ => Seq::empty(),
    }
}

/// The items that a run of events brings, in order of arrival.
pub open spec fn items_of_all(events: Seq<CdcEvent>) -> Seq<ItemView>
    decreases events.len(),
{
    if events.len() == 0 {
        Seq::empty()
    } else {
        items_of_all(events.drop_last()) + items_of(events.last())
    }
}

/// The state after a run of events.
pub open spec fn state_after(state: AssemblyView, events: Seq<CdcEvent>) -> AssemblyView
    decreases events.len(),
{
    if events.len() == 0 {
        state
    } else {
        state_after(state, events.drop_last()).step(events.last()).0
    }
}

/// Whether every event of a run is accepted.
pub open spec fn all_accepted(state: AssemblyView, events: Seq<CdcEvent>) -> bool
    decreases events.len(),
{
    events.len() == 0 || (all_accepted(state, events.drop_last()) && state_after(
        state,
        events.drop_last(),
    ).step(events.last()).1 is Ok)
}

proof fn lemma_items_arrive_in_order(state: AssemblyView, events: Seq<CdcEvent>)
    requires
        state.pending is Some,
        all_accepted(state, events),
        forall|i: int| 0 <= i < events.len() ==> !(#[trigger] events[i] is Commit),
    ensures
        ({
            let reached = state_after(state, events);
            &&& reached.limits == state.limits
            &&& reached.pending is Some
            &&& reached.pending->0.xid == state.pending->0.xid
            &&& reached.pending->0.final_lsn == state.pending->0.final_lsn
            &&& reached.pending->0.commit_time_micros == state.pending->0.commit_time_micros
            &&& reached.pending->0.items =~= state.pending->0.items + items_of_all(events)
        }),
    decreases events.len(),
{
    if events.len() > 0 {
        assert forall|i: int| 0 <= i < events.drop_last().len() implies !(
        #[trigger] events.drop_last()[i] is Commit) by {
            assert(events.drop_last()[i] == events[i]);
        }
        lemma_items_arrive_in_order(state, events.drop_last());
        assert(!(events[events.len() - 1] is Commit));
        let before = state_after(state, events.drop_last());
        let item = items_of(events.last());
        assert(before.step(events.last()).0.pending->0.items =~= before.pending->0.items + item);
    }
}

/// A begin, a run of accepted events and an accepted commit hand out one transaction. It holds
/// what the events between brought, in order of arrival, under the id of the begin, and at the
/// positions of the commit.
pub proof fn law_commit_hands_out_what_arrived(
    state: AssemblyView,
    begin: CdcEvent,
    events: Seq<CdcEvent>,
    commit: CdcEvent,
)
    requires
        begin is Begin,
        commit is Commit,
        forall|i: int| 0 <= i < events.len() ==> !(#[trigger] events[i] is Commit),
        state.step(begin).1 is Ok,
        all_accepted(state.step(begin).0, events),
        state_after(state.step(begin).0, events).step(commit).1 is Ok,
    ensures
        state_after(state.step(begin).0, events).step(commit).1
            == Ok::<ActionView, AssemblerError>(
            ActionView::Transaction(
                ModelBatchView {
                    xid: begin->xid,
                    begin_final_lsn: begin->final_lsn,
                    commit_lsn: commit->Commit_lsn,
                    end_lsn: commit->end_lsn,
                    commit_time_micros: begin->Begin_commit_time_micros,
                    items: items_of_all(events),
                },
            ),
        ),
        begin->final_lsn == commit->Commit_lsn,
        begin->Begin_commit_time_micros == commit->Commit_commit_time_micros,
{
    lemma_items_arrive_in_order(state.step(begin).0, events);
    assert(state_after(state.step(begin).0, events).pending->0.items =~= items_of_all(events));
}

impl AssemblerError {
    /// The diagnostic text of this error.
    pub open spec fn spec_message(self) -> Seq<char> {
        match self {
            AssemblerError::NestedBegin => "nested PostgreSQL BEGIN in logical stream"@,
            AssemblerError::WalOutsideTransaction => "PostgreSQL WAL data outside transaction"@,
            AssemblerError::MessageOutsideTransaction => {
                "transactional logical message outside transaction"@
            },
            AssemblerError::NonTransactionalLogicalMessage => {
                "non-transactional logical messages are unsupported"@
            },
            AssemblerError::CommitWithoutBegin => "PostgreSQL COMMIT without BEGIN"@,
            AssemblerError::StoppedInsideTransaction => {
                "replication stopped inside incomplete transaction"@
            },
            AssemblerError::TooManyItems => "transaction item limit reached before COMMIT"@,
            AssemblerError::CommitTimeMismatch { begin, commit } => {
                "BEGIN commit time "@ + decimal(begin as int) + " differs from COMMIT time "@
                    + decimal(commit as int)
            },
            AssemblerError::InvalidBatch(error) => {
                "invalid committed transaction: "@ + error.spec_message()
            },
        }
    }

    /// The diagnostic text of this error.
    pub fn message(&self) -> (text: String)
        ensures
            text@ == self.spec_message(),
    {
        match self {
            AssemblerError::NestedBegin => "nested PostgreSQL BEGIN in logical stream".to_owned(),
            AssemblerError::WalOutsideTransaction => {
                "PostgreSQL WAL data outside transaction".to_owned()
            },
            AssemblerError::MessageOutsideTransaction => {
                "transactional logical message outside transaction".to_owned()
            },
            AssemblerError::NonTransactionalLogicalMessage => {
                "non-transactional logical messages are unsupported".to_owned()
            },
            AssemblerError::CommitWithoutBegin => "PostgreSQL COMMIT without BEGIN".to_owned(),
            AssemblerError::StoppedInsideTransaction => {
                "replication stopped inside incomplete transaction".to_owned()
            },
            AssemblerError::TooManyItems => {
                "transaction item limit reached before COMMIT".to_owned()
            },
            AssemblerError::CommitTimeMismatch { begin, commit } => {
                let mut text = joined("BEGIN commit time ", signed_decimal_text(*begin).as_str());
                text.append(" differs from COMMIT time ");
                text.append(signed_decimal_text(*commit).as_str());
                text
            },
            AssemblerError::InvalidBatch(error) => {
                joined("invalid committed transaction: ", error.message().as_str())
            },
        }
    }
}

/// A transaction opens where none is open, with what its begin says and with no item.
pub proof fn law_begin_opens_exactly_one_transaction(state: AssemblyView, begin: CdcEvent)
    requires
        begin is Begin,
    ensures
        state.step(begin).1 is Ok <==> state.pending is None,
        state.pending is None ==> {
            &&& state.step(begin).1 == Ok::<ActionView, AssemblerError>(ActionView::Nothing)
            &&& state.step(begin).0.limits == state.limits
            &&& state.step(begin).0.pending matches Some(opened)
            &&& opened.xid == begin->xid
            &&& opened.final_lsn == begin->final_lsn
            &&& opened.commit_time_micros == begin->Begin_commit_time_micros
            &&& opened.items.len() == 0
        },
        state.pending is Some ==> state.step(begin).1 == Err::<ActionView, AssemblerError>(
            AssemblerError::NestedBegin,
        ),
{
}

/// Data inside a transaction is taken exactly if there is room for it and it is within the
/// limits: it becomes the last item, and its end is observed.
pub proof fn law_open_transaction_takes_its_data(state: AssemblyView, data: CdcEvent)
    requires
        data is XLogData,
    ensures
        state.step(data).1 is Ok <==> {
            &&& state.pending matches Some(pending)
            &&& pending.items.len() < state.limits.max_items
            &&& data->wal_start.0 <= data->XLogData_wal_end.0
            &&& data->data@.len() <= state.limits.max_item_bytes
        },
        state.step(data).1 is Ok ==> {
            let items = state.pending->0.items;
            let next = state.step(data).0.pending->0.items;
            &&& state.step(data).1 == Ok::<ActionView, AssemblerError>(
                ActionView::WalObserved(data->XLogData_wal_end),
            )
            &&& state.step(data).0.pending is Some
            &&& next.len() == items.len() + 1
            &&& items.is_prefix_of(next)
            &&& next.last() matches ItemView::Wal(chunk)
            &&& chunk.wal_start == data->wal_start
            &&& chunk.wal_end == data->XLogData_wal_end
            &&& chunk.server_time_micros == data->XLogData_server_time_micros
            &&& chunk.data == data->data@
        },
        state.pending is None ==> state.step(data).1 == Err::<ActionView, AssemblerError>(
            AssemblerError::WalOutsideTransaction,
        ),
        state.step(data).1 == Err::<ActionView, AssemblerError>(AssemblerError::TooManyItems)
            ==> (state.pending matches Some(pending) && state.limits.max_items
            <= pending.items.len()),
{
}

/// A transactional message inside a transaction is taken exactly if there is room for it and it
/// is within the limits: it becomes the last item, and its position is observed. A message
/// outside of any transaction, or one that belongs to none, is refused as such.
pub proof fn law_open_transaction_takes_its_messages(state: AssemblyView, message: CdcEvent)
    requires
        message is Message,
    ensures
        state.step(message).1 is Ok <==> {
            &&& message->transactional
            &&& state.pending matches Some(pending)
            &&& pending.items.len() < state.limits.max_items
            &&& encode_utf8(message->prefix@).len() <= state.limits.max_prefix_bytes
            &&& message->content@.len() <= state.limits.max_item_bytes
        },
        state.step(message).1 is Ok ==> {
            let items = state.pending->0.items;
            let next = state.step(message).0.pending->0.items;
            &&& state.step(message).1 == Ok::<ActionView, AssemblerError>(
                ActionView::WalObserved(message->Message_lsn),
            )
            &&& state.step(message).0.pending is Some
            &&& next.len() == items.len() + 1
            &&& items.is_prefix_of(next)
            &&& next.last() matches ItemView::Message(item)
            &&& item.lsn == message->Message_lsn
            &&& item.prefix == message->prefix@
            &&& item.content == message->content@
        },
        state.step(message).1 == Err::<ActionView, AssemblerError>(
            AssemblerError::NonTransactionalLogicalMessage,
        ) <==> !message->transactional,
        state.step(message).1 == Err::<ActionView, AssemblerError>(
            AssemblerError::MessageOutsideTransaction,
        ) <==> message->transactional && state.pending is None,
{
}

/// A commit is accepted exactly if a transaction is open whose begin announced the same time and
/// the position of the commit, the transaction does not end before its commit, and what arrived
/// is within the limits.
pub proof fn law_commit_is_accepted_exactly_if_it_fits(state: AssemblyView, commit: CdcEvent)
    requires
        commit is Commit,
    ensures
        state.step(commit).1 is Ok <==> {
            &&& state.pending matches Some(pending)
            &&& pending.commit_time_micros == commit->Commit_commit_time_micros
            &&& pending.final_lsn.0 == commit->Commit_lsn.0
            &&& commit->Commit_lsn.0 <= commit->end_lsn.0
            &&& pending.items.len() <= state.limits.max_items
            &&& payload_total(pending.items) <= state.limits.max_encoded_bytes
        },
        state.step(commit).0.limits == state.limits,
        state.pending is None ==> state.step(commit).1 == Err::<ActionView, AssemblerError>(
            AssemblerError::CommitWithoutBegin,
        ),
        state.pending matches Some(pending) ==> pending.commit_time_micros
            != commit->Commit_commit_time_micros ==> state.step(commit).1 == Err::<
            ActionView,
            AssemblerError,
        >(
            AssemblerError::CommitTimeMismatch {
                begin: pending.commit_time_micros,
                commit: commit->Commit_commit_time_micros,
            },
        ),
{
}

/// A keep-alive is always accepted and changes nothing but what is observed. The end of the
/// stream is accepted exactly where no transaction is open, with the position reached.
pub proof fn law_stream_may_idle_anywhere_and_stop_outside(state: AssemblyView, event: CdcEvent)
    ensures
        event matches CdcEvent::KeepAlive { wal_end, .. } ==> state.step(event) == (state, Ok::<
            ActionView,
            AssemblerError,
        >(ActionView::WalObserved(wal_end))),
        event matches CdcEvent::StoppedAt { reached } ==> {
            &&& state.step(event).0 == state
            &&& state.pending is None ==> state.step(event).1 == Ok::<ActionView, AssemblerError>(
                ActionView::StoppedAt(reached),
            )
            &&& state.pending is Some ==> state.step(event).1 == Err::<
                ActionView,
                AssemblerError,
            >(AssemblerError::StoppedInsideTransaction)
        },
{
}

} // verus!
