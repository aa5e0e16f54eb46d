//! Stateful transaction stream over decoded messages. It emits only committed transactions.

use super::lsn::LogSequenceNumber;
use super::pgoutput::{MessageView, PgOutputMessage, RelationMetadata, RelationView};
use super::transaction::{
    law_begin_opens_an_empty_transaction, law_open_transaction_takes_every_change, BatchView,
    BuilderView, ChangeKind, RowChange, RowChangeView, TransactionBatch,
    TransactionBuildError, TransactionBuilder,
};
use crate::text::{decimal, decimal_text, joined};
use vstd::prelude::*;

verus! {

/// Why the stream refused a message.
#[derive(Clone, Copy, Debug, PartialEq, Eq, Structural)]
pub enum StreamError {
    Transaction(TransactionBuildError),
    UnknownRelation(u32),
}

impl StreamError {
    /// The diagnostic text of this error.
    pub open spec fn spec_message(self) -> Seq<char> {
        match self {
            StreamError::Transaction(error) => "transaction stream error: "@
                + error.spec_message(),
            StreamError::UnknownRelation(id) => "unknown relation "@ + decimal(id as int),
        }
    }

    /// The diagnostic text of this error.
    pub fn message(&self) -> (text: String)
        ensures
            text@ == self.spec_message(),
    {
        match self {
            StreamError::Transaction(error) => {
                joined("transaction stream error: ", error.message().as_str())
            },
            StreamError::UnknownRelation(id) => {
                joined("unknown relation ", decimal_text(*id as u64).as_str())
            },
        }
    }
}

/// State of a `TransactionStream`.
#[verifier::ext_equal]
pub struct StreamView {
    pub builder: BuilderView,
    pub relations: Map<u32, RelationView>,
}

/// What a message emits.
pub type Emission = Result<Option<BatchView>, StreamError>;

/// The contents of what a message emits.
pub open spec fn emission(result: Result<Option<TransactionBatch>, StreamError>) -> Emission {
    match result {
        Ok(Some(batch)) => Ok(Some(batch@)),
        Ok(None) => Ok(None),
        Err(error) => Err(error),
    }
}

/// The change that a truncate stands for on one relation.
pub open spec fn truncation(relation_id: u32) -> RowChangeView {
    RowChangeView { relation_id, kind: ChangeKind::Truncate, old_tuple: None, new_tuple: None }
}

impl StreamView {
    /// A stream that has seen nothing.
    pub open spec fn fresh() -> StreamView {
        StreamView { builder: BuilderView::fresh(), relations: Map::empty() }
    }

    /// The same stream with another builder state.
    pub open spec fn with_builder(self, builder: BuilderView) -> StreamView {
        StreamView { builder, relations: self.relations }
    }

    /// The state after a begin.
    pub open spec fn begun(self, xid: u32, final_lsn: LogSequenceNumber) -> (StreamView, Emission) {
        match self.builder.begun(xid, final_lsn) {
            (builder, Ok(_)) => (self.with_builder(builder), Ok(None)),
            (builder, Err(error)) => (
                self.with_builder(builder),
                Err(StreamError::Transaction(error)),
            ),
        }
    }

    /// The state after a commit, and the transaction that it emits.
    pub open spec fn committed(self, commit_lsn: LogSequenceNumber, end_lsn: LogSequenceNumber) -> (
        StreamView,
        Emission,
    ) {
        match self.builder.committed(commit_lsn, end_lsn) {
            (builder, Ok(batch)) => (self.with_builder(builder), Ok(Some(batch))),
            (builder, Err(error)) => (
                self.with_builder(builder),
                Err(StreamError::Transaction(error)),
            ),
        }
    }

    /// The state after one change of a known relation.
    pub open spec fn changed(self, change: RowChangeView) -> (StreamView, Emission) {
        if !self.relations.contains_key(change.relation_id) {
            (self, Err(StreamError::UnknownRelation(change.relation_id)))
        } else {
            match self.builder.pushed(change) {
                (builder, Ok(_)) => (self.with_builder(builder), Ok(None)),
                (builder, Err(error)) => (
                    self.with_builder(builder),
                    Err(StreamError::Transaction(error)),
                ),
            }
        }
    }

    /// The state after truncates of `ids` in order, up to the first one that is refused.
    pub open spec fn truncated(self, ids: Seq<u32>) -> (StreamView, Emission)
        decreases ids.len(),
    {
        if ids.len() == 0 {
            (self, Ok(None))
        } else {
            match self.changed(truncation(ids[0])) {
                (next, Ok(_)) => next.truncated(ids.drop_first()),
                (next, Err(error)) => (next, Err(error)),
            }
        }
    }

    /// The state after one message, and what it emits.
    pub open spec fn consumed(self, message: MessageView) -> (StreamView, Emission) {
        match message {
            MessageView::Begin { final_lsn, xid, .. } => self.begun(xid, final_lsn),
            MessageView::Commit { commit_lsn, end_lsn, .. } => self.committed(commit_lsn, end_lsn),
            MessageView::Relation(relation) => (
                StreamView {
                    builder: self.builder,
                    relations: self.relations.insert(relation.relation_id, relation),
                },
                Ok(None),
            ),
            MessageView::Change(change) => self.changed(change),
            MessageView::Truncate { relation_ids, .. } => self.truncated(relation_ids),
        }
    }
}

/// Stateful message stream. It emits only committed transactions.
#[derive(Debug)]
pub struct TransactionStream {
    builder: TransactionBuilder,
    relations: std::collections::BTreeMap<u32, RelationMetadata>,
}

impl View for TransactionStream {
    type V = StreamView;

    closed spec fn view(&self) -> StreamView {
        StreamView {
            builder: self.builder@,
            relations: self.relations@.map_values(|metadata: RelationMetadata| metadata@),
        }
    }
}

impl TransactionStream {
    /// A stream that has seen nothing.
    pub fn new() -> (stream: Self)
        ensures
            stream@ == StreamView::fresh(),
    {
        let stream = TransactionStream {
            builder: TransactionBuilder::new(),
            relations: std::collections::BTreeMap::new(),
        };
        assert(stream@.relations =~= Map::empty());
        stream
    }

    /// Takes one message and gives the transaction that it completes, if any.
    pub fn consume(&mut self, message: PgOutputMessage) -> (result: Result<
        Option<TransactionBatch>,
        StreamError,
    >)
        ensures
            (final(self)@, emission(result)) == old(self)@.consumed(message@),
    {
        broadcast use vstd::std_specs::btree::group_btree_axioms;

        match message {
            PgOutputMessage::Begin { final_lsn, xid, .. } => {
                self.begin_transaction(xid, final_lsn)?;
                Ok(None)
            },
            PgOutputMessage::Commit { commit_lsn, end_lsn, .. } => {
                let batch = self.commit_transaction(commit_lsn, end_lsn)?;
                Ok(Some(batch))
            },
            PgOutputMessage::Relation(metadata) => {
                let ghost before = self@.relations;
                self.relations.insert(metadata.relation_id, metadata);
                assert(self@.relations =~= before.insert(metadata.relation_id, metadata@));
                Ok(None)
            },
            PgOutputMessage::Change(change) => {
                self.push_change(change)?;
                Ok(None)
            },
            PgOutputMessage::Truncate { relation_ids, .. } => {
                let ghost start = self@;
                let mut index: usize = 0;
                assert(relation_ids@.skip(0) =~= relation_ids@);
                while index < relation_ids.len()
                    invariant
                        index <= relation_ids@.len(),
                        start == old(self)@,
                        message@ == (MessageView::Truncate {
                            relation_ids: relation_ids@,
                            options: message->Truncate_options,
                        }),
                        start.truncated(relation_ids@) == self@.truncated(
                            relation_ids@.skip(index as int),
                        ),
                    decreases relation_ids@.len() - index,
                {
                    assert(relation_ids@.skip(index as int).drop_first() =~= relation_ids@.skip(
                        index + 1,
                    ));
                    let change = RowChange::new(
                        relation_ids[index],
                        ChangeKind::Truncate,
                        None,
                        None,
                    );
                    assert(change@ == truncation(relation_ids@[index as int]));
                    self.push_change(change)?;
                    index = index + 1;
                }
                Ok(None)
            },
        }
    }

    fn push_change(&mut self, change: RowChange) -> (result: Result<(), StreamError>)
        ensures
            match result {
                Ok(_) => old(self)@.changed(change@) == (final(self)@, Ok::<
                    Option<BatchView>,
                    StreamError,
                >(None)),
                Err(error) => old(self)@.changed(change@) == (final(self)@, Err::<
                    Option<BatchView>,
                    StreamError,
                >(error)),
            },
    {
        self.require_relation(change.relation_id)?;
        match self.builder.push(change) {
            Ok(_) => Ok(()),
            Err(error) => Err(StreamError::Transaction(error)),
        }
    }

    /// Opens a transaction.
    pub fn begin_transaction(&mut self, xid: u32, final_lsn: LogSequenceNumber) -> (result: Result<
        (),
        StreamError,
    >)
        ensures
            match result {
                Ok(_) => old(self)@.begun(xid, final_lsn) == (final(self)@, Ok::<
                    Option<BatchView>,
                    StreamError,
                >(None)),
                Err(error) => old(self)@.begun(xid, final_lsn) == (final(self)@, Err::<
                    Option<BatchView>,
                    StreamError,
                >(error)),
            },
    {
        match self.builder.begin(xid, final_lsn) {
            Ok(_) => Ok(()),
            Err(error) => Err(StreamError::Transaction(error)),
        }
    }

    /// Closes the open transaction and hands it out.
    pub fn commit_transaction(
        &mut self,
        commit_lsn: LogSequenceNumber,
        end_lsn: LogSequenceNumber,
    ) -> (result: Result<TransactionBatch, StreamError>)
        ensures
            match result {
                Ok(batch) => old(self)@.committed(commit_lsn, end_lsn) == (final(self)@, Ok::<
                    Option<BatchView>,
                    StreamError,
                >(Some(batch@))),
                Err(error) => old(self)@.committed(commit_lsn, end_lsn) == (final(self)@, Err::<
                    Option<BatchView>,
                    StreamError,
                >(error)),
            },
    {
        match self.builder.commit(commit_lsn, end_lsn) {
            Ok(batch) => Ok(batch),
            Err(error) => Err(StreamError::Transaction(error)),
        }
    }

    /// What is known of a relation.
    pub fn relation(&self, relation_id: u32) -> (found: Option<&RelationMetadata>)
        ensures
            match found {
                Some(metadata) => self@.relations.contains_key(relation_id)
                    && self@.relations[relation_id] == metadata@,
                None => !self@.relations.contains_key(relation_id),
            },
    {
        broadcast use vstd::std_specs::btree::group_btree_axioms;

        self.relations.get(&relation_id)
    }

    /// Whether a transaction is open.
    pub fn transaction_open(&self) -> (open: bool)
        ensures
            open == (self@.builder.open is Some),
    {
        self.builder.is_open()
    }

    fn require_relation(&self, relation_id: u32) -> (result: Result<(), StreamError>)
        ensures
            result == (if self@.relations.contains_key(relation_id) {
                Ok::<(), StreamError>(())
            } else {
                Err(StreamError::UnknownRelation(relation_id))
            }),
    {
        broadcast use vstd::std_specs::btree::group_btree_axioms;

        if self.relations.contains_key(&relation_id) {
            Ok(())
        } else {
            Err(StreamError::UnknownRelation(relation_id))
        }
    }
}

impl Default for TransactionStream {
    fn default() -> (stream: Self)
        ensures
            stream@ == StreamView::fresh(),
    {
        TransactionStream::new()
    }
}

proof fn lemma_truncated_keeps_relations(state: StreamView, ids: Seq<u32>)
    ensures
        state.truncated(ids).0.relations == state.relations,
        !(state.truncated(ids).1 matches Ok(Some(_))),
        (state.truncated(ids).0.builder.open is Some) == (state.builder.open is Some),
    decreases ids.len(),
{
    if ids.len() > 0 {
        let next = state.changed(truncation(ids[0])).0;
        lemma_truncated_keeps_relations(next, ids.drop_first());
    }
}

/// A stream emits a transaction only for a commit, and only the one that was open.
pub proof fn law_stream_emits_nothing_until_commit(state: StreamView, message: MessageView)
    ensures
        state.consumed(message).1 matches Ok(Some(batch)) ==> {
            &&& message is Commit
            &&& state.builder.open matches Some(open)
            &&& batch.xid == open.xid
            &&& batch.final_lsn == open.final_lsn
            &&& batch.changes == open.changes
            &&& batch.ordered()
            &&& state.consumed(message).0.builder.open is None
        },
{
    if let MessageView::Truncate { relation_ids, .. } = message {
        lemma_truncated_keeps_relations(state, relation_ids);
    }
}

/// A change of an unknown relation is refused and leaves the stream as it was.
pub proof fn law_unknown_relation_changes_nothing(state: StreamView, change: RowChangeView)
    requires
        !state.relations.contains_key(change.relation_id),
    ensures
        state.consumed(MessageView::Change(change)) == (state, Err::<
            Option<BatchView>,
            StreamError,
        >(StreamError::UnknownRelation(change.relation_id))),
{
}

proof fn lemma_truncated_all(state: StreamView, ids: Seq<u32>)
    requires
        state.builder.open is Some,
        forall|i: int| 0 <= i < ids.len() ==> state.relations.contains_key(#[trigger] ids[i]),
    ensures
        state.truncated(ids).1 == Ok::<Option<BatchView>, StreamError>(None),
        state.truncated(ids).0.relations == state.relations,
        state.truncated(ids).0.builder.open matches Some(open) && open.changes
            == state.builder.open->Some_0.changes + Seq::new(
            ids.len(),
            |i: int| truncation(ids[i]),
        ) && open.xid == state.builder.open->Some_0.xid && open.final_lsn
            == state.builder.open->Some_0.final_lsn,
    decreases ids.len(),
{
    let before = state.builder.open->Some_0.changes;
    if ids.len() == 0 {
        assert(before + Seq::new(ids.len(), |i: int| truncation(ids[i])) =~= before);
    } else {
        let next = state.changed(truncation(ids[0])).0;
        let tail = ids.drop_first();
        assert forall|i: int| 0 <= i < tail.len() implies next.relations.contains_key(
            #[trigger] tail[i],
        ) by {
            assert(tail[i] == ids[i + 1]);
        }
        lemma_truncated_all(next, tail);
        assert(before.push(truncation(ids[0])) + Seq::new(
            tail.len(),
            |i: int| truncation(tail[i]),
        ) =~= before + Seq::new(ids.len(), |i: int| truncation(ids[i])));
    }
}

/// A truncate of known relations inside a transaction adds one truncate change per relation, in
/// order, to that transaction.
pub proof fn law_truncate_expands_all_relations(state: StreamView, ids: Seq<u32>, options: u8)
    requires
        state.builder.open is Some,
        forall|i: int| 0 <= i < ids.len() ==> state.relations.contains_key(#[trigger] ids[i]),
    ensures
        ({
            let message = MessageView::Truncate { relation_ids: ids, options };
            &&& state.consumed(message).1 == Ok::<Option<BatchView>, StreamError>(None)
            &&& state.consumed(message).0.builder.open matches Some(open)
            &&& open.changes == state.builder.open->Some_0.changes + Seq::new(
                ids.len(),
                |i: int| truncation(ids[i]),
            )
        }),
{
    lemma_truncated_all(state, ids);
}

/// The stream after a run of messages, each of them consumed in turn.
pub open spec fn after_consuming(state: StreamView, messages: Seq<MessageView>) -> StreamView
    decreases messages.len(),
{
    if messages.len() == 0 {
        state
    } else {
        after_consuming(state, messages.drop_last()).consumed(messages.last()).0
    }
}

/// The messages of a run of row changes.
pub open spec fn change_messages(changes: Seq<RowChangeView>) -> Seq<MessageView> {
    Seq::new(changes.len(), |i: int| MessageView::Change(changes[i]))
}

/// A change of a known relation inside a transaction is taken, whatever its kind: it becomes the
/// last change of the open transaction, emits nothing and moves nothing else.
pub proof fn law_stream_takes_every_change(state: StreamView, change: RowChangeView)
    requires
        state.relations.contains_key(change.relation_id),
    ensures
        state.builder.open matches Some(open) ==> {
            let (after, answer) = state.consumed(MessageView::Change(change));
            &&& answer == Ok::<Option<BatchView>, StreamError>(None)
            &&& after.relations == state.relations
            &&& after.builder.last_commit_lsn == state.builder.last_commit_lsn
            &&& after.builder.open matches Some(now)
            &&& now.xid == open.xid
            &&& now.final_lsn == open.final_lsn
            &&& now.changes == open.changes.push(change)
        },
        state.builder.open is None ==> state.consumed(MessageView::Change(change)) == (state, Err::<
            Option<BatchView>,
            StreamError,
        >(StreamError::Transaction(TransactionBuildError::ChangeOutsideTransaction))),
{
    law_open_transaction_takes_every_change(state.builder, change);
    if let Some(open) = state.builder.open {
        let now = state.builder.pushed(change).0.open->Some_0.changes;
        assert(now =~= now.drop_last().push(now.last()));
    }
}

proof fn lemma_consumed_run(state: StreamView, changes: Seq<RowChangeView>)
    requires
        state.builder.open is Some,
        forall|i: int|
            0 <= i < changes.len() ==> state.relations.contains_key(
                (#[trigger] changes[i]).relation_id,
            ),
    ensures
        after_consuming(state, change_messages(changes)).builder.open matches Some(open)
            && open.xid == state.builder.open->Some_0.xid && open.final_lsn
            == state.builder.open->Some_0.final_lsn && open.changes
            == state.builder.open->Some_0.changes + changes,
        after_consuming(state, change_messages(changes)).relations == state.relations,
        after_consuming(state, change_messages(changes)).builder.last_commit_lsn
            == state.builder.last_commit_lsn,
    decreases changes.len(),
{
    let before = state.builder.open->Some_0.changes;
    if changes.len() == 0 {
        assert(before + changes =~= before);
    } else {
        let front = changes.drop_last();
        let last = changes[changes.len() - 1];
        assert forall|i: int| 0 <= i < front.len() implies state.relations.contains_key(
            (#[trigger] front[i]).relation_id,
        ) by {
            assert(front[i] == changes[i]);
        }
        assert(change_messages(changes).drop_last() =~= change_messages(front));
        lemma_consumed_run(state, front);
        let reached = after_consuming(state, change_messages(front));
        law_stream_takes_every_change(reached, last);
        assert((before + front).push(last) =~= before + changes);
    }
}

/// A begin, any run of changes of known relations and a commit behind everything committed before
/// emit one transaction that holds exactly the changes of the run, in order, under the id and the
/// positions that the begin and the commit gave.
pub proof fn law_stream_emits_every_change_in_order(
    state: StreamView,
    begin: MessageView,
    changes: Seq<RowChangeView>,
    commit: MessageView,
)
    requires
        state.builder.open is None,
        begin is Begin,
        commit is Commit,
        state.builder.last_commit_lsn.0 <= commit->commit_lsn.0,
        begin->final_lsn.0 <= commit->commit_lsn.0 <= commit->end_lsn.0,
        forall|i: int|
            0 <= i < changes.len() ==> state.relations.contains_key(
                (#[trigger] changes[i]).relation_id,
            ),
    ensures
        ({
            let opened = state.consumed(begin).0;
            let (after, answer) = after_consuming(opened, change_messages(changes)).consumed(
                commit,
            );
            &&& answer == Ok::<Option<BatchView>, StreamError>(
                Some(
                    BatchView {
                        xid: begin->xid,
                        final_lsn: begin->final_lsn,
                        commit_lsn: commit->commit_lsn,
                        end_lsn: commit->end_lsn,
                        changes,
                    },
                ),
            )
            &&& after.builder.open is None
            &&& after.builder.last_commit_lsn == commit->commit_lsn
            &&& after.relations == state.relations
        }),
{
    law_begin_opens_an_empty_transaction(state.builder, begin->xid, begin->final_lsn);
    let opened = state.consumed(begin).0;
    lemma_consumed_run(opened, changes);
    assert(opened.builder.open->Some_0.changes + changes =~= changes);
}

/// A relation that is announced is known from then on as it was announced, until it is announced
/// again; the other relations and the open transaction stay as they were.
pub proof fn law_announced_relation_is_known(
    state: StreamView,
    relation: RelationView,
    other: u32,
)
    ensures
        ({
            let (after, answer) = state.consumed(MessageView::Relation(relation));
            &&& answer == Ok::<Option<BatchView>, StreamError>(None)
            &&& after.builder == state.builder
            &&& after.relations.contains_key(relation.relation_id)
            &&& after.relations[relation.relation_id] == relation
            &&& other != relation.relation_id ==> {
                &&& after.relations.contains_key(other) == state.relations.contains_key(other)
                &&& state.relations.contains_key(other) ==> after.relations[other]
                    == state.relations[other]
            }
        }),
{
}

/// A truncate stands for one change of its relation that carries no tuple. A list of truncates is
/// taken up to the first relation that is unknown, which is reported.
pub proof fn law_truncates_are_taken_in_order(
    state: StreamView,
    ids: Seq<u32>,
    unknown: u32,
    rest: Seq<u32>,
    options: u8,
)
    requires
        state.builder.open is Some,
        forall|i: int| 0 <= i < ids.len() ==> state.relations.contains_key(#[trigger] ids[i]),
        !state.relations.contains_key(unknown),
    ensures
        truncation(unknown).relation_id == unknown,
        truncation(unknown).kind == ChangeKind::Truncate,
        truncation(unknown).old_tuple is None,
        truncation(unknown).new_tuple is None,
        ({
            let listed = ids.push(unknown) + rest;
            let message = MessageView::Truncate { relation_ids: listed, options };
            let (after, answer) = state.consumed(message);
            &&& answer == Err::<Option<BatchView>, StreamError>(
                StreamError::UnknownRelation(unknown),
            )
            &&& after.builder.open matches Some(open)
            &&& open.changes == state.builder.open->Some_0.changes + Seq::new(
                ids.len(),
                |i: int| truncation(ids[i]),
            )
        }),
    decreases ids.len(),
{
    let listed = ids.push(unknown) + rest;
    let before = state.builder.open->Some_0.changes;
    if ids.len() == 0 {
        assert(before + Seq::new(ids.len(), |i: int| truncation(ids[i])) =~= before);
    } else {
        let next = state.changed(truncation(ids[0])).0;
        let tail = ids.drop_first();
        assert(listed.drop_first() =~= tail.push(unknown) + rest);
        assert forall|i: int| 0 <= i < tail.len() implies next.relations.contains_key(
            #[trigger] tail[i],
        ) by {
            assert(tail[i] == ids[i + 1]);
        }
        law_truncates_are_taken_in_order(next, tail, unknown, rest, options);
        assert(before.push(truncation(ids[0])) + Seq::new(
            tail.len(),
            |i: int| truncation(tail[i]),
        ) =~= before + Seq::new(ids.len(), |i: int| truncation(ids[i])));
    }
}

/// A stream that has seen nothing has no transaction open, knows no relation and has committed
/// nothing.
pub proof fn law_fresh_stream_holds_nothing(relation_id: u32)
    ensures
        StreamView::fresh().builder.open is None,
        StreamView::fresh().builder.last_commit_lsn.0 == 0,
        !StreamView::fresh().relations.contains_key(relation_id),
{
}

} // verus!
