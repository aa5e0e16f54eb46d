//! Complete logical transactions and the builder that never exposes an open one.

use super::lsn::LogSequenceNumber;
use super::wire::{
    le_bytes, le_value, lemma_le_bytes_len, lemma_le_value_of_le_bytes,
    lemma_next_bytes_of_concat, lemma_next_le_of_le_bytes, lemma_pow256_values, next_le, put_bytes,
    put_u32, put_u64,
};
use crate::text::joined;
use vstd::prelude::*;

verus! {

/// Logical row operation projected from `pgoutput`.
#[derive(Clone, Copy, Debug, PartialEq, Eq, Structural)]
pub enum ChangeKind {
    Insert,
    Update,
    Delete,
    Truncate,
}

impl ChangeKind {
    /// The stable one-byte code of this kind.
    pub open spec fn spec_code(self) -> u8 {
        match self {
            ChangeKind::Insert => 0,
            ChangeKind::Update => 1,
            ChangeKind::Delete => 2,
            ChangeKind::Truncate => 3,
        }
    }

    /// The kind that has `code`, if any.
    pub open spec fn spec_from_code(code: u8) -> Option<ChangeKind> {
        if code == 0 {
            Some(ChangeKind::Insert)
        } else if code == 1 {
            Some(ChangeKind::Update)
        } else if code == 2 {
            Some(ChangeKind::Delete)
        } else if code == 3 {
            Some(ChangeKind::Truncate)
        } else {
            None
        }
    }

    /// The stable one-byte code of this kind.
    pub fn code(self) -> (code: u8)
        ensures
            code == self.spec_code(),
    {
        match self {
            ChangeKind::Insert => 0,
            ChangeKind::Update => 1,
            ChangeKind::Delete => 2,
            ChangeKind::Truncate => 3,
        }
    }

    /// The kind that has `code`, if any.
    pub fn from_code(code: u8) -> (kind: Option<ChangeKind>)
        ensures
            kind == Self::spec_from_code(code),
    {
        match code {
            0 => Some(ChangeKind::Insert),
            1 => Some(ChangeKind::Update),
            2 => Some(ChangeKind::Delete),
            3 => Some(ChangeKind::Truncate),
            _ => None,
        }
    }
}

/// One relation-scoped logical change. Tuple bytes stay in their canonical encoding.
#[derive(Debug, PartialEq, Eq)]
pub struct RowChange {
    pub relation_id: u32,
    pub kind: ChangeKind,
    pub old_tuple: Option<Vec<u8>>,
    pub new_tuple: Option<Vec<u8>>,
}

/// Contents of one logical change.
#[verifier::ext_equal]
pub struct RowChangeView {
    pub relation_id: u32,
    pub kind: ChangeKind,
    pub old_tuple: Option<Seq<u8>>,
    pub new_tuple: Option<Seq<u8>>,
}

/// The bytes of an optional tuple.
pub open spec fn tuple_view(tuple: Option<Vec<u8>>) -> Option<Seq<u8>> {
    match tuple {
        Some(bytes) => Some(bytes@),
        None => None,
    }
}

impl View for RowChange {
    type V = RowChangeView;

    open spec fn view(&self) -> RowChangeView {
        RowChangeView {
            relation_id: self.relation_id,
            kind: self.kind,
            old_tuple: tuple_view(self.old_tuple),
            new_tuple: tuple_view(self.new_tuple),
        }
    }
}

fn copied_tuple(tuple: &Option<Vec<u8>>) -> (copy: Option<Vec<u8>>)
    ensures
        tuple_view(copy) == tuple_view(*tuple),
{
    match tuple {
        Some(bytes) => Some(vstd::slice::slice_to_vec(bytes.as_slice())),
        None => None,
    }
}

impl Clone for RowChange {
    fn clone(&self) -> (copy: Self)
        ensures
            copy@ == self@,
    {
        RowChange {
            relation_id: self.relation_id,
            kind: self.kind,
            old_tuple: copied_tuple(&self.old_tuple),
            new_tuple: copied_tuple(&self.new_tuple),
        }
    }
}

fn copied_changes(changes: &Vec<RowChange>) -> (copy: Vec<RowChange>)
    ensures
        changes_view(copy@) == changes_view(changes@),
{
    let mut copy: Vec<RowChange> = Vec::new();
    let mut index: usize = 0;
    while index < changes.len()
        invariant
            index <= changes@.len(),
            copy@.len() == index,
            forall|i: int| 0 <= i < index ==> (#[trigger] copy@[i])@ == changes@[i]@,
        decreases changes@.len() - index,
    {
        copy.push(changes[index].clone());
        index = index + 1;
    }
    assert(changes_view(copy@) =~= changes_view(changes@));
    copy
}

/// The contents of a list of changes, in order.
pub open spec fn changes_view(changes: Seq<RowChange>) -> Seq<RowChangeView> {
    Seq::new(changes.len(), |i: int| changes[i]@)
}

impl RowChange {
    /// A change from its parts.
    pub fn new(
        relation_id: u32,
        kind: ChangeKind,
        old_tuple: Option<Vec<u8>>,
        new_tuple: Option<Vec<u8>>,
    ) -> (change: Self)
        ensures
            change == (RowChange { relation_id, kind, old_tuple, new_tuple }),
    {
        RowChange { relation_id, kind, old_tuple, new_tuple }
    }

    /// The operation of this change.
    pub fn kind(&self) -> (kind: ChangeKind)
        ensures
            kind == self.kind,
    {
        self.kind
    }

    /// The old tuple of this change, where it has one.
    pub fn old_tuple(&self) -> (tuple: Option<&Vec<u8>>)
        ensures
            tuple == (match self.old_tuple {
                Some(bytes) => Some(&bytes),
                None => None,
            }),
    {
        self.old_tuple.as_ref()
    }

    /// The new tuple of this change, where it has one.
    pub fn new_tuple(&self) -> (tuple: Option<&Vec<u8>>)
        ensures
            tuple == (match self.new_tuple {
                Some(bytes) => Some(&bytes),
                None => None,
            }),
    {
        self.new_tuple.as_ref()
    }
}

/// Contents of a transaction.
#[verifier::ext_equal]
pub struct BatchView {
    pub xid: u32,
    pub final_lsn: LogSequenceNumber,
    pub commit_lsn: LogSequenceNumber,
    pub end_lsn: LogSequenceNumber,
    pub changes: Seq<RowChangeView>,
}

impl BatchView {
    /// The log positions of a transaction never run backwards.
    pub open spec fn ordered(self) -> bool {
        self.final_lsn.0 <= self.commit_lsn.0 <= self.end_lsn.0
    }
}

/// A complete `PostgreSQL` transaction. It is the smallest durability and apply unit.
#[derive(Debug, PartialEq, Eq)]
pub struct TransactionBatch {
    xid: u32,
    final_lsn: LogSequenceNumber,
    commit_lsn: LogSequenceNumber,
    end_lsn: LogSequenceNumber,
    changes: Vec<RowChange>,
}

impl View for TransactionBatch {
    type V = BatchView;

    closed spec fn view(&self) -> BatchView {
        BatchView {
            xid: self.xid,
            final_lsn: self.final_lsn,
            commit_lsn: self.commit_lsn,
            end_lsn: self.end_lsn,
            changes: changes_view(self.changes@),
        }
    }
}

impl Clone for TransactionBatch {
    fn clone(&self) -> (copy: Self)
        ensures
            copy@ == self@,
    {
        proof {
            use_type_invariant(self);
        }
        TransactionBatch {
            xid: self.xid,
            final_lsn: self.final_lsn,
            commit_lsn: self.commit_lsn,
            end_lsn: self.end_lsn,
            changes: copied_changes(&self.changes),
        }
    }
}

/// What `TransactionBatch::try_new` answers for these parts.
pub open spec fn checked_batch(batch: BatchView) -> Result<BatchView, TransactionValidationError> {
    if batch.commit_lsn.0 < batch.final_lsn.0 {
        Err(TransactionValidationError::CommitBeforeBegin)
    } else if batch.end_lsn.0 < batch.commit_lsn.0 {
        Err(TransactionValidationError::EndBeforeCommit)
    } else {
        Ok(batch)
    }
}

/// FNV-1a multiplier.
pub const FINGERPRINT_PRIME: u64 = 0x0000_0100_0000_01b3;

/// FNV-1a starting value.
pub const FINGERPRINT_BASIS: u64 = 0xcbf2_9ce4_8422_2325;

/// FNV-1a of `bytes`, continued from `hash`.
pub open spec fn fnv1a(hash: u64, bytes: Seq<u8>) -> u64
    decreases bytes.len(),
{
    if bytes.len() == 0 {
        hash
    } else {
        (fnv1a(hash, bytes.drop_last()) ^ (bytes.last() as u64)).wrapping_mul(FINGERPRINT_PRIME)
    }
}

/// The bytes that one optional tuple contributes to a fingerprint.
pub open spec fn fingerprint_tuple(tuple: Option<Seq<u8>>) -> Seq<u8> {
    match tuple {
        Some(bytes) => seq![1u8] + le_bytes(bytes.len(), 8) + bytes,
        None => seq![0u8],
    }
}

/// The bytes that one change contributes to a fingerprint.
pub open spec fn fingerprint_change(change: RowChangeView) -> Seq<u8> {
    le_bytes(change.relation_id as nat, 4) + seq![change.kind.spec_code()] + fingerprint_tuple(
        change.old_tuple,
    ) + fingerprint_tuple(change.new_tuple)
}

/// The bytes that a list of changes contributes to a fingerprint.
pub open spec fn fingerprint_changes(changes: Seq<RowChangeView>) -> Seq<u8>
    decreases changes.len(),
{
    if changes.len() == 0 {
        Seq::empty()
    } else {
        fingerprint_changes(changes.drop_last()) + fingerprint_change(changes.last())
    }
}

/// The bytes of a transaction that its fingerprint is made of.
pub open spec fn fingerprint_rendering(batch: BatchView) -> Seq<u8> {
    le_bytes(batch.xid as nat, 4) + le_bytes(batch.final_lsn.0 as nat, 8) + le_bytes(
        batch.commit_lsn.0 as nat,
        8,
    ) + le_bytes(batch.end_lsn.0 as nat, 8) + fingerprint_changes(batch.changes)
}

/// The fingerprint of a transaction: FNV-1a over its unambiguous byte rendering.
pub open spec fn batch_fingerprint(batch: BatchView) -> u64 {
    fnv1a(FINGERPRINT_BASIS, fingerprint_rendering(batch))
}

fn put_fingerprint_tuple(out: &mut Vec<u8>, tuple: &Option<Vec<u8>>)
    ensures
        final(out)@ == old(out)@ + fingerprint_tuple(tuple_view(*tuple)),
{
    let ghost start = out@;
    match tuple {
        Some(bytes) => {
            out.push(1);
            put_u64(out, bytes.len() as u64);
            put_bytes(out, bytes.as_slice());
            assert(out@ =~= start + (seq![1u8] + le_bytes(bytes@.len(), 8) + bytes@));
        },
        None => {
            out.push(0);
            assert(out@ =~= start + seq![0u8]);
        },
    }
}

/// Continues `hash` over `bytes`.
fn feed_fingerprint(hash: u64, bytes: &[u8]) -> (next: u64)
    ensures
        next == fnv1a(hash, bytes@),
{
    let mut next: u64 = hash;
    let mut index: usize = 0;
    assert(bytes@.take(0) =~= Seq::empty());
    while index < bytes.len()
        invariant
            index <= bytes@.len(),
            next == fnv1a(hash, bytes@.take(index as int)),
        decreases bytes@.len() - index,
    {
        assert(bytes@.take(index + 1).drop_last() =~= bytes@.take(index as int));
        next = (next ^ (bytes[index] as u64)).wrapping_mul(FINGERPRINT_PRIME);
        index = index + 1;
    }
    assert(bytes@.take(bytes@.len() as int) =~= bytes@);
    next
}

/// Hashing in two steps is hashing the concatenation.
pub proof fn lemma_fnv1a_concat(hash: u64, left: Seq<u8>, right: Seq<u8>)
    ensures
        fnv1a(fnv1a(hash, left), right) == fnv1a(hash, left + right),
    decreases right.len(),
{
    if right.len() == 0 {
        assert(left + right =~= left);
    } else {
        lemma_fnv1a_concat(hash, left, right.drop_last());
        assert((left + right).drop_last() =~= left + right.drop_last());
    }
}

impl TransactionBatch {
    #[verifier::type_invariant]
    spec fn in_order(self) -> bool {
        self.final_lsn.0 <= self.commit_lsn.0 <= self.end_lsn.0
    }

    /// A transaction from its parts, where its log positions do not run backwards.
    pub fn try_new(
        xid: u32,
        final_lsn: LogSequenceNumber,
        commit_lsn: LogSequenceNumber,
        end_lsn: LogSequenceNumber,
        changes: Vec<RowChange>,
    ) -> (batch: Result<Self, TransactionValidationError>)
        ensures
            match batch {
                Ok(batch) => checked_batch(
                    BatchView {
                        xid,
                        final_lsn,
                        commit_lsn,
                        end_lsn,
                        changes: changes_view(changes@),
                    },
                ) == Ok::<BatchView, TransactionValidationError>(batch@),
                Err(error) => checked_batch(
                    BatchView {
                        xid,
                        final_lsn,
                        commit_lsn,
                        end_lsn,
                        changes: changes_view(changes@),
                    },
                ) == Err::<BatchView, TransactionValidationError>(error),
            },
    {
        if commit_lsn.0 < final_lsn.0 {
            return Err(TransactionValidationError::CommitBeforeBegin);
        }
        if end_lsn.0 < commit_lsn.0 {
            return Err(TransactionValidationError::EndBeforeCommit);
        }
        Ok(TransactionBatch { xid, final_lsn, commit_lsn, end_lsn, changes })
    }

    /// The `PostgreSQL` transaction id.
    pub fn xid(&self) -> (xid: u32)
        ensures
            xid == self@.xid,
    {
        self.xid
    }

    /// The final log position that `BEGIN` declared.
    pub fn final_lsn(&self) -> (lsn: LogSequenceNumber)
        ensures
            lsn == self@.final_lsn,
            self@.ordered(),
    {
        proof {
            use_type_invariant(self);
        }
        self.final_lsn
    }

    /// Another name for the log position that `BEGIN` declared.
    pub fn begin_lsn(&self) -> (lsn: LogSequenceNumber)
        ensures
            lsn == self@.final_lsn,
            self@.ordered(),
    {
        self.final_lsn()
    }

    /// The log position of the commit record.
    pub fn commit_lsn(&self) -> (lsn: LogSequenceNumber)
        ensures
            lsn == self@.commit_lsn,
            self@.ordered(),
    {
        proof {
            use_type_invariant(self);
        }
        self.commit_lsn
    }

    /// The log position behind the transaction.
    pub fn end_lsn(&self) -> (lsn: LogSequenceNumber)
        ensures
            lsn == self@.end_lsn,
            self@.ordered(),
    {
        proof {
            use_type_invariant(self);
        }
        self.end_lsn
    }

    /// The changes of the transaction, in order.
    pub fn changes(&self) -> (changes: &[RowChange])
        ensures
            changes_view(changes@) == self@.changes,
    {
        self.changes.as_slice()
    }

    /// Stable non-cryptographic fingerprint, used only to detect conflicting redelivery.
    pub fn fingerprint(&self) -> (hash: u64)
        ensures
            hash == batch_fingerprint(self@),
    {
        let mut head: Vec<u8> = Vec::new();
        put_u32(&mut head, self.xid);
        put_u64(&mut head, self.final_lsn.0);
        put_u64(&mut head, self.commit_lsn.0);
        put_u64(&mut head, self.end_lsn.0);
        let ghost prefix = le_bytes(self.xid as nat, 4) + le_bytes(self.final_lsn.0 as nat, 8)
            + le_bytes(self.commit_lsn.0 as nat, 8) + le_bytes(self.end_lsn.0 as nat, 8);
        assert(head@ =~= prefix);
        let ghost views = self@.changes;
        let mut hash: u64 = feed_fingerprint(FINGERPRINT_BASIS, head.as_slice());
        let mut index: usize = 0;
        assert(views.take(0) =~= Seq::empty());
        assert(prefix + fingerprint_changes(views.take(0)) =~= prefix);
        while index < self.changes.len()
            invariant
                index <= self.changes@.len(),
                views == changes_view(self.changes@),
                hash == fnv1a(
                    FINGERPRINT_BASIS,
                    prefix + fingerprint_changes(views.take(index as int)),
                ),
            decreases self.changes@.len() - index,
        {
            let change = &self.changes[index];
            let mut part: Vec<u8> = Vec::new();
            put_u32(&mut part, change.relation_id);
            part.push(change.kind.code());
            put_fingerprint_tuple(&mut part, &change.old_tuple);
            put_fingerprint_tuple(&mut part, &change.new_tuple);
            proof {
                let done = views.take(index as int);
                let more = views.take(index + 1);
                assert(part@ =~= fingerprint_change(views[index as int]));
                assert(more.drop_last() =~= done);
                assert(more.last() == views[index as int]);
                lemma_fnv1a_concat(
                    FINGERPRINT_BASIS,
                    prefix + fingerprint_changes(done),
                    part@,
                );
                assert(prefix + fingerprint_changes(more) =~= prefix + fingerprint_changes(done)
                    + part@);
            }
            hash = feed_fingerprint(hash, part.as_slice());
            index = index + 1;
        }
        assert(views.take(views.len() as int) =~= views);
        hash
    }
}

/// Why the parts of a transaction do not form one.
#[derive(Clone, Copy, Debug, PartialEq, Eq, Structural)]
pub enum TransactionValidationError {
    /// The commit position is before the position that `BEGIN` declared.
    CommitBeforeBegin,
    /// The commit position is before the declared final position, as consumers that hold the
    /// final position of `BEGIN` report it. This library reports `CommitBeforeBegin`.
    CommitBeforeFinal,
    /// The end position is before the commit position.
    EndBeforeCommit,
    /// A consumer that projects only non-empty transactions met an empty one. This library
    /// accepts empty transactions.
    EmptyChanges,
}

impl TransactionValidationError {
    /// The diagnostic text of this error.
    pub open spec fn spec_message(self) -> Seq<char> {
        match self {
            TransactionValidationError::CommitBeforeBegin => "commit_lsn is before begin_lsn"@,
            TransactionValidationError::CommitBeforeFinal => "commit_lsn is before final_lsn"@,
            TransactionValidationError::EndBeforeCommit => "end_lsn is before commit_lsn"@,
            TransactionValidationError::EmptyChanges => "transaction has no changes"@,
        }
    }

    /// The diagnostic text of this error.
    pub fn message(&self) -> (text: String)
        ensures
            text@ == self.spec_message(),
    {
        match self {
            TransactionValidationError::CommitBeforeBegin => {
                "commit_lsn is before begin_lsn".to_owned()
            },
            TransactionValidationError::CommitBeforeFinal => {
                "commit_lsn is before final_lsn".to_owned()
            },
            TransactionValidationError::EndBeforeCommit => {
                "end_lsn is before commit_lsn".to_owned()
            },
            TransactionValidationError::EmptyChanges => "transaction has no changes".to_owned(),
        }
    }
}

#[derive(Debug)]
struct OpenTransaction {
    xid: u32,
    final_lsn: LogSequenceNumber,
    changes: Vec<RowChange>,
}

/// Contents of a transaction that has begun and not committed.
#[verifier::ext_equal]
pub struct OpenView {
    pub xid: u32,
    pub final_lsn: LogSequenceNumber,
    pub changes: Seq<RowChangeView>,
}

/// State of a `TransactionBuilder`.
#[verifier::ext_equal]
pub struct BuilderView {
    pub open: Option<OpenView>,
    pub last_commit_lsn: LogSequenceNumber,
}

/// Single-writer transaction assembler that never exposes an open transaction.
#[derive(Debug)]
pub struct TransactionBuilder {
    open: Option<OpenTransaction>,
    last_commit_lsn: LogSequenceNumber,
}

impl View for TransactionBuilder {
    type V = BuilderView;

    closed spec fn view(&self) -> BuilderView {
        BuilderView {
            open: match self.open {
                Some(open) => Some(
                    OpenView {
                        xid: open.xid,
                        final_lsn: open.final_lsn,
                        changes: changes_view(open.changes@),
                    },
                ),
                None => None,
            },
            last_commit_lsn: self.last_commit_lsn,
        }
    }
}

impl BuilderView {
    /// A builder that has seen nothing.
    pub open spec fn fresh() -> BuilderView {
        BuilderView { open: None, last_commit_lsn: LogSequenceNumber(0) }
    }

    /// The state after `BEGIN`, with the error where one is open already.
    pub open spec fn begun(self, xid: u32, final_lsn: LogSequenceNumber) -> (
        BuilderView,
        Result<(), TransactionBuildError>,
    ) {
        match self.open {
            Some(_) => (self, Err(TransactionBuildError::NestedTransaction)),
            None => (
                BuilderView {
                    open: Some(OpenView { xid, final_lsn, changes: Seq::empty() }),
                    last_commit_lsn: self.last_commit_lsn,
                },
                Ok(()),
            ),
        }
    }

    /// The state after one change, with the error where no transaction is open.
    pub open spec fn pushed(self, change: RowChangeView) -> (
        BuilderView,
        Result<(), TransactionBuildError>,
    ) {
        match self.open {
            Some(open) => (
                BuilderView {
                    open: Some(
                        OpenView {
                            xid: open.xid,
                            final_lsn: open.final_lsn,
                            changes: open.changes.push(change),
                        },
                    ),
                    last_commit_lsn: self.last_commit_lsn,
                },
                Ok(()),
            ),
            None => (self, Err(TransactionBuildError::ChangeOutsideTransaction)),
        }
    }

    /// The state after `COMMIT` and what it emits. A regressed commit keeps the transaction
    /// open; an invalid one drops it.
    pub open spec fn committed(self, commit_lsn: LogSequenceNumber, end_lsn: LogSequenceNumber) -> (
        BuilderView,
        Result<BatchView, TransactionBuildError>,
    ) {
        match self.open {
            None => (self, Err(TransactionBuildError::CommitWithoutBegin)),
            Some(open) => if commit_lsn.0 < self.last_commit_lsn.0 {
                (self, Err(TransactionBuildError::CommitLsnRegressed))
            } else {
                match checked_batch(
                    BatchView {
                        xid: open.xid,
                        final_lsn: open.final_lsn,
                        commit_lsn,
                        end_lsn,
                        changes: open.changes,
                    },
                ) {
                    Ok(batch) => (
                        BuilderView { open: None, last_commit_lsn: commit_lsn },
                        Ok(batch),
                    ),
                    Err(error) => (
                        BuilderView { open: None, last_commit_lsn: self.last_commit_lsn },
                        Err(TransactionBuildError::InvalidTransaction(error)),
                    ),
                }
            },
        }
    }
}

impl TransactionBuilder {
    /// A builder that has seen nothing.
    pub fn new() -> (builder: Self)
        ensures
            builder@ == BuilderView::fresh(),
    {
        TransactionBuilder { open: None, last_commit_lsn: LogSequenceNumber(0) }
    }

    /// Opens a transaction.
    pub fn begin(&mut self, xid: u32, final_lsn: LogSequenceNumber) -> (result: Result<
        (),
        TransactionBuildError,
    >)
        ensures
            (final(self)@, result) == old(self)@.begun(xid, final_lsn),
    {
        if self.open.is_some() {
            return Err(TransactionBuildError::NestedTransaction);
        }
        let changes: Vec<RowChange> = Vec::new();
        assert(changes_view(changes@) =~= Seq::empty());
        self.open = Some(OpenTransaction { xid, final_lsn, changes });
        Ok(())
    }

    /// Adds a change to the open transaction.
    pub fn push(&mut self, change: RowChange) -> (result: Result<(), TransactionBuildError>)
        ensures
            (final(self)@, result) == old(self)@.pushed(change@),
    {
        match self.open.take() {
            None => Err(TransactionBuildError::ChangeOutsideTransaction),
            Some(open) => {
                let mut open = open;
                let ghost before = open.changes@;
                open.changes.push(change);
                assert(changes_view(open.changes@) =~= changes_view(before).push(change@));
                self.open = Some(open);
                Ok(())
            },
        }
    }

    /// Closes the open transaction and hands it out.
    pub fn commit(
        &mut self,
        commit_lsn: LogSequenceNumber,
        end_lsn: LogSequenceNumber,
    ) -> (result: Result<TransactionBatch, TransactionBuildError>)
        ensures
            match result {
                Ok(batch) => (final(self)@, Ok::<BatchView, TransactionBuildError>(batch@))
                    == old(self)@.committed(commit_lsn, end_lsn),
                Err(error) => (final(self)@, Err::<BatchView, TransactionBuildError>(error))
                    == old(self)@.committed(commit_lsn, end_lsn),
            },
    {
        match self.open.take() {
            None => Err(TransactionBuildError::CommitWithoutBegin),
            Some(open) => {
                if commit_lsn.0 < self.last_commit_lsn.0 {
                    self.open = Some(open);
                    return Err(TransactionBuildError::CommitLsnRegressed);
                }
                match TransactionBatch::try_new(
                    open.xid,
                    open.final_lsn,
                    commit_lsn,
                    end_lsn,
                    open.changes,
                ) {
                    Ok(batch) => {
                        self.last_commit_lsn = commit_lsn;
                        Ok(batch)
                    },
                    Err(error) => Err(TransactionBuildError::InvalidTransaction(error)),
                }
            },
        }
    }

    /// Whether a transaction is open.
    pub fn is_open(&self) -> (open: bool)
        ensures
            open == (self@.open is Some),
    {
        self.open.is_some()
    }

    /// The highest commit position handed out.
    pub fn last_commit_lsn(&self) -> (lsn: LogSequenceNumber)
        ensures
            lsn == self@.last_commit_lsn,
    {
        self.last_commit_lsn
    }
}

impl Default for TransactionBuilder {
    fn default() -> (builder: Self)
        ensures
            builder@ == BuilderView::fresh(),
    {
        TransactionBuilder::new()
    }
}

/// Why a builder refused a step.
#[derive(Clone, Copy, Debug, PartialEq, Eq, Structural)]
pub enum TransactionBuildError {
    NestedTransaction,
    ChangeOutsideTransaction,
    CommitWithoutBegin,
    CommitLsnRegressed,
    InvalidTransaction(TransactionValidationError),
}

impl TransactionBuildError {
    /// The diagnostic text of this error.
    pub open spec fn spec_message(self) -> Seq<char> {
        match self {
            TransactionBuildError::NestedTransaction => "nested transaction begin"@,
            TransactionBuildError::ChangeOutsideTransaction => "row change outside transaction"@,
            TransactionBuildError::CommitWithoutBegin => "commit without begin"@,
            TransactionBuildError::CommitLsnRegressed => "commit LSN regressed"@,
            TransactionBuildError::InvalidTransaction(error) => "invalid transaction: "@
                + error.spec_message(),
        }
    }

    /// The diagnostic text of this error.
    pub fn message(&self) -> (text: String)
        ensures
            text@ == self.spec_message(),
    {
        match self {
            TransactionBuildError::NestedTransaction => "nested transaction begin".to_owned(),
            TransactionBuildError::ChangeOutsideTransaction => {
                "row change outside transaction".to_owned()
            },
            TransactionBuildError::CommitWithoutBegin => "commit without begin".to_owned(),
            TransactionBuildError::CommitLsnRegressed => "commit LSN regressed".to_owned(),
            TransactionBuildError::InvalidTransaction(error) => {
                joined("invalid transaction: ", error.message().as_str())
            },
        }
    }
}

/// A builder hands out a transaction only for a commit of an open one: with the changes pushed
/// since its begin, in order, with ordered log positions, and never before an earlier commit.
pub proof fn law_commit_emits_exactly_the_open_transaction(
    state: BuilderView,
    commit_lsn: LogSequenceNumber,
    end_lsn: LogSequenceNumber,
)
    ensures
        state.committed(commit_lsn, end_lsn).1 matches Ok(batch) ==> {
            &&& state.open matches Some(open)
            &&& batch.xid == open.xid
            &&& batch.final_lsn == open.final_lsn
            &&& batch.changes == open.changes
            &&& batch.commit_lsn == commit_lsn
            &&& batch.end_lsn == end_lsn
            &&& batch.ordered()
            &&& state.last_commit_lsn.0 <= batch.commit_lsn.0
            &&& state.committed(commit_lsn, end_lsn).0 == (BuilderView {
                open: None,
                last_commit_lsn: commit_lsn,
            })
        },
{
}

/// The highest committed position of a builder never moves backwards, whatever it is fed.
pub proof fn law_last_commit_never_regresses(
    state: BuilderView,
    xid: u32,
    change: RowChangeView,
    first: LogSequenceNumber,
    second: LogSequenceNumber,
)
    ensures
        state.last_commit_lsn.0 <= state.begun(xid, first).0.last_commit_lsn.0,
        state.last_commit_lsn.0 <= state.pushed(change).0.last_commit_lsn.0,
        state.last_commit_lsn.0 <= state.committed(first, second).0.last_commit_lsn.0,
{
}

/// While a transaction is open, every change is taken, whatever its kind, and becomes the last one
/// of the transaction; nothing else of the builder moves. Outside a transaction no change is taken
/// and the builder stays as it was.
pub proof fn law_open_transaction_takes_every_change(state: BuilderView, change: RowChangeView)
    ensures
        state.open matches Some(open) ==> {
            &&& state.pushed(change).1 is Ok
            &&& state.pushed(change).0.open matches Some(now)
            &&& now.xid == open.xid
            &&& now.final_lsn == open.final_lsn
            &&& now.changes.len() == open.changes.len() + 1
            &&& now.changes.last() == change
            &&& now.changes.drop_last() == open.changes
            &&& state.pushed(change).0.last_commit_lsn == state.last_commit_lsn
        },
        state.open is None ==> state.pushed(change) == (state, Err::<(), TransactionBuildError>(
            TransactionBuildError::ChangeOutsideTransaction,
        )),
{
    if let Some(open) = state.open {
        assert(open.changes.push(change).drop_last() =~= open.changes);
    }
}

/// A transaction opens empty, with the id and the position that its begin declared. Where one is
/// open already, a begin is refused and the open one stays as it was.
pub proof fn law_begin_opens_an_empty_transaction(
    state: BuilderView,
    xid: u32,
    final_lsn: LogSequenceNumber,
)
    ensures
        state.open is None ==> {
            &&& state.begun(xid, final_lsn).1 is Ok
            &&& state.begun(xid, final_lsn).0.open matches Some(open)
            &&& open.xid == xid
            &&& open.final_lsn == final_lsn
            &&& open.changes.len() == 0
            &&& state.begun(xid, final_lsn).0.last_commit_lsn == state.last_commit_lsn
        },
        state.open is Some ==> state.begun(xid, final_lsn) == (state, Err::<
            (),
            TransactionBuildError,
        >(TransactionBuildError::NestedTransaction)),
{
}

/// The builder after a run of changes, each of them pushed in turn.
pub open spec fn after_pushing(state: BuilderView, changes: Seq<RowChangeView>) -> BuilderView
    decreases changes.len(),
{
    if changes.len() == 0 {
        state
    } else {
        after_pushing(state, changes.drop_last()).pushed(changes.last()).0
    }
}

proof fn lemma_pushed_run(state: BuilderView, changes: Seq<RowChangeView>)
    requires
        state.open is Some,
    ensures
        after_pushing(state, changes).open matches Some(open) && open.xid
            == state.open->Some_0.xid && open.final_lsn == state.open->Some_0.final_lsn
            && open.changes == state.open->Some_0.changes + changes,
        after_pushing(state, changes).last_commit_lsn == state.last_commit_lsn,
    decreases changes.len(),
{
    let before = state.open->Some_0.changes;
    if changes.len() == 0 {
        assert(before + changes =~= before);
    } else {
        let front = changes.drop_last();
        lemma_pushed_run(state, front);
        law_open_transaction_takes_every_change(after_pushing(state, front), changes.last());
        let now = after_pushing(state, changes).open->Some_0.changes;
        assert(now =~= now.drop_last().push(now.last()));
        assert(now =~= before + changes);
    }
}

/// A begin, any run of changes and a commit behind everything that was committed before hand out
/// one transaction: what the begin declared, exactly the changes of the run in their order, and
/// the positions of the commit. The builder is then closed and remembers the commit.
pub proof fn law_transaction_holds_every_change_in_order(
    state: BuilderView,
    xid: u32,
    final_lsn: LogSequenceNumber,
    changes: Seq<RowChangeView>,
    commit_lsn: LogSequenceNumber,
    end_lsn: LogSequenceNumber,
)
    requires
        state.open is None,
        state.last_commit_lsn.0 <= commit_lsn.0,
        final_lsn.0 <= commit_lsn.0 <= end_lsn.0,
    ensures
        ({
            let (after, answer) = after_pushing(
                state.begun(xid, final_lsn).0,
                changes,
            ).committed(commit_lsn, end_lsn);
            &&& answer == Ok::<BatchView, TransactionBuildError>(
                BatchView { xid, final_lsn, commit_lsn, end_lsn, changes },
            )
            &&& after == (BuilderView { open: None, last_commit_lsn: commit_lsn })
        }),
{
    law_begin_opens_an_empty_transaction(state, xid, final_lsn);
    let begun = state.begun(xid, final_lsn).0;
    lemma_pushed_run(begun, changes);
    assert(begun.open->Some_0.changes + changes =~= changes);
}

/// A commit that is refused hands nothing out. Without an open transaction, or behind the last
/// commit, it leaves the builder as it was; one whose own positions run backwards drops the open
/// transaction, and nothing but such a commit does.
pub proof fn law_refused_commit_hands_nothing_out(
    state: BuilderView,
    commit_lsn: LogSequenceNumber,
    end_lsn: LogSequenceNumber,
)
    ensures
        state.open is None ==> state.committed(commit_lsn, end_lsn) == (state, Err::<
            BatchView,
            TransactionBuildError,
        >(TransactionBuildError::CommitWithoutBegin)),
        state.open is Some && commit_lsn.0 < state.last_commit_lsn.0 ==> state.committed(
            commit_lsn,
            end_lsn,
        ) == (state, Err::<BatchView, TransactionBuildError>(
            TransactionBuildError::CommitLsnRegressed,
        )),
        state.open matches Some(open) ==> state.last_commit_lsn.0 <= commit_lsn.0 ==> {
            let (after, answer) = state.committed(commit_lsn, end_lsn);
            &&& after.open is None
            &&& answer is Ok <==> open.final_lsn.0 <= commit_lsn.0 <= end_lsn.0
            &&& commit_lsn.0 < open.final_lsn.0 ==> answer == Err::<
                BatchView,
                TransactionBuildError,
            >(
                TransactionBuildError::InvalidTransaction(
                    TransactionValidationError::CommitBeforeBegin,
                ),
            )
            &&& open.final_lsn.0 <= commit_lsn.0 && end_lsn.0 < commit_lsn.0 ==> answer == Err::<
                BatchView,
                TransactionBuildError,
            >(
                TransactionBuildError::InvalidTransaction(
                    TransactionValidationError::EndBeforeCommit,
                ),
            )
            &&& answer is Err ==> after.last_commit_lsn == state.last_commit_lsn
        },
{
}

proof fn lemma_tuple_rendering_tells(
    left: Option<Seq<u8>>,
    after: Seq<u8>,
    right: Option<Seq<u8>>,
    behind: Seq<u8>,
)
    requires
        left matches Some(bytes) ==> bytes.len() <= u64::MAX,
        right matches Some(bytes) ==> bytes.len() <= u64::MAX,
        fingerprint_tuple(left) + after == fingerprint_tuple(right) + behind,
    ensures
        left == right,
        after == behind,
{
    lemma_pow256_values();
    let whole = fingerprint_tuple(left) + after;
    assert(whole[0] == fingerprint_tuple(left)[0]);
    assert(whole[0] == fingerprint_tuple(right)[0]);
    match (left, right) {
        (Some(one), Some(other)) => {
            assert(whole.skip(1) =~= le_bytes(one.len(), 8) + (one + after));
            assert(whole.skip(1) =~= le_bytes(other.len(), 8) + (other + behind));
            lemma_next_le_of_le_bytes(one.len(), 8, one + after);
            lemma_next_le_of_le_bytes(other.len(), 8, other + behind);
            lemma_next_bytes_of_concat(one, after);
            lemma_next_bytes_of_concat(other, behind);
        },
        _ => {
            assert(whole.skip(1) =~= after);
            assert(whole.skip(1) =~= behind);
        },
    }
}

/// Whether the tuples of a change have lengths that 64 bits can hold.
pub open spec fn renderable(change: RowChangeView) -> bool {
    &&& change.old_tuple matches Some(bytes) ==> bytes.len() <= u64::MAX
    &&& change.new_tuple matches Some(bytes) ==> bytes.len() <= u64::MAX
}

/// What stands behind the relation of a rendered change.
spec fn behind_relation(change: RowChangeView, after: Seq<u8>) -> Seq<u8> {
    seq![change.kind.spec_code()] + behind_kind(change, after)
}

/// What stands behind the kind of a rendered change.
spec fn behind_kind(change: RowChangeView, after: Seq<u8>) -> Seq<u8> {
    fingerprint_tuple(change.old_tuple) + (fingerprint_tuple(change.new_tuple) + after)
}

proof fn lemma_change_rendering_parts(change: RowChangeView, after: Seq<u8>)
    ensures
        next_le(fingerprint_change(change) + after, 4) == Some(
            (change.relation_id as nat, behind_relation(change, after)),
        ),
        behind_relation(change, after)[0] == change.kind.spec_code(),
        behind_relation(change, after).skip(1) == behind_kind(change, after),
{
    lemma_pow256_values();
    let rest = behind_relation(change, after);
    assert(fingerprint_change(change) + after =~= le_bytes(change.relation_id as nat, 4) + rest);
    lemma_next_le_of_le_bytes(change.relation_id as nat, 4, rest);
    assert(rest.skip(1) =~= behind_kind(change, after));
}

proof fn lemma_change_rendering_tells(
    left: RowChangeView,
    after: Seq<u8>,
    right: RowChangeView,
    behind: Seq<u8>,
)
    requires
        renderable(left),
        renderable(right),
        fingerprint_change(left) + after == fingerprint_change(right) + behind,
    ensures
        left == right,
        after == behind,
{
    lemma_change_rendering_parts(left, after);
    lemma_change_rendering_parts(right, behind);
    assert(behind_kind(left, after) == behind_kind(right, behind));
    lemma_tuple_rendering_tells(
        left.old_tuple,
        fingerprint_tuple(left.new_tuple) + after,
        right.old_tuple,
        fingerprint_tuple(right.new_tuple) + behind,
    );
    lemma_tuple_rendering_tells(left.new_tuple, after, right.new_tuple, behind);
}

proof fn lemma_changes_rendering_from_front(changes: Seq<RowChangeView>)
    requires
        changes.len() > 0,
    ensures
        fingerprint_changes(changes) == fingerprint_change(changes[0]) + fingerprint_changes(
            changes.drop_first(),
        ),
    decreases changes.len(),
{
    let front = changes.drop_last();
    let tail = changes.drop_first();
    if front.len() == 0 {
        assert(fingerprint_changes(front) + fingerprint_change(changes.last())
            =~= fingerprint_change(changes[0]) + fingerprint_changes(tail));
    } else {
        lemma_changes_rendering_from_front(front);
        assert(tail.drop_last() =~= front.drop_first());
        assert(fingerprint_changes(changes) =~= fingerprint_change(changes[0]) + (
        fingerprint_changes(front.drop_first()) + fingerprint_change(changes.last())));
    }
}

proof fn lemma_changes_rendering_tells(left: Seq<RowChangeView>, right: Seq<RowChangeView>)
    requires
        forall|i: int| 0 <= i < left.len() ==> renderable(#[trigger] left[i]),
        forall|i: int| 0 <= i < right.len() ==> renderable(#[trigger] right[i]),
        fingerprint_changes(left) == fingerprint_changes(right),
    ensures
        left == right,
    decreases left.len(),
{
    broadcast use lemma_le_bytes_len;

    if left.len() > 0 {
        lemma_changes_rendering_from_front(left);
    }
    if right.len() > 0 {
        lemma_changes_rendering_from_front(right);
    }
    if left.len() > 0 && right.len() > 0 {
        let (ours, theirs) = (left.drop_first(), right.drop_first());
        assert(renderable(left[0]) && renderable(right[0]));
        lemma_change_rendering_tells(
            left[0],
            fingerprint_changes(ours),
            right[0],
            fingerprint_changes(theirs),
        );
        assert forall|i: int| 0 <= i < ours.len() implies renderable(#[trigger] ours[i]) by {
            assert(ours[i] == left[i + 1]);
        }
        assert forall|i: int| 0 <= i < theirs.len() implies renderable(#[trigger] theirs[i]) by {
            assert(theirs[i] == right[i + 1]);
        }
        lemma_changes_rendering_tells(ours, theirs);
        assert(left =~= seq![left[0]] + ours);
        assert(right =~= seq![right[0]] + theirs);
    } else {
        assert(left =~= right);
    }
}

/// A fingerprint covers all of its transaction: it is FNV-1a over a rendering that tells any two
/// transactions apart, in whatever they differ.
pub proof fn law_fingerprint_covers_the_whole_transaction(left: BatchView, right: BatchView)
    requires
        forall|i: int| 0 <= i < left.changes.len() ==> renderable(#[trigger] left.changes[i]),
        forall|i: int| 0 <= i < right.changes.len() ==> renderable(#[trigger] right.changes[i]),
    ensures
        batch_fingerprint(left) == fnv1a(0xcbf2_9ce4_8422_2325, fingerprint_rendering(left)),
        fingerprint_rendering(left) == fingerprint_rendering(right) ==> left == right,
{
    if fingerprint_rendering(left) == fingerprint_rendering(right) {
        lemma_pow256_values();
        let ours = fingerprint_changes(left.changes);
        let theirs = fingerprint_changes(right.changes);
        let ended = le_bytes(left.end_lsn.0 as nat, 8) + ours;
        let over = le_bytes(right.end_lsn.0 as nat, 8) + theirs;
        let committed = le_bytes(left.commit_lsn.0 as nat, 8) + ended;
        let done = le_bytes(right.commit_lsn.0 as nat, 8) + over;
        let declared = le_bytes(left.final_lsn.0 as nat, 8) + committed;
        let said = le_bytes(right.final_lsn.0 as nat, 8) + done;
        assert(fingerprint_rendering(left) =~= le_bytes(left.xid as nat, 4) + declared);
        assert(fingerprint_rendering(right) =~= le_bytes(right.xid as nat, 4) + said);
        lemma_next_le_of_le_bytes(left.xid as nat, 4, declared);
        lemma_next_le_of_le_bytes(right.xid as nat, 4, said);
        lemma_next_le_of_le_bytes(left.final_lsn.0 as nat, 8, committed);
        lemma_next_le_of_le_bytes(right.final_lsn.0 as nat, 8, done);
        lemma_next_le_of_le_bytes(left.commit_lsn.0 as nat, 8, ended);
        lemma_next_le_of_le_bytes(right.commit_lsn.0 as nat, 8, over);
        lemma_next_le_of_le_bytes(left.end_lsn.0 as nat, 8, ours);
        lemma_next_le_of_le_bytes(right.end_lsn.0 as nat, 8, theirs);
        lemma_changes_rendering_tells(left.changes, right.changes);
    }
}

/// Hashing goes byte by byte: each byte is mixed into what was hashed before it, which is then
/// multiplied by the prime within 64 bits.
pub proof fn law_hash_takes_every_byte(hash: u64, bytes: Seq<u8>, byte: u8)
    ensures
        fnv1a(hash, Seq::empty()) == hash,
        fnv1a(hash, bytes.push(byte)) == ((fnv1a(hash, bytes) ^ (byte as u64))
            * 0x0000_0100_0000_01b3) % 0x1_0000_0000_0000_0000,
{
    assert(bytes.push(byte).drop_last() =~= bytes);
}

/// The kinds of changes have the codes from zero to three, in the order insert, update, delete and
/// truncate, and a code that stands for a kind is the code of that kind.
pub proof fn law_kinds_have_codes_of_their_own(left: ChangeKind, right: ChangeKind, code: u8)
    ensures
        left.spec_code() == right.spec_code() ==> left == right,
        left.spec_code() == (match left {
            ChangeKind::Insert => 0u8,
            ChangeKind::Update => 1u8,
            ChangeKind::Delete => 2u8,
            ChangeKind::Truncate => 3u8,
        }),
        ChangeKind::spec_from_code(code) is Some <==> code < 4,
        ChangeKind::spec_from_code(left.spec_code()) == Some(left),
        ChangeKind::spec_from_code(code) matches Some(kind) ==> kind.spec_code() == code,
{
}

/// What is hashed of a transaction is its number, its three positions in the order final, commit
/// and end, and its changes in order: of each its relation, its kind, its old tuple and its new
/// tuple. A tuple that is there is a one, the number of its bytes and the bytes; one that is not
/// is a zero. Every number has its least significant byte first.
pub proof fn law_fingerprint_rendering_is_laid_out(
    batch: BatchView,
    changes: Seq<RowChangeView>,
    change: RowChangeView,
    tuple: Seq<u8>,
)
    requires
        tuple.len() <= u64::MAX,
    ensures
        ({
            let bytes = fingerprint_rendering(batch);
            &&& le_value(bytes.subrange(0, 4)) == batch.xid
            &&& le_value(bytes.subrange(4, 12)) == batch.final_lsn.0
            &&& le_value(bytes.subrange(12, 20)) == batch.commit_lsn.0
            &&& le_value(bytes.subrange(20, 28)) == batch.end_lsn.0
            &&& bytes.skip(28) == fingerprint_changes(batch.changes)
        }),
        fingerprint_changes(Seq::empty()).len() == 0,
        fingerprint_changes(changes.push(change)) == fingerprint_changes(changes)
            + fingerprint_change(change),
        ({
            let bytes = fingerprint_change(change);
            &&& le_value(bytes.subrange(0, 4)) == change.relation_id
            &&& bytes[4] == change.kind.spec_code()
            &&& bytes.skip(5) == fingerprint_tuple(change.old_tuple) + fingerprint_tuple(
                change.new_tuple,
            )
        }),
        fingerprint_tuple(None) == seq![0u8],
        fingerprint_tuple(Some(tuple))[0] == 1,
        le_value(fingerprint_tuple(Some(tuple)).subrange(1, 9)) == tuple.len(),
        fingerprint_tuple(Some(tuple)).skip(9) == tuple,
{
    broadcast use lemma_le_bytes_len;

    lemma_pow256_values();
    let whole = fingerprint_rendering(batch);
    assert(whole.subrange(0, 4) =~= le_bytes(batch.xid as nat, 4));
    assert(whole.subrange(4, 12) =~= le_bytes(batch.final_lsn.0 as nat, 8));
    assert(whole.subrange(12, 20) =~= le_bytes(batch.commit_lsn.0 as nat, 8));
    assert(whole.subrange(20, 28) =~= le_bytes(batch.end_lsn.0 as nat, 8));
    assert(whole.skip(28) =~= fingerprint_changes(batch.changes));
    lemma_le_value_of_le_bytes(batch.xid as nat, 4);
    lemma_le_value_of_le_bytes(batch.final_lsn.0 as nat, 8);
    lemma_le_value_of_le_bytes(batch.commit_lsn.0 as nat, 8);
    lemma_le_value_of_le_bytes(batch.end_lsn.0 as nat, 8);
    assert(changes.push(change).drop_last() =~= changes);
    let one = fingerprint_change(change);
    assert(one.subrange(0, 4) =~= le_bytes(change.relation_id as nat, 4));
    assert(one.skip(5) =~= fingerprint_tuple(change.old_tuple) + fingerprint_tuple(
        change.new_tuple,
    ));
    lemma_le_value_of_le_bytes(change.relation_id as nat, 4);
    let there = fingerprint_tuple(Some(tuple));
    assert(there.subrange(1, 9) =~= le_bytes(tuple.len(), 8));
    assert(there.skip(9) =~= tuple);
    lemma_le_value_of_le_bytes(tuple.len(), 8);
}

/// Parts make a transaction exactly if its commit is not before its begin and its end not before
/// its commit, and it is made of those parts.
pub proof fn law_transaction_is_made_exactly_if_in_order(batch: BatchView)
    ensures
        checked_batch(batch) == Ok::<BatchView, TransactionValidationError>(batch)
            <==> batch.final_lsn.0 <= batch.commit_lsn.0 <= batch.end_lsn.0,
        checked_batch(batch) == Err::<BatchView, TransactionValidationError>(
            TransactionValidationError::CommitBeforeBegin,
        ) <==> batch.commit_lsn.0 < batch.final_lsn.0,
        checked_batch(batch) is Ok || checked_batch(batch)->Err_0
            == TransactionValidationError::CommitBeforeBegin || batch.end_lsn.0
            < batch.commit_lsn.0,
{
}

} // verus!
