//! Bounded contents of one complete transaction as the transport delivers it.

use super::lsn::LogSequenceNumber;
use crate::text::{byte_len, decimal, decimal_text, joined};
use vstd::prelude::*;
use vstd::string::*;
use vstd::utf8::encode_utf8;

verus! {

/// Hard bounds on one transaction.
#[derive(Clone, Copy, Debug, PartialEq, Eq, Structural)]
pub struct BatchLimits {
    /// Most items of one transaction.
    pub max_items: usize,
    /// Most bytes of one data chunk or message body.
    pub max_item_bytes: usize,
    /// Most UTF-8 bytes of a message prefix.
    pub max_prefix_bytes: usize,
    /// Most bytes of an encoded transaction.
    pub max_encoded_bytes: usize,
}

/// The usual bounds.
pub open spec fn default_limits() -> BatchLimits {
    BatchLimits {
        max_items: 262_144,
        max_item_bytes: 67_108_864,
        max_prefix_bytes: 4_096,
        max_encoded_bytes: 134_217_728,
    }
}

impl Default for BatchLimits {
    fn default() -> (limits: Self)
        ensures
            limits == default_limits(),
    {
        BatchLimits {
            max_items: 262_144,
            max_item_bytes: 67_108_864,
            max_prefix_bytes: 4_096,
            max_encoded_bytes: 134_217_728,
        }
    }
}

/// Why the contents of a transaction are refused.
#[derive(Clone, Debug, PartialEq, Eq)]
pub enum BatchValidationError {
    WalEndBeforeStart,
    ItemTooLarge { actual: usize, maximum: usize },
    PrefixTooLarge { actual: usize, maximum: usize },
    TooManyItems { actual: usize, maximum: usize },
    EncodedLengthOverflow,
    EncodedTooLarge { actual: usize, maximum: usize },
    CommitLsnMismatch { begin_final_lsn: LogSequenceNumber, commit_lsn: LogSequenceNumber },
    EndBeforeCommit,
}

/// Contents of a `WalChunk`.
#[verifier::ext_equal]
pub struct WalView {
    pub wal_start: LogSequenceNumber,
    pub wal_end: LogSequenceNumber,
    pub server_time_micros: i64,
    pub data: Seq<u8>,
}

impl WalView {
    /// Why the parts do not make a chunk, if so.
    pub open spec fn error(self, limits: BatchLimits) -> Option<BatchValidationError> {
        if self.wal_end.0 < self.wal_start.0 {
            Some(BatchValidationError::WalEndBeforeStart)
        } else if self.data.len() > limits.max_item_bytes {
            Some(
                BatchValidationError::ItemTooLarge {
                    actual: self.data.len() as usize,
                    maximum: limits.max_item_bytes,
                },
            )
        } else {
            None
        }
    }
}

/// Opaque replication bytes inside one transaction.
#[derive(Debug, PartialEq, Eq)]
pub struct WalChunk {
    wal_start: LogSequenceNumber,
    wal_end: LogSequenceNumber,
    server_time_micros: i64,
    data: Vec<u8>,
}

impl View for WalChunk {
    type V = WalView;

    closed spec fn view(&self) -> WalView {
        WalView {
            wal_start: self.wal_start,
            wal_end: self.wal_end,
            server_time_micros: self.server_time_micros,
            data: self.data@,
        }
    }
}

impl Clone for WalChunk {
    fn clone(&self) -> (copy: Self)
        ensures
            copy@ == self@,
    {
        proof {
            use_type_invariant(self);
        }
        WalChunk {
            wal_start: self.wal_start,
            wal_end: self.wal_end,
            server_time_micros: self.server_time_micros,
            data: vstd::slice::slice_to_vec(self.data.as_slice()),
        }
    }
}

impl WalChunk {
    #[verifier::type_invariant]
    spec fn forward(self) -> bool {
        self.wal_start.0 <= self.wal_end.0
    }

    /// A bounded chunk from its parts.
    pub fn try_new(
        wal_start: LogSequenceNumber,
        wal_end: LogSequenceNumber,
        server_time_micros: i64,
        data: Vec<u8>,
        limits: BatchLimits,
    ) -> (result: Result<Self, BatchValidationError>)
        ensures
            ({
                let parts = WalView { wal_start, wal_end, server_time_micros, data: data@ };
                match result {
                    Ok(chunk) => parts.error(limits) is None && chunk@ == parts,
                    Err(error) => parts.error(limits) == Some(error),
                }
            }),
    {
        if wal_end.0 < wal_start.0 {
            return Err(BatchValidationError::WalEndBeforeStart);
        }
        if data.len() > limits.max_item_bytes {
            return Err(
                BatchValidationError::ItemTooLarge {
                    actual: data.len(),
                    maximum: limits.max_item_bytes,
                },
            );
        }
        Ok(WalChunk { wal_start, wal_end, server_time_micros, data })
    }

    /// The position where the chunk starts.
    pub fn wal_start(&self) -> (lsn: LogSequenceNumber)
        ensures
            lsn == self@.wal_start,
            lsn.0 <= self@.wal_end.0,
    {
        proof {
            use_type_invariant(self);
        }
        self.wal_start
    }

    /// The position that the server reports as the end.
    pub fn wal_end(&self) -> (lsn: LogSequenceNumber)
        ensures
            lsn == self@.wal_end,
    {
        self.wal_end
    }

    /// The server's time.
    pub fn server_time_micros(&self) -> (micros: i64)
        ensures
            micros == self@.server_time_micros,
    {
        self.server_time_micros
    }

    /// The opaque bytes.
    pub fn data(&self) -> (data: &[u8])
        ensures
            data@ == self@.data,
    {
        self.data.as_slice()
    }
}

/// Contents of a `LogicalMessage`.
#[verifier::ext_equal]
pub struct LogicalMessageView {
    pub lsn: LogSequenceNumber,
    pub prefix: Seq<char>,
    pub content: Seq<u8>,
}

impl LogicalMessageView {
    /// The number of bytes of the prefix.
    pub open spec fn prefix_len(self) -> nat {
        encode_utf8(self.prefix).len()
    }

    /// Why the parts do not make a message, if so.
    pub open spec fn error(self, limits: BatchLimits) -> Option<BatchValidationError> {
        if self.prefix_len() > limits.max_prefix_bytes {
            Some(
                BatchValidationError::PrefixTooLarge {
                    actual: self.prefix_len() as usize,
                    maximum: limits.max_prefix_bytes,
                },
            )
        } else if self.content.len() > limits.max_item_bytes {
            Some(
                BatchValidationError::ItemTooLarge {
                    actual: self.content.len() as usize,
                    maximum: limits.max_item_bytes,
                },
            )
        } else {
            None
        }
    }
}

/// Logical decoding message attached to a transaction.
#[derive(Debug, PartialEq, Eq)]
pub struct LogicalMessage {
    lsn: LogSequenceNumber,
    prefix: String,
    content: Vec<u8>,
}

impl View for LogicalMessage {
    type V = LogicalMessageView;

    closed spec fn view(&self) -> LogicalMessageView {
        LogicalMessageView { lsn: self.lsn, prefix: self.prefix@, content: self.content@ }
    }
}

impl Clone for LogicalMessage {
    fn clone(&self) -> (copy: Self)
        ensures
            copy@ == self@,
    {
        LogicalMessage {
            lsn: self.lsn,
            prefix: self.prefix.clone(),
            content: vstd::slice::slice_to_vec(self.content.as_slice()),
        }
    }
}

impl LogicalMessage {
    /// A bounded message from its parts.
    pub fn try_new(
        lsn: LogSequenceNumber,
        prefix: String,
        content: Vec<u8>,
        limits: BatchLimits,
    ) -> (result: Result<Self, BatchValidationError>)
        ensures
            ({
                let parts = LogicalMessageView { lsn, prefix: prefix@, content: content@ };
                match result {
                    Ok(message) => parts.error(limits) is None && message@ == parts,
                    Err(error) => parts.error(limits) == Some(error),
                }
            }),
    {
        let prefix_len: usize = byte_len(prefix.as_str());
        if prefix_len > limits.max_prefix_bytes {
            return Err(
                BatchValidationError::PrefixTooLarge {
                    actual: prefix_len,
                    maximum: limits.max_prefix_bytes,
                },
            );
        }
        if content.len() > limits.max_item_bytes {
            return Err(
                BatchValidationError::ItemTooLarge {
                    actual: content.len(),
                    maximum: limits.max_item_bytes,
                },
            );
        }
        Ok(LogicalMessage { lsn, prefix, content })
    }

    /// The position of the message.
    pub fn lsn(&self) -> (lsn: LogSequenceNumber)
        ensures
            lsn == self@.lsn,
    {
        self.lsn
    }

    /// The prefix of the message.
    pub fn prefix(&self) -> (prefix: &str)
        ensures
            prefix@ == self@.prefix,
    {
        self.prefix.as_str()
    }

    /// The body of the message.
    pub fn content(&self) -> (content: &[u8])
        ensures
            content@ == self@.content,
    {
        self.content.as_slice()
    }
}

/// One item of a transaction, in order of delivery.
#[derive(Clone, Debug, PartialEq, Eq)]
pub enum TransactionItem {
    /// Opaque replication bytes.
    Wal(WalChunk),
    /// A logical decoding message.
    Message(LogicalMessage),
}

/// Contents of a `TransactionItem`.
#[verifier::ext_equal]
pub enum ItemView {
    Wal(WalView),
    Message(LogicalMessageView),
}

impl View for TransactionItem {
    type V = ItemView;

    open spec fn view(&self) -> ItemView {
        match *self {
            TransactionItem::Wal(chunk) => ItemView::Wal(chunk@),
            TransactionItem::Message(message) => ItemView::Message(message@),
        }
    }
}

impl ItemView {
    /// The number of payload bytes, as far as it can be counted.
    pub open spec fn payload_len(self) -> nat {
        match self {
            ItemView::Wal(chunk) => chunk.data.len(),
            ItemView::Message(message) => if message.prefix_len() + message.content.len()
                > usize::MAX {
                usize::MAX as nat
            } else {
                message.prefix_len() + message.content.len()
            },
        }
    }

    /// Whether the item respects the bounds.
    pub open spec fn bounded(self, limits: BatchLimits) -> bool {
        match self {
            ItemView::Wal(chunk) => chunk.error(limits) is None,
            ItemView::Message(message) => message.error(limits) is None,
        }
    }
}

/// The contents of a list of items.
pub open spec fn items_view(items: Seq<TransactionItem>) -> Seq<ItemView> {
    Seq::new(items.len(), |i: int| items[i]@)
}

/// The number of payload bytes of a list of items.
pub open spec fn payload_total(items: Seq<ItemView>) -> nat
    decreases items.len(),
{
    if items.len() == 0 {
        0
    } else {
        payload_total(items.drop_last()) + items.last().payload_len()
    }
}

impl TransactionItem {
    /// The number of payload bytes, as far as it can be counted.
    pub fn payload_len(&self) -> (len: usize)
        ensures
            len as nat == self@.payload_len(),
    {
        match self {
            TransactionItem::Wal(chunk) => chunk.data().len(),
            TransactionItem::Message(message) => {
                let prefix_len: usize = byte_len(message.prefix());
                match prefix_len.checked_add(message.content().len()) {
                    Some(len) => len,
                    None => usize::MAX,
                }
            },
        }
    }
}

/// Contents of a `TransactionBatch`.
#[verifier::ext_equal]
pub struct ModelBatchView {
    pub xid: u32,
    pub begin_final_lsn: LogSequenceNumber,
    pub commit_lsn: LogSequenceNumber,
    pub end_lsn: LogSequenceNumber,
    pub commit_time_micros: i64,
    pub items: Seq<ItemView>,
}

impl ModelBatchView {
    /// Why the parts do not make a transaction, if so.
    pub open spec fn error(self, limits: BatchLimits) -> Option<BatchValidationError> {
        if self.begin_final_lsn != self.commit_lsn {
            Some(
                BatchValidationError::CommitLsnMismatch {
                    begin_final_lsn: self.begin_final_lsn,
                    commit_lsn: self.commit_lsn,
                },
            )
        } else if self.end_lsn.0 < self.commit_lsn.0 {
            Some(BatchValidationError::EndBeforeCommit)
        } else if self.items.len() > limits.max_items {
            Some(
                BatchValidationError::TooManyItems {
                    actual: self.items.len() as usize,
                    maximum: limits.max_items,
                },
            )
        } else if payload_total(self.items) > usize::MAX {
            Some(BatchValidationError::EncodedLengthOverflow)
        } else if payload_total(self.items) > limits.max_encoded_bytes {
            Some(
                BatchValidationError::EncodedTooLarge {
                    actual: payload_total(self.items) as usize,
                    maximum: limits.max_encoded_bytes,
                },
            )
        } else {
            None
        }
    }

    /// Whether the boundaries belong together.
    pub open spec fn ordered(self) -> bool {
        self.begin_final_lsn == self.commit_lsn && self.commit_lsn.0 <= self.end_lsn.0
    }
}

/// A complete transaction. Nothing of it is visible to queries before its commit.
#[derive(Debug, PartialEq, Eq)]
pub struct TransactionBatch {
    xid: u32,
    begin_final_lsn: LogSequenceNumber,
    commit_lsn: LogSequenceNumber,
    end_lsn: LogSequenceNumber,
    commit_time_micros: i64,
    items: Vec<TransactionItem>,
}

impl View for TransactionBatch {
    type V = ModelBatchView;

    closed spec fn view(&self) -> ModelBatchView {
        ModelBatchView {
            xid: self.xid,
            begin_final_lsn: self.begin_final_lsn,
            commit_lsn: self.commit_lsn,
            end_lsn: self.end_lsn,
            commit_time_micros: self.commit_time_micros,
            items: items_view(self.items@),
        }
    }
}

fn copied_items(items: &Vec<TransactionItem>) -> (copies: Vec<TransactionItem>)
    ensures
        items_view(copies@) == items_view(items@),
{
    let mut copies: Vec<TransactionItem> = Vec::with_capacity(items.len());
    let mut index: usize = 0;
    while index < items.len()
        invariant
            index <= items@.len(),
            copies@.len() == index,
            forall|i: int| 0 <= i < index ==> (#[trigger] copies@[i])@ == items@[i]@,
        decreases items@.len() - index,
    {
        let copy = match &items[index] {
            TransactionItem::Wal(chunk) => TransactionItem::Wal(chunk.clone()),
            TransactionItem::Message(message) => TransactionItem::Message(message.clone()),
        };
        copies.push(copy);
        index = index + 1;
    }
    assert(items_view(copies@) =~= items_view(items@));
    copies
}

impl Clone for TransactionBatch {
    fn clone(&self) -> (copy: Self)
        ensures
            copy@ == self@,
    {
        proof {
            use_type_invariant(self);
        }
        TransactionBatch {
            xid: self.xid,
            begin_final_lsn: self.begin_final_lsn,
            commit_lsn: self.commit_lsn,
            end_lsn: self.end_lsn,
            commit_time_micros: self.commit_time_micros,
            items: copied_items(&self.items),
        }
    }
}

proof fn lemma_payload_of_prefix(items: Seq<ItemView>, count: int)
    requires
        0 <= count <= items.len(),
    ensures
        payload_total(items.take(count)) <= payload_total(items),
    decreases items.len() - count,
{
    if count == items.len() {
        assert(items.take(count) =~= items);
    } else {
        lemma_payload_of_prefix(items, count + 1);
        assert(items.take(count + 1).drop_last() =~= items.take(count));
    }
}

fn counted_payload(items: &Vec<TransactionItem>) -> (total: Option<usize>)
    ensures
        match total {
            Some(total) => total as nat == payload_total(items_view(items@)),
            None => payload_total(items_view(items@)) > usize::MAX,
        },
{
    let ghost views = items_view(items@);
    let mut total: usize = 0;
    let mut index: usize = 0;
    while index < items.len()
        invariant
            index <= items@.len(),
            views == items_view(items@),
            total as nat == payload_total(views.take(index as int)),
        decreases items@.len() - index,
    {
        proof {
            assert(views.take(index + 1).drop_last() =~= views.take(index as int));
            assert(views.take(index + 1).last() == items@[index as int]@);
            lemma_payload_of_prefix(views, index + 1);
        }
        total = match total.checked_add(items[index].payload_len()) {
            Some(total) => total,
            None => return None,
        };
        index = index + 1;
    }
    assert(views.take(index as int) =~= views);
    Some(total)
}

impl TransactionBatch {
    #[verifier::type_invariant]
    spec fn complete(self) -> bool {
        self.begin_final_lsn == self.commit_lsn && self.commit_lsn.0 <= self.end_lsn.0
    }

    /// A complete, bounded transaction from its parts.
    pub fn try_new(
        xid: u32,
        begin_final_lsn: LogSequenceNumber,
        commit_lsn: LogSequenceNumber,
        end_lsn: LogSequenceNumber,
        commit_time_micros: i64,
        items: Vec<TransactionItem>,
        limits: BatchLimits,
    ) -> (result: Result<Self, BatchValidationError>)
        ensures
            ({
                let parts = ModelBatchView {
                    xid,
                    begin_final_lsn,
                    commit_lsn,
                    end_lsn,
                    commit_time_micros,
                    items: items_view(items@),
                };
                match result {
                    Ok(batch) => parts.error(limits) is None && batch@ == parts,
                    Err(error) => parts.error(limits) == Some(error),
                }
            }),
    {
        if begin_final_lsn != commit_lsn {
            return Err(BatchValidationError::CommitLsnMismatch { begin_final_lsn, commit_lsn });
        }
        if end_lsn.0 < commit_lsn.0 {
            return Err(BatchValidationError::EndBeforeCommit);
        }
        if items.len() > limits.max_items {
            return Err(
                BatchValidationError::TooManyItems {
                    actual: items.len(),
                    maximum: limits.max_items,
                },
            );
        }
        let payload_bytes: usize = match counted_payload(&items) {
            Some(total) => total,
            None => return Err(BatchValidationError::EncodedLengthOverflow),
        };
        if payload_bytes > limits.max_encoded_bytes {
            return Err(
                BatchValidationError::EncodedTooLarge {
                    actual: payload_bytes,
                    maximum: limits.max_encoded_bytes,
                },
            );
        }
        Ok(
            TransactionBatch {
                xid,
                begin_final_lsn,
                commit_lsn,
                end_lsn,
                commit_time_micros,
                items,
            },
        )
    }

    /// The transaction id.
    pub fn xid(&self) -> (xid: u32)
        ensures
            xid == self@.xid,
    {
        self.xid
    }

    /// The final position that the begin declared.
    pub fn begin_final_lsn(&self) -> (lsn: LogSequenceNumber)
        ensures
            lsn == self@.begin_final_lsn,
    {
        self.begin_final_lsn
    }

    /// The commit position.
    pub fn commit_lsn(&self) -> (lsn: LogSequenceNumber)
        ensures
            lsn == self@.commit_lsn,
    {
        self.commit_lsn
    }

    /// The position behind the transaction: what is durable up to here need not be replayed.
    pub fn end_lsn(&self) -> (lsn: LogSequenceNumber)
        ensures
            lsn == self@.end_lsn,
            self@.ordered(),
    {
        proof {
            use_type_invariant(self);
        }
        self.end_lsn
    }

    /// The commit time.
    pub fn commit_time_micros(&self) -> (micros: i64)
        ensures
            micros == self@.commit_time_micros,
    {
        self.commit_time_micros
    }

    /// The items in order.
    pub fn items(&self) -> (items: &[TransactionItem])
        ensures
            items_view(items@) == self@.items,
    {
        self.items.as_slice()
    }
}

/// A size and its bound inside a diagnostic.
pub open spec fn sizes(
    start: Seq<char>,
    actual: usize,
    middle: Seq<char>,
    maximum: usize,
) -> Seq<char> {
    start + decimal(actual as int) + middle + decimal(maximum as int)
}

/// A size and its bound inside a diagnostic.
pub fn sizes_text(start: &str, actual: usize, middle: &str, maximum: usize) -> (text: String)
    ensures
        text@ == sizes(start@, actual, middle@, maximum),
{
    let mut text = joined(start, decimal_text(actual as u64).as_str());
    text.append(middle);
    text.append(decimal_text(maximum as u64).as_str());
    text
}

impl BatchValidationError {
    /// The diagnostic text of this error.
    pub open spec fn spec_message(self) -> Seq<char> {
        match self {
            BatchValidationError::WalEndBeforeStart => "WAL chunk end LSN precedes its start LSN"@,
            BatchValidationError::ItemTooLarge { actual, maximum } => sizes(
                "transaction item is "@,
                actual,
                " bytes; maximum is "@,
                maximum,
            ),
            BatchValidationError::PrefixTooLarge { actual, maximum } => sizes(
                "logical message prefix is "@,
                actual,
                " bytes; maximum is "@,
                maximum,
            ),
            BatchValidationError::TooManyItems { actual, maximum } => sizes(
                "transaction has "@,
                actual,
                " items; maximum is "@,
                maximum,
            ),
            BatchValidationError::EncodedLengthOverflow => "transaction encoded length overflow"@,
            BatchValidationError::EncodedTooLarge { actual, maximum } => sizes(
                "transaction payload is "@,
                actual,
                " bytes; maximum is "@,
                maximum,
            ),
            BatchValidationError::CommitLsnMismatch { begin_final_lsn, commit_lsn } => {
                "BEGIN final LSN "@ + decimal(begin_final_lsn.0 as int)
                    + " differs from COMMIT LSN "@ + decimal(commit_lsn.0 as int)
            },
            BatchValidationError::EndBeforeCommit => "transaction end LSN precedes commit LSN"@,
        }
    }

    /// The diagnostic text of this error.
    pub fn message(&self) -> (text: String)
        ensures
            text@ == self.spec_message(),
    {
        match self {
            BatchValidationError::WalEndBeforeStart => {
                "WAL chunk end LSN precedes its start LSN".to_owned()
            },
            BatchValidationError::ItemTooLarge { actual, maximum } => {
                sizes_text("transaction item is ", *actual, " bytes; maximum is ", *maximum)
            },
            BatchValidationError::PrefixTooLarge { actual, maximum } => {
                sizes_text("logical message prefix is ", *actual, " bytes; maximum is ", *maximum)
            },
            BatchValidationError::TooManyItems { actual, maximum } => {
                sizes_text("transaction has ", *actual, " items; maximum is ", *maximum)
            },
            BatchValidationError::EncodedLengthOverflow => {
                "transaction encoded length overflow".to_owned()
            },
            BatchValidationError::EncodedTooLarge { actual, maximum } => {
                sizes_text("transaction payload is ", *actual, " bytes; maximum is ", *maximum)
            },
            BatchValidationError::CommitLsnMismatch { begin_final_lsn, commit_lsn } => {
                let mut text = joined(
                    "BEGIN final LSN ",
                    decimal_text(begin_final_lsn.0).as_str(),
                );
                text.append(" differs from COMMIT LSN ");
                text.append(decimal_text(commit_lsn.0).as_str());
                text
            },
            BatchValidationError::EndBeforeCommit => {
                "transaction end LSN precedes commit LSN".to_owned()
            },
        }
    }
}

/// The payload of a transaction is that of its items together: the bytes of a data chunk, and
/// the bytes of prefix and body of a message.
pub proof fn law_payload_is_that_of_all_items(items: Seq<ItemView>, item: ItemView)
    ensures
        payload_total(Seq::empty()) == 0,
        item matches ItemView::Wal(chunk) ==> payload_total(items.push(item)) == payload_total(
            items,
        ) + chunk.data.len(),
        item matches ItemView::Message(message) ==> ({
            let bytes = encode_utf8(message.prefix).len() + message.content.len();
            &&& bytes <= usize::MAX ==> payload_total(items.push(item)) == payload_total(items)
                + bytes
            &&& bytes > usize::MAX ==> payload_total(items.push(item)) >= usize::MAX
        }),
{
    assert(items.push(item).drop_last() =~= items);
}

/// A data chunk is taken exactly if it does not end before it starts and its bytes are within
/// the limit. A message is taken exactly if the bytes of its prefix and of its body are. Each
/// refusal names what is wrong and the limit that was passed.
pub proof fn law_item_is_taken_exactly_if_bounded(
    chunk: WalView,
    message: LogicalMessageView,
    limits: BatchLimits,
)
    ensures
        chunk.error(limits) is None <==> chunk.wal_start.0 <= chunk.wal_end.0 && chunk.data.len()
            <= limits.max_item_bytes,
        message.error(limits) is None <==> encode_utf8(message.prefix).len()
            <= limits.max_prefix_bytes && message.content.len() <= limits.max_item_bytes,
        chunk.error(limits) matches Some(error) ==> match error {
            BatchValidationError::WalEndBeforeStart => chunk.wal_end.0 < chunk.wal_start.0,
            BatchValidationError::ItemTooLarge { actual, maximum } => {
                &&& maximum == limits.max_item_bytes
                &&& maximum < chunk.data.len()
                &&& chunk.data.len() <= usize::MAX ==> actual == chunk.data.len()
            },
            _ => false,
        },
        message.error(limits) matches Some(error) ==> match error {
            BatchValidationError::PrefixTooLarge { actual, maximum } => {
                &&& maximum == limits.max_prefix_bytes
                &&& maximum < encode_utf8(message.prefix).len()
                &&& encode_utf8(message.prefix).len() <= usize::MAX ==> actual == encode_utf8(
                    message.prefix,
                ).len()
            },
            BatchValidationError::ItemTooLarge { actual, maximum } => {
                &&& maximum == limits.max_item_bytes
                &&& maximum < message.content.len()
                &&& message.content.len() <= usize::MAX ==> actual == message.content.len()
            },
            _ => false,
        },
{
}

/// A transaction is taken exactly if its begin announced the position of its commit, it does not
/// end before its commit, and its items are within the limits in number and in payload. Each
/// refusal names what is wrong and the limit that was passed.
pub proof fn law_transaction_is_taken_exactly_if_bounded(
    batch: ModelBatchView,
    limits: BatchLimits,
)
    ensures
        batch.error(limits) is None <==> {
            &&& batch.begin_final_lsn.0 == batch.commit_lsn.0
            &&& batch.commit_lsn.0 <= batch.end_lsn.0
            &&& batch.items.len() <= limits.max_items
            &&& payload_total(batch.items) <= limits.max_encoded_bytes
        },
        batch.error(limits) matches Some(error) ==> match error {
            BatchValidationError::CommitLsnMismatch { begin_final_lsn, commit_lsn } => {
                &&& begin_final_lsn == batch.begin_final_lsn
                &&& commit_lsn == batch.commit_lsn
                &&& begin_final_lsn.0 != commit_lsn.0
            },
            BatchValidationError::EndBeforeCommit => batch.end_lsn.0 < batch.commit_lsn.0,
            BatchValidationError::TooManyItems { actual, maximum } => {
                &&& maximum == limits.max_items
                &&& maximum < batch.items.len()
                &&& batch.items.len() <= usize::MAX ==> actual == batch.items.len()
            },
            BatchValidationError::EncodedLengthOverflow => usize::MAX < payload_total(
                batch.items,
            ),
            BatchValidationError::EncodedTooLarge { actual, maximum } => {
                &&& maximum == limits.max_encoded_bytes
                &&& maximum < payload_total(batch.items)
                &&& actual == payload_total(batch.items)
            },
            _ => false,
        },
{
}

/// The usual bounds leave room for 262144 items of 64 mebibytes with prefixes of 4 kibibytes, and
/// for 128 mebibytes in all.
pub proof fn law_usual_bounds_have_their_sizes()
    ensures
        default_limits().max_items == 256 * 1024,
        default_limits().max_item_bytes == 64 * 1024 * 1024,
        default_limits().max_prefix_bytes == 4 * 1024,
        default_limits().max_encoded_bytes == 128 * 1024 * 1024,
{
}

} // verus!
