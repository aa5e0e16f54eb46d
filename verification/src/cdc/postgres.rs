//! Translation between the replication transport and this library.

use super::event::CdcEvent;
use super::lsn::LogSequenceNumber;
use super::pg_lsn::{
    halves, hex_number, law_position_text_reads_back, lemma_halves_of_position_name,
    position_name, position_text,
};
use super::resume::ReplicationStartProof;
use super::snapshot::parse_pg_lsn;
use crate::text::{joined, joined3, same_text};
use pgwire_replication::Lsn;
use vstd::prelude::*;

verus! {

/// Why the transport cannot be used.
#[derive(Debug, PartialEq, Eq)]
pub enum PostgresCdcError {
    /// What the transport reported.
    Transport(String),
    InvalidTransportLsn(String),
    ResumeProofSlotMismatch { config_slot: String, proof_slot: String },
}

/// Contents of a `PostgresCdcError`.
#[verifier::ext_equal]
pub enum PostgresErrorView {
    Transport(Seq<char>),
    InvalidTransportLsn(Seq<char>),
    ResumeProofSlotMismatch { config_slot: Seq<char>, proof_slot: Seq<char> },
}

impl View for PostgresCdcError {
    type V = PostgresErrorView;

    open spec fn view(&self) -> PostgresErrorView {
        match *self {
            PostgresCdcError::Transport(text) => PostgresErrorView::Transport(text@),
            PostgresCdcError::InvalidTransportLsn(text) => {
                PostgresErrorView::InvalidTransportLsn(text@)
            },
            PostgresCdcError::ResumeProofSlotMismatch { config_slot, proof_slot } => {
                PostgresErrorView::ResumeProofSlotMismatch {
                    config_slot: config_slot@,
                    proof_slot: proof_slot@,
                }
            },
        }
    }
}

/// One event as the transport delivers it, with raw log positions.
#[derive(Clone, Debug, PartialEq, Eq)]
pub enum TransportEvent {
    KeepAlive { wal_end: u64, server_time_micros: i64, reply_requested: bool },
    Begin { final_lsn: u64, xid: u32, commit_time_micros: i64 },
    XLogData { wal_start: u64, wal_end: u64, server_time_micros: i64, data: Vec<u8> },
    Commit { lsn: u64, end_lsn: u64, commit_time_micros: i64 },
    Message { transactional: bool, lsn: u64, prefix: String, content: Vec<u8> },
    StoppedAt { reached: u64 },
}

impl TransportEvent {
    /// The event that this one stands for: the same fields, with the same positions.
    pub open spec fn meaning(self) -> CdcEvent {
        match self {
            TransportEvent::KeepAlive { wal_end, server_time_micros, reply_requested } => {
                CdcEvent::KeepAlive {
                    wal_end: LogSequenceNumber(wal_end),
                    server_time_micros,
                    reply_requested,
                }
            },
            TransportEvent::Begin { final_lsn, xid, commit_time_micros } => {
                CdcEvent::Begin {
                    final_lsn: LogSequenceNumber(final_lsn),
                    xid,
                    commit_time_micros,
                }
            },
            TransportEvent::XLogData { wal_start, wal_end, server_time_micros, data } => {
                CdcEvent::XLogData {
                    wal_start: LogSequenceNumber(wal_start),
                    wal_end: LogSequenceNumber(wal_end),
                    server_time_micros,
                    data,
                }
            },
            TransportEvent::Commit { lsn, end_lsn, commit_time_micros } => {
                CdcEvent::Commit {
                    lsn: LogSequenceNumber(lsn),
                    end_lsn: LogSequenceNumber(end_lsn),
                    commit_time_micros,
                }
            },
            TransportEvent::Message { transactional, lsn, prefix, content } => {
                CdcEvent::Message {
                    transactional,
                    lsn: LogSequenceNumber(lsn),
                    prefix,
                    content,
                }
            },
            TransportEvent::StoppedAt { reached } => {
                CdcEvent::StoppedAt { reached: LogSequenceNumber(reached) }
            },
        }
    }
}

/// The text of a raw position, as the transport displays it.
///
/// Trusted: the `Display` of `pgwire_replication::Lsn`, which writes the high and the low 32 bits
/// in upper-case hexadecimal, without leading zeros, around a slash.
#[verifier::external_body]
fn transport_text(position: u64) -> (text: String)
    ensures
        text@ == position_name(position),
{
    Lsn::from_u64(position).to_string()
}

/// The raw position that `pgwire_replication::Lsn` reads out of a text, if it reads one.
pub open spec fn transport_position(text: Seq<char>) -> Option<u64> {
    match halves(text) {
        Some((high, low)) => match (hex_number(high), hex_number(low)) {
            (Some(high), Some(low)) => if high <= u64::MAX && low <= u64::MAX {
                Some((high as u64) << 32u64 | (low as u64))
            } else {
                None
            },
            _ => None,
        },
        None => None,
    }
}

/// The raw position that a text means to the transport, if it means one.
///
/// Trusted: `pgwire_replication::Lsn::parse`, which splits at the first slash, reads both halves
/// as hexadecimal 64-bit numbers after an optional plus sign, shifts the high one by 32 bits and
/// sets the bits of the low one.
#[verifier::external_body]
fn transport_parse(text: &str) -> (position: Option<u64>)
    ensures
        position == transport_position(text@),
{
    Lsn::parse(text).ok().map(Lsn::as_u64)
}

/// The position that a raw position of the transport means.
pub fn from_pg_lsn(value: u64) -> (result: Result<LogSequenceNumber, PostgresCdcError>)
    ensures
        result == Ok::<LogSequenceNumber, PostgresCdcError>(LogSequenceNumber(value)),
{
    let text = transport_text(value);
    proof {
        law_position_text_reads_back(value);
    }
    match parse_pg_lsn(text.as_str()) {
        Ok(lsn) => Ok(lsn),
        Err(_) => Err(PostgresCdcError::InvalidTransportLsn(text)),
    }
}

/// The raw position of the transport for a position.
pub fn to_pg_lsn(value: LogSequenceNumber) -> (result: Result<u64, PostgresCdcError>)
    ensures
        result == Ok::<u64, PostgresCdcError>(value.0),
{
    let raw: u64 = value.0;
    let text = position_text(raw);
    proof {
        law_transport_reads_back_positions(raw);
    }
    match transport_parse(text.as_str()) {
        Some(position) => Ok(position),
        None => Err(PostgresCdcError::InvalidTransportLsn(text)),
    }
}

/// Translates one event of the transport. Nothing of its meaning is lost.
pub fn map_event(event: TransportEvent) -> (result: Result<CdcEvent, PostgresCdcError>)
    ensures
        result == Ok::<CdcEvent, PostgresCdcError>(event.meaning()),
{
    match event {
        TransportEvent::KeepAlive { wal_end, server_time_micros, reply_requested } => {
            let wal_end = from_pg_lsn(wal_end)?;
            Ok(CdcEvent::KeepAlive { wal_end, server_time_micros, reply_requested })
        },
        TransportEvent::Begin { final_lsn, xid, commit_time_micros } => {
            let final_lsn = from_pg_lsn(final_lsn)?;
            Ok(CdcEvent::Begin { final_lsn, xid, commit_time_micros })
        },
        TransportEvent::XLogData { wal_start, wal_end, server_time_micros, data } => {
            let wal_start = from_pg_lsn(wal_start)?;
            let wal_end = from_pg_lsn(wal_end)?;
            Ok(CdcEvent::XLogData { wal_start, wal_end, server_time_micros, data })
        },
        TransportEvent::Commit { lsn, end_lsn, commit_time_micros } => {
            let lsn = from_pg_lsn(lsn)?;
            let end_lsn = from_pg_lsn(end_lsn)?;
            Ok(CdcEvent::Commit { lsn, end_lsn, commit_time_micros })
        },
        TransportEvent::Message { transactional, lsn, prefix, content } => {
            let lsn = from_pg_lsn(lsn)?;
            Ok(CdcEvent::Message { transactional, lsn, prefix, content })
        },
        TransportEvent::StoppedAt { reached } => {
            let reached = from_pg_lsn(reached)?;
            Ok(CdcEvent::StoppedAt { reached })
        },
    }
}

/// The raw position at which to start a connection for `config_slot`. A proof about another
/// slot is refused.
pub fn start_position(config_slot: &str, proof_of_start: &ReplicationStartProof) -> (result: Result<
    u64,
    PostgresCdcError,
>)
    ensures
        match result {
            Ok(position) => config_slot@ == proof_of_start@.slot && position
                == proof_of_start@.requested_lsn.0,
            Err(error) => config_slot@ != proof_of_start@.slot && error@
                == (PostgresErrorView::ResumeProofSlotMismatch {
                config_slot: config_slot@,
                proof_slot: proof_of_start@.slot,
            }),
        },
{
    if !same_text(config_slot, proof_of_start.slot()) {
        return Err(
            PostgresCdcError::ResumeProofSlotMismatch {
                config_slot: config_slot.to_owned(),
                proof_slot: proof_of_start.slot().to_owned(),
            },
        );
    }
    to_pg_lsn(proof_of_start.requested_lsn())
}

/// Every position survives the way to the transport's text and back.
pub proof fn law_transport_reads_back_positions(position: u64)
    ensures
        transport_position(position_name(position)) == Some(position),
{
    lemma_halves_of_position_name(position);
    assert((position / 0x1_0000_0000u64) << 32u64 | (position % 0x1_0000_0000u64) == position)
        by (bit_vector);
}

/// Translation loses nothing: events with the same meaning are the same event.
pub proof fn law_translation_loses_nothing(left: TransportEvent, right: TransportEvent)
    requires
        left.meaning() == right.meaning(),
    ensures
        left == right,
{
}

impl PostgresErrorView {
    /// The diagnostic text of this error.
    pub open spec fn message(self) -> Seq<char> {
        match self {
            PostgresErrorView::Transport(text) => "PostgreSQL replication error: "@ + text,
            PostgresErrorView::InvalidTransportLsn(text) => {
                "invalid replication transport LSN '"@ + text + "'"@
            },
            PostgresErrorView::ResumeProofSlotMismatch { config_slot, proof_slot } => {
                "replication config slot '"@ + config_slot
                    + "' differs from resume proof slot '"@ + proof_slot + "'"@
            },
        }
    }
}

impl PostgresCdcError {
    /// The diagnostic text of this error.
    pub fn message(&self) -> (text: String)
        ensures
            text@ == self@.message(),
    {
        match self {
            PostgresCdcError::Transport(text) => {
                joined("PostgreSQL replication error: ", text.as_str())
            },
            PostgresCdcError::InvalidTransportLsn(text) => {
                joined3("invalid replication transport LSN '", text.as_str(), "'")
            },
            PostgresCdcError::ResumeProofSlotMismatch { config_slot, proof_slot } => {
                let mut text = joined3(
                    "replication config slot '",
                    config_slot.as_str(),
                    "' differs from resume proof slot '",
                );
                text.append(proof_slot.as_str());
                text.append("'");
                text
            },
        }
    }
}

/// Every event keeps its kind, its positions in their places, its times, its flags and its
/// bytes.
pub proof fn law_translation_keeps_every_field(event: TransportEvent)
    ensures
        match event {
            TransportEvent::KeepAlive { wal_end, server_time_micros, reply_requested } => {
                &&& event.meaning() matches CdcEvent::KeepAlive {
                    wal_end: end,
                    server_time_micros: time,
                    reply_requested: reply,
                }
                &&& end.0 == wal_end
                &&& time == server_time_micros
                &&& reply == reply_requested
            },
            TransportEvent::Begin { final_lsn, xid, commit_time_micros } => {
                &&& event.meaning() matches CdcEvent::Begin {
                    final_lsn: lsn,
                    xid: id,
                    commit_time_micros: time,
                }
                &&& lsn.0 == final_lsn
                &&& id == xid
                &&& time == commit_time_micros
            },
            TransportEvent::XLogData { wal_start, wal_end, server_time_micros, data } => {
                &&& event.meaning() matches CdcEvent::XLogData {
                    wal_start: start,
                    wal_end: end,
                    server_time_micros: time,
                    data: bytes,
                }
                &&& start.0 == wal_start
                &&& end.0 == wal_end
                &&& time == server_time_micros
                &&& bytes@ == data@
            },
            TransportEvent::Commit { lsn, end_lsn, commit_time_micros } => {
                &&& event.meaning() matches CdcEvent::Commit {
                    lsn: at,
                    end_lsn: end,
                    commit_time_micros: time,
                }
                &&& at.0 == lsn
                &&& end.0 == end_lsn
                &&& time == commit_time_micros
            },
            TransportEvent::Message { transactional, lsn, prefix, content } => {
                &&& event.meaning() matches CdcEvent::Message {
                    transactional: inside,
                    lsn: at,
                    prefix: name,
                    content: bytes,
                }
                &&& inside == transactional
                &&& at.0 == lsn
                &&& name@ == prefix@
                &&& bytes@ == content@
            },
            TransportEvent::StoppedAt { reached } => {
                &&& event.meaning() matches CdcEvent::StoppedAt { reached: at }
                &&& at.0 == reached
            },
        },
{
}

} // verus!
