//! Transport-neutral logical replication events.

use super::lsn::LogSequenceNumber;
use vstd::prelude::*;

verus! {

/// One event of a logical replication stream.
#[derive(Clone, Debug, PartialEq, Eq)]
pub enum CdcEvent {
    KeepAlive { wal_end: LogSequenceNumber, server_time_micros: i64, reply_requested: bool },
    Begin { final_lsn: LogSequenceNumber, xid: u32, commit_time_micros: i64 },
    XLogData {
        wal_start: LogSequenceNumber,
        wal_end: LogSequenceNumber,
        server_time_micros: i64,
        data: Vec<u8>,
    },
    Commit { lsn: LogSequenceNumber, end_lsn: LogSequenceNumber, commit_time_micros: i64 },
    Message { transactional: bool, lsn: LogSequenceNumber, prefix: String, content: Vec<u8> },
    StoppedAt { reached: LogSequenceNumber },
}

} // verus!
