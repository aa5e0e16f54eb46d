//! `PostgreSQL` logical replication primitives: transaction boundaries, strict decoding,
//! durable replay and the journal-before-apply acknowledgement boundary.

pub mod assembler;
pub mod bootstrap;
pub mod checkpoint;
pub mod checksum;
pub mod codec;
pub mod durable;
pub mod event;
pub mod journal;
pub mod live;
pub mod lsn;
pub mod model;
pub mod pg_lsn;
pub mod pgoutput;
pub mod pgoutput_wire;
pub mod postgres;
pub mod processor;
pub mod progress;
pub mod pump;
pub mod resume;
pub mod snapshot;
pub mod stream;
pub mod transaction;
pub mod wire;
