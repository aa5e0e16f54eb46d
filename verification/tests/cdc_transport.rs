//! Progress, resume proofs, snapshot boundaries and the transport's positions.

use pgwire_replication::Lsn;
use veyra::cdc::event::CdcEvent;
use veyra::cdc::lsn::LogSequenceNumber;
use veyra::cdc::postgres::{
    from_pg_lsn, map_event, start_position, to_pg_lsn, PostgresCdcError, TransportEvent,
};
use veyra::cdc::progress::{
    CdcProgressError, CdcProgressTracker, ProjectionProgress, ProjectionProgressError,
};
use veyra::cdc::resume::{
    prove_replication_start, validate_resume_state, ReplicationStartProof, ResumeFenceError,
    SlotRow,
};
use veyra::cdc::snapshot::{
    check_slot_name, parse_pg_lsn, replay_start, SnapshotBoundary, SnapshotError,
};

// ---------------------------------------------------------------------------------------------
// Progress
// ---------------------------------------------------------------------------------------------

#[test]
fn tracker_preserves_monotonic_chain() -> Result<(), CdcProgressError> {
    let mut tracker = CdcProgressTracker::zero();
    tracker.observe_received(LogSequenceNumber::new(10))?;
    tracker.mark_durable(LogSequenceNumber::new(8))?;
    tracker.mark_applied(LogSequenceNumber::new(7))?;
    tracker.mark_published(LogSequenceNumber::new(6))?;
    assert_eq!(
        tracker.snapshot(),
        ProjectionProgress::try_new(
            LogSequenceNumber::new(10),
            LogSequenceNumber::new(8),
            LogSequenceNumber::new(7),
            LogSequenceNumber::new(6),
        )?
    );
    tracker.observe_received(LogSequenceNumber::new(2))?;
    tracker.mark_durable(LogSequenceNumber::new(2))?;
    assert_eq!(tracker.snapshot().received(), LogSequenceNumber::new(10));
    assert_eq!(tracker.snapshot().durable(), LogSequenceNumber::new(8));
    Ok(())
}

#[test]
fn recovery_and_fences_fail_closed() -> Result<(), CdcProgressError> {
    let mut tracker = CdcProgressTracker::recover(
        LogSequenceNumber::new(10),
        LogSequenceNumber::new(8),
        LogSequenceNumber::new(7),
    )?;
    assert_eq!(tracker.snapshot().received(), LogSequenceNumber::new(10));
    assert_eq!(
        tracker.mark_applied(LogSequenceNumber::new(11)),
        Err(CdcProgressError::AppliedAheadOfDurable {
            attempted: LogSequenceNumber::new(11),
            durable: LogSequenceNumber::new(10),
        })
    );
    assert_eq!(
        tracker.mark_published(LogSequenceNumber::new(9)),
        Err(CdcProgressError::PublishedAheadOfApplied {
            attempted: LogSequenceNumber::new(9),
            applied: LogSequenceNumber::new(8),
        })
    );
    Ok(())
}

#[test]
fn progress_diagnostics_and_sources_are_stable() {
    let projection = CdcProgressError::Projection(ProjectionProgressError::AppliedAheadOfDurable);
    assert!(projection.message().contains("invalid projection progress"));
    let applied = CdcProgressError::AppliedAheadOfDurable {
        attempted: LogSequenceNumber::new(2),
        durable: LogSequenceNumber::new(1),
    };
    assert!(applied.message().contains("beyond durable"));
    let published = CdcProgressError::PublishedAheadOfApplied {
        attempted: LogSequenceNumber::new(2),
        applied: LogSequenceNumber::new(1),
    };
    assert!(published.message().contains("beyond applied"));
    assert_eq!(
        published.message(),
        "cannot publish LSN 2 beyond applied LSN 1"
    );
}

#[test]
fn every_disorder_of_a_progress_is_refused() {
    let at = LogSequenceNumber::new;
    assert_eq!(
        ProjectionProgress::try_new(at(1), at(2), at(0), at(0)),
        Err(ProjectionProgressError::DurableAheadOfReceived)
    );
    assert_eq!(
        ProjectionProgress::try_new(at(2), at(2), at(3), at(0)),
        Err(ProjectionProgressError::AppliedAheadOfDurable)
    );
    assert_eq!(
        ProjectionProgress::try_new(at(2), at(2), at(1), at(2)),
        Err(ProjectionProgressError::PublishedAheadOfApplied)
    );
    assert_eq!(
        CdcProgressTracker::recover(at(5), at(6), at(0)),
        Err(CdcProgressError::Projection(
            ProjectionProgressError::AppliedAheadOfDurable
        ))
    );
    assert_eq!(
        CdcProgressTracker::zero().snapshot(),
        ProjectionProgress::zero()
    );
}

#[test]
fn durable_position_pulls_the_received_one_along() -> Result<(), CdcProgressError> {
    let mut tracker = CdcProgressTracker::zero();
    tracker.mark_durable(LogSequenceNumber::new(9))?;
    assert_eq!(tracker.snapshot().received(), LogSequenceNumber::new(9));
    tracker.mark_applied(LogSequenceNumber::new(9))?;
    tracker.mark_applied(LogSequenceNumber::new(3))?;
    assert_eq!(tracker.snapshot().applied(), LogSequenceNumber::new(9));
    assert_eq!(tracker.snapshot().published(), LogSequenceNumber::zero());
    Ok(())
}

// ---------------------------------------------------------------------------------------------
// Resume
// ---------------------------------------------------------------------------------------------

fn valid(requested: u64) -> Result<ReplicationStartProof, ResumeFenceError> {
    validate_resume_state(
        "slot",
        LogSequenceNumber::new(requested),
        Some("0/10"),
        Some("0/20"),
        Some("reserved"),
        false,
        "pgoutput",
    )
}

#[test]
fn valid_resume_proof_exposes_exact_slot_state() -> Result<(), ResumeFenceError> {
    let proof = valid(0x20)?;
    assert_eq!(proof.slot(), "slot");
    assert_eq!(proof.requested_lsn(), LogSequenceNumber::new(0x20));
    assert_eq!(proof.restart_lsn(), LogSequenceNumber::new(0x10));
    assert_eq!(proof.confirmed_flush_lsn(), LogSequenceNumber::new(0x20));
    let extended = validate_resume_state(
        "slot",
        LogSequenceNumber::new(0x30),
        Some("0/10"),
        Some("0/20"),
        Some("extended"),
        false,
        "pgoutput",
    )?;
    assert_eq!(extended.requested_lsn(), LogSequenceNumber::new(0x30));
    Ok(())
}

#[test]
fn unknown_or_unsafe_slot_semantics_fail_closed() {
    let cases = [
        validate_resume_state(
            "slot",
            LogSequenceNumber::new(0x20),
            Some("0/10"),
            Some("0/20"),
            Some("reserved"),
            false,
            "test_decoding",
        ),
        validate_resume_state(
            "slot",
            LogSequenceNumber::new(0x20),
            Some("0/10"),
            Some("0/20"),
            Some("reserved"),
            true,
            "pgoutput",
        ),
        validate_resume_state(
            "slot",
            LogSequenceNumber::new(0x20),
            Some("0/10"),
            Some("0/20"),
            None,
            false,
            "pgoutput",
        ),
        validate_resume_state(
            "slot",
            LogSequenceNumber::new(0x20),
            Some("0/10"),
            Some("0/20"),
            Some("unreserved"),
            false,
            "pgoutput",
        ),
        validate_resume_state(
            "slot",
            LogSequenceNumber::new(0x20),
            Some("0/10"),
            Some("0/20"),
            Some("lost"),
            false,
            "pgoutput",
        ),
        validate_resume_state(
            "slot",
            LogSequenceNumber::new(0x20),
            None,
            Some("0/20"),
            Some("reserved"),
            false,
            "pgoutput",
        ),
        validate_resume_state(
            "slot",
            LogSequenceNumber::new(0x20),
            Some("0/10"),
            None,
            Some("reserved"),
            false,
            "pgoutput",
        ),
    ];
    for result in cases {
        assert!(result.is_err());
    }
}

#[test]
fn gaps_and_invalid_lsn_fail_closed() {
    assert!(matches!(
        validate_resume_state(
            "slot",
            LogSequenceNumber::new(0x0F),
            Some("0/10"),
            Some("0/0F"),
            Some("reserved"),
            false,
            "pgoutput"
        ),
        Err(ResumeFenceError::RequestedBeforeRestart { .. })
    ));
    assert!(matches!(
        validate_resume_state(
            "slot",
            LogSequenceNumber::new(0x1F),
            Some("0/10"),
            Some("0/20"),
            Some("reserved"),
            false,
            "pgoutput"
        ),
        Err(ResumeFenceError::ServerConfirmedAheadOfLocal { .. })
    ));
    assert!(matches!(
        validate_resume_state(
            "slot",
            LogSequenceNumber::new(0x20),
            Some("bad"),
            Some("0/20"),
            Some("reserved"),
            false,
            "pgoutput"
        ),
        Err(ResumeFenceError::InvalidLsn(_))
    ));
}

#[test]
fn diagnostics_are_explicit_and_fail_closed() {
    let errors = [
        ResumeFenceError::EmptySlotName,
        ResumeFenceError::SlotNotFound("x".to_owned()),
        ResumeFenceError::UnexpectedPlugin("x".to_owned()),
        ResumeFenceError::SlotAlreadyActive("x".to_owned()),
        ResumeFenceError::MissingWalStatus,
        ResumeFenceError::UnsafeWalStatus("lost".to_owned()),
        ResumeFenceError::MissingRestartLsn,
        ResumeFenceError::MissingConfirmedFlushLsn,
        ResumeFenceError::RequestedBeforeRestart {
            requested: LogSequenceNumber::new(1),
            restart: LogSequenceNumber::new(2),
        },
        ResumeFenceError::ServerConfirmedAheadOfLocal {
            requested: LogSequenceNumber::new(1),
            confirmed: LogSequenceNumber::new(2),
        },
    ];
    for error in errors {
        assert!(!error.message().is_empty());
    }
    let invalid = ResumeFenceError::InvalidLsn(SnapshotError::InvalidLsn("x".to_owned()));
    assert_eq!(
        invalid.message(),
        "invalid slot LSN: invalid PostgreSQL LSN 'x'"
    );
    assert_eq!(
        ResumeFenceError::ServerConfirmedAheadOfLocal {
            requested: LogSequenceNumber::new(1),
            confirmed: LogSequenceNumber::new(2),
        }
        .message(),
        "CDC_GAP: server confirmed LSN 2 is ahead of local resume LSN 1"
    );
    assert_eq!(
        ResumeFenceError::Postgres("down".to_owned()).message(),
        "PostgreSQL resume-fence error: down"
    );
}

fn row() -> SlotRow {
    SlotRow {
        restart_lsn: Some("0/10".to_owned()),
        confirmed_flush_lsn: Some("0/20".to_owned()),
        wal_status: Some("reserved".to_owned()),
        active: false,
        plugin: "pgoutput".to_owned(),
    }
}

#[test]
fn start_is_proved_from_the_row_of_the_slot() {
    let requested = LogSequenceNumber::new(0x20);
    assert_eq!(
        prove_replication_start("", requested, Some(row())),
        Err(ResumeFenceError::EmptySlotName)
    );
    assert_eq!(
        prove_replication_start("s", requested, None),
        Err(ResumeFenceError::SlotNotFound("s".to_owned()))
    );
    let start = prove_replication_start("s", requested, Some(row()))
        .unwrap_or_else(|e| panic!("{e:?}"));
    assert_eq!(start.slot(), "s");
    assert_eq!(start.clone(), start);
    assert_eq!(start_position("s", &start), Ok(0x20));
    assert_eq!(
        start_position("t", &start),
        Err(PostgresCdcError::ResumeProofSlotMismatch {
            config_slot: "t".to_owned(),
            proof_slot: "s".to_owned(),
        })
    );
    assert_eq!(
        prove_replication_start(
            "s",
            requested,
            Some(SlotRow {
                active: true,
                ..row()
            })
        ),
        Err(ResumeFenceError::SlotAlreadyActive("s".to_owned()))
    );
    assert_eq!(
        prove_replication_start(
            "s",
            requested,
            Some(SlotRow {
                wal_status: Some("lost".to_owned()),
                ..row()
            })
        ),
        Err(ResumeFenceError::UnsafeWalStatus("lost".to_owned()))
    );
    assert_eq!(
        prove_replication_start(
            "s",
            requested,
            Some(SlotRow {
                wal_status: None,
                ..row()
            })
        ),
        Err(ResumeFenceError::MissingWalStatus)
    );
    assert_eq!(
        prove_replication_start(
            "s",
            requested,
            Some(SlotRow {
                restart_lsn: None,
                ..row()
            })
        ),
        Err(ResumeFenceError::MissingRestartLsn)
    );
    assert_eq!(
        prove_replication_start(
            "s",
            requested,
            Some(SlotRow {
                confirmed_flush_lsn: None,
                ..row()
            })
        ),
        Err(ResumeFenceError::MissingConfirmedFlushLsn)
    );
    assert_eq!(
        prove_replication_start(
            "s",
            requested,
            Some(SlotRow {
                plugin: "wal2json".to_owned(),
                ..row()
            })
        ),
        Err(ResumeFenceError::UnexpectedPlugin("wal2json".to_owned()))
    );
}

// ---------------------------------------------------------------------------------------------
// Snapshot
// ---------------------------------------------------------------------------------------------

#[test]
fn postgres_lsn_parser_is_exact_and_case_insensitive() -> Result<(), SnapshotError> {
    assert_eq!(parse_pg_lsn("0/0")?, LogSequenceNumber::zero());
    assert_eq!(
        parse_pg_lsn("16/B374D848")?,
        LogSequenceNumber::new((0x16u64 << 32) | 0xB374_D848)
    );
    assert_eq!(
        parse_pg_lsn("a/ff")?,
        LogSequenceNumber::new((0xAu64 << 32) | 0xFF)
    );
    Ok(())
}

#[test]
fn invalid_lsn_text_fails_closed() {
    for value in [
        "",
        "0",
        "/1",
        "1/",
        "GG/1",
        "1/GG",
        "100000000/0",
        "0/100000000",
    ] {
        assert!(matches!(
            parse_pg_lsn(value),
            Err(SnapshotError::InvalidLsn(_))
        ));
    }
}

#[test]
fn snapshot_error_diagnostics_are_stable() {
    assert_eq!(
        SnapshotError::EmptySlotName.message(),
        "logical replication slot name is empty"
    );
    assert_eq!(
        SnapshotError::SlotNotFound("x".to_owned()).message(),
        "logical replication slot 'x' was not found"
    );
    assert_eq!(
        SnapshotError::SlotHasNoRestartLsn("x".to_owned()).message(),
        "logical replication slot 'x' has no restart LSN"
    );
    assert_eq!(
        SnapshotError::InvalidLsn("x".to_owned()).message(),
        "invalid PostgreSQL LSN 'x'"
    );
    assert_eq!(
        SnapshotError::Postgres("down".to_owned()).message(),
        "PostgreSQL snapshot error: down"
    );
}

#[test]
fn lsn_text_edges_are_read_as_numbers_are() {
    assert_eq!(parse_pg_lsn("+1/+f"), Ok(LogSequenceNumber::new(0x1_0000_000F)));
    assert_eq!(
        parse_pg_lsn("FFFFFFFF/ffffffff"),
        Ok(LogSequenceNumber::new(u64::MAX))
    );
    assert_eq!(
        parse_pg_lsn("0000000000000000000001/2"),
        Ok(LogSequenceNumber::new(0x1_0000_0002))
    );
    for value in ["+/1", "1/+", "-1/1", "1/2/3", " 1/2", "1/2 ", "1_0/2", "++1/2", "\u{e9}/1", "1\u{2044}2"] {
        assert_eq!(
            parse_pg_lsn(value),
            Err(SnapshotError::InvalidLsn(value.to_owned()))
        );
    }
}

#[test]
fn snapshot_boundary_comes_from_the_slot_and_the_snapshot() {
    assert_eq!(check_slot_name(""), Err(SnapshotError::EmptySlotName));
    assert_eq!(check_slot_name("s"), Ok(()));
    assert_eq!(
        replay_start("s", None),
        Err(SnapshotError::SlotNotFound("s".to_owned()))
    );
    assert_eq!(
        replay_start("s", Some(None)),
        Err(SnapshotError::SlotHasNoRestartLsn("s".to_owned()))
    );
    assert_eq!(
        replay_start("s", Some(Some("zz".to_owned()))),
        Err(SnapshotError::InvalidLsn("zz".to_owned()))
    );
    let start = replay_start("s", Some(Some("0/10".to_owned()))).unwrap_or_else(|e| panic!("{e:?}"));
    let boundary = SnapshotBoundary::observed(start, "1:2:".to_owned(), "0/20")
        .unwrap_or_else(|e| panic!("{e:?}"));
    assert_eq!(boundary.replay_from_lsn(), LogSequenceNumber::new(0x10));
    assert_eq!(boundary.snapshot_lsn(), LogSequenceNumber::new(0x20));
    assert_eq!(boundary.snapshot_id(), "1:2:");
    assert_eq!(boundary.clone(), boundary);
    assert_eq!(
        SnapshotBoundary::observed(start, "1:2:".to_owned(), "x"),
        Err(SnapshotError::InvalidLsn("x".to_owned()))
    );
}

// ---------------------------------------------------------------------------------------------
// Transport
// ---------------------------------------------------------------------------------------------

fn lsn(value: &str) -> u64 {
    value
        .parse::<Lsn>()
        .unwrap_or_else(|e| panic!("{e:?}"))
        .as_u64()
}

#[test]
fn lsn_conversion_round_trips() -> Result<(), PostgresCdcError> {
    for raw in [0, 1, 0xFFFF_FFFF, 0x16_B374_D848] {
        let veyra = LogSequenceNumber::new(raw);
        assert_eq!(from_pg_lsn(to_pg_lsn(veyra)?)?, veyra);
    }
    Ok(())
}

#[test]
fn transport_events_map_without_semantic_loss() -> Result<(), PostgresCdcError> {
    assert_eq!(
        map_event(TransportEvent::KeepAlive {
            wal_end: lsn("0/10"),
            server_time_micros: 1,
            reply_requested: true,
        })?,
        CdcEvent::KeepAlive {
            wal_end: LogSequenceNumber::new(0x10),
            server_time_micros: 1,
            reply_requested: true,
        }
    );
    assert_eq!(
        map_event(TransportEvent::Begin {
            final_lsn: lsn("0/20"),
            xid: 7,
            commit_time_micros: 2,
        })?,
        CdcEvent::Begin {
            final_lsn: LogSequenceNumber::new(0x20),
            xid: 7,
            commit_time_micros: 2,
        }
    );
    assert_eq!(
        map_event(TransportEvent::XLogData {
            wal_start: lsn("0/18"),
            wal_end: lsn("0/21"),
            server_time_micros: 3,
            data: vec![1, 2],
        })?,
        CdcEvent::XLogData {
            wal_start: LogSequenceNumber::new(0x18),
            wal_end: LogSequenceNumber::new(0x21),
            server_time_micros: 3,
            data: vec![1, 2],
        }
    );
    assert_eq!(
        map_event(TransportEvent::Commit {
            lsn: lsn("0/20"),
            end_lsn: lsn("0/22"),
            commit_time_micros: 2,
        })?,
        CdcEvent::Commit {
            lsn: LogSequenceNumber::new(0x20),
            end_lsn: LogSequenceNumber::new(0x22),
            commit_time_micros: 2,
        }
    );
    assert_eq!(
        map_event(TransportEvent::Message {
            transactional: true,
            lsn: lsn("0/19"),
            prefix: "v".to_owned(),
            content: vec![9],
        })?,
        CdcEvent::Message {
            transactional: true,
            lsn: LogSequenceNumber::new(0x19),
            prefix: "v".to_owned(),
            content: vec![9],
        }
    );
    assert_eq!(
        map_event(TransportEvent::StoppedAt {
            reached: lsn("0/30")
        })?,
        CdcEvent::StoppedAt {
            reached: LogSequenceNumber::new(0x30)
        }
    );
    Ok(())
}

#[test]
fn transport_error_diagnostics_are_stable() {
    let invalid = PostgresCdcError::InvalidTransportLsn("bad".to_owned());
    assert_eq!(
        invalid.message(),
        "invalid replication transport LSN 'bad'"
    );
    let mismatch = PostgresCdcError::ResumeProofSlotMismatch {
        config_slot: "a".to_owned(),
        proof_slot: "b".to_owned(),
    };
    assert!(mismatch.message().contains("differs from resume proof"));
    assert_eq!(
        mismatch.message(),
        "replication config slot 'a' differs from resume proof slot 'b'"
    );
}

#[test]
fn transport_and_library_agree_on_extreme_positions() {
    for raw in [
        0,
        9,
        10,
        0xFFFF_FFFF,
        0x1_0000_0000,
        0xABCD_EF01_2345_6789,
        u64::MAX - 1,
        u64::MAX,
    ] {
        assert_eq!(from_pg_lsn(raw), Ok(LogSequenceNumber::new(raw)));
        assert_eq!(to_pg_lsn(LogSequenceNumber::new(raw)), Ok(raw));
        assert_eq!(
            parse_pg_lsn(&Lsn::from_u64(raw).to_string()),
            Ok(LogSequenceNumber::new(raw))
        );
    }
}
