//! Proof that a logical replication slot can resume from one exact local position.

use super::lsn::LogSequenceNumber;
use super::pg_lsn::position_of;
use super::snapshot::{empty_name, parse_pg_lsn, SnapshotError, SnapshotErrorView};
use crate::text::{decimal, decimal_text, joined, joined3, same_text};
use vstd::prelude::*;
use vstd::string::*;

verus! {

/// Why resuming without a gap cannot be proved.
#[derive(Debug, PartialEq, Eq)]
pub enum ResumeFenceError {
    /// What the database answered in place of a result.
    Postgres(String),
    InvalidLsn(SnapshotError),
    EmptySlotName,
    SlotNotFound(String),
    UnexpectedPlugin(String),
    SlotAlreadyActive(String),
    MissingWalStatus,
    UnsafeWalStatus(String),
    MissingRestartLsn,
    MissingConfirmedFlushLsn,
    RequestedBeforeRestart { requested: LogSequenceNumber, restart: LogSequenceNumber },
    ServerConfirmedAheadOfLocal { requested: LogSequenceNumber, confirmed: LogSequenceNumber },
}

/// Contents of a `ResumeFenceError`.
#[verifier::ext_equal]
pub enum ResumeErrorView {
    Postgres(Seq<char>),
    InvalidLsn(SnapshotErrorView),
    EmptySlotName,
    SlotNotFound(Seq<char>),
    UnexpectedPlugin(Seq<char>),
    SlotAlreadyActive(Seq<char>),
    MissingWalStatus,
    UnsafeWalStatus(Seq<char>),
    MissingRestartLsn,
    MissingConfirmedFlushLsn,
    RequestedBeforeRestart { requested: LogSequenceNumber, restart: LogSequenceNumber },
    ServerConfirmedAheadOfLocal { requested: LogSequenceNumber, confirmed: LogSequenceNumber },
}

impl View for ResumeFenceError {
    type V = ResumeErrorView;

    open spec fn view(&self) -> ResumeErrorView {
        match *self {
            ResumeFenceError::Postgres(text) => ResumeErrorView::Postgres(text@),
            ResumeFenceError::InvalidLsn(error) => ResumeErrorView::InvalidLsn(error@),
            ResumeFenceError::EmptySlotName => ResumeErrorView::EmptySlotName,
            ResumeFenceError::SlotNotFound(slot) => ResumeErrorView::SlotNotFound(slot@),
            ResumeFenceError::UnexpectedPlugin(plugin) => {
                ResumeErrorView::UnexpectedPlugin(plugin@)
            },
            ResumeFenceError::SlotAlreadyActive(slot) => ResumeErrorView::SlotAlreadyActive(slot@),
            ResumeFenceError::MissingWalStatus => ResumeErrorView::MissingWalStatus,
            ResumeFenceError::UnsafeWalStatus(status) => ResumeErrorView::UnsafeWalStatus(status@),
            ResumeFenceError::MissingRestartLsn => ResumeErrorView::MissingRestartLsn,
            ResumeFenceError::MissingConfirmedFlushLsn => ResumeErrorView::MissingConfirmedFlushLsn,
            ResumeFenceError::RequestedBeforeRestart { requested, restart } => {
                ResumeErrorView::RequestedBeforeRestart { requested, restart }
            },
            ResumeFenceError::ServerConfirmedAheadOfLocal { requested, confirmed } => {
                ResumeErrorView::ServerConfirmedAheadOfLocal { requested, confirmed }
            },
        }
    }
}

/// Contents of a `ReplicationStartProof`.
#[verifier::ext_equal]
pub struct StartView {
    pub slot: Seq<char>,
    pub requested_lsn: LogSequenceNumber,
    pub restart_lsn: LogSequenceNumber,
    pub confirmed_flush_lsn: LogSequenceNumber,
}

impl StartView {
    /// Whether the slot still holds all that is needed, and the consumer's progress on the
    /// server is not ahead of the local one.
    pub open spec fn gap_free(self) -> bool {
        self.restart_lsn.0 <= self.requested_lsn.0 && self.confirmed_flush_lsn.0
            <= self.requested_lsn.0
    }
}

/// A checked proof that a slot can resume from one position. It comes from an inspection of the
/// slot only.
#[derive(Debug, PartialEq, Eq)]
pub struct ReplicationStartProof {
    slot: String,
    requested_lsn: LogSequenceNumber,
    restart_lsn: LogSequenceNumber,
    confirmed_flush_lsn: LogSequenceNumber,
}

impl View for ReplicationStartProof {
    type V = StartView;

    closed spec fn view(&self) -> StartView {
        StartView {
            slot: self.slot@,
            requested_lsn: self.requested_lsn,
            restart_lsn: self.restart_lsn,
            confirmed_flush_lsn: self.confirmed_flush_lsn,
        }
    }
}

impl Clone for ReplicationStartProof {
    fn clone(&self) -> (copy: Self)
        ensures
            copy@ == self@,
    {
        proof {
            use_type_invariant(self);
        }
        ReplicationStartProof {
            slot: self.slot.clone(),
            requested_lsn: self.requested_lsn,
            restart_lsn: self.restart_lsn,
            confirmed_flush_lsn: self.confirmed_flush_lsn,
        }
    }
}

impl ReplicationStartProof {
    #[verifier::type_invariant]
    spec fn proved(self) -> bool {
        self@.gap_free()
    }

    /// The slot that this proof is about.
    pub fn slot(&self) -> (slot: &str)
        ensures
            slot@ == self@.slot,
    {
        self.slot.as_str()
    }

    /// The position to resume from, which leaves no gap.
    pub fn requested_lsn(&self) -> (lsn: LogSequenceNumber)
        ensures
            lsn == self@.requested_lsn,
            self@.gap_free(),
    {
        proof {
            use_type_invariant(self);
        }
        self.requested_lsn
    }

    /// The oldest position that the slot still holds.
    pub fn restart_lsn(&self) -> (lsn: LogSequenceNumber)
        ensures
            lsn == self@.restart_lsn,
    {
        self.restart_lsn
    }

    /// The position that the server counts as confirmed by the consumer.
    pub fn confirmed_flush_lsn(&self) -> (lsn: LogSequenceNumber)
        ensures
            lsn == self@.confirmed_flush_lsn,
    {
        self.confirmed_flush_lsn
    }
}

/// Contents of a `SlotRow`.
#[verifier::ext_equal]
pub struct SlotView {
    pub restart_lsn: Option<Seq<char>>,
    pub confirmed_flush_lsn: Option<Seq<char>>,
    pub wal_status: Option<Seq<char>>,
    pub active: bool,
    pub plugin: Seq<char>,
}

/// A text that may be missing.
pub open spec fn optional(text: Option<&str>) -> Option<Seq<char>> {
    match text {
        Some(text) => Some(text@),
        None => None,
    }
}

impl SlotView {
    /// The proof that a slot in this state gives for resuming from a position, or why not.
    pub open spec fn proof_of(self, slot: Seq<char>, requested: LogSequenceNumber) -> Result<
        StartView,
        ResumeErrorView,
    > {
        if self.plugin != "pgoutput"@ {
            Err(ResumeErrorView::UnexpectedPlugin(self.plugin))
        } else if self.active {
            Err(ResumeErrorView::SlotAlreadyActive(slot))
        } else if self.wal_status is None {
            Err(ResumeErrorView::MissingWalStatus)
        } else if self.wal_status->0 != "reserved"@ && self.wal_status->0 != "extended"@ {
            Err(ResumeErrorView::UnsafeWalStatus(self.wal_status->0))
        } else if self.restart_lsn is None {
            Err(ResumeErrorView::MissingRestartLsn)
        } else if self.confirmed_flush_lsn is None {
            Err(ResumeErrorView::MissingConfirmedFlushLsn)
        } else {
            let restart_text = self.restart_lsn->0;
            let confirmed_text = self.confirmed_flush_lsn->0;
            match position_of(restart_text) {
                None => Err(
                    ResumeErrorView::InvalidLsn(SnapshotErrorView::InvalidLsn(restart_text)),
                ),
                Some(restart) => match position_of(confirmed_text) {
                    None => Err(
                        ResumeErrorView::InvalidLsn(SnapshotErrorView::InvalidLsn(confirmed_text)),
                    ),
                    Some(confirmed) => if requested.0 < restart {
                        Err(
                            ResumeErrorView::RequestedBeforeRestart {
                                requested,
                                restart: LogSequenceNumber(restart),
                            },
                        )
                    } else if requested.0 < confirmed {
                        Err(
                            ResumeErrorView::ServerConfirmedAheadOfLocal {
                                requested,
                                confirmed: LogSequenceNumber(confirmed),
                            },
                        )
                    } else {
                        Ok(
                            StartView {
                                slot,
                                requested_lsn: requested,
                                restart_lsn: LogSequenceNumber(restart),
                                confirmed_flush_lsn: LogSequenceNumber(confirmed),
                            },
                        )
                    },
                },
            }
        }
    }
}

/// What the database reports of a logical slot.
#[derive(Clone, Debug, PartialEq, Eq)]
pub struct SlotRow {
    pub restart_lsn: Option<String>,
    pub confirmed_flush_lsn: Option<String>,
    pub wal_status: Option<String>,
    pub active: bool,
    pub plugin: String,
}

/// A text that may be missing.
pub open spec fn optional_owned(text: Option<String>) -> Option<Seq<char>> {
    match text {
        Some(text) => Some(text@),
        None => None,
    }
}

impl View for SlotRow {
    type V = SlotView;

    open spec fn view(&self) -> SlotView {
        SlotView {
            restart_lsn: optional_owned(self.restart_lsn),
            confirmed_flush_lsn: optional_owned(self.confirmed_flush_lsn),
            wal_status: optional_owned(self.wal_status),
            active: self.active,
            plugin: self.plugin@,
        }
    }
}

fn borrowed(text: &Option<String>) -> (out: Option<&str>)
    ensures
        optional(out) == optional_owned(*text),
{
    match text {
        Some(text) => Some(text.as_str()),
        None => None,
    }
}

/// What the row of a slot proves about resuming from a position. `row` is absent where the
/// database knows no such logical slot.
pub open spec fn start_proof(
    slot: Seq<char>,
    requested: LogSequenceNumber,
    row: Option<SlotView>,
) -> Result<StartView, ResumeErrorView> {
    if slot.len() == 0 {
        Err(ResumeErrorView::EmptySlotName)
    } else {
        match row {
            None => Err(ResumeErrorView::SlotNotFound(slot)),
            Some(row) => row.proof_of(slot, requested),
        }
    }
}

/// Refuses a slot without a name, before the database is asked.
pub fn check_resume_slot(slot: &str) -> (result: Result<(), ResumeFenceError>)
    ensures
        match result {
            Ok(_) => slot@.len() > 0,
            Err(error) => slot@.len() == 0 && error@ == ResumeErrorView::EmptySlotName,
        },
{
    if empty_name(slot) {
        Err(ResumeFenceError::EmptySlotName)
    } else {
        Ok(())
    }
}

/// Proves that the server still holds every byte of the log needed to resume from a position,
/// and that its view of the consumer's progress is not ahead of the local one. A doubtful state
/// of the slot is refused.
pub fn prove_replication_start(
    slot: &str,
    requested_lsn: LogSequenceNumber,
    row: Option<SlotRow>,
) -> (result: Result<ReplicationStartProof, ResumeFenceError>)
    ensures
        ({
            let expected = start_proof(
                slot@,
                requested_lsn,
                match row {
                    Some(row) => Some(row@),
                    None => None,
                },
            );
            match result {
                Ok(start) => expected == Ok::<StartView, ResumeErrorView>(start@),
                Err(error) => expected == Err::<StartView, ResumeErrorView>(error@),
            }
        }),
{
    check_resume_slot(slot)?;
    match row {
        None => Err(ResumeFenceError::SlotNotFound(slot.to_owned())),
        Some(row) => validate_resume_state(
            slot,
            requested_lsn,
            borrowed(&row.restart_lsn),
            borrowed(&row.confirmed_flush_lsn),
            borrowed(&row.wal_status),
            row.active,
            row.plugin.as_str(),
        ),
    }
}

/// What a state of a slot proves about resuming from a position.
pub fn validate_resume_state(
    slot: &str,
    requested_lsn: LogSequenceNumber,
    restart_text: Option<&str>,
    confirmed_text: Option<&str>,
    wal_status: Option<&str>,
    active: bool,
    plugin: &str,
) -> (result: Result<ReplicationStartProof, ResumeFenceError>)
    ensures
        ({
            let state = SlotView {
                restart_lsn: optional(restart_text),
                confirmed_flush_lsn: optional(confirmed_text),
                wal_status: optional(wal_status),
                active,
                plugin: plugin@,
            };
            match result {
                Ok(start) => state.proof_of(slot@, requested_lsn) == Ok::<
                    StartView,
                    ResumeErrorView,
                >(start@),
                Err(error) => state.proof_of(slot@, requested_lsn) == Err::<
                    StartView,
                    ResumeErrorView,
                >(error@),
            }
        }),
{
    if !same_text(plugin, "pgoutput") {
        return Err(ResumeFenceError::UnexpectedPlugin(plugin.to_owned()));
    }
    if active {
        return Err(ResumeFenceError::SlotAlreadyActive(slot.to_owned()));
    }
    match wal_status {
        Some(status) => {
            if !same_text(status, "reserved") && !same_text(status, "extended") {
                return Err(ResumeFenceError::UnsafeWalStatus(status.to_owned()));
            }
        },
        None => return Err(ResumeFenceError::MissingWalStatus),
    }
    let restart_text = match restart_text {
        Some(text) => text,
        None => return Err(ResumeFenceError::MissingRestartLsn),
    };
    let confirmed_text = match confirmed_text {
        Some(text) => text,
        None => return Err(ResumeFenceError::MissingConfirmedFlushLsn),
    };
    let restart_lsn = match parse_pg_lsn(restart_text) {
        Ok(lsn) => lsn,
        Err(error) => return Err(ResumeFenceError::InvalidLsn(error)),
    };
    let confirmed_flush_lsn = match parse_pg_lsn(confirmed_text) {
        Ok(lsn) => lsn,
        Err(error) => return Err(ResumeFenceError::InvalidLsn(error)),
    };
    if requested_lsn.0 < restart_lsn.0 {
        return Err(
            ResumeFenceError::RequestedBeforeRestart {
                requested: requested_lsn,
                restart: restart_lsn,
            },
        );
    }
    if requested_lsn.0 < confirmed_flush_lsn.0 {
        return Err(
            ResumeFenceError::ServerConfirmedAheadOfLocal {
                requested: requested_lsn,
                confirmed: confirmed_flush_lsn,
            },
        );
    }
    Ok(
        ReplicationStartProof {
            slot: slot.to_owned(),
            requested_lsn,
            restart_lsn,
            confirmed_flush_lsn,
        },
    )
}

/// A proof is given for the requested slot and position only, and only where the slot is an
/// inactive `pgoutput` slot whose log is held back, and neither its restart position nor its
/// confirmed position is ahead of the requested one.
pub proof fn law_start_proof_leaves_no_gap(
    slot: Seq<char>,
    requested: LogSequenceNumber,
    row: Option<SlotView>,
)
    ensures
        start_proof(slot, requested, row) matches Ok(start) ==> {
            &&& start.slot == slot
            &&& start.requested_lsn == requested
            &&& start.gap_free()
            &&& row is Some
            &&& !row->0.active
            &&& row->0.plugin == "pgoutput"@
            &&& row->0.wal_status == Some("reserved"@) || row->0.wal_status == Some("extended"@)
        },
{
}

/// A proof for one position is a proof for every later one, at the same state of the slot.
pub proof fn law_later_start_is_proved_too(
    slot: Seq<char>,
    requested: LogSequenceNumber,
    later: LogSequenceNumber,
    row: Option<SlotView>,
)
    requires
        requested.0 <= later.0,
        start_proof(slot, requested, row) is Ok,
    ensures
        start_proof(slot, later, row) == Ok::<StartView, ResumeErrorView>(
            StartView { requested_lsn: later, ..start_proof(slot, requested, row)->Ok_0 },
        ),
{
}

impl ResumeErrorView {
    /// The diagnostic text of this error.
    pub open spec fn message(self) -> Seq<char> {
        match self {
            ResumeErrorView::Postgres(text) => "PostgreSQL resume-fence error: "@ + text,
            ResumeErrorView::InvalidLsn(error) => "invalid slot LSN: "@ + error.message(),
            ResumeErrorView::EmptySlotName => "logical replication slot name is empty"@,
            ResumeErrorView::SlotNotFound(slot) => {
                "logical replication slot '"@ + slot + "' was not found"@
            },
            ResumeErrorView::UnexpectedPlugin(plugin) => {
                "logical slot uses unsupported plugin '"@ + plugin + "'"@
            },
            ResumeErrorView::SlotAlreadyActive(slot) => {
                "logical replication slot '"@ + slot + "' is already active"@
            },
            ResumeErrorView::MissingWalStatus => {
                "logical replication slot has no WAL retention status"@
            },
            ResumeErrorView::UnsafeWalStatus(status) => {
                "logical replication slot WAL status '"@ + status + "' cannot prove retained WAL"@
            },
            ResumeErrorView::MissingRestartLsn => "logical replication slot has no restart LSN"@,
            ResumeErrorView::MissingConfirmedFlushLsn => {
                "logical replication slot has no confirmed flush LSN"@
            },
            ResumeErrorView::RequestedBeforeRestart { requested, restart } => {
                "CDC_GAP: requested LSN "@ + decimal(requested.0 as int)
                    + " precedes slot restart LSN "@ + decimal(restart.0 as int)
            },
            ResumeErrorView::ServerConfirmedAheadOfLocal { requested, confirmed } => {
                "CDC_GAP: server confirmed LSN "@ + decimal(confirmed.0 as int)
                    + " is ahead of local resume LSN "@ + decimal(requested.0 as int)
            },
        }
    }
}

impl ResumeFenceError {
    /// The diagnostic text of this error.
    pub fn message(&self) -> (text: String)
        ensures
            text@ == self@.message(),
    {
        match self {
            ResumeFenceError::Postgres(text) => {
                joined("PostgreSQL resume-fence error: ", text.as_str())
            },
            ResumeFenceError::InvalidLsn(error) => {
                joined("invalid slot LSN: ", error.message().as_str())
            },
            ResumeFenceError::EmptySlotName => "logical replication slot name is empty".to_owned(),
            ResumeFenceError::SlotNotFound(slot) => {
                joined3("logical replication slot '", slot.as_str(), "' was not found")
            },
            ResumeFenceError::UnexpectedPlugin(plugin) => {
                joined3("logical slot uses unsupported plugin '", plugin.as_str(), "'")
            },
            ResumeFenceError::SlotAlreadyActive(slot) => {
                joined3("logical replication slot '", slot.as_str(), "' is already active")
            },
            ResumeFenceError::MissingWalStatus => {
                "logical replication slot has no WAL retention status".to_owned()
            },
            ResumeFenceError::UnsafeWalStatus(status) => {
                joined3(
                    "logical replication slot WAL status '",
                    status.as_str(),
                    "' cannot prove retained WAL",
                )
            },
            ResumeFenceError::MissingRestartLsn => {
                "logical replication slot has no restart LSN".to_owned()
            },
            ResumeFenceError::MissingConfirmedFlushLsn => {
                "logical replication slot has no confirmed flush LSN".to_owned()
            },
            ResumeFenceError::RequestedBeforeRestart { requested, restart } => {
                let mut text = joined(
                    "CDC_GAP: requested LSN ",
                    decimal_text(requested.0).as_str(),
                );
                text.append(" precedes slot restart LSN ");
                text.append(decimal_text(restart.0).as_str());
                text
            },
            ResumeFenceError::ServerConfirmedAheadOfLocal { requested, confirmed } => {
                let mut text = joined(
                    "CDC_GAP: server confirmed LSN ",
                    decimal_text(confirmed.0).as_str(),
                );
                text.append(" is ahead of local resume LSN ");
                text.append(decimal_text(requested.0).as_str());
                text
            },
        }
    }
}

/// A proof is owed for every named slot that the database knows, that is an inactive `pgoutput`
/// slot whose log is held back, and whose two positions can be read and are not ahead of the
/// requested one. It names the positions that were read.
pub proof fn law_sound_slot_is_proved(
    slot: Seq<char>,
    requested: LogSequenceNumber,
    row: SlotView,
    restart: u64,
    confirmed: u64,
)
    requires
        slot.len() > 0,
        row.plugin == "pgoutput"@,
        !row.active,
        row.wal_status == Some("reserved"@) || row.wal_status == Some("extended"@),
        row.restart_lsn is Some,
        row.confirmed_flush_lsn is Some,
        position_of(row.restart_lsn->0) == Some(restart),
        position_of(row.confirmed_flush_lsn->0) == Some(confirmed),
    ensures
        restart <= requested.0 && confirmed <= requested.0 ==> start_proof(
            slot,
            requested,
            Some(row),
        ) == Ok::<StartView, ResumeErrorView>(
            StartView {
                slot,
                requested_lsn: requested,
                restart_lsn: LogSequenceNumber(restart),
                confirmed_flush_lsn: LogSequenceNumber(confirmed),
            },
        ),
        requested.0 < restart || requested.0 < confirmed ==> start_proof(
            slot,
            requested,
            Some(row),
        ) is Err,
{
}

/// Each refusal is true of the slot that was inspected.
pub proof fn law_refused_slot_is_refused_truly(
    slot: Seq<char>,
    requested: LogSequenceNumber,
    row: Option<SlotView>,
)
    ensures
        start_proof(slot, requested, row) matches Err(error) ==> match error {
            ResumeErrorView::EmptySlotName => slot.len() == 0,
            ResumeErrorView::SlotNotFound(name) => name == slot && row is None,
            ResumeErrorView::UnexpectedPlugin(plugin) => row matches Some(found) && plugin
                == found.plugin && plugin != "pgoutput"@,
            ResumeErrorView::SlotAlreadyActive(name) => row matches Some(found) && name == slot
                && found.active,
            ResumeErrorView::MissingWalStatus => row matches Some(found) && found.wal_status
                is None,
            ResumeErrorView::UnsafeWalStatus(status) => row matches Some(found)
                && found.wal_status == Some(status) && status != "reserved"@ && status
                != "extended"@,
            ResumeErrorView::MissingRestartLsn => row matches Some(found) && found.restart_lsn
                is None,
            ResumeErrorView::MissingConfirmedFlushLsn => row matches Some(found)
                && found.confirmed_flush_lsn is None,
            ResumeErrorView::InvalidLsn(SnapshotErrorView::InvalidLsn(text)) => {
                &&& row matches Some(found)
                &&& position_of(text) is None
                &&& found.restart_lsn == Some(text) || found.confirmed_flush_lsn == Some(text)
            },
            ResumeErrorView::RequestedBeforeRestart { requested: asked, restart } => {
                &&& asked == requested
                &&& asked.0 < restart.0
                &&& row matches Some(found)
                &&& found.restart_lsn matches Some(text)
                &&& position_of(text) == Some(restart.0)
            },
            ResumeErrorView::ServerConfirmedAheadOfLocal { requested: asked, confirmed } => {
                &&& asked == requested
                &&& asked.0 < confirmed.0
                &&& row matches Some(found)
                &&& found.confirmed_flush_lsn matches Some(text)
                &&& position_of(text) == Some(confirmed.0)
            },
            _ => false,
        },
{
}

} // verus!
