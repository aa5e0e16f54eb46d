//! Deterministic semantic traveler and party model.
//!
//! Relationships describe people. Rooming intents describe accommodation. The two are independent
//! on purpose: being spouses does not mean having to share a room.

use crate::ordered::{
    ascending, holds, law_placed_keeps_order_and_items, placed, Keyed, OrderedList,
};
use crate::text::{
    bracketed, bracketed_text, decimal, decimal_text, joined, numbered_text, signed_decimal_text,
};
use std::collections::BTreeMap;
use vstd::arithmetic::div_mod::{lemma_mod_mod, lemma_mod_multiples_vanish};
use vstd::prelude::*;
use vstd::string::*;

verus! {

/// Most travelers of a party.
pub const MAX_TRAVELERS: usize = 64;

/// Most relationships of a party.
pub const MAX_RELATIONSHIPS: usize = 512;

/// Most groups of a party.
pub const MAX_GROUPS: usize = 128;

/// Most group memberships of a party.
pub const MAX_GROUP_MEMBERSHIPS: usize = 1_024;

/// Most guardian relationships of a party.
pub const MAX_GUARDIAN_RELATIONSHIPS: usize = 256;

/// Most rooming intents of a party.
pub const MAX_ROOMING_EDGES: usize = 512;

/// Highest age that is believed.
pub const MAX_AGE: u16 = 130;

/// Number of a traveler inside one party.
#[derive(Clone, Copy, Debug, PartialEq, Eq, PartialOrd, Ord, Structural)]
pub struct TravelerId(pub u32);

impl TravelerId {
    /// The traveler with this number.
    pub fn new(value: u32) -> (id: Self)
        ensures
            id.0 == value,
    {
        TravelerId(value)
    }

    /// The number.
    pub fn get(self) -> (value: u32)
        ensures
            value == self.0,
    {
        self.0
    }
}

/// Number of a group inside one party.
#[derive(Clone, Copy, Debug, PartialEq, Eq, PartialOrd, Ord, Structural)]
pub struct GroupId(pub u32);

impl GroupId {
    /// The group with this number.
    pub fn new(value: u32) -> (id: Self)
        ensures
            id.0 == value,
    {
        GroupId(value)
    }

    /// The number.
    pub fn get(self) -> (value: u32)
        ensures
            value == self.0,
    {
        self.0
    }
}

/// Year, month and day.
pub struct DateView {
    pub year: int,
    pub month: int,
    pub day: int,
}

/// Whether a year has a leap day.
pub open spec fn leap_year(year: int) -> bool {
    year % 4 == 0 && (year % 100 != 0 || year % 400 == 0)
}

/// The number of days of a month.
pub open spec fn month_length(year: int, month: int) -> int {
    if month == 2 {
        if leap_year(year) {
            29
        } else {
            28
        }
    } else if month == 4 || month == 6 || month == 9 || month == 11 {
        30
    } else if 1 <= month <= 12 {
        31
    } else {
        0
    }
}

/// Why a date does not exist, if so.
pub open spec fn date_error(year: i32, month: u8, day: u8) -> Option<PartyError> {
    if !(1 <= month <= 12) {
        Some(PartyError::InvalidMonth(month))
    } else if day == 0 || day > month_length(year as int, month as int) {
        Some(PartyError::InvalidDay { year, month, day })
    } else {
        None
    }
}

impl DateView {
    /// Whether this day lies before another one of any year.
    pub open spec fn earlier_in_year(self, other: DateView) -> bool {
        self.month < other.month || self.month == other.month && self.day < other.day
    }

    /// Whether this date lies before another one.
    pub open spec fn before(self, other: DateView) -> bool {
        self.year < other.year || self.year == other.year && self.earlier_in_year(other)
    }

    /// The number of birthdays up to and on `date` of a person born on this date.
    pub open spec fn full_years(self, date: DateView) -> int {
        date.year - self.year - if date.earlier_in_year(self) {
            1int
        } else {
            0
        }
    }

    /// The age on `date` of a person born on this date.
    pub open spec fn age(self, date: DateView) -> Result<u16, PartyError> {
        if date.before(self) {
            Err(PartyError::CheckInBeforeBirth)
        } else if self.full_years(date) > MAX_AGE {
            Err(PartyError::AgeOutOfRange)
        } else {
            Ok(self.full_years(date) as u16)
        }
    }
}

/// Gregorian civil date. No time zone is involved in ages.
#[derive(Clone, Copy, Debug, PartialEq, Eq, PartialOrd, Ord, Structural)]
pub struct CivilDate {
    year: i32,
    month: u8,
    day: u8,
}

impl View for CivilDate {
    type V = DateView;

    closed spec fn view(&self) -> DateView {
        DateView { year: self.year as int, month: self.month as int, day: self.day as int }
    }
}

impl CivilDate {
    /// A date that exists.
    pub fn new(year: i32, month: u8, day: u8) -> (result: Result<Self, PartyError>)
        ensures
            match result {
                Ok(date) => date_error(year, month, day) is None && date@ == (DateView {
                    year: year as int,
                    month: month as int,
                    day: day as int,
                }),
                Err(error) => date_error(year, month, day) == Some(error),
            },
    {
        if month < 1 || month > 12 {
            return Err(PartyError::InvalidMonth(month));
        }
        if day == 0 || day > days_in_month(year, month) {
            return Err(PartyError::InvalidDay { year, month, day });
        }
        Ok(CivilDate { year, month, day })
    }

    /// The year.
    pub fn year(self) -> (year: i32)
        ensures
            year == self@.year,
    {
        self.year
    }

    /// The month, counted from 1.
    pub fn month(self) -> (month: u8)
        ensures
            month == self@.month,
    {
        self.month
    }

    /// The day, counted from 1.
    pub fn day(self) -> (day: u8)
        ensures
            day == self@.day,
    {
        self.day
    }

    /// The age on `date` of a person born on this date.
    pub fn age_on(self, date: Self) -> (result: Result<u16, PartyError>)
        ensures
            result == self@.age(date@),
    {
        let earlier_in_year = date.month < self.month || date.month == self.month && date.day
            < self.day;
        if date.year < self.year || date.year == self.year && earlier_in_year {
            return Err(PartyError::CheckInBeforeBirth);
        }
        let mut years: i64 = date.year as i64 - self.year as i64;
        if earlier_in_year {
            years = years - 1;
        }
        if years > MAX_AGE as i64 {
            return Err(PartyError::AgeOutOfRange);
        }
        Ok(years as u16)
    }
}

fn is_leap_year(year: i32) -> (leap: bool)
    ensures
        leap == leap_year(year as int),
{
    // A whole number of 400-year cycles moves the year to where division truncates downwards.
    let shifted: i64 = year as i64 + 2_147_484_000;
    let year_of_cycle: i64 = shifted % 400;
    proof {
        lemma_mod_multiples_vanish(5_368_710, year as int, 400);
        lemma_mod_mod(year as int, 4, 100);
        lemma_mod_mod(year as int, 100, 4);
    }
    year_of_cycle % 4 == 0 && (year_of_cycle % 100 != 0 || year_of_cycle == 0)
}

fn days_in_month(year: i32, month: u8) -> (days: u8)
    ensures
        days == month_length(year as int, month as int),
{
    match month {
        1 | 3 | 5 | 7 | 8 | 10 | 12 => 31,
        4 | 6 | 9 | 11 => 30,
        2 => if is_leap_year(year) {
            29
        } else {
            28
        },
        _ => 0,
    }
}

/// Every year brings one birthday: the age on it is the difference of the years, the age never
/// falls as time passes, and it rises by one at most within a year.
pub proof fn law_age_changes_only_on_birthdays(birth: DateView, date: DateView, later: DateView)
    requires
        !later.before(date),
    ensures
        birth.full_years(date) <= birth.full_years(later),
        date.month == birth.month && date.day == birth.day ==> birth.full_years(date) == date.year
            - birth.year,
        date.year == later.year && date.earlier_in_year(birth) == later.earlier_in_year(birth)
            ==> birth.full_years(date) == birth.full_years(later),
        date.year == later.year ==> birth.full_years(later) <= birth.full_years(date) + 1,
{
}

/// How the age of a traveler is known.
#[derive(Clone, Copy, Debug, PartialEq, Eq)]
pub enum AgeEvidence {
    BirthDate(CivilDate),
    /// An age known to hold on the requested check-in date.
    AgeAtCheckIn(u16),
}

impl AgeEvidence {
    /// The age at check-in.
    pub open spec fn spec_age_at(self, check_in: DateView) -> Result<u16, PartyError> {
        match self {
            AgeEvidence::BirthDate(birth_date) => birth_date@.age(check_in),
            AgeEvidence::AgeAtCheckIn(age) => if age <= MAX_AGE {
                Ok(age)
            } else {
                Err(PartyError::AgeOutOfRange)
            },
        }
    }

    /// The age at check-in.
    pub fn age_at(self, check_in: CivilDate) -> (result: Result<u16, PartyError>)
        ensures
            result == self.spec_age_at(check_in@),
    {
        match self {
            AgeEvidence::BirthDate(birth_date) => birth_date.age_on(check_in),
            AgeEvidence::AgeAtCheckIn(age) => {
                if age <= MAX_AGE {
                    Ok(age)
                } else {
                    Err(PartyError::AgeOutOfRange)
                }
            },
        }
    }
}

/// One traveler.
#[derive(Clone, Copy, Debug, PartialEq, Eq)]
pub struct Traveler {
    pub id: TravelerId,
    pub age: AgeEvidence,
    pub accessibility_required: bool,
}

impl Traveler {
    /// A traveler from its parts.
    pub fn new(id: TravelerId, age: AgeEvidence, accessibility_required: bool) -> (traveler: Self)
        ensures
            traveler == (Traveler { id, age, accessibility_required }),
    {
        Traveler { id, age, accessibility_required }
    }

    /// The number of the traveler.
    pub fn id(&self) -> (id: TravelerId)
        ensures
            id == self.id,
    {
        self.id
    }

    /// How the age is known.
    pub fn age_evidence(&self) -> (age: AgeEvidence)
        ensures
            age == self.age,
    {
        self.age
    }

    /// Whether the traveler needs an accessible room.
    pub fn accessibility_required(&self) -> (required: bool)
        ensures
            required == self.accessibility_required,
    {
        self.accessibility_required
    }
}

/// How two travelers are related.
#[derive(Clone, Copy, Debug, PartialEq, Eq, PartialOrd, Ord, Structural)]
pub enum RelationshipKind {
    Spouse,
    Partner,
    Parent,
    Child,
    Grandparent,
    Sibling,
    Relative,
    Companion,
    Caregiver,
}

impl RelationshipKind {
    /// The place of the kind among all kinds.
    pub open spec fn spec_rank(self) -> u8 {
        match self {
            RelationshipKind::Spouse => 0,
            RelationshipKind::Partner => 1,
            RelationshipKind::Parent => 2,
            RelationshipKind::Child => 3,
            RelationshipKind::Grandparent => 4,
            RelationshipKind::Sibling => 5,
            RelationshipKind::Relative => 6,
            RelationshipKind::Companion => 7,
            RelationshipKind::Caregiver => 8,
        }
    }

    fn rank(self) -> (rank: u8)
        ensures
            rank == self.spec_rank(),
    {
        match self {
            RelationshipKind::Spouse => 0,
            RelationshipKind::Partner => 1,
            RelationshipKind::Parent => 2,
            RelationshipKind::Child => 3,
            RelationshipKind::Grandparent => 4,
            RelationshipKind::Sibling => 5,
            RelationshipKind::Relative => 6,
            RelationshipKind::Companion => 7,
            RelationshipKind::Caregiver => 8,
        }
    }
}

/// One traveler's relationship to another.
#[derive(Clone, Copy, Debug, PartialEq, Eq, PartialOrd, Ord, Structural)]
pub struct Relationship {
    pub from: TravelerId,
    pub to: TravelerId,
    pub kind: RelationshipKind,
}

/// One traveler's guardianship of another.
#[derive(Clone, Copy, Debug, PartialEq, Eq, PartialOrd, Ord, Structural)]
pub struct GuardianRelationship {
    pub guardian: TravelerId,
    pub dependent: TravelerId,
    pub valid_for_rooming: bool,
}

/// How binding an intent is.
#[derive(Clone, Copy, Debug, PartialEq, Eq, PartialOrd, Ord, Structural)]
pub enum ConstraintStrength {
    Must,
    Prefer,
    Avoid,
}

impl ConstraintStrength {
    /// The place of the strength among all strengths.
    pub open spec fn spec_rank(self) -> u8 {
        match self {
            ConstraintStrength::Must => 0,
            ConstraintStrength::Prefer => 1,
            ConstraintStrength::Avoid => 2,
        }
    }

    fn rank(self) -> (rank: u8)
        ensures
            rank == self.spec_rank(),
    {
        match self {
            ConstraintStrength::Must => 0,
            ConstraintStrength::Prefer => 1,
            ConstraintStrength::Avoid => 2,
        }
    }
}

/// How two travelers want to be roomed.
#[derive(Clone, Copy, Debug, PartialEq, Eq, PartialOrd, Ord, Structural)]
pub enum RoomingRelation {
    SameRoom,
    SeparateRoom,
    Near,
    ConnectedRooms,
    AdjacentRooms,
    SameFloor,
    SameBuilding,
}

impl RoomingRelation {
    /// The place of the relation among all relations.
    pub open spec fn spec_rank(self) -> u8 {
        match self {
            RoomingRelation::SameRoom => 0,
            RoomingRelation::SeparateRoom => 1,
            RoomingRelation::Near => 2,
            RoomingRelation::ConnectedRooms => 3,
            RoomingRelation::AdjacentRooms => 4,
            RoomingRelation::SameFloor => 5,
            RoomingRelation::SameBuilding => 6,
        }
    }

    fn rank(self) -> (rank: u8)
        ensures
            rank == self.spec_rank(),
    {
        match self {
            RoomingRelation::SameRoom => 0,
            RoomingRelation::SeparateRoom => 1,
            RoomingRelation::Near => 2,
            RoomingRelation::ConnectedRooms => 3,
            RoomingRelation::AdjacentRooms => 4,
            RoomingRelation::SameFloor => 5,
            RoomingRelation::SameBuilding => 6,
        }
    }
}

/// A wish about the rooms of two travelers.
#[derive(Clone, Copy, Debug, PartialEq, Eq, PartialOrd, Ord, Structural)]
pub struct RoomingIntent {
    pub left: TravelerId,
    pub right: TravelerId,
    pub strength: ConstraintStrength,
    pub relation: RoomingRelation,
}

impl Keyed for TravelerId {
    open spec fn spec_key(self) -> u128 {
        self.0 as u128
    }

    fn key(&self) -> u128 {
        self.0 as u128
    }
}

impl Keyed for Traveler {
    open spec fn spec_key(self) -> u128 {
        self.id.0 as u128
    }

    fn key(&self) -> u128 {
        self.id.0 as u128
    }
}

impl Keyed for Relationship {
    open spec fn spec_key(self) -> u128 {
        (self.from.0 * 0x100_0000_0000 + self.to.0 * 0x100 + self.kind.spec_rank()) as u128
    }

    fn key(&self) -> u128 {
        self.from.0 as u128 * 0x100_0000_0000 + self.to.0 as u128 * 0x100 + self.kind.rank() as u128
    }
}

impl Keyed for GuardianRelationship {
    open spec fn spec_key(self) -> u128 {
        (self.guardian.0 * 0x100_0000_0000 + self.dependent.0 * 0x100 + if self.valid_for_rooming {
            1int
        } else {
            0
        }) as u128
    }

    fn key(&self) -> u128 {
        let flag: u128 = if self.valid_for_rooming {
            1
        } else {
            0
        };
        self.guardian.0 as u128 * 0x100_0000_0000 + self.dependent.0 as u128 * 0x100 + flag
    }
}

impl Keyed for RoomingIntent {
    open spec fn spec_key(self) -> u128 {
        (self.left.0 * 0x1_0000_0000_0000 + self.right.0 * 0x1_0000 + self.strength.spec_rank()
            * 0x100 + self.relation.spec_rank()) as u128
    }

    fn key(&self) -> u128 {
        self.left.0 as u128 * 0x1_0000_0000_0000 + self.right.0 as u128 * 0x1_0000
            + self.strength.rank() as u128 * 0x100 + self.relation.rank() as u128
    }
}

/// Relationships, guardianships and rooming intents are told apart by their keys.
pub proof fn law_edges_are_told_apart(
    relationship: Relationship,
    other_relationship: Relationship,
    guardian: GuardianRelationship,
    other_guardian: GuardianRelationship,
    intent: RoomingIntent,
    other_intent: RoomingIntent,
)
    ensures
        relationship.spec_key() == other_relationship.spec_key() ==> relationship
            == other_relationship,
        guardian.spec_key() == other_guardian.spec_key() ==> guardian == other_guardian,
        intent.spec_key() == other_intent.spec_key() ==> intent == other_intent,
{
}

/// Rooming intents are ordered by the left traveler, then the right one, then the strength, then
/// the relation.
pub proof fn law_rooming_intents_are_ordered_field_by_field(
    intent: RoomingIntent,
    other: RoomingIntent,
)
    ensures
        intent.spec_key() < other.spec_key() <==> {
            ||| intent.left.0 < other.left.0
            ||| intent.left == other.left && intent.right.0 < other.right.0
            ||| intent.left == other.left && intent.right == other.right
                && intent.strength.spec_rank() < other.strength.spec_rank()
            ||| intent.left == other.left && intent.right == other.right && intent.strength
                == other.strength && intent.relation.spec_rank() < other.relation.spec_rank()
        },
{
}

/// Whether two binding intents about the same two travelers exclude each other.
pub open spec fn contradicts(edge: RoomingIntent, candidate: RoomingIntent) -> bool {
    &&& edge.strength == ConstraintStrength::Must
    &&& candidate.strength == ConstraintStrength::Must
    &&& edge.left == candidate.left && edge.right == candidate.right || edge.left
        == candidate.right && edge.right == candidate.left
    &&& edge.relation == RoomingRelation::SameRoom && candidate.relation
        == RoomingRelation::SeparateRoom || edge.relation == RoomingRelation::SeparateRoom
        && candidate.relation == RoomingRelation::SameRoom
}

/// Whether some intent of `rooming` and `candidate` exclude each other.
pub open spec fn contradicted(rooming: Seq<RoomingIntent>, candidate: RoomingIntent) -> bool {
    exists|i: int| 0 <= i < rooming.len() && contradicts(#[trigger] rooming[i], candidate)
}

/// Contents of a party, each list in ascending order.
#[verifier::ext_equal]
pub struct PartyView {
    pub travelers: Seq<Traveler>,
    pub relationships: Seq<Relationship>,
    pub groups: Map<u32, Seq<TravelerId>>,
    pub guardians: Seq<GuardianRelationship>,
    pub rooming: Seq<RoomingIntent>,
}

impl PartyView {
    /// The party without anyone.
    pub open spec fn empty() -> PartyView {
        PartyView {
            travelers: seq![],
            relationships: seq![],
            groups: Map::empty(),
            guardians: seq![],
            rooming: seq![],
        }
    }

    /// Whether a traveler belongs to the party.
    pub open spec fn knows(self, id: TravelerId) -> bool {
        holds(self.travelers, id.0 as u128)
    }

    /// Whether an edge joins two different travelers of the party.
    pub open spec fn joins(self, left: TravelerId, right: TravelerId) -> bool {
        self.knows(left) && self.knows(right) && left != right
    }

    /// Why two travelers cannot be joined, if so.
    pub open spec fn pair_error(self, left: TravelerId, right: TravelerId) -> Option<PartyError> {
        if !self.knows(left) {
            Some(PartyError::UnknownTraveler(left))
        } else if !self.knows(right) {
            Some(PartyError::UnknownTraveler(right))
        } else if left == right {
            Some(PartyError::SelfEdge(left))
        } else {
            None
        }
    }

    /// What holds of every party: the lists and the groups are ordered, the lists are bounded,
    /// every edge and every group speaks of travelers of the party, and no two binding intents
    /// exclude each other.
    pub open spec fn valid(self) -> bool {
        &&& ascending(self.travelers)
        &&& self.travelers.len() <= MAX_TRAVELERS
        &&& ascending(self.relationships)
        &&& self.relationships.len() <= MAX_RELATIONSHIPS
        &&& forall|i: int|
            0 <= i < self.relationships.len() ==> self.joins(
                (#[trigger] self.relationships[i]).from,
                self.relationships[i].to,
            )
        &&& self.groups.dom().finite()
        &&& self.groups.len() <= MAX_GROUPS
        &&& forall|group: u32|
            self.groups.contains_key(group) ==> ascending(#[trigger] self.groups[group])
        &&& forall|group: u32, i: int|
            self.groups.contains_key(group) && 0 <= i < self.groups[group].len() ==> self.knows(
                #[trigger] self.groups[group][i],
            )
        &&& ascending(self.guardians)
        &&& self.guardians.len() <= MAX_GUARDIAN_RELATIONSHIPS
        &&& forall|i: int|
            0 <= i < self.guardians.len() ==> self.joins(
                (#[trigger] self.guardians[i]).guardian,
                self.guardians[i].dependent,
            )
        &&& ascending(self.rooming)
        &&& self.rooming.len() <= MAX_ROOMING_EDGES
        &&& forall|i: int|
            0 <= i < self.rooming.len() ==> self.joins(
                (#[trigger] self.rooming[i]).left,
                self.rooming[i].right,
            )
        &&& forall|i: int, j: int|
            0 <= i < self.rooming.len() && 0 <= j < self.rooming.len() ==> !contradicts(
                #[trigger] self.rooming[i],
                #[trigger] self.rooming[j],
            )
    }

    /// The ages at check-in, or what is wrong with the first one that cannot be told.
    pub open spec fn ages(self, check_in: DateView) -> Result<
        Seq<(TravelerId, u16)>,
        PartyError,
    > {
        ages_of(self.travelers, check_in)
    }
}

/// The ages of some travelers at check-in, or what is wrong with the first one that cannot be
/// told.
pub open spec fn ages_of(travelers: Seq<Traveler>, check_in: DateView) -> Result<
    Seq<(TravelerId, u16)>,
    PartyError,
>
    decreases travelers.len(),
{
    if travelers.len() == 0 {
        Ok(seq![])
    } else {
        match travelers[0].age.spec_age_at(check_in) {
            Err(error) => Err(error),
            Ok(age) => preceded(
                seq![(travelers[0].id, age)],
                ages_of(travelers.drop_first(), check_in),
            ),
        }
    }
}

/// `rest` behind `done`, where there is a rest.
pub open spec fn preceded(
    done: Seq<(TravelerId, u16)>,
    rest: Result<Seq<(TravelerId, u16)>, PartyError>,
) -> Result<Seq<(TravelerId, u16)>, PartyError> {
    match rest {
        Ok(rest) => Ok(done + rest),
        Err(error) => Err(error),
    }
}

/// State of a `PartyBuilder`.
#[verifier::ext_equal]
pub struct PartyBuilderView {
    pub party: PartyView,
    pub memberships: nat,
}

impl PartyBuilderView {
    /// A builder that was told nothing.
    pub open spec fn empty() -> PartyBuilderView {
        PartyBuilderView { party: PartyView::empty(), memberships: 0 }
    }

    /// What holds of every builder.
    pub open spec fn valid(self) -> bool {
        self.party.valid() && self.memberships <= MAX_GROUP_MEMBERSHIPS
    }

    /// The state after a traveler. One who is known already replaces the known one and is
    /// reported.
    pub open spec fn with_traveler(self, traveler: Traveler) -> (
        PartyBuilderView,
        Result<(), PartyError>,
    ) {
        let known = self.party.knows(traveler.id);
        if self.party.travelers.len() >= MAX_TRAVELERS && !known {
            (self, Err(PartyError::TooManyTravelers))
        } else {
            let next = PartyBuilderView {
                party: PartyView {
                    travelers: placed(self.party.travelers, traveler),
                    ..self.party
                },
                ..self
            };
            if known {
                (next, Err(PartyError::DuplicateTraveler))
            } else {
                (next, Ok(()))
            }
        }
    }

    /// The state after a relationship.
    pub open spec fn with_relationship(self, relationship: Relationship) -> (
        PartyBuilderView,
        Result<(), PartyError>,
    ) {
        match self.party.pair_error(relationship.from, relationship.to) {
            Some(error) => (self, Err(error)),
            None => if self.party.relationships.len() >= MAX_RELATIONSHIPS && !holds(
                self.party.relationships,
                relationship.spec_key(),
            ) {
                (self, Err(PartyError::TooManyRelationships))
            } else {
                (
                    PartyBuilderView {
                        party: PartyView {
                            relationships: placed(self.party.relationships, relationship),
                            ..self.party
                        },
                        ..self
                    },
                    Ok(()),
                )
            },
        }
    }

    /// The members of a group so far.
    pub open spec fn members(self, group: GroupId) -> Seq<TravelerId> {
        if self.party.groups.contains_key(group.0) {
            self.party.groups[group.0]
        } else {
            seq![]
        }
    }

    /// The same state with other members of one group.
    pub open spec fn with_members(
        self,
        group: GroupId,
        members: Seq<TravelerId>,
        memberships: nat,
    ) -> PartyBuilderView {
        PartyBuilderView {
            party: PartyView { groups: self.party.groups.insert(group.0, members), ..self.party },
            memberships,
        }
    }

    /// The state after a group member. The group exists from then on, even where there is no room
    /// for another membership.
    pub open spec fn with_group_member(self, group: GroupId, traveler: TravelerId) -> (
        PartyBuilderView,
        Result<(), PartyError>,
    ) {
        let members = self.members(group);
        if !self.party.knows(traveler) {
            (self, Err(PartyError::UnknownTraveler(traveler)))
        } else if !self.party.groups.contains_key(group.0) && self.party.groups.len()
            >= MAX_GROUPS {
            (self, Err(PartyError::TooManyGroups))
        } else if holds(members, traveler.spec_key()) {
            (self, Ok(()))
        } else if self.memberships >= MAX_GROUP_MEMBERSHIPS {
            (
                self.with_members(group, members, self.memberships),
                Err(PartyError::TooManyGroupMemberships),
            )
        } else {
            (
                self.with_members(group, placed(members, traveler), self.memberships + 1),
                Ok(()),
            )
        }
    }

    /// The state after a guardian relationship.
    pub open spec fn with_guardian(self, relationship: GuardianRelationship) -> (
        PartyBuilderView,
        Result<(), PartyError>,
    ) {
        match self.party.pair_error(relationship.guardian, relationship.dependent) {
            Some(error) => (self, Err(error)),
            None => if self.party.guardians.len() >= MAX_GUARDIAN_RELATIONSHIPS && !holds(
                self.party.guardians,
                relationship.spec_key(),
            ) {
                (self, Err(PartyError::TooManyGuardianRelationships))
            } else {
                (
                    PartyBuilderView {
                        party: PartyView {
                            guardians: placed(self.party.guardians, relationship),
                            ..self.party
                        },
                        ..self
                    },
                    Ok(()),
                )
            },
        }
    }

    /// The state after a rooming intent.
    pub open spec fn with_rooming_intent(self, intent: RoomingIntent) -> (
        PartyBuilderView,
        Result<(), PartyError>,
    ) {
        match self.party.pair_error(intent.left, intent.right) {
            Some(error) => (self, Err(error)),
            None => if self.party.rooming.len() >= MAX_ROOMING_EDGES && !holds(
                self.party.rooming,
                intent.spec_key(),
            ) {
                (self, Err(PartyError::TooManyRoomingEdges))
            } else if contradicted(self.party.rooming, intent) {
                (self, Err(PartyError::ContradictoryHardRoomingIntent))
            } else {
                (
                    PartyBuilderView {
                        party: PartyView {
                            rooming: placed(self.party.rooming, intent),
                            ..self.party
                        },
                        ..self
                    },
                    Ok(()),
                )
            },
        }
    }
}

proof fn lemma_placed_still_holds<T: Keyed>(items: Seq<T>, item: T)
    requires
        ascending(items),
    ensures
        forall|key: u128| #[trigger]
            holds(placed(items, item), key) <==> holds(items, key) || key == item.spec_key(),
{
    law_placed_keeps_order_and_items(items, item);
    let now = placed(items, item);
    assert forall|key: u128| #[trigger] holds(now, key) <==> holds(items, key) || key
        == item.spec_key() by {
        if holds(now, key) {
            let i = choose|i: int| 0 <= i < now.len() && (#[trigger] now[i]).spec_key() == key;
            assert(now.contains(now[i]));
            if now[i] != item {
                let j = choose|j: int| 0 <= j < items.len() && items[j] == now[i];
                assert(items[j].spec_key() == key);
            }
        }
        if key == item.spec_key() {
            assert(now.contains(item));
            let i = choose|i: int| 0 <= i < now.len() && now[i] == item;
            assert(now[i].spec_key() == key);
        } else if holds(items, key) {
            let j = choose|j: int| 0 <= j < items.len() && (#[trigger] items[j]).spec_key() == key;
            assert(items.contains(items[j]));
            assert(now.contains(items[j]));
            let i = choose|i: int| 0 <= i < now.len() && now[i] == items[j];
            assert(now[i].spec_key() == key);
        }
    }
}

/// Every step of building keeps the party valid.
pub proof fn law_building_keeps_the_party_valid(
    state: PartyBuilderView,
    traveler: Traveler,
    relationship: Relationship,
    group: GroupId,
    member: TravelerId,
    guardian: GuardianRelationship,
    intent: RoomingIntent,
)
    requires
        state.valid(),
    ensures
        PartyBuilderView::empty().valid(),
        state.with_traveler(traveler).0.valid(),
        state.with_relationship(relationship).0.valid(),
        state.with_group_member(group, member).0.valid(),
        state.with_guardian(guardian).0.valid(),
        state.with_rooming_intent(intent).0.valid(),
{
    lemma_traveler_keeps_valid(state, traveler);
    lemma_relationship_keeps_valid(state, relationship);
    lemma_member_keeps_valid(state, group, member);
    lemma_guardian_keeps_valid(state, guardian);
    lemma_intent_keeps_valid(state, intent);
}

proof fn lemma_traveler_keeps_valid(state: PartyBuilderView, traveler: Traveler)
    requires
        state.valid(),
    ensures
        state.with_traveler(traveler).0.valid(),
{
    let party = state.party;
    let next = state.with_traveler(traveler).0.party;
    law_placed_keeps_order_and_items(party.travelers, traveler);
    lemma_placed_still_holds(party.travelers, traveler);
    assert forall|id: TravelerId| party.knows(id) implies #[trigger] next.knows(id) by {}
}

proof fn lemma_relationship_keeps_valid(state: PartyBuilderView, relationship: Relationship)
    requires
        state.valid(),
    ensures
        state.with_relationship(relationship).0.valid(),
{
    let party = state.party;
    let next = state.with_relationship(relationship).0.party;
    law_placed_keeps_order_and_items(party.relationships, relationship);
    if state.with_relationship(relationship).1 is Ok {
        assert forall|i: int| 0 <= i < next.relationships.len() implies next.joins(
            (#[trigger] next.relationships[i]).from,
            next.relationships[i].to,
        ) by {
            let edge = next.relationships[i];
            assert(next.relationships.contains(edge));
            if edge != relationship {
                let j = choose|j: int|
                    0 <= j < party.relationships.len() && party.relationships[j] == edge;
                assert(party.joins(party.relationships[j].from, party.relationships[j].to));
            }
        }
    }
}

proof fn lemma_member_keeps_valid(state: PartyBuilderView, group: GroupId, member: TravelerId)
    requires
        state.valid(),
    ensures
        state.with_group_member(group, member).0.valid(),
{
    let party = state.party;
    let next = state.with_group_member(group, member).0.party;
    let members = state.members(group);
    if party.knows(member) && next.groups != party.groups {
        assert(ascending(members));
        law_placed_keeps_order_and_items(members, member);
        assert forall|other: u32| next.groups.contains_key(other) implies ascending(
            #[trigger] next.groups[other],
        ) by {
            if other != group.0 {
                assert(ascending(party.groups[other]));
            }
        }
        assert forall|other: u32, i: int|
            next.groups.contains_key(other) && 0 <= i < next.groups[other].len() implies next.knows(
            #[trigger] next.groups[other][i],
        ) by {
            if other != group.0 {
                assert(party.knows(party.groups[other][i]));
            } else if next.groups[other] == members {
                assert(party.knows(party.groups[other][i]));
            } else {
                lemma_placed_members(members, member, i);
                if next.groups[other][i] != member {
                    let j = choose|j: int|
                        0 <= j < members.len() && members[j] == next.groups[other][i];
                    assert(party.knows(party.groups[other][j]));
                }
            }
        }
    }
}

proof fn lemma_placed_members(members: Seq<TravelerId>, member: TravelerId, at: int)
    requires
        0 <= at < placed(members, member).len(),
    ensures
        placed(members, member)[at] == member || members.contains(placed(members, member)[at]),
    decreases members.len(),
{
    let now = placed(members, member);
    if members.len() > 0 {
        let last = members.last();
        assert(members[members.len() - 1] == last);
        if last.spec_key() < member.spec_key() {
            if at < members.len() {
                assert(members[at] == now[at]);
            }
        } else if last.spec_key() == member.spec_key() {
            if at < members.len() - 1 {
                assert(members[at] == now[at]);
            }
        } else {
            let front = members.drop_last();
            if at < placed(front, member).len() {
                lemma_placed_members(front, member, at);
                if now[at] != member {
                    let j = choose|j: int| 0 <= j < front.len() && front[j] == now[at];
                    assert(members[j] == now[at]);
                }
            }
        }
    }
}

proof fn lemma_guardian_keeps_valid(state: PartyBuilderView, guardian: GuardianRelationship)
    requires
        state.valid(),
    ensures
        state.with_guardian(guardian).0.valid(),
{
    let party = state.party;
    let next = state.with_guardian(guardian).0.party;
    law_placed_keeps_order_and_items(party.guardians, guardian);
    if state.with_guardian(guardian).1 is Ok {
        assert forall|i: int| 0 <= i < next.guardians.len() implies next.joins(
            (#[trigger] next.guardians[i]).guardian,
            next.guardians[i].dependent,
        ) by {
            let edge = next.guardians[i];
            assert(next.guardians.contains(edge));
            if edge != guardian {
                let j = choose|j: int| 0 <= j < party.guardians.len() && party.guardians[j] == edge;
                assert(party.joins(party.guardians[j].guardian, party.guardians[j].dependent));
            }
        }
    }
}

proof fn lemma_intent_keeps_valid(state: PartyBuilderView, intent: RoomingIntent)
    requires
        state.valid(),
    ensures
        state.with_rooming_intent(intent).0.valid(),
{
    let party = state.party;
    let next = state.with_rooming_intent(intent).0.party;
    law_placed_keeps_order_and_items(party.rooming, intent);
    if state.with_rooming_intent(intent).1 is Ok {
        assert forall|i: int| 0 <= i < next.rooming.len() implies next.rooming[i] == intent
            || party.rooming.contains(#[trigger] next.rooming[i]) by {
            assert(next.rooming.contains(next.rooming[i]));
        }
        assert forall|i: int| 0 <= i < next.rooming.len() implies next.joins(
            (#[trigger] next.rooming[i]).left,
            next.rooming[i].right,
        ) by {
            let edge = next.rooming[i];
            if edge != intent {
                let j = choose|j: int| 0 <= j < party.rooming.len() && party.rooming[j] == edge;
                assert(party.joins(party.rooming[j].left, party.rooming[j].right));
            }
        }
        assert forall|i: int, j: int|
            0 <= i < next.rooming.len() && 0 <= j < next.rooming.len() implies !contradicts(
            #[trigger] next.rooming[i],
            #[trigger] next.rooming[j],
        ) by {
            let (left, right) = (next.rooming[i], next.rooming[j]);
            if left != intent {
                let k = choose|k: int| 0 <= k < party.rooming.len() && party.rooming[k] == left;
                assert(!contradicts(party.rooming[k], intent));
                if right != intent {
                    let l = choose|l: int|
                        0 <= l < party.rooming.len() && party.rooming[l] == right;
                    assert(!contradicts(party.rooming[k], party.rooming[l]));
                }
            } else if right != intent {
                let l = choose|l: int| 0 <= l < party.rooming.len() && party.rooming[l] == right;
                assert(!contradicts(party.rooming[l], intent));
            }
        }
    }
}

/// The lists of a party.
#[derive(Debug, PartialEq, Eq)]
struct PartyLists {
    travelers: OrderedList<Traveler>,
    relationships: OrderedList<Relationship>,
    groups: BTreeMap<u32, OrderedList<TravelerId>>,
    guardians: OrderedList<GuardianRelationship>,
    rooming: OrderedList<RoomingIntent>,
}

impl View for PartyLists {
    type V = PartyView;

    closed spec fn view(&self) -> PartyView {
        PartyView {
            travelers: self.travelers@,
            relationships: self.relationships@,
            groups: self.groups@.map_values(|members: OrderedList<TravelerId>| members@),
            guardians: self.guardians@,
            rooming: self.rooming@,
        }
    }
}

impl Clone for PartyLists {
    fn clone(&self) -> (copy: Self)
        ensures
            copy@ == self@,
    {
        PartyLists {
            travelers: self.travelers.clone(),
            relationships: self.relationships.clone(),
            groups: self.groups.clone(),
            guardians: self.guardians.clone(),
            rooming: self.rooming.clone(),
        }
    }
}

impl PartyLists {
    fn empty() -> (lists: Self)
        ensures
            lists@ == PartyView::empty(),
    {
        let lists = PartyLists {
            travelers: OrderedList::new(),
            relationships: OrderedList::new(),
            groups: BTreeMap::new(),
            guardians: OrderedList::new(),
            rooming: OrderedList::new(),
        };
        assert(lists@.groups =~= Map::empty());
        lists
    }
}

/// Validated party graph. Numbers are local to one query.
#[derive(Debug, PartialEq, Eq)]
pub struct BookingParty {
    lists: PartyLists,
}

impl View for BookingParty {
    type V = PartyView;

    closed spec fn view(&self) -> PartyView {
        self.lists@
    }
}

impl Clone for BookingParty {
    fn clone(&self) -> (copy: Self)
        ensures
            copy@ == self@,
    {
        proof {
            use_type_invariant(self);
        }
        BookingParty { lists: self.lists.clone() }
    }
}

impl BookingParty {
    #[verifier::type_invariant]
    spec fn checked(self) -> bool {
        self.lists@.valid() && self.lists@.travelers.len() > 0
    }

    /// A builder that was told nothing.
    pub fn builder() -> (builder: PartyBuilder)
        ensures
            builder@ == PartyBuilderView::empty(),
            builder@.valid(),
    {
        PartyBuilder::new()
    }

    /// The traveler with this number.
    pub fn traveler(&self, id: TravelerId) -> (found: Option<&Traveler>)
        ensures
            match found {
                Some(traveler) => self@.travelers.contains(*traveler) && traveler.id == id,
                None => !self@.knows(id),
            },
            self@.valid(),
    {
        proof {
            use_type_invariant(self);
        }
        self.lists.travelers.get(id.0 as u128)
    }

    /// The travelers in ascending order of their numbers.
    pub fn travelers(&self) -> (travelers: &[Traveler])
        ensures
            travelers@ == self@.travelers,
            travelers@.len() > 0,
            self@.valid(),
    {
        proof {
            use_type_invariant(self);
        }
        self.lists.travelers.as_slice()
    }

    /// The relationships.
    pub fn relationships(&self) -> (relationships: &OrderedList<Relationship>)
        ensures
            relationships@ == self@.relationships,
            self@.valid(),
    {
        proof {
            use_type_invariant(self);
        }
        &self.lists.relationships
    }

    /// The guardian relationships.
    pub fn guardians(&self) -> (guardians: &OrderedList<GuardianRelationship>)
        ensures
            guardians@ == self@.guardians,
            self@.valid(),
    {
        proof {
            use_type_invariant(self);
        }
        &self.lists.guardians
    }

    /// The rooming intents.
    pub fn rooming_intents(&self) -> (rooming: &OrderedList<RoomingIntent>)
        ensures
            rooming@ == self@.rooming,
            self@.valid(),
    {
        proof {
            use_type_invariant(self);
        }
        &self.lists.rooming
    }

    /// The members of a group.
    pub fn group_members(&self, group: GroupId) -> (members: Option<&OrderedList<TravelerId>>)
        ensures
            match members {
                Some(members) => self@.groups.contains_key(group.0) && self@.groups[group.0]
                    == members@,
                None => !self@.groups.contains_key(group.0),
            },
            self@.valid(),
    {
        broadcast use vstd::std_specs::btree::group_btree_axioms;

        proof {
            use_type_invariant(self);
        }
        self.lists.groups.get(&group.0)
    }

    /// The age of every traveler at check-in, in ascending order of their numbers.
    pub fn ages_at(&self, check_in: CivilDate) -> (result: Result<
        Vec<(TravelerId, u16)>,
        PartyError,
    >)
        ensures
            match result {
                Ok(ages) => self@.ages(check_in@) == Ok::<Seq<(TravelerId, u16)>, PartyError>(
                    ages@,
                ),
                Err(error) => self@.ages(check_in@) == Err::<Seq<(TravelerId, u16)>, PartyError>(
                    error,
                ),
            },
    {
        let travelers = self.lists.travelers.as_slice();
        let mut ages: Vec<(TravelerId, u16)> = Vec::new();
        let mut index: usize = 0;
        proof {
            assert(travelers@.skip(0) =~= travelers@);
            if let Ok(all) = ages_of(travelers@, check_in@) {
                assert(ages@ + all =~= all);
            }
        }
        while index < travelers.len()
            invariant
                index <= travelers@.len(),
                travelers@ == self@.travelers,
                ages_of(travelers@, check_in@) == preceded(
                    ages@,
                    ages_of(travelers@.skip(index as int), check_in@),
                ),
            decreases travelers@.len() - index,
        {
            let ghost left = travelers@.skip(index as int);
            let ghost done = ages@;
            let traveler = &travelers[index];
            assert(left[0] == *traveler);
            assert(left.drop_first() =~= travelers@.skip(index + 1));
            let age: u16 = traveler.age.age_at(check_in)?;
            ages.push((traveler.id, age));
            proof {
                if let Ok(rest) = ages_of(travelers@.skip(index + 1), check_in@) {
                    assert(done + (seq![(traveler.id, age)] + rest) =~= ages@ + rest);
                }
            }
            index = index + 1;
        }
        assert(travelers@.skip(index as int) =~= Seq::<Traveler>::empty());
        assert(ages@ + Seq::<(TravelerId, u16)>::empty() =~= ages@);
        Ok(ages)
    }
}

/// Collects a party step by step.
#[derive(Debug)]
pub struct PartyBuilder {
    lists: PartyLists,
    memberships: usize,
}

impl View for PartyBuilder {
    type V = PartyBuilderView;

    closed spec fn view(&self) -> PartyBuilderView {
        PartyBuilderView { party: self.lists@, memberships: self.memberships as nat }
    }
}

impl Clone for PartyBuilder {
    fn clone(&self) -> (copy: Self)
        ensures
            copy@ == self@,
    {
        proof {
            use_type_invariant(self);
        }
        PartyBuilder { lists: self.lists.clone(), memberships: self.memberships }
    }
}

impl Default for PartyBuilder {
    fn default() -> (builder: Self)
        ensures
            builder@ == PartyBuilderView::empty(),
    {
        PartyBuilder::new()
    }
}

impl PartyBuilder {
    #[verifier::type_invariant]
    spec fn checked(self) -> bool {
        self.lists@.valid() && self.memberships <= MAX_GROUP_MEMBERSHIPS
    }

    fn new() -> (builder: Self)
        ensures
            builder@ == PartyBuilderView::empty(),
            builder@.valid(),
    {
        PartyBuilder { lists: PartyLists::empty(), memberships: 0 }
    }

    /// Adds a traveler. One who is known already replaces the known one and is reported.
    pub fn add_traveler(&mut self, traveler: Traveler) -> (result: Result<&mut Self, PartyError>)
        ensures
            old(self)@.valid(),
            match result {
                Ok(builder) => {
                    &&& old(self)@.with_traveler(traveler) == (builder@, Ok::<(), PartyError>(()))
                    &&& builder@.valid()
                    &&& *final(self) == *final(builder)
                },
                Err(error) => {
                    &&& old(self)@.with_traveler(traveler) == (final(self)@, Err::<
                        (),
                        PartyError,
                    >(error))
                    &&& final(self)@.valid()
                },
            },
    {
        proof {
            use_type_invariant(&*self);
            lemma_traveler_keeps_valid(self@, traveler);
        }
        let known = self.lists.travelers.contains_key(traveler.id.0 as u128);
        if self.lists.travelers.len() >= MAX_TRAVELERS && !known {
            return Err(PartyError::TooManyTravelers);
        }
        let mut lists = PartyLists::empty();
        std::mem::swap(&mut lists, &mut self.lists);
        lists.travelers.put(traveler);
        self.lists = lists;
        if known {
            return Err(PartyError::DuplicateTraveler);
        }
        Ok(self)
    }

    /// Adds a relationship between two travelers.
    pub fn add_relationship(&mut self, relationship: Relationship) -> (result: Result<
        &mut Self,
        PartyError,
    >)
        ensures
            old(self)@.valid(),
            match result {
                Ok(builder) => {
                    &&& old(self)@.with_relationship(relationship) == (
                        builder@,
                        Ok::<(), PartyError>(()),
                    )
                    &&& builder@.valid()
                    &&& *final(self) == *final(builder)
                },
                Err(error) => {
                    &&& old(self)@.with_relationship(relationship) == (final(self)@, Err::<
                        (),
                        PartyError,
                    >(error))
                    &&& final(self)@.valid()
                },
            },
    {
        proof {
            use_type_invariant(&*self);
            lemma_relationship_keeps_valid(self@, relationship);
        }
        self.validate_pair(relationship.from, relationship.to)?;
        let known = self.lists.relationships.contains_key(relationship.key());
        if self.lists.relationships.len() >= MAX_RELATIONSHIPS && !known {
            return Err(PartyError::TooManyRelationships);
        }
        let mut lists = PartyLists::empty();
        std::mem::swap(&mut lists, &mut self.lists);
        lists.relationships.put(relationship);
        self.lists = lists;
        Ok(self)
    }

    /// Adds a member to a group.
    pub fn add_group_member(&mut self, group: GroupId, traveler: TravelerId) -> (result: Result<
        &mut Self,
        PartyError,
    >)
        ensures
            old(self)@.valid(),
            match result {
                Ok(builder) => {
                    &&& old(self)@.with_group_member(group, traveler) == (builder@, Ok::<
                        (),
                        PartyError,
                    >(()))
                    &&& builder@.valid()
                    &&& *final(self) == *final(builder)
                },
                Err(error) => {
                    &&& old(self)@.with_group_member(group, traveler) == (final(self)@, Err::<
                        (),
                        PartyError,
                    >(error))
                    &&& final(self)@.valid()
                },
            },
    {
        broadcast use vstd::std_specs::btree::group_btree_axioms;

        let ghost before = self@;
        proof {
            use_type_invariant(&*self);
            lemma_member_keeps_valid(before, group, traveler);
        }
        self.require_traveler(traveler)?;
        proof {
            lemma_same_group_count(self.lists);
        }
        let known = self.lists.groups.contains_key(&group.0);
        if !known && self.lists.groups.len() >= MAX_GROUPS {
            return Err(PartyError::TooManyGroups);
        }
        let full = self.memberships >= MAX_GROUP_MEMBERSHIPS;
        let mut lists = PartyLists::empty();
        std::mem::swap(&mut lists, &mut self.lists);
        let ghost groups = lists@.groups;
        let mut members: OrderedList<TravelerId> = match lists.groups.get(&group.0) {
            Some(members) => members.clone(),
            None => OrderedList::new(),
        };
        assert(members@ == before.members(group));
        let present = members.contains_key(traveler.key());
        if !present && !full {
            members.put(traveler);
        }
        lists.groups.insert(group.0, members);
        assert(lists@.groups =~= groups.insert(group.0, members@));
        if present {
            assert(lists@.groups =~= groups);
            self.lists = lists;
            return Ok(self);
        }
        if full {
            self.lists = lists;
            return Err(PartyError::TooManyGroupMemberships);
        }
        self.lists = lists;
        self.memberships = self.memberships + 1;
        Ok(self)
    }

    /// Adds a guardian relationship.
    pub fn add_guardian(&mut self, relationship: GuardianRelationship) -> (result: Result<
        &mut Self,
        PartyError,
    >)
        ensures
            old(self)@.valid(),
            match result {
                Ok(builder) => {
                    &&& old(self)@.with_guardian(relationship) == (
                        builder@,
                        Ok::<(), PartyError>(()),
                    )
                    &&& builder@.valid()
                    &&& *final(self) == *final(builder)
                },
                Err(error) => {
                    &&& old(self)@.with_guardian(relationship) == (final(self)@, Err::<
                        (),
                        PartyError,
                    >(error))
                    &&& final(self)@.valid()
                },
            },
    {
        proof {
            use_type_invariant(&*self);
            lemma_guardian_keeps_valid(self@, relationship);
        }
        self.validate_pair(relationship.guardian, relationship.dependent)?;
        let known = self.lists.guardians.contains_key(relationship.key());
        if self.lists.guardians.len() >= MAX_GUARDIAN_RELATIONSHIPS && !known {
            return Err(PartyError::TooManyGuardianRelationships);
        }
        let mut lists = PartyLists::empty();
        std::mem::swap(&mut lists, &mut self.lists);
        lists.guardians.put(relationship);
        self.lists = lists;
        Ok(self)
    }

    /// Adds a rooming intent.
    pub fn add_rooming_intent(&mut self, intent: RoomingIntent) -> (result: Result<
        &mut Self,
        PartyError,
    >)
        ensures
            old(self)@.valid(),
            match result {
                Ok(builder) => {
                    &&& old(self)@.with_rooming_intent(intent) == (
                        builder@,
                        Ok::<(), PartyError>(()),
                    )
                    &&& builder@.valid()
                    &&& *final(self) == *final(builder)
                },
                Err(error) => {
                    &&& old(self)@.with_rooming_intent(intent) == (final(self)@, Err::<
                        (),
                        PartyError,
                    >(error))
                    &&& final(self)@.valid()
                },
            },
    {
        proof {
            use_type_invariant(&*self);
            lemma_intent_keeps_valid(self@, intent);
        }
        self.validate_pair(intent.left, intent.right)?;
        if self.lists.rooming.len() >= MAX_ROOMING_EDGES && !self.lists.rooming.contains_key(
            intent.key(),
        ) {
            return Err(PartyError::TooManyRoomingEdges);
        }
        if contradictory_hard_intent(&self.lists.rooming, intent) {
            return Err(PartyError::ContradictoryHardRoomingIntent);
        }
        let mut lists = PartyLists::empty();
        std::mem::swap(&mut lists, &mut self.lists);
        lists.rooming.put(intent);
        self.lists = lists;
        Ok(self)
    }

    /// The party, where anyone belongs to it.
    pub fn build(self) -> (result: Result<BookingParty, PartyError>)
        ensures
            match result {
                Ok(party) => {
                    &&& self@.party.travelers.len() > 0
                    &&& party@ == self@.party
                    &&& party@.valid()
                },
                Err(error) => self@.party.travelers.len() == 0 && error == PartyError::EmptyParty,
            },
    {
        proof {
            use_type_invariant(&self);
        }
        if self.lists.travelers.is_empty() {
            return Err(PartyError::EmptyParty);
        }
        Ok(BookingParty { lists: self.lists })
    }

    fn require_traveler(&self, id: TravelerId) -> (result: Result<(), PartyError>)
        ensures
            result == (if self@.party.knows(id) {
                Ok::<(), PartyError>(())
            } else {
                Err(PartyError::UnknownTraveler(id))
            }),
    {
        if self.lists.travelers.contains_key(id.0 as u128) {
            Ok(())
        } else {
            Err(PartyError::UnknownTraveler(id))
        }
    }

    fn validate_pair(&self, left: TravelerId, right: TravelerId) -> (result: Result<(), PartyError>)
        ensures
            result == (match self@.party.pair_error(left, right) {
                Some(error) => Err::<(), PartyError>(error),
                None => Ok(()),
            }),
    {
        self.require_traveler(left)?;
        self.require_traveler(right)?;
        if left == right {
            Err(PartyError::SelfEdge(left))
        } else {
            Ok(())
        }
    }
}

proof fn lemma_same_group_count(lists: PartyLists)
    ensures
        lists@.groups.dom() == lists.groups@.dom(),
{
    assert(lists@.groups.dom() =~= lists.groups@.dom());
}

/// Whether two travelers are the same two in either order.
fn same_pair(left: RoomingIntent, right: RoomingIntent) -> (same: bool)
    ensures
        same == (left.left == right.left && left.right == right.right || left.left == right.right
            && left.right == right.left),
{
    left.left == right.left && left.right == right.right || left.left == right.right && left.right
        == right.left
}

fn contradictory_hard_intent(existing: &OrderedList<RoomingIntent>, candidate: RoomingIntent) -> (
    found: bool)
    ensures
        found == contradicted(existing@, candidate),
{
    if candidate.strength != ConstraintStrength::Must {
        return false;
    }
    let edges = existing.as_slice();
    let mut index: usize = 0;
    while index < edges.len()
        invariant
            index <= edges@.len(),
            edges@ == existing@,
            candidate.strength == ConstraintStrength::Must,
            forall|i: int| 0 <= i < index ==> !contradicts(#[trigger] edges@[i], candidate),
        decreases edges@.len() - index,
    {
        let edge = edges[index];
        let opposed = edge.relation == RoomingRelation::SameRoom && candidate.relation
            == RoomingRelation::SeparateRoom || edge.relation == RoomingRelation::SeparateRoom
            && candidate.relation == RoomingRelation::SameRoom;
        if edge.strength == ConstraintStrength::Must && same_pair(edge, candidate) && opposed {
            assert(contradicts(existing@[index as int], candidate));
            return true;
        }
        index = index + 1;
    }
    false
}

/// Why a date, an age or a party is refused.
#[derive(Clone, Copy, Debug, PartialEq, Eq, Structural)]
pub enum PartyError {
    InvalidMonth(u8),
    InvalidDay { year: i32, month: u8, day: u8 },
    CheckInBeforeBirth,
    AgeOutOfRange,
    EmptyParty,
    TooManyTravelers,
    DuplicateTraveler,
    UnknownTraveler(TravelerId),
    SelfEdge(TravelerId),
    TooManyRelationships,
    TooManyGroups,
    TooManyGroupMemberships,
    TooManyGuardianRelationships,
    TooManyRoomingEdges,
    ContradictoryHardRoomingIntent,
}

/// The text of a traveler number inside a diagnostic.
pub open spec fn traveler_name(id: TravelerId) -> Seq<char> {
    bracketed("TravelerId"@, decimal(id.0 as int))
}

/// The text of a traveler number inside a diagnostic.
pub fn traveler_text(id: TravelerId) -> (text: String)
    ensures
        text@ == traveler_name(id),
{
    numbered_text("TravelerId", id.0 as u64)
}

impl PartyError {
    /// The diagnostic text of this error.
    pub open spec fn spec_message(self) -> Seq<char> {
        match self {
            PartyError::InvalidMonth(month) => bracketed("InvalidMonth"@, decimal(month as int)),
            PartyError::InvalidDay { year, month, day } => "InvalidDay { year: "@ + decimal(
                year as int,
            ) + ", month: "@ + decimal(month as int) + ", day: "@ + decimal(day as int) + " }"@,
            PartyError::CheckInBeforeBirth => "CheckInBeforeBirth"@,
            PartyError::AgeOutOfRange => "AgeOutOfRange"@,
            PartyError::EmptyParty => "EmptyParty"@,
            PartyError::TooManyTravelers => "TooManyTravelers"@,
            PartyError::DuplicateTraveler => "DuplicateTraveler"@,
            PartyError::UnknownTraveler(id) => bracketed("UnknownTraveler"@, traveler_name(id)),
            PartyError::SelfEdge(id) => bracketed("SelfEdge"@, traveler_name(id)),
            PartyError::TooManyRelationships => "TooManyRelationships"@,
            PartyError::TooManyGroups => "TooManyGroups"@,
            PartyError::TooManyGroupMemberships => "TooManyGroupMemberships"@,
            PartyError::TooManyGuardianRelationships => "TooManyGuardianRelationships"@,
            PartyError::TooManyRoomingEdges => "TooManyRoomingEdges"@,
            PartyError::ContradictoryHardRoomingIntent => "ContradictoryHardRoomingIntent"@,
        }
    }

    /// The diagnostic text of this error.
    pub fn message(&self) -> (text: String)
        ensures
            text@ == self.spec_message(),
    {
        match self {
            PartyError::InvalidMonth(month) => numbered_text("InvalidMonth", *month as u64),
            PartyError::InvalidDay { year, month, day } => {
                let mut text = joined(
                    "InvalidDay { year: ",
                    signed_decimal_text(*year as i64).as_str(),
                );
                text.append(", month: ");
                text.append(decimal_text(*month as u64).as_str());
                text.append(", day: ");
                text.append(decimal_text(*day as u64).as_str());
                text.append(" }");
                text
            },
            PartyError::CheckInBeforeBirth => "CheckInBeforeBirth".to_owned(),
            PartyError::AgeOutOfRange => "AgeOutOfRange".to_owned(),
            PartyError::EmptyParty => "EmptyParty".to_owned(),
            PartyError::TooManyTravelers => "TooManyTravelers".to_owned(),
            PartyError::DuplicateTraveler => "DuplicateTraveler".to_owned(),
            PartyError::UnknownTraveler(id) => {
                bracketed_text("UnknownTraveler", traveler_text(*id).as_str())
            },
            PartyError::SelfEdge(id) => bracketed_text("SelfEdge", traveler_text(*id).as_str()),
            PartyError::TooManyRelationships => "TooManyRelationships".to_owned(),
            PartyError::TooManyGroups => "TooManyGroups".to_owned(),
            PartyError::TooManyGroupMemberships => "TooManyGroupMemberships".to_owned(),
            PartyError::TooManyGuardianRelationships => "TooManyGuardianRelationships".to_owned(),
            PartyError::TooManyRoomingEdges => "TooManyRoomingEdges".to_owned(),
            PartyError::ContradictoryHardRoomingIntent => {
                "ContradictoryHardRoomingIntent".to_owned()
            },
        }
    }
}

// ---------------------------------------------------------------------------------------------
// The calendar
// ---------------------------------------------------------------------------------------------

/// The number of leap years up to and with a year, counted from the year 0.
pub open spec fn leap_years_up_to(year: int) -> int {
    year / 4 - year / 100 + year / 400
}

/// The calendar is the Gregorian one: the leap years are those in which the count of every fourth
/// year, without every hundredth, with every four hundredth, goes up.
pub proof fn law_leap_years_are_gregorian(year: int)
    ensures
        leap_year(year) <==> leap_years_up_to(year) == leap_years_up_to(year - 1) + 1,
        !leap_year(year) <==> leap_years_up_to(year) == leap_years_up_to(year - 1),
        leap_year(year) == leap_year(year + 400),
{
}

/// Months alternate between 31 and 30 days, with July and August both long, and February has
/// 28 days, or 29 in a leap year; a year has 365 or 366 days.
pub proof fn law_months_have_their_lengths(year: int, month: int)
    ensures
        1 <= month <= 12 && month != 2 ==> month_length(year, month) == 30 + (month + month / 8)
            % 2,
        month_length(year, 2) == 28 + leap_years_up_to(year) - leap_years_up_to(year - 1),
        month_length(year, 1) + month_length(year, 2) + month_length(year, 3) + month_length(
            year,
            4,
        ) + month_length(year, 5) + month_length(year, 6) + month_length(year, 7) + month_length(
            year,
            8,
        ) + month_length(year, 9) + month_length(year, 10) + month_length(year, 11) + month_length(
            year,
            12,
        ) == 365 + leap_years_up_to(year) - leap_years_up_to(year - 1),
{
    law_leap_years_are_gregorian(year);
}

/// A date exists exactly if its month is one of twelve and its day one of that month.
pub proof fn law_dates_exist_exactly_in_their_months(year: i32, month: u8, day: u8)
    ensures
        date_error(year, month, day) is None <==> 1 <= month <= 12 && 1 <= day <= month_length(
            year as int,
            month as int,
        ),
        !(1 <= month <= 12) ==> date_error(year, month, day) == Some(
            PartyError::InvalidMonth(month),
        ),
        1 <= month <= 12 && date_error(year, month, day) is Some ==> date_error(year, month, day)
            == Some(PartyError::InvalidDay { year, month, day }),
{
}

/// A number for each date that grows as time passes; the same day a year later is 10000 further.
pub open spec fn day_stamp(date: DateView) -> int {
    date.year * 10000 + date.month * 100 + date.day
}

/// Whether month and day are in the ranges of the calendar.
pub open spec fn in_calendar(date: DateView) -> bool {
    1 <= date.month <= 12 && 1 <= date.day <= 31
}

/// The age is the number of birthdays that have come: the last of them is not behind the date, and
/// the next one is. It is told from the day of birth on and up to the highest age; before that
/// there is none, and behind it none is told.
pub proof fn law_age_is_the_number_of_birthdays(birth: DateView, date: DateView)
    requires
        in_calendar(birth),
        in_calendar(date),
    ensures
        birth.age(date) matches Ok(age) ==> {
            &&& age <= 130
            &&& day_stamp(birth) + 10000 * age <= day_stamp(date)
            &&& day_stamp(date) < day_stamp(birth) + 10000 * (age + 1)
        },
        birth.age(date) is Ok <==> day_stamp(birth) <= day_stamp(date) < day_stamp(birth) + 10000
            * 131,
        birth.age(date) == Err::<u16, PartyError>(PartyError::CheckInBeforeBirth) <==> day_stamp(
            date,
        ) < day_stamp(birth),
        birth.age(date) is Err ==> birth.age(date) == Err::<u16, PartyError>(
            PartyError::CheckInBeforeBirth,
        ) || birth.age(date) == Err::<u16, PartyError>(PartyError::AgeOutOfRange),
{
    assert(MAX_AGE <= u16::MAX);
    let years = birth.full_years(date);
    assert(day_stamp(birth) + 10000 * years <= day_stamp(date) < day_stamp(birth) + 10000 * (years
        + 1));
    assert(date.before(birth) <==> day_stamp(date) < day_stamp(birth));
}

/// An age that is declared for check-in is the age at any check-in, where it is not above the
/// highest one; a birth date tells the age of someone born then.
pub proof fn law_age_follows_its_evidence(declared: u16, birth: CivilDate, check_in: DateView)
    ensures
        declared <= 130 ==> AgeEvidence::AgeAtCheckIn(declared).spec_age_at(check_in) == Ok::<
            u16,
            PartyError,
        >(declared),
        declared > 130 ==> AgeEvidence::AgeAtCheckIn(declared).spec_age_at(check_in) == Err::<
            u16,
            PartyError,
        >(PartyError::AgeOutOfRange),
        AgeEvidence::BirthDate(birth).spec_age_at(check_in) == birth@.age(check_in),
{
}

/// The ages of a party are those of its travelers, each under its number and in the order of the
/// travelers; where some age cannot be told, what is reported is wrong with the first such one.
pub proof fn law_ages_are_those_of_the_travelers(travelers: Seq<Traveler>, check_in: DateView)
    ensures
        match ages_of(travelers, check_in) {
            Ok(ages) => {
                &&& ages.len() == travelers.len()
                &&& forall|i: int|
                    0 <= i < travelers.len() ==> {
                        &&& (#[trigger] ages[i]).0 == travelers[i].id
                        &&& travelers[i].age.spec_age_at(check_in) == Ok::<u16, PartyError>(
                            ages[i].1,
                        )
                    }
            },
            Err(error) => exists|i: int|
                {
                    &&& 0 <= i < travelers.len()
                    &&& (#[trigger] travelers[i]).age.spec_age_at(check_in) == Err::<
                        u16,
                        PartyError,
                    >(error)
                    &&& forall|j: int|
                        0 <= j < i ==> (#[trigger] travelers[j]).age.spec_age_at(check_in) is Ok
                },
        },
    decreases travelers.len(),
{
    if travelers.len() > 0 {
        let rest = travelers.drop_first();
        law_ages_are_those_of_the_travelers(rest, check_in);
        match travelers[0].age.spec_age_at(check_in) {
            Err(_) => {},
            Ok(age) => match ages_of(rest, check_in) {
                Ok(more) => {
                    let ages = ages_of(travelers, check_in)->Ok_0;
                    assert forall|i: int| 0 <= i < travelers.len() implies {
                        &&& (#[trigger] ages[i]).0 == travelers[i].id
                        &&& travelers[i].age.spec_age_at(check_in) == Ok::<u16, PartyError>(
                            ages[i].1,
                        )
                    } by {
                        if i > 0 {
                            assert(ages[i] == more[i - 1]);
                            assert(rest[i - 1] == travelers[i]);
                        }
                    }
                },
                Err(error) => {
                    let i = choose|i: int|
                        {
                            &&& 0 <= i < rest.len()
                            &&& (#[trigger] rest[i]).age.spec_age_at(check_in) == Err::<
                                u16,
                                PartyError,
                            >(error)
                            &&& forall|j: int|
                                0 <= j < i ==> (#[trigger] rest[j]).age.spec_age_at(
                                    check_in,
                                ) is Ok
                        };
                    assert(travelers[i + 1] == rest[i]);
                    assert forall|j: int| 0 <= j < i + 1 implies (
                    #[trigger] travelers[j]).age.spec_age_at(check_in) is Ok by {
                        if j > 0 {
                            assert(rest[j - 1] == travelers[j]);
                        }
                    }
                },
            },
        }
    }
}

// ---------------------------------------------------------------------------------------------
// Building
// ---------------------------------------------------------------------------------------------

/// Whether a list is another one with one item more, and nothing else came or went.
pub open spec fn gained<T>(before: Seq<T>, after: Seq<T>, item: T) -> bool {
    forall|other: T| #[trigger] after.contains(other) <==> before.contains(other) || other == item
}

/// Whether two travelers can be joined: both belong to the party and they are not the same one.
pub open spec fn joinable(party: PartyView, left: TravelerId, right: TravelerId) -> bool {
    &&& left != right
    &&& exists|i: int| 0 <= i < party.travelers.len() && (#[trigger] party.travelers[i]).id == left
    &&& exists|i: int| 0 <= i < party.travelers.len() && (#[trigger] party.travelers[i]).id == right
}

proof fn lemma_known_by_number(party: PartyView, id: TravelerId)
    ensures
        party.knows(id) <==> exists|i: int|
            0 <= i < party.travelers.len() && (#[trigger] party.travelers[i]).id == id,
{
    if party.knows(id) {
        let i = choose|i: int|
            0 <= i < party.travelers.len() && (#[trigger] party.travelers[i]).spec_key()
                == id.0 as u128;
        assert(party.travelers[i].id == id);
    }
    if exists|i: int| 0 <= i < party.travelers.len() && (#[trigger] party.travelers[i]).id == id {
        let i = choose|i: int|
            0 <= i < party.travelers.len() && (#[trigger] party.travelers[i]).id == id;
        assert(party.travelers[i].spec_key() == id.0 as u128);
    }
}

proof fn lemma_held_is_contained<T: Keyed>(items: Seq<T>, item: T)
    requires
        forall|other: T| #[trigger]
            other.spec_key() == item.spec_key() && items.contains(other) ==> other == item,
    ensures
        holds(items, item.spec_key()) <==> items.contains(item),
{
    if holds(items, item.spec_key()) {
        let i = choose|i: int|
            0 <= i < items.len() && (#[trigger] items[i]).spec_key() == item.spec_key();
        assert(items.contains(items[i]));
    }
    if items.contains(item) {
        let i = choose|i: int| 0 <= i < items.len() && items[i] == item;
        assert(items[i].spec_key() == item.spec_key());
    }
}

/// A new traveler who finds room belongs to the party from then on, beside everyone who belonged
/// to it; one with a known number replaces the known one and is reported; nothing else changes.
pub proof fn law_added_traveler_belongs_to_the_party(state: PartyBuilderView, traveler: Traveler)
    requires
        state.valid(),
    ensures
        ({
            let (after, answer) = state.with_traveler(traveler);
            let known = exists|i: int|
                0 <= i < state.party.travelers.len() && (#[trigger] state.party.travelers[i]).id
                    == traveler.id;
            &&& after.party.relationships == state.party.relationships
            &&& after.party.groups == state.party.groups
            &&& after.party.guardians == state.party.guardians
            &&& after.party.rooming == state.party.rooming
            &&& after.memberships == state.memberships
            &&& answer is Ok <==> !known && state.party.travelers.len() < 64
            &&& answer == Err::<(), PartyError>(PartyError::DuplicateTraveler) <==> known
            &&& answer == Err::<(), PartyError>(PartyError::TooManyTravelers) <==> !known
                && state.party.travelers.len() >= 64
            &&& answer is Ok ==> gained(state.party.travelers, after.party.travelers, traveler)
            &&& known ==> forall|other: Traveler| #[trigger]
                after.party.travelers.contains(other) <==> other == traveler || other.id
                    != traveler.id && state.party.travelers.contains(other)
            &&& answer == Err::<(), PartyError>(PartyError::TooManyTravelers) ==> after == state
        }),
{
    lemma_known_by_number(state.party, traveler.id);
    law_placed_keeps_order_and_items(state.party.travelers, traveler);
    let (after, answer) = state.with_traveler(traveler);
    if answer is Ok {
        assert forall|other: Traveler| #[trigger]
            after.party.travelers.contains(other) <==> state.party.travelers.contains(other)
                || other == traveler by {
            if state.party.travelers.contains(other) {
                let i = choose|i: int|
                    0 <= i < state.party.travelers.len() && state.party.travelers[i] == other;
                assert(state.party.travelers[i].spec_key() == other.spec_key());
            }
        }
    }
}

/// A relationship is taken exactly if it joins two travelers of the party and there is room for it
/// or it is there already. It then belongs to the party as it was given, beside all that did;
/// otherwise nothing changes.
pub proof fn law_added_relationship_belongs_to_the_party(
    state: PartyBuilderView,
    edge: Relationship,
)
    requires
        state.valid(),
    ensures
        ({
            let (after, answer) = state.with_relationship(edge);
            let known = state.party.relationships.contains(edge);
            &&& answer is Ok <==> joinable(state.party, edge.from, edge.to) && (known
                || state.party.relationships.len() < 512)
            &&& answer is Ok ==> gained(
                state.party.relationships,
                after.party.relationships,
                edge,
            )
            &&& after == (PartyBuilderView {
                party: PartyView {
                    relationships: after.party.relationships,
                    ..state.party
                },
                ..state
            })
            &&& answer is Err ==> after == state
        }),
{
    lemma_known_by_number(state.party, edge.from);
    lemma_known_by_number(state.party, edge.to);
    law_placed_keeps_order_and_items(state.party.relationships, edge);
    assert forall|other: Relationship| #[trigger]
        other.spec_key() == edge.spec_key() && state.party.relationships.contains(
            other,
        ) implies other == edge by {
        lemma_relationship_key(other, edge);
    }
    lemma_held_is_contained(state.party.relationships, edge);
    let (after, answer) = state.with_relationship(edge);
    if answer is Ok {
        assert forall|other: Relationship| #[trigger]
            after.party.relationships.contains(other) <==> state.party.relationships.contains(other)
                || other == edge by {
            if other.spec_key() == edge.spec_key() {
                lemma_relationship_key(other, edge);
            }
        }
    }
}

proof fn lemma_relationship_key(left: Relationship, right: Relationship)
    requires
        left.spec_key() == right.spec_key(),
    ensures
        left == right,
{
}

proof fn lemma_guardian_key(left: GuardianRelationship, right: GuardianRelationship)
    requires
        left.spec_key() == right.spec_key(),
    ensures
        left == right,
{
}

proof fn lemma_intent_key(left: RoomingIntent, right: RoomingIntent)
    requires
        left.spec_key() == right.spec_key(),
    ensures
        left == right,
{
}

/// A guardian relationship is taken exactly if it joins two travelers of the party and there is
/// room for it or it is there already. It then belongs to the party as it was given, beside all
/// that did; otherwise nothing changes.
pub proof fn law_added_guardian_belongs_to_the_party(
    state: PartyBuilderView,
    edge: GuardianRelationship,
)
    requires
        state.valid(),
    ensures
        ({
            let (after, answer) = state.with_guardian(edge);
            let known = state.party.guardians.contains(edge);
            &&& answer is Ok <==> joinable(state.party, edge.guardian, edge.dependent) && (known
                || state.party.guardians.len() < 256)
            &&& answer is Ok ==> gained(state.party.guardians, after.party.guardians, edge)
            &&& after == (PartyBuilderView {
                party: PartyView { guardians: after.party.guardians, ..state.party },
                ..state
            })
            &&& answer is Err ==> after == state
        }),
{
    lemma_known_by_number(state.party, edge.guardian);
    lemma_known_by_number(state.party, edge.dependent);
    law_placed_keeps_order_and_items(state.party.guardians, edge);
    assert forall|other: GuardianRelationship| #[trigger]
        other.spec_key() == edge.spec_key() && state.party.guardians.contains(other) implies other
        == edge by {
        lemma_guardian_key(other, edge);
    }
    lemma_held_is_contained(state.party.guardians, edge);
    let (after, answer) = state.with_guardian(edge);
    if answer is Ok {
        assert forall|other: GuardianRelationship| #[trigger]
            after.party.guardians.contains(other) <==> state.party.guardians.contains(other)
                || other == edge by {
            if other.spec_key() == edge.spec_key() {
                lemma_guardian_key(other, edge);
            }
        }
    }
}

/// Whether two intents, taken together, can never be met: both are binding, they are about the
/// same two travelers, and one wants them in the same room and the other in separate ones.
pub open spec fn irreconcilable(left: RoomingIntent, right: RoomingIntent) -> bool {
    let same = RoomingRelation::SameRoom;
    let separate = RoomingRelation::SeparateRoom;
    &&& left.strength == ConstraintStrength::Must
    &&& right.strength == ConstraintStrength::Must
    &&& set![left.left, left.right] == set![right.left, right.right]
    &&& set![left.relation, right.relation] == set![same, separate]
}

proof fn lemma_contradiction_is_irreconcilable(left: RoomingIntent, right: RoomingIntent)
    ensures
        contradicts(left, right) <==> irreconcilable(left, right),
{
    let same = RoomingRelation::SameRoom;
    let separate = RoomingRelation::SeparateRoom;
    let ours = set![left.left, left.right];
    let theirs = set![right.left, right.right];
    let relations = set![left.relation, right.relation];
    let opposed = set![same, separate];
    if contradicts(left, right) {
        assert(ours =~= theirs);
        assert(relations =~= opposed);
    }
    if irreconcilable(left, right) {
        assert(ours.contains(right.left) && ours.contains(right.right));
        assert(theirs.contains(left.left) && theirs.contains(left.right));
        assert(relations.contains(same) && relations.contains(separate));
        assert(opposed.contains(left.relation) && opposed.contains(right.relation));
    }
}

/// A rooming intent is taken exactly if it joins two travelers of the party, there is room for it
/// or it is there already, and it can be met together with every intent before it. It then belongs
/// to the party as it was given, beside all that did; otherwise nothing changes.
pub proof fn law_added_intent_belongs_to_the_party(state: PartyBuilderView, intent: RoomingIntent)
    requires
        state.valid(),
    ensures
        ({
            let (after, answer) = state.with_rooming_intent(intent);
            let rooming = state.party.rooming;
            &&& answer is Ok <==> {
                &&& joinable(state.party, intent.left, intent.right)
                &&& rooming.contains(intent) || rooming.len() < 512
                &&& forall|i: int|
                    0 <= i < rooming.len() ==> !irreconcilable(#[trigger] rooming[i], intent)
            }
            &&& answer is Ok ==> gained(rooming, after.party.rooming, intent)
            &&& after == (PartyBuilderView {
                party: PartyView { rooming: after.party.rooming, ..state.party },
                ..state
            })
            &&& answer is Err ==> after == state
        }),
{
    let rooming = state.party.rooming;
    lemma_known_by_number(state.party, intent.left);
    lemma_known_by_number(state.party, intent.right);
    law_placed_keeps_order_and_items(rooming, intent);
    assert forall|other: RoomingIntent| #[trigger]
        other.spec_key() == intent.spec_key() && rooming.contains(other) implies other
        == intent by {
        lemma_intent_key(other, intent);
    }
    lemma_held_is_contained(rooming, intent);
    assert forall|i: int| 0 <= i < rooming.len() implies irreconcilable(
        #[trigger] rooming[i],
        intent,
    ) == contradicts(rooming[i], intent) by {
        lemma_contradiction_is_irreconcilable(rooming[i], intent);
    }
    let (after, answer) = state.with_rooming_intent(intent);
    if answer is Ok {
        assert forall|other: RoomingIntent| #[trigger]
            after.party.rooming.contains(other) <==> rooming.contains(other) || other == intent by {
            if other.spec_key() == intent.spec_key() {
                lemma_intent_key(other, intent);
            }
        }
    }
}

/// A traveler of the party joins a group, which exists from then on, as long as there is room for
/// the group and for the membership; the other groups and everything else stay as they were.
pub proof fn law_added_member_belongs_to_the_group(
    state: PartyBuilderView,
    group: GroupId,
    member: TravelerId,
    other_group: u32,
)
    requires
        state.valid(),
    ensures
        ({
            let (after, answer) = state.with_group_member(group, member);
            let exists_already = state.party.groups.contains_key(group.0);
            let belongs = exists_already && state.party.groups[group.0].contains(member);
            let known = exists|i: int|
                0 <= i < state.party.travelers.len() && (#[trigger] state.party.travelers[i]).id
                    == member;
            &&& answer is Ok <==> known && (exists_already || state.party.groups.len()
                < 128) && (belongs || state.memberships < 1_024)
            &&& answer is Ok ==> {
                &&& after.party.groups.contains_key(group.0)
                &&& after.party.groups[group.0].contains(member)
                &&& after.memberships == state.memberships + if belongs {
                    0int
                } else {
                    1
                }
                &&& forall|other: TravelerId|
                    other != member ==> (#[trigger] after.party.groups[group.0].contains(other)
                        <==> exists_already && state.party.groups[group.0].contains(other))
            }
            &&& other_group != group.0 ==> {
                &&& after.party.groups.contains_key(other_group)
                    == state.party.groups.contains_key(other_group)
                &&& state.party.groups.contains_key(other_group)
                    ==> after.party.groups[other_group] == state.party.groups[other_group]
            }
            &&& after.party == (PartyView { groups: after.party.groups, ..state.party })
            &&& answer is Err ==> after.memberships == state.memberships
        }),
{
    let members = state.members(group);
    lemma_known_by_number(state.party, member);
    assert(ascending(members));
    law_placed_keeps_order_and_items(members, member);
    assert forall|other: TravelerId| #[trigger]
        other.spec_key() == member.spec_key() && members.contains(other) implies other
        == member by {}
    lemma_held_is_contained(members, member);
    let (after, answer) = state.with_group_member(group, member);
    if answer is Ok {
        assert forall|other: TravelerId| other != member implies (
        #[trigger] after.party.groups[group.0].contains(other) <==> members.contains(other)) by {
            assert(other.spec_key() != member.spec_key());
        }
    }
}

/// Whether a traveler with this number is among some travelers.
pub open spec fn is_among(travelers: Seq<Traveler>, id: TravelerId) -> bool {
    exists|i: int| 0 <= i < travelers.len() && (#[trigger] travelers[i]).id == id
}

/// Each refusal of an edge is true: it names a traveler of the edge who does not belong to the
/// party, or the one traveler whom it would join to themselves, or there is no room for it.
pub proof fn law_refused_edge_is_refused_truly(
    state: PartyBuilderView,
    relationship: Relationship,
    guardian: GuardianRelationship,
    intent: RoomingIntent,
)
    requires
        state.valid(),
    ensures
        state.with_relationship(relationship).1 matches Err(error) ==> match error {
            PartyError::UnknownTraveler(id) => (id == relationship.from || id == relationship.to)
                && !is_among(state.party.travelers, id),
            PartyError::SelfEdge(id) => id == relationship.from && id == relationship.to,
            PartyError::TooManyRelationships => state.party.relationships.len() >= 512,
            _ => false,
        },
        state.with_guardian(guardian).1 matches Err(error) ==> match error {
            PartyError::UnknownTraveler(id) => (id == guardian.guardian || id
                == guardian.dependent) && !is_among(state.party.travelers, id),
            PartyError::SelfEdge(id) => id == guardian.guardian && id == guardian.dependent,
            PartyError::TooManyGuardianRelationships => state.party.guardians.len() >= 256,
            _ => false,
        },
        state.with_rooming_intent(intent).1 matches Err(error) ==> match error {
            PartyError::UnknownTraveler(id) => (id == intent.left || id == intent.right)
                && !is_among(state.party.travelers, id),
            PartyError::SelfEdge(id) => id == intent.left && id == intent.right,
            PartyError::TooManyRoomingEdges => state.party.rooming.len() >= 512,
            PartyError::ContradictoryHardRoomingIntent => exists|i: int|
                0 <= i < state.party.rooming.len() && irreconcilable(
                    #[trigger] state.party.rooming[i],
                    intent,
                ),
            _ => false,
        },
{
    lemma_known_by_number(state.party, relationship.from);
    lemma_known_by_number(state.party, relationship.to);
    lemma_known_by_number(state.party, guardian.guardian);
    lemma_known_by_number(state.party, guardian.dependent);
    lemma_known_by_number(state.party, intent.left);
    lemma_known_by_number(state.party, intent.right);
    let rooming = state.party.rooming;
    if contradicted(rooming, intent) {
        let i = choose|i: int|
            0 <= i < rooming.len() && contradicts(#[trigger] rooming[i], intent);
        lemma_contradiction_is_irreconcilable(rooming[i], intent);
    }
}

/// Each refusal of a group member is true: the traveler does not belong to the party, there is no
/// room for another group, or none for another membership. The group exists even then.
pub proof fn law_refused_member_is_refused_truly(
    state: PartyBuilderView,
    group: GroupId,
    member: TravelerId,
)
    requires
        state.valid(),
    ensures
        ({
            let (after, answer) = state.with_group_member(group, member);
            answer matches Err(error) ==> match error {
                PartyError::UnknownTraveler(id) => id == member && !is_among(
                    state.party.travelers,
                    id,
                ) && after == state,
                PartyError::TooManyGroups => !state.party.groups.contains_key(group.0)
                    && state.party.groups.len() >= 128 && after == state,
                PartyError::TooManyGroupMemberships => {
                    &&& state.memberships >= 1_024
                    &&& after.party.groups.contains_key(group.0)
                    &&& state.party.groups.contains_key(group.0) ==> after.party.groups[group.0]
                        == state.party.groups[group.0]
                    &&& !state.party.groups.contains_key(group.0)
                        ==> after.party.groups[group.0].len() == 0
                },
                _ => false,
            }
        }),
{
    lemma_known_by_number(state.party, member);
}

} // verus!
