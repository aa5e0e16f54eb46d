//! Traveler-aware validation of one room.
//!
//! Ages and guardians come from the requested stay and the explicit party graph; how travelers are
//! related never silently becomes a requirement on rooms.

use crate::ordered::{ascending, holds, law_placed_keeps_order_and_items, Keyed, OrderedList};
use crate::party::{
    traveler_name, traveler_text, BookingParty, CivilDate, ConstraintStrength, DateView,
    GuardianRelationship, PartyView, RoomingIntent, RoomingRelation, Traveler, TravelerId,
    MAX_TRAVELERS,
};
use crate::text::{
    bracketed, bracketed_text, decimal, numbered_text, with_fields, with_fields_text,
};
use vstd::prelude::*;

verus! {

/// Who is in a room, by number.
#[derive(Clone, Copy, Debug, PartialEq, Eq, Structural)]
pub struct OccupancyReport {
    pub occupant_count: u16,
    pub adult_count: u16,
    pub child_count: u16,
}

/// What a hotel policy is told of one occupant.
#[derive(Clone, Copy, Debug, PartialEq, Eq, Structural)]
pub struct Occupant {
    pub traveler_id: TravelerId,
    pub age: u16,
    pub authorized_guardian_present: bool,
}

/// What a hotel policy is told of one room.
#[derive(Clone, Debug, PartialEq, Eq)]
pub struct OccupancyContext {
    pub occupants: Vec<Occupant>,
}

/// Why a policy cannot look at a room.
#[derive(Clone, Copy, Debug, PartialEq, Eq, Structural)]
pub enum RuleError {
    InvalidOccupantCount(usize),
}

/// Why a policy gave up.
#[derive(Clone, Copy, Debug, PartialEq, Eq, Structural)]
pub enum CompileError {
    RuntimeInvariant,
}

/// What a hotel policy says of one room.
#[derive(Clone, Copy, Debug, PartialEq, Eq, Structural)]
pub enum PolicyVerdict {
    Accepted,
    Rejected,
    InvalidContext(RuleError),
    Failed(CompileError),
}

/// Why a room is refused.
#[derive(Clone, Copy, Debug, PartialEq, Eq, Structural)]
pub enum OccupancyError {
    EmptyRoom,
    InvalidAdultAge,
    DuplicateOccupant,
    UnknownTraveler(TravelerId),
    InvalidAge(TravelerId),
    CountOverflow,
    MustStayTogether { left: TravelerId, right: TravelerId },
    MustStaySeparate { left: TravelerId, right: TravelerId },
    InvalidContext(RuleError),
    CompiledRule(CompileError),
    PolicyRejected,
}

/// What a binding intent has against the occupants of a room, if anything.
pub open spec fn intent_error(intent: RoomingIntent, room: Seq<TravelerId>) -> Option<
    OccupancyError,
> {
    let left = room.contains(intent.left);
    let right = room.contains(intent.right);
    if intent.strength != ConstraintStrength::Must {
        None
    } else if intent.relation == RoomingRelation::SameRoom && left != right {
        Some(OccupancyError::MustStayTogether { left: intent.left, right: intent.right })
    } else if intent.relation == RoomingRelation::SeparateRoom && left && right {
        Some(OccupancyError::MustStaySeparate { left: intent.left, right: intent.right })
    } else {
        None
    }
}

/// What the first of `rooming` that has anything against the occupants of a room has against
/// them.
pub open spec fn rooming_error(rooming: Seq<RoomingIntent>, room: Seq<TravelerId>) -> Option<
    OccupancyError,
>
    decreases rooming.len(),
{
    if rooming.len() == 0 {
        None
    } else {
        match intent_error(rooming[0], room) {
            Some(error) => Some(error),
            None => rooming_error(rooming.drop_first(), room),
        }
    }
}

/// Whether a guardian who may room with `id` is among the occupants of a room.
pub open spec fn guardian_present(
    guardians: Seq<GuardianRelationship>,
    room: Seq<TravelerId>,
    id: TravelerId,
) -> bool {
    exists|i: int|
        0 <= i < guardians.len() && (#[trigger] guardians[i]).dependent == id
            && guardians[i].valid_for_rooming && room.contains(guardians[i].guardian)
}

/// The traveler of a party with this number.
pub open spec fn traveler_of(party: PartyView, id: TravelerId) -> Traveler {
    choose|traveler: Traveler| #[trigger] party.travelers.contains(traveler) && traveler.id == id
}

/// What a policy is told of one occupant of a room.
pub open spec fn occupant_of(
    party: PartyView,
    check_in: DateView,
    room: Seq<TravelerId>,
    id: TravelerId,
) -> Result<Occupant, OccupancyError> {
    if !party.knows(id) {
        Err(OccupancyError::UnknownTraveler(id))
    } else {
        match traveler_of(party, id).age.spec_age_at(check_in) {
            Err(_) => Err(OccupancyError::InvalidAge(id)),
            Ok(age) => Ok(
                Occupant {
                    traveler_id: id,
                    age,
                    authorized_guardian_present: guardian_present(party.guardians, room, id),
                },
            ),
        }
    }
}

/// `rest` behind `done`, where there is a rest.
pub open spec fn after_occupants(
    done: Seq<Occupant>,
    rest: Result<Seq<Occupant>, OccupancyError>,
) -> Result<Seq<Occupant>, OccupancyError> {
    match rest {
        Ok(rest) => Ok(done + rest),
        Err(error) => Err(error),
    }
}

/// What a policy is told of some occupants of a room, or what is wrong with the first of them that
/// something is wrong with.
pub open spec fn occupants_of(
    party: PartyView,
    check_in: DateView,
    room: Seq<TravelerId>,
    ids: Seq<TravelerId>,
) -> Result<Seq<Occupant>, OccupancyError>
    decreases ids.len(),
{
    if ids.len() == 0 {
        Ok(seq![])
    } else {
        match occupant_of(party, check_in, room, ids[0]) {
            Err(error) => Err(error),
            Ok(occupant) => after_occupants(
                seq![occupant],
                occupants_of(party, check_in, room, ids.drop_first()),
            ),
        }
    }
}

/// What a policy is told of a room, or why the room is refused before any policy is asked.
pub open spec fn room_context(
    party: PartyView,
    check_in: DateView,
    room: Seq<TravelerId>,
    adult_age: u16,
) -> Result<Seq<Occupant>, OccupancyError> {
    if room.len() == 0 {
        Err(OccupancyError::EmptyRoom)
    } else if adult_age == 0 {
        Err(OccupancyError::InvalidAdultAge)
    } else if !room.no_duplicates() {
        Err(OccupancyError::DuplicateOccupant)
    } else {
        match rooming_error(party.rooming, room) {
            Some(error) => Err(error),
            None => occupants_of(party, check_in, room, room),
        }
    }
}

/// The number of occupants who are adults.
pub open spec fn adult_number(occupants: Seq<Occupant>, adult_age: u16) -> nat
    decreases occupants.len(),
{
    if occupants.len() == 0 {
        0
    } else {
        adult_number(occupants.drop_last(), adult_age) + if occupants.last().age >= adult_age {
            1nat
        } else {
            0
        }
    }
}

/// The answer for a room that a policy has looked at.
pub open spec fn judged(occupants: Seq<Occupant>, adult_age: u16, verdict: PolicyVerdict) -> Result<
    OccupancyReport,
    OccupancyError,
> {
    let adults = adult_number(occupants, adult_age);
    let children = occupants.len() - adults;
    if adults > u16::MAX || children > u16::MAX {
        Err(OccupancyError::CountOverflow)
    } else {
        match verdict {
            PolicyVerdict::InvalidContext(error) => Err(OccupancyError::InvalidContext(error)),
            PolicyVerdict::Failed(error) => Err(OccupancyError::CompiledRule(error)),
            PolicyVerdict::Rejected => Err(OccupancyError::PolicyRejected),
            PolicyVerdict::Accepted => if occupants.len() > u16::MAX {
                Err(OccupancyError::CountOverflow)
            } else {
                Ok(
                    OccupancyReport {
                        occupant_count: occupants.len() as u16,
                        adult_count: adults as u16,
                        child_count: children as u16,
                    },
                )
            },
        }
    }
}

proof fn lemma_adults_are_occupants(occupants: Seq<Occupant>, adult_age: u16)
    ensures
        adult_number(occupants, adult_age) <= occupants.len(),
    decreases occupants.len(),
{
    if occupants.len() > 0 {
        lemma_adults_are_occupants(occupants.drop_last(), adult_age);
    }
}

proof fn lemma_counts_grow(occupants: Seq<Occupant>, count: int, adult_age: u16)
    requires
        0 <= count <= occupants.len(),
    ensures
        adult_number(occupants.take(count), adult_age) <= adult_number(occupants, adult_age),
        count - adult_number(occupants.take(count), adult_age) <= occupants.len() - adult_number(
            occupants,
            adult_age,
        ),
    decreases occupants.len() - count,
{
    if count == occupants.len() {
        assert(occupants.take(count) =~= occupants);
    } else {
        lemma_counts_grow(occupants, count + 1, adult_age);
        assert(occupants.take(count + 1).drop_last() =~= occupants.take(count));
    }
}

proof fn lemma_known_room_is_small(party: PartyView, room: Seq<TravelerId>)
    requires
        party.valid(),
        room.no_duplicates(),
        forall|i: int| 0 <= i < room.len() ==> party.knows(#[trigger] room[i]),
    ensures
        room.len() <= MAX_TRAVELERS,
{
    let ids = party.travelers.map_values(|traveler: Traveler| traveler.id);
    assert forall|id: TravelerId| room.to_set().contains(id) implies ids.to_set().contains(id) by {
        let i = choose|i: int| 0 <= i < room.len() && room[i] == id;
        assert(party.knows(room[i]));
        let j = choose|j: int|
            0 <= j < party.travelers.len() && (#[trigger] party.travelers[j]).spec_key()
                == id.0 as u128;
        assert(ids[j] == id);
    }
    room.unique_seq_to_set();
    ids.lemma_cardinality_of_set();
    vstd::set_lib::lemma_len_subset(room.to_set(), ids.to_set());
}

proof fn lemma_traveler_is_the_one(party: PartyView, traveler: Traveler)
    requires
        party.valid(),
        party.travelers.contains(traveler),
    ensures
        party.knows(traveler.id),
        traveler_of(party, traveler.id) == traveler,
{
    let i = choose|i: int| 0 <= i < party.travelers.len() && party.travelers[i] == traveler;
    assert(party.travelers[i].spec_key() == traveler.id.0 as u128);
    let other = traveler_of(party, traveler.id);
    assert(party.travelers.contains(other) && other.id == traveler.id);
    let j = choose|j: int| 0 <= j < party.travelers.len() && party.travelers[j] == other;
    if i < j {
        assert(party.travelers[i].spec_key() < party.travelers[j].spec_key());
    } else if j < i {
        assert(party.travelers[j].spec_key() < party.travelers[i].spec_key());
    }
}

/// The occupants as an ordered list, where none occurs twice.
fn distinct_occupants(room: &[TravelerId]) -> (result: Option<OrderedList<TravelerId>>)
    ensures
        match result {
            Some(list) => room@.no_duplicates() && forall|id: TravelerId|
                #[trigger] holds(list@, id.spec_key()) <==> room@.contains(id),
            None => !room@.no_duplicates(),
        },
{
    let mut list: OrderedList<TravelerId> = OrderedList::new();
    let mut index: usize = 0;
    while index < room.len()
        invariant
            index <= room@.len(),
            room@.take(index as int).no_duplicates(),
            ascending(list@),
            forall|id: TravelerId| #[trigger]
                holds(list@, id.spec_key()) <==> room@.take(index as int).contains(id),
        decreases room@.len() - index,
    {
        let ghost before = list@;
        let ghost done = room@.take(index as int);
        let id = room[index];
        let replaced = list.put(id);
        proof {
            law_placed_keeps_order_and_items(before, id);
        }
        if replaced {
            proof {
                assert(done.contains(id));
                let i = choose|i: int| 0 <= i < done.len() && done[i] == id;
                assert(room@[i] == room@[index as int]);
            }
            return None;
        }
        proof {
            let now = room@.take(index + 1);
            assert(now =~= done.push(id));
            assert forall|other: TravelerId| #[trigger]
                holds(list@, other.spec_key()) <==> now.contains(other) by {
                if holds(list@, other.spec_key()) {
                    let i = choose|i: int|
                        0 <= i < list@.len() && (#[trigger] list@[i]).spec_key()
                            == other.spec_key();
                    assert(list@.contains(list@[i]));
                    if list@[i] == id {
                        assert(now[index as int] == id);
                    } else {
                        assert(before.contains(other));
                        let j = choose|j: int| 0 <= j < before.len() && before[j] == other;
                        assert(before[j].spec_key() == other.spec_key());
                        assert(holds(before, other.spec_key()));
                        assert(done.contains(other));
                        let k = choose|k: int| 0 <= k < done.len() && done[k] == other;
                        assert(now[k] == other);
                    }
                }
                if now.contains(other) {
                    let k = choose|k: int| 0 <= k < now.len() && now[k] == other;
                    if k == index {
                        assert(list@.contains(id));
                    } else {
                        assert(done[k] == other);
                        assert(holds(before, other.spec_key()));
                        let j = choose|j: int|
                            0 <= j < before.len() && (#[trigger] before[j]).spec_key()
                                == other.spec_key();
                        assert(before.contains(other));
                        assert(list@.contains(other));
                    }
                    let i = choose|i: int| 0 <= i < list@.len() && list@[i] == other;
                    assert(list@[i].spec_key() == other.spec_key());
                }
            }
            assert(now.no_duplicates()) by {
                assert(!done.contains(id));
                assert forall|i: int, j: int| 0 <= i < j < now.len() implies now[i] != now[j] by {
                    if j == index {
                        assert(done[i] == now[i]);
                    } else {
                        assert(done[i] == now[i] && done[j] == now[j]);
                    }
                }
            }
        }
        index = index + 1;
    }
    assert(room@.take(index as int) =~= room@);
    Some(list)
}

fn enforce_rooming(
    rooming: &[RoomingIntent],
    occupants: &OrderedList<TravelerId>,
    Ghost(room): Ghost<Seq<TravelerId>>,
) -> (result: Result<(), OccupancyError>)
    requires
        forall|id: TravelerId|
            #[trigger] holds(occupants@, id.spec_key()) <==> room.contains(id),
    ensures
        result == (match rooming_error(rooming@, room) {
            Some(error) => Err::<(), OccupancyError>(error),
            None => Ok(()),
        }),
{
    let mut index: usize = 0;
    assert(rooming@.skip(0) =~= rooming@);
    while index < rooming.len()
        invariant
            index <= rooming@.len(),
            forall|id: TravelerId|
                #[trigger] holds(occupants@, id.spec_key()) <==> room.contains(id),
            rooming_error(rooming@, room) == rooming_error(rooming@.skip(index as int), room),
        decreases rooming@.len() - index,
    {
        let ghost rest = rooming@.skip(index as int);
        assert(rest.drop_first() =~= rooming@.skip(index + 1));
        let intent = rooming[index];
        assert(rest[0] == intent);
        if intent.strength == ConstraintStrength::Must {
            let left = occupants.contains_key(intent.left.key());
            let right = occupants.contains_key(intent.right.key());
            match intent.relation {
                RoomingRelation::SameRoom => {
                    if left != right {
                        return Err(
                            OccupancyError::MustStayTogether {
                                left: intent.left,
                                right: intent.right,
                            },
                        );
                    }
                },
                RoomingRelation::SeparateRoom => {
                    if left && right {
                        return Err(
                            OccupancyError::MustStaySeparate {
                                left: intent.left,
                                right: intent.right,
                            },
                        );
                    }
                },
                _ => {},
            }
        }
        index = index + 1;
    }
    Ok(())
}

fn has_guardian(
    guardians: &[GuardianRelationship],
    occupants: &OrderedList<TravelerId>,
    id: TravelerId,
    Ghost(room): Ghost<Seq<TravelerId>>,
) -> (present: bool)
    requires
        forall|other: TravelerId|
            #[trigger] holds(occupants@, other.spec_key()) <==> room.contains(other),
    ensures
        present == guardian_present(guardians@, room, id),
{
    let mut index: usize = 0;
    while index < guardians.len()
        invariant
            index <= guardians@.len(),
            forall|other: TravelerId|
                #[trigger] holds(occupants@, other.spec_key()) <==> room.contains(other),
            forall|i: int|
                0 <= i < index ==> !((#[trigger] guardians@[i]).dependent == id
                    && guardians@[i].valid_for_rooming && room.contains(guardians@[i].guardian)),
        decreases guardians@.len() - index,
    {
        let edge = guardians[index];
        if edge.dependent == id && edge.valid_for_rooming && occupants.contains_key(
            edge.guardian.key(),
        ) {
            assert(guardians@[index as int] == edge);
            return true;
        }
        index = index + 1;
    }
    false
}

/// Collects what a policy is told of a room, and enforces everything that needs no policy.
#[verifier::loop_isolation(false)]
pub fn occupancy_context(
    party: &BookingParty,
    check_in: CivilDate,
    occupant_ids: &[TravelerId],
    adult_age: u16,
) -> (result: Result<OccupancyContext, OccupancyError>)
    ensures
        match result {
            Ok(context) => room_context(party@, check_in@, occupant_ids@, adult_age) == Ok::<
                Seq<Occupant>,
                OccupancyError,
            >(context.occupants@) && context.occupants@.len() == occupant_ids@.len()
                && occupant_ids@.len() <= MAX_TRAVELERS,
            Err(error) => room_context(party@, check_in@, occupant_ids@, adult_age) == Err::<
                Seq<Occupant>,
                OccupancyError,
            >(error),
        },
{
    if occupant_ids.len() == 0 {
        return Err(OccupancyError::EmptyRoom);
    }
    if adult_age == 0 {
        return Err(OccupancyError::InvalidAdultAge);
    }
    let occupant_set = match distinct_occupants(occupant_ids) {
        Some(occupant_set) => occupant_set,
        None => return Err(OccupancyError::DuplicateOccupant),
    };
    let ghost room = occupant_ids@;
    let travelers = party.travelers();
    let rooming = party.rooming_intents().as_slice();
    let guardians = party.guardians().as_slice();
    enforce_rooming(rooming, &occupant_set, Ghost(room))?;
    let mut occupants: Vec<Occupant> = Vec::new();
    let mut index: usize = 0;
    proof {
        assert(room.skip(0) =~= room);
        if let Ok(all) = occupants_of(party@, check_in@, room, room) {
            assert(occupants@ + all =~= all);
        }
    }
    while index < occupant_ids.len()
        invariant
            index <= room.len(),
            occupants@.len() == index,
            forall|i: int| 0 <= i < index ==> party@.knows(#[trigger] room[i]),
            occupants_of(party@, check_in@, room, room) == after_occupants(
                occupants@,
                occupants_of(party@, check_in@, room, room.skip(index as int)),
            ),
        decreases room.len() - index,
    {
        let ghost left = room.skip(index as int);
        let ghost done = occupants@;
        let id = occupant_ids[index];
        assert(left[0] == id);
        assert(left.drop_first() =~= room.skip(index + 1));
        let traveler = match party.traveler(id) {
            Some(traveler) => traveler,
            None => return Err(OccupancyError::UnknownTraveler(id)),
        };
        proof {
            lemma_traveler_is_the_one(party@, *traveler);
        }
        let age: u16 = match traveler.age_evidence().age_at(check_in) {
            Ok(age) => age,
            Err(_) => return Err(OccupancyError::InvalidAge(id)),
        };
        let occupant = Occupant {
            traveler_id: id,
            age,
            authorized_guardian_present: has_guardian(guardians, &occupant_set, id, Ghost(room)),
        };
        occupants.push(occupant);
        proof {
            if let Ok(rest) = occupants_of(party@, check_in@, room, room.skip(index + 1)) {
                assert(done + (seq![occupant] + rest) =~= occupants@ + rest);
            }
        }
        index = index + 1;
    }
    proof {
        assert(room.skip(index as int) =~= Seq::<TravelerId>::empty());
        assert(occupants@ + Seq::<Occupant>::empty() =~= occupants@);
        lemma_known_room_is_small(party@, room);
    }
    Ok(OccupancyContext { occupants })
}

/// Gives the answer for a room that a policy has looked at.
pub fn judge_room(context: &OccupancyContext, adult_age: u16, verdict: PolicyVerdict) -> (result:
    Result<OccupancyReport, OccupancyError>)
    ensures
        result == judged(context.occupants@, adult_age, verdict),
{
    let occupants = &context.occupants;
    let mut adults: u16 = 0;
    let mut children: u16 = 0;
    let mut index: usize = 0;
    while index < occupants.len()
        invariant
            index <= occupants@.len(),
            occupants@ == context.occupants@,
            adults == adult_number(occupants@.take(index as int), adult_age),
            adults + children == index,
        decreases occupants@.len() - index,
    {
        proof {
            assert(occupants@.take(index + 1).drop_last() =~= occupants@.take(index as int));
            lemma_counts_grow(occupants@, index + 1, adult_age);
        }
        if occupants[index].age >= adult_age {
            adults = match adults.checked_add(1) {
                Some(count) => count,
                None => return Err(OccupancyError::CountOverflow),
            };
        } else {
            children = match children.checked_add(1) {
                Some(count) => count,
                None => return Err(OccupancyError::CountOverflow),
            };
        }
        index = index + 1;
    }
    assert(occupants@.take(index as int) =~= occupants@);
    match verdict {
        PolicyVerdict::InvalidContext(error) => Err(OccupancyError::InvalidContext(error)),
        PolicyVerdict::Failed(error) => Err(OccupancyError::CompiledRule(error)),
        PolicyVerdict::Rejected => Err(OccupancyError::PolicyRejected),
        PolicyVerdict::Accepted => match adults.checked_add(children) {
            Some(occupant_count) => Ok(
                OccupancyReport { occupant_count, adult_count: adults, child_count: children },
            ),
            None => Err(OccupancyError::CountOverflow),
        },
    }
}

/// Validates one physical room against a hotel policy and the party's binding constraints.
///
/// The policy is asked once, and only about a room that nothing else rules out.
pub fn validate_room<F: Fn(&OccupancyContext) -> PolicyVerdict>(
    policy: &F,
    party: &BookingParty,
    check_in: CivilDate,
    occupant_ids: &[TravelerId],
    adult_age: u16,
) -> (result: Result<OccupancyReport, OccupancyError>)
    requires
        forall|context: OccupancyContext| call_requires(*policy, (&context,)),
    ensures
        match room_context(party@, check_in@, occupant_ids@, adult_age) {
            Err(error) => result == Err::<OccupancyReport, OccupancyError>(error),
            Ok(occupants) => exists|context: OccupancyContext, verdict: PolicyVerdict|
                {
                    &&& context.occupants@ == occupants
                    &&& #[trigger] call_ensures(*policy, (&context,), verdict)
                    &&& result == judged(occupants, adult_age, verdict)
                },
        },
{
    let context = occupancy_context(party, check_in, occupant_ids, adult_age)?;
    let verdict = policy(&context);
    judge_room(&context, adult_age, verdict)
}

/// A room that is accepted has every occupant counted once, as an adult or a child, and never more
/// than a party has travelers, so the counts of a room of a party never overflow.
pub proof fn law_accepted_room_counts_everyone_once(
    party: PartyView,
    check_in: DateView,
    room: Seq<TravelerId>,
    adult_age: u16,
    verdict: PolicyVerdict,
)
    requires
        party.valid(),
    ensures
        room_context(party, check_in, room, adult_age) matches Ok(occupants) ==> {
            &&& 1 <= occupants.len() == room.len() <= 64
            &&& judged(occupants, adult_age, verdict) != Err::<OccupancyReport, OccupancyError>(
                OccupancyError::CountOverflow,
            )
            &&& judged(occupants, adult_age, verdict) matches Ok(report) ==> {
                &&& report.occupant_count == room.len()
                &&& report.occupant_count == report.adult_count + report.child_count
            }
        },
{
    if let Ok(occupants) = room_context(party, check_in, room, adult_age) {
        lemma_occupants_are_known(party, check_in, room, room);
        lemma_known_room_is_small(party, room);
        lemma_adults_are_occupants(occupants, adult_age);
    }
}

proof fn lemma_occupants_are_known(
    party: PartyView,
    check_in: DateView,
    room: Seq<TravelerId>,
    ids: Seq<TravelerId>,
)
    ensures
        occupants_of(party, check_in, room, ids) matches Ok(occupants) ==> occupants.len()
            == ids.len() && forall|i: int| 0 <= i < ids.len() ==> party.knows(#[trigger] ids[i]),
    decreases ids.len(),
{
    if ids.len() > 0 {
        let rest = ids.drop_first();
        lemma_occupants_are_known(party, check_in, room, rest);
        if occupants_of(party, check_in, room, ids) is Ok {
            assert forall|i: int| 0 <= i < ids.len() implies party.knows(#[trigger] ids[i]) by {
                if i > 0 {
                    assert(rest[i - 1] == ids[i]);
                }
            }
        }
    }
}

/// Intents that are not binding never refuse a room.
pub proof fn law_soft_intents_never_refuse_a_room(
    rooming: Seq<RoomingIntent>,
    room: Seq<TravelerId>,
)
    requires
        forall|i: int|
            0 <= i < rooming.len() ==> (#[trigger] rooming[i]).strength != ConstraintStrength::Must,
    ensures
        rooming_error(rooming, room) is None,
    decreases rooming.len(),
{
    if rooming.len() > 0 {
        let rest = rooming.drop_first();
        assert forall|i: int| 0 <= i < rest.len() implies (#[trigger] rest[i]).strength
            != ConstraintStrength::Must by {
            assert(rest[i] == rooming[i + 1]);
        }
        law_soft_intents_never_refuse_a_room(rest, room);
    }
}

/// Whether an intent can refuse a room: it is binding and says that two travelers share a room or
/// that they do not.
pub open spec fn binding(intent: RoomingIntent) -> bool {
    &&& intent.strength == ConstraintStrength::Must
    &&& intent.relation == RoomingRelation::SameRoom || intent.relation
        == RoomingRelation::SeparateRoom
}

/// Whether two lists of guardian relationships hold the same ones that are valid for rooming.
pub open spec fn same_valid_guardians(
    guardians: Seq<GuardianRelationship>,
    others: Seq<GuardianRelationship>,
) -> bool {
    forall|edge: GuardianRelationship|
        edge.valid_for_rooming ==> (#[trigger] guardians.contains(edge) <==> others.contains(edge))
}

/// Whether two lists of rooming intents hold the same ones that can refuse a room.
pub open spec fn same_binding_intents(
    rooming: Seq<RoomingIntent>,
    others: Seq<RoomingIntent>,
) -> bool {
    forall|intent: RoomingIntent|
        binding(intent) ==> (#[trigger] rooming.contains(intent) <==> others.contains(intent))
}

/// The error of a list of intents is that of the first one that has an error.
proof fn lemma_first_intent_error(rooming: Seq<RoomingIntent>, room: Seq<TravelerId>) -> (at: int)
    ensures
        match rooming_error(rooming, room) {
            Some(error) => {
                &&& 0 <= at < rooming.len()
                &&& intent_error(rooming[at], room) == Some(error)
                &&& forall|i: int|
                    0 <= i < at ==> intent_error(#[trigger] rooming[i], room) is None
            },
            None => forall|i: int|
                0 <= i < rooming.len() ==> intent_error(#[trigger] rooming[i], room) is None,
        },
    decreases rooming.len(),
{
    if rooming.len() == 0 || intent_error(rooming[0], room) is Some {
        0
    } else {
        let rest = rooming.drop_first();
        let at = lemma_first_intent_error(rest, room);
        assert forall|i: int| 0 < i < rooming.len() implies rooming[i] == rest[i - 1] by {}
        at + 1
    }
}

proof fn lemma_same_rooming_error(
    rooming: Seq<RoomingIntent>,
    others: Seq<RoomingIntent>,
    room: Seq<TravelerId>,
)
    requires
        ascending(rooming),
        ascending(others),
        same_binding_intents(rooming, others),
    ensures
        rooming_error(rooming, room) == rooming_error(others, room),
{
    let at = lemma_first_intent_error(rooming, room);
    let by = lemma_first_intent_error(others, room);
    if rooming_error(rooming, room) is Some {
        let intent = rooming[at];
        assert(rooming.contains(intent) && binding(intent));
        assert(others.contains(intent));
        let there = choose|i: int| 0 <= i < others.len() && others[i] == intent;
        assert(intent_error(others[there], room) is Some);
    }
    if rooming_error(others, room) is Some {
        let intent = others[by];
        assert(others.contains(intent) && binding(intent));
        assert(rooming.contains(intent));
        let here = choose|i: int| 0 <= i < rooming.len() && rooming[i] == intent;
        assert(intent_error(rooming[here], room) is Some);
        let first = rooming[at];
        let there = choose|i: int| 0 <= i < others.len() && others[i] == first;
        assert(at <= here && by <= there);
        if at < here {
            assert(rooming[at].spec_key() < rooming[here].spec_key());
            assert(others[by].spec_key() > others[there].spec_key());
        }
    }
}

proof fn lemma_same_guardian_present(
    guardians: Seq<GuardianRelationship>,
    others: Seq<GuardianRelationship>,
    room: Seq<TravelerId>,
    id: TravelerId,
)
    requires
        same_valid_guardians(guardians, others),
        guardian_present(guardians, room, id),
    ensures
        guardian_present(others, room, id),
{
    let i = choose|i: int|
        0 <= i < guardians.len() && (#[trigger] guardians[i]).dependent == id
            && guardians[i].valid_for_rooming && room.contains(guardians[i].guardian);
    assert(guardians.contains(guardians[i]));
    let j = choose|j: int| 0 <= j < others.len() && others[j] == guardians[i];
    assert(others[j].dependent == id);
}

proof fn lemma_same_occupants(
    party: PartyView,
    other: PartyView,
    check_in: DateView,
    room: Seq<TravelerId>,
    ids: Seq<TravelerId>,
)
    requires
        party.valid(),
        other.valid(),
        party.travelers == other.travelers,
        same_valid_guardians(party.guardians, other.guardians),
    ensures
        occupants_of(party, check_in, room, ids) == occupants_of(other, check_in, room, ids),
    decreases ids.len(),
{
    if ids.len() > 0 {
        let id = ids[0];
        if party.knows(id) {
            let i = choose|i: int|
                0 <= i < party.travelers.len() && (#[trigger] party.travelers[i]).spec_key()
                    == id.0 as u128;
            assert(party.travelers.contains(party.travelers[i]));
            lemma_traveler_is_the_one(party, party.travelers[i]);
            lemma_traveler_is_the_one(other, party.travelers[i]);
        }
        if guardian_present(party.guardians, room, id) {
            lemma_same_guardian_present(party.guardians, other.guardians, room, id);
        }
        if guardian_present(other.guardians, room, id) {
            lemma_same_guardian_present(other.guardians, party.guardians, room, id);
        }
        lemma_same_occupants(party, other, check_in, room, ids.drop_first());
    }
}

/// One guardian in the room is enough: whenever some edge that is valid for rooming names an
/// occupant of the room as the guardian of a traveler, the traveler has a guardian there, whatever
/// other edges there are. Without such an edge there is none.
pub proof fn law_one_guardian_in_the_room_is_enough(
    guardians: Seq<GuardianRelationship>,
    more: Seq<GuardianRelationship>,
    room: Seq<TravelerId>,
    id: TravelerId,
)
    ensures
        forall|edge: GuardianRelationship| #[trigger]
            guardians.contains(edge) && edge.dependent == id && edge.valid_for_rooming
                && room.contains(edge.guardian) ==> guardian_present(
                guardians,
                room,
                id,
            ),
        guardian_present(guardians, room, id) ==> exists|edge: GuardianRelationship| #[trigger]
            guardians.contains(edge) && edge.dependent == id && edge.valid_for_rooming
                && room.contains(edge.guardian),
        guardian_present(guardians, room, id) ==> guardian_present(guardians + more, room, id)
            && guardian_present(more + guardians, room, id),
{
    assert forall|edge: GuardianRelationship| #[trigger]
        guardians.contains(edge) && edge.dependent == id && edge.valid_for_rooming && room.contains(
            edge.guardian,
        ) implies guardian_present(
        guardians,
        room,
        id,
    ) by {
        let i = choose|i: int| 0 <= i < guardians.len() && guardians[i] == edge;
        assert(guardians[i].dependent == id);
    }
    if guardian_present(guardians, room, id) {
        let i = choose|i: int|
            0 <= i < guardians.len() && (#[trigger] guardians[i]).dependent == id
                && guardians[i].valid_for_rooming && room.contains(guardians[i].guardian);
        assert(guardians.contains(guardians[i]) && guardians[i].dependent == id);
        assert((guardians + more)[i] == guardians[i]);
        assert((more + guardians)[more.len() + i] == guardians[i]);
    }
}

proof fn lemma_occupants_one_by_one(
    party: PartyView,
    check_in: DateView,
    room: Seq<TravelerId>,
    ids: Seq<TravelerId>,
)
    ensures
        match occupants_of(party, check_in, room, ids) {
            Ok(occupants) => {
                &&& occupants.len() == ids.len()
                &&& forall|i: int|
                    0 <= i < ids.len() ==> occupant_of(
                        party,
                        check_in,
                        room,
                        #[trigger] ids[i],
                    ) == Ok::<Occupant, OccupancyError>(occupants[i])
            },
            Err(error) => exists|i: int|
                {
                    &&& 0 <= i < ids.len()
                    &&& occupant_of(party, check_in, room, #[trigger] ids[i]) == Err::<
                        Occupant,
                        OccupancyError,
                    >(error)
                },
        },
    decreases ids.len(),
{
    if ids.len() > 0 {
        let rest = ids.drop_first();
        lemma_occupants_one_by_one(party, check_in, room, rest);
        match occupants_of(party, check_in, room, ids) {
            Ok(occupants) => {
                let more = occupants_of(party, check_in, room, rest)->Ok_0;
                assert forall|i: int| 0 <= i < ids.len() implies occupant_of(
                    party,
                    check_in,
                    room,
                    #[trigger] ids[i],
                ) == Ok::<Occupant, OccupancyError>(occupants[i]) by {
                    if i > 0 {
                        assert(rest[i - 1] == ids[i]);
                        assert(occupants[i] == more[i - 1]);
                    }
                }
            },
            Err(error) => {
                if occupant_of(party, check_in, room, ids[0]) is Ok {
                    let i = choose|i: int|
                        {
                            &&& 0 <= i < rest.len()
                            &&& occupant_of(party, check_in, room, #[trigger] rest[i]) == Err::<
                                Occupant,
                                OccupancyError,
                            >(error)
                        };
                    assert(ids[i + 1] == rest[i]);
                }
            },
        }
    }
}

/// What a policy is told is true: one entry for each occupant, in the order they were named, with
/// the age at check-in of the traveler of that number, and with a guardian exactly if some edge
/// that is valid for rooming makes another occupant the guardian.
pub proof fn law_policy_is_told_the_truth(
    party: PartyView,
    check_in: DateView,
    room: Seq<TravelerId>,
    adult_age: u16,
    at: int,
)
    requires
        party.valid(),
        0 <= at < room.len(),
    ensures
        room_context(party, check_in, room, adult_age) matches Ok(occupants) ==> {
            &&& occupants.len() == room.len()
            &&& occupants[at].traveler_id == room[at]
            &&& exists|traveler: Traveler|
                {
                    &&& #[trigger] party.travelers.contains(traveler)
                    &&& traveler.id == room[at]
                    &&& traveler.age.spec_age_at(check_in) matches Ok(age)
                    &&& age == occupants[at].age
                }
            &&& occupants[at].authorized_guardian_present <==> exists|edge: GuardianRelationship|
                #[trigger]
                party.guardians.contains(edge) && edge.dependent == room[at]
                    && edge.valid_for_rooming && room.contains(edge.guardian)
        },
{
    if let Ok(occupants) = room_context(party, check_in, room, adult_age) {
        lemma_occupants_one_by_one(party, check_in, room, room);
        let id = room[at];
        assert(occupant_of(party, check_in, room, room[at]) == Ok::<Occupant, OccupancyError>(
            occupants[at],
        ));
        let i = choose|i: int|
            0 <= i < party.travelers.len() && (#[trigger] party.travelers[i]).spec_key()
                == id.0 as u128;
        let traveler = party.travelers[i];
        assert(party.travelers.contains(traveler));
        lemma_traveler_is_the_one(party, traveler);
        law_one_guardian_in_the_room_is_enough(party.guardians, Seq::empty(), room, id);
    }
}

/// Whether a room respects an intent: a binding one for the same room has both of its travelers in
/// the room or neither, a binding one for separate rooms not both; all others ask nothing.
pub open spec fn respects(room: Seq<TravelerId>, intent: RoomingIntent) -> bool {
    intent.strength == ConstraintStrength::Must ==> {
        &&& intent.relation == RoomingRelation::SameRoom ==> (room.contains(intent.left)
            <==> room.contains(intent.right))
        &&& intent.relation == RoomingRelation::SeparateRoom ==> !(room.contains(intent.left)
            && room.contains(intent.right))
    }
}

/// A room is put before the policy exactly if someone is in it, no one twice, the age of adults is
/// not zero, every binding intent of the party is respected, and everyone in it belongs to the
/// party with an age that can be told.
pub proof fn law_room_reaches_the_policy_exactly_if_sound(
    party: PartyView,
    check_in: DateView,
    room: Seq<TravelerId>,
    adult_age: u16,
)
    requires
        party.valid(),
    ensures
        room_context(party, check_in, room, adult_age) is Ok <==> {
            &&& room.len() > 0
            &&& adult_age > 0
            &&& forall|i: int, j: int| 0 <= i < j < room.len() ==> room[i] != room[j]
            &&& forall|intent: RoomingIntent| #[trigger]
                party.rooming.contains(intent) ==> respects(room, intent)
            &&& forall|i: int|
                0 <= i < room.len() ==> exists|traveler: Traveler| #[trigger]
                    party.travelers.contains(traveler) && traveler.id == #[trigger] room[i]
                        && traveler.age.spec_age_at(check_in) is Ok
        },
{
    let ready = room_context(party, check_in, room, adult_age) is Ok;
    let first = lemma_first_intent_error(party.rooming, room);
    let respected = forall|intent: RoomingIntent| #[trigger]
        party.rooming.contains(intent) ==> respects(room, intent);
    let present = forall|i: int|
        0 <= i < room.len() ==> exists|traveler: Traveler| #[trigger]
            party.travelers.contains(traveler) && traveler.id == #[trigger] room[i]
                && traveler.age.spec_age_at(check_in) is Ok;
    if rooming_error(party.rooming, room) is Some {
        assert(party.rooming.contains(party.rooming[first]));
        assert(!respects(room, party.rooming[first]));
    } else {
        assert forall|intent: RoomingIntent| #[trigger]
            party.rooming.contains(intent) implies respects(room, intent) by {
            let i = choose|i: int| 0 <= i < party.rooming.len() && party.rooming[i] == intent;
            assert(intent_error(party.rooming[i], room) is None);
        }
    }
    assert(respected == (rooming_error(party.rooming, room) is None));
    let all_differ = forall|i: int, j: int| 0 <= i < j < room.len() ==> room[i] != room[j];
    if all_differ {
        assert forall|i: int, j: int| 0 <= i < room.len() && 0 <= j < room.len() && i
            != j implies room[i] != room[j] by {
            if j < i {
                assert(room[j] != room[i]);
            }
        }
    }
    assert(all_differ == room.no_duplicates());
    lemma_occupants_one_by_one(party, check_in, room, room);
    if occupants_of(party, check_in, room, room) is Ok {
        assert forall|i: int| 0 <= i < room.len() implies exists|traveler: Traveler| #[trigger]
            party.travelers.contains(traveler) && traveler.id == #[trigger] room[i]
                && traveler.age.spec_age_at(check_in) is Ok by {
            assert(occupant_of(party, check_in, room, room[i]) is Ok);
            let k = choose|k: int|
                0 <= k < party.travelers.len() && (#[trigger] party.travelers[k]).spec_key()
                    == room[i].0 as u128;
            assert(party.travelers.contains(party.travelers[k]));
            lemma_traveler_is_the_one(party, party.travelers[k]);
        }
    }
    if present {
        assert forall|i: int| 0 <= i < room.len() implies occupant_of(
            party,
            check_in,
            room,
            #[trigger] room[i],
        ) is Ok by {
            let traveler = choose|traveler: Traveler| #[trigger]
                party.travelers.contains(traveler) && traveler.id == room[i]
                    && traveler.age.spec_age_at(check_in) is Ok;
            lemma_traveler_is_the_one(party, traveler);
        }
    }
}

/// A room that is refused before the policy is told a reason that holds: an intent that is named
/// belongs to the party, is binding and is not respected; a traveler who is named is in the room
/// and does not belong to the party, or has no age that can be told.
pub proof fn law_refusal_before_the_policy_is_true(
    party: PartyView,
    check_in: DateView,
    room: Seq<TravelerId>,
    adult_age: u16,
)
    requires
        party.valid(),
    ensures
        room_context(party, check_in, room, adult_age) matches Err(error) ==> match error {
            OccupancyError::EmptyRoom => room.len() == 0,
            OccupancyError::InvalidAdultAge => adult_age == 0,
            OccupancyError::DuplicateOccupant => exists|i: int, j: int|
                0 <= i < j < room.len() && room[i] == room[j],
            OccupancyError::MustStayTogether { left, right } => party.rooming.contains(
                RoomingIntent {
                    left,
                    right,
                    strength: ConstraintStrength::Must,
                    relation: RoomingRelation::SameRoom,
                },
            ) && room.contains(left) != room.contains(right),
            OccupancyError::MustStaySeparate { left, right } => party.rooming.contains(
                RoomingIntent {
                    left,
                    right,
                    strength: ConstraintStrength::Must,
                    relation: RoomingRelation::SeparateRoom,
                },
            ) && room.contains(left) && room.contains(right),
            OccupancyError::UnknownTraveler(id) => room.contains(id) && forall|i: int|
                0 <= i < party.travelers.len() ==> (#[trigger] party.travelers[i]).id != id,
            OccupancyError::InvalidAge(id) => room.contains(id) && exists|traveler: Traveler|
                #[trigger]
                party.travelers.contains(traveler) && traveler.id == id
                    && traveler.age.spec_age_at(check_in) is Err,
            _ => false,
        },
{
    if let Err(error) = room_context(party, check_in, room, adult_age) {
        let first = lemma_first_intent_error(party.rooming, room);
        lemma_occupants_one_by_one(party, check_in, room, room);
        if room.len() > 0 && adult_age > 0 {
            if !room.no_duplicates() {
                let (i, j) = choose|i: int, j: int|
                    0 <= i < room.len() && 0 <= j < room.len() && i != j && room[i] == room[j];
                if i < j {
                    assert(room[i] == room[j]);
                } else {
                    assert(room[j] == room[i]);
                }
            } else if rooming_error(party.rooming, room) is Some {
                assert(party.rooming.contains(party.rooming[first]));
            } else {
                let i = choose|i: int|
                    {
                        &&& 0 <= i < room.len()
                        &&& occupant_of(party, check_in, room, #[trigger] room[i]) == Err::<
                            Occupant,
                            OccupancyError,
                        >(error)
                    };
                let id = room[i];
                assert(room.contains(id));
                if party.knows(id) {
                    let k = choose|k: int|
                        0 <= k < party.travelers.len() && (#[trigger] party.travelers[k]).spec_key()
                            == id.0 as u128;
                    assert(party.travelers.contains(party.travelers[k]));
                    lemma_traveler_is_the_one(party, party.travelers[k]);
                } else {
                    assert forall|k: int| 0 <= k < party.travelers.len() implies (
                    #[trigger] party.travelers[k]).id != id by {
                        assert(party.travelers[k].spec_key() != id.0 as u128);
                    }
                }
            }
        }
    }
}

proof fn lemma_adults_by_filter(occupants: Seq<Occupant>, adult_age: u16)
    ensures
        adult_number(occupants, adult_age) == occupants.filter(
            |occupant: Occupant| occupant.age >= adult_age,
        ).len(),
    decreases occupants.len(),
{
    reveal(Seq::filter);
    if occupants.len() > 0 {
        lemma_adults_by_filter(occupants.drop_last(), adult_age);
    }
}

/// The policy has the last word on a room whose counts can be held: its approval gives a report
/// that counts as adults exactly those who have reached the age of adults and everyone else as a
/// child; every other verdict refuses the room with what the policy said.
pub proof fn law_policy_has_the_last_word(
    occupants: Seq<Occupant>,
    adult_age: u16,
    error: RuleError,
    failure: CompileError,
)
    requires
        occupants.len() <= u16::MAX,
    ensures
        ({
            let adults = occupants.filter(|occupant: Occupant| occupant.age >= adult_age).len();
            &&& judged(occupants, adult_age, PolicyVerdict::Accepted) == Ok::<
                OccupancyReport,
                OccupancyError,
            >(
                OccupancyReport {
                    occupant_count: occupants.len() as u16,
                    adult_count: adults as u16,
                    child_count: (occupants.len() - adults) as u16,
                },
            )
            &&& adults <= occupants.len()
            &&& judged(occupants, adult_age, PolicyVerdict::Rejected) == Err::<
                OccupancyReport,
                OccupancyError,
            >(OccupancyError::PolicyRejected)
            &&& judged(occupants, adult_age, PolicyVerdict::InvalidContext(error)) == Err::<
                OccupancyReport,
                OccupancyError,
            >(OccupancyError::InvalidContext(error))
            &&& judged(occupants, adult_age, PolicyVerdict::Failed(failure)) == Err::<
                OccupancyReport,
                OccupancyError,
            >(OccupancyError::CompiledRule(failure))
        }),
{
    lemma_adults_by_filter(occupants, adult_age);
    lemma_adults_are_occupants(occupants, adult_age);
}

/// A room is judged by the travelers, the guardians who are valid for rooming and the intents that
/// bind two travelers to one room or to different ones. Two parties with the same of these get the
/// same answer for every room, whatever else is said of their travelers: relationships, groups,
/// other guardians and other intents never become a requirement on a room.
pub proof fn law_only_binding_facts_decide_a_room(
    party: PartyView,
    other: PartyView,
    check_in: DateView,
    room: Seq<TravelerId>,
    adult_age: u16,
)
    requires
        party.valid(),
        other.valid(),
        party.travelers == other.travelers,
        same_valid_guardians(party.guardians, other.guardians),
        same_binding_intents(party.rooming, other.rooming),
    ensures
        room_context(party, check_in, room, adult_age) == room_context(
            other,
            check_in,
            room,
            adult_age,
        ),
{
    lemma_same_rooming_error(party.rooming, other.rooming, room);
    lemma_same_occupants(party, other, check_in, room, room);
}

impl RuleError {
    /// The diagnostic text of this error.
    pub open spec fn spec_message(self) -> Seq<char> {
        match self {
            RuleError::InvalidOccupantCount(count) => bracketed(
                "InvalidOccupantCount"@,
                decimal(count as int),
            ),
        }
    }

    /// The diagnostic text of this error.
    pub fn message(&self) -> (text: String)
        ensures
            text@ == self.spec_message(),
    {
        match self {
            RuleError::InvalidOccupantCount(count) => {
                numbered_text("InvalidOccupantCount", *count as u64)
            },
        }
    }
}

impl OccupancyError {
    /// The diagnostic text of this error.
    pub open spec fn spec_message(self) -> Seq<char> {
        match self {
            OccupancyError::EmptyRoom => "EmptyRoom"@,
            OccupancyError::InvalidAdultAge => "InvalidAdultAge"@,
            OccupancyError::DuplicateOccupant => "DuplicateOccupant"@,
            OccupancyError::UnknownTraveler(id) => bracketed("UnknownTraveler"@, traveler_name(id)),
            OccupancyError::InvalidAge(id) => bracketed("InvalidAge"@, traveler_name(id)),
            OccupancyError::CountOverflow => "CountOverflow"@,
            OccupancyError::MustStayTogether { left, right } => with_fields(
                "MustStayTogether"@,
                "left"@,
                traveler_name(left),
                "right"@,
                traveler_name(right),
            ),
            OccupancyError::MustStaySeparate { left, right } => with_fields(
                "MustStaySeparate"@,
                "left"@,
                traveler_name(left),
                "right"@,
                traveler_name(right),
            ),
            OccupancyError::InvalidContext(error) => bracketed(
                "InvalidContext"@,
                error.spec_message(),
            ),
            OccupancyError::CompiledRule(CompileError::RuntimeInvariant) => bracketed(
                "CompiledRule"@,
                "RuntimeInvariant"@,
            ),
            OccupancyError::PolicyRejected => "PolicyRejected"@,
        }
    }

    /// The diagnostic text of this error.
    pub fn message(&self) -> (text: String)
        ensures
            text@ == self.spec_message(),
    {
        match self {
            OccupancyError::EmptyRoom => "EmptyRoom".to_owned(),
            OccupancyError::InvalidAdultAge => "InvalidAdultAge".to_owned(),
            OccupancyError::DuplicateOccupant => "DuplicateOccupant".to_owned(),
            OccupancyError::UnknownTraveler(id) => {
                bracketed_text("UnknownTraveler", traveler_text(*id).as_str())
            },
            OccupancyError::InvalidAge(id) => {
                bracketed_text("InvalidAge", traveler_text(*id).as_str())
            },
            OccupancyError::CountOverflow => "CountOverflow".to_owned(),
            OccupancyError::MustStayTogether { left, right } => with_fields_text(
                "MustStayTogether",
                "left",
                traveler_text(*left).as_str(),
                "right",
                traveler_text(*right).as_str(),
            ),
            OccupancyError::MustStaySeparate { left, right } => with_fields_text(
                "MustStaySeparate",
                "left",
                traveler_text(*left).as_str(),
                "right",
                traveler_text(*right).as_str(),
            ),
            OccupancyError::InvalidContext(error) => {
                bracketed_text("InvalidContext", error.message().as_str())
            },
            OccupancyError::CompiledRule(CompileError::RuntimeInvariant) => {
                bracketed_text("CompiledRule", "RuntimeInvariant")
            },
            OccupancyError::PolicyRejected => "PolicyRejected".to_owned(),
        }
    }
}

} // verus!
