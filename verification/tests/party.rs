use veyra::ordered::OrderedList;
use veyra::party::{
    AgeEvidence, BookingParty, CivilDate, ConstraintStrength, GroupId, GuardianRelationship,
    PartyBuilder, PartyError, Relationship, RelationshipKind, RoomingIntent, RoomingRelation,
    Traveler, TravelerId,
};

fn date(y: i32, m: u8, d: u8) -> CivilDate {
    CivilDate::new(y, m, d).unwrap_or_else(|_| unreachable!())
}
fn born(id: u32, birth: CivilDate) -> Traveler {
    Traveler::new(TravelerId::new(id), AgeEvidence::BirthDate(birth), false)
}

#[test]
fn age_is_computed_for_actual_check_in_date() {
    let birth = date(2010, 9, 22);
    assert_eq!(birth.age_on(date(2026, 9, 21)), Ok(15));
    assert_eq!(birth.age_on(date(2026, 9, 22)), Ok(16));
    assert_eq!(AgeEvidence::AgeAtCheckIn(5).age_at(date(2026, 1, 1)), Ok(5));
    assert_eq!(
        AgeEvidence::AgeAtCheckIn(131).age_at(date(2026, 1, 1)),
        Err(PartyError::AgeOutOfRange)
    );
}

#[test]
fn leap_year_and_date_validation_are_deterministic() {
    assert!(CivilDate::new(2024, 2, 29).is_ok());
    assert_eq!(
        CivilDate::new(2023, 2, 29),
        Err(PartyError::InvalidDay {
            year: 2023,
            month: 2,
            day: 29
        })
    );
    assert_eq!(
        CivilDate::new(2026, 13, 1),
        Err(PartyError::InvalidMonth(13))
    );
    assert_eq!(
        CivilDate::new(2026, 1, 0),
        Err(PartyError::InvalidDay {
            year: 2026,
            month: 1,
            day: 0
        })
    );
    assert_eq!(
        date(2026, 1, 2).age_on(date(2026, 1, 1)),
        Err(PartyError::CheckInBeforeBirth)
    );
    assert_eq!(
        (
            date(2026, 3, 4).year(),
            date(2026, 3, 4).month(),
            date(2026, 3, 4).day()
        ),
        (2026, 3, 4)
    );
}

#[test]
fn relationships_groups_guardians_and_rooming_are_independent() {
    let mut builder = BookingParty::builder();
    builder
        .add_traveler(born(1, date(1988, 1, 1)))
        .unwrap_or_else(|_| unreachable!());
    builder
        .add_traveler(born(2, date(1991, 1, 1)))
        .unwrap_or_else(|_| unreachable!());
    builder
        .add_traveler(born(3, date(2016, 1, 1)))
        .unwrap_or_else(|_| unreachable!());
    builder
        .add_relationship(Relationship {
            from: TravelerId::new(1),
            to: TravelerId::new(2),
            kind: RelationshipKind::Spouse,
        })
        .unwrap_or_else(|_| unreachable!());
    builder
        .add_group_member(GroupId::new(7), TravelerId::new(1))
        .unwrap_or_else(|_| unreachable!());
    builder
        .add_group_member(GroupId::new(7), TravelerId::new(3))
        .unwrap_or_else(|_| unreachable!());
    builder
        .add_guardian(GuardianRelationship {
            guardian: TravelerId::new(1),
            dependent: TravelerId::new(3),
            valid_for_rooming: true,
        })
        .unwrap_or_else(|_| unreachable!());
    builder
        .add_rooming_intent(RoomingIntent {
            left: TravelerId::new(1),
            right: TravelerId::new(2),
            strength: ConstraintStrength::Prefer,
            relation: RoomingRelation::SameRoom,
        })
        .unwrap_or_else(|_| unreachable!());
    let party = builder.build().unwrap_or_else(|_| unreachable!());
    assert_eq!(party.travelers().len(), 3);
    assert_eq!(party.relationships().len(), 1);
    assert_eq!(party.guardians().len(), 1);
    assert_eq!(party.rooming_intents().len(), 1);
    assert_eq!(
        party.group_members(GroupId::new(7)).map(OrderedList::len),
        Some(2)
    );
    assert!(party.traveler(TravelerId::new(3)).is_some());
    assert_eq!(
        party
            .ages_at(date(2026, 9, 21))
            .unwrap_or_else(|_| unreachable!())
            .len(),
        3
    );
}

#[test]
fn hard_same_and_separate_room_cannot_both_exist() {
    let mut builder = BookingParty::builder();
    builder
        .add_traveler(born(1, date(2000, 1, 1)))
        .unwrap_or_else(|_| unreachable!());
    builder
        .add_traveler(born(2, date(2000, 1, 1)))
        .unwrap_or_else(|_| unreachable!());
    builder
        .add_rooming_intent(RoomingIntent {
            left: TravelerId::new(1),
            right: TravelerId::new(2),
            strength: ConstraintStrength::Must,
            relation: RoomingRelation::SameRoom,
        })
        .unwrap_or_else(|_| unreachable!());
    assert_eq!(
        builder
            .add_rooming_intent(RoomingIntent {
                left: TravelerId::new(2),
                right: TravelerId::new(1),
                strength: ConstraintStrength::Must,
                relation: RoomingRelation::SeparateRoom
            })
            .err(),
        Some(PartyError::ContradictoryHardRoomingIntent)
    );
}

#[test]
fn invalid_graph_edges_fail_closed() {
    let builder = BookingParty::builder();
    assert_eq!(builder.build(), Err(PartyError::EmptyParty));
    let mut builder = BookingParty::builder();
    builder
        .add_traveler(born(1, date(2000, 1, 1)))
        .unwrap_or_else(|_| unreachable!());
    assert_eq!(
        builder.add_traveler(born(1, date(2001, 1, 1))).err(),
        Some(PartyError::DuplicateTraveler)
    );
    assert_eq!(
        builder
            .add_relationship(Relationship {
                from: TravelerId::new(1),
                to: TravelerId::new(9),
                kind: RelationshipKind::Companion
            })
            .err(),
        Some(PartyError::UnknownTraveler(TravelerId::new(9)))
    );
    assert_eq!(
        builder
            .add_guardian(GuardianRelationship {
                guardian: TravelerId::new(1),
                dependent: TravelerId::new(1),
                valid_for_rooming: true
            })
            .err(),
        Some(PartyError::SelfEdge(TravelerId::new(1)))
    );
}

#[test]
fn accessibility_and_id_getters_are_exact() {
    let traveler = Traveler::new(TravelerId::new(11), AgeEvidence::AgeAtCheckIn(20), true);
    assert_eq!(traveler.id().get(), 11);
    assert_eq!(traveler.age_evidence(), AgeEvidence::AgeAtCheckIn(20));
    assert!(traveler.accessibility_required());
    assert_eq!(GroupId::new(4).get(), 4);
}

fn traveler(id: u32) -> Traveler {
    Traveler::new(TravelerId::new(id), AgeEvidence::AgeAtCheckIn(30), id == 1)
}

fn full_builder() -> PartyBuilder {
    let mut builder = BookingParty::builder();
    for id in 1..=64 {
        builder
            .add_traveler(traveler(id))
            .unwrap_or_else(|_| unreachable!());
    }
    builder
}

#[test]
fn identifiers_dates_accessors_and_age_fail_closed() {
    let traveler_id = TravelerId::new(7);
    let group_id = GroupId::new(9);
    assert_eq!(traveler_id.get(), 7);
    assert_eq!(group_id.get(), 9);

    let check_in = date(2026, 9, 21);
    assert_eq!(
        (check_in.year(), check_in.month(), check_in.day()),
        (2026, 9, 21)
    );
    assert_eq!(date(2000, 2, 29).age_on(check_in), Ok(26));
    assert_eq!(
        date(1800, 1, 1).age_on(check_in),
        Err(PartyError::AgeOutOfRange)
    );

    let accessible = traveler(1);
    assert!(accessible.accessibility_required());
    assert_eq!(accessible.id(), TravelerId::new(1));
    assert_eq!(accessible.age_evidence().age_at(check_in), Ok(30));

    let mut builder = BookingParty::builder();
    builder
        .add_traveler(Traveler::new(
            TravelerId::new(1),
            AgeEvidence::BirthDate(date(1800, 1, 1)),
            false,
        ))
        .unwrap_or_else(|_| unreachable!());
    let party = builder.build().unwrap_or_else(|_| unreachable!());
    assert_eq!(party.ages_at(check_in), Err(PartyError::AgeOutOfRange));
    assert!(party.relationships().is_empty());
    assert!(party.guardians().is_empty());
    assert!(party.rooming_intents().is_empty());
    assert!(party.group_members(group_id).is_none());
}

#[test]
fn traveler_relationship_and_group_limits_are_enforced() {
    let mut builder = full_builder();
    assert_eq!(
        builder.add_traveler(traveler(65)).map(|_| ()),
        Err(PartyError::TooManyTravelers)
    );
    assert_eq!(
        builder.add_traveler(traveler(64)).map(|_| ()),
        Err(PartyError::DuplicateTraveler)
    );

    let mut inserted = 0_usize;
    'relationships: for from in 1..=64 {
        for to in 1..=64 {
            if from == to {
                continue;
            }
            builder
                .add_relationship(Relationship {
                    from: TravelerId::new(from),
                    to: TravelerId::new(to),
                    kind: RelationshipKind::Companion,
                })
                .unwrap_or_else(|_| unreachable!());
            inserted += 1;
            if inserted == 512 {
                break 'relationships;
            }
        }
    }
    assert_eq!(inserted, 512);
    assert_eq!(
        builder
            .add_relationship(Relationship {
                from: TravelerId::new(20),
                to: TravelerId::new(21),
                kind: RelationshipKind::Caregiver,
            })
            .map(|_| ()),
        Err(PartyError::TooManyRelationships)
    );

    let mut groups = full_builder();
    for group in 1..=128 {
        groups
            .add_group_member(GroupId::new(group), TravelerId::new(1))
            .unwrap_or_else(|_| unreachable!());
    }
    groups
        .add_group_member(GroupId::new(1), TravelerId::new(1))
        .unwrap_or_else(|_| unreachable!());
    assert_eq!(
        groups
            .add_group_member(GroupId::new(129), TravelerId::new(1))
            .map(|_| ()),
        Err(PartyError::TooManyGroups)
    );

    let mut memberships = full_builder();
    for group in 1..=16 {
        for id in 1..=64 {
            memberships
                .add_group_member(GroupId::new(group), TravelerId::new(id))
                .unwrap_or_else(|_| unreachable!());
        }
    }
    assert_eq!(
        memberships
            .add_group_member(GroupId::new(17), TravelerId::new(1))
            .map(|_| ()),
        Err(PartyError::TooManyGroupMemberships)
    );
}

#[test]
fn guardian_rooming_limits_and_reversed_contradictions_are_enforced() {
    let mut guardians = full_builder();
    let mut inserted = 0_usize;
    'guardians: for guardian in 1..=64 {
        for dependent in 1..=64 {
            if guardian == dependent {
                continue;
            }
            guardians
                .add_guardian(GuardianRelationship {
                    guardian: TravelerId::new(guardian),
                    dependent: TravelerId::new(dependent),
                    valid_for_rooming: true,
                })
                .unwrap_or_else(|_| unreachable!());
            inserted += 1;
            if inserted == 256 {
                break 'guardians;
            }
        }
    }
    assert_eq!(inserted, 256);
    assert_eq!(
        guardians
            .add_guardian(GuardianRelationship {
                guardian: TravelerId::new(20),
                dependent: TravelerId::new(21),
                valid_for_rooming: false,
            })
            .map(|_| ()),
        Err(PartyError::TooManyGuardianRelationships)
    );

    let mut rooming = full_builder();
    let mut inserted = 0_usize;
    'rooming: for left in 1..=64 {
        for right in 1..=64 {
            if left == right {
                continue;
            }
            rooming
                .add_rooming_intent(RoomingIntent {
                    left: TravelerId::new(left),
                    right: TravelerId::new(right),
                    strength: ConstraintStrength::Prefer,
                    relation: RoomingRelation::Near,
                })
                .unwrap_or_else(|_| unreachable!());
            inserted += 1;
            if inserted == 512 {
                break 'rooming;
            }
        }
    }
    assert_eq!(inserted, 512);
    assert_eq!(
        rooming
            .add_rooming_intent(RoomingIntent {
                left: TravelerId::new(20),
                right: TravelerId::new(21),
                strength: ConstraintStrength::Avoid,
                relation: RoomingRelation::SameFloor,
            })
            .map(|_| ()),
        Err(PartyError::TooManyRoomingEdges)
    );

    let mut contradiction = full_builder();
    contradiction
        .add_rooming_intent(RoomingIntent {
            left: TravelerId::new(1),
            right: TravelerId::new(2),
            strength: ConstraintStrength::Must,
            relation: RoomingRelation::SameRoom,
        })
        .unwrap_or_else(|_| unreachable!());
    assert_eq!(
        contradiction
            .add_rooming_intent(RoomingIntent {
                left: TravelerId::new(2),
                right: TravelerId::new(1),
                strength: ConstraintStrength::Must,
                relation: RoomingRelation::SeparateRoom,
            })
            .map(|_| ()),
        Err(PartyError::ContradictoryHardRoomingIntent)
    );
}

#[test]
fn every_party_error_has_a_stable_display_surface() {
    for error in [
        PartyError::InvalidMonth(13),
        PartyError::InvalidDay {
            year: 2026,
            month: 2,
            day: 30,
        },
        PartyError::CheckInBeforeBirth,
        PartyError::AgeOutOfRange,
        PartyError::EmptyParty,
        PartyError::TooManyTravelers,
        PartyError::DuplicateTraveler,
        PartyError::UnknownTraveler(TravelerId::new(1)),
        PartyError::SelfEdge(TravelerId::new(2)),
        PartyError::TooManyRelationships,
        PartyError::TooManyGroups,
        PartyError::TooManyGroupMemberships,
        PartyError::TooManyGuardianRelationships,
        PartyError::TooManyRoomingEdges,
        PartyError::ContradictoryHardRoomingIntent,
    ] {
        assert!(!error.message().is_empty());
    }
}

#[test]
fn civil_date_rejects_both_month_and_day_boundaries() {
    assert_eq!(CivilDate::new(2026, 0, 1), Err(PartyError::InvalidMonth(0)));
    assert_eq!(
        CivilDate::new(2026, 13, 1),
        Err(PartyError::InvalidMonth(13))
    );
    assert_eq!(
        CivilDate::new(2026, 1, 0),
        Err(PartyError::InvalidDay {
            year: 2026,
            month: 1,
            day: 0,
        })
    );
    assert_eq!(
        CivilDate::new(2026, 2, 29),
        Err(PartyError::InvalidDay {
            year: 2026,
            month: 2,
            day: 29,
        })
    );
    assert!(CivilDate::new(2024, 2, 29).is_ok());
    assert_eq!(
        CivilDate::new(1900, 2, 29),
        Err(PartyError::InvalidDay {
            year: 1900,
            month: 2,
            day: 29,
        })
    );
    assert!(CivilDate::new(2000, 2, 29).is_ok());
}

#[test]
fn age_is_checked_before_birthday_on_birthday_and_after_birthday() {
    let birth = date(2000, 9, 21);
    assert_eq!(
        birth.age_on(date(1999, 9, 21)),
        Err(PartyError::CheckInBeforeBirth)
    );
    assert_eq!(birth.age_on(date(2026, 9, 20)), Ok(25));
    assert_eq!(birth.age_on(date(2026, 9, 21)), Ok(26));
    assert_eq!(birth.age_on(date(2026, 9, 22)), Ok(26));
}

#[test]
fn extreme_year_distance_fails_closed_without_integer_overflow() {
    assert_eq!(
        date(i32::MIN, 1, 1).age_on(date(i32::MAX, 1, 1)),
        Err(PartyError::AgeOutOfRange)
    );
}

#[test]
fn explicit_and_derived_ages_share_the_same_hard_upper_bound() {
    let check_in = date(2026, 9, 21);
    assert_eq!(AgeEvidence::AgeAtCheckIn(130).age_at(check_in), Ok(130));
    assert_eq!(
        AgeEvidence::AgeAtCheckIn(131).age_at(check_in),
        Err(PartyError::AgeOutOfRange)
    );
    assert_eq!(date(1896, 9, 21).age_on(check_in), Ok(130));
    assert_eq!(
        date(1895, 9, 21).age_on(check_in),
        Err(PartyError::AgeOutOfRange)
    );
}

#[test]
fn party_age_projection_preserves_traveler_order_and_evidence() {
    let check_in = date(2026, 9, 21);
    let mut builder = BookingParty::builder();
    builder
        .add_traveler(Traveler::new(
            TravelerId::new(2),
            AgeEvidence::AgeAtCheckIn(40),
            false,
        ))
        .unwrap_or_else(|_| unreachable!());
    builder
        .add_traveler(Traveler::new(
            TravelerId::new(1),
            AgeEvidence::BirthDate(date(2016, 9, 21)),
            true,
        ))
        .unwrap_or_else(|_| unreachable!());
    let party = builder.build().unwrap_or_else(|_| unreachable!());
    assert_eq!(
        party.ages_at(check_in),
        Ok(vec![(TravelerId::new(1), 10), (TravelerId::new(2), 40)])
    );
}

#[test]
fn age_changes_only_after_birthday() {
    for (year, month, day, offset) in [
        (1900, 1_u8, 1_u8, 1),
        (1950, 12, 28, 99),
        (2000, 2, 28, 26),
        (2019, 7, 1, 3),
        (1987, 3, 15, 40),
    ] {
        let birth = date(year, month, day);
        let target_year = year + offset;
        let before_day = if day > 1 { day - 1 } else { day };
        let before_month = if day > 1 {
            month
        } else if month > 1 {
            month - 1
        } else {
            month
        };
        let before = date(target_year, before_month, before_day);
        let on = date(target_year, month, day);
        assert_eq!(birth.age_on(on), Ok(u16::try_from(offset).unwrap_or_default()));
        if before < on {
            assert!(
                birth.age_on(before).unwrap_or_default() <= birth.age_on(on).unwrap_or_default()
            );
        }
    }
}

#[test]
fn party_diagnostics_name_every_part() {
    assert_eq!(PartyError::InvalidMonth(13).message(), "InvalidMonth(13)");
    assert_eq!(
        PartyError::InvalidDay { year: -4, month: 2, day: 30 }.message(),
        "InvalidDay { year: -4, month: 2, day: 30 }"
    );
    assert_eq!(
        PartyError::UnknownTraveler(TravelerId::new(9)).message(),
        "UnknownTraveler(TravelerId(9))"
    );
    assert_eq!(PartyError::EmptyParty.message(), "EmptyParty");
}

#[test]
fn leap_days_before_year_zero_follow_the_same_cycle() {
    assert!(CivilDate::new(-4, 2, 29).is_ok());
    assert!(CivilDate::new(-400, 2, 29).is_ok());
    assert!(CivilDate::new(-100, 2, 29).is_err());
    assert!(CivilDate::new(-1, 2, 29).is_err());
    assert!(CivilDate::new(i32::MIN, 2, 29).is_ok());
}

#[test]
fn a_repeated_traveler_is_reported_and_replaces_the_known_one() {
    let mut builder = BookingParty::builder();
    builder.add_traveler(traveler(1)).unwrap_or_else(|_| unreachable!());
    assert_eq!(
        builder
            .add_traveler(Traveler::new(TravelerId::new(1), AgeEvidence::AgeAtCheckIn(7), false))
            .map(|_| ()),
        Err(PartyError::DuplicateTraveler)
    );
    let party = builder.build().unwrap_or_else(|_| unreachable!());
    assert_eq!(party.ages_at(date(2026, 1, 1)), Ok(vec![(TravelerId::new(1), 7)]));
    assert_eq!(party.clone(), party);
}

#[test]
fn builder_steps_chain_and_groups_exist_without_room_for_members() {
    let mut builder = full_builder();
    builder
        .add_group_member(GroupId::new(5), TravelerId::new(2))
        .and_then(|next| next.add_group_member(GroupId::new(5), TravelerId::new(1)))
        .and_then(|next| next.add_group_member(GroupId::new(5), TravelerId::new(2)))
        .map(|_| ())
        .unwrap_or_else(|_| unreachable!());
    let party = builder.clone().build().unwrap_or_else(|_| unreachable!());
    let members = party.group_members(GroupId::new(5)).unwrap_or_else(|| unreachable!());
    assert_eq!(members.as_slice(), [TravelerId::new(1), TravelerId::new(2)]);
    for group in 100..116 {
        for id in 1..=64 {
            let _ = builder.add_group_member(GroupId::new(group), TravelerId::new(id));
        }
    }
    assert_eq!(
        builder.add_group_member(GroupId::new(7), TravelerId::new(1)).map(|_| ()),
        Err(PartyError::TooManyGroupMemberships)
    );
    let party = builder.build().unwrap_or_else(|_| unreachable!());
    assert_eq!(party.group_members(GroupId::new(7)).map(OrderedList::is_empty), Some(true));
    assert_eq!(
        party.group_members(GroupId::new(115)).map(OrderedList::len),
        Some(62)
    );
}
