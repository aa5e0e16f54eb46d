use veyra::availability::{AvailabilityError, AvailabilityIndex, MAX_STAY_NIGHTS};

#[test]
fn stay_intersection_matches_expected_rooms() {
    let mut index = AvailabilityIndex::new(100, 4, 5).unwrap_or_else(|_| unreachable!());
    for day in 100..104 {
        index.set_available(day, 1, true).unwrap_or_else(|_| unreachable!());
    }
    for day in 100..103 {
        index.set_available(day, 2, true).unwrap_or_else(|_| unreachable!());
    }
    index.set_available(101, 4, true).unwrap_or_else(|_| unreachable!());
    let result = index.available_for_stay(100, 103).unwrap_or_else(|_| unreachable!());
    assert_eq!(result.room_ids(), vec![1, 2]);
    assert_eq!(result.len(), 2);
    assert!(result.contains(1));
    assert!(!result.contains(4));
    assert!(!result.contains(9));
}

#[test]
fn invalid_dimensions_and_queries_fail_closed() {
    assert_eq!(AvailabilityIndex::new(0, 0, 1), Err(AvailabilityError::InvalidDayCount(0)));
    assert_eq!(AvailabilityIndex::new(0, 1, 0), Err(AvailabilityError::InvalidRoomCount(0)));
    let mut index = AvailabilityIndex::new(10, 2, 2).unwrap_or_else(|_| unreachable!());
    assert_eq!(index.set_available(9, 0, true), Err(AvailabilityError::DayOutOfRange(9)));
    assert_eq!(index.set_available(10, 2, true), Err(AvailabilityError::RoomOutOfRange(2)));
    assert_eq!(index.available_for_stay(10, 10), Err(AvailabilityError::InvalidStayRange));
    assert_eq!(index.available_for_stay(11, 10), Err(AvailabilityError::InvalidStayRange));
    assert!(matches!(index.available_for_stay(10, 101), Err(AvailabilityError::StayTooLong(91))));
    assert!(matches!(index.available_for_stay(10, 13), Err(AvailabilityError::DayOutOfRange(12))));
}

#[test]
fn getters_and_empty_result_are_exact() {
    let index = AvailabilityIndex::new(7, 3, 65).unwrap_or_else(|_| unreachable!());
    assert_eq!((index.start_day(), index.day_count(), index.room_count()), (7, 3, 65));
    let result = index.available_for_stay(7, 8).unwrap_or_else(|_| unreachable!());
    assert!(result.is_empty());
    assert_eq!(result.len(), 0);
    assert_eq!(result.room_ids(), Vec::<u32>::new());
}

#[test]
fn dense_bitmap_cross_word_transitions_are_exact() {
    let mut index = AvailabilityIndex::new(100, 3, 130).unwrap_or_else(|_| unreachable!());
    assert_eq!(index.start_day(), 100);
    assert_eq!(index.day_count(), 3);
    assert_eq!(index.room_count(), 130);

    let empty = index
        .available_for_stay(100, 101)
        .unwrap_or_else(|_| unreachable!());
    assert!(empty.is_empty());
    assert_eq!(empty.len(), 0);
    assert!(empty.room_ids().is_empty());
    assert_eq!((&empty).into_iter().next(), None);

    for room in [0, 63, 64, 65, 127, 128, 129] {
        for day in 100..103 {
            index
                .set_available(day, room, true)
                .unwrap_or_else(|_| unreachable!());
        }
    }
    index
        .set_available(101, 65, false)
        .unwrap_or_else(|_| unreachable!());

    let two_nights = index
        .available_for_stay(100, 102)
        .unwrap_or_else(|_| unreachable!());
    assert!(!two_nights.is_empty());
    assert_eq!(two_nights.len(), 6);
    assert!(!two_nights.contains(65));
    assert!(!two_nights.contains(130));
    assert_eq!(two_nights.room_ids(), vec![0, 63, 64, 127, 128, 129]);
    assert_eq!(
        (&two_nights).into_iter().collect::<Vec<_>>(),
        vec![0, 63, 64, 127, 128, 129]
    );
    assert_eq!(
        index
            .reference_available_for_stay(100, 102)
            .unwrap_or_else(|_| unreachable!()),
        two_nights.room_ids()
    );
}

#[test]
fn dimensions_ranges_and_display_fail_closed() {
    for (result, expected) in [
        (
            AvailabilityIndex::new(0, 0, 1),
            AvailabilityError::InvalidDayCount(0),
        ),
        (
            AvailabilityIndex::new(0, 731, 1),
            AvailabilityError::InvalidDayCount(731),
        ),
        (
            AvailabilityIndex::new(0, 1, 0),
            AvailabilityError::InvalidRoomCount(0),
        ),
        (
            AvailabilityIndex::new(0, 1, 1_000_001),
            AvailabilityError::InvalidRoomCount(1_000_001),
        ),
    ] {
        assert_eq!(result, Err(expected));
    }

    let mut index = AvailabilityIndex::new(10, 2, 2).unwrap_or_else(|_| unreachable!());
    assert_eq!(
        index.set_available(9, 0, true),
        Err(AvailabilityError::DayOutOfRange(9))
    );
    assert_eq!(
        index.set_available(12, 0, true),
        Err(AvailabilityError::DayOutOfRange(12))
    );
    assert_eq!(
        index.set_available(10, 2, true),
        Err(AvailabilityError::RoomOutOfRange(2))
    );
    assert_eq!(
        index.available_for_stay(10, 10),
        Err(AvailabilityError::InvalidStayRange)
    );
    assert_eq!(
        index.available_for_stay(11, 10),
        Err(AvailabilityError::InvalidStayRange)
    );
    assert_eq!(
        index.available_for_stay(10, 101),
        Err(AvailabilityError::StayTooLong(91))
    );
    assert_eq!(
        index.available_for_stay(9, 10),
        Err(AvailabilityError::DayOutOfRange(9))
    );
    assert_eq!(
        index.available_for_stay(10, 13),
        Err(AvailabilityError::DayOutOfRange(12))
    );

    for error in [
        AvailabilityError::InvalidDayCount(1),
        AvailabilityError::InvalidRoomCount(2),
        AvailabilityError::InvalidStayRange,
        AvailabilityError::StayTooLong(3),
        AvailabilityError::DayOutOfRange(4),
        AvailabilityError::RoomOutOfRange(5),
    ] {
        assert!(!error.message().is_empty());
    }
}

#[test]
fn optimized_matches_reference() {
    let start_day = 1000_u32;
    for (room_count, day_count, seed) in [
        (1_u32, 1_u32, 0_u64),
        (5, 7, 0x1234_5678_9abc_def0),
        (63, 19, 0xdead_beef_0bad_f00d),
        (64, 12, 7),
        (65, 11, 0xffff_ffff_ffff_ffff),
        (130, 6, 0x0f0f_0f0f_1111_2222),
    ] {
        let mut index = AvailabilityIndex::new(start_day, day_count, room_count)
            .unwrap_or_else(|_| unreachable!());
        for day_offset in 0..day_count {
            for room in 0..room_count {
                let mixed = seed
                    .wrapping_add(u64::from(day_offset).wrapping_mul(0x9e37_79b9))
                    .wrapping_add(u64::from(room).wrapping_mul(0x85eb_ca6b));
                let available = mixed.rotate_left(room % 63) & 3 != 0;
                index
                    .set_available(start_day + day_offset, room, available)
                    .unwrap_or_else(|_| unreachable!());
            }
        }
        for offset in 0..day_count {
            for requested in 1..20_u32 {
                let nights = requested.min(day_count - offset).min(MAX_STAY_NIGHTS);
                let check_in = start_day + offset;
                let check_out = check_in + nights;
                let fast = index
                    .available_for_stay(check_in, check_out)
                    .unwrap_or_else(|_| unreachable!())
                    .room_ids();
                let reference = index
                    .reference_available_for_stay(check_in, check_out)
                    .unwrap_or_else(|_| unreachable!());
                assert_eq!(fast, reference);
            }
        }
    }
}

#[test]
fn availability_diagnostics_carry_the_refused_number() {
    assert_eq!(AvailabilityError::StayTooLong(91).message(), "StayTooLong(91)");
    assert_eq!(AvailabilityError::DayOutOfRange(0).message(), "DayOutOfRange(0)");
    assert_eq!(AvailabilityError::InvalidStayRange.message(), "InvalidStayRange");
    assert_eq!(AvailabilityError::SizeOverflow.message(), "SizeOverflow");
    assert_eq!(AvailabilityError::InternalBounds.message(), "InternalBounds");
}

#[test]
fn a_stay_is_the_intersection_of_its_parts() {
    let mut index = AvailabilityIndex::new(0, 4, 70).unwrap_or_else(|_| unreachable!());
    for (day, room) in [(0, 3), (1, 3), (2, 3), (3, 3), (0, 69), (1, 69), (2, 1), (3, 1)] {
        index.set_available(day, room, true).unwrap_or_else(|_| unreachable!());
    }
    let whole = index.available_for_stay(0, 4).unwrap_or_else(|_| unreachable!());
    let first = index.available_for_stay(0, 2).unwrap_or_else(|_| unreachable!());
    let second = index.available_for_stay(2, 4).unwrap_or_else(|_| unreachable!());
    assert_eq!(first.room_ids(), vec![3, 69]);
    assert_eq!(second.room_ids(), vec![1, 3]);
    assert_eq!(whole.room_ids(), vec![3]);
    assert_eq!(whole.clone(), whole);
    assert_eq!(index.clone(), index);
}

#[test]
fn marking_one_room_leaves_the_others_alone() {
    let mut index = AvailabilityIndex::new(u32::MAX - 1, 2, 128).unwrap_or_else(|_| unreachable!());
    index.set_available(u32::MAX - 1, 64, true).unwrap_or_else(|_| unreachable!());
    index.set_available(u32::MAX, 64, true).unwrap_or_else(|_| unreachable!());
    index.set_available(u32::MAX - 1, 65, true).unwrap_or_else(|_| unreachable!());
    index.set_available(u32::MAX - 1, 64, false).unwrap_or_else(|_| unreachable!());
    let first = index
        .available_for_stay(u32::MAX - 1, u32::MAX)
        .unwrap_or_else(|_| unreachable!());
    assert_eq!(first.room_ids(), vec![65]);
    assert_eq!(first.len(), 1);
}

#[test]
fn listed_rooms_ascend_and_are_exactly_the_members() {
    let mut index = AvailabilityIndex::new(0, 1, 130).unwrap_or_else(|_| unreachable!());
    for room in [129, 0, 64, 63] {
        index.set_available(0, room, true).unwrap_or_else(|_| unreachable!());
    }
    let rooms = index.available_for_stay(0, 1).unwrap_or_else(|_| unreachable!());
    let ids = rooms.room_ids();
    assert_eq!(ids, vec![0, 63, 64, 129]);
    for room in 0..300 {
        assert_eq!(ids.contains(&room), rooms.contains(room));
    }
    assert!(!rooms.contains(130));
    assert!(!rooms.contains(u32::MAX));
}
