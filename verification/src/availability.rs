//! Deterministic baseline availability intersection over compact room numbers.

use crate::text::{bracketed, decimal, numbered_text};
use vstd::prelude::*;
use vstd::std_specs::bits::axiom_u64_trailing_zeros;
use vstd::std_specs::iter::IteratorSpec;

verus! {

/// Most days that an index covers.
pub const MAX_INDEX_DAYS: u32 = 730;

/// Most rooms that an index covers.
pub const MAX_ROOM_IDS: u32 = 1_000_000;

/// Most nights of one stay.
pub const MAX_STAY_NIGHTS: u32 = 90;

/// Rooms that share one word.
pub const WORD_BITS: u32 = 64;

/// Whether `word` has the bit of weight two to the `bit`.
pub open spec fn has_bit(word: u64, bit: u32) -> bool {
    word & (1u64 << bit) != 0
}

proof fn lemma_bit_of_set(word: u64, bit: u32, probe: u32)
    requires
        bit < 64,
        probe < 64,
    ensures
        has_bit(word | (1u64 << bit), probe) == (probe == bit || has_bit(word, probe)),
{
    assert(((word | (1u64 << bit)) & (1u64 << probe) != 0) == (probe == bit || word & (1u64
        << probe) != 0)) by (bit_vector)
        requires
            bit < 64,
            probe < 64,
    ;
}

proof fn lemma_bit_of_clear(word: u64, bit: u32, probe: u32)
    requires
        bit < 64,
        probe < 64,
    ensures
        has_bit(word & !(1u64 << bit), probe) == (probe != bit && has_bit(word, probe)),
{
    assert(((word & !(1u64 << bit)) & (1u64 << probe) != 0) == (probe != bit && word & (1u64
        << probe) != 0)) by (bit_vector)
        requires
            bit < 64,
            probe < 64,
    ;
}

proof fn lemma_bit_of_both(left: u64, right: u64, probe: u32)
    requires
        probe < 64,
    ensures
        has_bit(left & right, probe) == (has_bit(left, probe) && has_bit(right, probe)),
{
    assert(((left & right) & (1u64 << probe) != 0) == (left & (1u64 << probe) != 0 && right & (1u64
        << probe) != 0)) by (bit_vector)
        requires
            probe < 64,
    ;
}

proof fn lemma_bit_of_zero(probe: u32)
    ensures
        !has_bit(0, probe),
{
    assert(0u64 & (1u64 << probe) == 0) by (bit_vector);
}

proof fn lemma_nonzero_word_has_bit(word: u64) -> (bit: u32)
    requires
        word != 0,
    ensures
        bit < 64,
        has_bit(word, bit),
{
    axiom_u64_trailing_zeros(word);
    let zeros = vstd::std_specs::bits::u64_trailing_zeros(word);
    let wide = zeros as u64;
    assert(word & (1u64 << zeros) != 0) by (bit_vector)
        requires
            zeros < 64,
            wide == zeros as u64,
            (word >> wide) & 1u64 == 1u64,
    ;
    zeros
}

/// Contents of a `DenseRoomSet`: some of the rooms below a bound.
#[verifier::ext_equal]
pub struct RoomSetView {
    pub rooms: Set<u32>,
    pub room_count: u32,
}

/// The members of `rooms` below `bound`, in ascending order.
pub open spec fn listed(rooms: Set<u32>, bound: nat) -> Seq<u32>
    decreases bound,
{
    if bound == 0 {
        seq![]
    } else {
        let below = listed(rooms, (bound - 1) as nat);
        if rooms.contains((bound - 1) as u32) {
            below.push((bound - 1) as u32)
        } else {
            below
        }
    }
}

/// A listing is strictly ascending and holds exactly the members below its bound, one entry for
/// each.
pub proof fn law_listing_is_ascending_and_complete(rooms: Set<u32>, bound: nat)
    requires
        bound <= u32::MAX,
    ensures
        forall|i: int, j: int|
            0 <= i < j < listed(rooms, bound).len() ==> #[trigger] listed(rooms, bound)[i]
                < #[trigger] listed(rooms, bound)[j],
        forall|room: u32|
            #[trigger] listed(rooms, bound).contains(room) <==> room < bound && rooms.contains(
                room,
            ),
        rooms.filter(|room: u32| room < bound).finite(),
        listed(rooms, bound).len() == rooms.filter(|room: u32| room < bound).len(),
    decreases bound,
{
    let now = listed(rooms, bound);
    let members = rooms.filter(|room: u32| room < bound);
    if bound == 0 {
        assert(members =~= Set::empty());
    } else {
        let below = listed(rooms, (bound - 1) as nat);
        let fewer = rooms.filter(|room: u32| room < (bound - 1) as nat);
        let top = (bound - 1) as u32;
        law_listing_is_ascending_and_complete(rooms, (bound - 1) as nat);
        assert forall|i: int| 0 <= i < below.len() implies below[i] < top by {
            assert(below.contains(below[i]));
        }
        if rooms.contains(top) {
            assert(members =~= fewer.insert(top));
            assert forall|room: u32| #[trigger] now.contains(room) <==> room < bound
                && rooms.contains(room) by {
                if now.contains(room) {
                    let i = choose|i: int| 0 <= i < now.len() && now[i] == room;
                    if i < below.len() {
                        assert(below.contains(room));
                    }
                }
                if room < bound && rooms.contains(room) {
                    if room == top {
                        assert(now[below.len() as int] == top);
                    } else {
                        assert(below.contains(room));
                        let i = choose|i: int| 0 <= i < below.len() && below[i] == room;
                        assert(now[i] == room);
                    }
                }
            }
        } else {
            assert(members =~= fewer);
            assert forall|room: u32| #[trigger] now.contains(room) <==> room < bound
                && rooms.contains(room) by {
                assert(below.contains(room) <==> room < bound - 1 && rooms.contains(room));
            }
        }
    }
}

/// Dense immutable set of room numbers.
#[derive(Debug, PartialEq, Eq)]
pub struct DenseRoomSet {
    words: Vec<u64>,
    room_count: u32,
}

/// Whether `room` has its bit in `words`.
spec fn in_words(words: Seq<u64>, room: int) -> bool {
    has_bit(words[room / 64], (room % 64) as u32)
}

impl View for DenseRoomSet {
    type V = RoomSetView;

    closed spec fn view(&self) -> RoomSetView {
        RoomSetView {
            rooms: Set::new(
                |room: u32| room < self.room_count && in_words(self.words@, room as int),
            ),
            room_count: self.room_count,
        }
    }
}

/// Words that a day takes for `room_count` rooms.
spec fn words_for(room_count: u32) -> int {
    (room_count + 63) / 64
}

impl Clone for DenseRoomSet {
    fn clone(&self) -> (copy: Self)
        ensures
            copy@ == self@,
    {
        proof {
            use_type_invariant(self);
        }
        DenseRoomSet {
            words: vstd::slice::slice_to_vec(self.words.as_slice()),
            room_count: self.room_count,
        }
    }
}

impl DenseRoomSet {
    #[verifier::type_invariant]
    spec fn tight(self) -> bool {
        &&& self.room_count <= MAX_ROOM_IDS
        &&& self.words@.len() == words_for(self.room_count)
        &&& forall|room: int|
            self.room_count <= room < 64 * self.words@.len() ==> !#[trigger] in_words(
                self.words@,
                room,
            )
    }

    /// Whether a room is a member.
    pub fn contains(&self, room_id: u32) -> (found: bool)
        ensures
            found == self@.rooms.contains(room_id),
            found ==> room_id < self@.room_count,
    {
        proof {
            use_type_invariant(self);
        }
        if room_id >= self.room_count {
            return false;
        }
        let word: usize = (room_id / WORD_BITS) as usize;
        let bit: u32 = room_id % WORD_BITS;
        self.words[word] & (1u64 << bit) != 0
    }

    /// The number of members.
    pub fn len(&self) -> (count: usize)
        ensures
            self@.rooms.finite(),
            count as nat == self@.rooms.len(),
    {
        let ids = self.room_ids();
        proof {
            law_listing_is_ascending_and_complete(self@.rooms, self@.room_count as nat);
            assert(self@.rooms.filter(|room: u32| room < self@.room_count as nat)
                =~= self@.rooms);
        }
        ids.len()
    }

    /// Whether there is no member.
    pub fn is_empty(&self) -> (empty: bool)
        ensures
            empty == (self@.rooms == Set::<u32>::empty()),
    {
        proof {
            use_type_invariant(self);
        }
        let mut index: usize = 0;
        while index < self.words.len()
            invariant
                self.tight(),
                index <= self.words@.len(),
                forall|i: int| 0 <= i < index ==> self.words@[i] == 0,
            decreases self.words@.len() - index,
        {
            if self.words[index] != 0 {
                proof {
                    let bit = lemma_nonzero_word_has_bit(self.words@[index as int]);
                    let room = 64 * index + bit;
                    assert(in_words(self.words@, room));
                    assert(room < self.room_count);
                    assert(self@.rooms.contains(room as u32));
                }
                return false;
            }
            index = index + 1;
        }
        proof {
            assert forall|room: u32| !self@.rooms.contains(room) by {
                lemma_bit_of_zero((room % 64) as u32);
            }
            assert(self@.rooms =~= Set::<u32>::empty());
        }
        true
    }

    /// The members in ascending order, each of them once.
    pub fn room_ids(&self) -> (ids: Vec<u32>)
        ensures
            ids@ == listed(self@.rooms, self@.room_count as nat),
            forall|i: int, j: int|
                0 <= i < j < ids@.len() ==> #[trigger] ids@[i] < #[trigger] ids@[j],
            forall|room: u32| #[trigger] ids@.contains(room) <==> self@.rooms.contains(room),
    {
        let mut ids: Vec<u32> = Vec::new();
        let mut room: u32 = 0;
        while room < self.room_count
            invariant
                room <= self.room_count,
                ids@ == listed(self@.rooms, room as nat),
            decreases self.room_count - room,
        {
            if self.contains(room) {
                ids.push(room);
            }
            room = room + 1;
        }
        proof {
            law_listing_is_ascending_and_complete(self@.rooms, self@.room_count as nat);
        }
        ids
    }
}

impl<'a> IntoIterator for &'a DenseRoomSet {
    type Item = u32;

    type IntoIter = std::vec::IntoIter<u32>;

    fn into_iter(self) -> (iter: std::vec::IntoIter<u32>)
        ensures
            IteratorSpec::remaining(&iter) == listed(self@.rooms, self@.room_count as nat),
    {
        self.room_ids().into_iter()
    }
}

/// The words of the day that lies `offset` days behind the first one.
spec fn day_words(words: Seq<u64>, per_day: int, offset: int) -> Seq<u64> {
    words.subrange(offset * per_day, offset * per_day + per_day)
}

/// Contents of an `AvailabilityIndex`: which rooms are free on which days.
#[verifier::ext_equal]
pub struct IndexView {
    pub start_day: u32,
    pub day_count: u32,
    pub room_count: u32,
    pub free: Set<(u32, u32)>,
}

impl IndexView {
    /// Whether the index covers a day.
    pub open spec fn covers(self, day: int) -> bool {
        self.start_day <= day < self.start_day + self.day_count
    }

    /// Why a stay is refused, if it is.
    pub open spec fn stay_error(self, check_in: u32, check_out: u32) -> Option<AvailabilityError> {
        if check_out <= check_in {
            Some(AvailabilityError::InvalidStayRange)
        } else if check_out - check_in > MAX_STAY_NIGHTS {
            Some(AvailabilityError::StayTooLong((check_out - check_in) as u32))
        } else if !self.covers(check_in as int) {
            Some(AvailabilityError::DayOutOfRange(check_in))
        } else if !self.covers(check_out - 1) {
            Some(AvailabilityError::DayOutOfRange((check_out - 1) as u32))
        } else {
            None
        }
    }

    /// The index after a room was marked as free or taken on a day.
    pub open spec fn marked(self, day: u32, room: u32, available: bool) -> IndexView {
        IndexView {
            free: if available {
                self.free.insert((day, room))
            } else {
                self.free.remove((day, room))
            },
            ..self
        }
    }

    /// The rooms that are free on every night in `check_in..check_out`.
    pub open spec fn stay_rooms(self, check_in: u32, check_out: u32) -> Set<u32> {
        Set::new(
            |room: u32|
                room < self.room_count && forall|day: u32|
                    check_in <= day < check_out ==> #[trigger] self.free.contains((day, room)),
        )
    }
}

/// Dense availability index, one bit for each room and night.
#[derive(Debug, PartialEq, Eq)]
pub struct AvailabilityIndex {
    start_day: u32,
    day_count: u32,
    room_count: u32,
    words_per_day: usize,
    words: Vec<u64>,
}

impl View for AvailabilityIndex {
    type V = IndexView;

    closed spec fn view(&self) -> IndexView {
        IndexView {
            start_day: self.start_day,
            day_count: self.day_count,
            room_count: self.room_count,
            free: Set::new(|entry: (u32, u32)| self.is_free(entry.0 as int, entry.1 as int)),
        }
    }
}

proof fn lemma_offset_in_bounds(offset: int, per_day: int, days: int)
    requires
        0 <= offset < days,
        0 <= per_day,
    ensures
        0 <= offset * per_day,
        offset * per_day + per_day <= days * per_day,
{
    assert(0 <= offset * per_day && offset * per_day + per_day <= days * per_day)
        by (nonlinear_arith)
        requires
            0 <= offset < days,
            0 <= per_day,
    ;
}

proof fn lemma_offsets_apart(left: int, right: int, per_day: int)
    requires
        left < right,
        0 <= per_day,
    ensures
        left * per_day + per_day <= right * per_day,
{
    assert(left * per_day + per_day <= right * per_day) by (nonlinear_arith)
        requires
            left < right,
            0 <= per_day,
    ;
}

impl Clone for AvailabilityIndex {
    fn clone(&self) -> (copy: Self)
        ensures
            copy@ == self@,
    {
        proof {
            use_type_invariant(self);
        }
        let copy = AvailabilityIndex {
            start_day: self.start_day,
            day_count: self.day_count,
            room_count: self.room_count,
            words_per_day: self.words_per_day,
            words: vstd::slice::slice_to_vec(self.words.as_slice()),
        };
        assert(copy@.free =~= self@.free);
        copy
    }
}

impl AvailabilityIndex {
    spec fn is_free(self, day: int, room: int) -> bool {
        &&& self.start_day <= day < self.start_day + self.day_count
        &&& 0 <= room < self.room_count
        &&& in_words(
            day_words(self.words@, self.words_per_day as int, day - self.start_day),
            room,
        )
    }

    #[verifier::type_invariant]
    spec fn shaped(self) -> bool {
        &&& self.day_count <= MAX_INDEX_DAYS
        &&& self.room_count <= MAX_ROOM_IDS
        &&& self.words_per_day == words_for(self.room_count)
        &&& self.words@.len() == self.day_count * self.words_per_day
        &&& forall|offset: int, room: int|
            0 <= offset < self.day_count && self.room_count <= room < 64 * self.words_per_day
                ==> !#[trigger] in_words(
                day_words(self.words@, self.words_per_day as int, offset),
                room,
            )
    }

    /// An index over `day_count` days and `room_count` rooms in which no room is free.
    pub fn new(start_day: u32, day_count: u32, room_count: u32) -> (result: Result<
        Self,
        AvailabilityError,
    >)
        ensures
            match result {
                Ok(index) => {
                    &&& 1 <= day_count <= MAX_INDEX_DAYS
                    &&& 1 <= room_count <= MAX_ROOM_IDS
                    &&& index@ == (IndexView {
                        start_day,
                        day_count,
                        room_count,
                        free: Set::empty(),
                    })
                },
                Err(error) => if day_count == 0 || day_count > MAX_INDEX_DAYS {
                    error == AvailabilityError::InvalidDayCount(day_count)
                } else {
                    &&& room_count == 0 || room_count > MAX_ROOM_IDS
                    &&& error == AvailabilityError::InvalidRoomCount(room_count)
                },
            },
    {
        if day_count == 0 || day_count > MAX_INDEX_DAYS {
            return Err(AvailabilityError::InvalidDayCount(day_count));
        }
        if room_count == 0 || room_count > MAX_ROOM_IDS {
            return Err(AvailabilityError::InvalidRoomCount(room_count));
        }
        let words_per_day: usize = ((room_count + (WORD_BITS - 1)) / WORD_BITS) as usize;
        let days: usize = day_count as usize;
        assert(words_per_day * days <= 20_000 * 730) by (nonlinear_arith)
            requires
                words_per_day <= 20_000,
                days <= 730,
        ;
        assert(words_per_day * days == day_count * words_per_day) by (nonlinear_arith)
            requires
                days == day_count,
        ;
        let total: usize = words_per_day * days;
        let mut words: Vec<u64> = Vec::new();
        while words.len() < total
            invariant
                words@.len() <= total,
                forall|i: int| 0 <= i < words@.len() ==> words@[i] == 0,
            decreases total - words@.len(),
        {
            words.push(0);
        }
        proof {
            assert forall|offset: int, room: int|
                0 <= offset < day_count && 0 <= room < 64 * words_per_day implies !#[trigger] in_words(
                day_words(words@, words_per_day as int, offset),
                room,
            ) by {
                lemma_offset_in_bounds(offset, words_per_day as int, day_count as int);
                lemma_bit_of_zero((room % 64) as u32);
            }
        }
        let index = AvailabilityIndex { start_day, day_count, room_count, words_per_day, words };
        assert(index@.free =~= Set::empty()) by {
            assert forall|day: u32, room: u32| !index.is_free(day as int, room as int) by {
                if index@.covers(day as int) && room < room_count {
                    assert(!in_words(
                        day_words(index.words@, words_per_day as int, day - start_day),
                        room as int,
                    ));
                }
            }
        }
        Ok(index)
    }

    /// Marks a room as free or taken on a day.
    pub fn set_available(&mut self, day: u32, room_id: u32, available: bool) -> (result: Result<
        (),
        AvailabilityError,
    >)
        ensures
            match result {
                Ok(_) => {
                    &&& old(self)@.covers(day as int)
                    &&& room_id < old(self)@.room_count
                    &&& final(self)@ == (IndexView {
                        free: if available {
                            old(self)@.free.insert((day, room_id))
                        } else {
                            old(self)@.free.remove((day, room_id))
                        },
                        ..old(self)@
                    })
                    &&& final(self)@ == old(self)@.marked(day, room_id, available)
                },
                Err(error) => {
                    &&& final(self)@ == old(self)@
                    &&& if !old(self)@.covers(day as int) {
                        error == AvailabilityError::DayOutOfRange(day)
                    } else {
                        &&& room_id >= old(self)@.room_count
                        &&& error == AvailabilityError::RoomOutOfRange(room_id)
                    }
                },
            },
    {
        proof {
            use_type_invariant(&*self);
        }
        let offset: usize = self.day_offset(day)?;
        if room_id >= self.room_count {
            return Err(AvailabilityError::RoomOutOfRange(room_id));
        }
        let word_in_day: usize = (room_id / WORD_BITS) as usize;
        let bit: u32 = room_id % WORD_BITS;
        proof {
            lemma_offset_in_bounds(
                offset as int,
                self.words_per_day as int,
                self.day_count as int,
            );
        }
        let total: usize = self.words.len();
        assert(offset * self.words_per_day + self.words_per_day <= total);
        let at: usize = offset * self.words_per_day + word_in_day;
        let word: u64 = if available {
            self.words[at] | (1u64 << bit)
        } else {
            self.words[at] & !(1u64 << bit)
        };
        let ghost before = *self;
        let ghost updated = self.words@.update(at as int, word);
        proof {
            let per_day = self.words_per_day as int;
            assert forall|other: int, room: int|
                0 <= other < self.day_count && 0 <= room < 64 * per_day implies #[trigger] in_words(
                day_words(updated, per_day, other),
                room,
            ) == (if other == offset && room == room_id {
                available
            } else {
                in_words(day_words(self.words@, per_day, other), room)
            }) by {
                lemma_offset_in_bounds(other, per_day, self.day_count as int);
                if other < offset {
                    lemma_offsets_apart(other, offset as int, per_day);
                } else if other > offset {
                    lemma_offsets_apart(offset as int, other, per_day);
                }
                let probe = (room % 64) as u32;
                if available {
                    lemma_bit_of_set(self.words@[at as int], bit, probe);
                } else {
                    lemma_bit_of_clear(self.words@[at as int], bit, probe);
                }
                assert(in_words(day_words(self.words@, per_day, other), room) == has_bit(
                    self.words@[other * per_day + room / 64],
                    probe,
                ));
                assert(in_words(day_words(updated, per_day, other), room) == has_bit(
                    updated[other * per_day + room / 64],
                    probe,
                ));
            }
            assert forall|other: int, room: int|
                0 <= other < self.day_count && self.room_count <= room < 64 * per_day
                implies !#[trigger] in_words(day_words(updated, per_day, other), room) by {
                assert(!in_words(day_words(self.words@, per_day, other), room));
            }
        }
        let mut taken = AvailabilityIndex {
            start_day: 0,
            day_count: 0,
            room_count: 0,
            words_per_day: 0,
            words: Vec::new(),
        };
        std::mem::swap(self, &mut taken);
        let mut words = taken.words;
        words.set(at, word);
        *self = AvailabilityIndex {
            start_day: taken.start_day,
            day_count: taken.day_count,
            room_count: taken.room_count,
            words_per_day: taken.words_per_day,
            words,
        };
        proof {
            let after = self@.free;
            let expected = if available {
                before@.free.insert((day, room_id))
            } else {
                before@.free.remove((day, room_id))
            };
            assert forall|entry: (u32, u32)| after.contains(entry) == expected.contains(entry) by {
                let other = entry.0 - self.start_day;
                if before@.covers(entry.0 as int) && entry.1 < self.room_count {
                    assert(in_words(
                        day_words(updated, self.words_per_day as int, other),
                        entry.1 as int,
                    ) == (if other == offset && entry.1 == room_id {
                        available
                    } else {
                        in_words(
                            day_words(before.words@, self.words_per_day as int, other),
                            entry.1 as int,
                        )
                    }));
                }
            }
            assert(after =~= expected);
        }
        Ok(())
    }

    /// The rooms that are free on every night in `check_in..check_out`.
    pub fn available_for_stay(&self, check_in: u32, check_out: u32) -> (result: Result<
        DenseRoomSet,
        AvailabilityError,
    >)
        ensures
            match result {
                Ok(set) => {
                    &&& self@.stay_error(check_in, check_out) is None
                    &&& set@ == (RoomSetView {
                        rooms: self@.stay_rooms(check_in, check_out),
                        room_count: self@.room_count,
                    })
                    &&& forall|room: u32| #[trigger]
                        set@.rooms.contains(room) <==> room < self@.room_count && forall|night: u32|
                            check_in <= night < check_out ==> #[trigger] self@.free.contains(
                                (night, room),
                            )
                },
                Err(error) => self@.stay_error(check_in, check_out) == Some(error),
            },
    {
        proof {
            use_type_invariant(self);
        }
        if check_out <= check_in {
            return Err(AvailabilityError::InvalidStayRange);
        }
        let nights: u32 = check_out - check_in;
        if nights > MAX_STAY_NIGHTS {
            return Err(AvailabilityError::StayTooLong(nights));
        }
        let first = self.day_slice(check_in)?;
        self.day_offset(check_out - 1)?;
        let ghost per_day = self.words_per_day as int;
        let ghost base = check_in - self.start_day;
        let mut words: Vec<u64> = vstd::slice::slice_to_vec(first);
        let mut day: u32 = check_in + 1;
        while day < check_out
            invariant
                self.shaped(),
                self@.stay_error(check_in, check_out) is None,
                check_in < day <= check_out,
                per_day == self.words_per_day,
                base == check_in - self.start_day,
                words@.len() == per_day,
                forall|room: int|
                    0 <= room < 64 * per_day ==> #[trigger] in_words(words@, room) == self.all_in(
                        base,
                        day - self.start_day,
                        room,
                    ),
            decreases check_out - day,
        {
            let ghost before = words@;
            let source = self.day_slice(day)?;
            let mut index: usize = 0;
            while index < words.len()
                invariant
                    index <= words@.len(),
                    words@.len() == before.len() == source@.len() == per_day,
                    forall|i: int| 0 <= i < index ==> words@[i] == before[i] & source@[i],
                    forall|i: int| index <= i < words@.len() ==> words@[i] == before[i],
                decreases words@.len() - index,
            {
                words[index] = words[index] & source[index];
                index = index + 1;
            }
            proof {
                assert forall|room: int| 0 <= room < 64 * per_day implies #[trigger] in_words(
                    words@,
                    room,
                ) == self.all_in(base, day + 1 - self.start_day, room) by {
                    let at = room / 64;
                    lemma_bit_of_both(before[at], source@[at], (room % 64) as u32);
                    assert(in_words(before, room) == self.all_in(
                        base,
                        day - self.start_day,
                        room,
                    ));
                    assert(in_words(source@, room) == in_words(
                        day_words(self.words@, per_day, day - self.start_day),
                        room,
                    ));
                }
            }
            day = day + 1;
        }
        proof {
            assert forall|room: int| self.room_count <= room < 64 * per_day implies !#[trigger] in_words(
                words@,
                room,
            ) by {
                assert(in_words(words@, room) == self.all_in(
                    base,
                    check_out - self.start_day,
                    room,
                ));
                assert(!in_words(day_words(self.words@, per_day, base), room));
            }
        }
        let set = DenseRoomSet { words, room_count: self.room_count };
        proof {
            let expected = self@.stay_rooms(check_in, check_out);
            assert forall|room: u32| set@.rooms.contains(room) == expected.contains(room) by {
                if room < self.room_count {
                    assert(in_words(set.words@, room as int) == self.all_in(
                        base,
                        check_out - self.start_day,
                        room as int,
                    ));
                    if in_words(set.words@, room as int) {
                        assert forall|night: u32| check_in <= night < check_out implies #[trigger]
                            self@.free.contains((night, room)) by {
                            assert(in_words(
                                day_words(self.words@, per_day, night - self.start_day),
                                room as int,
                            ));
                        }
                    }
                    if expected.contains(room) {
                        assert forall|offset: int| base <= offset < check_out - self.start_day
                            implies in_words(
                            #[trigger] day_words(self.words@, per_day, offset),
                            room as int,
                        ) by {
                            let night = (offset + self.start_day) as u32;
                            assert(self@.free.contains((night, room)));
                        }
                    }
                }
            }
            assert(set@.rooms =~= expected);
        }
        Ok(set)
    }

    /// Whether `room` is marked on every day in `from..until`, counted from the first one.
    spec fn all_in(self, from: int, until: int, room: int) -> bool {
        forall|offset: int|
            from <= offset < until ==> in_words(
                #[trigger] day_words(self.words@, self.words_per_day as int, offset),
                room,
            )
    }

    /// The rooms that are free on every night, found room by room and night by night.
    ///
    /// Deliberately slow: a reference to hold `available_for_stay` against.
    pub fn reference_available_for_stay(&self, check_in: u32, check_out: u32) -> (result: Result<
        Vec<u32>,
        AvailabilityError,
    >)
        ensures
            match result {
                Ok(ids) => {
                    &&& self@.stay_error(check_in, check_out) is None
                    &&& ids@ == listed(
                        self@.stay_rooms(check_in, check_out),
                        self@.room_count as nat,
                    )
                    &&& forall|room: u32| #[trigger]
                        ids@.contains(room) <==> room < self@.room_count && forall|night: u32|
                            check_in <= night < check_out ==> #[trigger] self@.free.contains(
                                (night, room),
                            )
                },
                Err(error) => self@.stay_error(check_in, check_out) == Some(error),
            },
    {
        self.available_for_stay(check_in, check_out)?;
        let ghost rooms = self@.stay_rooms(check_in, check_out);
        let mut ids: Vec<u32> = Vec::new();
        let mut room_id: u32 = 0;
        while room_id < self.room_count
            invariant
                self@.stay_error(check_in, check_out) is None,
                rooms == self@.stay_rooms(check_in, check_out),
                room_id <= self.room_count,
                ids@ == listed(rooms, room_id as nat),
            decreases self.room_count - room_id,
        {
            let mut valid = true;
            let mut day: u32 = check_in;
            while valid && day < check_out
                invariant
                    self@.stay_error(check_in, check_out) is None,
                    room_id < self.room_count,
                    check_in <= day <= check_out,
                    valid ==> forall|night: u32|
                        check_in <= night < day ==> #[trigger] self@.free.contains(
                            (night, room_id),
                        ),
                    !valid ==> exists|night: u32|
                        check_in <= night < check_out && !#[trigger] self@.free.contains(
                            (night, room_id),
                        ),
                decreases check_out - day + if valid {
                    1int
                } else {
                    0
                },
            {
                if self.available_on_day(day, room_id)? {
                    day = day + 1;
                } else {
                    valid = false;
                }
            }
            assert(valid == rooms.contains(room_id));
            if valid {
                ids.push(room_id);
            }
            room_id = room_id + 1;
        }
        proof {
            law_listing_is_ascending_and_complete(rooms, self@.room_count as nat);
        }
        Ok(ids)
    }

    /// The first day.
    pub fn start_day(&self) -> (day: u32)
        ensures
            day == self@.start_day,
    {
        self.start_day
    }

    /// The number of days.
    pub fn day_count(&self) -> (count: u32)
        ensures
            count == self@.day_count,
    {
        self.day_count
    }

    /// The number of rooms.
    pub fn room_count(&self) -> (count: u32)
        ensures
            count == self@.room_count,
    {
        self.room_count
    }

    fn available_on_day(&self, day: u32, room_id: u32) -> (result: Result<bool, AvailabilityError>)
        ensures
            match result {
                Ok(free) => {
                    &&& room_id < self@.room_count
                    &&& self@.covers(day as int)
                    &&& free == self@.free.contains((day, room_id))
                },
                Err(error) => if room_id >= self@.room_count {
                    error == AvailabilityError::RoomOutOfRange(room_id)
                } else {
                    !self@.covers(day as int) && error == AvailabilityError::DayOutOfRange(day)
                },
            },
    {
        proof {
            use_type_invariant(self);
        }
        if room_id >= self.room_count {
            return Err(AvailabilityError::RoomOutOfRange(room_id));
        }
        let words = self.day_slice(day)?;
        let word: usize = (room_id / WORD_BITS) as usize;
        let bit: u32 = room_id % WORD_BITS;
        Ok(words[word] & (1u64 << bit) != 0)
    }

    fn day_slice(&self, day: u32) -> (result: Result<&[u64], AvailabilityError>)
        ensures
            match result {
                Ok(words) => {
                    &&& self@.covers(day as int)
                    &&& words@ == day_words(
                        self.words@,
                        self.words_per_day as int,
                        day - self.start_day,
                    )
                    &&& words@.len() == self.words_per_day
                },
                Err(error) => !self@.covers(day as int) && error
                    == AvailabilityError::DayOutOfRange(day),
            },
    {
        proof {
            use_type_invariant(self);
        }
        let offset: usize = self.day_offset(day)?;
        proof {
            lemma_offset_in_bounds(
                offset as int,
                self.words_per_day as int,
                self.day_count as int,
            );
        }
        let total: usize = self.words.len();
        assert(offset * self.words_per_day + self.words_per_day <= total);
        let start: usize = offset * self.words_per_day;
        let end: usize = start + self.words_per_day;
        Ok(vstd::slice::slice_subrange(self.words.as_slice(), start, end))
    }

    fn day_offset(&self, day: u32) -> (result: Result<usize, AvailabilityError>)
        ensures
            match result {
                Ok(offset) => self@.covers(day as int) && offset == day - self.start_day,
                Err(error) => !self@.covers(day as int) && error
                    == AvailabilityError::DayOutOfRange(day),
            },
    {
        if day < self.start_day || day - self.start_day >= self.day_count {
            return Err(AvailabilityError::DayOutOfRange(day));
        }
        Ok((day - self.start_day) as usize)
    }
}

/// A room is free for a stay only if it is free on each of its nights, so a longer stay never
/// frees a room and a stay is the intersection of its parts.
pub proof fn law_stay_is_the_intersection_of_its_parts(
    index: IndexView,
    check_in: u32,
    between: u32,
    check_out: u32,
)
    requires
        check_in <= between <= check_out,
    ensures
        index.stay_rooms(check_in, check_out) == index.stay_rooms(check_in, between).intersect(
            index.stay_rooms(between, check_out),
        ),
{
    assert(index.stay_rooms(check_in, check_out) =~= index.stay_rooms(
        check_in,
        between,
    ).intersect(index.stay_rooms(between, check_out)));
}

/// Why an index or a question to it is refused.
#[derive(Clone, Copy, Debug, PartialEq, Eq, Structural)]
pub enum AvailabilityError {
    InvalidDayCount(u32),
    InvalidRoomCount(u32),
    InvalidStayRange,
    StayTooLong(u32),
    DayOutOfRange(u32),
    RoomOutOfRange(u32),
    SizeOverflow,
    InternalBounds,
}

impl AvailabilityError {
    /// The diagnostic text of this error.
    pub open spec fn spec_message(self) -> Seq<char> {
        match self {
            AvailabilityError::InvalidDayCount(count) => bracketed(
                "InvalidDayCount"@,
                decimal(count as int),
            ),
            AvailabilityError::InvalidRoomCount(count) => bracketed(
                "InvalidRoomCount"@,
                decimal(count as int),
            ),
            AvailabilityError::InvalidStayRange => "InvalidStayRange"@,
            AvailabilityError::StayTooLong(nights) => bracketed(
                "StayTooLong"@,
                decimal(nights as int),
            ),
            AvailabilityError::DayOutOfRange(day) => bracketed(
                "DayOutOfRange"@,
                decimal(day as int),
            ),
            AvailabilityError::RoomOutOfRange(room) => bracketed(
                "RoomOutOfRange"@,
                decimal(room as int),
            ),
            AvailabilityError::SizeOverflow => "SizeOverflow"@,
            AvailabilityError::InternalBounds => "InternalBounds"@,
        }
    }

    /// The diagnostic text of this error.
    pub fn message(&self) -> (text: String)
        ensures
            text@ == self.spec_message(),
    {
        match self {
            AvailabilityError::InvalidDayCount(count) => {
                numbered_text("InvalidDayCount", *count as u64)
            },
            AvailabilityError::InvalidRoomCount(count) => {
                numbered_text("InvalidRoomCount", *count as u64)
            },
            AvailabilityError::InvalidStayRange => "InvalidStayRange".to_owned(),
            AvailabilityError::StayTooLong(nights) => numbered_text("StayTooLong", *nights as u64),
            AvailabilityError::DayOutOfRange(day) => numbered_text("DayOutOfRange", *day as u64),
            AvailabilityError::RoomOutOfRange(room) => {
                numbered_text("RoomOutOfRange", *room as u64)
            },
            AvailabilityError::SizeOverflow => "SizeOverflow".to_owned(),
            AvailabilityError::InternalBounds => "InternalBounds".to_owned(),
        }
    }
}

/// A night is free in exactly the rooms that are marked free on its day.
pub proof fn law_one_night_is_free_where_it_is_marked(index: IndexView, day: u32, room: u32)
    requires
        day < u32::MAX,
    ensures
        index.stay_rooms(day, (day + 1) as u32).contains(room) <==> room < index.room_count
            && index.free.contains((day, room)),
{
}

/// Every stay asks the same of a room: that it exists and is marked free on each night from
/// check-in up to and without check-out, wherever in the index those nights lie.
pub proof fn law_stay_is_free_where_every_night_is_marked(
    index: IndexView,
    check_in: u32,
    check_out: u32,
    room: u32,
)
    ensures
        index.stay_rooms(check_in, check_out).contains(room) ==> room < index.room_count,
        room < index.room_count && !index.stay_rooms(check_in, check_out).contains(room) ==> exists|
            night: u32,
        |
            check_in <= night < check_out && !#[trigger] index.free.contains((night, room)),
        forall|night: u32|
            check_in <= night < check_out && !#[trigger] index.free.contains((night, room))
                ==> !index.stay_rooms(check_in, check_out).contains(room),
{
}

/// Marking one room on one day decides that room for the stays over that day, together with its
/// other nights, and no other room and no other stay.
pub proof fn law_mark_decides_its_own_room_and_night_only(
    index: IndexView,
    day: u32,
    marked: u32,
    available: bool,
    check_in: u32,
    check_out: u32,
    room: u32,
)
    requires
        marked < index.room_count,
        day < u32::MAX,
    ensures
        ({
            let after = index.marked(day, marked, available);
            let before = index.stay_rooms(check_in, check_out).contains(room);
            let now = after.stay_rooms(check_in, check_out).contains(room);
            if room == marked && check_in <= day < check_out {
                now == (available && index.stay_rooms(check_in, day).contains(room)
                    && index.stay_rooms((day + 1) as u32, check_out).contains(room))
            } else {
                now == before
            }
        }),
{
    let after = index.marked(day, marked, available);
    if room == marked && check_in <= day < check_out {
        assert(after.free.contains((day, room)) == available);
        assert forall|night: u32| night != day implies after.free.contains((night, room))
            == #[trigger] index.free.contains((night, room)) by {}
    } else {
        assert forall|night: u32| check_in <= night < check_out implies after.free.contains(
            (night, room),
        ) == #[trigger] index.free.contains((night, room)) by {}
    }
}

/// One write to an index: a day, a room, and whether the room is free.
pub type Write = (u32, u32, bool);

/// An index after a run of writes, each of them made in turn.
pub open spec fn after_writes(index: IndexView, writes: Seq<Write>) -> IndexView
    decreases writes.len(),
{
    if writes.len() == 0 {
        index
    } else {
        let last = writes.last();
        after_writes(index, writes.drop_last()).marked(last.0, last.1, last.2)
    }
}

/// Whether the last of `writes` for a day and a room says that the room is free; without any, the
/// room is taken.
pub open spec fn last_word(writes: Seq<Write>, day: u32, room: u32) -> bool {
    exists|i: int|
        #![trigger writes[i]]
        0 <= i < writes.len() && writes[i] == (day, room, true) && forall|j: int|
            i < j < writes.len() ==> !((#[trigger] writes[j]).0 == day && writes[j].1 == room)
}

proof fn lemma_last_word(index: IndexView, writes: Seq<Write>, day: u32, room: u32)
    requires
        index.free == Set::<(u32, u32)>::empty(),
    ensures
        after_writes(index, writes).free.contains((day, room)) == last_word(writes, day, room),
        after_writes(index, writes).room_count == index.room_count,
        after_writes(index, writes).start_day == index.start_day,
        after_writes(index, writes).day_count == index.day_count,
    decreases writes.len(),
{
    if writes.len() > 0 {
        let front = writes.drop_last();
        let last = writes.last();
        let top = writes.len() - 1;
        assert(writes[top] == last);
        lemma_last_word(index, front, day, room);
        if last.0 == day && last.1 == room {
            if last.2 {
                assert(writes[top] == (day, room, true));
                assert(last_word(writes, day, room));
            }
        } else {
            if last_word(front, day, room) {
                let i = choose|i: int|
                    #![trigger front[i]]
                    0 <= i < front.len() && front[i] == (day, room, true) && forall|j: int|
                        i < j < front.len() ==> !((#[trigger] front[j]).0 == day && front[j].1
                            == room);
                assert(writes[i] == (day, room, true));
                assert forall|j: int| i < j < writes.len() implies !((#[trigger] writes[j]).0 == day
                    && writes[j].1 == room) by {
                    if j < top {
                        assert(front[j] == writes[j]);
                    }
                }
            }
            if last_word(writes, day, room) {
                let i = choose|i: int|
                    #![trigger writes[i]]
                    0 <= i < writes.len() && writes[i] == (day, room, true) && forall|j: int|
                        i < j < writes.len() ==> !((#[trigger] writes[j]).0 == day && writes[j].1
                            == room);
                assert(front[i] == (day, room, true));
                assert forall|j: int| i < j < front.len() implies !((#[trigger] front[j]).0 == day
                    && front[j].1 == room) by {
                    assert(writes[j] == front[j]);
                }
            }
        }
    }
}

/// What was written is what is found: in an index that started without free rooms, a room is free
/// for a stay exactly if for each night of the stay the last write for that night and that room
/// said so.
pub proof fn law_stay_finds_what_was_written(
    index: IndexView,
    writes: Seq<Write>,
    check_in: u32,
    check_out: u32,
    room: u32,
)
    requires
        index.free == Set::<(u32, u32)>::empty(),
    ensures
        after_writes(index, writes).stay_rooms(check_in, check_out).contains(room) <==> room
            < index.room_count && forall|night: u32|
            #![trigger last_word(writes, night, room)]
            check_in <= night < check_out ==> last_word(writes, night, room),
{
    let after = after_writes(index, writes);
    assert forall|night: u32| #[trigger] after.free.contains((night, room)) == last_word(
        writes,
        night,
        room,
    ) by {
        lemma_last_word(index, writes, night, room);
    }
    lemma_last_word(index, writes, check_in, room);
    let written = forall|night: u32|
        #![trigger last_word(writes, night, room)]
        check_in <= night < check_out ==> last_word(writes, night, room);
    if written {
        assert forall|night: u32| check_in <= night < check_out implies #[trigger] after.free
            .contains((night, room)) by {
            assert(last_word(writes, night, room));
        }
    }
    if after.stay_rooms(check_in, check_out).contains(room) {
        assert forall|night: u32| check_in <= night < check_out implies #[trigger] last_word(
            writes,
            night,
            room,
        ) by {
            assert(after.free.contains((night, room)));
        }
    }
}

/// A stay is answered exactly if it has between one night and the bound and lies within the days
/// of the index; otherwise it is told what is wrong first.
pub proof fn law_stay_is_answered_exactly_if_covered(
    index: IndexView,
    check_in: u32,
    check_out: u32,
)
    ensures
        index.stay_error(check_in, check_out) is None <==> 1 <= check_out - check_in
            <= 90 && index.start_day <= check_in && check_out <= index.start_day
            + index.day_count,
        index.stay_error(check_in, check_out) matches Some(AvailabilityError::DayOutOfRange(day))
            ==> check_in <= day < check_out && !(index.start_day <= day < index.start_day
            + index.day_count),
        check_out <= check_in ==> index.stay_error(check_in, check_out) == Some(
            AvailabilityError::InvalidStayRange,
        ),
        check_out - check_in > 90 ==> index.stay_error(check_in, check_out) == Some(
            AvailabilityError::StayTooLong((check_out - check_in) as u32),
        ),
{
}

/// An index has room for the days of two years and for a million rooms, and a stay for ninety
/// nights.
pub proof fn law_index_has_its_room()
    ensures
        MAX_INDEX_DAYS == 2 * 365,
        MAX_ROOM_IDS == 1_000_000,
        MAX_STAY_NIGHTS == 90,
{
}

} // verus!
