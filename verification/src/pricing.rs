//! Deterministic fixed-point projected pricing.
//!
//! The values are search projections; the booking system remains authoritative at checkout. All
//! arithmetic is on whole micros and checked, with no floating point.

use crate::text::{bracketed, decimal, numbered_text};
use vstd::prelude::*;

verus! {

/// Most nights that a price vector holds.
pub const MAX_PRICE_DAYS: usize = 730;

/// Most nights that one quote covers.
pub const MAX_QUOTE_NIGHTS: usize = 90;

/// An amount of money in millionths of its currency unit.
#[derive(Clone, Copy, Debug, PartialEq, Eq, PartialOrd, Ord, Structural)]
pub struct MoneyMicros(i64);

impl View for MoneyMicros {
    type V = int;

    closed spec fn view(&self) -> int {
        self.0 as int
    }
}

/// Whether an amount can be held.
pub open spec fn representable(amount: int) -> bool {
    i64::MIN <= amount <= i64::MAX
}

impl MoneyMicros {
    /// An amount that may not be negative.
    pub fn try_nonnegative(value: i64) -> (result: Result<Self, PricingError>)
        ensures
            match result {
                Ok(money) => value >= 0 && money@ == value,
                Err(error) => value < 0 && error == PricingError::NegativeAuthoritativeComponent,
            },
    {
        if value < 0 {
            Err(PricingError::NegativeAuthoritativeComponent)
        } else {
            Ok(MoneyMicros(value))
        }
    }

    /// An amount of either sign.
    pub fn signed(value: i64) -> (money: Self)
        ensures
            money@ == value,
    {
        MoneyMicros(value)
    }

    /// The number of micros.
    pub fn get(self) -> (value: i64)
        ensures
            value == self@,
    {
        self.0
    }

    /// The sum of two amounts, where it can be held.
    pub fn checked_add(self, other: Self) -> (result: Result<Self, PricingError>)
        ensures
            match result {
                Ok(money) => representable(self@ + other@) && money@ == self@ + other@,
                Err(error) => !representable(self@ + other@) && error == PricingError::Overflow,
            },
    {
        match self.0.checked_add(other.0) {
            Some(sum) => Ok(MoneyMicros(sum)),
            None => Err(PricingError::Overflow),
        }
    }

    /// `count` times the amount, where it can be held.
    pub fn checked_mul(self, count: u32) -> (result: Result<Self, PricingError>)
        ensures
            match result {
                Ok(money) => representable(self@ * count) && money@ == self@ * count,
                Err(error) => !representable(self@ * count) && error == PricingError::Overflow,
            },
    {
        match self.0.checked_mul(count as i64) {
            Some(product) => Ok(MoneyMicros(product)),
            None => Err(PricingError::Overflow),
        }
    }
}

/// What a guest adds to a night, by kind of guest.
#[derive(Clone, Copy, Debug, PartialEq, Eq)]
pub struct OccupancyAdjustment {
    pub per_adult_per_night: MoneyMicros,
    pub per_child_per_night: MoneyMicros,
}

/// A quoted price and its parts.
#[derive(Clone, Copy, Debug, PartialEq, Eq)]
pub struct ProjectedPrice {
    pub base: MoneyMicros,
    pub occupancy_adjustment: MoneyMicros,
    pub total: MoneyMicros,
    pub model_version: u32,
}

/// Contents of a `PriceVector`.
#[verifier::ext_equal]
pub struct PriceVectorView {
    pub start_day: int,
    pub nightly: Seq<int>,
    pub model_version: u32,
}

/// The amounts of a list of money.
pub open spec fn amounts(nightly: Seq<MoneyMicros>) -> Seq<int> {
    Seq::new(nightly.len(), |i: int| nightly[i]@)
}

/// The sum of a list of amounts.
pub open spec fn sum(values: Seq<int>) -> int
    decreases values.len(),
{
    if values.len() == 0 {
        0
    } else {
        sum(values.drop_last()) + values.last()
    }
}

/// Why a price vector is refused, if it is.
pub open spec fn vector_error(nightly: Seq<int>, model_version: u32) -> Option<PricingError> {
    if nightly.len() == 0 || nightly.len() > MAX_PRICE_DAYS {
        Some(PricingError::InvalidVectorLength(nightly.len() as usize))
    } else if exists|i: int| 0 <= i < nightly.len() && #[trigger] nightly[i] < 0 {
        Some(PricingError::NegativeAuthoritativeComponent)
    } else if model_version == 0 {
        Some(PricingError::UnknownModelVersion)
    } else {
        None
    }
}

impl PriceVectorView {
    /// What the nights of a stay cost without guests.
    pub open spec fn base(self, check_in: int, check_out: int) -> int {
        sum(self.nightly.subrange(check_in - self.start_day, check_out - self.start_day))
    }

    /// Why a stay cannot be quoted at all, if so.
    pub open spec fn stay_error(self, check_in: int, check_out: int) -> Option<PricingError> {
        if check_out <= check_in {
            Some(PricingError::InvalidStay)
        } else if check_out - check_in > MAX_QUOTE_NIGHTS {
            Some(PricingError::StayTooLong((check_out - check_in) as usize))
        } else if check_in < self.start_day {
            Some(PricingError::OutsidePriceHorizon)
        } else if check_out - self.start_day > usize::MAX {
            Some(PricingError::Overflow)
        } else if check_out - self.start_day > self.nightly.len() {
            Some(PricingError::OutsidePriceHorizon)
        } else {
            None
        }
    }

    /// Why a quote is refused, if it is.
    pub open spec fn quote_error(
        self,
        check_in: int,
        check_out: int,
        adults: int,
        children: int,
        per_adult: int,
        per_child: int,
    ) -> Option<PricingError> {
        let base = self.base(check_in, check_out);
        let adjustment = stay_adjustment(
            check_out - check_in,
            adults,
            children,
            per_adult,
            per_child,
        );
        if self.stay_error(check_in, check_out) is Some {
            self.stay_error(check_in, check_out)
        } else if !representable(base) || !representable(per_adult * adults) || !representable(
            per_child * children,
        ) || !representable(per_adult * adults + per_child * children) || !representable(adjustment)
            || !representable(base + adjustment) {
            Some(PricingError::Overflow)
        } else if base + adjustment < 0 {
            Some(PricingError::NegativeProjectedTotal)
        } else {
            None
        }
    }
}

/// What the guests add to a stay.
pub open spec fn stay_adjustment(
    nights: int,
    adults: int,
    children: int,
    per_adult: int,
    per_child: int,
) -> int {
    (per_adult * adults + per_child * children) * nights
}

/// Nightly base prices from a day on, under one pricing model.
#[derive(Debug, PartialEq, Eq)]
pub struct PriceVector {
    start_day: i32,
    nightly: Vec<MoneyMicros>,
    model_version: u32,
}

impl View for PriceVector {
    type V = PriceVectorView;

    closed spec fn view(&self) -> PriceVectorView {
        PriceVectorView {
            start_day: self.start_day as int,
            nightly: amounts(self.nightly@),
            model_version: self.model_version,
        }
    }
}

impl Clone for PriceVector {
    fn clone(&self) -> (copy: Self)
        ensures
            copy@ == self@,
    {
        proof {
            use_type_invariant(self);
        }
        PriceVector {
            start_day: self.start_day,
            nightly: vstd::slice::slice_to_vec(self.nightly.as_slice()),
            model_version: self.model_version,
        }
    }
}

proof fn lemma_sum_of_prefix(values: Seq<int>, count: int)
    requires
        0 <= count <= values.len(),
        forall|i: int| 0 <= i < values.len() ==> values[i] >= 0,
    ensures
        0 <= sum(values.take(count)) <= sum(values),
    decreases values.len() - count,
{
    if count == values.len() {
        assert(values.take(count) =~= values);
        lemma_sum_nonnegative(values);
    } else {
        lemma_sum_of_prefix(values, count + 1);
        assert(values.take(count + 1).drop_last() =~= values.take(count));
        assert(values.take(count + 1).last() == values[count]);
        lemma_sum_nonnegative(values.take(count));
    }
}

proof fn lemma_sum_nonnegative(values: Seq<int>)
    requires
        forall|i: int| 0 <= i < values.len() ==> values[i] >= 0,
    ensures
        sum(values) >= 0,
    decreases values.len(),
{
    if values.len() > 0 {
        lemma_sum_nonnegative(values.drop_last());
    }
}

proof fn lemma_sum_of_concat(left: Seq<int>, right: Seq<int>)
    ensures
        sum(left + right) == sum(left) + sum(right),
    decreases right.len(),
{
    if right.len() == 0 {
        assert(left + right =~= left);
    } else {
        assert((left + right).drop_last() =~= left + right.drop_last());
        lemma_sum_of_concat(left, right.drop_last());
    }
}

impl PriceVector {
    #[verifier::type_invariant]
    spec fn priced(self) -> bool {
        &&& 1 <= self.nightly@.len() <= MAX_PRICE_DAYS
        &&& forall|i: int| 0 <= i < self.nightly@.len() ==> (#[trigger] self.nightly@[i])@ >= 0
        &&& self.model_version != 0
    }

    /// A price vector from its parts.
    pub fn try_new(
        start_day: i32,
        nightly: Vec<MoneyMicros>,
        model_version: u32,
    ) -> (result: Result<Self, PricingError>)
        ensures
            match result {
                Ok(vector) => vector_error(amounts(nightly@), model_version) is None && vector@ == (
                PriceVectorView {
                    start_day: start_day as int,
                    nightly: amounts(nightly@),
                    model_version,
                }),
                Err(error) => vector_error(amounts(nightly@), model_version) == Some(error),
            },
    {
        let ghost values = amounts(nightly@);
        if nightly.len() == 0 || nightly.len() > MAX_PRICE_DAYS {
            return Err(PricingError::InvalidVectorLength(nightly.len()));
        }
        let mut index: usize = 0;
        while index < nightly.len()
            invariant
                values == amounts(nightly@),
                1 <= nightly@.len() <= MAX_PRICE_DAYS,
                index <= nightly@.len(),
                forall|i: int| 0 <= i < index ==> (#[trigger] nightly@[i])@ >= 0,
            decreases nightly@.len() - index,
        {
            if nightly[index].get() < 0 {
                assert(values[index as int] < 0);
                return Err(PricingError::NegativeAuthoritativeComponent);
            }
            index = index + 1;
        }
        assert forall|i: int| 0 <= i < values.len() implies #[trigger] values[i] >= 0 by {
            assert(values[i] == nightly@[i]@);
        }
        if model_version == 0 {
            return Err(PricingError::UnknownModelVersion);
        }
        Ok(PriceVector { start_day, nightly, model_version })
    }

    /// The version of the pricing model.
    pub fn model_version(&self) -> (version: u32)
        ensures
            version == self@.model_version,
    {
        self.model_version
    }

    /// Computes the exact price projection of a bounded stay.
    pub fn quote(
        &self,
        check_in_day: i32,
        check_out_day: i32,
        adults: u16,
        children: u16,
        adjustment: OccupancyAdjustment,
    ) -> (result: Result<ProjectedPrice, PricingError>)
        ensures
            ({
                let (check_in, check_out) = (check_in_day as int, check_out_day as int);
                let (per_adult, per_child) = (
                    adjustment.per_adult_per_night@,
                    adjustment.per_child_per_night@,
                );
                let refusal = self@.quote_error(
                    check_in,
                    check_out,
                    adults as int,
                    children as int,
                    per_adult,
                    per_child,
                );
                match result {
                    Ok(price) => {
                        &&& refusal is None
                        &&& price.base@ == self@.base(check_in, check_out)
                        &&& price.occupancy_adjustment@ == stay_adjustment(
                            check_out - check_in,
                            adults as int,
                            children as int,
                            per_adult,
                            per_child,
                        )
                        &&& price.total@ == price.base@ + price.occupancy_adjustment@
                        &&& price.model_version == self@.model_version
                    },
                    Err(error) => refusal == Some(error),
                }
            }),
    {
        proof {
            use_type_invariant(self);
        }
        let nights_wide: i64 = check_out_day as i64 - check_in_day as i64;
        if nights_wide <= 0 {
            return Err(PricingError::InvalidStay);
        }
        let nights: usize = nights_wide as usize;
        if nights > MAX_QUOTE_NIGHTS {
            return Err(PricingError::StayTooLong(nights));
        }
        let start_wide: i64 = check_in_day as i64 - self.start_day as i64;
        if start_wide < 0 {
            return Err(PricingError::OutsidePriceHorizon);
        }
        let start: usize = start_wide as usize;
        let end: usize = match start.checked_add(nights) {
            Some(end) => end,
            None => return Err(PricingError::Overflow),
        };
        if end > self.nightly.len() {
            return Err(PricingError::OutsidePriceHorizon);
        }
        let ghost stay = self@.nightly.subrange(start as int, end as int);
        let mut base = MoneyMicros::signed(0);
        let mut index: usize = start;
        assert(stay.take(0) =~= Seq::<int>::empty());
        while index < end
            invariant
                start <= index <= end <= self.nightly@.len(),
                stay == self@.nightly.subrange(start as int, end as int),
                forall|i: int| 0 <= i < self.nightly@.len() ==> (#[trigger] self.nightly@[i])@ >= 0,
                base@ == sum(stay.take(index - start)),
                self@.stay_error(check_in_day as int, check_out_day as int) is None,
                self@.base(check_in_day as int, check_out_day as int) == sum(stay),
            decreases end - index,
        {
            proof {
                let done = index - start;
                assert(stay.take(done + 1).drop_last() =~= stay.take(done));
                assert(stay.take(done + 1).last() == self.nightly@[index as int]@);
                assert forall|i: int| 0 <= i < stay.len() implies stay[i] >= 0 by {
                    assert(stay[i] == self.nightly@[start + i]@);
                }
                lemma_sum_of_prefix(stay, done + 1);
            }
            base = base.checked_add(self.nightly[index])?;
            index = index + 1;
        }
        assert(stay.take(end - start) =~= stay);
        let per_adult = adjustment.per_adult_per_night.checked_mul(adults as u32)?;
        let per_child = adjustment.per_child_per_night.checked_mul(children as u32)?;
        let per_night = per_adult.checked_add(per_child)?;
        let occupancy_adjustment = per_night.checked_mul(nights as u32)?;
        let total = base.checked_add(occupancy_adjustment)?;
        if total.get() < 0 {
            return Err(PricingError::NegativeProjectedTotal);
        }
        Ok(
            ProjectedPrice {
                base,
                occupancy_adjustment,
                total,
                model_version: self.model_version,
            },
        )
    }
}

/// Splitting a stay at any night changes neither what its nights nor what its guests cost.
pub proof fn law_stay_splits_over_its_nights(
    vector: PriceVectorView,
    check_in: int,
    between: int,
    check_out: int,
    adults: int,
    children: int,
    per_adult: int,
    per_child: int,
)
    requires
        vector.start_day <= check_in <= between <= check_out,
        check_out - vector.start_day <= vector.nightly.len(),
    ensures
        vector.base(check_in, check_out) == vector.base(check_in, between) + vector.base(
            between,
            check_out,
        ),
        stay_adjustment(check_out - check_in, adults, children, per_adult, per_child)
            == stay_adjustment(between - check_in, adults, children, per_adult, per_child)
            + stay_adjustment(check_out - between, adults, children, per_adult, per_child),
{
    let first = vector.nightly.subrange(
        check_in - vector.start_day,
        between - vector.start_day,
    );
    let second = vector.nightly.subrange(
        between - vector.start_day,
        check_out - vector.start_day,
    );
    assert(vector.nightly.subrange(check_in - vector.start_day, check_out - vector.start_day)
        =~= first + second);
    lemma_sum_of_concat(first, second);
    let per_night = per_adult * adults + per_child * children;
    assert(per_night * (check_out - check_in) == per_night * (between - check_in) + per_night * (
    check_out - between)) by (nonlinear_arith);
}

/// A quote that is given is never negative, and neither is its base.
pub proof fn law_quoted_total_is_not_negative(
    vector: PriceVectorView,
    check_in: int,
    check_out: int,
    adults: int,
    children: int,
    per_adult: int,
    per_child: int,
)
    requires
        vector_error(vector.nightly, vector.model_version) is None,
    ensures
        vector.quote_error(check_in, check_out, adults, children, per_adult, per_child) is None
            ==> {
            &&& vector.base(check_in, check_out) >= 0
            &&& vector.base(check_in, check_out) + stay_adjustment(
                check_out - check_in,
                adults,
                children,
                per_adult,
                per_child,
            ) >= 0
        },
{
    if vector.stay_error(check_in, check_out) is None {
        let stay = vector.nightly.subrange(
            check_in - vector.start_day,
            check_out - vector.start_day,
        );
        assert forall|i: int| 0 <= i < stay.len() implies stay[i] >= 0 by {
            assert(stay[i] == vector.nightly[check_in - vector.start_day + i]);
        }
        lemma_sum_nonnegative(stay);
    }
}

/// Why a price or a quote is refused.
#[derive(Clone, Copy, Debug, PartialEq, Eq, Structural)]
pub enum PricingError {
    NegativeAuthoritativeComponent,
    NegativeProjectedTotal,
    Overflow,
    InvalidVectorLength(usize),
    UnknownModelVersion,
    InvalidStay,
    StayTooLong(usize),
    OutsidePriceHorizon,
}

impl PricingError {
    /// The diagnostic text of this error.
    pub open spec fn spec_message(self) -> Seq<char> {
        match self {
            PricingError::NegativeAuthoritativeComponent => "NegativeAuthoritativeComponent"@,
            PricingError::NegativeProjectedTotal => "NegativeProjectedTotal"@,
            PricingError::Overflow => "Overflow"@,
            PricingError::InvalidVectorLength(length) => bracketed(
                "InvalidVectorLength"@,
                decimal(length as int),
            ),
            PricingError::UnknownModelVersion => "UnknownModelVersion"@,
            PricingError::InvalidStay => "InvalidStay"@,
            PricingError::StayTooLong(nights) => bracketed("StayTooLong"@, decimal(nights as int)),
            PricingError::OutsidePriceHorizon => "OutsidePriceHorizon"@,
        }
    }

    /// The diagnostic text of this error.
    pub fn message(&self) -> (text: String)
        ensures
            text@ == self.spec_message(),
    {
        match self {
            PricingError::NegativeAuthoritativeComponent => {
                "NegativeAuthoritativeComponent".to_owned()
            },
            PricingError::NegativeProjectedTotal => "NegativeProjectedTotal".to_owned(),
            PricingError::Overflow => "Overflow".to_owned(),
            PricingError::InvalidVectorLength(length) => {
                numbered_text("InvalidVectorLength", *length as u64)
            },
            PricingError::UnknownModelVersion => "UnknownModelVersion".to_owned(),
            PricingError::InvalidStay => "InvalidStay".to_owned(),
            PricingError::StayTooLong(nights) => numbered_text("StayTooLong", *nights as u64),
            PricingError::OutsidePriceHorizon => "OutsidePriceHorizon".to_owned(),
        }
    }
}

/// Every guest is charged for every night: one adult more adds the rate of an adult times the
/// nights, one child more that of a child, whoever else is there, and without guests nothing is
/// added.
pub proof fn law_every_guest_is_charged_every_night(
    nights: int,
    adults: int,
    children: int,
    per_adult: int,
    per_child: int,
)
    ensures
        stay_adjustment(nights, 0, 0, per_adult, per_child) == 0,
        stay_adjustment(nights, adults + 1, children, per_adult, per_child) - stay_adjustment(
            nights,
            adults,
            children,
            per_adult,
            per_child,
        ) == per_adult * nights,
        stay_adjustment(nights, adults, children + 1, per_adult, per_child) - stay_adjustment(
            nights,
            adults,
            children,
            per_adult,
            per_child,
        ) == per_child * nights,
{
    assert((per_adult * 0 + per_child * 0) * nights == 0) by (nonlinear_arith);
    assert((per_adult * (adults + 1) + per_child * children) * nights - (per_adult * adults
        + per_child * children) * nights == per_adult * nights) by (nonlinear_arith);
    assert((per_adult * adults + per_child * (children + 1)) * nights - (per_adult * adults
        + per_child * children) * nights == per_child * nights) by (nonlinear_arith);
}

/// A night costs what the vector holds for its day, and a stay one night longer costs that night
/// more.
pub proof fn law_each_night_costs_its_own_price(
    vector: PriceVectorView,
    check_in: int,
    night: int,
)
    requires
        vector.start_day <= check_in <= night < vector.start_day + vector.nightly.len(),
    ensures
        vector.base(check_in, check_in) == 0,
        vector.base(night, night + 1) == vector.nightly[night - vector.start_day],
        vector.base(check_in, night + 1) == vector.base(check_in, night) + vector.nightly[night
            - vector.start_day],
{
    let start = vector.start_day;
    let stay = vector.nightly.subrange(check_in - start, night + 1 - start);
    assert(stay.drop_last() =~= vector.nightly.subrange(check_in - start, night - start));
    let alone = vector.nightly.subrange(night - start, night + 1 - start);
    assert(alone.drop_last() =~= Seq::<int>::empty());
    assert(vector.nightly.subrange(check_in - start, check_in - start) =~= Seq::<int>::empty());
}

/// The amounts of a list of money are those of its entries, each at its place.
pub proof fn law_amounts_are_those_of_the_entries(nightly: Seq<MoneyMicros>, at: int)
    requires
        0 <= at < nightly.len(),
    ensures
        amounts(nightly).len() == nightly.len(),
        amounts(nightly)[at] == nightly[at]@,
{
}

/// A price vector is taken exactly if it covers at least one day and no more than the bound, no
/// night has a negative price, and the pricing model is known.
pub proof fn law_price_vector_is_taken_exactly_if_sound(nightly: Seq<int>, model_version: u32)
    requires
        nightly.len() <= usize::MAX,
    ensures
        vector_error(nightly, model_version) is None <==> {
            &&& 1 <= nightly.len() <= 730
            &&& model_version > 0
            &&& forall|i: int| 0 <= i < nightly.len() ==> #[trigger] nightly[i] >= 0
        },
{
}

/// A stay is quoted exactly if each of its nights lies within the vector, there are between one
/// night and the bound, what is added up on the way can be held, and the total is not negative.
pub proof fn law_quote_is_given_exactly_if_owed(
    vector: PriceVectorView,
    check_in: int,
    check_out: int,
    adults: int,
    children: int,
    per_adult: int,
    per_child: int,
)
    requires
        vector_error(vector.nightly, vector.model_version) is None,
    ensures
        ({
            let base = vector.base(check_in, check_out);
            let nights = check_out - check_in;
            let guests = per_adult * adults + per_child * children;
            let refusal = vector.quote_error(
                check_in,
                check_out,
                adults,
                children,
                per_adult,
                per_child,
            );
            let within = 1 <= nights <= 90 && vector.start_day <= check_in
                && check_out <= vector.start_day + vector.nightly.len();
            let held = i64::MIN <= base <= i64::MAX && i64::MIN <= per_adult * adults <= i64::MAX
                && i64::MIN <= per_child * children <= i64::MAX && i64::MIN <= guests <= i64::MAX
                && i64::MIN <= guests * nights <= i64::MAX && i64::MIN <= base + guests * nights
                <= i64::MAX;
            &&& refusal is None <==> within && held && base + guests * nights >= 0
            &&& refusal == Some(PricingError::NegativeProjectedTotal) <==> within && held && base
                + guests * nights < 0
            &&& within && !held ==> refusal == Some(PricingError::Overflow)
        }),
{
}

} // verus!
