use veyra::pricing::{
    MoneyMicros, OccupancyAdjustment, PriceVector, PricingError, ProjectedPrice, MAX_PRICE_DAYS,
    MAX_QUOTE_NIGHTS,
};

fn money(value: i64) -> MoneyMicros {
    MoneyMicros::try_nonnegative(value).unwrap_or_else(|_| unreachable!())
}

#[test]
fn exact_quote_uses_fixed_point_checked_math() {
    let vector = PriceVector::try_new(10, vec![money(100), money(200), money(300)], 7)
        .unwrap_or_else(|_| unreachable!());
    let quote = vector
        .quote(
            10,
            12,
            2,
            1,
            OccupancyAdjustment {
                per_adult_per_night: money(10),
                per_child_per_night: MoneyMicros::signed(-5),
            },
        )
        .unwrap_or_else(|_| unreachable!());
    assert_eq!(
        quote,
        ProjectedPrice {
            base: money(300),
            occupancy_adjustment: money(30),
            total: money(330),
            model_version: 7,
        }
    );
    assert_eq!(vector.model_version(), 7);
}

#[test]
fn price_inputs_and_horizon_fail_closed() {
    assert_eq!(
        MoneyMicros::try_nonnegative(-1),
        Err(PricingError::NegativeAuthoritativeComponent)
    );
    assert_eq!(
        PriceVector::try_new(0, Vec::new(), 1),
        Err(PricingError::InvalidVectorLength(0))
    );
    assert_eq!(
        PriceVector::try_new(0, vec![MoneyMicros::signed(-1)], 1),
        Err(PricingError::NegativeAuthoritativeComponent)
    );
    assert_eq!(
        PriceVector::try_new(0, vec![money(1)], 0),
        Err(PricingError::UnknownModelVersion)
    );
    let vector = PriceVector::try_new(10, vec![money(1); 2], 1)
        .unwrap_or_else(|_| unreachable!());
    let zero = OccupancyAdjustment {
        per_adult_per_night: money(0),
        per_child_per_night: money(0),
    };
    assert_eq!(vector.quote(10, 10, 1, 0, zero), Err(PricingError::InvalidStay));
    assert_eq!(
        vector.quote(9, 10, 1, 0, zero),
        Err(PricingError::OutsidePriceHorizon)
    );
    assert_eq!(
        vector.quote(10, 13, 1, 0, zero),
        Err(PricingError::OutsidePriceHorizon)
    );
}

#[test]
fn overflow_and_negative_total_are_rejected() {
    assert_eq!(
        MoneyMicros::signed(i64::MAX).checked_add(money(1)),
        Err(PricingError::Overflow)
    );
    assert_eq!(
        MoneyMicros::signed(i64::MAX).checked_mul(2),
        Err(PricingError::Overflow)
    );
    let vector = PriceVector::try_new(0, vec![money(1)], 1)
        .unwrap_or_else(|_| unreachable!());
    let negative = OccupancyAdjustment {
        per_adult_per_night: MoneyMicros::signed(-2),
        per_child_per_night: money(0),
    };
    assert_eq!(
        vector.quote(0, 1, 1, 0, negative),
        Err(PricingError::NegativeProjectedTotal)
    );
    assert_eq!(PricingError::Overflow.message(), "Overflow");
}

#[test]
fn vector_and_stay_boundaries_are_deterministic() {
    assert_eq!(
        PriceVector::try_new(0, vec![money(1); MAX_PRICE_DAYS + 1], 1),
        Err(PricingError::InvalidVectorLength(MAX_PRICE_DAYS + 1))
    );
    let vector = PriceVector::try_new(0, vec![money(1); MAX_PRICE_DAYS], 3)
        .unwrap_or_else(|_| unreachable!());
    let zero = OccupancyAdjustment {
        per_adult_per_night: money(0),
        per_child_per_night: money(0),
    };
    assert_eq!(
        vector.quote(
            0,
            i32::try_from(MAX_QUOTE_NIGHTS + 1).unwrap_or_default(),
            1,
            0,
            zero
        ),
        Err(PricingError::StayTooLong(MAX_QUOTE_NIGHTS + 1))
    );
    assert_eq!(
        vector.quote(-1, 1, 1, 0, zero),
        Err(PricingError::OutsidePriceHorizon)
    );
    assert_eq!(
        vector.quote(729, 731, 1, 0, zero),
        Err(PricingError::OutsidePriceHorizon)
    );
}

#[test]
fn every_pricing_error_has_stable_display() {
    for error in [
        PricingError::NegativeAuthoritativeComponent,
        PricingError::NegativeProjectedTotal,
        PricingError::Overflow,
        PricingError::InvalidVectorLength(0),
        PricingError::UnknownModelVersion,
        PricingError::InvalidStay,
        PricingError::StayTooLong(91),
        PricingError::OutsidePriceHorizon,
    ] {
        assert!(!error.message().is_empty());
    }
}

fn adjustment(adult: i64, child: i64) -> OccupancyAdjustment {
    OccupancyAdjustment {
        per_adult_per_night: MoneyMicros::signed(adult),
        per_child_per_night: MoneyMicros::signed(child),
    }
}

fn vector(prices: &[i64]) -> PriceVector {
    PriceVector::try_new(
        0,
        prices.iter().copied().map(MoneyMicros::signed).collect(),
        1,
    )
    .unwrap_or_else(|_| unreachable!())
}

#[test]
fn every_quote_arithmetic_stage_fails_closed_independently() {
    assert_eq!(
        vector(&[i64::MAX, 1]).quote(0, 2, 0, 0, adjustment(0, 0)),
        Err(PricingError::Overflow),
        "base nightly accumulation must be checked"
    );

    assert_eq!(
        vector(&[0]).quote(0, 1, 2, 0, adjustment(i64::MAX, 0)),
        Err(PricingError::Overflow),
        "adult multiplier must be checked"
    );

    assert_eq!(
        vector(&[0]).quote(0, 1, 0, 2, adjustment(0, i64::MAX)),
        Err(PricingError::Overflow),
        "child multiplier must be checked"
    );

    assert_eq!(
        vector(&[0]).quote(0, 1, 1, 1, adjustment(i64::MAX, 1)),
        Err(PricingError::Overflow),
        "adult and child adjustments must be added with checked arithmetic"
    );

    assert_eq!(
        vector(&[0, 0]).quote(0, 2, 1, 0, adjustment(i64::MAX / 2 + 1, 0)),
        Err(PricingError::Overflow),
        "per-night occupancy adjustment must be checked across the stay"
    );

    assert_eq!(
        vector(&[i64::MAX]).quote(0, 1, 1, 0, adjustment(1, 0)),
        Err(PricingError::Overflow),
        "base and occupancy totals must be added with checked arithmetic"
    );

    assert_eq!(
        vector(&[0]).quote(0, 1, 1, 0, adjustment(-1, 0)),
        Err(PricingError::NegativeProjectedTotal),
        "a mathematically valid negative projection is still invalid travel pricing"
    );
}

#[test]
fn stay_and_horizon_boundaries_reject_before_price_arithmetic() {
    let prices = vec![MoneyMicros::signed(1); 100];
    let vector = PriceVector::try_new(10, prices, 1).unwrap_or_else(|_| unreachable!());

    assert_eq!(
        vector.quote(10, 10, 1, 0, adjustment(i64::MAX, i64::MAX)),
        Err(PricingError::InvalidStay)
    );
    assert_eq!(
        vector.quote(10, 101, 1, 0, adjustment(0, 0)),
        Err(PricingError::StayTooLong(91))
    );
    assert_eq!(
        vector.quote(9, 10, 1, 0, adjustment(0, 0)),
        Err(PricingError::OutsidePriceHorizon)
    );
    assert_eq!(
        vector.quote(109, 110, 1, 0, adjustment(0, 0)),
        Ok(ProjectedPrice {
            base: MoneyMicros::signed(1),
            occupancy_adjustment: MoneyMicros::signed(0),
            total: MoneyMicros::signed(1),
            model_version: 1,
        })
    );
    assert_eq!(
        vector.quote(110, 111, 1, 0, adjustment(0, 0)),
        Err(PricingError::OutsidePriceHorizon)
    );
}

#[test]
fn pricing_diagnostics_carry_the_refused_number() {
    assert_eq!(PricingError::InvalidVectorLength(731).message(), "InvalidVectorLength(731)");
    assert_eq!(PricingError::StayTooLong(91).message(), "StayTooLong(91)");
    assert_eq!(
        PricingError::NegativeAuthoritativeComponent.message(),
        "NegativeAuthoritativeComponent"
    );
}

#[test]
fn a_split_stay_costs_the_same() {
    let vector = PriceVector::try_new(5, vec![money(10), money(20), money(40), money(80)], 2)
        .unwrap_or_else(|_| unreachable!());
    let guests = adjustment(3, -1);
    let whole = vector.quote(5, 9, 2, 1, guests).unwrap_or_else(|_| unreachable!());
    let first = vector.quote(5, 7, 2, 1, guests).unwrap_or_else(|_| unreachable!());
    let second = vector.quote(7, 9, 2, 1, guests).unwrap_or_else(|_| unreachable!());
    assert_eq!(whole.base.get(), 150);
    assert_eq!(whole.occupancy_adjustment.get(), 20);
    assert_eq!(whole.total.get(), 170);
    assert_eq!(whole.total.get(), first.total.get() + second.total.get());
}
