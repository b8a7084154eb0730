use invariant_protocol::math::consts::{MAX_SQRT_PRICE, MAX_TICK, MIN_SQRT_PRICE, MIN_TICK};
use invariant_protocol::math::types::sqrt_price::{
    calculate_sqrt_price, get_max_sqrt_price, get_max_tick, get_min_sqrt_price, get_min_tick,
    SqrtPrice,
};

#[test]
fn test_calculate_sqrt_price() {
    {
        let sqrt_price = SqrtPrice::from_tick(0).unwrap();
        assert_eq!(sqrt_price, SqrtPrice::from_integer(1));
    }
    {
        let sqrt_price = SqrtPrice::from_tick(20_000).unwrap();
        assert_eq!(sqrt_price, SqrtPrice::new(2718145926825224864037656));
    }
    {
        let sqrt_price = SqrtPrice::from_tick(200_000).unwrap();
        assert_eq!(sqrt_price, SqrtPrice::new(22015456048552198645701365772));
    }
    {
        let sqrt_price = SqrtPrice::from_tick(-20_000).unwrap();
        assert_eq!(sqrt_price, SqrtPrice::new(367897834377123709894002));
    }
    {
        let sqrt_price = SqrtPrice::from_tick(-200_000).unwrap();
        assert_eq!(sqrt_price, SqrtPrice::new(45422633889328990341))
    }
    {
        let sqrt_price = SqrtPrice::from_tick(MAX_TICK).unwrap();
        assert_eq!(
            sqrt_price,
            SqrtPrice::new(281481114768267672330495791029795421271)
        );
        assert_eq!(sqrt_price, SqrtPrice::new(MAX_SQRT_PRICE));
    }
    {
        let sqrt_price = SqrtPrice::from_tick(MIN_TICK).unwrap();
        assert_eq!(sqrt_price, SqrtPrice::new(3552636207));
        assert_eq!(sqrt_price, SqrtPrice::new(MIN_SQRT_PRICE));
    }
}

#[test]
fn sqrt_price_test_domain_calculate_sqrt_price() {
    // over max tick
    {
        let tick_out_of_range = MAX_TICK + 1;
        let cause = SqrtPrice::from_tick(tick_out_of_range).unwrap_err().cause();
        assert_eq!("tick over bounds", cause);
    }
    // below min tick
    {
        let tick_out_of_range = -MAX_TICK - 1;
        let cause = SqrtPrice::from_tick(tick_out_of_range).unwrap_err().cause();
        assert_eq!("tick over bounds", cause);
    }
}

#[test]
fn test_sqrt_price_limitation() {
    {
        let global_max_sqrt_price = SqrtPrice::from_tick(MAX_TICK).unwrap();
        assert_eq!(global_max_sqrt_price, SqrtPrice::new(MAX_SQRT_PRICE));
        let global_min_sqrt_price = SqrtPrice::from_tick(-MAX_TICK).unwrap();
        assert_eq!(global_min_sqrt_price, SqrtPrice::new(MIN_SQRT_PRICE));
    }
    {
        let max_sqrt_price = get_max_sqrt_price(1);
        let max_tick: i32 = get_max_tick(1);
        assert_eq!(max_sqrt_price, SqrtPrice::new(MAX_SQRT_PRICE));
        assert_eq!(
            SqrtPrice::from_tick(max_tick).unwrap(),
            SqrtPrice::new(MAX_SQRT_PRICE)
        );

        let max_sqrt_price = get_max_sqrt_price(2);
        let max_tick: i32 = get_max_tick(2);
        assert_eq!(
            max_sqrt_price,
            SqrtPrice::new(281467041767995484175575572190311022481)
        );
        assert_eq!(
            SqrtPrice::from_tick(max_tick).unwrap(),
            SqrtPrice::new(281467041767995484175575572190311022481)
        );

        let max_sqrt_price = get_max_sqrt_price(5);
        let max_tick: i32 = get_max_tick(5);
        assert_eq!(max_sqrt_price, SqrtPrice::new(MAX_SQRT_PRICE));
        assert_eq!(
            SqrtPrice::from_tick(max_tick).unwrap(),
            SqrtPrice::new(MAX_SQRT_PRICE)
        );

        let max_sqrt_price = get_max_sqrt_price(10);
        let max_tick: i32 = get_max_tick(10);
        assert_eq!(max_tick, 665450);
        assert_eq!(
            max_sqrt_price,
            SqrtPrice::new(281410756802527410668167604461672779949)
        );
        assert_eq!(
            SqrtPrice::from_tick(max_tick).unwrap(),
            SqrtPrice::new(281410756802527410668167604461672779949)
        );

        let max_sqrt_price = get_max_sqrt_price(100);
        let max_tick: i32 = get_max_tick(100);
        assert_eq!(max_tick, 665400);

        assert_eq!(
            max_sqrt_price,
            SqrtPrice::new(280708143672930091210419229357187153384)
        );
        assert_eq!(
            SqrtPrice::from_tick(max_tick).unwrap(),
            SqrtPrice::new(280708143672930091210419229357187153384)
        );
    }
    {
        let min_sqrt_price = get_min_sqrt_price(1);
        let min_tick: i32 = get_min_tick(1);
        assert_eq!(min_sqrt_price, SqrtPrice::new(MIN_SQRT_PRICE));
        assert_eq!(
            SqrtPrice::from_tick(min_tick).unwrap(),
            SqrtPrice::new(MIN_SQRT_PRICE)
        );

        let min_sqrt_price = get_min_sqrt_price(2);
        let min_tick: i32 = get_min_tick(2);
        assert_eq!(min_sqrt_price, SqrtPrice::new(3552813834));
        assert_eq!(
            SqrtPrice::from_tick(min_tick).unwrap(),
            SqrtPrice::new(3552813834)
        );

        let min_sqrt_price = get_min_sqrt_price(5);
        let min_tick: i32 = get_min_tick(5);
        assert_eq!(min_sqrt_price, SqrtPrice::new(MIN_SQRT_PRICE));
        assert_eq!(
            SqrtPrice::from_tick(min_tick).unwrap(),
            SqrtPrice::new(MIN_SQRT_PRICE)
        );

        let min_sqrt_price = get_min_sqrt_price(10);
        let min_tick: i32 = get_min_tick(10);
        assert_eq!(min_tick, -665450);
        assert_eq!(min_sqrt_price, SqrtPrice::new(3553524432));
        assert_eq!(
            SqrtPrice::from_tick(min_tick).unwrap(),
            SqrtPrice::new(3553524432)
        );

        let min_sqrt_price = get_min_sqrt_price(100);
        let min_tick: i32 = get_min_tick(100);
        assert_eq!(min_tick, -665400);
        assert_eq!(min_sqrt_price, SqrtPrice::new(3562418912));
        assert_eq!(
            SqrtPrice::from_tick(min_tick).unwrap(),
            SqrtPrice::new(3562418912)
        );
    }
}

#[test]
fn calculate_sqrt_price_matches_from_tick() {
    assert_eq!(calculate_sqrt_price(1).unwrap(), SqrtPrice::from_tick(1).unwrap());
}

#[test]
fn sqrt_price_increases_with_tick() {
    let ticks = [-665_455, -665_454, -300_001, -300_000, -2, -1, 0, 1, 2, 99_999, 100_000, 665_454, 665_455];
    for pair in ticks.windows(2) {
        let lower = calculate_sqrt_price(pair[0]).unwrap();
        let upper = calculate_sqrt_price(pair[1]).unwrap();
        assert!(lower.get() < upper.get());
    }
}
