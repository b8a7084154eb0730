use invariant_protocol::math::consts::{MAX_SQRT_PRICE, MAX_TICK, MIN_SQRT_PRICE};
use invariant_protocol::math::log::{
    align_tick_to_spacing, get_tick_at_sqrt_price, log2_iterative_approximation_x64,
    sqrt_price_to_x64,
};
use invariant_protocol::math::types::sqrt_price::SqrtPrice;

#[test]
fn test_sqrt_price_to_u64() {
    // min sqrt_price -> sqrt(1.0001)^MIN_TICK
    {
        let min_sqrt_price_decimal = SqrtPrice::from_tick(-MAX_TICK).unwrap();

        let min_sqrt_price_x64 = sqrt_price_to_x64(min_sqrt_price_decimal);

        let expected_min_sqrt_price_x64 = 65534;
        let nearly_min_sqrt_price_decimal =
            sqrt_price_to_x64(SqrtPrice::from_tick(-MAX_TICK + 1).unwrap());
        let nearly_min_sqrt_price_decimal2 =
            sqrt_price_to_x64(SqrtPrice::from_tick(-MAX_TICK + 2).unwrap());

        assert_ne!(
            nearly_min_sqrt_price_decimal2,
            nearly_min_sqrt_price_decimal
        );
        assert_ne!(nearly_min_sqrt_price_decimal, expected_min_sqrt_price_x64);
        assert_ne!(
            sqrt_price_to_x64(SqrtPrice::from_tick(-2).unwrap()),
            sqrt_price_to_x64(SqrtPrice::from_tick(-1).unwrap())
        );

        assert_eq!(min_sqrt_price_x64, expected_min_sqrt_price_x64);
    }
    // max sqrt_price -> sqrt(1.0001)^MAX_TICK
    {
        let max_sqrt_price_decimal = SqrtPrice::from_tick(MAX_TICK).unwrap();
        let max_sqrt_price_x64 = sqrt_price_to_x64(max_sqrt_price_decimal);

        let expected_max_sqrt_price_x64 = 5192410085712699832897385122752987;
        assert_eq!(max_sqrt_price_x64, expected_max_sqrt_price_x64);
    }
}

#[test]
fn test_log2_x64() {
    // log2 of 1
    {
        let sqrt_price_decimal = SqrtPrice::from_integer(1);
        let sqrt_price_x64 = sqrt_price_to_x64(sqrt_price_decimal);
        let (sign, value) = log2_iterative_approximation_x64(sqrt_price_x64);
        assert!(sign);
        assert_eq!(value, 0);
    }
    // log2 > 0 when x > 1
    {
        let sqrt_price_decimal = SqrtPrice::from_integer(879);
        let sqrt_price_x64 = sqrt_price_to_x64(sqrt_price_decimal);

        let (sign, value) = log2_iterative_approximation_x64(sqrt_price_x64);
        assert!(sign);
        assert_eq!(value, 180403980057034096640);
    }
    // log2 < 0 when x < 1
    {
        let sqrt_price_decimal = SqrtPrice::from_scale(59, 4);
        let sqrt_price_x64 = sqrt_price_to_x64(sqrt_price_decimal);
        let (sign, value) = log2_iterative_approximation_x64(sqrt_price_x64);
        assert!(!sign);
        assert_eq!(value, 136599418782046486528);
    }
    // log2 of max sqrt_price
    {
        let max_sqrt_price = SqrtPrice::from_tick(MAX_TICK).unwrap();
        let sqrt_price_x64 = sqrt_price_to_x64(max_sqrt_price);
        let (sign, value) = log2_iterative_approximation_x64(sqrt_price_x64);
        assert!(sign);
        assert_eq!(value, 885444295875638853632);
    }
    // log2 of min sqrt_price
    {
        let min_sqrt_price = SqrtPrice::from_tick(-MAX_TICK).unwrap();
        let sqrt_price_x64 = sqrt_price_to_x64(min_sqrt_price);
        let (sign, value) = log2_iterative_approximation_x64(sqrt_price_x64);
        assert!(!sign);
        assert_eq!(value, 885444121623709614080);
    }
    // log2 of sqrt(1.0001^(-19_999)) - 1
    {
        let mut sqrt_price_decimal = SqrtPrice::from_tick(-19_999).unwrap();
        sqrt_price_decimal = SqrtPrice::new(sqrt_price_decimal.get() - 1);
        let sqrt_price_x64 = sqrt_price_to_x64(sqrt_price_decimal);
        let (sign, value) = log2_iterative_approximation_x64(sqrt_price_x64);
        assert!(!sign);
        assert_eq!(value, 26610365048300503040);
    }
    // log2 of sqrt(1.0001^(19_999)) + 1
    {
        let mut sqrt_price_decimal = SqrtPrice::from_tick(19_999).unwrap();
        sqrt_price_decimal = SqrtPrice::new(sqrt_price_decimal.get() - 1);
        let sqrt_price_x64 = sqrt_price_to_x64(sqrt_price_decimal);
        let (sign, value) = log2_iterative_approximation_x64(sqrt_price_x64);
        assert!(sign);
        assert_eq!(value, 26610365048300503040);
    }
}

#[test]
fn test_get_tick_at_sqrt_price_x64() {
    // around 0 tick
    {
        // get tick at 1
        {
            let sqrt_price_decimal = SqrtPrice::from_integer(1);
            let tick = get_tick_at_sqrt_price(sqrt_price_decimal, 1);
            assert_eq!(tick.unwrap(), 0);
        }
        // get tick slightly below 1
        {
            let sqrt_price_decimal = SqrtPrice::new(SqrtPrice::from_integer(1).get() - 1);
            let tick = get_tick_at_sqrt_price(sqrt_price_decimal, 1);
            assert_eq!(tick.unwrap(), -1);
        }
        // get tick slightly above 1
        {
            let sqrt_price_decimal = SqrtPrice::new(SqrtPrice::from_integer(1).get() + 1);
            let tick = get_tick_at_sqrt_price(sqrt_price_decimal, 1);
            assert_eq!(tick.unwrap(), 0);
        }
    }
    // around 1 tick
    {
        let sqrt_price_decimal = SqrtPrice::from_tick(1).unwrap();
        // get tick at sqrt(1.0001)
        {
            let tick = get_tick_at_sqrt_price(sqrt_price_decimal, 1);
            assert_eq!(tick.unwrap(), 1);
        }
        // get tick slightly below sqrt(1.0001)
        {
            let sqrt_price_decimal = SqrtPrice::new(sqrt_price_decimal.get() - 1);
            let tick = get_tick_at_sqrt_price(sqrt_price_decimal, 1);
            assert_eq!(tick.unwrap(), 0);
        }
        // get tick slightly above sqrt(1.0001)
        {
            let sqrt_price_decimal = SqrtPrice::new(sqrt_price_decimal.get() + 1);
            let tick = get_tick_at_sqrt_price(sqrt_price_decimal, 1);
            assert_eq!(tick.unwrap(), 1);
        }
    }
    // around -1 tick
    {
        let sqrt_price_decimal = SqrtPrice::from_tick(-1).unwrap();
        // get tick at sqrt(1.0001^(-1))
        {
            let tick = get_tick_at_sqrt_price(sqrt_price_decimal, 1);
            assert_eq!(tick.unwrap(), -1);
        }
        // get tick slightly below sqrt(1.0001^(-1))
        {
            let sqrt_price_decimal = SqrtPrice::new(SqrtPrice::from_tick(-1).unwrap().get() - 1);

            let tick = get_tick_at_sqrt_price(sqrt_price_decimal, 1);
            let tick = tick.unwrap();
            assert_eq!(tick, -2);
        }
        // get tick slightly above sqrt(1.0001^(-1))
        {
            let sqrt_price_decimal = SqrtPrice::new(SqrtPrice::from_tick(-1).unwrap().get() + 3);
            let tick = get_tick_at_sqrt_price(sqrt_price_decimal, 1);
            assert_eq!(tick.unwrap(), -1);
        }
    }
    // around max - 1 tick
    {
        let sqrt_price_decimal = SqrtPrice::from_tick(MAX_TICK).unwrap();
        let tick = get_tick_at_sqrt_price(sqrt_price_decimal, 1);
        assert_eq!(tick.unwrap(), MAX_TICK);

        let sqrt_price_decimal = SqrtPrice::from_tick(MAX_TICK - 1).unwrap();
        // get tick at sqrt(1.0001^(MAX_TICK - 1))
        {
            let tick = get_tick_at_sqrt_price(sqrt_price_decimal, 1);
            assert_eq!(tick.unwrap(), MAX_TICK - 1);
        }
        // get tick slightly below sqrt(1.0001^(MAX_TICK - 1))
        {
            let sqrt_price_decimal = SqrtPrice::new(sqrt_price_decimal.get() - 1);
            let tick = get_tick_at_sqrt_price(sqrt_price_decimal, 1);
            assert_eq!(tick.unwrap(), MAX_TICK - 2);
        }
        // get tick slightly above sqrt(1.0001^(MAX_TICK - 1))
        {
            let sqrt_price_decimal = SqrtPrice::new(sqrt_price_decimal.get() + 1);
            let tick = get_tick_at_sqrt_price(sqrt_price_decimal, 1);
            assert_eq!(tick.unwrap(), MAX_TICK - 1);
        }
    }
    // around min + 1 tick
    {
        let sqrt_price_decimal = SqrtPrice::from_tick(-(MAX_TICK - 1)).unwrap();
        // get tick at sqrt(1.0001^(-MAX_TICK + 1))
        {
            let tick = get_tick_at_sqrt_price(sqrt_price_decimal, 1);
            assert_eq!(tick.unwrap(), -(MAX_TICK - 1));
        }
        // get tick slightly below sqrt(1.0001^(-MAX_TICK + 1))
        {
            let sqrt_price_decimal = SqrtPrice::new(sqrt_price_decimal.get() - 1);
            let tick = get_tick_at_sqrt_price(sqrt_price_decimal, 1);
            assert_eq!(tick.unwrap(), -MAX_TICK);
        }
        // get tick slightly above sqrt(1.0001^(-MAX_TICK + 1))
        {
            let sqrt_price_decimal = SqrtPrice::new(sqrt_price_decimal.get() + 1);
            let tick = get_tick_at_sqrt_price(sqrt_price_decimal, 1);
            assert_eq!(tick.unwrap(), -(MAX_TICK - 1));
        }
    }
    //get tick slightly below at max tick
    {
        let max_sqrt_price = SqrtPrice::new(MAX_SQRT_PRICE);
        let sqrt_price_decimal = SqrtPrice::new(max_sqrt_price.get() - 1);
        let tick = get_tick_at_sqrt_price(sqrt_price_decimal, 1);
        assert_eq!(tick.unwrap(), MAX_TICK - 1);
    }
    // around 19_999 tick
    {
        let expected_tick = 19_999;
        let sqrt_price_decimal = SqrtPrice::from_tick(expected_tick).unwrap();
        // get tick at sqrt(1.0001^19_999)
        {
            let tick = get_tick_at_sqrt_price(sqrt_price_decimal, 1);
            assert_eq!(tick.unwrap(), expected_tick);
        }
        // get tick slightly below sqrt(1.0001^19_999)
        {
            let sqrt_price_decimal = SqrtPrice::new(sqrt_price_decimal.get() - 1);

            let tick = get_tick_at_sqrt_price(sqrt_price_decimal, 1);
            assert_eq!(tick.unwrap(), expected_tick - 1);
        }
        // get tick slightly above sqrt(1.0001^19_999)
        {
            let sqrt_price_decimal = SqrtPrice::new(sqrt_price_decimal.get() + 1);
            let tick = get_tick_at_sqrt_price(sqrt_price_decimal, 1);
            assert_eq!(tick.unwrap(), expected_tick);
        }
    }
    // around -19_999 tick
    {
        let expected_tick = -19_999;
        let sqrt_price_decimal = SqrtPrice::from_tick(expected_tick).unwrap();
        // get tick at sqrt(1.0001^(-19_999))
        {
            let tick = get_tick_at_sqrt_price(sqrt_price_decimal, 1);
            assert_eq!(tick.unwrap(), expected_tick);
        }
        // get tick slightly below sqrt(1.0001^(-19_999))
        {
            // let sqrt_price_decimal = sqrt_price_decimal - Decimal::new(150);
            let sqrt_price_decimal = SqrtPrice::new(sqrt_price_decimal.get() - 1);
            let tick = get_tick_at_sqrt_price(sqrt_price_decimal, 1);
            assert_eq!(tick.unwrap(), expected_tick - 1);
        }
        // get tick slightly above sqrt(1.0001^(-19_999))
        {
            let sqrt_price_decimal = SqrtPrice::new(sqrt_price_decimal.get() + 1);
            let tick = get_tick_at_sqrt_price(sqrt_price_decimal, 1);
            assert_eq!(tick.unwrap(), expected_tick);
        }
    }
    //get tick slightly above at min tick
    {
        let min_sqrt_price = SqrtPrice::from_tick(-MAX_TICK).unwrap();
        let sqrt_price_decimal = SqrtPrice::new(min_sqrt_price.get() + 1);
        let tick = get_tick_at_sqrt_price(sqrt_price_decimal, 1);
        assert_eq!(tick.unwrap(), -MAX_TICK);
    }
}

#[test]
fn log_test_domain_calculate_sqrt_price() {
    // Over max tick
    {
        let tick_out_of_range = MAX_TICK + 1;
        let cause = SqrtPrice::from_tick(tick_out_of_range).unwrap_err().cause();
        assert_eq!("tick over bounds", cause);
    }
    // Below min tick
    {
        let tick_out_of_range = -MAX_TICK - 1;
        let cause = SqrtPrice::from_tick(tick_out_of_range).unwrap_err().cause();
        assert_eq!("tick over bounds", cause);
    }
}

#[test]
fn test_align_tick_with_spacing() {
    // zero
    {
        let accurate_tick = 0;
        let tick_spacing = 3;

        let tick_with_spacing = align_tick_to_spacing(accurate_tick, tick_spacing);
        assert_eq!(tick_with_spacing, 0);
    }
    // positive
    {
        let accurate_tick = 14;
        let tick_spacing = 10;

        let tick_with_spacing = align_tick_to_spacing(accurate_tick, tick_spacing);
        assert_eq!(tick_with_spacing, 10);
    }
    // positive at tick
    {
        let accurate_tick = 20;
        let tick_spacing = 10;

        let tick_with_spacing = align_tick_to_spacing(accurate_tick, tick_spacing);
        assert_eq!(tick_with_spacing, 20);
    }
    // negative
    {
        let accurate_tick = -14;
        let tick_spacing = 10;

        let tick_with_spacing = align_tick_to_spacing(accurate_tick, tick_spacing);
        assert_eq!(tick_with_spacing, -20);
    }
    // negative at tick
    {
        let accurate_tick = -120;
        let tick_spacing = 3;

        let tick_with_spacing = align_tick_to_spacing(accurate_tick, tick_spacing);
        assert_eq!(tick_with_spacing, -120);
    }
}

#[test]
fn test_all_positive_ticks() {
    for n in 0..MAX_TICK {
        {
            let expected_tick = n;
            let sqrt_price_decimal = SqrtPrice::from_tick(expected_tick).unwrap();
            // get tick at sqrt(1.0001^(n))
            {
                let tick = get_tick_at_sqrt_price(sqrt_price_decimal, 1);
                assert_eq!(tick.unwrap(), expected_tick);
            }
            // get tick slightly below sqrt(1.0001^n)
            {
                let sqrt_price_decimal = SqrtPrice::new(sqrt_price_decimal.get() - 1);
                let tick = get_tick_at_sqrt_price(sqrt_price_decimal, 1);
                assert_eq!(tick.unwrap(), expected_tick - 1);
            }
            // get tick slightly above sqrt(1.0001^n)
            {
                let sqrt_price_decimal = SqrtPrice::new(sqrt_price_decimal.get() + 1);
                let tick = get_tick_at_sqrt_price(sqrt_price_decimal, 1);
                assert_eq!(tick.unwrap(), expected_tick);
            }
        }
    }
}

#[test]
fn test_all_negative_ticks() {
    for n in 0..MAX_TICK {
        {
            let expected_tick = -n;
            let sqrt_price_decimal = SqrtPrice::from_tick(expected_tick).unwrap();
            // get tick at sqrt(1.0001^(n))
            {
                let tick = get_tick_at_sqrt_price(sqrt_price_decimal, 1);
                assert_eq!(tick.unwrap(), expected_tick);
            }
            // get tick slightly below sqrt(1.0001^n)
            {
                let sqrt_price_decimal = SqrtPrice::new(sqrt_price_decimal.get() - 1);
                let tick = get_tick_at_sqrt_price(sqrt_price_decimal, 1);
                assert_eq!(tick.unwrap(), expected_tick - 1);
            }
            // get tick slightly above sqrt(1.0001^n)
            {
                let sqrt_price_decimal = SqrtPrice::new(sqrt_price_decimal.get() + 1);
                let tick = get_tick_at_sqrt_price(sqrt_price_decimal, 1);

                assert_eq!(tick.unwrap(), expected_tick);
            }
        }
    }
}

#[test]
fn test_all_positive_tick_spacing_greater_than_1() {
    let tick_spacing: i32 = 3;
    for n in 0..MAX_TICK {
        {
            let input_tick = n;
            let sqrt_price_decimal = SqrtPrice::from_tick(input_tick).unwrap();
            // get tick at sqrt(1.0001^(n))
            {
                let tick = get_tick_at_sqrt_price(sqrt_price_decimal, tick_spacing as u16);
                let expected_tick = align_tick_to_spacing(input_tick, tick_spacing);
                assert_eq!(tick.unwrap(), expected_tick);
            }
            // get tick slightly below sqrt(1.0001^n)
            {
                let sqrt_price_decimal = SqrtPrice::new(sqrt_price_decimal.get() - 1);
                let tick = get_tick_at_sqrt_price(sqrt_price_decimal, tick_spacing as u16);
                let expected_tick = align_tick_to_spacing(input_tick - 1, tick_spacing);
                assert_eq!(tick.unwrap(), expected_tick);
            }
            // get tick slightly above sqrt(1.0001^n)
            {
                let sqrt_price_decimal = SqrtPrice::new(sqrt_price_decimal.get() + 1);
                let tick = get_tick_at_sqrt_price(sqrt_price_decimal, tick_spacing as u16);
                let expected_tick = align_tick_to_spacing(input_tick, tick_spacing);
                assert_eq!(tick.unwrap(), expected_tick);
            }
        }
    }
}

#[test]
fn test_all_negative_tick_spacing_greater_than_1() {
    let tick_spacing: i32 = 4;
    for n in 0..MAX_TICK {
        {
            let input_tick = -n;
            let sqrt_price_decimal = SqrtPrice::from_tick(input_tick).unwrap();
            // get tick at sqrt(1.0001^(n))
            {
                let tick = get_tick_at_sqrt_price(sqrt_price_decimal, tick_spacing as u16);
                let expected_tick = align_tick_to_spacing(input_tick, tick_spacing);

                assert_eq!(tick.unwrap(), expected_tick);
            }
            // get tick slightly below sqrt(1.0001^n)
            {
                let sqrt_price_decimal = SqrtPrice::new(sqrt_price_decimal.get() - 1);
                let tick = get_tick_at_sqrt_price(sqrt_price_decimal, tick_spacing as u16);
                let expected_tick = align_tick_to_spacing(input_tick - 1, tick_spacing);
                assert_eq!(tick.unwrap(), expected_tick);
            }
            // get tick slightly above sqrt(1.0001^n)
            {
                let sqrt_price_decimal = SqrtPrice::new(sqrt_price_decimal.get() + 1);
                let tick = get_tick_at_sqrt_price(sqrt_price_decimal, tick_spacing as u16);
                let expected_tick = align_tick_to_spacing(input_tick, tick_spacing);
                assert_eq!(tick.unwrap(), expected_tick);
            }
        }
    }
}

#[test]
fn tick_search_succeeds_across_the_price_range() {
    for spacing in [1u16, 2, 3, 10, 64, 100] {
        for price in [MIN_SQRT_PRICE, MIN_SQRT_PRICE + 1, 1_000_000_000_000_000_000_000_000, MAX_SQRT_PRICE - 1, MAX_SQRT_PRICE] {
            assert!(get_tick_at_sqrt_price(SqrtPrice::new(price), spacing).is_ok());
        }
    }
    assert_eq!(get_tick_at_sqrt_price(SqrtPrice::new(MAX_SQRT_PRICE), 1), Ok(665_455));
    assert_eq!(get_tick_at_sqrt_price(SqrtPrice::new(MIN_SQRT_PRICE), 1), Ok(-665_455));
}
