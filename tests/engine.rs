use adx_engine::{calculate_adx, compute, AdxEngine, Candle, IndicatorError, IndicatorSample, FULL_SCALE};

fn candle(high: u64, low: u64, close: u64) -> Candle {
    Candle { high, low, close }
}

fn uptrend(n: u64) -> Vec<Candle> {
    (0..n).map(|i| candle(100 + 10 * i, 90 + 10 * i, 95 + 10 * i)).collect()
}

fn columns(candles: &[Candle]) -> (Vec<u64>, Vec<u64>, Vec<u64>) {
    (
        candles.iter().map(|c| c.high).collect(),
        candles.iter().map(|c| c.low).collect(),
        candles.iter().map(|c| c.close).collect(),
    )
}

#[test]
fn exactly_period_candles_is_insufficient() {
    for period in 1..20usize {
        let candles = uptrend(period as u64);
        assert_eq!(compute(&candles, period), Err(IndicatorError::InsufficientData));
    }
    let flat = vec![candle(5, 5, 5); 14];
    assert_eq!(compute(&flat, 14), Err(IndicatorError::InsufficientData));
}

#[test]
fn period_plus_one_candles_seeds_atr() {
    let candles = uptrend(15);
    let s = compute(&candles, 14).unwrap();
    assert_eq!(s.atr, 15);
    assert_eq!(s.adx, None);
}

#[test]
fn zero_period_is_invalid_parameter() {
    assert_eq!(compute(&uptrend(10), 0), Err(IndicatorError::InvalidParameter));
    assert_eq!(compute(&Vec::new(), 0), Err(IndicatorError::InvalidParameter));
    assert!(matches!(AdxEngine::new(0), Err(IndicatorError::InvalidParameter)));
    assert_eq!(calculate_adx(&[1, 2], &[1, 2], &[1, 2], 0), Err(IndicatorError::InvalidParameter));
}

#[test]
fn malformed_candle_is_invalid_input() {
    let mut candles = uptrend(30);
    candles[7] = candle(10, 20, 15);
    assert_eq!(compute(&candles, 14), Err(IndicatorError::InvalidInput));
    let mut above = uptrend(30);
    above[29] = candle(10, 5, 11);
    assert_eq!(compute(&above, 14), Err(IndicatorError::InvalidInput));
}

#[test]
fn mismatched_columns_are_invalid_input() {
    assert_eq!(calculate_adx(&[3, 4, 5], &[1, 2], &[2, 3, 4], 1), Err(IndicatorError::InvalidInput));
    assert_eq!(calculate_adx(&[3, 4, 5], &[1, 2, 3], &[2, 3], 1), Err(IndicatorError::InvalidInput));
}

#[test]
fn adx_needs_twice_the_period() {
    let candles = uptrend(27);
    let (h, l, c) = columns(&candles);
    assert_eq!(calculate_adx(&h, &l, &c, 14), Err(IndicatorError::InsufficientData));
    let candles = uptrend(28);
    let (h, l, c) = columns(&candles);
    assert_eq!(calculate_adx(&h, &l, &c, 14), Ok(FULL_SCALE));
}

#[test]
fn flat_series_is_all_zero() {
    let candles = vec![candle(250, 250, 250); 40];
    let s = compute(&candles, 14).unwrap();
    assert_eq!(s, IndicatorSample { atr: 0, plus_di: 0, minus_di: 0, dx: 0, adx: Some(0) });
    let (h, l, c) = columns(&candles);
    assert_eq!(calculate_adx(&h, &l, &c, 14), Ok(0));
}

#[test]
fn uptrend_plus_di_dominates_at_every_index() {
    let mut engine = AdxEngine::new(14).unwrap();
    let mut produced = 0;
    for c in uptrend(60) {
        if let Some(s) = engine.advance(c).unwrap() {
            produced += 1;
            assert!(s.plus_di > s.minus_di);
            assert_eq!(s.minus_di, 0);
            assert_eq!(s.dx, FULL_SCALE);
        }
    }
    assert_eq!(produced, 60 - 14);
}

#[test]
fn mirrored_uptrend_minus_di_dominates() {
    let up = uptrend(40);
    let m = 10_000;
    let down: Vec<Candle> = up.iter().map(|c| candle(m - c.low, m - c.high, m - c.close)).collect();
    let su = compute(&up, 14).unwrap();
    let sd = compute(&down, 14).unwrap();
    assert!(sd.minus_di > sd.plus_di);
    assert_eq!(sd.plus_di, su.minus_di);
    assert_eq!(sd.minus_di, su.plus_di);
    assert_eq!(sd.atr, su.atr);
    assert_eq!(sd.dx, su.dx);
    assert_eq!(sd.adx, su.adx);
}

#[test]
fn mirror_keeps_adx_on_mixed_series() {
    let series = vec![
        candle(10, 8, 9),
        candle(14, 9, 13),
        candle(13, 7, 8),
        candle(16, 12, 15),
        candle(15, 11, 12),
        candle(12, 9, 10),
        candle(18, 10, 17),
    ];
    let m = 100;
    let mirrored: Vec<Candle> = series.iter().map(|c| candle(m - c.low, m - c.high, m - c.close)).collect();
    let a = compute(&series, 3).unwrap();
    let b = compute(&mirrored, 3).unwrap();
    assert_eq!(a.adx, b.adx);
    assert_eq!(a.plus_di, b.minus_di);
    assert_eq!(a.minus_di, b.plus_di);
}

#[test]
fn scaling_prices_keeps_adx_when_smoothing_is_exact() {
    let candles = uptrend(40);
    let base = compute(&candles, 14).unwrap();
    for k in [2u64, 3, 7, 1000] {
        let scaled: Vec<Candle> =
            candles.iter().map(|c| candle(c.high * k, c.low * k, c.close * k)).collect();
        let s = compute(&scaled, 14).unwrap();
        assert_eq!(s.atr, base.atr * k);
        assert_eq!(s.plus_di, base.plus_di);
        assert_eq!(s.minus_di, base.minus_di);
        assert_eq!(s.dx, base.dx);
        assert_eq!(s.adx, base.adx);
    }
}

#[test]
fn scaling_prices_scales_raw_measures() {
    let a = candle(14, 9, 13);
    let b = candle(13, 7, 8);
    assert_eq!(b.true_range(&a), 6);
    assert_eq!(b.minus_dm(&a), 2);
    let a5 = candle(70, 45, 65);
    let b5 = candle(65, 35, 40);
    assert_eq!(b5.true_range(&a5), 30);
    assert_eq!(b5.minus_dm(&a5), 10);
    assert_eq!(b5.plus_dm(&a5), 0);
}

#[test]
fn scaling_small_prices_keeps_adx() {
    let small = vec![candle(10, 10, 10), candle(11, 10, 10), candle(11, 10, 10), candle(11, 10, 10)];
    let doubled: Vec<Candle> = small.iter().map(|c| candle(c.high * 2, c.low * 2, c.close * 2)).collect();
    let a = compute(&small, 2).unwrap();
    let b = compute(&doubled, 2).unwrap();
    assert_eq!(a.adx, Some(FULL_SCALE));
    assert_eq!(b.adx, a.adx);
    assert_eq!(b.plus_di, a.plus_di);
    assert_eq!(a.plus_di, 25_000_000);
}

#[test]
fn scaling_mixed_series_keeps_indicators() {
    let series = vec![
        candle(10, 8, 9),
        candle(14, 9, 13),
        candle(13, 7, 8),
        candle(16, 12, 15),
        candle(15, 11, 12),
        candle(12, 9, 10),
        candle(18, 10, 17),
        candle(17, 13, 14),
        candle(19, 15, 18),
        candle(16, 12, 13),
    ];
    let base = compute(&series, 3).unwrap();
    assert_eq!(
        base,
        IndicatorSample { atr: 5, plus_di: 22_900_506, minus_di: 22_757_167, dx: 313_943, adx: Some(35_053_097) }
    );
    for k in [2u64, 3, 7, 1000] {
        let scaled: Vec<Candle> =
            series.iter().map(|c| candle(c.high * k, c.low * k, c.close * k)).collect();
        let s = compute(&scaled, 3).unwrap();
        assert_eq!(s.plus_di, base.plus_di);
        assert_eq!(s.minus_di, base.minus_di);
        assert_eq!(s.dx, base.dx);
        assert_eq!(s.adx, base.adx);
    }
}

#[test]
fn wide_range_uptrend_keeps_plus_di_positive() {
    let candles = vec![candle(1_000_000_000, 0, 0), candle(1_000_000_001, 1, 1)];
    let s = compute(&candles, 1).unwrap();
    assert!(s.plus_di > s.minus_di);
    assert_eq!(s.minus_di, 0);
    assert_eq!(s.dx, FULL_SCALE);
    let (h, l, c) = columns(&candles);
    assert_eq!(calculate_adx(&h, &l, &c, 1), Ok(FULL_SCALE));
    let positive = vec![candle(1_000_000_000, 1, 1), candle(1_000_000_001, 2, 2)];
    let s = compute(&positive, 1).unwrap();
    assert_eq!(s.plus_di, 1);
    assert_eq!(s.minus_di, 0);
    assert_eq!(s.dx, FULL_SCALE);
}

#[test]
fn wide_range_downtrend_keeps_minus_di_positive() {
    let candles = vec![candle(1_000_000_001, 1, 1_000_000_001), candle(1_000_000_000, 0, 1_000_000_000)];
    let s = compute(&candles, 1).unwrap();
    assert!(s.minus_di > s.plus_di);
    assert_eq!(s.plus_di, 0);
    assert_eq!(s.dx, FULL_SCALE);
}

#[test]
fn linear_uptrend_scenario() {
    // Prices in tenths: high 10.0..24.0, low 9.0..23.0, close 9.5..23.5.
    let candles: Vec<Candle> = (0..15u64).map(|i| candle(100 + 10 * i, 90 + 10 * i, 95 + 10 * i)).collect();
    let s = compute(&candles, 14).unwrap();
    // Each true range is high - previous close = 1.5; +DI is 2/3 rounded up.
    assert_eq!(s.atr, 15);
    assert_eq!(s.plus_di, 66_666_667);
    assert_eq!(s.minus_di, 0);
    assert_eq!(s.dx, FULL_SCALE);
    assert_eq!(s.adx, None);
    let longer: Vec<Candle> = (0..28u64).map(|i| candle(100 + 10 * i, 90 + 10 * i, 95 + 10 * i)).collect();
    assert_eq!(compute(&longer, 14).unwrap().adx, Some(FULL_SCALE));
}

#[test]
fn runs_are_identical() {
    let series = vec![
        candle(10, 8, 9),
        candle(14, 9, 13),
        candle(13, 7, 8),
        candle(16, 12, 15),
        candle(15, 11, 12),
        candle(12, 9, 10),
    ];
    assert_eq!(compute(&series, 2), compute(&series, 2));
    let (h, l, c) = columns(&series);
    assert_eq!(calculate_adx(&h, &l, &c, 2), calculate_adx(&h, &l, &c, 2));
}

#[test]
fn hand_computed_wilder_values() {
    let series = vec![candle(10, 8, 9), candle(14, 9, 13), candle(13, 7, 8), candle(16, 12, 15)];
    let seed = compute(&series[..3].to_vec(), 2).unwrap();
    assert_eq!(
        seed,
        IndicatorSample { atr: 5, plus_di: 36_363_637, minus_di: 18_181_819, dx: 33_333_333, adx: None }
    );
    let next = compute(&series, 2).unwrap();
    assert_eq!(
        next,
        IndicatorSample { atr: 6, plus_di: 37_037_038, minus_di: 7_407_408, dx: 66_666_666, adx: Some(49_999_999) }
    );
    let (h, l, c) = columns(&series);
    assert_eq!(calculate_adx(&h, &l, &c, 2), Ok(49_999_999));
}

#[test]
fn period_one_follows_each_step() {
    let series = vec![candle(10, 8, 9), candle(14, 9, 13), candle(13, 7, 8)];
    let s = compute(&series, 1).unwrap();
    assert_eq!(s, IndicatorSample { atr: 6, plus_di: 0, minus_di: 33_333_334, dx: 100_000_000, adx: Some(100_000_000) });
}

#[test]
fn streaming_matches_batch() {
    let series = vec![
        candle(10, 8, 9),
        candle(14, 9, 13),
        candle(13, 7, 8),
        candle(16, 12, 15),
        candle(15, 11, 12),
        candle(12, 9, 10),
        candle(18, 10, 17),
    ];
    let mut engine = AdxEngine::new(2).unwrap();
    for (i, c) in series.iter().enumerate() {
        let out = engine.advance(*c).unwrap();
        if i + 1 > 2 {
            assert_eq!(out, Some(compute(&series[..i + 1].to_vec(), 2).unwrap()));
        } else {
            assert_eq!(out, None);
        }
    }
}

#[test]
fn streaming_refuses_malformed_candle_and_continues() {
    let mut engine = AdxEngine::new(2).unwrap();
    assert_eq!(engine.advance(candle(10, 8, 9)), Ok(None));
    assert_eq!(engine.advance(candle(5, 8, 9)), Err(IndicatorError::InvalidInput));
    assert_eq!(engine.advance(candle(14, 9, 13)), Ok(None));
    let s = engine.advance(candle(13, 7, 8)).unwrap().unwrap();
    assert_eq!(s.atr, 5);
}

#[test]
fn true_range_uses_gaps_from_previous_close() {
    let prev = candle(10, 8, 9);
    assert_eq!(candle(20, 18, 19).true_range(&prev), 11);
    assert_eq!(candle(4, 2, 3).true_range(&prev), 7);
    assert_eq!(candle(10, 8, 9).true_range(&prev), 2);
}

#[test]
fn directional_movement_tie_break_is_strict() {
    let prev = candle(10, 8, 9);
    // Outside bar with equal moves both ways: neither direction counts.
    let outside = candle(12, 6, 9);
    assert_eq!(outside.plus_dm(&prev), 0);
    assert_eq!(outside.minus_dm(&prev), 0);
    // Inside bar: both moves negative.
    let inside = candle(9, 9, 9);
    assert_eq!(inside.plus_dm(&prev), 0);
    assert_eq!(inside.minus_dm(&prev), 0);
    assert_eq!(candle(13, 7, 9).plus_dm(&prev), 3);
    assert_eq!(candle(11, 5, 9).minus_dm(&prev), 3);
}
