use vstd::prelude::*;
use crate::bounds::{price_max, lemma_smoothed_bounds, lemma_percent_bound};
use crate::candle::{Candle, abs_diff, true_range, plus_dm, minus_dm};
use crate::engine::{IndicatorSample, IndicatorError, indicator_result};
use crate::model::{Series, FULL_SCALE, SMOOTHING_SCALE, all_well_formed, raw, raw_sum, wilder, smoothed, percent, atr,
    plus_di, minus_di, dx, dx_sum, adx};

verus! {

/// Every candle of `h` is the same candle, with high, low and close equal.
pub open spec fn constant_flat(h: Seq<Candle>) -> bool {
    forall|i: int|
        0 <= i < h.len() ==> (#[trigger] h[i]).high == h[i].low && h[i].low == h[i].close && (i > 0 ==> h[i]
            == h[i - 1])
}

/// Every step of `h` has a strictly higher high and a strictly higher low.
pub open spec fn strictly_rising(h: Seq<Candle>) -> bool {
    forall|i: int| 1 <= i < h.len() ==> (#[trigger] h[i]).high > h[i - 1].high && h[i].low > h[i - 1].low
}

/// `h` reflected around the price `m`: highs and lows trade places.
pub open spec fn mirror(h: Seq<Candle>, m: int) -> Seq<Candle> {
    h.map_values(|c: Candle| c.mirrored(m))
}

/// Every price of `h` is at most `m`.
pub open spec fn prices_at_most(h: Seq<Candle>, m: int) -> bool {
    forall|i: int| 0 <= i < h.len() ==> (#[trigger] h[i]).high <= m && h[i].low <= m && h[i].close <= m
}

/// `h` with every price multiplied by `k`.
pub open spec fn scale(h: Seq<Candle>, k: int) -> Seq<Candle> {
    h.map_values(|c: Candle| c.scaled(k))
}

proof fn lemma_flat_zero(h: Seq<Candle>, p: nat)
    requires
        constant_flat(h),
    ensures
        raw_sum(Series::Range, h) == 0,
        raw_sum(Series::Up, h) == 0,
        raw_sum(Series::Down, h) == 0,
        smoothed(Series::Range, h, p) == 0,
        smoothed(Series::Up, h, p) == 0,
        smoothed(Series::Down, h, p) == 0,
        dx_sum(h, p) == 0,
        adx(h, p) == 0,
    decreases h.len(),
{
    if h.len() >= 1 {
        let t = h.drop_last();
        assert(constant_flat(t)) by {
            assert forall|i: int| 0 <= i < t.len() implies (#[trigger] t[i]).high == t[i].low && t[i].low
                == t[i].close && (i > 0 ==> t[i] == t[i - 1]) by {
                assert(t[i] == h[i]);
                if i > 0 {
                    assert(t[i - 1] == h[i - 1]);
                }
            }
        }
        lemma_flat_zero(t, p);
        let n = h.len() as int;
        assert(h[n - 1].high == h[n - 1].low && h[n - 1].low == h[n - 1].close);
        if n >= 2 {
            assert(h[n - 1] == h[n - 2]);
        }
        if p > 0 {
            assert(wilder(0, 0, p) == 0);
            assert((0int / (p as int)) == 0);
        }
        assert(plus_di(h, p) == 0);
        assert(minus_di(h, p) == 0);
        assert(dx(h, p) == 0);
    }
}

/// A series whose candles are all the same flat candle has zero ATR, +DI,
/// -DI, DX and ADX, at every candle.
pub proof fn lemma_flat_series_is_zero(h: Seq<Candle>, p: nat)
    requires
        constant_flat(h),
    ensures
        atr(h, p) == 0,
        plus_di(h, p) == 0,
        minus_di(h, p) == 0,
        dx(h, p) == 0,
        adx(h, p) == 0,
{
    lemma_flat_zero(h, p);
}

proof fn lemma_rising_raw(h: Seq<Candle>, p: nat)
    requires
        strictly_rising(h),
    ensures
        raw_sum(Series::Down, h) == 0,
        h.len() >= 1 ==> raw_sum(Series::Up, h) >= h.len() - 1,
        smoothed(Series::Down, h, p) == 0,
        p > 0 && h.len() > p ==> smoothed(Series::Up, h, p) >= 1,
    decreases h.len(),
{
    if h.len() >= 2 {
        let t = h.drop_last();
        assert(strictly_rising(t)) by {
            assert forall|i: int| 1 <= i < t.len() implies (#[trigger] t[i]).high > t[i - 1].high
                && t[i].low > t[i - 1].low by {
                assert(t[i] == h[i]);
                assert(t[i - 1] == h[i - 1]);
            }
        }
        lemma_rising_raw(t, p);
        assert(h[h.len() - 1].high > h[h.len() - 2].high);
        if p > 0 && h.len() > p {
            let pi = p as int;
            let f = SMOOTHING_SCALE as int;
            if h.len() == p + 1 {
                let u = raw_sum(Series::Up, h);
                assert(raw(Series::Up, h) >= 1);
                assert(u >= pi);
                assert(pi <= f * u) by (nonlinear_arith)
                    requires u >= pi, pi >= 1, f >= 1;
                vstd::arithmetic::div_mod::lemma_div_is_ordered(pi, f * u, pi);
                vstd::arithmetic::div_mod::lemma_div_by_self(pi);
            } else {
                let prev = smoothed(Series::Up, t, p);
                let x = f * raw(Series::Up, h);
                assert(x >= 1) by (nonlinear_arith)
                    requires x == f * raw(Series::Up, h), raw(Series::Up, h) >= 1, f >= 1;
                assert(pi <= prev * (pi - 1) + x) by (nonlinear_arith)
                    requires prev >= 1, x >= 1, pi >= 1;
                vstd::arithmetic::div_mod::lemma_div_is_ordered(pi, prev * (pi - 1) + x, pi);
                vstd::arithmetic::div_mod::lemma_div_by_self(pi);
            }
            assert(wilder(0, 0, p) == 0);
        }
    }
}

/// In a strict uptrend, at every candle past the seed: smoothed -DM is zero,
/// so -DI is zero; smoothed +DM is positive, so +DI is above -DI; and DX is
/// 100%. Every prefix of a rising series is rising, so this holds at each
/// candle of it.
pub proof fn lemma_uptrend_direction(h: Seq<Candle>, p: nat)
    requires
        all_well_formed(h),
        strictly_rising(h),
        p > 0,
        h.len() > p,
    ensures
        smoothed(Series::Down, h, p) == 0,
        minus_di(h, p) == 0,
        smoothed(Series::Up, h, p) >= 1,
        plus_di(h, p) > minus_di(h, p),
        dx(h, p) == FULL_SCALE,
{
    lemma_rising_raw(h, p);
    lemma_smoothed_bounds(h, p);
    let u = smoothed(Series::Up, h, p);
    let a = atr(h, p);
    let f = FULL_SCALE as int;
    assert(a >= 1);
    assert(a <= f * u + a - 1) by (nonlinear_arith)
        requires u >= 1, f >= 1;
    vstd::arithmetic::div_mod::lemma_div_is_ordered(a, f * u + a - 1, a);
    vstd::arithmetic::div_mod::lemma_div_by_self(a);
    assert(f * 0 + a - 1 == a - 1);
    vstd::arithmetic::div_mod::lemma_basic_div(a - 1, a);
    let d = plus_di(h, p);
    assert(abs_diff(d, 0) == d);
    vstd::arithmetic::div_mod::lemma_fundamental_div_mod_converse(f * d + d - 1, d, f, d - 1);
}

proof fn lemma_mirror_raw(h: Seq<Candle>, m: int)
    requires
        prices_at_most(h, m),
        m <= price_max(),
    ensures
        raw_sum(Series::Range, mirror(h, m)) == raw_sum(Series::Range, h),
        raw_sum(Series::Up, mirror(h, m)) == raw_sum(Series::Down, h),
        raw_sum(Series::Down, mirror(h, m)) == raw_sum(Series::Up, h),
        h.len() >= 2 ==> raw(Series::Range, mirror(h, m)) == raw(Series::Range, h),
        h.len() >= 2 ==> raw(Series::Up, mirror(h, m)) == raw(Series::Down, h),
        h.len() >= 2 ==> raw(Series::Down, mirror(h, m)) == raw(Series::Up, h),
    decreases h.len(),
{
    if h.len() >= 2 {
        let t = h.drop_last();
        assert(mirror(h, m).drop_last() =~= mirror(t, m));
        assert(prices_at_most(t, m)) by {
            assert forall|i: int| 0 <= i < t.len() implies (#[trigger] t[i]).high <= m && t[i].low <= m
                && t[i].close <= m by {
                assert(t[i] == h[i]);
            }
        }
        lemma_mirror_raw(t, m);
        let n = h.len() as int;
        assert(h[n - 1].high <= m && h[n - 1].low <= m && h[n - 1].close <= m);
        assert(h[n - 2].high <= m && h[n - 2].low <= m && h[n - 2].close <= m);
    }
}

proof fn lemma_mirror_smoothed(h: Seq<Candle>, m: int, p: nat)
    requires
        prices_at_most(h, m),
        m <= price_max(),
    ensures
        smoothed(Series::Range, mirror(h, m), p) == smoothed(Series::Range, h, p),
        smoothed(Series::Up, mirror(h, m), p) == smoothed(Series::Down, h, p),
        smoothed(Series::Down, mirror(h, m), p) == smoothed(Series::Up, h, p),
        plus_di(mirror(h, m), p) == minus_di(h, p),
        minus_di(mirror(h, m), p) == plus_di(h, p),
        dx(mirror(h, m), p) == dx(h, p),
        dx_sum(mirror(h, m), p) == dx_sum(h, p),
        adx(mirror(h, m), p) == adx(h, p),
    decreases h.len(),
{
    lemma_mirror_raw(h, m);
    if h.len() >= 1 {
        let t = h.drop_last();
        assert(mirror(h, m).drop_last() =~= mirror(t, m));
        assert(prices_at_most(t, m)) by {
            assert forall|i: int| 0 <= i < t.len() implies (#[trigger] t[i]).high <= m && t[i].low <= m
                && t[i].close <= m by {
                assert(t[i] == h[i]);
            }
        }
        lemma_mirror_smoothed(t, m, p);
    }
    let a = plus_di(h, p);
    let b = minus_di(h, p);
    assert(abs_diff(b, a) == abs_diff(a, b));
    assert(b + a == a + b);
}

/// Reflecting every price around a level `m` at or above all of them turns
/// highs into lows: +DM and -DM trade places while the true range is kept, so
/// +DI and -DI trade places and ATR, DX and ADX are unchanged, at every candle.
/// With the uptrend law, a mirrored uptrend has -DI above +DI.
pub proof fn lemma_mirror_swaps_direction(h: Seq<Candle>, m: int, p: nat)
    requires
        prices_at_most(h, m),
        m <= price_max(),
    ensures
        atr(mirror(h, m), p) == atr(h, p),
        plus_di(mirror(h, m), p) == minus_di(h, p),
        minus_di(mirror(h, m), p) == plus_di(h, p),
        dx(mirror(h, m), p) == dx(h, p),
        adx(mirror(h, m), p) == adx(h, p),
{
    lemma_mirror_smoothed(h, m, p);
}

proof fn lemma_scale_abs_diff(x: int, y: int, k: int)
    requires
        k > 0,
    ensures
        abs_diff(k * x, k * y) == k * abs_diff(x, y),
{
    if x >= y {
        assert(k * x >= k * y && k * x - k * y == k * (x - y)) by (nonlinear_arith)
            requires k > 0, x >= y;
    } else {
        assert(k * x < k * y && k * y - k * x == k * (y - x)) by (nonlinear_arith)
            requires k > 0, x < y;
    }
}

proof fn lemma_scale_step(a: Candle, b: Candle, k: int)
    requires
        k > 0,
        k * a.high <= price_max(),
        k * a.low <= price_max(),
        k * a.close <= price_max(),
        k * b.high <= price_max(),
        k * b.low <= price_max(),
        k * b.close <= price_max(),
    ensures
        true_range(a.scaled(k), b.scaled(k)) == k * true_range(a, b),
        plus_dm(a.scaled(k), b.scaled(k)) == k * plus_dm(a, b),
        minus_dm(a.scaled(k), b.scaled(k)) == k * minus_dm(a, b),
{
    let (ah, al, ac, bh, bl) = (a.high as int, a.low as int, a.close as int, b.high as int, b.low as int);
    assert(0 <= k * ah && 0 <= k * al && 0 <= k * ac && 0 <= k * bh && 0 <= k * bl
        && 0 <= k * (b.close as int)) by (nonlinear_arith)
        requires k > 0, ah >= 0, al >= 0, ac >= 0, bh >= 0, bl >= 0, b.close >= 0;
    lemma_scale_abs_diff(bh, ac, k);
    lemma_scale_abs_diff(bl, ac, k);
    let spread = bh - bl;
    let hi = abs_diff(bh, ac);
    let lo = abs_diff(bl, ac);
    let up = bh - ah;
    let down = al - bl;
    assert(k * bh - k * bl == k * spread && k * bh - k * ah == k * up && k * al - k * bl == k * down)
        by (nonlinear_arith)
        requires spread == bh - bl, up == bh - ah, down == al - bl;
    assert(forall|u: int, v: int| u >= v <==> #[trigger] (k * u) >= #[trigger] (k * v)) by (nonlinear_arith)
        requires k > 0;
    assert(forall|u: int, v: int| u > v <==> #[trigger] (k * u) > #[trigger] (k * v)) by (nonlinear_arith)
        requires k > 0;
    assert(k * 0 == 0);
}

/// Multiplying every price by `k > 0` multiplies every true range and
/// directional movement, and so their sums, by `k`.
pub proof fn lemma_scaling_raw(h: Seq<Candle>, k: int)
    requires
        k > 0,
        prices_at_most(h, price_max() / k),
    ensures
        raw_sum(Series::Range, scale(h, k)) == k * raw_sum(Series::Range, h),
        raw_sum(Series::Up, scale(h, k)) == k * raw_sum(Series::Up, h),
        raw_sum(Series::Down, scale(h, k)) == k * raw_sum(Series::Down, h),
        h.len() >= 2 ==> raw(Series::Range, scale(h, k)) == k * raw(Series::Range, h),
        h.len() >= 2 ==> raw(Series::Up, scale(h, k)) == k * raw(Series::Up, h),
        h.len() >= 2 ==> raw(Series::Down, scale(h, k)) == k * raw(Series::Down, h),
    decreases h.len(),
{
    if h.len() >= 2 {
        let t = h.drop_last();
        let m = price_max() / k;
        assert(scale(h, k).drop_last() =~= scale(t, k));
        assert(prices_at_most(t, m)) by {
            assert forall|i: int| 0 <= i < t.len() implies (#[trigger] t[i]).high <= m && t[i].low <= m
                && t[i].close <= m by {
                assert(t[i] == h[i]);
            }
        }
        lemma_scaling_raw(t, k);
        let n = h.len() as int;
        let a = h[n - 2];
        let b = h[n - 1];
        assert(a.high <= m && a.low <= m && a.close <= m);
        assert(b.high <= m && b.low <= m && b.close <= m);
        assert(forall|x: int| x <= m ==> #[trigger] (k * x) <= price_max()) by (nonlinear_arith)
            requires k > 0, m == price_max() / k;
        lemma_scale_step(a, b, k);
        assert(scale(h, k)[n - 2] == a.scaled(k));
        assert(scale(h, k)[n - 1] == b.scaled(k));
        let (rs, rr) = (raw_sum(Series::Range, t), raw(Series::Range, h));
        let (us, ur) = (raw_sum(Series::Up, t), raw(Series::Up, h));
        let (ds, dr) = (raw_sum(Series::Down, t), raw(Series::Down, h));
        assert(k * rs + k * rr == k * (rs + rr) && k * us + k * ur == k * (us + ur) && k * ds + k * dr == k * (ds
            + dr)) by (nonlinear_arith);
    }
}

/// Rounding `k * a + e` down over `p`, with `e` below `(p - 1)^2 * k`, loses
/// at most `(p - 1) * k` against `k` times the rounded `a / p`.
proof fn lemma_scaled_floor(a: int, e: int, k: int, p: nat)
    requires
        a >= 0,
        k > 0,
        p > 0,
        0 <= e <= (p - 1) * (p - 1) * k,
    ensures
        k * (a / (p as int)) <= (k * a + e) / (p as int) <= k * (a / (p as int)) + (p - 1) * k,
{
    let pi = p as int;
    let q = a / pi;
    let r = a % pi;
    vstd::arithmetic::div_mod::lemma_fundamental_div_mod(a, pi);
    assert(k * a + e == (k * r + e) + (k * q) * pi && 0 <= k * r + e <= ((pi - 1) * k) * pi) by (nonlinear_arith)
        requires a == pi * q + r, 0 <= r < pi, k > 0, 0 <= e <= (pi - 1) * (pi - 1) * k;
    vstd::arithmetic::div_mod::lemma_hoist_over_denominator(k * r + e, k * q, p);
    vstd::arithmetic::div_mod::lemma_div_is_ordered(k * r + e, ((pi - 1) * k) * pi, pi);
    vstd::arithmetic::div_mod::lemma_div_is_ordered(0, k * r + e, pi);
    vstd::arithmetic::div_mod::lemma_div_multiples_vanish((pi - 1) * k, pi);
    assert(((pi - 1) * k) * pi == pi * ((pi - 1) * k)) by (nonlinear_arith);
}

proof fn lemma_scaling_series(s: Series, h: Seq<Candle>, k: int, p: nat)
    requires
        k > 0,
        p > 0,
        prices_at_most(h, price_max() / k),
    ensures
        k * smoothed(s, h, p) <= smoothed(s, scale(h, k), p) <= k * smoothed(s, h, p) + (p - 1) * k,
    decreases h.len(),
{
    let f = SMOOTHING_SCALE as int;
    let pi = p as int;
    let sh = scale(h, k);
    lemma_scaling_raw(h, k);
    assert(raw_sum(s, sh) == k * raw_sum(s, h)) by {
        match s {
            Series::Range => {},
            Series::Up => {},
            Series::Down => {},
        }
    }
    assert(h.len() >= 2 ==> raw(s, sh) == k * raw(s, h)) by {
        match s {
            Series::Range => {},
            Series::Up => {},
            Series::Down => {},
        }
    }
    assert((p - 1) * k >= 0) by (nonlinear_arith)
        requires p >= 1, k > 0;
    if h.len() <= p {
    } else if h.len() == p + 1 {
        let r = raw_sum(s, h);
        lemma_raw_sum_nonneg(s, h);
        assert(f * (k * r) == k * (f * r) + 0) by (nonlinear_arith);
        assert(f * r >= 0) by (nonlinear_arith)
            requires r >= 0, f > 0;
        assert(0 <= (p - 1) * (p - 1) * k) by (nonlinear_arith)
            requires p >= 1, k > 0;
        lemma_scaled_floor(f * r, 0, k, p);
    } else {
        let t = h.drop_last();
        let m = price_max() / k;
        assert(sh.drop_last() =~= scale(t, k));
        assert(prices_at_most(t, m)) by {
            assert forall|i: int| 0 <= i < t.len() implies (#[trigger] t[i]).high <= m && t[i].low <= m
                && t[i].close <= m by {
                assert(t[i] == h[i]);
            }
        }
        lemma_scaling_series(s, t, k, p);
        lemma_raw_sum_nonneg(s, h);
        let a = smoothed(s, t, p);
        let a2 = smoothed(s, scale(t, k), p);
        let x = raw(s, h);
        lemma_smoothed_nonneg(s, t, p);
        let d = a2 - k * a;
        assert(a2 * (pi - 1) + f * (k * x) == k * (a * (pi - 1) + f * x) + d * (pi - 1)) by (nonlinear_arith)
            requires d == a2 - k * a;
        assert(0 <= d * (pi - 1) <= (pi - 1) * (pi - 1) * k) by (nonlinear_arith)
            requires 0 <= d <= (pi - 1) * k, pi >= 1;
        assert(a * (pi - 1) + f * x >= 0) by (nonlinear_arith)
            requires pi >= 1, a >= 0, x >= 0, f > 0;
        lemma_scaled_floor(a * (pi - 1) + f * x, d * (pi - 1), k, p);
    }
}

proof fn lemma_raw_sum_nonneg(s: Series, h: Seq<Candle>)
    ensures
        raw_sum(s, h) >= 0,
        h.len() >= 2 ==> raw(s, h) >= 0,
    decreases h.len(),
{
    if h.len() >= 2 {
        lemma_raw_sum_nonneg(s, h.drop_last());
    }
}

proof fn lemma_smoothed_nonneg(s: Series, h: Seq<Candle>, p: nat)
    ensures
        smoothed(s, h, p) >= 0,
    decreases h.len(),
{
    lemma_raw_sum_nonneg(s, h);
    if p > 0 && h.len() > p + 1 {
        lemma_smoothed_nonneg(s, h.drop_last(), p);
        let pi = p as int;
        let a = smoothed(s, h.drop_last(), p);
        let x = (SMOOTHING_SCALE as int) * raw(s, h);
        assert(a * (pi - 1) + x >= 0) by (nonlinear_arith)
            requires a >= 0, x >= 0, pi >= 1;
        vstd::arithmetic::div_mod::lemma_div_is_ordered(0, a * (pi - 1) + x, pi);
    } else if p > 0 && h.len() == p + 1 {
        let r = raw_sum(s, h);
        assert((SMOOTHING_SCALE as int) * r >= 0) by (nonlinear_arith)
            requires r >= 0;
        vstd::arithmetic::div_mod::lemma_div_is_ordered(0, (SMOOTHING_SCALE as int) * r, p as int);
    }
}

/// Multiplying every price by `k > 0` multiplies ATR and the smoothed +DM and
/// -DM by `k`, up to the rounding of the smoothing: on the scaled prices each
/// is at least `k` times its value on the original prices and exceeds that by
/// at most `(p - 1) * k` units of `1 / SMOOTHING_SCALE` of a price unit,
/// that is by at most `(p - 1) / SMOOTHING_SCALE` of an original price unit.
/// With `p == 1` they scale exactly.
pub proof fn lemma_scaling_smoothed(h: Seq<Candle>, k: int, p: nat)
    requires
        k > 0,
        p > 0,
        prices_at_most(h, price_max() / k),
    ensures
        k * atr(h, p) <= atr(scale(h, k), p) <= k * atr(h, p) + (p - 1) * k,
        k * smoothed(Series::Up, h, p) <= smoothed(Series::Up, scale(h, k), p)
            <= k * smoothed(Series::Up, h, p) + (p - 1) * k,
        k * smoothed(Series::Down, h, p) <= smoothed(Series::Down, scale(h, k), p)
            <= k * smoothed(Series::Down, h, p) + (p - 1) * k,
{
    lemma_scaling_series(Series::Range, h, k, p);
    lemma_scaling_series(Series::Up, h, k, p);
    lemma_scaling_series(Series::Down, h, k, p);
}

/// A percentage depends only on the ratio of its two terms: scaling both by
/// `k > 0` leaves it unchanged. So +DI and -DI are unchanged when the smoothed
/// DM and the ATR are scaled together, and DX with them.
pub proof fn lemma_percent_scale_invariant(num: int, den: int, k: int)
    requires
        k > 0,
        num >= 0,
        den >= 0,
    ensures
        percent(k * num, k * den) == percent(num, den),
{
    let f = FULL_SCALE as int;
    if den > 0 {
        let x = f * num + den - 1;
        let q = x / den;
        let r = x % den;
        vstd::arithmetic::div_mod::lemma_fundamental_div_mod(x, den);
        assert(f * (k * num) + k * den - 1 == q * (k * den) + (k * r + k - 1) && 0 <= k * r + k - 1 < k * den)
            by (nonlinear_arith)
            requires k > 0, x == f * num + den - 1, x == den * q + r, 0 <= r < den;
        vstd::arithmetic::div_mod::lemma_fundamental_div_mod_converse(f * (k * num) + k * den - 1, k * den, q,
            k * r + k - 1);
    } else {
        assert(k * den == 0);
    }
}

/// With period 1 the smoothing is exact, so multiplying every price by `k > 0`
/// leaves +DI, -DI, DX and ADX unchanged, at every candle.
pub proof fn lemma_scaling_period_one(h: Seq<Candle>, k: int)
    requires
        k > 0,
        prices_at_most(h, price_max() / k),
    ensures
        plus_di(scale(h, k), 1) == plus_di(h, 1),
        minus_di(scale(h, k), 1) == minus_di(h, 1),
        dx(scale(h, k), 1) == dx(h, 1),
        dx_sum(scale(h, k), 1) == dx_sum(h, 1),
        adx(scale(h, k), 1) == adx(h, 1),
    decreases h.len(),
{
    lemma_scaling_smoothed(h, k, 1);
    lemma_smoothed_nonneg(Series::Range, h, 1);
    lemma_smoothed_nonneg(Series::Up, h, 1);
    lemma_smoothed_nonneg(Series::Down, h, 1);
    lemma_percent_scale_invariant(smoothed(Series::Up, h, 1), atr(h, 1), k);
    lemma_percent_scale_invariant(smoothed(Series::Down, h, 1), atr(h, 1), k);
    if h.len() >= 1 {
        let t = h.drop_last();
        let m = price_max() / k;
        assert(scale(h, k).drop_last() =~= scale(t, k));
        assert(prices_at_most(t, m)) by {
            assert forall|i: int| 0 <= i < t.len() implies (#[trigger] t[i]).high <= m && t[i].low <= m
                && t[i].close <= m by {
                assert(t[i] == h[i]);
            }
        }
        lemma_scaling_period_one(t, k);
    }
}

/// What rounding a percentage up means: `c` units are at least the exact
/// share, and `c - 1` units are below it.
proof fn lemma_percent_brackets(num: int, den: int)
    requires
        den > 0,
    ensures
        percent(num, den) * den >= FULL_SCALE * num,
        (percent(num, den) - 1) * den < FULL_SCALE * num,
{
    let x = FULL_SCALE * num + den - 1;
    vstd::arithmetic::div_mod::lemma_fundamental_div_mod(x, den);
    let c = x / den;
    assert(c * den == den * c) by (nonlinear_arith);
    assert((c - 1) * den == den * c - den) by (nonlinear_arith);
}

/// Percentages of nearly proportional terms are nearly equal: when `u2` and
/// `a2` exceed `k * u` and `k * a` by at most `e`, the two percentages differ
/// by less than one unit plus `FULL_SCALE * e / (k * a)`.
proof fn lemma_percent_near_scaled(u: int, a: int, u2: int, a2: int, k: int, e: int)
    requires
        k > 0,
        e >= 0,
        0 <= u <= a,
        a >= 1,
        k * u <= u2 <= k * u + e,
        k * a <= a2 <= k * a + e,
        u2 <= a2,
    ensures
        (percent(u2, a2) - percent(u, a) - 1) * (k * a) < FULL_SCALE * e,
        (percent(u, a) - percent(u2, a2) - 1) * (k * a) < FULL_SCALE * e,
{
    let f = FULL_SCALE as int;
    assert(k * a >= 1) by (nonlinear_arith)
        requires k > 0, a >= 1;
    lemma_percent_brackets(u, a);
    lemma_percent_brackets(u2, a2);
    lemma_percent_bound(u, a);
    lemma_percent_bound(u2, a2);
    let c = percent(u, a);
    let c2 = percent(u2, a2);
    if c2 >= 1 {
        assert((c2 - 1) * (k * a) <= (c2 - 1) * a2) by (nonlinear_arith)
            requires c2 >= 1, k * a <= a2;
        assert(f * u2 <= f * (k * u) + f * e) by (nonlinear_arith)
            requires u2 <= k * u + e, f > 0;
        assert(f * (k * u) <= k * (c * a)) by (nonlinear_arith)
            requires f * u <= c * a, k > 0;
        assert((c2 - c - 1) * (k * a) == (c2 - 1) * (k * a) - k * (c * a)) by (nonlinear_arith);
    } else {
        assert((c2 - c - 1) * (k * a) <= 0) by (nonlinear_arith)
            requires c2 == 0, c >= 0, k * a >= 1;
        assert(f * e >= 0) by (nonlinear_arith)
            requires f > 0, e >= 0;
    }
    assert((c - c2 - 1) * (k * a) < f * e) by (nonlinear_arith)
        requires (c - 1) * a < f * u, c2 * a2 >= f * u2, k * u <= u2, a2 <= k * a + e, k > 0, 0 <= c2 <= f,
            e >= 0, f > 0;
}

proof fn lemma_scale_well_formed(h: Seq<Candle>, k: int)
    requires
        k > 0,
        all_well_formed(h),
        prices_at_most(h, price_max() / k),
    ensures
        all_well_formed(scale(h, k)),
{
    let m = price_max() / k;
    assert(forall|x: int| x <= m ==> #[trigger] (k * x) <= price_max()) by (nonlinear_arith)
        requires k > 0, m == price_max() / k;
    assert(forall|x: int, y: int| 0 <= x <= y ==> 0 <= #[trigger] (k * x) <= #[trigger] (k * y)) by (nonlinear_arith)
        requires k > 0;
    assert forall|i: int| 0 <= i < scale(h, k).len() implies (#[trigger] scale(h, k)[i]).well_formed() by {
        let c = h[i];
        assert(c.well_formed());
        assert(c.high <= m && c.low <= m && c.close <= m);
        assert(k * c.low <= k * c.close && k * c.close <= k * c.high);
    }
}

/// Multiplying every price by `k > 0` moves +DI and -DI by less than one unit
/// plus `FULL_SCALE * (p - 1) / atr`, where `atr` is the ATR of the original
/// prices in units of `1 / SMOOTHING_SCALE` of a price unit. With an ATR of at
/// least one price unit that is at most `(p - 1) / 10` units of `FULL_SCALE`
/// beyond the unit of rounding.
pub proof fn lemma_scaling_di(h: Seq<Candle>, k: int, p: nat)
    requires
        k > 0,
        p > 0,
        all_well_formed(h),
        prices_at_most(h, price_max() / k),
        atr(h, p) >= 1,
    ensures
        (plus_di(scale(h, k), p) - plus_di(h, p) - 1) * atr(h, p) < FULL_SCALE * (p - 1),
        (plus_di(h, p) - plus_di(scale(h, k), p) - 1) * atr(h, p) < FULL_SCALE * (p - 1),
        (minus_di(scale(h, k), p) - minus_di(h, p) - 1) * atr(h, p) < FULL_SCALE * (p - 1),
        (minus_di(h, p) - minus_di(scale(h, k), p) - 1) * atr(h, p) < FULL_SCALE * (p - 1),
{
    let sh = scale(h, k);
    let e = (p - 1) * k;
    let f = FULL_SCALE as int;
    assert(e >= 0) by (nonlinear_arith)
        requires p >= 1, k > 0, e == (p - 1) * k;
    lemma_scaling_smoothed(h, k, p);
    lemma_smoothed_bounds(h, p);
    lemma_scale_well_formed(h, k);
    lemma_smoothed_bounds(sh, p);
    let a = atr(h, p);
    lemma_percent_near_scaled(smoothed(Series::Up, h, p), a, smoothed(Series::Up, sh, p), atr(sh, p), k, e);
    lemma_percent_near_scaled(smoothed(Series::Down, h, p), a, smoothed(Series::Down, sh, p), atr(sh, p), k, e);
    assert(forall|d: int| (#[trigger] (d * (k * a))) < f * e ==> d * a < f * (p - 1)) by (nonlinear_arith)
        requires k > 0, e == (p - 1) * k, a >= 1;
}

/// The engine's result is a function of its input: two runs over the same
/// candles and period give identical results.
pub proof fn lemma_runs_agree(a: Seq<Candle>, b: Seq<Candle>, p: nat, ra: Result<IndicatorSample, IndicatorError>,
    rb: Result<IndicatorSample, IndicatorError>)
    requires
        a == b,
        ra == indicator_result(a, p),
        rb == indicator_result(b, p),
    ensures
        ra == rb,
{
}

} // verus!
