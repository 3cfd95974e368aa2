use vstd::prelude::*;
use crate::candle::{Candle, abs_diff};
use crate::model::{Series, FULL_SCALE, SMOOTHING_SCALE, all_well_formed, raw, raw_sum, wilder, smoothed, percent, atr, plus_di, minus_di, dx, dx_sum, adx};

verus! {

/// The largest price a `u64` field can hold.
pub open spec fn price_max() -> int {
    u64::MAX as int
}

/// Between two well-formed candles the true range fits in a price and is at
/// least each directional movement.
/// The largest value a smoothed series can take: the largest price, in units
/// of `1 / SMOOTHING_SCALE`.
pub open spec fn fine_max() -> int {
    SMOOTHING_SCALE * price_max()
}

pub proof fn lemma_raw_bounds(h: Seq<Candle>)
    requires
        h.len() >= 2,
        h[h.len() - 2].well_formed(),
        h[h.len() - 1].well_formed(),
    ensures
        0 <= raw(Series::Up, h) <= raw(Series::Range, h) <= price_max(),
        0 <= raw(Series::Down, h) <= raw(Series::Range, h),
{
}

/// The raw sums are non-negative, each DM sum is at most the true-range sum,
/// and that sum is at most one price per step.
pub proof fn lemma_raw_sum_bounds(h: Seq<Candle>)
    requires
        all_well_formed(h),
    ensures
        0 <= raw_sum(Series::Up, h) <= raw_sum(Series::Range, h),
        0 <= raw_sum(Series::Down, h) <= raw_sum(Series::Range, h),
        h.len() >= 1 ==> raw_sum(Series::Range, h) <= (h.len() - 1) * price_max(),
    decreases h.len(),
{
    if h.len() >= 2 {
        let t = h.drop_last();
        assert(all_well_formed(t)) by {
            assert forall|i: int| 0 <= i < t.len() implies (#[trigger] t[i]).well_formed() by {
                assert(t[i] == h[i]);
            }
        }
        lemma_raw_sum_bounds(t);
        lemma_raw_bounds(h);
    }
}

/// Wilder's step is monotone in both arguments and stays below any bound `m`
/// that its arguments stay below.
pub proof fn lemma_wilder_monotone(a: int, b: int, x: int, y: int, p: nat, m: int)
    requires
        0 <= a <= b <= m,
        0 <= x <= y <= m,
        p > 0,
    ensures
        0 <= wilder(a, x, p) <= wilder(b, y, p) <= m,
{
    let pi = p as int;
    assert(0 <= a * (pi - 1) <= b * (pi - 1)) by (nonlinear_arith)
        requires 0 <= a <= b, pi >= 1;
    assert(b * (pi - 1) + y <= m * pi) by (nonlinear_arith)
        requires b <= m, y <= m, pi >= 1;
    vstd::arithmetic::div_mod::lemma_div_is_ordered(a * (pi - 1) + x, b * (pi - 1) + y, pi);
    vstd::arithmetic::div_mod::lemma_div_is_ordered(b * (pi - 1) + y, m * pi, pi);
    vstd::arithmetic::div_mod::lemma_div_is_ordered(0, a * (pi - 1) + x, pi);
    assert((m * pi) / pi == m) by (nonlinear_arith)
        requires pi >= 1;
}

/// A mean of values that are at most `m` is at most `m`.
pub proof fn lemma_mean_bound(total: int, p: nat, m: int)
    requires
        0 <= total <= p * m,
        p > 0,
    ensures
        0 <= total / (p as int) <= m,
{
    let pi = p as int;
    vstd::arithmetic::div_mod::lemma_div_is_ordered(total, pi * m, pi);
    vstd::arithmetic::div_mod::lemma_div_is_ordered(0, total, pi);
    assert((pi * m) / pi == m) by (nonlinear_arith)
        requires pi >= 1;
}

/// ATR is at most the largest price (in fine units), and each smoothed DM lies
/// between zero and the ATR.
pub proof fn lemma_smoothed_bounds(h: Seq<Candle>, p: nat)
    requires
        all_well_formed(h),
    ensures
        0 <= smoothed(Series::Up, h, p) <= smoothed(Series::Range, h, p) <= fine_max(),
        0 <= smoothed(Series::Down, h, p) <= smoothed(Series::Range, h, p),
    decreases h.len(),
{
    let f = SMOOTHING_SCALE as int;
    if p == 0 || h.len() <= p {
    } else if h.len() == p + 1 {
        lemma_raw_sum_bounds(h);
        let pi = p as int;
        let (r, u, d) = (raw_sum(Series::Range, h), raw_sum(Series::Up, h), raw_sum(Series::Down, h));
        assert(0 <= f * u <= f * r && 0 <= f * d <= f * r && f * r <= p * fine_max()) by (nonlinear_arith)
            requires 0 <= u <= r, 0 <= d <= r, r <= p * price_max(), f == SMOOTHING_SCALE,
                fine_max() == f * price_max(), f > 0;
        vstd::arithmetic::div_mod::lemma_div_is_ordered(f * u, f * r, pi);
        vstd::arithmetic::div_mod::lemma_div_is_ordered(f * d, f * r, pi);
        lemma_mean_bound(f * r, p, fine_max());
        lemma_mean_bound(f * u, p, fine_max());
        lemma_mean_bound(f * d, p, fine_max());
    } else {
        let t = h.drop_last();
        assert(all_well_formed(t)) by {
            assert forall|i: int| 0 <= i < t.len() implies (#[trigger] t[i]).well_formed() by {
                assert(t[i] == h[i]);
            }
        }
        lemma_smoothed_bounds(t, p);
        lemma_raw_bounds(h);
        let (r, u, d) = (raw(Series::Range, h), raw(Series::Up, h), raw(Series::Down, h));
        assert(0 <= f * u <= f * r && 0 <= f * d <= f * r && f * r <= fine_max()) by (nonlinear_arith)
            requires 0 <= u <= r, 0 <= d <= r, r <= price_max(), fine_max() == f * price_max(), f > 0;
        lemma_wilder_monotone(smoothed(Series::Up, t, p), smoothed(Series::Range, t, p), f * u, f * r, p,
            fine_max());
        lemma_wilder_monotone(smoothed(Series::Down, t, p), smoothed(Series::Range, t, p), f * d, f * r, p,
            fine_max());
    }
}

/// A percentage of a part of a whole lies between 0% and 100%.
pub proof fn lemma_percent_bound(num: int, den: int)
    requires
        0 <= num <= den,
    ensures
        0 <= percent(num, den) <= FULL_SCALE,
{
    if den > 0 {
        let f = FULL_SCALE as int;
        assert(0 <= f * num + den - 1 <= (f + 1) * den - 1) by (nonlinear_arith)
            requires 0 <= num <= den, f >= 0, den > 0;
        vstd::arithmetic::div_mod::lemma_div_is_ordered(f * num + den - 1, (f + 1) * den - 1, den);
        vstd::arithmetic::div_mod::lemma_div_is_ordered(0, f * num + den - 1, den);
        assert(((f + 1) * den - 1) / den == f) by {
            vstd::arithmetic::div_mod::lemma_fundamental_div_mod_converse((f + 1) * den - 1, den, f, den - 1);
        }
    }
}

/// Over well-formed candles +DI, -DI and DX lie between 0% and 100%.
pub proof fn lemma_indicator_bounds(h: Seq<Candle>, p: nat)
    requires
        all_well_formed(h),
    ensures
        0 <= atr(h, p) <= fine_max(),
        0 <= plus_di(h, p) <= FULL_SCALE,
        0 <= minus_di(h, p) <= FULL_SCALE,
        0 <= dx(h, p) <= FULL_SCALE,
{
    lemma_smoothed_bounds(h, p);
    lemma_percent_bound(smoothed(Series::Up, h, p), atr(h, p));
    lemma_percent_bound(smoothed(Series::Down, h, p), atr(h, p));
    lemma_percent_bound(abs_diff(plus_di(h, p), minus_di(h, p)), plus_di(h, p) + minus_di(h, p));
}

/// The DX sum is at most 100% per DX value.
pub proof fn lemma_dx_sum_bound(h: Seq<Candle>, p: nat)
    requires
        all_well_formed(h),
    ensures
        0 <= dx_sum(h, p),
        h.len() >= p ==> dx_sum(h, p) <= (h.len() - p) * FULL_SCALE,
    decreases h.len(),
{
    if h.len() > p {
        let t = h.drop_last();
        assert(all_well_formed(t)) by {
            assert forall|i: int| 0 <= i < t.len() implies (#[trigger] t[i]).well_formed() by {
                assert(t[i] == h[i]);
            }
        }
        lemma_dx_sum_bound(t, p);
        lemma_indicator_bounds(h, p);
    }
}

/// Over well-formed candles ADX lies between 0% and 100%.
pub proof fn lemma_adx_bound(h: Seq<Candle>, p: nat)
    requires
        all_well_formed(h),
    ensures
        0 <= adx(h, p) <= FULL_SCALE,
    decreases h.len(),
{
    if p == 0 || h.len() < 2 * p {
    } else if h.len() == 2 * p {
        lemma_dx_sum_bound(h, p);
        lemma_mean_bound(dx_sum(h, p), p, FULL_SCALE as int);
    } else {
        let t = h.drop_last();
        assert(all_well_formed(t)) by {
            assert forall|i: int| 0 <= i < t.len() implies (#[trigger] t[i]).well_formed() by {
                assert(t[i] == h[i]);
            }
        }
        lemma_adx_bound(t, p);
        lemma_indicator_bounds(h, p);
        lemma_wilder_monotone(adx(t, p), FULL_SCALE as int, dx(h, p), FULL_SCALE as int, p, FULL_SCALE as int);
        assert(wilder(FULL_SCALE as int, FULL_SCALE as int, p) == FULL_SCALE) by {
            let pi = p as int;
            let f = FULL_SCALE as int;
            assert(f * (pi - 1) + f == f * pi) by (nonlinear_arith);
            assert((f * pi) / pi == f) by (nonlinear_arith)
                requires pi >= 1;
        }
    }
}

} // verus!
