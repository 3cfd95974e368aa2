use vstd::prelude::*;
use crate::candle::{Candle, abs_diff, true_range, plus_dm, minus_dm};

verus! {

/// 100% in the fixed-point unit of the percentage outputs (+DI, -DI, DX, ADX):
/// one unit is a millionth of a percent.
pub const FULL_SCALE: u64 = 100_000_000;

/// Fixed-point scale of the smoothed series (ATR, smoothed +DM and -DM): they
/// are kept in units of `1 / SMOOTHING_SCALE` of a price unit, so the rounding
/// of Wilder's smoothing is far below the price unit the caller picked.
pub const SMOOTHING_SCALE: u64 = 1_000_000_000;

/// The three raw series derived from consecutive candles.
#[derive(Clone, Copy, Debug, PartialEq, Eq, Structural)]
pub enum Series {
    Range,
    Up,
    Down,
}

/// Every candle of `h` is well formed.
pub open spec fn all_well_formed(h: Seq<Candle>) -> bool {
    forall|i: int| 0 <= i < h.len() ==> (#[trigger] h[i]).well_formed()
}

/// The raw value of series `s` at the last candle of `h` (needs two candles).
pub open spec fn raw(s: Series, h: Seq<Candle>) -> int {
    let prev = h[h.len() - 2];
    let cur = h[h.len() - 1];
    match s {
        Series::Range => true_range(prev, cur),
        Series::Up => plus_dm(prev, cur),
        Series::Down => minus_dm(prev, cur),
    }
}

/// Sum of the raw values of series `s` over every step of `h`.
pub open spec fn raw_sum(s: Series, h: Seq<Candle>) -> int
    decreases h.len(),
{
    if h.len() < 2 {
        0
    } else {
        raw_sum(s, h.drop_last()) + raw(s, h)
    }
}

/// One step of Wilder's smoothing: weight `(p - 1) / p` on the previous value,
/// `1 / p` on the new sample, rounded down.
pub open spec fn wilder(prev: int, x: int, p: nat) -> int {
    (prev * (p - 1) + x) / (p as int)
}

/// Wilder-smoothed series `s` at the last candle of `h`, in units of
/// `1 / SMOOTHING_SCALE` of a price unit: seeded with the mean of the first `p`
/// raw values once `h` holds `p + 1` candles, then smoothed. Zero while unseeded.
pub open spec fn smoothed(s: Series, h: Seq<Candle>, p: nat) -> int
    decreases h.len(),
{
    if p == 0 || h.len() <= p {
        0
    } else if h.len() == p + 1 {
        ((SMOOTHING_SCALE as int) * raw_sum(s, h)) / (p as int)
    } else {
        wilder(smoothed(s, h.drop_last(), p), (SMOOTHING_SCALE as int) * raw(s, h), p)
    }
}

/// `num / den` as a percentage in units of `FULL_SCALE`, rounded up, so that
/// any positive share gives a positive percentage; a zero denominator (a flat
/// market) gives zero rather than an undefined value.
pub open spec fn percent(num: int, den: int) -> int {
    if den == 0 {
        0
    } else {
        ((FULL_SCALE as int) * num + den - 1) / den
    }
}

/// Average true range at the last candle of `h`, in units of
/// `1 / SMOOTHING_SCALE` of a price unit.
pub open spec fn atr(h: Seq<Candle>, p: nat) -> int {
    smoothed(Series::Range, h, p)
}

/// +DI at the last candle of `h`.
pub open spec fn plus_di(h: Seq<Candle>, p: nat) -> int {
    percent(smoothed(Series::Up, h, p), atr(h, p))
}

/// -DI at the last candle of `h`.
pub open spec fn minus_di(h: Seq<Candle>, p: nat) -> int {
    percent(smoothed(Series::Down, h, p), atr(h, p))
}

/// DX at the last candle of `h`.
pub open spec fn dx(h: Seq<Candle>, p: nat) -> int {
    percent(abs_diff(plus_di(h, p), minus_di(h, p)), plus_di(h, p) + minus_di(h, p))
}

/// Sum of every DX value computed up to the last candle of `h`.
pub open spec fn dx_sum(h: Seq<Candle>, p: nat) -> int
    decreases h.len(),
{
    if h.len() <= p {
        0
    } else {
        dx_sum(h.drop_last(), p) + dx(h, p)
    }
}

/// ADX at the last candle of `h`: seeded with the mean of the first `p` DX
/// values once `h` holds `2p` candles, then Wilder-smoothed. Zero while unseeded.
pub open spec fn adx(h: Seq<Candle>, p: nat) -> int
    decreases h.len(),
{
    if p == 0 || h.len() < 2 * p {
        0
    } else if h.len() == 2 * p {
        dx_sum(h, p) / (p as int)
    } else {
        wilder(adx(h.drop_last(), p), dx(h, p), p)
    }
}

/// The DX series holds `p` values, so ADX is defined, once `h` has `2p` candles.
pub open spec fn adx_ready(h: Seq<Candle>, p: nat) -> bool {
    p > 0 && h.len() >= 2 * p
}

} // verus!
