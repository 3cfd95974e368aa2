use vstd::prelude::*;

verus! {

/// One bar of market data. Prices are integer fixed-point amounts in a unit
/// chosen by the caller (for example 1e-8 of a currency unit); every price of
/// one series must use the same unit.
#[derive(Clone, Copy, Debug, PartialEq, Eq, Structural)]
pub struct Candle {
    pub high: u64,
    pub low: u64,
    pub close: u64,
}

/// Distance between two prices.
pub open spec fn abs_diff(a: int, b: int) -> int {
    if a >= b {
        a - b
    } else {
        b - a
    }
}

pub open spec fn max3(a: int, b: int, c: int) -> int {
    if a >= b && a >= c {
        a
    } else if b >= c {
        b
    } else {
        c
    }
}

impl Candle {
    /// A candle is well formed when its close lies within its own range.
    pub open spec fn well_formed(self) -> bool {
        self.low <= self.close && self.close <= self.high
    }

    pub fn is_valid(&self) -> (r: bool)
        ensures
            r == self.well_formed(),
    {
        self.low <= self.close && self.close <= self.high
    }

    /// The same candle reflected around `m`: high and low trade places.
    pub open spec fn mirrored(self, m: int) -> Candle {
        Candle { high: (m - self.low) as u64, low: (m - self.high) as u64, close: (m - self.close) as u64 }
    }

    /// The same candle with every price multiplied by `k`.
    pub open spec fn scaled(self, k: int) -> Candle {
        Candle { high: (k * self.high) as u64, low: (k * self.low) as u64, close: (k * self.close) as u64 }
    }
}

/// True range of `cur` against the close of `prev`.
pub open spec fn true_range(prev: Candle, cur: Candle) -> int {
    max3(cur.high - cur.low, abs_diff(cur.high as int, prev.close as int), abs_diff(cur.low as int, prev.close as int))
}

/// Upward directional movement from `prev` to `cur`: the rise of the high,
/// when it is positive and strictly larger than the fall of the low.
pub open spec fn plus_dm(prev: Candle, cur: Candle) -> int {
    let up = cur.high - prev.high;
    let down = prev.low - cur.low;
    if up > down && up > 0 {
        up
    } else {
        0
    }
}

/// Downward directional movement from `prev` to `cur`: the fall of the low,
/// when it is positive and strictly larger than the rise of the high.
pub open spec fn minus_dm(prev: Candle, cur: Candle) -> int {
    let up = cur.high - prev.high;
    let down = prev.low - cur.low;
    if down > up && down > 0 {
        down
    } else {
        0
    }
}

fn abs_diff_u64(a: u64, b: u64) -> (r: u64)
    ensures
        r == abs_diff(a as int, b as int),
{
    if a >= b {
        a - b
    } else {
        b - a
    }
}

impl Candle {
    /// True range of this candle against the close of `prev`.
    pub fn true_range(&self, prev: &Candle) -> (r: u64)
        requires
            self.well_formed(),
        ensures
            r == true_range(*prev, *self),
    {
        let spread = self.high - self.low;
        let up = abs_diff_u64(self.high, prev.close);
        let down = abs_diff_u64(self.low, prev.close);
        if spread >= up && spread >= down {
            spread
        } else if up >= down {
            up
        } else {
            down
        }
    }

    /// Upward directional movement from `prev` to this candle.
    pub fn plus_dm(&self, prev: &Candle) -> (r: u64)
        ensures
            r == plus_dm(*prev, *self),
    {
        let up: i128 = self.high as i128 - prev.high as i128;
        let down: i128 = prev.low as i128 - self.low as i128;
        if up > down && up > 0 {
            up as u64
        } else {
            0
        }
    }

    /// Downward directional movement from `prev` to this candle.
    pub fn minus_dm(&self, prev: &Candle) -> (r: u64)
        ensures
            r == minus_dm(*prev, *self),
    {
        let up: i128 = self.high as i128 - prev.high as i128;
        let down: i128 = prev.low as i128 - self.low as i128;
        if down > up && down > 0 {
            down as u64
        } else {
            0
        }
    }
}

} // verus!
