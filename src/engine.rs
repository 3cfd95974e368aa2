use vstd::prelude::*;
use crate::bounds::{price_max, fine_max, lemma_raw_sum_bounds, lemma_wilder_monotone,
    lemma_percent_bound, lemma_smoothed_bounds, lemma_indicator_bounds, lemma_dx_sum_bound, lemma_adx_bound};
use crate::candle::Candle;
use crate::model::{Series, FULL_SCALE, SMOOTHING_SCALE, all_well_formed, raw, raw_sum, wilder, smoothed, percent, atr,
    plus_di, minus_di, dx, dx_sum, adx, adx_ready};

verus! {

/// Why the engine produced no value.
#[derive(Clone, Copy, Debug, PartialEq, Eq, Structural)]
pub enum IndicatorError {
    /// Fewer candles than the requested output needs.
    InsufficientData,
    /// The period is zero.
    InvalidParameter,
    /// A candle whose close lies outside its own range, or price columns of
    /// different lengths.
    InvalidInput,
}

/// The indicator values at one candle. `atr` is in price units, rounded down
/// from the engine's finer internal scale; `plus_di`, `minus_di`, `dx` and
/// `adx` are in units of `FULL_SCALE`. `adx` is `None` until `2 * period`
/// candles have been seen.
#[derive(Clone, Copy, Debug, PartialEq, Eq)]
pub struct IndicatorSample {
    pub atr: u64,
    pub plus_di: u64,
    pub minus_di: u64,
    pub dx: u64,
    pub adx: Option<u64>,
}

/// The indicator values at the last candle of `h`.
pub open spec fn sample_of(h: Seq<Candle>, p: nat) -> IndicatorSample {
    IndicatorSample {
        atr: (atr(h, p) / (SMOOTHING_SCALE as int)) as u64,
        plus_di: plus_di(h, p) as u64,
        minus_di: minus_di(h, p) as u64,
        dx: dx(h, p) as u64,
        adx: if adx_ready(h, p) { Some(adx(h, p) as u64) } else { None },
    }
}

/// What a batch run over `h` with period `p` returns.
pub open spec fn indicator_result(h: Seq<Candle>, p: nat) -> Result<IndicatorSample, IndicatorError> {
    if p == 0 {
        Err(IndicatorError::InvalidParameter)
    } else if h.len() < p + 1 {
        Err(IndicatorError::InsufficientData)
    } else if !all_well_formed(h) {
        Err(IndicatorError::InvalidInput)
    } else {
        Ok(sample_of(h, p))
    }
}

/// Wilder's step written as a correction of the previous value, which needs no
/// product of two large values.
proof fn lemma_wilder_shift(prev: int, x: int, p: nat)
    requires
        p > 0,
    ensures
        x >= prev ==> wilder(prev, x, p) == prev + (x - prev) / (p as int),
        x < prev ==> wilder(prev, x, p) == prev - (prev - x + p - 1) / (p as int),
{
    let pi = p as int;
    assert(prev * (pi - 1) + x == (x - prev) + prev * pi) by (nonlinear_arith);
    vstd::arithmetic::div_mod::lemma_hoist_over_denominator(x - prev, prev, p);
    if x < prev {
        let n = prev - x;
        let q = (n + pi - 1) / pi;
        let r = (n + pi - 1) % pi;
        vstd::arithmetic::div_mod::lemma_fundamental_div_mod(n + pi - 1, pi);
        assert(-n == (-q) * pi + (pi - 1 - r)) by (nonlinear_arith)
            requires n + pi - 1 == pi * q + r;
        vstd::arithmetic::div_mod::lemma_fundamental_div_mod_converse(-n, pi, -q, pi - 1 - r);
    }
}

fn wilder_step(prev: u128, x: u128, p: usize) -> (r: u128)
    requires
        p > 0,
        prev <= fine_max(),
        x <= fine_max(),
    ensures
        r == wilder(prev as int, x as int, p as nat),
{
    proof {
        lemma_wilder_shift(prev as int, x as int, p as nat);
        lemma_wilder_monotone(prev as int, fine_max(), x as int, fine_max(), p as nat, fine_max());
    }
    let p128 = p as u128;
    if x >= prev {
        prev + (x - prev) / p128
    } else {
        prev - (prev - x + p128 - 1) / p128
    }
}

/// The mean of a raw sum over `p` steps, in units of `1 / SMOOTHING_SCALE`.
fn fine_mean(sum: u128, p: usize) -> (r: u128)
    requires
        p > 0,
        sum <= p * price_max(),
    ensures
        r == ((SMOOTHING_SCALE as int) * sum) / (p as int),
{
    let p128 = p as u128;
    let q = sum / p128;
    let rem = sum % p128;
    proof {
        let (pi, f) = (p as int, SMOOTHING_SCALE as int);
        vstd::arithmetic::div_mod::lemma_fundamental_div_mod(sum as int, pi);
        vstd::arithmetic::div_mod::lemma_div_is_ordered(sum as int, pi * price_max(), pi);
        assert((pi * price_max()) / pi == price_max()) by (nonlinear_arith)
            requires pi >= 1;
        assert(f * sum == (f * rem) + (f * q) * pi) by (nonlinear_arith)
            requires sum == pi * q + rem;
        vstd::arithmetic::div_mod::lemma_hoist_over_denominator(f * rem, f * q, p as nat);
        assert(f * q <= f * price_max() && f * rem <= f * pi) by (nonlinear_arith)
            requires q <= price_max(), rem < pi, f > 0;
    }
    (SMOOTHING_SCALE as u128) * q + (SMOOTHING_SCALE as u128) * rem / p128
}

fn percent_of(num: u128, den: u128) -> (r: u64)
    requires
        num <= den,
        den <= fine_max(),
    ensures
        r == percent(num as int, den as int),
{
    proof {
        lemma_percent_bound(num as int, den as int);
    }
    if den == 0 {
        0
    } else {
        assert((FULL_SCALE as int) * (num as int) <= (FULL_SCALE as int) * fine_max()) by (nonlinear_arith)
            requires num <= fine_max();
        (((FULL_SCALE as u128) * num + den - 1) / den) as u64
    }
}

/// Streaming ADX/ATR engine: fed one candle at a time in time order.
///
/// While fewer than `period + 1` candles have been seen it only accumulates
/// the raw sums; at `period + 1` it seeds the smoothed series with their
/// means; afterwards every candle advances Wilder's smoothing.
pub struct AdxEngine {
    period: usize,
    seen: u128,
    prev: Candle,
    range_sum: u128,
    up_sum: u128,
    down_sum: u128,
    atr: u128,
    up_avg: u128,
    down_avg: u128,
    dx_sum: u128,
    adx: u64,
    history: Ghost<Seq<Candle>>,
}

impl View for AdxEngine {
    type V = Seq<Candle>;

    /// The candles fed so far.
    closed spec fn view(&self) -> Seq<Candle> {
        self.history@
    }
}

impl AdxEngine {
    pub closed spec fn period(&self) -> nat {
        self.period as nat
    }

    pub closed spec fn wf(&self) -> bool {
        let h = self.history@;
        let p = self.period as nat;
        &&& p > 0
        &&& all_well_formed(h)
        &&& self.seen == if h.len() < 2 * p { h.len() as int } else { 2 * p as int }
        &&& h.len() > 0 ==> self.prev == h.last()
        &&& h.len() <= p + 1 ==> {
            &&& self.range_sum == raw_sum(Series::Range, h)
            &&& self.up_sum == raw_sum(Series::Up, h)
            &&& self.down_sum == raw_sum(Series::Down, h)
        }
        &&& self.atr == atr(h, p)
        &&& self.up_avg == smoothed(Series::Up, h, p)
        &&& self.down_avg == smoothed(Series::Down, h, p)
        &&& h.len() <= 2 * p ==> self.dx_sum == dx_sum(h, p)
        &&& self.adx == adx(h, p)
    }

    /// An engine that has seen no candle. A zero period is refused.
    pub fn new(period: usize) -> (r: Result<AdxEngine, IndicatorError>)
        ensures
            period == 0 ==> r == Err::<AdxEngine, IndicatorError>(IndicatorError::InvalidParameter),
            period > 0 ==> (r matches Ok(e) && e.wf() && e@ == Seq::<Candle>::empty() && e.period() == period),
    {
        if period == 0 {
            return Err(IndicatorError::InvalidParameter);
        }
        Ok(AdxEngine {
            period,
            seen: 0,
            prev: Candle { high: 0, low: 0, close: 0 },
            range_sum: 0,
            up_sum: 0,
            down_sum: 0,
            atr: 0,
            up_avg: 0,
            down_avg: 0,
            dx_sum: 0,
            adx: 0,
            history: Ghost(Seq::empty()),
        })
    }
    /// Feeds the next candle. A malformed candle is refused and leaves the
    /// engine unchanged. Otherwise it is appended, and once more than
    /// `period` candles have been seen the values at it are returned.
    pub fn advance(&mut self, c: Candle) -> (r: Result<Option<IndicatorSample>, IndicatorError>)
        requires
            old(self).wf(),
        ensures
            final(self).wf(),
            final(self).period() == old(self).period(),
            !c.well_formed() ==> r == Err::<Option<IndicatorSample>, IndicatorError>(IndicatorError::InvalidInput)
                && final(self)@ == old(self)@,
            c.well_formed() ==> final(self)@ == old(self)@.push(c),
            c.well_formed() ==> r == Ok::<Option<IndicatorSample>, IndicatorError>(
                if final(self)@.len() > old(self).period() {
                    Some(sample_of(final(self)@, old(self).period()))
                } else {
                    None
                },
            ),
    {
        if !c.is_valid() {
            return Err(IndicatorError::InvalidInput);
        }
        let ghost h0 = self.history@;
        let ghost p = self.period as nat;
        let ghost h = h0.push(c);
        proof {
            assert(h.drop_last() =~= h0);
            assert(all_well_formed(h)) by {
                assert forall|i: int| 0 <= i < h.len() implies (#[trigger] h[i]).well_formed() by {
                    if i < h0.len() {
                        assert(h[i] == h0[i]);
                    }
                }
            }
            self.history = Ghost(h);
        }
        let period = self.period;
        let seen = self.seen;
        let two_p: u128 = 2 * (period as u128);
        let p128 = period as u128;
        if seen == 0 {
            self.prev = c;
            self.seen = 1;
            return Ok(None);
        }
        let tr = c.true_range(&self.prev);
        let up = c.plus_dm(&self.prev);
        let down = c.minus_dm(&self.prev);
        self.prev = c;
        if seen < two_p {
            self.seen = seen + 1;
        }
        proof {
            assert(h[h.len() - 2] == h0.last());
            assert(raw(Series::Range, h) == tr);
            assert(raw(Series::Up, h) == up);
            assert(raw(Series::Down, h) == down);
            lemma_smoothed_bounds(h0, p);
            lemma_smoothed_bounds(h, p);
            lemma_indicator_bounds(h, p);
        }
        if seen < p128 {
            proof {
                lemma_raw_sum_bounds(h);
                assert((h.len() - 1) * price_max() <= price_max() * price_max()) by (nonlinear_arith)
                    requires h.len() - 1 <= p, p <= price_max();
            }
            self.range_sum = self.range_sum + tr as u128;
            self.up_sum = self.up_sum + up as u128;
            self.down_sum = self.down_sum + down as u128;
            return Ok(None);
        }
        if seen == p128 {
            proof {
                lemma_raw_sum_bounds(h);
                assert((h.len() - 1) * price_max() <= price_max() * price_max()) by (nonlinear_arith)
                    requires h.len() - 1 <= p, p <= price_max();
            }
            self.range_sum = self.range_sum + tr as u128;
            self.up_sum = self.up_sum + up as u128;
            self.down_sum = self.down_sum + down as u128;
            self.atr = fine_mean(self.range_sum, period);
            self.up_avg = fine_mean(self.up_sum, period);
            self.down_avg = fine_mean(self.down_sum, period);
        } else {
            self.atr = wilder_step(self.atr, (SMOOTHING_SCALE as u128) * (tr as u128), period);
            self.up_avg = wilder_step(self.up_avg, (SMOOTHING_SCALE as u128) * (up as u128), period);
            self.down_avg = wilder_step(self.down_avg, (SMOOTHING_SCALE as u128) * (down as u128), period);
        }
        let pdi = percent_of(self.up_avg, self.atr);
        let mdi = percent_of(self.down_avg, self.atr);
        let diff = if pdi >= mdi { pdi - mdi } else { mdi - pdi };
        let dxv = percent_of(diff as u128, (pdi + mdi) as u128);
        if seen + 1 <= two_p {
            proof {
                lemma_dx_sum_bound(h, p);
                assert((h.len() - p) * FULL_SCALE <= price_max() * FULL_SCALE) by (nonlinear_arith)
                    requires h.len() - p <= p, p <= price_max();
            }
            self.dx_sum = self.dx_sum + dxv as u128;
            if seen + 1 == two_p {
                self.adx = (self.dx_sum / p128) as u64;
            }
        } else {
            self.adx = wilder_step(self.adx as u128, dxv as u128, period) as u64;
        }
        proof {
            lemma_adx_bound(h, p);
        }
        let adx_out = if seen + 1 >= two_p { Some(self.adx) } else { None };
        Ok(Some(IndicatorSample { atr: (self.atr / (SMOOTHING_SCALE as u128)) as u64, plus_di: pdi, minus_di: mdi, dx: dxv, adx: adx_out }))
    }
}

/// Runs the engine over `candles` in order and returns the values at the last
/// candle.
pub fn compute(candles: &Vec<Candle>, period: usize) -> (r: Result<IndicatorSample, IndicatorError>)
    ensures
        r == indicator_result(candles@, period as nat),
        period > 0 && candles@.len() == period ==> r == Err::<IndicatorSample, IndicatorError>(
            IndicatorError::InsufficientData,
        ),
{
    let mut engine = match AdxEngine::new(period) {
        Ok(e) => e,
        Err(e) => return Err(e),
    };
    let n = candles.len();
    if n < period || n - period < 1 {
        return Err(IndicatorError::InsufficientData);
    }
    let mut last: Option<IndicatorSample> = None;
    let mut i: usize = 0;
    while i < n
        invariant
            0 <= i <= n,
            n == candles@.len(),
            n >= period + 1,
            period > 0,
            engine.wf(),
            engine.period() == period,
            engine@ == candles@.take(i as int),
            all_well_formed(candles@.take(i as int)),
            i > period ==> last == Some(sample_of(candles@.take(i as int), period as nat)),
        decreases n - i,
    {
        let c = candles[i];
        match engine.advance(c) {
            Err(e) => {
                proof {
                    assert(candles@[i as int] == c);
                    assert(!all_well_formed(candles@));
                }
                return Err(e);
            },
            Ok(o) => {
                proof {
                    assert(candles@.take(i as int).push(c) =~= candles@.take(i + 1));
                    let t = candles@.take(i + 1);
                    assert(all_well_formed(t)) by {
                        assert forall|j: int| 0 <= j < t.len() implies (#[trigger] t[j]).well_formed() by {
                            if j < i {
                                assert(t[j] == candles@.take(i as int)[j]);
                            }
                        }
                    }
                }
                if i + 1 > period {
                    last = o;
                }
            },
        }
        i = i + 1;
    }
    proof {
        assert(candles@.take(n as int) =~= candles@);
    }
    match last {
        Some(s) => Ok(s),
        None => Err(IndicatorError::InsufficientData),
    }
}

/// The candles formed from three equally long price columns.
pub open spec fn candles_from(highs: Seq<u64>, lows: Seq<u64>, closes: Seq<u64>) -> Seq<Candle> {
    Seq::new(highs.len(), |i: int| Candle { high: highs[i], low: lows[i], close: closes[i] })
}

/// What `calculate_adx` returns for the given columns.
pub open spec fn adx_result(highs: Seq<u64>, lows: Seq<u64>, closes: Seq<u64>, p: nat) -> Result<u64, IndicatorError> {
    let h = candles_from(highs, lows, closes);
    if p == 0 {
        Err(IndicatorError::InvalidParameter)
    } else if lows.len() != highs.len() || closes.len() != highs.len() {
        Err(IndicatorError::InvalidInput)
    } else {
        match indicator_result(h, p) {
            Err(e) => Err(e),
            Ok(s) => if adx_ready(h, p) {
                Ok(adx(h, p) as u64)
            } else {
                Err(IndicatorError::InsufficientData)
            },
        }
    }
}

/// The latest ADX of the series given as high, low and close columns.
/// ADX needs `2 * period` candles; with fewer the result is `InsufficientData`.
pub fn calculate_adx(highs: &[u64], lows: &[u64], closes: &[u64], period: usize) -> (r: Result<u64, IndicatorError>)
    ensures
        r == adx_result(highs@, lows@, closes@, period as nat),
{
    if period == 0 {
        return Err(IndicatorError::InvalidParameter);
    }
    let n = highs.len();
    if lows.len() != n || closes.len() != n {
        return Err(IndicatorError::InvalidInput);
    }
    let mut candles: Vec<Candle> = Vec::new();
    let mut i: usize = 0;
    while i < n
        invariant
            0 <= i <= n,
            n == highs@.len(),
            n == lows@.len(),
            n == closes@.len(),
            candles@ =~= candles_from(highs@, lows@, closes@).take(i as int),
        decreases n - i,
    {
        candles.push(Candle { high: highs[i], low: lows[i], close: closes[i] });
        i = i + 1;
    }
    proof {
        assert(candles@ =~= candles_from(highs@, lows@, closes@));
    }
    match compute(&candles, period) {
        Err(e) => Err(e),
        Ok(s) => match s.adx {
            Some(v) => Ok(v),
            None => Err(IndicatorError::InsufficientData),
        },
    }
}

} // verus!
