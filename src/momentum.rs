use vstd::prelude::*;
use vstd::string::StringSliceAdditionalSpecFns;

use crate::ma::{
    div_down, fit, kind_named, lemma_ma_outputs_push, ma_output, ma_outputs, opt_int, to_i64, window_ok, MaKind,
    MA,
};
use crate::ratio::{floor_div, is_fraction, Ratio};
use crate::ring::last_n;
use crate::rolling::{all_present, seq_max, seq_min, RollingMax, RollingMin};

verus! {

/// `(high + low + close) / 3`, rounded down.
pub open spec fn typical_price(high: Option<i64>, low: Option<i64>, close: Option<i64>) -> Option<i64> {
    match (high, low, close) {
        (Some(h), Some(l), Some(c)) => Some(((h + l + c) / 3) as i64),
        _ => None,
    }
}

/// `|tp - avg|`, when both are present and it fits in 64 bits.
pub open spec fn abs_dev(tp: Option<i64>, avg: Option<i64>) -> Option<i64> {
    match (tp, avg) {
        (Some(t), Some(a)) => to_i64(
            fit(
                if t >= a {
                    t - a
                } else {
                    a - t
                },
            ),
        ),
        _ => None,
    }
}

/// The deviations of the typical prices `tps` from their running average.
pub open spec fn deviations(kind: MaKind, tps: Seq<Option<i64>>, n: nat) -> Seq<Option<i64>> {
    Seq::new(tps.len(), |i: int| abs_dev(tps[i], ma_outputs(kind, tps, n)[i]))
}

/// Commodity channel index: `(tp - MA(tp)) / MA(|tp - MA(tp)|)` over the
/// typical price `tp`.
pub struct CCI {
    tp_meaner: MA,
    deviation_meaner: MA,
}

impl CCI {
    /// The typical prices pushed so far.
    pub closed spec fn typical_prices(&self) -> Seq<Option<i64>> {
        self.tp_meaner.history()
    }

    pub closed spec fn kind(&self) -> MaKind {
        self.tp_meaner.kind()
    }

    pub closed spec fn period(&self) -> nat {
        self.tp_meaner.period()
    }

    pub closed spec fn wf(&self) -> bool {
        &&& self.tp_meaner.wf()
        &&& self.deviation_meaner.wf()
        &&& self.deviation_meaner.kind() == self.tp_meaner.kind()
        &&& self.deviation_meaner.period() == self.tp_meaner.period()
        &&& self.deviation_meaner.history() == deviations(
            self.tp_meaner.kind(),
            self.tp_meaner.history(),
            self.tp_meaner.period(),
        )
    }

    /// Averages with the moving average named `ma_type` over `ma_period`,
    /// which must name a kind that takes that window.
    pub fn new(ma_period: usize, ma_type: &str) -> (r: Self)
        requires
            kind_named(ma_type.spec_bytes()) is Some,
            window_ok(kind_named(ma_type.spec_bytes()).unwrap(), ma_period as nat),
        ensures
            r.wf(),
            r.kind() == kind_named(ma_type.spec_bytes()).unwrap(),
            r.period() == ma_period,
            r.typical_prices() == Seq::<Option<i64>>::empty(),
    {
        let r = CCI { tp_meaner: MA::new(ma_period, ma_type), deviation_meaner: MA::new(ma_period, ma_type) };
        assert(deviations(r.kind(), Seq::empty(), r.period()) =~= Seq::<Option<i64>>::empty());
        r
    }

    /// Pushes a bar; returns the index, or `None` while an average is missing
    /// or the mean deviation is zero.
    pub fn update(&mut self, high: Option<i64>, low: Option<i64>, close: Option<i64>) -> (r: Option<Ratio>)
        requires
            old(self).wf(),
        ensures
            final(self).wf(),
            final(self).kind() == old(self).kind(),
            final(self).period() == old(self).period(),
            final(self).typical_prices() == old(self).typical_prices().push(typical_price(high, low, close)),
            ({
                let tps = final(self).typical_prices();
                let kind = final(self).kind();
                let n = final(self).period();
                let tp = tps.last();
                let avg = ma_output(kind, tps, n);
                let dev = ma_output(kind, deviations(kind, tps, n), n);
                &&& r is Some <==> (tp is Some && avg is Some && dev is Some && dev.unwrap() != 0)
                &&& r is Some ==> is_fraction(r.unwrap(), tp.unwrap() - avg.unwrap(), dev.unwrap())
            }),
    {
        let ghost tps = self.typical_prices();
        let ghost kind = self.kind();
        let ghost n = self.period();
        let tp: Option<i64> = match (high, low, close) {
            (Some(h), Some(l), Some(c)) => {
                let s = h as i128 + l as i128 + c as i128;
                proof {
                    crate::ratio::lemma_div_bounds(s as int, 3, i64::MIN as int, i64::MAX as int);
                }
                Some(floor_div(s, 3) as i64)
            },
            _ => None,
        };
        let tp_avg = self.tp_meaner.update(tp);
        proof {
            lemma_ma_outputs_push(kind, tps, n, tp, tp_avg);
        }
        let dev_in: Option<i64> = match (tp, tp_avg) {
            (Some(t), Some(a)) => {
                let d = if t >= a {
                    t as i128 - a as i128
                } else {
                    a as i128 - t as i128
                };
                if d <= i64::MAX as i128 {
                    Some(d as i64)
                } else {
                    None
                }
            },
            _ => None,
        };
        proof {
            let tps2 = tps.push(tp);
            assert(tps2.last() == tp);
            assert(deviations(kind, tps2, n) =~= deviations(kind, tps, n).push(dev_in));
        }
        let dev = self.deviation_meaner.update(dev_in);
        match (tp, tp_avg, dev) {
            (Some(t), Some(a), Some(d)) => {
                if d == 0 {
                    None
                } else {
                    Ratio::of_quotient(t as i128 - a as i128, d as i128)
                }
            },
            _ => None,
        }
    }
}

/// Scale of the K, D and J lines: `KDJ_SCALE` stands for 1.
pub const KDJ_SCALE: i64 = 10_000;

/// The lowest value of the last `n` of `h`, when all are present.
pub open spec fn window_low(h: Seq<Option<i64>>, n: nat) -> Option<int> {
    if all_present(last_n(h, n)) {
        Some(seq_min(last_n(h, n)))
    } else {
        None
    }
}

/// The highest value of the last `n` of `h`, when all are present.
pub open spec fn window_high(h: Seq<Option<i64>>, n: nat) -> Option<int> {
    if all_present(last_n(h, n)) {
        Some(seq_max(last_n(h, n)))
    } else {
        None
    }
}

/// `KDJ_SCALE * (price - lowest) / (highest - lowest)`, rounded down.
pub open spec fn k_value(price: Option<i64>, lowest: Option<int>, highest: Option<int>) -> Option<i64> {
    match (price, lowest, highest) {
        (Some(p), Some(lo), Some(hi)) => if hi != lo {
            to_i64(fit(div_down((p - lo) * KDJ_SCALE, hi - lo)))
        } else {
            None
        },
        _ => None,
    }
}

/// The K line after each bar.
pub open spec fn k_line(prices: Seq<Option<i64>>, lows: Seq<Option<i64>>, highs: Seq<Option<i64>>, n: nat) -> Seq<
    Option<i64>,
> {
    Seq::new(
        prices.len(),
        |i: int| k_value(prices[i], window_low(lows.take(i + 1), n), window_high(highs.take(i + 1), n)),
    )
}

/// `3 * K - 2 * D`, when both are present and it fits in 64 bits.
pub open spec fn j_value(k: Option<i64>, d: Option<i64>) -> Option<i64> {
    match (k, d) {
        (Some(a), Some(b)) => to_i64(fit(3 * a - 2 * b)),
        _ => None,
    }
}

/// The stochastic K, D and J lines over a rolling low/high window.
pub struct KDJ {
    low_miner: RollingMin,
    high_maxer: RollingMax,
    smoother: MA,
    prices: Ghost<Seq<Option<i64>>>,
}

impl KDJ {
    pub closed spec fn prices(&self) -> Seq<Option<i64>> {
        self.prices@
    }

    pub closed spec fn highs(&self) -> Seq<Option<i64>> {
        self.high_maxer.history()
    }

    pub closed spec fn lows(&self) -> Seq<Option<i64>> {
        self.low_miner.history()
    }

    /// The window of the low and high.
    pub closed spec fn minmax_period(&self) -> nat {
        self.low_miner.period()
    }

    pub closed spec fn kind(&self) -> MaKind {
        self.smoother.kind()
    }

    /// The window of the D line's average.
    pub closed spec fn ma_period(&self) -> nat {
        self.smoother.period()
    }

    pub closed spec fn wf(&self) -> bool {
        &&& self.low_miner.wf()
        &&& self.high_maxer.wf()
        &&& self.smoother.wf()
        &&& self.high_maxer.period() == self.low_miner.period()
        &&& self.prices@.len() == self.low_miner.history().len()
        &&& self.prices@.len() == self.high_maxer.history().len()
        &&& self.smoother.history() == k_line(
            self.prices@,
            self.low_miner.history(),
            self.high_maxer.history(),
            self.low_miner.period(),
        )
    }

    /// A low/high window of `minmax_period` and a D line averaged with the
    /// moving average named `ma_type` over `ma_period`.
    pub fn new(minmax_period: usize, ma_period: usize, ma_type: &str) -> (r: Self)
        requires
            minmax_period > 0,
            kind_named(ma_type.spec_bytes()) is Some,
            window_ok(kind_named(ma_type.spec_bytes()).unwrap(), ma_period as nat),
        ensures
            r.wf(),
            r.kind() == kind_named(ma_type.spec_bytes()).unwrap(),
            r.ma_period() == ma_period,
            r.minmax_period() == minmax_period,
            r.prices() == Seq::<Option<i64>>::empty(),
    {
        let r = KDJ {
            low_miner: RollingMin::new(minmax_period),
            high_maxer: RollingMax::new(minmax_period),
            smoother: MA::new(ma_period, ma_type),
            prices: Ghost(Seq::empty()),
        };
        assert(k_line(Seq::empty(), Seq::empty(), Seq::empty(), minmax_period as nat) =~= Seq::<
            Option<i64>,
        >::empty());
        r
    }

    /// Pushes a bar (`price` may be the close or the average price); returns
    /// the K, D and J lines.
    pub fn update(&mut self, price: Option<i64>, high: Option<i64>, low: Option<i64>) -> (r: (
        Option<i64>,
        Option<i64>,
        Option<i64>,
    ))
        requires
            old(self).wf(),
        ensures
            final(self).wf(),
            final(self).kind() == old(self).kind(),
            final(self).ma_period() == old(self).ma_period(),
            final(self).minmax_period() == old(self).minmax_period(),
            final(self).prices() == old(self).prices().push(price),
            final(self).highs() == old(self).highs().push(high),
            final(self).lows() == old(self).lows().push(low),
            r.0 == k_value(
                price,
                window_low(final(self).lows(), final(self).minmax_period()),
                window_high(final(self).highs(), final(self).minmax_period()),
            ),
            opt_int(r.1) == ma_output(
                final(self).kind(),
                k_line(final(self).prices(), final(self).lows(), final(self).highs(), final(self).minmax_period()),
                final(self).ma_period(),
            ),
            r.2 == j_value(r.0, r.1),
    {
        let ghost ps = self.prices@;
        let ghost ls = self.lows();
        let ghost hs = self.highs();
        let ghost n = self.minmax_period();
        let lowest_low = self.low_miner.update(low);
        let highest_high = self.high_maxer.update(high);
        self.prices = Ghost(ps.push(price));
        let k_line_val: Option<i64> = match (price, lowest_low, highest_high) {
            (Some(p), Some(lo), Some(hi)) => {
                if hi == lo {
                    None
                } else {
                    let num = (p as i128 - lo as i128) * KDJ_SCALE as i128;
                    let den = hi as i128 - lo as i128;
                    let q = if den > 0 {
                        floor_div(num, den)
                    } else {
                        floor_div(-num, -den)
                    };
                    if i64::MIN as i128 <= q && q <= i64::MAX as i128 {
                        Some(q as i64)
                    } else {
                        None
                    }
                }
            },
            _ => None,
        };
        proof {
            let ps2 = ps.push(price);
            let ls2 = ls.push(low);
            let hs2 = hs.push(high);
            assert(ls2.take(ls2.len() as int) =~= ls2);
            assert(hs2.take(hs2.len() as int) =~= hs2);
            assert forall|i: int| 0 <= i < ps.len() implies #[trigger] ls2.take(i + 1) == ls.take(i + 1)
                && hs2.take(i + 1) == hs.take(i + 1) by {
                assert(ls2.take(i + 1) =~= ls.take(i + 1));
                assert(hs2.take(i + 1) =~= hs.take(i + 1));
            }
            assert(k_line(ps2, ls2, hs2, n) =~= k_line(ps, ls, hs, n).push(k_line_val));
        }
        let d_line = self.smoother.update(k_line_val);
        let j_line = match (k_line_val, d_line) {
            (Some(k), Some(d)) => {
                let j = 3 * (k as i128) - 2 * (d as i128);
                if i64::MIN as i128 <= j && j <= i64::MAX as i128 {
                    Some(j as i64)
                } else {
                    None
                }
            },
            _ => None,
        };
        (k_line_val, d_line, j_line)
    }
}

} // verus!
