use vstd::prelude::*;
use vstd::string::StringSliceAdditionalSpecFns;

use crate::ratio::{floor_div, lemma_div_bounds};
use crate::ring::{last_n, Container};
use crate::rolling::{
    all_present, lemma_missing_count, lemma_present_sum, missing_count, present_sum, val, RollingSum,
};

verus! {

/// The longest window a moving average takes; it keeps the weighted sums of
/// 64-bit values within 128 bits.
pub const MAX_PERIOD: usize = 0x4000_0000;

/// `1 + 2 + ... + n`.
pub open spec fn tri(n: nat) -> nat
    decreases n,
{
    if n == 0 {
        0
    } else {
        tri((n - 1) as nat) + n
    }
}

/// The sum of `(i + 1) * s[i]` over the present entries of `s`: the oldest
/// entry weighs 1, the newest `s.len()`.
pub open spec fn weighted_sum(s: Seq<Option<i64>>) -> int
    decreases s.len(),
{
    if s.len() == 0 {
        0
    } else {
        weighted_sum(s.drop_last()) + s.len() * val(s.last())
    }
}

pub proof fn lemma_tri(n: nat)
    ensures
        2 * tri(n) == (n as int) * (n as int + 1),
    decreases n,
{
    if n > 0 {
        let m = (n - 1) as nat;
        lemma_tri(m);
        let a = tri(m) as int;
        let b = tri(n) as int;
        let k = n as int;
        assert(b == a + k);
        assert(2 * a == (k - 1) * k);
        assert(2 * b == k * (k + 1)) by (nonlinear_arith)
            requires
                2 * a == (k - 1) * k,
                b == a + k,
        ;
    } else {
        assert((n as int) * (n as int + 1) == 0) by (nonlinear_arith)
            requires
                n == 0,
        ;
    }
}

pub proof fn lemma_weighted_sum(s: Seq<Option<i64>>)
    ensures
        -0x8000_0000_0000_0000 * tri(s.len()) <= weighted_sum(s) <= 0x7fff_ffff_ffff_ffff * tri(s.len()),
        s.len() > 0 ==> weighted_sum(s) == present_sum(s) + weighted_sum(s.drop_first()),
    decreases s.len(),
{
    if s.len() > 0 {
        let t = s.drop_last();
        let l = s.len() as int;
        let x = val(s.last());
        lemma_weighted_sum(t);
        assert(-0x8000_0000_0000_0000 * l <= l * x <= 0x7fff_ffff_ffff_ffff * l) by (nonlinear_arith)
            requires
                -0x8000_0000_0000_0000 <= x <= 0x7fff_ffff_ffff_ffff,
                l > 0,
        ;
        if s.len() > 1 {
            let d = s.drop_first();
            assert(t.drop_first() =~= d.drop_last());
            assert(d.last() == s.last());
            lemma_weighted_sum(d);
            assert(weighted_sum(d) == weighted_sum(d.drop_last()) + (l - 1) * x);
            assert(present_sum(s) == present_sum(t) + x);
            assert(weighted_sum(t) == present_sum(t) + weighted_sum(t.drop_first()));
            assert((l - 1) * x + x == l * x) by (nonlinear_arith);
        } else {
            assert(t =~= s.drop_first());
            assert(weighted_sum(t) == 0);
            assert(present_sum(t) == 0);
            assert(present_sum(s) == x);
            assert(l * x == x) by (nonlinear_arith)
                requires
                    l == 1,
            ;
        }
    }
}

/// Simple moving average: the mean of the last `n` values, rounded down.
pub struct SMA {
    sumer: RollingSum,
    n: usize,
}

impl SMA {
    /// Every value pushed so far.
    pub closed spec fn history(&self) -> Seq<Option<i64>> {
        self.sumer.history()
    }

    pub closed spec fn period(&self) -> nat {
        self.n as nat
    }

    pub closed spec fn wf(&self) -> bool {
        &&& self.sumer.wf()
        &&& self.sumer.period() == self.n
        &&& 0 < self.n <= MAX_PERIOD
    }

    pub fn new(period: usize) -> (r: Self)
        requires
            0 < period <= MAX_PERIOD,
        ensures
            r.wf(),
            r.period() == period,
            r.history() == Seq::<Option<i64>>::empty(),
    {
        SMA { sumer: RollingSum::new(period), n: period }
    }

    /// Pushes `new_val`; returns the rounded-down mean of the last `period()`
    /// values, or `None` while one of them is missing.
    pub fn update(&mut self, new_val: Option<i64>) -> (r: Option<i64>)
        requires
            old(self).wf(),
        ensures
            final(self).wf(),
            final(self).period() == old(self).period(),
            final(self).history() == old(self).history().push(new_val),
            r is Some <==> all_present(last_n(final(self).history(), final(self).period())),
            r is Some ==> r.unwrap() == present_sum(last_n(final(self).history(), final(self).period()))
                / (final(self).period() as int),
    {
        match self.sumer.update(new_val) {
            Some(s) => {
                let ghost w = last_n(self.history(), self.period());
                proof {
                    lemma_present_sum(w);
                    lemma_div_bounds(s as int, self.n as int, -0x8000_0000_0000_0000, 0x7fff_ffff_ffff_ffff);
                }
                Some(floor_div(s, self.n as i128) as i64)
            },
            None => None,
        }
    }
}

/// The window, its missing count, plain sum and weighted sum, kept up to date
/// one push at a time.
struct WeightedWindow {
    container: Container,
    n: usize,
    nan_count: usize,
    sum: i128,
    weighted_sum: i128,
}

impl WeightedWindow {
    spec fn wf(&self) -> bool {
        &&& self.container.wf()
        &&& self.container@.len() == self.n
        &&& 0 < self.n <= MAX_PERIOD
        &&& self.nan_count == missing_count(self.container@)
        &&& self.sum == present_sum(self.container@)
        &&& self.weighted_sum == weighted_sum(self.container@)
    }

    fn new(n: usize) -> (r: Self)
        requires
            0 < n <= MAX_PERIOD,
        ensures
            r.wf(),
            r.n == n,
            r.container.history() == Seq::<Option<i64>>::empty(),
    {
        let container = Container::new(n);
        proof {
            lemma_all_missing_weighted(n as nat);
            assert(container@ =~= Seq::new(n as nat, |i: int| None::<i64>));
        }
        WeightedWindow { container, n, nan_count: n, sum: 0, weighted_sum: 0 }
    }

    /// Pushes `v`; tells whether every value of the window is present.
    fn push(&mut self, v: Option<i64>) -> (full: bool)
        requires
            old(self).wf(),
        ensures
            final(self).wf(),
            final(self).n == old(self).n,
            final(self).container.history() == old(self).container.history().push(v),
            full <==> all_present(final(self).container@),
    {
        let ghost before = self.container@;
        proof {
            self.container.lemma_wf();
            lemma_missing_count(before);
            lemma_present_sum(before);
            lemma_present_sum(before.drop_first());
            lemma_weighted_sum(before);
            lemma_weighted_sum(before.drop_first());
            lemma_tri_bound(self.n as nat);
            lemma_tri_mono((self.n - 1) as nat, self.n as nat);
        }
        let old_val = self.container.head();
        self.container.update(v);
        proof {
            let after = self.container@;
            assert(after.drop_last() =~= before.drop_first());
            assert(after.last() == v);
            lemma_missing_count(after);
            lemma_present_sum(after);
            lemma_weighted_sum(after);
            assert((self.n as int) * 0 == 0) by (nonlinear_arith);
        }
        self.weighted_sum = self.weighted_sum - self.sum;
        match old_val {
            Some(x) => {
                self.sum = self.sum - x as i128;
            },
            None => {
                self.nan_count = self.nan_count - 1;
            },
        }
        match v {
            Some(x) => {
                proof {
                    assert(-0x8000_0000_0000_0000 * self.n <= self.n * x <= 0x7fff_ffff_ffff_ffff * self.n)
                        by (nonlinear_arith)
                        requires
                            0 < self.n,
                            -0x8000_0000_0000_0000 <= x <= 0x7fff_ffff_ffff_ffff,
                    ;
                }
                self.weighted_sum = self.weighted_sum + self.n as i128 * x as i128;
                self.sum = self.sum + x as i128;
            },
            None => {
                self.nan_count = self.nan_count + 1;
            },
        }
        self.nan_count == 0
    }
}

proof fn lemma_all_missing_weighted(n: nat)
    ensures
        missing_count(Seq::new(n, |i: int| None::<i64>)) == n,
        present_sum(Seq::new(n, |i: int| None::<i64>)) == 0,
        weighted_sum(Seq::new(n, |i: int| None::<i64>)) == 0,
    decreases n,
{
    if n > 0 {
        lemma_all_missing_weighted((n - 1) as nat);
        assert(Seq::new(n, |i: int| None::<i64>).drop_last() =~= Seq::new(
            (n - 1) as nat,
            |i: int| None::<i64>,
        ));
        assert(n * 0 == 0) by (nonlinear_arith);
    }
}

proof fn lemma_tri_bound(n: nat)
    requires
        n <= MAX_PERIOD,
    ensures
        tri(n) <= 0x2000_0000_2000_0000,
{
    lemma_tri(n);
    assert((n as int) * (n as int + 1) <= 0x4000_0000_4000_0000) by (nonlinear_arith)
        requires
            n <= 0x4000_0000,
    ;
}

proof fn lemma_tri_mono(a: nat, b: nat)
    requires
        a <= b,
    ensures
        tri(a) <= tri(b),
    decreases b - a,
{
    if a < b {
        lemma_tri_mono(a, (b - 1) as nat);
    }
}

/// Weighted moving average: the newest of the last `n` values weighs `n`, the
/// oldest 1; the result is rounded down.
pub struct WMA {
    window: WeightedWindow,
}

impl WMA {
    /// Every value pushed so far.
    pub closed spec fn history(&self) -> Seq<Option<i64>> {
        self.window.container.history()
    }

    pub closed spec fn period(&self) -> nat {
        self.window.n as nat
    }

    pub closed spec fn wf(&self) -> bool {
        self.window.wf()
    }

    pub fn new(period: usize) -> (r: Self)
        requires
            0 < period <= MAX_PERIOD,
        ensures
            r.wf(),
            r.period() == period,
            r.history() == Seq::<Option<i64>>::empty(),
    {
        WMA { window: WeightedWindow::new(period) }
    }

    /// Pushes `new_val`; returns the weighted mean of the last `period()`
    /// values, rounded down, or `None` while one of them is missing.
    pub fn update(&mut self, new_val: Option<i64>) -> (r: Option<i64>)
        requires
            old(self).wf(),
        ensures
            final(self).wf(),
            final(self).period() == old(self).period(),
            final(self).history() == old(self).history().push(new_val),
            r is Some <==> all_present(last_n(final(self).history(), final(self).period())),
            r is Some ==> r.unwrap() == weighted_sum(last_n(final(self).history(), final(self).period()))
                / (tri(final(self).period()) as int),
    {
        let full = self.window.push(new_val);
        proof {
            self.window.container.lemma_wf();
        }
        if full {
            let n = self.window.n as i128;
            proof {
                lemma_tri(self.window.n as nat);
                assert(n * (n + 1) <= 0x4000_0000_4000_0000) by (nonlinear_arith)
                    requires
                        0 < n <= 0x4000_0000,
                ;
            }
            let t = n * (n + 1) / 2;
            proof {
                lemma_tri_bound(self.window.n as nat);
                lemma_weighted_sum(self.window.container@);
                lemma_div_bounds(
                    self.window.weighted_sum as int,
                    t as int,
                    -0x8000_0000_0000_0000,
                    0x7fff_ffff_ffff_ffff,
                );
            }
            Some(floor_div(self.window.weighted_sum, t) as i64)
        } else {
            None
        }
    }
}

} // verus!

verus! {

pub open spec fn opt_int(o: Option<i64>) -> Option<int> {
    match o {
        Some(x) => Some(x as int),
        None => None,
    }
}

/// One exponential smoothing step, `(e * (p - 1) + 2 * v) / (p + 1)` rounded
/// down: weight `2 / (p + 1)` on the new value.
pub open spec fn ema_step(e: int, v: int, p: int) -> int {
    (e * (p - 1) + 2 * v) / (p + 1)
}

/// One Wilder smoothing step, `(e * (p - 1) + v) / p` rounded down.
pub open spec fn rma_step(e: int, v: int, p: int) -> int {
    (e * (p - 1) + v) / p
}

/// The exponential average after the values of `h` (`wilder` picks the Wilder
/// step): seeded by the first present value; missing values leave it as it is.
pub open spec fn smoothed(h: Seq<Option<i64>>, p: int, wilder: bool) -> Option<int>
    decreases h.len(),
{
    if h.len() == 0 {
        None
    } else {
        let prev = smoothed(h.drop_last(), p, wilder);
        match h.last() {
            None => prev,
            Some(v) => match prev {
                None => Some(v as int),
                Some(e) => Some(
                    if wilder {
                        rma_step(e, v as int, p)
                    } else {
                        ema_step(e, v as int, p)
                    },
                ),
            },
        }
    }
}

/// The smoothed value of `h` stays within 64 bits.
pub proof fn lemma_smoothed_range(h: Seq<Option<i64>>, p: int, wilder: bool)
    requires
        p >= 1,
    ensures
        smoothed(h, p, wilder) is Some ==> i64::MIN <= smoothed(h, p, wilder).unwrap() <= i64::MAX,
    decreases h.len(),
{
    if h.len() > 0 {
        lemma_smoothed_range(h.drop_last(), p, wilder);
        let prev = smoothed(h.drop_last(), p, wilder);
        if h.last() is Some && prev is Some {
            lemma_step_range(prev.unwrap(), h.last().unwrap() as int, p, wilder);
        }
    }
}

proof fn lemma_step_range(e: int, v: int, p: int, wilder: bool)
    requires
        p >= 1,
        i64::MIN <= e <= i64::MAX,
        i64::MIN <= v <= i64::MAX,
    ensures
        i64::MIN <= ema_step(e, v, p) <= i64::MAX,
        i64::MIN <= rma_step(e, v, p) <= i64::MAX,
{
    let lo: int = if e < v {
        e
    } else {
        v
    };
    let hi: int = if e < v {
        v
    } else {
        e
    };
    assert(lo * (p + 1) <= e * (p - 1) + 2 * v <= hi * (p + 1)) by (nonlinear_arith)
        requires
            p >= 1,
            lo <= e <= hi,
            lo <= v <= hi,
    ;
    assert(lo * p <= e * (p - 1) + v <= hi * p) by (nonlinear_arith)
        requires
            p >= 1,
            lo <= e <= hi,
            lo <= v <= hi,
    ;
    lemma_div_bounds(e * (p - 1) + 2 * v, p + 1, lo, hi);
    lemma_div_bounds(e * (p - 1) + v, p, lo, hi);
}

/// Exponential smoothing with period `p`, shared by `EMA` and `RMA`.
struct Smoother {
    p: usize,
    wilder: bool,
    state: Option<i64>,
    history: Ghost<Seq<Option<i64>>>,
}

impl Smoother {
    spec fn wf(&self) -> bool {
        &&& 0 < self.p <= MAX_PERIOD
        &&& opt_int(self.state) == smoothed(self.history@, self.p as int, self.wilder)
    }

    fn new(p: usize, wilder: bool) -> (r: Self)
        requires
            0 < p <= MAX_PERIOD,
        ensures
            r.wf(),
            r.p == p,
            r.wilder == wilder,
            r.history@ == Seq::<Option<i64>>::empty(),
    {
        Smoother { p, wilder, state: None, history: Ghost(Seq::empty()) }
    }

    fn update(&mut self, new_val: Option<i64>) -> (r: Option<i64>)
        requires
            old(self).wf(),
        ensures
            final(self).wf(),
            final(self).p == old(self).p,
            final(self).wilder == old(self).wilder,
            final(self).history@ == old(self).history@.push(new_val),
            opt_int(r) == if new_val is Some {
                smoothed(final(self).history@, final(self).p as int, final(self).wilder)
            } else {
                None
            },
    {
        let ghost h = self.history@.push(new_val);
        proof {
            assert(h.drop_last() =~= self.history@);
            lemma_smoothed_range(h, self.p as int, self.wilder);
        }
        self.history = Ghost(h);
        match new_val {
            Some(v) => {
                let next: i64 = match self.state {
                    Some(e) => {
                        let p = self.p as i128;
                        proof {
                            assert(-0x8000_0000_0000_0000 * 0x4000_0000 <= e * (p - 1) <= 0x8000_0000_0000_0000
                                * 0x4000_0000) by (nonlinear_arith)
                                requires
                                    1 <= p <= 0x4000_0000,
                                    i64::MIN <= e <= i64::MAX,
                            ;
                        }
                        if self.wilder {
                            floor_div(e as i128 * (p - 1) + v as i128, p) as i64
                        } else {
                            floor_div(e as i128 * (p - 1) + 2 * v as i128, p + 1) as i64
                        }
                    },
                    None => v,
                };
                self.state = Some(next);
                Some(next)
            },
            None => None,
        }
    }
}

/// Exponential moving average with weight `2 / (period + 1)` on each new
/// value, rounded down at each step; missing inputs give `None` and leave it
/// unchanged.
pub struct EMA {
    inner: Smoother,
}

impl EMA {
    /// Every value pushed so far.
    pub closed spec fn history(&self) -> Seq<Option<i64>> {
        self.inner.history@
    }

    pub closed spec fn period(&self) -> nat {
        self.inner.p as nat
    }

    pub closed spec fn wf(&self) -> bool {
        self.inner.wf() && !self.inner.wilder
    }

    pub fn new(period: usize) -> (r: Self)
        requires
            0 < period <= MAX_PERIOD,
        ensures
            r.wf(),
            r.period() == period,
            r.history() == Seq::<Option<i64>>::empty(),
    {
        EMA { inner: Smoother::new(period, false) }
    }

    pub fn update(&mut self, new_val: Option<i64>) -> (r: Option<i64>)
        requires
            old(self).wf(),
        ensures
            final(self).wf(),
            final(self).period() == old(self).period(),
            final(self).history() == old(self).history().push(new_val),
            opt_int(r) == if new_val is Some {
                smoothed(final(self).history(), final(self).period() as int, false)
            } else {
                None
            },
    {
        self.inner.update(new_val)
    }
}

/// Wilder's moving average, `(rma * (period - 1) + value) / period` rounded
/// down at each step; missing inputs give `None` and leave it unchanged.
pub struct RMA {
    inner: Smoother,
}

impl RMA {
    /// Every value pushed so far.
    pub closed spec fn history(&self) -> Seq<Option<i64>> {
        self.inner.history@
    }

    pub closed spec fn period(&self) -> nat {
        self.inner.p as nat
    }

    pub closed spec fn wf(&self) -> bool {
        self.inner.wf() && self.inner.wilder
    }

    pub fn new(period: usize) -> (r: Self)
        requires
            0 < period <= MAX_PERIOD,
        ensures
            r.wf(),
            r.period() == period,
            r.history() == Seq::<Option<i64>>::empty(),
    {
        RMA { inner: Smoother::new(period, true) }
    }

    pub fn update(&mut self, new_val: Option<i64>) -> (r: Option<i64>)
        requires
            old(self).wf(),
        ensures
            final(self).wf(),
            final(self).period() == old(self).period(),
            final(self).history() == old(self).history().push(new_val),
            opt_int(r) == if new_val is Some {
                smoothed(final(self).history(), final(self).period() as int, true)
            } else {
                None
            },
    {
        self.inner.update(new_val)
    }
}

} // verus!

verus! {

/// The 64-bit value of `x`, or `None` when it does not fit.
pub open spec fn fit(x: int) -> Option<int> {
    if i64::MIN <= x <= i64::MAX {
        Some(x)
    } else {
        None
    }
}

pub open spec fn to_i64(o: Option<int>) -> Option<i64> {
    match o {
        Some(x) => Some(x as i64),
        None => None,
    }
}

/// What an SMA over `n` returns after the values of `h`.
pub open spec fn sma_output(h: Seq<Option<i64>>, n: nat) -> Option<int> {
    if all_present(last_n(h, n)) {
        Some(present_sum(last_n(h, n)) / (n as int))
    } else {
        None
    }
}

/// What a WMA over `n` returns after the values of `h`.
pub open spec fn wma_output(h: Seq<Option<i64>>, n: nat) -> Option<int> {
    if all_present(last_n(h, n)) {
        Some(weighted_sum(last_n(h, n)) / (tri(n) as int))
    } else {
        None
    }
}

/// The least-squares line through the window, evaluated at its newest point:
/// `(6 * weighted_sum - 2 * (n + 1) * sum) / (n * (n + 1))`, rounded down.
pub open spec fn lsma_output(h: Seq<Option<i64>>, n: nat) -> Option<int> {
    let w = last_n(h, n);
    if n > 1 && all_present(w) {
        fit((6 * weighted_sum(w) - 2 * (n + 1) * present_sum(w)) / ((n * (n + 1)) as int))
    } else {
        None
    }
}

/// What an EMA (or RMA, for `wilder`) returns after the values of `h`.
pub open spec fn smoothed_output(h: Seq<Option<i64>>, p: int, wilder: bool) -> Option<int> {
    if h.len() > 0 && h.last() is Some {
        smoothed(h, p, wilder)
    } else {
        None
    }
}

/// The EMA outputs after each prefix of `h`.
pub open spec fn ema_outputs(h: Seq<Option<i64>>, p: int) -> Seq<Option<i64>> {
    Seq::new(h.len(), |i: int| to_i64(smoothed_output(h.take(i + 1), p, false)))
}

/// `2 * EMA(h) - EMA(EMA outputs of h)`, when it fits in 64 bits.
pub open spec fn dema_output(h: Seq<Option<i64>>, p: int) -> Option<int> {
    match (smoothed_output(h, p, false), smoothed_output(ema_outputs(h, p), p, false)) {
        (Some(a), Some(b)) => fit(2 * a - b),
        _ => None,
    }
}

/// `2 * WMA(half) - WMA(full)` after `h`, when it fits in 64 bits.
pub open spec fn hull_diff(h: Seq<Option<i64>>, n: nat) -> Option<i64> {
    match (wma_output(h, n / 2), wma_output(h, n)) {
        (Some(a), Some(b)) => to_i64(fit(2 * a - b)),
        _ => None,
    }
}

/// The Hull differences after each prefix of `h`.
pub open spec fn hull_diffs(h: Seq<Option<i64>>, n: nat) -> Seq<Option<i64>> {
    Seq::new(h.len(), |i: int| hull_diff(h.take(i + 1), n))
}

/// The largest `s` with `s * s <= n`.
pub open spec fn is_isqrt(s: int, n: int) -> bool {
    s * s <= n < (s + 1) * (s + 1)
}

/// What an HMA over `n` returns after `h`: a WMA over `isqrt(n)` of the Hull
/// differences.
pub open spec fn hma_output(h: Seq<Option<i64>>, n: nat, s: nat) -> Option<int> {
    wma_output(hull_diffs(h, n), s)
}

proof fn lemma_wma_output_range(h: Seq<Option<i64>>, n: nat)
    requires
        n > 0,
    ensures
        wma_output(h, n) is Some ==> i64::MIN <= wma_output(h, n).unwrap() <= i64::MAX,
{
    let w = last_n(h, n);
    lemma_weighted_sum(w);
    lemma_tri(n);
    assert(tri(n) > 0) by (nonlinear_arith)
        requires
            2 * tri(n) == (n as int) * (n as int + 1),
            n > 0,
    ;
    lemma_div_bounds(weighted_sum(w), tri(n) as int, i64::MIN as int, i64::MAX as int);
}

proof fn lemma_take_push(h: Seq<Option<i64>>, v: Option<i64>, i: int)
    requires
        0 <= i < h.len(),
    ensures
        h.push(v).take(i + 1) == h.take(i + 1),
{
    assert(h.push(v).take(i + 1) =~= h.take(i + 1));
}

/// Least-squares moving average: the value at the newest point of the line
/// fitted to the last `n` values, rounded down.
pub struct LSMA {
    window: WeightedWindow,
}

impl LSMA {
    /// Every value pushed so far.
    pub closed spec fn history(&self) -> Seq<Option<i64>> {
        self.window.container.history()
    }

    pub closed spec fn period(&self) -> nat {
        self.window.n as nat
    }

    pub closed spec fn wf(&self) -> bool {
        self.window.wf()
    }

    pub fn new(period: usize) -> (r: Self)
        requires
            0 < period <= MAX_PERIOD,
        ensures
            r.wf(),
            r.period() == period,
            r.history() == Seq::<Option<i64>>::empty(),
    {
        LSMA { window: WeightedWindow::new(period) }
    }

    /// Pushes `new_val`; returns the fitted value, or `None` while a window
    /// value is missing, for a window of one value, or when it leaves 64 bits.
    pub fn update(&mut self, new_val: Option<i64>) -> (r: Option<i64>)
        requires
            old(self).wf(),
        ensures
            final(self).wf(),
            final(self).period() == old(self).period(),
            final(self).history() == old(self).history().push(new_val),
            opt_int(r) == lsma_output(final(self).history(), final(self).period()),
            r is Some ==> r.unwrap() == least_squares_at_last(last_n(final(self).history(), final(self).period())).0
                / least_squares_at_last(last_n(final(self).history(), final(self).period())).1,
    {
        let full = self.window.push(new_val);
        proof {
            self.window.container.lemma_wf();
        }
        let n = self.window.n as i128;
        if !full || n == 1 {
            return None;
        }
        let ghost w = self.window.container@;
        proof {
            lemma_weighted_sum(w);
            lemma_present_sum(w);
            lemma_tri_bound(n as nat);
            assert(-0x8000_0000_0000_0000 * 0x2000_0000_2000_0000 <= self.window.weighted_sum
                <= 0x8000_0000_0000_0000 * 0x2000_0000_2000_0000) by (nonlinear_arith)
                requires
                    -0x8000_0000_0000_0000 * tri(n as nat) <= self.window.weighted_sum <= 0x7fff_ffff_ffff_ffff
                        * tri(n as nat),
                    0 <= tri(n as nat) <= 0x2000_0000_2000_0000,
            ;
            assert(-0x4000_0001 * 0x4000_0000 * 0x8000_0000_0000_0000 <= (n + 1) * self.window.sum
                <= 0x4000_0001 * 0x4000_0000 * 0x8000_0000_0000_0000) by (nonlinear_arith)
                requires
                    -(n * 0x8000_0000_0000_0000) <= self.window.sum <= n * 0x7fff_ffff_ffff_ffff,
                    1 < n <= 0x4000_0000,
            ;
            assert(0 < n * (n + 1) <= 0x4000_0000 * 0x4000_0001) by (nonlinear_arith)
                requires
                    1 < n <= 0x4000_0000,
            ;
        }
        proof {
            let t = self.window.sum as int;
            assert(2 * (n + 1) * t == 2 * ((n + 1) * t)) by (nonlinear_arith);
        }
        proof {
            lemma_lsma_is_least_squares(w);
        }
        let num = 6 * self.window.weighted_sum - 2 * ((n + 1) * self.window.sum);
        let q = floor_div(num, n * (n + 1));
        if i64::MIN as i128 <= q && q <= i64::MAX as i128 {
            Some(q as i64)
        } else {
            None
        }
    }
}

/// Double exponential moving average, `2 * EMA - EMA(EMA)`; `None` where that
/// leaves 64 bits.
pub struct DEMA {
    ema_lv1: EMA,
    ema_lv2: EMA,
}

impl DEMA {
    /// Every value pushed so far.
    pub closed spec fn history(&self) -> Seq<Option<i64>> {
        self.ema_lv1.history()
    }

    pub closed spec fn period(&self) -> nat {
        self.ema_lv1.period()
    }

    pub closed spec fn wf(&self) -> bool {
        &&& self.ema_lv1.wf()
        &&& self.ema_lv2.wf()
        &&& self.ema_lv2.period() == self.ema_lv1.period()
        &&& self.ema_lv2.history() == ema_outputs(self.ema_lv1.history(), self.ema_lv1.period() as int)
    }

    pub fn new(period: usize) -> (r: Self)
        requires
            0 < period <= MAX_PERIOD,
        ensures
            r.wf(),
            r.period() == period,
            r.history() == Seq::<Option<i64>>::empty(),
    {
        let r = DEMA { ema_lv1: EMA::new(period), ema_lv2: EMA::new(period) };
        assert(ema_outputs(Seq::empty(), period as int) =~= Seq::<Option<i64>>::empty());
        r
    }

    pub fn update(&mut self, new_val: Option<i64>) -> (r: Option<i64>)
        requires
            old(self).wf(),
        ensures
            final(self).wf(),
            final(self).period() == old(self).period(),
            final(self).history() == old(self).history().push(new_val),
            opt_int(r) == dema_output(final(self).history(), final(self).period() as int),
    {
        let ghost h = self.history();
        let ghost p = self.period() as int;
        let lv1 = self.ema_lv1.update(new_val);
        proof {
            let h2 = h.push(new_val);
            assert(h2.take(h2.len() as int) =~= h2);
            assert forall|i: int| 0 <= i < h.len() implies #[trigger] h2.take(i + 1) == h.take(i + 1) by {
                lemma_take_push(h, new_val, i);
            }
            assert(ema_outputs(h2, p) =~= ema_outputs(h, p).push(lv1));
        }
        let lv2 = self.ema_lv2.update(lv1);
        match (lv1, lv2) {
            (Some(a), Some(b)) => {
                let d = 2 * (a as i128) - b as i128;
                if i64::MIN as i128 <= d && d <= i64::MAX as i128 {
                    Some(d as i64)
                } else {
                    None
                }
            },
            _ => None,
        }
    }
}

/// Hull moving average: a WMA over `isqrt(n)` of `2 * WMA(n / 2) - WMA(n)`.
pub struct HMA {
    full_wma: WMA,
    half_wma: WMA,
    sqrt_wma: WMA,
}

impl HMA {
    /// Every value pushed so far.
    pub closed spec fn history(&self) -> Seq<Option<i64>> {
        self.full_wma.history()
    }

    pub closed spec fn period(&self) -> nat {
        self.full_wma.period()
    }

    /// The window of the outer average.
    pub closed spec fn sqrt_period(&self) -> nat {
        self.sqrt_wma.period()
    }

    pub closed spec fn wf(&self) -> bool {
        &&& self.full_wma.wf()
        &&& self.half_wma.wf()
        &&& self.sqrt_wma.wf()
        &&& self.half_wma.period() == self.full_wma.period() / 2
        &&& self.half_wma.history() == self.full_wma.history()
        &&& is_isqrt(self.sqrt_wma.period() as int, self.full_wma.period() as int)
        &&& self.sqrt_wma.history() == hull_diffs(self.full_wma.history(), self.full_wma.period())
    }

    pub fn new(period: usize) -> (r: Self)
        requires
            2 <= period <= MAX_PERIOD,
        ensures
            r.wf(),
            r.period() == period,
            is_isqrt(r.sqrt_period() as int, period as int),
            r.history() == Seq::<Option<i64>>::empty(),
    {
        let p = period as u64;
        let mut s: u64 = 1;
        assert((s + 1) * (s + 1) <= 0x4000_0001 * 0x4000_0001) by (nonlinear_arith)
            requires
                s == 1,
        ;
        while (s + 1) * (s + 1) <= p
            invariant
                p == period,
                1 <= s <= p,
                s * s <= p <= MAX_PERIOD,
                (s + 1) * (s + 1) <= 0x4000_0001 * 0x4000_0001,
            decreases p - s,
        {
            proof {
                assert(s + 1 <= p) by (nonlinear_arith)
                    requires
                        (s + 1) * (s + 1) <= p,
                        s >= 1,
                ;
                assert((s + 2) * (s + 2) <= 0x4000_0001 * 0x4000_0001) by (nonlinear_arith)
                    requires
                        s + 1 <= 0x4000_0000,
                        s >= 1,
                ;
            }
            s = s + 1;
        }
        let r = HMA { full_wma: WMA::new(period), half_wma: WMA::new(period / 2), sqrt_wma: WMA::new(s as usize) };
        assert(hull_diffs(Seq::empty(), period as nat) =~= Seq::<Option<i64>>::empty());
        r
    }

    pub fn update(&mut self, new_val: Option<i64>) -> (r: Option<i64>)
        requires
            old(self).wf(),
        ensures
            final(self).wf(),
            final(self).period() == old(self).period(),
            final(self).sqrt_period() == old(self).sqrt_period(),
            final(self).history() == old(self).history().push(new_val),
            opt_int(r) == hma_output(final(self).history(), final(self).period(), final(self).sqrt_period()),
    {
        let ghost h = self.history();
        let ghost n = self.period();
        let half = self.half_wma.update(new_val);
        let full = self.full_wma.update(new_val);
        let diff = match (half, full) {
            (Some(a), Some(b)) => {
                let d = 2 * (a as i128) - b as i128;
                if i64::MIN as i128 <= d && d <= i64::MAX as i128 {
                    Some(d as i64)
                } else {
                    None
                }
            },
            _ => None,
        };
        proof {
            let h2 = h.push(new_val);
            assert(h2.take(h2.len() as int) =~= h2);
            assert forall|i: int| 0 <= i < h.len() implies #[trigger] h2.take(i + 1) == h.take(i + 1) by {
                lemma_take_push(h, new_val, i);
            }
            assert(diff == hull_diff(h2, n));
            assert(hull_diffs(h2, n) =~= hull_diffs(h, n).push(diff));
        }
        let r = self.sqrt_wma.update(diff);
        proof {
            lemma_wma_output_range(hull_diffs(self.history(), n), self.sqrt_period());
        }
        r
    }
}

} // verus!

verus! {

/// `price * volume`, when both are present and the product fits in 64 bits.
pub open spec fn amount_of(price: Option<i64>, volume: Option<i64>) -> Option<i64> {
    match (price, volume) {
        (Some(p), Some(v)) => to_i64(fit(p * v)),
        _ => None,
    }
}

pub open spec fn amounts(prices: Seq<Option<i64>>, volumes: Seq<Option<i64>>) -> Seq<Option<i64>> {
    Seq::new(prices.len(), |i: int| amount_of(prices[i], volumes[i]))
}

/// `a / b` rounded down, for a non-zero `b`.
pub open spec fn div_down(a: int, b: int) -> int {
    if b > 0 {
        a / b
    } else {
        (-a) / (-b)
    }
}

/// What a VWMA over `n` returns after the given prices and volumes: the
/// windowed sum of `price * volume` over the windowed sum of volume.
pub open spec fn vwma_output(prices: Seq<Option<i64>>, volumes: Seq<Option<i64>>, n: nat) -> Option<int> {
    let a = last_n(amounts(prices, volumes), n);
    let v = last_n(volumes, n);
    if all_present(a) && all_present(v) && present_sum(v) != 0 {
        fit(div_down(present_sum(a), present_sum(v)))
    } else {
        None
    }
}

/// Volume-weighted moving average over the last `n` bars, rounded down.
pub struct VWMA {
    weighted_sum: RollingSum,
    vol_sum: RollingSum,
    prices: Ghost<Seq<Option<i64>>>,
}

impl VWMA {
    /// Every price pushed so far.
    pub closed spec fn prices(&self) -> Seq<Option<i64>> {
        self.prices@
    }

    /// Every volume pushed so far.
    pub closed spec fn volumes(&self) -> Seq<Option<i64>> {
        self.vol_sum.history()
    }

    pub closed spec fn period(&self) -> nat {
        self.vol_sum.period()
    }

    pub closed spec fn wf(&self) -> bool {
        &&& self.weighted_sum.wf()
        &&& self.vol_sum.wf()
        &&& self.weighted_sum.period() == self.vol_sum.period()
        &&& self.vol_sum.period() <= MAX_PERIOD
        &&& self.prices@.len() == self.vol_sum.history().len()
        &&& self.weighted_sum.history() == amounts(self.prices@, self.vol_sum.history())
    }

    pub fn new(period: usize) -> (r: Self)
        requires
            0 < period <= MAX_PERIOD,
        ensures
            r.wf(),
            r.period() == period,
            r.prices() == Seq::<Option<i64>>::empty(),
            r.volumes() == Seq::<Option<i64>>::empty(),
    {
        let r = VWMA {
            weighted_sum: RollingSum::new(period),
            vol_sum: RollingSum::new(period),
            prices: Ghost(Seq::empty()),
        };
        assert(amounts(Seq::empty(), Seq::empty()) =~= Seq::<Option<i64>>::empty());
        r
    }

    pub fn update(&mut self, price: Option<i64>, volume: Option<i64>) -> (r: Option<i64>)
        requires
            old(self).wf(),
        ensures
            final(self).wf(),
            final(self).period() == old(self).period(),
            final(self).prices() == old(self).prices().push(price),
            final(self).volumes() == old(self).volumes().push(volume),
            opt_int(r) == vwma_output(final(self).prices(), final(self).volumes(), final(self).period()),
    {
        let amount: Option<i64> = match (price, volume) {
            (Some(p), Some(v)) => {
                proof {
                    assert(-0x8000_0000_0000_0000 * 0x8000_0000_0000_0000 <= (p as int) * (v as int)
                        <= 0x8000_0000_0000_0000 * 0x8000_0000_0000_0000) by (nonlinear_arith)
                        requires
                            i64::MIN <= p <= i64::MAX,
                            i64::MIN <= v <= i64::MAX,
                    ;
                }
                let a = p as i128 * v as i128;
                if i64::MIN as i128 <= a && a <= i64::MAX as i128 {
                    Some(a as i64)
                } else {
                    None
                }
            },
            _ => None,
        };
        proof {
            let ps = self.prices@.push(price);
            let vs = self.vol_sum.history().push(volume);
            assert(amounts(ps, vs) =~= amounts(self.prices@, self.vol_sum.history()).push(amount));
        }
        self.prices = Ghost(self.prices@.push(price));
        let tot_amt = self.weighted_sum.update(amount);
        let tot_vol = self.vol_sum.update(volume);
        proof {
            self.vol_sum.lemma_wf();
            lemma_present_sum(last_n(self.weighted_sum.history(), self.period()));
            lemma_present_sum(last_n(self.volumes(), self.period()));
        }
        match (tot_amt, tot_vol) {
            (Some(a), Some(v)) => {
                if v == 0 {
                    None
                } else {
                    let q = if v > 0 {
                        floor_div(a, v)
                    } else {
                        floor_div(-a, -v)
                    };
                    if i64::MIN as i128 <= q && q <= i64::MAX as i128 {
                        Some(q as i64)
                    } else {
                        None
                    }
                }
            },
            _ => None,
        }
    }
}

/// The kinds of moving average that `MA` selects by name.
#[derive(Clone, Copy, Debug, PartialEq, Eq, Structural)]
pub enum MaKind {
    Simple,
    Weighted,
    Exponential,
    DoubleExponential,
    Hull,
    Relative,
    LeastSquares,
}

/// The kind that a name selects: "sma", "wma", "ema", "dema", "hma", "rma" or
/// "lsma".
pub open spec fn kind_named(b: Seq<u8>) -> Option<MaKind> {
    if b == seq![115u8, 109u8, 97u8] {
        Some(MaKind::Simple)
    } else if b == seq![119u8, 109u8, 97u8] {
        Some(MaKind::Weighted)
    } else if b == seq![101u8, 109u8, 97u8] {
        Some(MaKind::Exponential)
    } else if b == seq![100u8, 101u8, 109u8, 97u8] {
        Some(MaKind::DoubleExponential)
    } else if b == seq![104u8, 109u8, 97u8] {
        Some(MaKind::Hull)
    } else if b == seq![114u8, 109u8, 97u8] {
        Some(MaKind::Relative)
    } else if b == seq![108u8, 115u8, 109u8, 97u8] {
        Some(MaKind::LeastSquares)
    } else {
        None
    }
}

/// Whether `window` is a valid window for `kind`.
pub open spec fn window_ok(kind: MaKind, window: nat) -> bool {
    &&& 0 < window <= MAX_PERIOD
    &&& (kind == MaKind::Hull ==> window >= 2)
}

/// Whether `window` is a valid window for `kind`.
pub fn valid_window(kind: MaKind, window: usize) -> (r: bool)
    ensures
        r == window_ok(kind, window as nat),
{
    0 < window && window <= MAX_PERIOD && (kind != MaKind::Hull || window >= 2)
}

/// The window of the outer average of a Hull average over `n`.
pub open spec fn hull_sqrt(n: nat) -> nat {
    choose|s: nat| is_isqrt(s as int, n as int)
}

/// What a moving average of `kind` over `n` returns after the values of `h`.
pub open spec fn ma_output(kind: MaKind, h: Seq<Option<i64>>, n: nat) -> Option<int> {
    match kind {
        MaKind::Simple => sma_output(h, n),
        MaKind::Weighted => wma_output(h, n),
        MaKind::Exponential => smoothed_output(h, n as int, false),
        MaKind::DoubleExponential => dema_output(h, n as int),
        MaKind::Hull => hma_output(h, n, hull_sqrt(n)),
        MaKind::Relative => smoothed_output(h, n as int, true),
        MaKind::LeastSquares => lsma_output(h, n),
    }
}

proof fn lemma_isqrt_unique(a: int, b: int, n: int)
    requires
        a >= 0,
        b >= 0,
        is_isqrt(a, n),
        is_isqrt(b, n),
    ensures
        a == b,
{
    if a < b {
        assert((a + 1) * (a + 1) <= b * b) by (nonlinear_arith)
            requires
                0 <= a < b,
        ;
    }
    if b < a {
        assert((b + 1) * (b + 1) <= a * a) by (nonlinear_arith)
            requires
                0 <= b < a,
        ;
    }
}

/// `b` spells exactly the given bytes.
fn spells(b: &[u8], word: &[u8]) -> (r: bool)
    ensures
        r == (b@ == word@),
{
    if b.len() != word.len() {
        return false;
    }
    let mut i: usize = 0;
    while i < b.len()
        invariant
            b@.len() == word@.len(),
            i <= b@.len(),
            forall|j: int| 0 <= j < i ==> b@[j] == word@[j],
        decreases b@.len() - i,
    {
        if b[i] != word[i] {
            return false;
        }
        i = i + 1;
    }
    assert(b@ =~= word@);
    true
}

/// The kind that `name` selects, or `None` for a name that selects none.
pub fn kind_from_name(name: &str) -> (r: Option<MaKind>)
    ensures
        r == kind_named(name.spec_bytes()),
{
    let b = name.as_bytes();
    let sma: [u8; 3] = [115, 109, 97];
    let wma: [u8; 3] = [119, 109, 97];
    let ema: [u8; 3] = [101, 109, 97];
    let dema: [u8; 4] = [100, 101, 109, 97];
    let hma: [u8; 3] = [104, 109, 97];
    let rma: [u8; 3] = [114, 109, 97];
    let lsma: [u8; 4] = [108, 115, 109, 97];
    assert(sma@ =~= seq![115u8, 109u8, 97u8]);
    assert(wma@ =~= seq![119u8, 109u8, 97u8]);
    assert(ema@ =~= seq![101u8, 109u8, 97u8]);
    assert(dema@ =~= seq![100u8, 101u8, 109u8, 97u8]);
    assert(hma@ =~= seq![104u8, 109u8, 97u8]);
    assert(rma@ =~= seq![114u8, 109u8, 97u8]);
    assert(lsma@ =~= seq![108u8, 115u8, 109u8, 97u8]);
    if spells(b, sma.as_slice()) {
        Some(MaKind::Simple)
    } else if spells(b, wma.as_slice()) {
        Some(MaKind::Weighted)
    } else if spells(b, ema.as_slice()) {
        Some(MaKind::Exponential)
    } else if spells(b, dema.as_slice()) {
        Some(MaKind::DoubleExponential)
    } else if spells(b, hma.as_slice()) {
        Some(MaKind::Hull)
    } else if spells(b, rma.as_slice()) {
        Some(MaKind::Relative)
    } else if spells(b, lsma.as_slice()) {
        Some(MaKind::LeastSquares)
    } else {
        None
    }
}

enum MAType {
    Simple(SMA),
    Weighted(WMA),
    Exponential(EMA),
    DoubleExponential(DEMA),
    Hull(HMA),
    Relative(RMA),
    LeastSquares(LSMA),
}

/// A moving average whose kind is chosen by name when it is built.
pub struct MA {
    inner: MAType,
}

impl MA {
    pub closed spec fn kind(&self) -> MaKind {
        match self.inner {
            MAType::Simple(_) => MaKind::Simple,
            MAType::Weighted(_) => MaKind::Weighted,
            MAType::Exponential(_) => MaKind::Exponential,
            MAType::DoubleExponential(_) => MaKind::DoubleExponential,
            MAType::Hull(_) => MaKind::Hull,
            MAType::Relative(_) => MaKind::Relative,
            MAType::LeastSquares(_) => MaKind::LeastSquares,
        }
    }

    /// Every value pushed so far.
    pub closed spec fn history(&self) -> Seq<Option<i64>> {
        match self.inner {
            MAType::Simple(m) => m.history(),
            MAType::Weighted(m) => m.history(),
            MAType::Exponential(m) => m.history(),
            MAType::DoubleExponential(m) => m.history(),
            MAType::Hull(m) => m.history(),
            MAType::Relative(m) => m.history(),
            MAType::LeastSquares(m) => m.history(),
        }
    }

    pub closed spec fn period(&self) -> nat {
        match self.inner {
            MAType::Simple(m) => m.period(),
            MAType::Weighted(m) => m.period(),
            MAType::Exponential(m) => m.period(),
            MAType::DoubleExponential(m) => m.period(),
            MAType::Hull(m) => m.period(),
            MAType::Relative(m) => m.period(),
            MAType::LeastSquares(m) => m.period(),
        }
    }

    pub closed spec fn wf(&self) -> bool {
        match self.inner {
            MAType::Simple(m) => m.wf(),
            MAType::Weighted(m) => m.wf(),
            MAType::Exponential(m) => m.wf(),
            MAType::DoubleExponential(m) => m.wf(),
            MAType::Hull(m) => m.wf(),
            MAType::Relative(m) => m.wf(),
            MAType::LeastSquares(m) => m.wf(),
        }
    }

    /// The average named `method` over `window`. An unknown name, or a window
    /// that the kind cannot take, is a configuration error: callers check the
    /// name with `kind_from_name` and the window with `window_ok` first.
    pub fn new(window: usize, method: &str) -> (r: Self)
        requires
            kind_named(method.spec_bytes()) is Some,
            window_ok(kind_named(method.spec_bytes()).unwrap(), window as nat),
        ensures
            r.wf(),
            r.kind() == kind_named(method.spec_bytes()).unwrap(),
            r.period() == window,
            r.history() == Seq::<Option<i64>>::empty(),
    {
        let kind = match kind_from_name(method) {
            Some(k) => k,
            None => vstd::pervasive::unreached(),
        };
        let inner = match kind {
            MaKind::Simple => MAType::Simple(SMA::new(window)),
            MaKind::Weighted => MAType::Weighted(WMA::new(window)),
            MaKind::Exponential => MAType::Exponential(EMA::new(window)),
            MaKind::DoubleExponential => MAType::DoubleExponential(DEMA::new(window)),
            MaKind::Hull => MAType::Hull(HMA::new(window)),
            MaKind::Relative => MAType::Relative(RMA::new(window)),
            MaKind::LeastSquares => MAType::LeastSquares(LSMA::new(window)),
        };
        MA { inner }
    }

    /// Pushes `new_val` into the selected average and returns its output.
    pub fn update(&mut self, new_val: Option<i64>) -> (r: Option<i64>)
        requires
            old(self).wf(),
        ensures
            final(self).wf(),
            final(self).kind() == old(self).kind(),
            final(self).period() == old(self).period(),
            final(self).history() == old(self).history().push(new_val),
            opt_int(r) == ma_output(final(self).kind(), final(self).history(), final(self).period()),
    {
        match &mut self.inner {
            MAType::Simple(m) => m.update(new_val),
            MAType::Weighted(m) => m.update(new_val),
            MAType::Exponential(m) => m.update(new_val),
            MAType::DoubleExponential(m) => m.update(new_val),
            MAType::Hull(m) => {
                let r = m.update(new_val);
                proof {
                    let n = m.period();
                    let s = m.sqrt_period();
                    assert(is_isqrt(s as int, n as int));
                    lemma_isqrt_unique(s as int, hull_sqrt(n) as int, n as int);
                }
                r
            },
            MAType::Relative(m) => m.update(new_val),
            MAType::LeastSquares(m) => m.update(new_val),
        }
    }
}

} // verus!

verus! {

/// The outputs of a moving average of `kind` over `n` after each prefix of `h`.
pub open spec fn ma_outputs(kind: MaKind, h: Seq<Option<i64>>, n: nat) -> Seq<Option<i64>> {
    Seq::new(h.len(), |i: int| to_i64(ma_output(kind, h.take(i + 1), n)))
}

/// Pushing one value extends the outputs by what the average returned.
pub proof fn lemma_ma_outputs_push(kind: MaKind, h: Seq<Option<i64>>, n: nat, v: Option<i64>, r: Option<i64>)
    requires
        opt_int(r) == ma_output(kind, h.push(v), n),
    ensures
        ma_outputs(kind, h.push(v), n) == ma_outputs(kind, h, n).push(r),
{
    let h2 = h.push(v);
    assert(h2.take(h2.len() as int) =~= h2);
    assert forall|i: int| 0 <= i < h.len() implies #[trigger] h2.take(i + 1) == h.take(i + 1) by {
        lemma_take_push(h, v, i);
    }
    assert(ma_outputs(kind, h2, n) =~= ma_outputs(kind, h, n).push(r));
}

} // verus!

verus! {

/// `1^2 + 2^2 + ... + n^2`.
pub open spec fn sq_sum(n: nat) -> nat
    decreases n,
{
    if n == 0 {
        0
    } else {
        sq_sum((n - 1) as nat) + n * n
    }
}

proof fn lemma_sq_sum(n: nat)
    ensures
        6 * sq_sum(n) == (n as int) * (n as int + 1) * (2 * n as int + 1),
    decreases n,
{
    if n > 0 {
        let m = (n - 1) as nat;
        lemma_sq_sum(m);
        let a = sq_sum(m) as int;
        let b = sq_sum(n) as int;
        let k = n as int;
        assert(b == a + k * k);
        assert(6 * b == k * (k + 1) * (2 * k + 1)) by (nonlinear_arith)
            requires
                6 * a == (k - 1) * k * (2 * k - 1),
                b == a + k * k,
        ;
    } else {
        assert((n as int) * (n as int + 1) * (2 * n as int + 1) == 0) by (nonlinear_arith)
            requires
                n == 0,
        ;
    }
}

/// The least-squares line through the points `(i + 1, w[i])` of an all-present
/// window, evaluated at its newest point `x = n`, as a fraction `(num, den)`:
/// with `sx = sum x`, `sxx = sum x^2`, `S = sum y` and `ws = sum x*y`, the slope
/// is `(n*ws - sx*S) / (n*sxx - sx^2)` and the intercept `(S - slope*sx) / n`.
pub open spec fn least_squares_at_last(w: Seq<Option<i64>>) -> (int, int) {
    let n = w.len() as int;
    let sx = tri(w.len()) as int;
    let sxx = sq_sum(w.len()) as int;
    let s = present_sum(w);
    let ws = weighted_sum(w);
    let a = n * ws - sx * s;
    let b = n * sxx - sx * sx;
    (s * b - a * sx + a * n * n, n * b)
}

/// The value that `LSMA` keeps up incrementally is the least-squares fit of
/// the window, evaluated at its newest point and rounded down.
pub proof fn lemma_lsma_is_least_squares(w: Seq<Option<i64>>)
    requires
        w.len() > 1,
    ensures
        least_squares_at_last(w).1 > 0,
        (6 * weighted_sum(w) - 2 * (w.len() + 1) * present_sum(w)) / ((w.len() * (w.len() + 1)) as int)
            == least_squares_at_last(w).0 / least_squares_at_last(w).1,
{
    let n = w.len() as int;
    let s = present_sum(w);
    let ws = weighted_sum(w);
    let sx = tri(w.len()) as int;
    let sxx = sq_sum(w.len()) as int;
    lemma_tri(w.len());
    lemma_sq_sum(w.len());
    let a = n * ws - sx * s;
    let b = n * sxx - sx * sx;
    let k = n * n * (n + 1) * (n - 1);
    assert(12 * b == k) by (nonlinear_arith)
        requires
            2 * sx == n * (n + 1),
            6 * sxx == n * (n + 1) * (2 * n + 1),
            b == n * sxx - sx * sx,
            k == n * n * (n + 1) * (n - 1),
    ;
    assert(k > 0) by (nonlinear_arith)
        requires
            k == n * n * (n + 1) * (n - 1),
            n > 1,
    ;
    let p = 6 * ws - 2 * (n + 1) * s;
    let q = n * (n + 1);
    let m = n * n - sx;
    let p2 = s * b - a * sx + a * n * n;
    let q2 = n * b;
    assert(p * n == s * q + 6 * a) by (nonlinear_arith)
        requires
            p == 6 * ws - 2 * (n + 1) * s,
            q == n * (n + 1),
            a == n * ws - sx * s,
            2 * sx == n * (n + 1),
    ;
    assert(k == q * (n * (n - 1))) by (nonlinear_arith)
        requires
            k == n * n * (n + 1) * (n - 1),
            q == n * (n + 1),
    ;
    assert(2 * m == n * (n - 1)) by (nonlinear_arith)
        requires
            m == n * n - sx,
            2 * sx == n * (n + 1),
    ;
    assert(p2 == s * b + a * m) by (nonlinear_arith)
        requires
            p2 == s * b - a * sx + a * n * n,
            m == n * n - sx,
    ;
    assert(12 * (p * q2) == (p * n) * k) by (nonlinear_arith)
        requires
            q2 == n * b,
            12 * b == k,
    ;
    assert(12 * (p2 * q) == s * k * q + 6 * a * (n * (n - 1)) * q) by (nonlinear_arith)
        requires
            p2 == s * b + a * m,
            12 * b == k,
            2 * m == n * (n - 1),
    ;
    assert((p * n) * k == s * q * k + 6 * a * k) by (nonlinear_arith)
        requires
            p * n == s * q + 6 * a,
    ;
    assert(6 * a * k == 6 * a * (n * (n - 1)) * q) by (nonlinear_arith)
        requires
            k == q * (n * (n - 1)),
    ;
    assert(b > 0);
    assert(q > 0 && q2 > 0) by (nonlinear_arith)
        requires
            q == n * (n + 1),
            q2 == n * b,
            n > 1,
            b > 0,
    ;
    assert(p * q2 == p2 * q) by (nonlinear_arith)
        requires
            12 * (p * q2) == (p * n) * k,
            (p * n) * k == s * q * k + 6 * a * k,
            6 * a * k == 6 * a * (n * (n - 1)) * q,
            12 * (p2 * q) == s * k * q + 6 * a * (n * (n - 1)) * q,
    ;
    crate::ratio::lemma_floor_of_equal_fractions(p, q, p2, q2);
}

} // verus!
