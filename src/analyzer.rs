use vstd::prelude::*;

use crate::ratio::{is_fraction, Ratio};

verus! {

/// The largest of `c[0..=j]`.
pub open spec fn prefix_max(c: Seq<i64>, j: int) -> int
    decreases j,
{
    if j <= 0 {
        c[0] as int
    } else if c[j] > prefix_max(c, j - 1) {
        c[j] as int
    } else {
        prefix_max(c, j - 1)
    }
}

/// The smallest of `c[0..=j]`.
pub open spec fn prefix_min(c: Seq<i64>, j: int) -> int
    decreases j,
{
    if j <= 0 {
        c[0] as int
    } else if c[j] < prefix_min(c, j - 1) {
        c[j] as int
    } else {
        prefix_min(c, j - 1)
    }
}

/// `r` is at least `a / b`, for `b > 0` and `r.den > 0`.
pub open spec fn at_least(r: Ratio, a: int, b: int) -> bool {
    r.num * b >= a * r.den
}

/// The relative decline at step `j` from the highest value up to `j`
/// (a peak that is not positive gives no measurable decline).
pub open spec fn drawdown_bounded_by(c: Seq<i64>, r: Ratio, j: int) -> bool {
    prefix_max(c, j) > 0 ==> at_least(r, prefix_max(c, j) - c[j], prefix_max(c, j))
}

/// The relative rise at step `j` from the lowest value up to `j`.
pub open spec fn drawup_bounded_by(c: Seq<i64>, r: Ratio, j: int) -> bool {
    prefix_min(c, j) > 0 ==> at_least(r, c[j] - prefix_min(c, j), prefix_min(c, j))
}

/// An append-only record of portfolio values and statistics over it.
pub struct Analyzer {
    equity_curve: Vec<i64>,
}

impl View for Analyzer {
    type V = Seq<i64>;

    closed spec fn view(&self) -> Seq<i64> {
        self.equity_curve@
    }
}

impl Analyzer {
    pub fn new() -> (r: Self)
        ensures
            r@ == Seq::<i64>::empty(),
    {
        Analyzer { equity_curve: Vec::new() }
    }

    /// Appends one portfolio value.
    pub fn update(&mut self, portfolio_value: i64)
        ensures
            final(self)@ == old(self)@.push(portfolio_value),
    {
        self.equity_curve.push(portfolio_value);
    }

    /// How many values are recorded.
    pub(crate) fn len(&self) -> (r: usize)
        ensures
            r == self@.len(),
    {
        self.equity_curve.len()
    }

    /// The recorded values, oldest first.
    pub fn equity_curve(&self) -> (r: Vec<i64>)
        ensures
            r@ == self@,
    {
        self.equity_curve.clone()
    }

    /// `(last - first) / first`; zero for an empty curve, `None` when the first
    /// value is zero.
    pub fn total_return(&self) -> (r: Option<Ratio>)
        ensures
            self@.len() == 0 ==> r == Some(Ratio { num: 0, den: 1 }),
            self@.len() > 0 && self@[0] == 0 ==> r is None,
            self@.len() > 0 && self@[0] != 0 ==> r is Some && is_fraction(
                r.unwrap(),
                self@.last() - self@[0],
                self@[0] as int,
            ),
    {
        let n = self.equity_curve.len();
        if n == 0 {
            return Some(Ratio { num: 0, den: 1 });
        }
        let first = self.equity_curve[0] as i128;
        let last = self.equity_curve[n - 1] as i128;
        Ratio::of_quotient(last - first, first)
    }

    /// The largest relative decline from a running peak: at least each step's
    /// decline, and equal to one of them (zero when there is none).
    pub fn max_drawdown(&self) -> (r: Ratio)
        ensures
            r.den > 0,
            forall|j: int| 0 <= j < self@.len() ==> drawdown_bounded_by(self@, r, j),
            r == (Ratio { num: 0, den: 1 }) || exists|j: int|
                0 <= j < self@.len() && prefix_max(self@, j) > 0 && r.num == prefix_max(self@, j)
                    - self@[j] && r.den == prefix_max(self@, j),
    {
        let ghost c = self@;
        let n = self.equity_curve.len();
        let mut best = Ratio { num: 0, den: 1 };
        if n == 0 {
            return best;
        }
        let mut running_max: i64 = self.equity_curve[0];
        assert(drawdown_bounded_by(c, best, 0));
        let mut i: usize = 1;
        while i < n
            invariant
                c == self@,
                n == c.len(),
                1 <= i <= n,
                running_max == prefix_max(c, i - 1),
                0 < best.den < 0x8000_0000_0000_0000,
                0 <= best.num < 0x1_0000_0000_0000_0000,
                forall|j: int| 0 <= j < i ==> drawdown_bounded_by(c, best, j),
                best == (Ratio { num: 0, den: 1 }) || exists|j: int|
                    0 <= j < c.len() && prefix_max(c, j) > 0 && best.num == prefix_max(c, j) - c[j]
                        && best.den == prefix_max(c, j),
            decreases n - i,
        {
            let v = self.equity_curve[i];
            assert(prefix_max(c, i as int) == if v > running_max {
                v as int
            } else {
                running_max as int
            });
            if v > running_max {
                running_max = v;
                if v > 0 {
                    assert(best.num * v >= 0) by (nonlinear_arith)
                        requires
                            best.num >= 0,
                            v > 0,
                    ;
                }
            } else if running_max > 0 {
                let num = running_max as i128 - v as i128;
                let den = running_max as i128;
                proof {
                    lemma_cross_bound(num, best.den);
                    lemma_cross_bound(best.num, den);
                }
                let a = num * best.den;
                let b = best.num * den;
                if a > b {
                    let ghost old_best = best;
                    best = Ratio { num, den };
                    assert forall|j: int| 0 <= j <= i implies drawdown_bounded_by(c, best, j) by {
                        if j < i && prefix_max(c, j) > 0 {
                            assert(drawdown_bounded_by(c, old_best, j));
                            lemma_at_least_trans(old_best, best, prefix_max(c, j) - c[j], prefix_max(c, j));
                        }
                    }
                }
            }
            assert(drawdown_bounded_by(c, best, i as int));
            i = i + 1;
        }
        best
    }

    /// The largest relative rise from a running trough: at least each step's
    /// rise, and equal to one of them (zero when there is none).
    pub fn max_drawup(&self) -> (r: Ratio)
        ensures
            r.den > 0,
            forall|j: int| 0 <= j < self@.len() ==> drawup_bounded_by(self@, r, j),
            r == (Ratio { num: 0, den: 1 }) || exists|j: int|
                0 <= j < self@.len() && prefix_min(self@, j) > 0 && r.num == self@[j]
                    - prefix_min(self@, j) && r.den == prefix_min(self@, j),
    {
        let ghost c = self@;
        let n = self.equity_curve.len();
        let mut best = Ratio { num: 0, den: 1 };
        if n == 0 {
            return best;
        }
        let mut running_min: i64 = self.equity_curve[0];
        assert(drawup_bounded_by(c, best, 0));
        let mut i: usize = 1;
        while i < n
            invariant
                c == self@,
                n == c.len(),
                1 <= i <= n,
                running_min == prefix_min(c, i - 1),
                0 < best.den < 0x8000_0000_0000_0000,
                0 <= best.num < 0x1_0000_0000_0000_0000,
                forall|j: int| 0 <= j < i ==> drawup_bounded_by(c, best, j),
                best == (Ratio { num: 0, den: 1 }) || exists|j: int|
                    0 <= j < c.len() && prefix_min(c, j) > 0 && best.num == c[j] - prefix_min(c, j)
                        && best.den == prefix_min(c, j),
            decreases n - i,
        {
            let v = self.equity_curve[i];
            assert(prefix_min(c, i as int) == if v < running_min {
                v as int
            } else {
                running_min as int
            });
            if v < running_min {
                running_min = v;
                if v > 0 {
                    assert(best.num * v >= 0) by (nonlinear_arith)
                        requires
                            best.num >= 0,
                            v > 0,
                    ;
                }
            } else if running_min > 0 {
                let num = v as i128 - running_min as i128;
                let den = running_min as i128;
                proof {
                    lemma_cross_bound(num, best.den);
                    lemma_cross_bound(best.num, den);
                }
                let a = num * best.den;
                let b = best.num * den;
                if a > b {
                    let ghost old_best = best;
                    best = Ratio { num, den };
                    assert forall|j: int| 0 <= j <= i implies drawup_bounded_by(c, best, j) by {
                        if j < i && prefix_min(c, j) > 0 {
                            assert(drawup_bounded_by(c, old_best, j));
                            lemma_at_least_trans(old_best, best, c[j] - prefix_min(c, j), prefix_min(c, j));
                        }
                    }
                }
            }
            assert(drawup_bounded_by(c, best, i as int));
            i = i + 1;
        }
        best
    }
}

proof fn lemma_cross_bound(a: i128, b: i128)
    requires
        0 <= a < 0x1_0000_0000_0000_0000,
        0 < b < 0x8000_0000_0000_0000,
    ensures
        0 <= a * b < 0x7fff_ffff_ffff_ffff_ffff_ffff_ffff_ffff,
{
    assert(0 <= a * b <= 0xffff_ffff_ffff_ffff * 0x7fff_ffff_ffff_ffff) by (nonlinear_arith)
        requires
            0 <= a < 0x1_0000_0000_0000_0000,
            0 < b < 0x8000_0000_0000_0000,
    ;
}

/// If `hi` exceeds `lo` and `lo` is at least `a / b`, so is `hi`.
proof fn lemma_at_least_trans(lo: Ratio, hi: Ratio, a: int, b: int)
    requires
        lo.den > 0,
        hi.den > 0,
        b > 0,
        hi.num * lo.den > lo.num * hi.den,
        at_least(lo, a, b),
    ensures
        at_least(hi, a, b),
{
    // hi.num * b * lo.den > lo.num * hi.den * b >= a * lo.den * hi.den
    assert(hi.num * b * lo.den >= a * hi.den * lo.den) by (nonlinear_arith)
        requires
            lo.den > 0,
            hi.den > 0,
            b > 0,
            hi.num * lo.den > lo.num * hi.den,
            lo.num * b >= a * lo.den,
    ;
    assert(hi.num * b >= a * hi.den) by (nonlinear_arith)
        requires
            lo.den > 0,
            hi.num * b * lo.den >= a * hi.den * lo.den,
    ;
}

} // verus!
