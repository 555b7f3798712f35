use vstd::prelude::*;
use vstd::string::StringSliceAdditionalSpecFns;

use crate::ma::{fit, kind_named, ma_output, opt_int, to_i64, window_ok, MaKind, MA};

verus! {

/// The true range of a bar: the largest of `high - low`, `|high - preclose|`
/// and `|low - preclose|`; `high - low` alone when the previous close is
/// missing; `None` when it leaves 64 bits.
pub open spec fn true_range(high: Option<i64>, low: Option<i64>, preclose: Option<i64>) -> Option<i64> {
    match (high, low) {
        (Some(h), Some(l)) => {
            let hl = h - l;
            let r = match preclose {
                Some(c) => {
                    let a = if h >= c {
                        h - c
                    } else {
                        c - h
                    };
                    let b = if l >= c {
                        l - c
                    } else {
                        c - l
                    };
                    let m = if a > hl {
                        a
                    } else {
                        hl
                    };
                    if b > m {
                        b
                    } else {
                        m
                    }
                },
                None => hl,
            };
            to_i64(fit(r))
        },
        _ => None,
    }
}

/// Average true range: a moving average of the true range.
pub struct ATR {
    smooth_ma: MA,
}

impl ATR {
    /// The true ranges pushed so far.
    pub closed spec fn true_ranges(&self) -> Seq<Option<i64>> {
        self.smooth_ma.history()
    }

    pub closed spec fn kind(&self) -> MaKind {
        self.smooth_ma.kind()
    }

    pub closed spec fn period(&self) -> nat {
        self.smooth_ma.period()
    }

    pub closed spec fn wf(&self) -> bool {
        self.smooth_ma.wf()
    }

    /// Averages with the moving average named `ma_type` over `ma_period`,
    /// which must name a kind that takes that window.
    pub fn new(ma_period: usize, ma_type: &str) -> (r: Self)
        requires
            kind_named(ma_type.spec_bytes()) is Some,
            window_ok(kind_named(ma_type.spec_bytes()).unwrap(), ma_period as nat),
        ensures
            r.wf(),
            r.kind() == kind_named(ma_type.spec_bytes()).unwrap(),
            r.period() == ma_period,
            r.true_ranges() == Seq::<Option<i64>>::empty(),
    {
        ATR { smooth_ma: MA::new(ma_period, ma_type) }
    }

    pub fn update(&mut self, high: Option<i64>, low: Option<i64>, preclose: Option<i64>) -> (r: Option<i64>)
        requires
            old(self).wf(),
        ensures
            final(self).wf(),
            final(self).kind() == old(self).kind(),
            final(self).period() == old(self).period(),
            final(self).true_ranges() == old(self).true_ranges().push(true_range(high, low, preclose)),
            opt_int(r) == ma_output(final(self).kind(), final(self).true_ranges(), final(self).period()),
    {
        let tr: Option<i64> = match (high, low) {
            (Some(h), Some(l)) => {
                let hl = h as i128 - l as i128;
                let m = match preclose {
                    Some(c) => {
                        let a = if h >= c {
                            h as i128 - c as i128
                        } else {
                            c as i128 - h as i128
                        };
                        let b = if l >= c {
                            l as i128 - c as i128
                        } else {
                            c as i128 - l as i128
                        };
                        let m = if a > hl {
                            a
                        } else {
                            hl
                        };
                        if b > m {
                            b
                        } else {
                            m
                        }
                    },
                    None => hl,
                };
                if i64::MIN as i128 <= m && m <= i64::MAX as i128 {
                    Some(m as i64)
                } else {
                    None
                }
            },
            _ => None,
        };
        self.smooth_ma.update(tr)
    }
}

} // verus!
