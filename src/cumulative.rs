use vstd::prelude::*;

use vstd::multiset::Multiset;

use crate::ratio::Ratio;
use crate::sorted::{insert_sorted, present_ms, quantile, quantile_num, sorted};

verus! {

broadcast use {vstd::seq_lib::group_to_multiset_ensures, vstd::multiset::group_multiset_axioms};

/// The largest present value of `h` (`larger`), or the smallest.
pub open spec fn extreme(h: Seq<Option<i64>>, larger: bool) -> Option<int>
    decreases h.len(),
{
    if h.len() == 0 {
        None
    } else {
        let prev = extreme(h.drop_last(), larger);
        match h.last() {
            None => prev,
            Some(v) => match prev {
                None => Some(v as int),
                Some(m) => Some(
                    if (larger && v > m) || (!larger && v < m) {
                        v as int
                    } else {
                        m
                    },
                ),
            },
        }
    }
}

/// `init` folded with the present values of `h` by min (`larger` false) or max.
pub open spec fn fold_extreme(h: Seq<Option<i64>>, init: int, larger: bool) -> int
    decreases h.len(),
{
    if h.len() == 0 {
        init
    } else {
        let m = fold_extreme(h.drop_last(), init, larger);
        match h.last() {
            None => m,
            Some(v) => if (larger && v > m) || (!larger && v < m) {
                v as int
            } else {
                m
            },
        }
    }
}

/// The sum of the present values of `h`.
pub open spec fn total(h: Seq<Option<i64>>) -> int
    decreases h.len(),
{
    if h.len() == 0 {
        0
    } else {
        total(h.drop_last()) + match h.last() {
            Some(v) => v as int,
            None => 0,
        }
    }
}

/// The median of sorted, non-empty `s`: the middle value, or the mean of the
/// two middle values.
pub open spec fn median_of(s: Seq<i64>) -> Ratio {
    let mid = (s.len() / 2) as int;
    if s.len() % 2 == 0 {
        Ratio { num: (s[mid - 1] + s[mid]) as i128, den: 2 }
    } else {
        Ratio { num: s[mid] as i128, den: 1 }
    }
}

proof fn lemma_push(h: Seq<Option<i64>>, v: Option<i64>)
    ensures
        h.push(v).drop_last() == h,
        h.push(v).last() == v,
{
    assert(h.push(v).drop_last() =~= h);
}

/// The running maximum or minimum.
struct Extreme {
    larger: bool,
    value: Option<i64>,
    history: Ghost<Seq<Option<i64>>>,
}

impl Extreme {
    spec fn wf(&self) -> bool {
        match self.value {
            Some(v) => extreme(self.history@, self.larger) == Some(v as int),
            None => extreme(self.history@, self.larger) is None,
        }
    }

    fn update(&mut self, new_val: Option<i64>) -> (r: Option<i64>)
        requires
            old(self).wf(),
        ensures
            final(self).wf(),
            final(self).larger == old(self).larger,
            final(self).history@ == old(self).history@.push(new_val),
            r == final(self).value,
    {
        proof {
            lemma_push(self.history@, new_val);
        }
        self.history = Ghost(self.history@.push(new_val));
        if let Some(v) = new_val {
            self.value = match self.value {
                None => Some(v),
                Some(m) => if (self.larger && v > m) || (!self.larger && v < m) {
                    Some(v)
                } else {
                    Some(m)
                },
            };
        }
        self.value
    }
}

/// The largest value seen so far; `None` before the first present value.
pub struct CumMax {
    inner: Extreme,
}

impl CumMax {
    /// Every value pushed so far.
    pub closed spec fn history(&self) -> Seq<Option<i64>> {
        self.inner.history@
    }

    pub closed spec fn wf(&self) -> bool {
        self.inner.wf() && self.inner.larger
    }

    pub fn new() -> (r: Self)
        ensures
            r.wf(),
            r.history() == Seq::<Option<i64>>::empty(),
    {
        CumMax { inner: Extreme { larger: true, value: None, history: Ghost(Seq::empty()) } }
    }

    pub fn update(&mut self, new_val: Option<i64>) -> (r: Option<i64>)
        requires
            old(self).wf(),
        ensures
            final(self).wf(),
            final(self).history() == old(self).history().push(new_val),
            r is Some <==> extreme(final(self).history(), true) is Some,
            r is Some ==> r.unwrap() == extreme(final(self).history(), true).unwrap(),
    {
        self.inner.update(new_val)
    }
}

/// The smallest value seen so far; `None` before the first present value.
pub struct CumMin {
    inner: Extreme,
}

impl CumMin {
    /// Every value pushed so far.
    pub closed spec fn history(&self) -> Seq<Option<i64>> {
        self.inner.history@
    }

    pub closed spec fn wf(&self) -> bool {
        self.inner.wf() && !self.inner.larger
    }

    pub fn new() -> (r: Self)
        ensures
            r.wf(),
            r.history() == Seq::<Option<i64>>::empty(),
    {
        CumMin { inner: Extreme { larger: false, value: None, history: Ghost(Seq::empty()) } }
    }

    pub fn update(&mut self, new_val: Option<i64>) -> (r: Option<i64>)
        requires
            old(self).wf(),
        ensures
            final(self).wf(),
            final(self).history() == old(self).history().push(new_val),
            r is Some <==> extreme(final(self).history(), false) is Some,
            r is Some ==> r.unwrap() == extreme(final(self).history(), false).unwrap(),
    {
        self.inner.update(new_val)
    }
}

/// The running minimum and maximum, starting from given bounds.
pub struct CumMinMax {
    min: i64,
    max: i64,
    init_min: Ghost<int>,
    init_max: Ghost<int>,
    history: Ghost<Seq<Option<i64>>>,
}

impl CumMinMax {
    /// Every value pushed so far.
    pub closed spec fn history(&self) -> Seq<Option<i64>> {
        self.history@
    }

    pub closed spec fn init_min(&self) -> int {
        self.init_min@
    }

    pub closed spec fn init_max(&self) -> int {
        self.init_max@
    }

    pub closed spec fn wf(&self) -> bool {
        &&& self.min == fold_extreme(self.history@, self.init_min@, false)
        &&& self.max == fold_extreme(self.history@, self.init_max@, true)
    }

    pub fn new(init_min: i64, init_max: i64) -> (r: Self)
        ensures
            r.wf(),
            r.init_min() == init_min,
            r.init_max() == init_max,
            r.history() == Seq::<Option<i64>>::empty(),
    {
        CumMinMax {
            min: init_min,
            max: init_max,
            init_min: Ghost(init_min as int),
            init_max: Ghost(init_max as int),
            history: Ghost(Seq::empty()),
        }
    }

    /// Pushes `new_val`; returns the running (minimum, maximum).
    pub fn update(&mut self, new_val: Option<i64>) -> (r: (i64, i64))
        requires
            old(self).wf(),
        ensures
            final(self).wf(),
            final(self).init_min() == old(self).init_min(),
            final(self).init_max() == old(self).init_max(),
            final(self).history() == old(self).history().push(new_val),
            r.0 == fold_extreme(final(self).history(), final(self).init_min(), false),
            r.1 == fold_extreme(final(self).history(), final(self).init_max(), true),
    {
        proof {
            lemma_push(self.history@, new_val);
        }
        self.history = Ghost(self.history@.push(new_val));
        if let Some(v) = new_val {
            if v < self.min {
                self.min = v;
            }
            if v > self.max {
                self.max = v;
            }
        }
        (self.min, self.max)
    }
}

/// The mean of the present values seen so far.
pub struct CumMean {
    count: usize,
    sum: i128,
    history: Ghost<Seq<Option<i64>>>,
}

impl CumMean {
    /// Every value pushed so far.
    pub closed spec fn history(&self) -> Seq<Option<i64>> {
        self.history@
    }

    pub closed spec fn wf(&self) -> bool {
        &&& self.count == present_ms(self.history@).len()
        &&& self.sum == total(self.history@)
        &&& -(self.count * 0x8000_0000_0000_0000) <= self.sum <= self.count * 0x7fff_ffff_ffff_ffff
    }

    pub fn new() -> (r: Self)
        ensures
            r.wf(),
            r.history() == Seq::<Option<i64>>::empty(),
    {
        CumMean { count: 0, sum: 0, history: Ghost(Seq::empty()) }
    }

    /// Pushes `new_val`; returns (sum of present values) / (their number), or
    /// `None` before the first present value.
    pub fn update(&mut self, new_val: Option<i64>) -> (r: Option<Ratio>)
        requires
            old(self).wf(),
            present_ms(old(self).history()).len() < usize::MAX,
        ensures
            final(self).wf(),
            final(self).history() == old(self).history().push(new_val),
            r is Some <==> present_ms(final(self).history()).len() > 0,
            r is Some ==> r.unwrap().num == total(final(self).history()) && r.unwrap().den == present_ms(
                final(self).history(),
            ).len(),
    {
        proof {
            lemma_push(self.history@, new_val);
        }
        self.history = Ghost(self.history@.push(new_val));
        if let Some(v) = new_val {
            self.count = self.count + 1;
            self.sum = self.sum + v as i128;
        }
        if self.count == 0 {
            None
        } else {
            Some(Ratio { num: self.sum, den: self.count as i128 })
        }
    }
}

/// The median of the present values seen so far.
pub struct CumMedian {
    values: Vec<i64>,
    history: Ghost<Seq<Option<i64>>>,
}

impl CumMedian {
    /// Every value pushed so far.
    pub closed spec fn history(&self) -> Seq<Option<i64>> {
        self.history@
    }

    /// The present values seen so far, in ascending order.
    pub closed spec fn values(&self) -> Seq<i64> {
        self.values@
    }

    pub closed spec fn wf(&self) -> bool {
        &&& sorted(self.values@)
        &&& self.values@.to_multiset() == present_ms(self.history@)
    }

    pub fn new() -> (r: Self)
        ensures
            r.wf(),
            r.history() == Seq::<Option<i64>>::empty(),
    {
        let r = CumMedian { values: Vec::new(), history: Ghost(Seq::empty()) };
        assert(r.values@.to_multiset() =~= Multiset::empty());
        r
    }

    /// Pushes `new_val`; returns the median of the present values, or `None`
    /// before the first one.
    pub fn update(&mut self, new_val: Option<i64>) -> (r: Option<Ratio>)
        requires
            old(self).wf(),
        ensures
            final(self).wf(),
            final(self).history() == old(self).history().push(new_val),
            sorted(final(self).values()),
            final(self).values().to_multiset() == present_ms(final(self).history()),
            r is Some <==> final(self).values().len() > 0,
            r is Some ==> r.unwrap() == median_of(final(self).values()),
    {
        proof {
            lemma_push(self.history@, new_val);
        }
        self.history = Ghost(self.history@.push(new_val));
        if let Some(v) = new_val {
            insert_sorted(&mut self.values, v);
        }
        let n = self.values.len();
        if n == 0 {
            None
        } else if n % 2 == 0 {
            let mid = n / 2;
            Some(Ratio { num: self.values[mid - 1] as i128 + self.values[mid] as i128, den: 2 })
        } else {
            Some(Ratio { num: self.values[n / 2] as i128, den: 1 })
        }
    }
}

/// The `q_num / q_den` quantile of the present values seen so far.
pub struct CumQuantile {
    q_num: u32,
    q_den: u32,
    dataset: Vec<i64>,
    history: Ghost<Seq<Option<i64>>>,
}

impl CumQuantile {
    /// Every value pushed so far.
    pub closed spec fn history(&self) -> Seq<Option<i64>> {
        self.history@
    }

    /// The present values seen so far, in ascending order.
    pub closed spec fn values(&self) -> Seq<i64> {
        self.dataset@
    }

    pub closed spec fn q_num(&self) -> int {
        self.q_num as int
    }

    pub closed spec fn q_den(&self) -> int {
        self.q_den as int
    }

    pub closed spec fn wf(&self) -> bool {
        &&& sorted(self.dataset@)
        &&& self.dataset@.to_multiset() == present_ms(self.history@)
        &&& 0 < self.q_den
        &&& self.q_num <= self.q_den
    }

    /// The quantile `q_num / q_den`, a fraction in `[0, 1]`.
    pub fn new(q_num: u32, q_den: u32) -> (r: Self)
        requires
            0 < q_den,
            q_num <= q_den,
        ensures
            r.wf(),
            r.q_num() == q_num,
            r.q_den() == q_den,
            r.history() == Seq::<Option<i64>>::empty(),
    {
        let r = CumQuantile { q_num, q_den, dataset: Vec::new(), history: Ghost(Seq::empty()) };
        assert(r.dataset@.to_multiset() =~= Multiset::empty());
        r
    }

    /// Pushes `new_val`; returns the quantile of the present values,
    /// interpolated linearly, or `None` before the first one.
    pub fn update(&mut self, new_val: Option<i64>) -> (r: Option<Ratio>)
        requires
            old(self).wf(),
        ensures
            final(self).wf(),
            final(self).q_num() == old(self).q_num(),
            final(self).q_den() == old(self).q_den(),
            final(self).history() == old(self).history().push(new_val),
            sorted(final(self).values()),
            final(self).values().to_multiset() == present_ms(final(self).history()),
            r is Some <==> final(self).values().len() > 0,
            r is Some ==> r.unwrap().num == quantile_num(final(self).values(), final(self).q_num(), final(self).q_den())
                && r.unwrap().den == final(self).q_den(),
    {
        proof {
            lemma_push(self.history@, new_val);
        }
        self.history = Ghost(self.history@.push(new_val));
        if let Some(v) = new_val {
            insert_sorted(&mut self.dataset, v);
        }
        if self.dataset.len() == 0 {
            None
        } else {
            Some(quantile(&self.dataset, self.q_num, self.q_den))
        }
    }
}

} // verus!
