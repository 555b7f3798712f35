use vstd::prelude::*;

use vstd::multiset::Multiset;

use crate::ratio::Ratio;
use crate::ring::{last_n, Container};
use crate::sorted::{insert_sorted, lemma_present_ms_first, present_ms, quantile, quantile_num, remove_sorted, sorted};

verus! {

/// The number carried by a present value; a missing one counts as zero.
pub open spec fn val(x: Option<i64>) -> int {
    match x {
        Some(v) => v as int,
        None => 0,
    }
}

pub open spec fn all_present(s: Seq<Option<i64>>) -> bool {
    forall|i: int| 0 <= i < s.len() ==> (#[trigger] s[i]) is Some
}

/// How many entries of `s` are missing.
pub open spec fn missing_count(s: Seq<Option<i64>>) -> nat
    decreases s.len(),
{
    if s.len() == 0 {
        0
    } else {
        missing_count(s.drop_last()) + if s.last() is None {
            1nat
        } else {
            0nat
        }
    }
}

/// The sum of the present entries of `s`.
pub open spec fn present_sum(s: Seq<Option<i64>>) -> int
    decreases s.len(),
{
    if s.len() == 0 {
        0
    } else {
        present_sum(s.drop_last()) + val(s.last())
    }
}

/// The largest entry of a non-empty `s`.
pub open spec fn seq_max(s: Seq<Option<i64>>) -> int
    decreases s.len(),
{
    if s.len() <= 1 {
        val(s[0])
    } else if val(s.last()) > seq_max(s.drop_last()) {
        val(s.last())
    } else {
        seq_max(s.drop_last())
    }
}

/// The smallest entry of a non-empty `s`.
pub open spec fn seq_min(s: Seq<Option<i64>>) -> int
    decreases s.len(),
{
    if s.len() <= 1 {
        val(s[0])
    } else if val(s.last()) < seq_min(s.drop_last()) {
        val(s.last())
    } else {
        seq_min(s.drop_last())
    }
}

/// How many present entries of `s` are strictly below `t`.
pub open spec fn count_below(s: Seq<Option<i64>>, t: int) -> nat
    decreases s.len(),
{
    if s.len() == 0 {
        0
    } else {
        count_below(s.drop_last(), t) + if s.last() is Some && val(s.last()) < t {
            1nat
        } else {
            0nat
        }
    }
}

pub proof fn lemma_missing_count(s: Seq<Option<i64>>)
    ensures
        missing_count(s) <= s.len(),
        missing_count(s) == 0 <==> all_present(s),
        s.len() > 0 ==> missing_count(s) == (if s[0] is None {
            1nat
        } else {
            0nat
        }) + missing_count(s.drop_first()),
    decreases s.len(),
{
    if s.len() > 0 {
        lemma_missing_count(s.drop_last());
        if s.len() > 1 {
            assert(s.drop_last().drop_first() =~= s.drop_first().drop_last());
            lemma_missing_count(s.drop_first());
        } else {
            assert(s.drop_last() =~= s.drop_first());
        }
        if missing_count(s) == 0 {
            assert forall|i: int| 0 <= i < s.len() implies (#[trigger] s[i]) is Some by {
                if i < s.len() - 1 {
                    assert(s.drop_last()[i] == s[i]);
                }
            }
        }
        if all_present(s) {
            assert(s[s.len() - 1] is Some);
            assert forall|i: int| 0 <= i < s.drop_last().len() implies (#[trigger] s.drop_last()[i]) is Some by {
                assert(s[i] is Some);
            }
        }
    }
}

pub proof fn lemma_present_sum(s: Seq<Option<i64>>)
    ensures
        -(s.len() * 0x8000_0000_0000_0000) <= present_sum(s) <= s.len() * 0x7fff_ffff_ffff_ffff,
        s.len() > 0 ==> present_sum(s) == val(s[0]) + present_sum(s.drop_first()),
    decreases s.len(),
{
    if s.len() > 0 {
        lemma_present_sum(s.drop_last());
        if s.len() > 1 {
            assert(s.drop_last().drop_first() =~= s.drop_first().drop_last());
            lemma_present_sum(s.drop_first());
        } else {
            assert(s.drop_last() =~= s.drop_first());
        }
    }
}

proof fn lemma_push_last(s: Seq<Option<i64>>, v: Option<i64>)
    ensures
        s.push(v).drop_last() == s,
        s.push(v).last() == v,
{
    assert(s.push(v).drop_last() =~= s);
}

/// The sum of the last `n` values, present only while none of them is missing.
pub struct RollingSum {
    container: Container,
    nan_count: usize,
    sum: i128,
}

impl RollingSum {
    /// Every value pushed so far.
    pub closed spec fn history(&self) -> Seq<Option<i64>> {
        self.container.history()
    }

    /// The window length.
    pub closed spec fn period(&self) -> nat {
        self.container@.len()
    }

    pub closed spec fn wf(&self) -> bool {
        &&& self.container.wf()
        &&& self.nan_count == missing_count(self.container@)
        &&& self.sum == present_sum(self.container@)
    }

    pub proof fn lemma_wf(&self)
        requires
            self.wf(),
        ensures
            0 < self.period() <= usize::MAX,
    {
        self.container.lemma_wf();
    }

    pub fn new(n: usize) -> (r: Self)
        requires
            n > 0,
        ensures
            r.wf(),
            r.period() == n,
            r.history() == Seq::<Option<i64>>::empty(),
    {
        let container = Container::new(n);
        let r = RollingSum { container, nan_count: n, sum: 0 };
        proof {
            lemma_missing_count(r.container@);
            lemma_present_sum(r.container@);
            assert(missing_count(r.container@) == n) by {
                lemma_all_missing(n as nat);
            }
            assert(present_sum(r.container@) == 0) by {
                lemma_all_missing(n as nat);
            }
        }
        r
    }

    /// Pushes `new_val`; returns the sum of the last `period()` values, or
    /// `None` while one of them is missing (or fewer have been pushed).
    pub fn update(&mut self, new_val: Option<i64>) -> (r: Option<i128>)
        requires
            old(self).wf(),
        ensures
            final(self).wf(),
            final(self).period() == old(self).period(),
            final(self).history() == old(self).history().push(new_val),
            r is Some <==> all_present(last_n(final(self).history(), final(self).period())),
            r is Some ==> r.unwrap() == present_sum(last_n(final(self).history(), final(self).period())),
    {
        let ghost before = self.container@;
        proof {
            self.container.lemma_wf();
        }
        let old_val = self.container.head();
        self.container.update(new_val);
        proof {
            self.container.lemma_wf();
            lemma_missing_count(before);
            lemma_present_sum(before);
            lemma_present_sum(before.drop_first());
            lemma_push_last(before.drop_first(), new_val);
            lemma_missing_count(self.container@);
            lemma_present_sum(self.container@);
        }
        match old_val {
            Some(v) => {
                self.sum = self.sum - v as i128;
            },
            None => {
                self.nan_count = self.nan_count - 1;
            },
        }
        match new_val {
            Some(v) => {
                self.sum = self.sum + v as i128;
            },
            None => {
                self.nan_count = self.nan_count + 1;
            },
        }
        if self.nan_count > 0 {
            None
        } else {
            Some(self.sum)
        }
    }
}

proof fn lemma_all_missing(n: nat)
    ensures
        missing_count(Seq::new(n, |i: int| None::<i64>)) == n,
        present_sum(Seq::new(n, |i: int| None::<i64>)) == 0,
    decreases n,
{
    if n > 0 {
        lemma_all_missing((n - 1) as nat);
        assert(Seq::new(n, |i: int| None::<i64>).drop_last() =~= Seq::new(
            (n - 1) as nat,
            |i: int| None::<i64>,
        ));
    }
}

} // verus!

verus! {

/// A ring buffer together with the number of missing values it holds.
struct Window {
    container: Container,
    nan_count: usize,
}

impl Window {
    spec fn wf(&self) -> bool {
        &&& self.container.wf()
        &&& self.nan_count == missing_count(self.container@)
    }

    fn new(n: usize) -> (r: Self)
        requires
            n > 0,
        ensures
            r.wf(),
            r.container@.len() == n,
            r.container@ == Seq::new(n as nat, |i: int| None::<i64>),
            r.container.history() == Seq::<Option<i64>>::empty(),
    {
        let container = Container::new(n);
        proof {
            lemma_all_missing(n as nat);
            assert(container@ =~= Seq::new(n as nat, |i: int| None::<i64>));
        }
        Window { container, nan_count: n }
    }

    /// Pushes `v`; tells whether every value of the window is present.
    fn push(&mut self, v: Option<i64>) -> (full: bool)
        requires
            old(self).wf(),
        ensures
            final(self).wf(),
            final(self).container@.len() == old(self).container@.len(),
            final(self).container@ == old(self).container@.drop_first().push(v),
            final(self).container.history() == old(self).container.history().push(v),
            full <==> all_present(final(self).container@),
    {
        let ghost before = self.container@;
        proof {
            self.container.lemma_wf();
        }
        let old_val = self.container.head();
        self.container.update(v);
        proof {
            self.container.lemma_wf();
            lemma_missing_count(before);
            lemma_push_last(before.drop_first(), v);
            lemma_missing_count(self.container@);
        }
        if old_val.is_none() {
            self.nan_count = self.nan_count - 1;
        }
        if v.is_none() {
            self.nan_count = self.nan_count + 1;
        }
        self.nan_count == 0
    }

    /// The largest value of a window whose values are all present.
    fn max(&self) -> (r: i64)
        requires
            self.wf(),
            all_present(self.container@),
        ensures
            r == seq_max(self.container@),
    {
        let ghost w = self.container@;
        proof {
            self.container.lemma_wf();
        }
        let n = self.container.len();
        let mut m: i64 = match self.container.get(0) {
            Some(x) => x,
            None => 0,
        };
        assert(w.take(1).drop_last() =~= Seq::<Option<i64>>::empty());
        let mut i: usize = 1;
        while i < n
            invariant
                self.wf(),
                w == self.container@,
                n == w.len(),
                all_present(w),
                1 <= i <= n,
                m == seq_max(w.take(i as int)),
            decreases n - i,
        {
            let x = match self.container.get(i) {
                Some(x) => x,
                None => 0,
            };
            assert(w.take(i + 1).drop_last() =~= w.take(i as int));
            assert(w.take(i + 1).last() == w[i as int]);
            if !(x <= m) {
                m = x;
            }
            i = i + 1;
        }
        assert(w.take(n as int) =~= w);
        m
    }

    /// The smallest value of a window whose values are all present.
    fn min(&self) -> (r: i64)
        requires
            self.wf(),
            all_present(self.container@),
        ensures
            r == seq_min(self.container@),
    {
        let ghost w = self.container@;
        proof {
            self.container.lemma_wf();
        }
        let n = self.container.len();
        let mut m: i64 = match self.container.get(0) {
            Some(x) => x,
            None => 0,
        };
        assert(w.take(1).drop_last() =~= Seq::<Option<i64>>::empty());
        let mut i: usize = 1;
        while i < n
            invariant
                self.wf(),
                w == self.container@,
                n == w.len(),
                all_present(w),
                1 <= i <= n,
                m == seq_min(w.take(i as int)),
            decreases n - i,
        {
            let x = match self.container.get(i) {
                Some(x) => x,
                None => 0,
            };
            assert(w.take(i + 1).drop_last() =~= w.take(i as int));
            assert(w.take(i + 1).last() == w[i as int]);
            if !(x >= m) {
                m = x;
            }
            i = i + 1;
        }
        assert(w.take(n as int) =~= w);
        m
    }

    /// How many values of the window are strictly below `t`.
    fn count_below(&self, t: i64) -> (r: usize)
        requires
            self.wf(),
        ensures
            r == count_below(self.container@, t as int),
    {
        let ghost w = self.container@;
        proof {
            self.container.lemma_wf();
        }
        let n = self.container.len();
        let mut c: usize = 0;
        let mut i: usize = 0;
        assert(w.take(0) =~= Seq::<Option<i64>>::empty());
        while i < n
            invariant
                self.wf(),
                w == self.container@,
                n == w.len(),
                i <= n,
                c == count_below(w.take(i as int), t as int),
                c <= i,
            decreases n - i,
        {
            let x = self.container.get(i);
            assert(w.take(i + 1).drop_last() =~= w.take(i as int));
            assert(w.take(i + 1).last() == w[i as int]);
            match x {
                Some(v) => {
                    if v < t {
                        c = c + 1;
                    }
                },
                None => {},
            }
            i = i + 1;
        }
        assert(w.take(n as int) =~= w);
        c
    }
}

/// The largest of the last `n` values, present only while none of them is
/// missing.
pub struct RollingMax {
    window: Window,
}

impl RollingMax {
    /// Every value pushed so far.
    pub closed spec fn history(&self) -> Seq<Option<i64>> {
        self.window.container.history()
    }

    /// The window length.
    pub closed spec fn period(&self) -> nat {
        self.window.container@.len()
    }

    pub closed spec fn wf(&self) -> bool {
        self.window.wf()
    }

    pub fn new(n: usize) -> (r: Self)
        requires
            n > 0,
        ensures
            r.wf(),
            r.period() == n,
            r.history() == Seq::<Option<i64>>::empty(),
    {
        RollingMax { window: Window::new(n) }
    }

    /// Pushes `new_val`; returns the largest of the last `period()` values, or
    /// `None` while one of them is missing.
    pub fn update(&mut self, new_val: Option<i64>) -> (r: Option<i64>)
        requires
            old(self).wf(),
        ensures
            final(self).wf(),
            final(self).period() == old(self).period(),
            final(self).history() == old(self).history().push(new_val),
            r is Some <==> all_present(last_n(final(self).history(), final(self).period())),
            r is Some ==> r.unwrap() == seq_max(last_n(final(self).history(), final(self).period())),
    {
        let full = self.window.push(new_val);
        proof {
            self.window.container.lemma_wf();
        }
        if full {
            Some(self.window.max())
        } else {
            None
        }
    }
}

/// The smallest of the last `n` values, present only while none of them is
/// missing.
pub struct RollingMin {
    window: Window,
}

impl RollingMin {
    /// Every value pushed so far.
    pub closed spec fn history(&self) -> Seq<Option<i64>> {
        self.window.container.history()
    }

    /// The window length.
    pub closed spec fn period(&self) -> nat {
        self.window.container@.len()
    }

    pub closed spec fn wf(&self) -> bool {
        self.window.wf()
    }

    pub fn new(n: usize) -> (r: Self)
        requires
            n > 0,
        ensures
            r.wf(),
            r.period() == n,
            r.history() == Seq::<Option<i64>>::empty(),
    {
        RollingMin { window: Window::new(n) }
    }

    /// Pushes `new_val`; returns the smallest of the last `period()` values, or
    /// `None` while one of them is missing.
    pub fn update(&mut self, new_val: Option<i64>) -> (r: Option<i64>)
        requires
            old(self).wf(),
        ensures
            final(self).wf(),
            final(self).period() == old(self).period(),
            final(self).history() == old(self).history().push(new_val),
            r is Some <==> all_present(last_n(final(self).history(), final(self).period())),
            r is Some ==> r.unwrap() == seq_min(last_n(final(self).history(), final(self).period())),
    {
        let full = self.window.push(new_val);
        proof {
            self.window.container.lemma_wf();
        }
        if full {
            Some(self.window.min())
        } else {
            None
        }
    }
}

/// The share of the last `n` values that lie strictly below the newest one.
pub struct RollingRank {
    window: Window,
}

impl RollingRank {
    /// Every value pushed so far.
    pub closed spec fn history(&self) -> Seq<Option<i64>> {
        self.window.container.history()
    }

    /// The window length.
    pub closed spec fn period(&self) -> nat {
        self.window.container@.len()
    }

    pub closed spec fn wf(&self) -> bool {
        self.window.wf()
    }

    pub fn new(n: usize) -> (r: Self)
        requires
            n > 0,
        ensures
            r.wf(),
            r.period() == n,
            r.history() == Seq::<Option<i64>>::empty(),
    {
        RollingRank { window: Window::new(n) }
    }

    /// Pushes `new_val`; returns (number of window values below `new_val`) /
    /// `period()`, or `None` while one of the window's values is missing.
    pub fn update(&mut self, new_val: Option<i64>) -> (r: Option<Ratio>)
        requires
            old(self).wf(),
        ensures
            final(self).wf(),
            final(self).period() == old(self).period(),
            final(self).history() == old(self).history().push(new_val),
            r is Some <==> all_present(last_n(final(self).history(), final(self).period())),
            r is Some ==> r.unwrap().num == count_below(
                last_n(final(self).history(), final(self).period()),
                val(new_val),
            ) && r.unwrap().den == final(self).period(),
    {
        let full = self.window.push(new_val);
        proof {
            self.window.container.lemma_wf();
        }
        match new_val {
            Some(t) => {
                if full {
                    let c = self.window.count_below(t);
                    let n = self.window.container.len();
                    Some(Ratio { num: c as i128, den: n as i128 })
                } else {
                    None
                }
            },
            None => None,
        }
    }
}

} // verus!

verus! {

broadcast use {vstd::seq_lib::group_to_multiset_ensures, vstd::multiset::group_multiset_axioms};

proof fn lemma_present_ms_len(s: Seq<Option<i64>>)
    requires
        all_present(s),
    ensures
        present_ms(s).len() == s.len(),
    decreases s.len(),
{
    if s.len() > 0 {
        assert(s[s.len() - 1] is Some);
        assert forall|i: int| 0 <= i < s.drop_last().len() implies (#[trigger] s.drop_last()[i]) is Some by {
            assert(s[i] is Some);
        }
        lemma_present_ms_len(s.drop_last());
    }
}

/// The `q_num / q_den` quantile of the last `n` values, interpolated linearly
/// between the two order statistics around index `(n - 1) * q_num / q_den`.
pub struct RollingQuantile {
    window: Window,
    dataset: Vec<i64>,
    q_num: u32,
    q_den: u32,
}

impl RollingQuantile {
    /// Every value pushed so far.
    pub closed spec fn history(&self) -> Seq<Option<i64>> {
        self.window.container.history()
    }

    /// The window length.
    pub closed spec fn period(&self) -> nat {
        self.window.container@.len()
    }

    /// The present values of the window, in ascending order.
    pub closed spec fn values(&self) -> Seq<i64> {
        self.dataset@
    }

    pub closed spec fn q_num(&self) -> int {
        self.q_num as int
    }

    pub closed spec fn q_den(&self) -> int {
        self.q_den as int
    }

    pub closed spec fn wf(&self) -> bool {
        &&& self.window.wf()
        &&& sorted(self.dataset@)
        &&& self.dataset@.to_multiset() == present_ms(self.window.container@)
        &&& 0 < self.q_den
        &&& self.q_num <= self.q_den
    }

    /// A window of `n` values and the quantile `q_num / q_den` in `[0, 1]`.
    pub fn new(n: usize, q_num: u32, q_den: u32) -> (r: Self)
        requires
            n > 0,
            0 < q_den,
            q_num <= q_den,
        ensures
            r.wf(),
            r.period() == n,
            r.q_num() == q_num,
            r.q_den() == q_den,
            r.history() == Seq::<Option<i64>>::empty(),
    {
        let window = Window::new(n);
        let r = RollingQuantile { window, dataset: Vec::new(), q_num, q_den };
        proof {
            lemma_no_present(r.window.container@);
        }
        assert(r.dataset@.to_multiset() =~= present_ms(r.window.container@));
        r
    }

    /// Pushes `new_val`; returns the quantile of the last `period()` values,
    /// or `None` while one of them is missing.
    pub fn update(&mut self, new_val: Option<i64>) -> (r: Option<Ratio>)
        requires
            old(self).wf(),
        ensures
            final(self).wf(),
            final(self).period() == old(self).period(),
            final(self).q_num() == old(self).q_num(),
            final(self).q_den() == old(self).q_den(),
            final(self).history() == old(self).history().push(new_val),
            sorted(final(self).values()),
            final(self).values().to_multiset() == present_ms(last_n(final(self).history(), final(self).period())),
            r is Some <==> all_present(last_n(final(self).history(), final(self).period())),
            r is Some ==> r.unwrap().num == quantile_num(final(self).values(), final(self).q_num(), final(self).q_den())
                && r.unwrap().den == final(self).q_den(),
    {
        let ghost before = self.window.container@;
        proof {
            self.window.container.lemma_wf();
            lemma_present_ms_first(before);
        }
        let old_val = self.window.container.head();
        let full = self.window.push(new_val);
        proof {
            let after = self.window.container@;
            assert(after.drop_last() =~= before.drop_first());
            self.window.container.lemma_wf();
        }
        let ghost rest = present_ms(before.drop_first());
        if let Some(o) = old_val {
            remove_sorted(&mut self.dataset, o);
            assert(rest.insert(o).remove(o) =~= rest);
        }
        assert(self.dataset@.to_multiset() == rest);
        if let Some(v) = new_val {
            insert_sorted(&mut self.dataset, v);
        }
        proof {
            let after = self.window.container@;
            assert(after.last() == new_val);
            assert(self.dataset@.to_multiset() =~= present_ms(after));
        }
        if full {
            proof {
                lemma_present_ms_len(self.window.container@);
            }
            Some(quantile(&self.dataset, self.q_num, self.q_den))
        } else {
            None
        }
    }
}

proof fn lemma_no_present(s: Seq<Option<i64>>)
    requires
        forall|i: int| 0 <= i < s.len() ==> s[i] is None,
    ensures
        present_ms(s) == Multiset::<i64>::empty(),
    decreases s.len(),
{
    if s.len() > 0 {
        lemma_no_present(s.drop_last());
    }
}

} // verus!
