use vstd::prelude::*;

use crate::ring::{last_n, Container};

verus! {

/// `a >= b`, both present.
pub open spec fn ge(a: Option<i64>, b: Option<i64>) -> bool {
    a is Some && b is Some && a.unwrap() >= b.unwrap()
}

/// `a <= b`, both present.
pub open spec fn le(a: Option<i64>, b: Option<i64>) -> bool {
    a is Some && b is Some && a.unwrap() <= b.unwrap()
}

/// `-1` when `x` goes from at or above `y` to below it, `1` when it goes from
/// at or below `y` to above it, `0` otherwise.
pub open spec fn cross_code(x_prev: Option<i64>, y_prev: Option<i64>, x: Option<i64>, y: Option<i64>) -> int {
    if ge(x_prev, y_prev) && le(x, y) && x != y {
        -1
    } else if le(x_prev, y_prev) && ge(x, y) && x != y {
        1
    } else {
        0
    }
}

/// Detects where one series crosses another.
pub struct Crosser {
    x_container: Container,
    y_container: Container,
}

impl Crosser {
    /// Every `x` pushed so far.
    pub closed spec fn xs(&self) -> Seq<Option<i64>> {
        self.x_container.history()
    }

    /// Every `y` pushed so far.
    pub closed spec fn ys(&self) -> Seq<Option<i64>> {
        self.y_container.history()
    }

    pub closed spec fn wf(&self) -> bool {
        &&& self.x_container.wf()
        &&& self.y_container.wf()
        &&& self.x_container@.len() == 2
        &&& self.y_container@.len() == 2
    }

    pub fn new() -> (r: Self)
        ensures
            r.wf(),
            r.xs() == Seq::<Option<i64>>::empty(),
            r.ys() == Seq::<Option<i64>>::empty(),
    {
        Crosser { x_container: Container::new(2), y_container: Container::new(2) }
    }

    /// Pushes the current `x` and `y`; returns `-1` for a downward cross of
    /// `x` through `y` since the previous call, `1` for an upward one, else
    /// `0`. A missing value on either side gives `0`.
    pub fn update(&mut self, x: Option<i64>, y: Option<i64>) -> (r: i8)
        requires
            old(self).wf(),
        ensures
            final(self).wf(),
            final(self).xs() == old(self).xs().push(x),
            final(self).ys() == old(self).ys().push(y),
            r as int == cross_code(last_n(final(self).xs(), 2)[0], last_n(final(self).ys(), 2)[0], x, y),
    {
        let (x_head, x_tail) = self.x_container.update(x);
        let (y_head, y_tail) = self.y_container.update(y);
        proof {
            self.x_container.lemma_wf();
            self.y_container.lemma_wf();
        }
        match (x_head, y_head, x_tail, y_tail) {
            (Some(xh), Some(yh), Some(xt), Some(yt)) => {
                if xh >= yh && xt < yt {
                    -1
                } else if xh <= yh && xt > yt {
                    1
                } else {
                    0
                }
            },
            _ => 0,
        }
    }
}

} // verus!
