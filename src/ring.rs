use vstd::prelude::*;

verus! {

/// Slot of `n` slots that lies `i` steps after slot `h`, wrapping around.
pub open spec fn wrap(h: int, i: int, n: int) -> int {
    if h + i < n {
        h + i
    } else {
        h + i - n
    }
}

/// The last `n` entries of `h`, padded in front with missing values while `h`
/// is shorter than `n`.
pub open spec fn last_n(h: Seq<Option<i64>>, n: nat) -> Seq<Option<i64>> {
    Seq::new(
        n,
        |i: int|
            if h.len() + i >= n {
                h[h.len() + i - n]
            } else {
                None
            },
    )
}

/// A fixed-size circular store of the last `n` values; a slot that was never
/// written holds `None` (a missing value).
pub struct Container {
    buf: Vec<Option<i64>>,
    head_idx: usize,
    tail_idx: usize,
    history: Ghost<Seq<Option<i64>>>,
}

impl View for Container {
    /// The stored values in chronological order, oldest first.
    type V = Seq<Option<i64>>;

    closed spec fn view(&self) -> Seq<Option<i64>> {
        Seq::new(
            self.buf@.len(),
            |i: int| self.buf@[wrap(self.head_idx as int, i, self.buf@.len() as int)],
        )
    }
}

impl Container {
    /// Every value pushed so far, in order.
    pub closed spec fn history(&self) -> Seq<Option<i64>> {
        self.history@
    }

    pub closed spec fn wf(&self) -> bool {
        &&& 0 < self.buf@.len() <= usize::MAX
        &&& self.head_idx < self.buf@.len()
        &&& self.tail_idx as int == wrap(self.head_idx as int, self.buf@.len() - 1, self.buf@.len() as int)
        &&& self@ == last_n(self.history@, self.buf@.len())
    }

    pub proof fn lemma_wf(&self)
        requires
            self.wf(),
        ensures
            0 < self@.len() <= usize::MAX,
            self@ == last_n(self.history(), self@.len()),
    {
    }

    /// A store of `n` missing values.
    pub fn new(n: usize) -> (r: Self)
        requires
            n > 0,
        ensures
            r.wf(),
            r@ == Seq::new(n as nat, |i: int| None::<i64>),
            r.history() == Seq::<Option<i64>>::empty(),
    {
        let mut buf: Vec<Option<i64>> = Vec::new();
        let mut k: usize = 0;
        while k < n
            invariant
                k <= n,
                buf@ == Seq::new(k as nat, |i: int| None::<i64>),
            decreases n - k,
        {
            buf.push(None);
            k = k + 1;
        }
        let r = Container { buf, head_idx: 0, tail_idx: n - 1, history: Ghost(Seq::empty()) };
        assert(r@ =~= Seq::new(n as nat, |i: int| None::<i64>));
        assert(r@ =~= last_n(Seq::empty(), n as nat));
        r
    }

    /// Overwrites the oldest value with `new_val`; returns the oldest and the
    /// newest value after the write.
    pub fn update(&mut self, new_val: Option<i64>) -> (r: (Option<i64>, Option<i64>))
        requires
            old(self).wf(),
        ensures
            final(self).wf(),
            final(self)@ == old(self)@.drop_first().push(new_val),
            final(self).history() == old(self).history().push(new_val),
            r.0 == final(self)@[0],
            r.1 == new_val,
    {
        let n = self.buf.len();
        let ghost before = self@;
        self.tail_idx = self.head_idx;
        self.buf.set(self.tail_idx, new_val);
        self.head_idx = if self.head_idx + 1 == n {
            0
        } else {
            self.head_idx + 1
        };
        self.history = Ghost(self.history@.push(new_val));
        assert(self@ =~= before.drop_first().push(new_val));
        assert(self@ =~= last_n(self.history@, n as nat));
        (self.buf[self.head_idx], self.buf[self.tail_idx])
    }

    /// The value `idx` steps after the oldest (`0` is the oldest, `len() - 1`
    /// the newest).
    pub fn get(&self, idx: usize) -> (r: Option<i64>)
        requires
            self.wf(),
            idx < self@.len(),
        ensures
            r == self@[idx as int],
    {
        let n = self.buf.len();
        let k = if self.head_idx < n - idx {
            self.head_idx + idx
        } else {
            self.head_idx - (n - idx)
        };
        self.buf[k]
    }

    /// The oldest value.
    pub fn head(&self) -> (r: Option<i64>)
        requires
            self.wf(),
        ensures
            r == self@[0],
    {
        self.buf[self.head_idx]
    }

    /// The newest value.
    pub fn tail(&self) -> (r: Option<i64>)
        requires
            self.wf(),
        ensures
            r == self@[self@.len() - 1],
    {
        self.buf[self.tail_idx]
    }

    /// The capacity.
    pub fn len(&self) -> (r: usize)
        requires
            self.wf(),
        ensures
            r == self@.len(),
    {
        self.buf.len()
    }

    /// The values in chronological order, oldest first.
    pub fn iter(&self) -> (r: Vec<Option<i64>>)
        requires
            self.wf(),
        ensures
            r@ == self@,
    {
        let n = self.buf.len();
        let mut out: Vec<Option<i64>> = Vec::new();
        let mut i: usize = 0;
        while i < n
            invariant
                self.wf(),
                n == self@.len(),
                i <= n,
                out@ == self@.take(i as int),
            decreases n - i,
        {
            out.push(self.get(i));
            i = i + 1;
            assert(out@ =~= self@.take(i as int));
        }
        assert(out@ =~= self@);
        out
    }
}

} // verus!
