use vstd::prelude::*;

use vstd::multiset::Multiset;

use crate::ratio::{lemma_div_bounds, Ratio};

verus! {

broadcast use {vstd::seq_lib::group_to_multiset_ensures, vstd::seq_lib::to_multiset_insert, vstd::seq_lib::to_multiset_remove};

pub open spec fn sorted(s: Seq<i64>) -> bool {
    forall|i: int, j: int| 0 <= i < j < s.len() ==> s[i] <= s[j]
}

/// The present values of `s`, as a multiset.
pub open spec fn present_ms(s: Seq<Option<i64>>) -> Multiset<i64>
    decreases s.len(),
{
    if s.len() == 0 {
        Multiset::empty()
    } else {
        match s.last() {
            Some(v) => present_ms(s.drop_last()).insert(v),
            None => present_ms(s.drop_last()),
        }
    }
}

pub proof fn lemma_present_ms_first(s: Seq<Option<i64>>)
    requires
        s.len() > 0,
    ensures
        present_ms(s) == match s[0] {
            Some(v) => present_ms(s.drop_first()).insert(v),
            None => present_ms(s.drop_first()),
        },
    decreases s.len(),
{
    broadcast use vstd::multiset::group_multiset_axioms;

    if s.len() == 1 {
        assert(s.drop_last() =~= s.drop_first());
    } else {
        lemma_present_ms_first(s.drop_last());
        assert(s.drop_last().drop_first() =~= s.drop_first().drop_last());
        assert(s.drop_first().last() == s.last());
        match (s[0], s.last()) {
            (Some(a), Some(b)) => {
                assert(present_ms(s.drop_last().drop_first()).insert(a).insert(b)
                    =~= present_ms(s.drop_last().drop_first()).insert(b).insert(a));
            },
            _ => {},
        }
    }
}

/// The `q_num / q_den` quantile of a sorted, non-empty `s`, times `q_den`:
/// linear interpolation between the two order statistics around index
/// `(len - 1) * q_num / q_den`.
pub open spec fn quantile_num(s: Seq<i64>, q_num: int, q_den: int) -> int {
    let idx = (s.len() - 1) * q_num;
    let k = idx / q_den;
    let rem = idx % q_den;
    let lo = s[k] as int;
    let hi = if k + 1 < s.len() {
        s[k + 1] as int
    } else {
        lo
    };
    (q_den - rem) * lo + rem * hi
}

/// The first index of sorted `v` whose value is at least `x`.
pub fn lower_bound(v: &Vec<i64>, x: i64) -> (r: usize)
    requires
        sorted(v@),
    ensures
        r <= v@.len(),
        forall|j: int| 0 <= j < r ==> v@[j] < x,
        forall|j: int| r <= j < v@.len() ==> v@[j] >= x,
{
    let mut lo: usize = 0;
    let mut hi: usize = v.len();
    while lo < hi
        invariant
            sorted(v@),
            lo <= hi <= v@.len(),
            forall|j: int| 0 <= j < lo ==> v@[j] < x,
            forall|j: int| hi <= j < v@.len() ==> v@[j] >= x,
        decreases hi - lo,
    {
        let mid = lo + (hi - lo) / 2;
        if v[mid] < x {
            lo = mid + 1;
        } else {
            hi = mid;
        }
    }
    lo
}

/// Inserts `x` into sorted `v`, keeping it sorted.
pub fn insert_sorted(v: &mut Vec<i64>, x: i64)
    requires
        sorted(old(v)@),
    ensures
        sorted(final(v)@),
        final(v)@.to_multiset() == old(v)@.to_multiset().insert(x),
        final(v)@.len() == old(v)@.len() + 1,
{
    let i = lower_bound(v, x);
    let ghost s = v@;
    v.insert(i, x);
    assert forall|a: int, b: int| 0 <= a < b < v@.len() implies v@[a] <= v@[b] by {
        assert(v@ == s.insert(i as int, x));
        if b < i {
        } else if b == i {
        } else if a < i {
            assert(s[a] < x && x <= s[b - 1]);
        } else if a == i {
        } else {
        }
    }
}

/// Removes one `x` from sorted `v`, which holds it, keeping it sorted.
pub fn remove_sorted(v: &mut Vec<i64>, x: i64)
    requires
        sorted(old(v)@),
        old(v)@.to_multiset().count(x) > 0,
    ensures
        sorted(final(v)@),
        final(v)@.to_multiset() == old(v)@.to_multiset().remove(x),
        final(v)@.len() == old(v)@.len() - 1,
{
    let i = lower_bound(v, x);
    let ghost s = v@;
    assert(s.contains(x));
    let ghost j = choose|j: int| 0 <= j < s.len() && s[j] == x;
    assert(i <= j);
    assert(s[i as int] == x);
    v.remove(i);
    assert(v@ == s.remove(i as int));
}

/// The quantile `q_num / q_den` of sorted, non-empty `v`, interpolated
/// linearly.
pub fn quantile(v: &Vec<i64>, q_num: u32, q_den: u32) -> (r: Ratio)
    requires
        sorted(v@),
        v@.len() > 0,
        0 < q_den,
        q_num <= q_den,
    ensures
        r.num == quantile_num(v@, q_num as int, q_den as int),
        r.den == q_den,
{
    let n = v.len();
    proof {
        assert((n - 1) * q_num <= 0x1_0000_0000_0000_0000 * 0x1_0000_0000) by (nonlinear_arith)
            requires
                1 <= n <= usize::MAX,
                usize::MAX <= 0xffff_ffff_ffff_ffff,
                q_num <= 0xffff_ffff,
        ;
    }
    let idx = (n as u128 - 1) * q_num as u128;
    let k = idx / q_den as u128;
    let rem = idx % q_den as u128;
    proof {
        assert(idx <= (n - 1) * q_den) by (nonlinear_arith)
            requires
                idx == (n - 1) * q_num,
                q_num <= q_den,
                n >= 1,
        ;
        lemma_div_bounds(idx as int, q_den as int, 0, n - 1);
    }
    let k = k as usize;
    let lo = v[k];
    let hi = if k + 1 < n {
        v[k + 1]
    } else {
        lo
    };
    proof {
        assert(-0x1_0000_0000 * 0x8000_0000_0000_0000 <= (q_den - rem) * lo <= 0x1_0000_0000
            * 0x8000_0000_0000_0000) by (nonlinear_arith)
            requires
                0 <= rem < q_den <= 0xffff_ffff,
                i64::MIN <= lo <= i64::MAX,
        ;
        assert(-0x1_0000_0000 * 0x8000_0000_0000_0000 <= rem * hi <= 0x1_0000_0000 * 0x8000_0000_0000_0000)
            by (nonlinear_arith)
            requires
                0 <= rem < q_den <= 0xffff_ffff,
                i64::MIN <= hi <= i64::MAX,
        ;
    }
    let num = (q_den as i128 - rem as i128) * lo as i128 + rem as i128 * hi as i128;
    Ratio { num, den: q_den as i128 }
}

} // verus!
