use bktrader::cumulative::{CumMax, CumMean, CumMedian, CumMin, CumMinMax, CumQuantile};
use bktrader::ratio::Ratio;
use bktrader::rolling::{RollingMax, RollingMin, RollingQuantile, RollingRank, RollingSum};

fn lcg(seed: &mut u64) -> u64 {
    *seed = seed.wrapping_mul(6364136223846793005).wrapping_add(1442695040888963407);
    *seed >> 33
}

fn stream(n: usize, seed0: u64) -> Vec<Option<i64>> {
    let mut seed = seed0;
    (0..n)
        .map(|_| {
            let r = lcg(&mut seed);
            if r % 13 == 0 {
                None
            } else {
                Some((r % 20001) as i64 - 10000)
            }
        })
        .collect()
}

fn window(h: &[Option<i64>], n: usize) -> Vec<Option<i64>> {
    (0..n).map(|i| if h.len() + i >= n { h[h.len() + i - n] } else { None }).collect()
}

#[test]
fn rolling_sum_max_min_match_direct() {
    for n in [1usize, 2, 5, 9] {
        let xs = stream(300, n as u64);
        let mut s = RollingSum::new(n);
        let mut mx = RollingMax::new(n);
        let mut mn = RollingMin::new(n);
        for t in 0..xs.len() {
            let rs = s.update(xs[t]);
            let rmx = mx.update(xs[t]);
            let rmn = mn.update(xs[t]);
            let win = window(&xs[..=t], n);
            if win.iter().all(|v| v.is_some()) {
                let vals: Vec<i64> = win.iter().map(|v| v.unwrap()).collect();
                assert_eq!(rs, Some(vals.iter().map(|v| *v as i128).sum::<i128>()));
                assert_eq!(rmx, vals.iter().copied().max());
                assert_eq!(rmn, vals.iter().copied().min());
            } else {
                assert_eq!(rs, None);
                assert_eq!(rmx, None);
                assert_eq!(rmn, None);
            }
        }
    }
}

#[test]
fn rolling_sum_waits_for_full_window() {
    let mut s = RollingSum::new(3);
    assert_eq!(s.update(Some(1)), None);
    assert_eq!(s.update(Some(2)), None);
    assert_eq!(s.update(Some(3)), Some(6));
    assert_eq!(s.update(None), None);
    assert_eq!(s.update(Some(4)), None);
    assert_eq!(s.update(Some(5)), None);
    assert_eq!(s.update(Some(6)), Some(15));
}

#[test]
fn rolling_extremes_of_large_values() {
    let mut mx = RollingMax::new(2);
    let mut mn = RollingMin::new(2);
    mx.update(Some(i64::MAX));
    mn.update(Some(i64::MIN));
    assert_eq!(mx.update(Some(i64::MIN)), Some(i64::MAX));
    assert_eq!(mn.update(Some(i64::MAX)), Some(i64::MIN));
    let mut s = RollingSum::new(2);
    s.update(Some(i64::MAX));
    assert_eq!(s.update(Some(i64::MAX)), Some(2 * i64::MAX as i128));
}

#[test]
fn rolling_rank_counts_smaller() {
    let mut r = RollingRank::new(3);
    assert_eq!(r.update(Some(1)), None);
    assert_eq!(r.update(Some(2)), None);
    assert_eq!(r.update(Some(3)), Some(Ratio::new(2, 3)));
    assert_eq!(r.update(Some(2)), Some(Ratio::new(0, 3)));
    assert_eq!(r.update(Some(2)), Some(Ratio::new(0, 3)));
    assert_eq!(r.update(None), None);
}

#[test]
fn rolling_quantile_interpolates() {
    let mut q = RollingQuantile::new(3, 1, 2);
    assert_eq!(q.update(Some(1)), None);
    assert_eq!(q.update(Some(5)), None);
    assert_eq!(q.update(Some(3)), Some(Ratio::new(6, 2)));
    assert_eq!(q.update(Some(2)), Some(Ratio::new(6, 2)));
    let mut r = RollingQuantile::new(4, 1, 4);
    for v in [4, 2, 3] {
        r.update(Some(v));
    }
    assert_eq!(r.update(Some(1)), Some(Ratio::new(7, 4)));
    let mut top = RollingQuantile::new(2, 1, 1);
    top.update(Some(8));
    assert_eq!(top.update(Some(3)), Some(Ratio::new(8, 1)));
}

#[test]
fn cumulative_extremes() {
    let mut mx = CumMax::new();
    let mut mn = CumMin::new();
    assert_eq!(mx.update(None), None);
    assert_eq!(mx.update(Some(3)), Some(3));
    assert_eq!(mx.update(Some(1)), Some(3));
    assert_eq!(mx.update(None), Some(3));
    assert_eq!(mn.update(Some(3)), Some(3));
    assert_eq!(mn.update(Some(1)), Some(1));
    let mut mm = CumMinMax::new(i64::MAX, i64::MIN);
    assert_eq!(mm.update(Some(5)), (5, 5));
    assert_eq!(mm.update(Some(3)), (3, 5));
    assert_eq!(mm.update(None), (3, 5));
    let mut bounded = CumMinMax::new(0, 10);
    assert_eq!(bounded.update(Some(4)), (0, 10));
}

#[test]
fn cumulative_mean_skips_missing() {
    let mut m = CumMean::new();
    assert_eq!(m.update(None), None);
    assert_eq!(m.update(Some(2)), Some(Ratio::new(2, 1)));
    assert_eq!(m.update(None), Some(Ratio::new(2, 1)));
    assert_eq!(m.update(Some(4)), Some(Ratio::new(6, 2)));
}

#[test]
fn cumulative_median_and_quantile() {
    let mut m = CumMedian::new();
    assert_eq!(m.update(None), None);
    assert_eq!(m.update(Some(5)), Some(Ratio::new(5, 1)));
    assert_eq!(m.update(Some(1)), Some(Ratio::new(6, 2)));
    assert_eq!(m.update(Some(3)), Some(Ratio::new(3, 1)));
    let mut q = CumQuantile::new(1, 4);
    assert_eq!(q.update(Some(4)), Some(Ratio::new(16, 4)));
    q.update(Some(2));
    q.update(Some(3));
    assert_eq!(q.update(Some(1)), Some(Ratio::new(7, 4)));
}
