use bktrader::cross::Crosser;
use bktrader::ma::{kind_from_name, valid_window, MaKind, DEMA, EMA, HMA, LSMA, MA, RMA, SMA, VWMA, WMA};
use bktrader::momentum::{CCI, KDJ};
use bktrader::ratio::Ratio;
use bktrader::ring::Container;
use bktrader::volatility::ATR;

fn feed<F: FnMut(Option<i64>) -> Option<i64>>(mut f: F, xs: &[i64]) -> Vec<Option<i64>> {
    xs.iter().map(|x| f(Some(*x))).collect()
}

#[test]
fn container_rotates() {
    let mut c = Container::new(3);
    assert_eq!(c.len(), 3);
    assert_eq!(c.update(Some(1)), (None, Some(1)));
    assert_eq!(c.update(Some(2)), (None, Some(2)));
    assert_eq!(c.update(Some(3)), (Some(1), Some(3)));
    assert_eq!(c.update(Some(4)), (Some(2), Some(4)));
    assert_eq!(c.head(), Some(2));
    assert_eq!(c.tail(), Some(4));
    assert_eq!(c.get(0), Some(2));
    assert_eq!(c.get(1), Some(3));
    assert_eq!(c.get(2), Some(4));
    assert_eq!(c.iter(), vec![Some(2), Some(3), Some(4)]);
}

#[test]
fn crosser_downward() {
    let mut c = Crosser::new();
    assert_eq!(c.update(Some(2), Some(1)), 0);
    assert_eq!(c.update(Some(1), Some(2)), -1);
}

#[test]
fn crosser_upward() {
    let mut c = Crosser::new();
    assert_eq!(c.update(Some(1), Some(2)), 0);
    assert_eq!(c.update(Some(2), Some(1)), 1);
}

#[test]
fn crosser_touch_and_missing() {
    let mut c = Crosser::new();
    c.update(Some(1), Some(1));
    assert_eq!(c.update(Some(2), Some(1)), 1);
    assert_eq!(c.update(Some(3), Some(1)), 0);
    assert_eq!(c.update(None, Some(5)), 0);
    assert_eq!(c.update(Some(0), Some(5)), 0);
}

#[test]
fn sma_values() {
    let mut m = SMA::new(3);
    assert_eq!(feed(|v| m.update(v), &[1, 2, 3, 4]), vec![None, None, Some(2), Some(3)]);
    let mut n = SMA::new(2);
    assert_eq!(feed(|v| n.update(v), &[-1, -2]), vec![None, Some(-2)]);
    assert_eq!(n.update(None), None);
}

#[test]
fn wma_values() {
    let mut m = WMA::new(3);
    assert_eq!(feed(|v| m.update(v), &[1, 2, 3, 4]), vec![None, None, Some(2), Some(3)]);
}

#[test]
fn lsma_values() {
    let mut m = LSMA::new(3);
    assert_eq!(feed(|v| m.update(v), &[1, 2, 3]), vec![None, None, Some(3)]);
    assert_eq!(m.update(Some(5)), Some(4));
    let mut one = LSMA::new(1);
    assert_eq!(one.update(Some(7)), None);
}

#[test]
fn ema_values() {
    let mut m = EMA::new(3);
    assert_eq!(feed(|v| m.update(v), &[10, 20, 30]), vec![Some(10), Some(15), Some(22)]);
    assert_eq!(m.update(None), None);
    assert_eq!(m.update(Some(22)), Some(22));
}

#[test]
fn rma_values() {
    let mut m = RMA::new(3);
    assert_eq!(feed(|v| m.update(v), &[10, 20, 30]), vec![Some(10), Some(13), Some(18)]);
}

#[test]
fn dema_values() {
    let mut m = DEMA::new(3);
    assert_eq!(feed(|v| m.update(v), &[10, 20, 30]), vec![Some(10), Some(18), Some(27)]);
}

#[test]
fn hma_values() {
    let mut m = HMA::new(4);
    assert_eq!(feed(|v| m.update(v), &[1, 2, 3, 4, 5]), vec![None, None, None, None, Some(3)]);
}

#[test]
fn vwma_values() {
    let mut m = VWMA::new(2);
    assert_eq!(m.update(Some(10), Some(1)), None);
    assert_eq!(m.update(Some(20), Some(3)), Some(17));
    assert_eq!(m.update(Some(20), Some(0)), Some(20));
    assert_eq!(m.update(Some(20), Some(0)), None);
}

#[test]
fn ma_selects_by_name() {
    let mut m = MA::new(3, "wma");
    assert_eq!(feed(|v| m.update(v), &[1, 2, 3, 4]), vec![None, None, Some(2), Some(3)]);
    let mut e = MA::new(3, "ema");
    assert_eq!(feed(|v| e.update(v), &[10, 20, 30]), vec![Some(10), Some(15), Some(22)]);
    let kinds = [
        ("sma", MaKind::Simple),
        ("wma", MaKind::Weighted),
        ("ema", MaKind::Exponential),
        ("dema", MaKind::DoubleExponential),
        ("hma", MaKind::Hull),
        ("rma", MaKind::Relative),
        ("lsma", MaKind::LeastSquares),
    ];
    for (name, kind) in kinds {
        assert_eq!(kind_from_name(name), Some(kind));
        let mut m = MA::new(4, name);
        let seeded = kind == MaKind::Exponential || kind == MaKind::DoubleExponential || kind == MaKind::Relative;
        assert_eq!(m.update(Some(1)).is_some(), seeded);
    }
}

#[test]
fn ma_configuration_checks() {
    assert_eq!(kind_from_name("xma"), None);
    assert_eq!(kind_from_name("SMA"), None);
    assert_eq!(kind_from_name(""), None);
    assert_eq!(kind_from_name("smaa"), None);
    assert!(!valid_window(MaKind::Simple, 0));
    assert!(valid_window(MaKind::Simple, 1));
    assert!(!valid_window(MaKind::Hull, 1));
    assert!(valid_window(MaKind::Hull, 2));
}

#[test]
fn atr_values() {
    let mut a = ATR::new(2, "sma");
    assert_eq!(a.update(Some(12), Some(8), None), None);
    assert_eq!(a.update(Some(15), Some(11), Some(9)), Some(5));
}

#[test]
fn cci_values() {
    let mut c = CCI::new(2, "sma");
    assert_eq!(c.update(Some(9), Some(9), Some(9)), None);
    assert_eq!(c.update(Some(12), Some(12), Some(12)), None);
    assert_eq!(c.update(Some(15), Some(15), Some(15)), Some(Ratio::new(2, 2)));
}

#[test]
fn kdj_values() {
    let mut k = KDJ::new(2, 1, "sma");
    assert_eq!(k.update(Some(10), Some(12), Some(8)), (None, None, None));
    assert_eq!(k.update(Some(11), Some(13), Some(9)), (Some(6000), Some(6000), Some(6000)));
}

fn lcg(seed: &mut u64) -> u64 {
    *seed = seed.wrapping_mul(6364136223846793005).wrapping_add(1442695040888963407);
    *seed >> 33
}

fn stream(n: usize, seed0: u64) -> Vec<Option<i64>> {
    let mut seed = seed0;
    (0..n)
        .map(|_| {
            let r = lcg(&mut seed);
            if r % 17 == 0 {
                None
            } else {
                Some((r % 2001) as i64 - 1000)
            }
        })
        .collect()
}

/// The last `n` entries, padded in front with missing values.
fn window(h: &[Option<i64>], n: usize) -> Vec<Option<i64>> {
    (0..n).map(|i| if h.len() + i >= n { h[h.len() + i - n] } else { None }).collect()
}

#[test]
fn wma_and_lsma_match_batch() {
    let xs = stream(400, 11);
    let n = 5usize;
    let mut w = WMA::new(n);
    let mut l = LSMA::new(n);
    for t in 0..xs.len() {
        let got_w = w.update(xs[t]);
        let got_l = l.update(xs[t]);
        let win = window(&xs[..=t], n);
        if win.iter().all(|v| v.is_some()) {
            let vals: Vec<i64> = win.iter().map(|v| v.unwrap()).collect();
            let ws: i128 = vals.iter().enumerate().map(|(i, v)| (i as i128 + 1) * *v as i128).sum();
            let tri = (n * (n + 1) / 2) as i128;
            assert_eq!(got_w, Some(ws.div_euclid(tri) as i64));
            let xm = (n as f64 + 1.0) / 2.0;
            let ym = vals.iter().map(|v| *v as f64).sum::<f64>() / n as f64;
            let sxy: f64 = vals.iter().enumerate().map(|(i, v)| (i as f64 + 1.0 - xm) * (*v as f64 - ym)).sum();
            let sxx: f64 = (0..n).map(|i| (i as f64 + 1.0 - xm).powi(2)).sum();
            let fitted = ym + sxy / sxx * (n as f64 - xm);
            let got = got_l.unwrap() as f64;
            assert!(got <= fitted + 1e-6 && fitted < got + 1.0 + 1e-6);
        } else {
            assert_eq!(got_w, None);
            assert_eq!(got_l, None);
        }
    }
}
