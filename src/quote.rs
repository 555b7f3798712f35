use vstd::prelude::*;

verus! {

/// One daily bar of an instrument. `dt` counts days since 1970-01-01; prices
/// and amounts are in the smallest price unit.
#[derive(Clone, Copy, Debug)]
pub struct Bar {
    pub code: u32,
    pub dt: i32,
    pub preclose: i64,
    pub open: i64,
    pub high: i64,
    pub low: i64,
    pub close: i64,
    pub netvalue: i64,
    pub volume: i64,
    pub amount: i64,
    pub trades_count: i64,
    pub turnover: i64,
}

impl Bar {
    pub fn new(
        code: u32,
        dt: i32,
        preclose: i64,
        open: i64,
        high: i64,
        low: i64,
        close: i64,
        netvalue: i64,
        volume: i64,
        amount: i64,
        trades_count: i64,
        turnover: i64,
    ) -> (r: Self)
        ensures
            r == (Bar {
                code,
                dt,
                preclose,
                open,
                high,
                low,
                close,
                netvalue,
                volume,
                amount,
                trades_count,
                turnover,
            }),
    {
        Bar {
            code,
            dt,
            preclose,
            open,
            high,
            low,
            close,
            netvalue,
            volume,
            amount,
            trades_count,
            turnover,
        }
    }
}

/// One intraday bar; `dt` is a timestamp.
#[derive(Clone, Copy, Debug)]
pub struct BarM {
    pub code: u32,
    pub dt: i64,
    pub preclose: i64,
    pub open: i64,
    pub high: i64,
    pub low: i64,
    pub close: i64,
    pub volume: i64,
    pub amount: i64,
    pub trades_count: i64,
}

impl BarM {
    pub fn new(
        code: u32,
        dt: i64,
        preclose: i64,
        open: i64,
        high: i64,
        low: i64,
        close: i64,
        volume: i64,
        amount: i64,
        trades_count: i64,
    ) -> (r: Self)
        ensures
            r == (BarM { code, dt, preclose, open, high, low, close, volume, amount, trades_count }),
    {
        BarM { code, dt, preclose, open, high, low, close, volume, amount, trades_count }
    }
}

} // verus!
