use vstd::prelude::*;

verus! {

#[derive(Clone, Copy, Debug, PartialEq, Eq, Structural)]
pub enum PositionStatus {
    Opened,
    Closed,
}

/// One lot of holdings, from entry to exit. Prices are in the smallest
/// price unit, volumes in shares, money in price units times shares.
#[derive(Clone, Copy, Debug)]
pub struct Position {
    pub id: u32,
    pub entry_dt: i32,
    pub exit_dt: Option<i32>,
    pub entry_price: i64,
    pub exit_price: Option<i64>,
    pub stop_loss: Option<i64>,
    pub take_profit: Option<i64>,
    pub status: PositionStatus,
    pub volume: i64,
    /// Gross profit or loss, without fees.
    pub pnl: i128,
    /// Fees charged to this lot so far.
    pub fees: i128,
    pub holding_days: usize,
}

impl Position {
    /// An open lot with no fees, thresholds or profit yet.
    pub fn new(id: u32, entry_dt: i32, entry_price: i64, volume: i64) -> (r: Self)
        ensures
            r == (Position {
                id,
                entry_dt,
                exit_dt: None,
                entry_price,
                exit_price: None,
                stop_loss: None,
                take_profit: None,
                status: PositionStatus::Opened,
                volume,
                pnl: 0,
                fees: 0,
                holding_days: 0,
            }),
    {
        Position {
            id,
            entry_dt,
            exit_dt: None,
            entry_price,
            exit_price: None,
            stop_loss: None,
            take_profit: None,
            status: PositionStatus::Opened,
            volume,
            pnl: 0,
            fees: 0,
            holding_days: 0,
        }
    }
}

} // verus!
