use vstd::prelude::*;

verus! {

/// One historical trade: a positive volume buys, a negative one sells.
#[derive(Clone, Copy, Debug)]
pub struct Trade {
    pub code: u32,
    pub dt: i32,
    pub price: i64,
    pub volume: i64,
}

impl Trade {
    pub fn new(code: u32, dt: i32, price: i64, volume: i64) -> (r: Self)
        ensures
            r == (Trade { code, dt, price, volume }),
    {
        Trade { code, dt, price, volume }
    }
}

} // verus!
