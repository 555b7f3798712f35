use vstd::prelude::*;

use crate::analyzer::Analyzer;
use crate::position::{Position, PositionStatus};
use crate::quote::Bar;
use crate::ratio::{is_fraction, Ratio};

verus! {

pub open spec fn in_i64(x: int) -> bool {
    i64::MIN <= x <= i64::MAX
}

/// The fee on a deal: the fixed fee, or `notional * rate_ppm / 1_000_000`
/// (rounded down) where that is larger.
pub open spec fn fee_for(notional: int, fixed_fee: int, rate_ppm: int) -> int {
    let p = notional * rate_ppm / 1_000_000;
    if fixed_fee >= p {
        fixed_fee
    } else {
        p
    }
}

pub open spec fn is_open(p: Position) -> bool {
    p.status == PositionStatus::Opened
}

/// Total volume of the open positions of `ps`.
pub open spec fn open_volume(ps: Seq<Position>) -> int
    decreases ps.len(),
{
    if ps.len() == 0 {
        0
    } else {
        open_volume(ps.drop_last()) + if is_open(ps.last()) {
            ps.last().volume as int
        } else {
            0
        }
    }
}

/// The positions of `ps` with status `st`, in order.
pub open spec fn with_status(ps: Seq<Position>, st: PositionStatus) -> Seq<Position>
    decreases ps.len(),
{
    if ps.len() == 0 {
        Seq::empty()
    } else if ps.last().status == st {
        with_status(ps.drop_last(), st).push(ps.last())
    } else {
        with_status(ps.drop_last(), st)
    }
}

/// Whether an exit with `ids` closes position `i` of `ps`: it is open and its
/// id (`i + 1`) is among `ids`.
pub open spec fn exits(ps: Seq<Position>, ids: Seq<u32>, i: int) -> bool {
    is_open(ps[i]) && ids.contains((i + 1) as u32)
}

/// How many of the first `m` positions an exit with `ids` closes.
pub open spec fn exit_count(ps: Seq<Position>, ids: Seq<u32>, m: int) -> nat
    decreases m,
{
    if m <= 0 {
        0
    } else {
        exit_count(ps, ids, m - 1) + if exits(ps, ids, m - 1) {
            1nat
        } else {
            0nat
        }
    }
}

/// The volume of those of the first `m` positions that an exit with `ids` closes.
pub open spec fn exit_volume(ps: Seq<Position>, ids: Seq<u32>, m: int) -> int
    decreases m,
{
    if m <= 0 {
        0
    } else {
        exit_volume(ps, ids, m - 1) + if exits(ps, ids, m - 1) {
            ps[m - 1].volume as int
        } else {
            0
        }
    }
}

/// What lot `i` carries of an exit fee `fee` split over the `k` lots that an
/// exit with `ids` closes: `fee / k` each, and the remainder `fee % k` on the
/// first of them (the one with no closed lot before it).
pub open spec fn exit_share(ps: Seq<Position>, ids: Seq<u32>, i: int, fee: int, k: int) -> int {
    fee / k + if exit_count(ps, ids, i) == 0 {
        fee % k
    } else {
        0
    }
}

/// The fees recorded on the first `m` lots of `ps`.
pub open spec fn lot_fees(ps: Seq<Position>, m: int) -> int
    decreases m,
{
    if m <= 0 {
        0
    } else {
        lot_fees(ps, m - 1) + ps[m - 1].fees
    }
}

/// The lots carry exactly the fees charged so far.
pub open spec fn fees_balanced(v: LedgerView) -> bool {
    lot_fees(v.positions, v.positions.len() as int) == v.total_fees
}

/// `p` closed on day `dt` at `price`, with `share` of the exit fee added.
pub open spec fn closed_at(p: Position, dt: i32, price: i64, share: int) -> Position {
    Position {
        status: PositionStatus::Closed,
        exit_dt: Some(dt),
        exit_price: Some(price),
        pnl: ((price - p.entry_price) * p.volume) as i128,
        fees: (p.fees + share) as i128,
        ..p
    }
}

/// `p` with its profit marked to market at `close`, if it is open.
pub open spec fn marked(p: Position, close: i64) -> Position {
    Position {
        pnl: if is_open(p) {
            ((close - p.entry_price) * p.volume) as i128
        } else {
            p.pnl
        },
        ..p
    }
}

/// `p` held one more day, if it is open and was not opened on day `dt`.
pub open spec fn aged(p: Position, dt: i32) -> Position {
    Position {
        holding_days: if p.entry_dt != dt && p.exit_dt is None {
            (p.holding_days + 1) as usize
        } else {
            p.holding_days
        },
        ..p
    }
}

/// The profit of the positions of `ps` with status `st` (of all of them for
/// `None`).
pub open spec fn pnl_sum(ps: Seq<Position>, st: Option<PositionStatus>) -> int
    decreases ps.len(),
{
    if ps.len() == 0 {
        0
    } else {
        pnl_sum(ps.drop_last(), st) + if st is None || st == Some(ps.last().status) {
            ps.last().pnl as int
        } else {
            0
        }
    }
}

/// Whether every running total of `pnl_sum` stays within 128 bits.
pub open spec fn pnl_sum_fits(ps: Seq<Position>, st: Option<PositionStatus>) -> bool
    decreases ps.len(),
{
    ps.len() == 0 || (pnl_sum_fits(ps.drop_last(), st) && i128::MIN <= pnl_sum(ps, st) <= i128::MAX)
}

/// Entry notional plus fees, over all positions of `ps`.
pub open spec fn cost_sum(ps: Seq<Position>) -> int
    decreases ps.len(),
{
    if ps.len() == 0 {
        0
    } else {
        cost_sum(ps.drop_last()) + ps.last().entry_price * ps.last().volume + ps.last().fees
    }
}

/// Holding days over all positions of `ps`.
pub open spec fn days_sum(ps: Seq<Position>) -> int
    decreases ps.len(),
{
    if ps.len() == 0 {
        0
    } else {
        days_sum(ps.drop_last()) + ps.last().holding_days
    }
}

/// The state of a ledger.
pub struct LedgerView {
    pub init_cash: int,
    pub cash: int,
    pub portfolio_value: int,
    pub fixed_fee: int,
    pub fee_rate_ppm: int,
    pub positions: Seq<Position>,
    pub total_fees: int,
    pub equity_curve: Seq<i64>,
}

/// The ledger after opening `volume` at `price` on day `dt`.
pub open spec fn after_entry(
    v: LedgerView,
    dt: i32,
    price: i64,
    volume: i64,
    stop_loss: Option<i64>,
    take_profit: Option<i64>,
) -> LedgerView {
    let notional = price * volume;
    let fee = fee_for(notional, v.fixed_fee, v.fee_rate_ppm);
    LedgerView {
        cash: v.cash - notional - fee,
        total_fees: v.total_fees + fee,
        positions: v.positions.push(
            Position {
                id: (v.positions.len() + 1) as u32,
                entry_dt: dt,
                exit_dt: None,
                entry_price: price,
                exit_price: None,
                stop_loss,
                take_profit,
                status: PositionStatus::Opened,
                volume,
                pnl: 0,
                fees: fee as i128,
                holding_days: 0,
            },
        ),
        ..v
    }
}

/// The ledger after an exit with `ids` at `price` on day `dt`: one fee on the
/// total notional, split over the closed positions as `exit_share` says, so
/// that they carry all of it; no change at all when no open position is named.
pub open spec fn after_exit(v: LedgerView, dt: i32, ids: Seq<u32>, price: i64) -> LedgerView {
    let n = v.positions.len() as int;
    let k = exit_count(v.positions, ids, n);
    let notional = price * exit_volume(v.positions, ids, n);
    let fee = fee_for(notional, v.fixed_fee, v.fee_rate_ppm);
    if k == 0 {
        v
    } else {
        LedgerView {
            cash: v.cash + notional - fee,
            total_fees: v.total_fees + fee,
            positions: Seq::new(
                v.positions.len(),
                |i: int|
                    if exits(v.positions, ids, i) {
                        closed_at(v.positions[i], dt, price, exit_share(v.positions, ids, i, fee, k as int))
                    } else {
                        v.positions[i]
                    },
            ),
            ..v
        }
    }
}

/// The ledger after marking it to market at `close` on day `dt`.
pub open spec fn after_valuation(v: LedgerView, dt: i32, close: i64) -> LedgerView {
    let pv = v.cash + close * open_volume(v.positions);
    LedgerView {
        portfolio_value: pv,
        equity_curve: v.equity_curve.push(pv as i64),
        positions: Seq::new(v.positions.len(), |i: int| aged(marked(v.positions[i], close), dt)),
        ..v
    }
}

/// One call on a ledger.
pub enum LedgerEvent {
    Entry { dt: i32, price: i64, volume: i64, stop_loss: Option<i64>, take_profit: Option<i64> },
    Exit { dt: i32, ids: Seq<u32>, price: i64 },
    Valuation { dt: i32, close: i64 },
}

/// The ledger after the calls in `events`, in order, as the contracts of
/// `entry`, `exit` and `update_portfolio_value` give it.
pub open spec fn replay(v: LedgerView, events: Seq<LedgerEvent>) -> LedgerView
    decreases events.len(),
{
    if events.len() == 0 {
        v
    } else {
        let prev = replay(v, events.drop_last());
        match events.last() {
            LedgerEvent::Entry { dt, price, volume, stop_loss, take_profit } => after_entry(
                prev,
                dt,
                price,
                volume,
                stop_loss,
                take_profit,
            ),
            LedgerEvent::Exit { dt, ids, price } => after_exit(prev, dt, ids, price),
            LedgerEvent::Valuation { dt, close } => after_valuation(prev, dt, close),
        }
    }
}

/// Replaying the same calls on two ledgers that start alike yields the same
/// positions, cash, fees and portfolio values: nothing but the starting state
/// and the calls decides the outcome.
pub proof fn lemma_replay_deterministic(a: LedgerView, b: LedgerView, events: Seq<LedgerEvent>)
    requires
        a == b,
    ensures
        replay(a, events) == replay(b, events),
        replay(a, events).positions == replay(b, events).positions,
        replay(a, events).equity_curve == replay(b, events).equity_curve,
    decreases events.len(),
{
    if events.len() > 0 {
        lemma_replay_deterministic(a, b, events.drop_last());
    }
}

/// A cash account with lots of one instrument. It never refuses a deal: cash
/// may go negative, and an exit skips the ids that name no open position.
pub struct EtfBroker {
    init_cash: i64,
    cash: i64,
    portfolio_value: i64,
    ftc: i64,
    ptc: u32,
    positions: Vec<Position>,
    total_fees: i64,
    analyzer: Analyzer,
    pos_id: u32,
}

impl View for EtfBroker {
    type V = LedgerView;

    closed spec fn view(&self) -> LedgerView {
        LedgerView {
            init_cash: self.init_cash as int,
            cash: self.cash as int,
            portfolio_value: self.portfolio_value as int,
            fixed_fee: self.ftc as int,
            fee_rate_ppm: self.ptc as int,
            positions: self.positions@,
            total_fees: self.total_fees as int,
            equity_curve: self.analyzer@,
        }
    }
}

impl EtfBroker {
    pub closed spec fn wf(&self) -> bool {
        &&& self.ftc >= 0
        &&& self.total_fees >= 0
        &&& self.positions@.len() == self.pos_id
        &&& forall|i: int|
            0 <= i < self.positions@.len() ==> {
                let p = #[trigger] self.positions@[i];
                &&& p.id == i + 1
                &&& p.volume > 0
                &&& p.entry_price >= 0
                &&& p.entry_price * p.volume <= 0x1_0000_0000_0000_0000
                &&& (is_open(p) <==> p.exit_dt is None)
                &&& 0 <= p.fees <= if is_open(p) {
                    0x7fff_ffff_ffff_ffffint
                } else {
                    0xffff_ffff_ffff_fffeint
                }
                &&& p.holding_days <= self.analyzer@.len()
            }
    }

    /// What a well-formed ledger guarantees of its lots.
    pub proof fn lemma_wf(&self)
        requires
            self.wf(),
        ensures
            self@.positions.len() <= u32::MAX,
            self@.fixed_fee >= 0,
            self@.total_fees >= 0,
            forall|i: int|
                0 <= i < self@.positions.len() ==> {
                    let p = #[trigger] self@.positions[i];
                    &&& p.id == i + 1
                    &&& p.volume > 0
                    &&& p.entry_price >= 0
                    &&& (is_open(p) <==> p.exit_dt is None)
                    &&& 0 <= p.fees <= 0xffff_ffff_ffff_fffe
                    &&& p.holding_days <= self@.equity_curve.len()
                },
    {
    }

    /// A ledger holding `init_cash` and no positions; deals pay
    /// `max(ftc, notional * ptc / 1_000_000)`.
    pub fn new(init_cash: i64, ftc: i64, ptc: u32) -> (r: Self)
        requires
            ftc >= 0,
        ensures
            r.wf(),
            r@ == (LedgerView {
                init_cash: init_cash as int,
                cash: init_cash as int,
                portfolio_value: init_cash as int,
                fixed_fee: ftc as int,
                fee_rate_ppm: ptc as int,
                positions: Seq::empty(),
                total_fees: 0,
                equity_curve: Seq::empty(),
            }),
            fees_balanced(r@),
    {
        let r = EtfBroker {
            init_cash,
            cash: init_cash,
            portfolio_value: init_cash,
            ftc,
            ptc,
            positions: Vec::new(),
            total_fees: 0,
            analyzer: Analyzer::new(),
            pos_id: 0,
        };
        assert(r@.positions =~= Seq::<Position>::empty());
        r
    }

    /// The fee on a deal of `deal_amount`, added to the running total.
    fn charge(&mut self, deal_amount: i128) -> (fee: i64)
        requires
            old(self).wf(),
            0 <= deal_amount <= 0x1_0000_0000_0000_0000,
            in_i64(old(self).total_fees + fee_for(deal_amount as int, old(self).ftc as int, old(self).ptc as int)),
        ensures
            final(self).wf(),
            fee == fee_for(deal_amount as int, old(self).ftc as int, old(self).ptc as int),
            0 <= fee,
            final(self)@ == (LedgerView { total_fees: old(self)@.total_fees + fee, ..old(self)@ }),
    {
        proof {
            assert(0 <= deal_amount * (self.ptc as int) <= 0x1_0000_0000_0000_0000 * 0xffff_ffff)
                by (nonlinear_arith)
                requires
                    0 <= deal_amount <= 0x1_0000_0000_0000_0000,
                    0 <= self.ptc <= 0xffff_ffff,
            ;
        }
        let p = deal_amount * (self.ptc as i128) / 1_000_000;
        let fee: i64 = if (self.ftc as i128) >= p {
            self.ftc
        } else {
            p as i64
        };
        self.total_fees = self.total_fees + fee;
        fee
    }

    /// Opens a position of `volume` at `price` on the bar's day and returns its
    /// id; cash pays the notional and the fee.
    pub fn entry(
        &mut self,
        bar: &Bar,
        price: i64,
        volume: i64,
        stop_loss: Option<i64>,
        take_profit: Option<i64>,
    ) -> (id: u32)
        requires
            old(self).wf(),
            price >= 0,
            volume > 0,
            old(self)@.positions.len() < u32::MAX,
            in_i64(after_entry(old(self)@, bar.dt, price, volume, stop_loss, take_profit).cash),
            in_i64(after_entry(old(self)@, bar.dt, price, volume, stop_loss, take_profit).total_fees),
        ensures
            final(self).wf(),
            id == old(self)@.positions.len() + 1,
            final(self)@ == after_entry(old(self)@, bar.dt, price, volume, stop_loss, take_profit),
            fees_balanced(old(self)@) ==> fees_balanced(final(self)@),
    {
        proof {
            self.lemma_wf();
            if fees_balanced(self@) {
                lemma_entry_keeps_fees_balanced(self@, bar.dt, price, volume, stop_loss, take_profit);
            }
        }
        let ghost v = self@;
        let deal_amount = price as i128 * volume as i128;
        proof {
            assert(deal_amount >= 0) by (nonlinear_arith)
                requires
                    deal_amount == price * volume,
                    price >= 0,
                    volume > 0,
            ;
        }
        let fees = self.charge(deal_amount);
        self.cash = (self.cash as i128 - (deal_amount + fees as i128)) as i64;
        self.pos_id = self.pos_id + 1;
        let mut pos = Position::new(self.pos_id, bar.dt, price, volume);
        pos.fees = fees as i128;
        pos.stop_loss = stop_loss;
        pos.take_profit = take_profit;
        self.positions.push(pos);
        proof {
            assert forall|i: int| 0 <= i < self.positions@.len() implies {
                let p = #[trigger] self.positions@[i];
                &&& p.id == i + 1
                &&& p.volume > 0
                &&& p.entry_price >= 0
                &&& p.entry_price * p.volume <= 0x1_0000_0000_0000_0000
                &&& (is_open(p) <==> p.exit_dt is None)
                &&& 0 <= p.fees <= if is_open(p) {
                    0x7fff_ffff_ffff_ffffint
                } else {
                    0xffff_ffff_ffff_fffeint
                }
                &&& p.holding_days <= self.analyzer@.len()
            } by {
                if i < v.positions.len() {
                    assert(self.positions@[i] == v.positions[i]);
                }
            }
            assert(self@ =~= after_entry(v, bar.dt, price, volume, stop_loss, take_profit));
        }
        pos.id
    }

    /// Closes each position named in `position_ids` that is still open, at
    /// `price` on the bar's day, and charges one fee on the total notional,
    /// split over them (an even share each, the remainder on the first). Ids
    /// that name no open position are skipped.
    pub fn exit(&mut self, bar: &Bar, position_ids: Vec<u32>, price: i64)
        requires
            old(self).wf(),
            price >= 0,
            in_i64(price * exit_volume(old(self)@.positions, position_ids@, old(self)@.positions.len() as int)),
            in_i64(after_exit(old(self)@, bar.dt, position_ids@, price).cash),
            in_i64(after_exit(old(self)@, bar.dt, position_ids@, price).total_fees),
        ensures
            final(self).wf(),
            final(self)@ == after_exit(old(self)@, bar.dt, position_ids@, price),
            fees_balanced(old(self)@) ==> fees_balanced(final(self)@),
    {
        proof {
            self.lemma_wf();
            if fees_balanced(self@) {
                lemma_exit_keeps_fees_balanced(self@, bar.dt, position_ids@, price);
            }
        }
        let ghost v = self@;
        let ghost ps = self.positions@;
        let ghost ids = position_ids@;
        let n = self.positions.len();
        // Which positions the exit closes.
        let mut mark: Vec<bool> = Vec::new();
        let mut i: usize = 0;
        while i < n
            invariant
                i <= n,
                mark@ == Seq::new(i as nat, |j: int| false),
            decreases n - i,
        {
            mark.push(false);
            i = i + 1;
            assert(mark@ =~= Seq::new(i as nat, |j: int| false));
        }
        let mut k: usize = 0;
        while k < position_ids.len()
            invariant
                self.wf(),
                self.positions@ == ps,
                ids == position_ids@,
                n == ps.len(),
                k <= ids.len(),
                mark@.len() == n,
                forall|j: int| 0 <= j < n ==> mark@[j] == (is_open(ps[j]) && ids.take(k as int).contains((j + 1) as u32)),
            decreases ids.len() - k,
        {
            let id = position_ids[k];
            let ghost before = mark@;
            proof {
                assert(ids.take(k + 1) =~= ids.take(k as int).push(id));
            }
            if id >= 1 && (id as usize) <= n {
                let idx = (id - 1) as usize;
                if self.positions[idx].status == PositionStatus::Opened {
                    mark.set(idx, true);
                }
            }
            proof {
                assert forall|j: int| 0 <= j < n implies #[trigger] mark@[j] == (is_open(ps[j]) && ids.take(
                    k + 1,
                ).contains((j + 1) as u32)) by {
                    lemma_contains_push(ids.take(k as int), id, (j + 1) as u32);
                    assert(before[j] == (is_open(ps[j]) && ids.take(k as int).contains((j + 1) as u32)));
                }
            }
            k = k + 1;
        }
        assert(ids.take(ids.len() as int) =~= ids);
        // Close them and total their volume.
        let mut sold_vol: i128 = 0;
        let mut count: usize = 0;
        let mut i: usize = 0;
        while i < n
            invariant
                self.wf(),
                v == old(self)@,
                ps == v.positions,
                ids == position_ids@,
                n == ps.len(),
                self.positions@.len() == n,
                self.analyzer@ == v.equity_curve,
                self.cash == v.cash,
                self.total_fees == v.total_fees,
                self.init_cash == v.init_cash,
                self.portfolio_value == v.portfolio_value,
                self.ftc == v.fixed_fee,
                self.ptc == v.fee_rate_ppm,
                price >= 0,
                i <= n,
                mark@.len() == n,
                forall|j: int| 0 <= j < n ==> mark@[j] == exits(ps, ids, j),
                forall|j: int|
                    0 <= j < n ==> #[trigger] self.positions@[j] == if j < i && exits(ps, ids, j) {
                        closed_at(ps[j], bar.dt, price, 0)
                    } else {
                        ps[j]
                    },
                sold_vol == exit_volume(ps, ids, i as int),
                count == exit_count(ps, ids, i as int),
                0 <= sold_vol <= i * 0x7fff_ffff_ffff_ffff,
                count <= i,
            decreases n - i,
        {
            if mark[i] {
                let mut p = self.positions[i];
                proof {
                    assert(-0x7fff_ffff_ffff_ffff * 0x7fff_ffff_ffff_ffff <= (price - p.entry_price) * p.volume
                        <= 0x7fff_ffff_ffff_ffff * 0x7fff_ffff_ffff_ffff) by (nonlinear_arith)
                        requires
                            0 <= price <= 0x7fff_ffff_ffff_ffff,
                            0 <= p.entry_price <= 0x7fff_ffff_ffff_ffff,
                            0 < p.volume <= 0x7fff_ffff_ffff_ffff,
                    ;
                }
                p.status = PositionStatus::Closed;
                p.exit_dt = Some(bar.dt);
                p.exit_price = Some(price);
                p.pnl = (price as i128 - p.entry_price as i128) * p.volume as i128;
                sold_vol = sold_vol + p.volume as i128;
                count = count + 1;
                self.positions.set(i, p);
            }
            i = i + 1;
        }
        if count == 0 {
            proof {
                lemma_no_exit(ps, ids, n as int);
                assert(self.positions@ =~= ps);
            }
            return;
        }
        assert forall|j: int| 0 <= j < n && exits(ps, ids, j) implies 0 <= #[trigger] ps[j].fees
            <= 0x7fff_ffff_ffff_ffff by {
            assert(old(self).positions@[j] == ps[j]);
        }
        let deal_amount = price as i128 * sold_vol;
        let fees = self.charge(deal_amount);
        self.cash = (self.cash as i128 + deal_amount - fees as i128) as i64;
        let share = fees / (count as i64);
        let rem = fees % (count as i64);
        proof {
            vstd::arithmetic::div_mod::lemma_fundamental_div_mod(fees as int, count as int);
            assert(0 <= share && 0 <= rem && share + rem <= fees) by (nonlinear_arith)
                requires
                    fees == count * share + rem,
                    0 <= rem < count,
                    count >= 1,
                    fees >= 0,
            ;
        }
        let ghost mid = self@;
        assert(mid.cash == v.cash + price * exit_volume(ps, ids, n as int) - fees);
        assert(mid.total_fees == v.total_fees + fees);
        let mut first = true;
        let mut i: usize = 0;
        while i < n
            invariant
                self.wf(),
                self@ == (LedgerView { positions: self.positions@, ..mid }),
                ps == v.positions,
                ids == position_ids@,
                n == ps.len(),
                self.positions@.len() == n,
                self.analyzer@ == v.equity_curve,
                count >= 1,
                share as int == (fees as int) / (count as int),
                rem as int == (fees as int) % (count as int),
                0 <= share,
                0 <= rem,
                share + rem <= fees <= 0x7fff_ffff_ffff_ffff,
                first == (exit_count(ps, ids, i as int) == 0),
                forall|j: int| 0 <= j < n && exits(ps, ids, j) ==> 0 <= #[trigger] ps[j].fees
                    <= 0x7fff_ffff_ffff_ffff,
                i <= n,
                mark@.len() == n,
                forall|j: int| 0 <= j < n ==> mark@[j] == exits(ps, ids, j),
                forall|j: int|
                    0 <= j < n ==> #[trigger] self.positions@[j] == if exits(ps, ids, j) {
                        closed_at(ps[j], bar.dt, price, if j < i {
                            exit_share(ps, ids, j, fees as int, count as int)
                        } else {
                            0
                        })
                    } else {
                        ps[j]
                    },
            decreases n - i,
        {
            if mark[i] {
                let mut p = self.positions[i];
                let extra: i64 = if first {
                    rem
                } else {
                    0
                };
                p.fees = p.fees + share as i128 + extra as i128;
                self.positions.set(i, p);
                first = false;
            }
            i = i + 1;
        }
        proof {
            let after = after_exit(v, bar.dt, ids, price);
            assert(self.positions@ =~= after.positions);
            assert(self@ == after);
        }
    }

    /// Sets the profit of every open position to what it would make at the
    /// bar's close.
    pub fn update_active_pnl(&mut self, bar: &Bar)
        requires
            old(self).wf(),
        ensures
            final(self).wf(),
            final(self)@ == (LedgerView {
                positions: Seq::new(
                    old(self)@.positions.len(),
                    |i: int| marked(old(self)@.positions[i], bar.close),
                ),
                ..old(self)@
            }),
    {
        let ghost v = self@;
        let n = self.positions.len();
        let mut i: usize = 0;
        while i < n
            invariant
                self.wf(),
                self@ == (LedgerView { positions: self.positions@, ..v }),
                n == v.positions.len(),
                self.positions@.len() == n,
                i <= n,
                forall|j: int|
                    0 <= j < n ==> #[trigger] self.positions@[j] == if j < i {
                        marked(v.positions[j], bar.close)
                    } else {
                        v.positions[j]
                    },
            decreases n - i,
        {
            let mut p = self.positions[i];
            if p.status == PositionStatus::Opened {
                proof {
                    assert(-0x1_0000_0000_0000_0000 * 0x7fff_ffff_ffff_ffff <= (bar.close - p.entry_price) * p.volume
                        <= 0x1_0000_0000_0000_0000 * 0x7fff_ffff_ffff_ffff) by (nonlinear_arith)
                        requires
                            -0x1_0000_0000_0000_0000 <= bar.close - p.entry_price <= 0x1_0000_0000_0000_0000,
                            0 < p.volume <= 0x7fff_ffff_ffff_ffff,
                    ;
                }
                p.pnl = (bar.close as i128 - p.entry_price as i128) * p.volume as i128;
            }
            self.positions.set(i, p);
            i = i + 1;
        }
        proof {
            assert(self.positions@ =~= Seq::new(n as nat, |i: int| marked(v.positions[i], bar.close)));
        }
    }

    /// Values the ledger at the bar's close (cash plus the open volume at the
    /// close), records that value, marks open positions to market and ages
    /// those opened on an earlier day.
    pub fn update_portfolio_value(&mut self, bar: &Bar)
        requires
            old(self).wf(),
            in_i64(old(self)@.cash + bar.close * open_volume(old(self)@.positions)),
        ensures
            final(self).wf(),
            final(self)@ == after_valuation(old(self)@, bar.dt, bar.close),
            fees_balanced(old(self)@) ==> fees_balanced(final(self)@),
    {
        proof {
            if fees_balanced(self@) {
                lemma_valuation_keeps_fees_balanced(self@, bar.dt, bar.close);
            }
        }
        let ghost v = self@;
        let vol = self.active_positions_sum();
        let pv = (self.cash as i128 + bar.close as i128 * vol) as i64;
        self.portfolio_value = pv;
        self.analyzer.update(pv);
        let days = self.analyzer.len();
        assert forall|i: int| 0 <= i < self.positions@.len() implies (#[trigger] self.positions@[i]).holding_days
            < self.analyzer@.len() by {
            assert(old(self).positions@[i] == self.positions@[i]);
        }
        self.update_active_pnl(bar);
        let ghost mid = self@;
        let n = self.positions.len();
        let mut i: usize = 0;
        while i < n
            invariant
                self.wf(),
                self@ == (LedgerView { positions: self.positions@, ..mid }),
                days == mid.equity_curve.len(),
                n == mid.positions.len(),
                self.positions@.len() == n,
                i <= n,
                forall|j: int| 0 <= j < n ==> (#[trigger] mid.positions[j]).holding_days < days,
                forall|j: int|
                    0 <= j < n ==> #[trigger] self.positions@[j] == if j < i {
                        aged(mid.positions[j], bar.dt)
                    } else {
                        mid.positions[j]
                    },
            decreases n - i,
        {
            let mut p = self.positions[i];
            if p.entry_dt != bar.dt && p.exit_dt.is_none() {
                p.holding_days = p.holding_days + 1;
            }
            self.positions.set(i, p);
            i = i + 1;
        }
        proof {
            let after = after_valuation(v, bar.dt, bar.close);
            assert(self.positions@ =~= after.positions);
            assert(self@ == after);
        }
    }

    pub fn init_cash(&self) -> (r: i64)
        ensures
            r == self@.init_cash,
    {
        self.init_cash
    }

    pub fn cash(&self) -> (r: i64)
        ensures
            r == self@.cash,
    {
        self.cash
    }

    /// The value at the last valuation (the initial cash before any).
    pub fn portfolio_value(&self) -> (r: i64)
        ensures
            r == self@.portfolio_value,
    {
        self.portfolio_value
    }

    pub fn total_fees(&self) -> (r: i64)
        ensures
            r == self@.total_fees,
    {
        self.total_fees
    }

    /// The record of portfolio values.
    pub fn analyzer(&self) -> (r: &Analyzer)
        ensures
            r@ == self@.equity_curve,
    {
        &self.analyzer
    }

    /// Every position ever opened, in order of entry.
    pub fn positions(&self) -> (r: Vec<Position>)
        ensures
            r@ == self@.positions,
    {
        let n = self.positions.len();
        let mut out: Vec<Position> = Vec::new();
        let mut i: usize = 0;
        while i < n
            invariant
                n == self@.positions.len(),
                i <= n,
                out@ == self@.positions.take(i as int),
            decreases n - i,
        {
            out.push(self.positions[i]);
            i = i + 1;
            assert(out@ =~= self@.positions.take(i as int));
        }
        assert(out@ =~= self@.positions);
        out
    }

    /// The first position ever opened.
    pub fn position_first(&self) -> (r: Option<Position>)
        ensures
            r == if self@.positions.len() == 0 {
                None
            } else {
                Some(self@.positions[0])
            },
    {
        if self.positions.len() == 0 {
            None
        } else {
            Some(self.positions[0])
        }
    }

    /// The last position opened.
    pub fn position_last(&self) -> (r: Option<Position>)
        ensures
            r == if self@.positions.len() == 0 {
                None
            } else {
                Some(self@.positions.last())
            },
    {
        let n = self.positions.len();
        if n == 0 {
            None
        } else {
            Some(self.positions[n - 1])
        }
    }

    /// The positions with status `st`, in order of entry.
    fn positions_with(&self, st: PositionStatus) -> (r: Vec<Position>)
        ensures
            r@ == with_status(self@.positions, st),
    {
        let ghost ps = self@.positions;
        let n = self.positions.len();
        let mut out: Vec<Position> = Vec::new();
        let mut i: usize = 0;
        assert(ps.take(0) =~= Seq::<Position>::empty());
        while i < n
            invariant
                ps == self@.positions,
                n == ps.len(),
                i <= n,
                out@ == with_status(ps.take(i as int), st),
            decreases n - i,
        {
            let p = self.positions[i];
            assert(ps.take(i + 1).drop_last() =~= ps.take(i as int));
            if p.status == st {
                out.push(p);
            }
            i = i + 1;
        }
        assert(ps.take(n as int) =~= ps);
        out
    }

    /// The open positions, in order of entry.
    pub fn active_positions(&self) -> (r: Vec<Position>)
        ensures
            r@ == with_status(self@.positions, PositionStatus::Opened),
    {
        self.positions_with(PositionStatus::Opened)
    }

    /// The closed positions, in order of entry.
    pub fn closed_positions(&self) -> (r: Vec<Position>)
        ensures
            r@ == with_status(self@.positions, PositionStatus::Closed),
    {
        self.positions_with(PositionStatus::Closed)
    }

    /// The earliest open position.
    pub fn active_position_first(&self) -> (r: Option<Position>)
        ensures
            r == if with_status(self@.positions, PositionStatus::Opened).len() == 0 {
                None
            } else {
                Some(with_status(self@.positions, PositionStatus::Opened)[0])
            },
    {
        let open = self.positions_with(PositionStatus::Opened);
        if open.len() == 0 {
            None
        } else {
            Some(open[0])
        }
    }

    /// The latest open position.
    pub fn active_position_last(&self) -> (r: Option<Position>)
        ensures
            r == if with_status(self@.positions, PositionStatus::Opened).len() == 0 {
                None
            } else {
                Some(with_status(self@.positions, PositionStatus::Opened).last())
            },
    {
        let open = self.positions_with(PositionStatus::Opened);
        let n = open.len();
        if n == 0 {
            None
        } else {
            Some(open[n - 1])
        }
    }

    /// How many positions are open.
    pub fn active_position_len(&self) -> (r: usize)
        ensures
            r == with_status(self@.positions, PositionStatus::Opened).len(),
    {
        self.positions_with(PositionStatus::Opened).len()
    }

    /// The total volume of the open positions.
    pub fn active_positions_sum(&self) -> (r: i128)
        requires
            self.wf(),
        ensures
            r == open_volume(self@.positions),
            0 <= r <= self@.positions.len() * 0x7fff_ffff_ffff_ffff,
    {
        let ghost ps = self@.positions;
        let n = self.positions.len();
        let mut sum: i128 = 0;
        let mut i: usize = 0;
        assert(ps.take(0) =~= Seq::<Position>::empty());
        while i < n
            invariant
                self.wf(),
                ps == self@.positions,
                n == ps.len(),
                n <= u32::MAX,
                i <= n,
                sum == open_volume(ps.take(i as int)),
                0 <= sum <= i * 0x7fff_ffff_ffff_ffff,
            decreases n - i,
        {
            let p = self.positions[i];
            assert(ps.take(i + 1).drop_last() =~= ps.take(i as int));
            if p.status == PositionStatus::Opened {
                sum = sum + p.volume as i128;
            }
            i = i + 1;
        }
        assert(ps.take(n as int) =~= ps);
        sum
    }

    /// Entry notional plus fees, over every position ever opened.
    pub fn securities_cost(&self) -> (r: i128)
        requires
            self.wf(),
        ensures
            r == cost_sum(self@.positions),
            r >= 0,
    {
        let ghost ps = self@.positions;
        let n = self.positions.len();
        let mut sum: i128 = 0;
        let mut i: usize = 0;
        assert(ps.take(0) =~= Seq::<Position>::empty());
        while i < n
            invariant
                self.wf(),
                ps == self@.positions,
                n == ps.len(),
                n <= u32::MAX,
                i <= n,
                sum == cost_sum(ps.take(i as int)),
                0 <= sum <= i * 0x2_0000_0000_0000_0000,
            decreases n - i,
        {
            let p = self.positions[i];
            assert(ps.take(i + 1).drop_last() =~= ps.take(i as int));
            sum = sum + p.entry_price as i128 * p.volume as i128 + p.fees;
            i = i + 1;
        }
        assert(ps.take(n as int) =~= ps);
        sum
    }

    /// Total profit of the positions with status `st` (all for `None`);
    /// `None` when a running total leaves 128 bits.
    fn pnl_total(&self, st: Option<PositionStatus>) -> (r: Option<i128>)
        ensures
            r is Some <==> pnl_sum_fits(self@.positions, st),
            r is Some ==> r.unwrap() == pnl_sum(self@.positions, st),
    {
        let ghost ps = self@.positions;
        let n = self.positions.len();
        let mut sum: i128 = 0;
        let mut i: usize = 0;
        assert(ps.take(0) =~= Seq::<Position>::empty());
        while i < n
            invariant
                ps == self@.positions,
                n == ps.len(),
                i <= n,
                sum == pnl_sum(ps.take(i as int), st),
                pnl_sum_fits(ps.take(i as int), st),
            decreases n - i,
        {
            let p = self.positions[i];
            assert(ps.take(i + 1).drop_last() =~= ps.take(i as int));
            let counted = match st {
                None => true,
                Some(s) => s == p.status,
            };
            if counted {
                match sum.checked_add(p.pnl) {
                    Some(t) => {
                        sum = t;
                    },
                    None => {
                        proof {
                            lemma_fits_extend(ps, st, i as int + 1, n as int);
                            assert(ps.take(n as int) =~= ps);
                        }
                        return None;
                    },
                }
            }
            i = i + 1;
        }
        assert(ps.take(n as int) =~= ps);
        Some(sum)
    }

    /// Total profit of all positions, realised or not.
    pub fn profit_float(&self) -> (r: Option<i128>)
        ensures
            r is Some <==> pnl_sum_fits(self@.positions, None),
            r is Some ==> r.unwrap() == pnl_sum(self@.positions, None),
    {
        self.pnl_total(None)
    }

    /// Total profit of the open positions.
    pub fn profit_active(&self) -> (r: Option<i128>)
        ensures
            r is Some <==> pnl_sum_fits(self@.positions, Some(PositionStatus::Opened)),
            r is Some ==> r.unwrap() == pnl_sum(self@.positions, Some(PositionStatus::Opened)),
    {
        self.pnl_total(Some(PositionStatus::Opened))
    }

    /// Total profit of the closed positions.
    pub fn profit_taken(&self) -> (r: Option<i128>)
        ensures
            r is Some <==> pnl_sum_fits(self@.positions, Some(PositionStatus::Closed)),
            r is Some ==> r.unwrap() == pnl_sum(self@.positions, Some(PositionStatus::Closed)),
    {
        self.pnl_total(Some(PositionStatus::Closed))
    }

    /// Total profit over total cost; `None` when either is unavailable or the
    /// cost is zero.
    pub fn profit_position(&self) -> (r: Option<Ratio>)
        requires
            self.wf(),
        ensures
            r is Some <==> pnl_sum_fits(self@.positions, None) && cost_sum(self@.positions) != 0,
            r is Some ==> is_fraction(r.unwrap(), pnl_sum(self@.positions, None), cost_sum(self@.positions)),
    {
        let cost = self.securities_cost();
        match self.profit_float() {
            Some(f) => {
                if cost == 0 {
                    None
                } else {
                    Some(Ratio { num: f, den: cost })
                }
            },
            None => None,
        }
    }

    /// `portfolio_value / init_cash - 1`; `None` for zero initial cash.
    pub fn profit_net(&self) -> (r: Option<Ratio>)
        ensures
            r is Some <==> self@.init_cash != 0,
            r is Some ==> is_fraction(r.unwrap(), self@.portfolio_value - self@.init_cash, self@.init_cash),
    {
        Ratio::of_quotient(self.portfolio_value as i128 - self.init_cash as i128, self.init_cash as i128)
    }

    /// The net profit with the fees added back, as a share of the initial cash.
    pub fn profit_gross(&self) -> (r: Option<Ratio>)
        ensures
            r is Some <==> self@.init_cash != 0,
            r is Some ==> is_fraction(
                r.unwrap(),
                self@.portfolio_value - self@.init_cash + self@.total_fees,
                self@.init_cash,
            ),
    {
        Ratio::of_quotient(
            self.portfolio_value as i128 - self.init_cash as i128 + self.total_fees as i128,
            self.init_cash as i128,
        )
    }

    /// Fees paid, as a share of the initial cash.
    pub fn loss_fees(&self) -> (r: Option<Ratio>)
        ensures
            r is Some <==> self@.init_cash != 0,
            r is Some ==> is_fraction(r.unwrap(), self@.total_fees, self@.init_cash),
    {
        Ratio::of_quotient(self.total_fees as i128, self.init_cash as i128)
    }

    /// Gross losses as a share of the initial cash. The ledger keeps no losses
    /// apart from fees, so this is zero.
    pub fn loss_gross(&self) -> (r: Ratio)
        ensures
            r == (Ratio { num: 0, den: 1 }),
    {
        Ratio { num: 0, den: 1 }
    }

    /// Gross losses plus fees, as a share of the initial cash; `None` for zero
    /// initial cash.
    pub fn loss_net(&self) -> (r: Option<Ratio>)
        ensures
            r is Some <==> self@.init_cash != 0,
            r is Some ==> is_fraction(r.unwrap(), 0 + self@.total_fees, self@.init_cash),
    {
        let gross = self.loss_gross();
        Ratio::of_quotient(gross.num + self.total_fees as i128, self.init_cash as i128)
    }

    /// The mean number of days a position has been held; `None` before the
    /// first entry.
    pub fn avg_hold_days(&self) -> (r: Option<Ratio>)
        requires
            self.wf(),
        ensures
            r is Some <==> self@.positions.len() > 0,
            r is Some ==> r.unwrap().num == days_sum(self@.positions) && r.unwrap().den
                == self@.positions.len(),
    {
        let ghost ps = self@.positions;
        let n = self.positions.len();
        if n == 0 {
            return None;
        }
        let mut sum: i128 = 0;
        let mut i: usize = 0;
        assert(ps.take(0) =~= Seq::<Position>::empty());
        while i < n
            invariant
                ps == self@.positions,
                n == ps.len(),
                n <= u32::MAX,
                i <= n,
                sum == days_sum(ps.take(i as int)),
                0 <= sum <= i * 0xffff_ffff_ffff_ffff,
            decreases n - i,
        {
            let p = self.positions[i];
            assert(ps.take(i + 1).drop_last() =~= ps.take(i as int));
            sum = sum + p.holding_days as i128;
            i = i + 1;
        }
        assert(ps.take(n as int) =~= ps);
        Some(Ratio { num: sum, den: n as i128 })
    }
}

proof fn lemma_fits_extend(ps: Seq<Position>, st: Option<PositionStatus>, m: int, n: int)
    requires
        0 < m <= n <= ps.len(),
        !(i128::MIN <= pnl_sum(ps.take(m), st) <= i128::MAX),
    ensures
        !pnl_sum_fits(ps.take(n), st),
    decreases n - m,
{
    if n > m {
        lemma_fits_extend(ps, st, m, n - 1);
        assert(ps.take(n).drop_last() =~= ps.take(n - 1));
    }
}

/// Lots whose fees agree carry the same total.
proof fn lemma_lot_fees_same(a: Seq<Position>, b: Seq<Position>, m: int)
    requires
        0 <= m <= a.len(),
        m <= b.len(),
        forall|i: int| 0 <= i < m ==> (#[trigger] a[i]).fees == b[i].fees,
    ensures
        lot_fees(a, m) == lot_fees(b, m),
    decreases m,
{
    if m > 0 {
        lemma_lot_fees_same(a, b, m - 1);
    }
}

/// An entry records its fee on the new lot.
pub proof fn lemma_entry_keeps_fees_balanced(
    v: LedgerView,
    dt: i32,
    price: i64,
    volume: i64,
    stop_loss: Option<i64>,
    take_profit: Option<i64>,
)
    requires
        fees_balanced(v),
        v.fixed_fee >= 0,
        v.total_fees >= 0,
        in_i64(after_entry(v, dt, price, volume, stop_loss, take_profit).total_fees),
    ensures
        fees_balanced(after_entry(v, dt, price, volume, stop_loss, take_profit)),
{
    let after = after_entry(v, dt, price, volume, stop_loss, take_profit);
    let n = v.positions.len() as int;
    lemma_lot_fees_same(after.positions, v.positions, n);
}

/// An exit records the whole batch fee on the lots it closes.
pub proof fn lemma_exit_keeps_fees_balanced(v: LedgerView, dt: i32, ids: Seq<u32>, price: i64)
    requires
        fees_balanced(v),
        v.fixed_fee >= 0,
        v.total_fees >= 0,
        forall|i: int| 0 <= i < v.positions.len() ==> 0 <= (#[trigger] v.positions[i]).fees <= 0xffff_ffff_ffff_fffe,
        in_i64(after_exit(v, dt, ids, price).total_fees),
    ensures
        fees_balanced(after_exit(v, dt, ids, price)),
{
    let ps = v.positions;
    let n = ps.len() as int;
    let k = exit_count(ps, ids, n) as int;
    if k > 0 {
        let fee = fee_for(price * exit_volume(ps, ids, n), v.fixed_fee, v.fee_rate_ppm);
        let after = after_exit(v, dt, ids, price);
        vstd::arithmetic::div_mod::lemma_fundamental_div_mod(fee, k);
        assert(0 <= fee / k && 0 <= fee % k && fee / k + fee % k <= fee) by (nonlinear_arith)
            requires
                fee == k * (fee / k) + fee % k,
                0 <= fee % k < k,
                k >= 1,
                fee >= 0,
        ;
        lemma_lot_fees_exit(ps, after.positions, ids, dt, price, fee, k, n);
        assert(k * (fee / k) + fee % k == fee);
    }
}

proof fn lemma_lot_fees_exit(
    ps: Seq<Position>,
    new: Seq<Position>,
    ids: Seq<u32>,
    dt: i32,
    price: i64,
    fee: int,
    k: int,
    m: int,
)
    requires
        0 <= m <= ps.len(),
        k >= 1,
        0 <= fee / k,
        0 <= fee % k,
        fee / k + fee % k <= fee <= i64::MAX,
        forall|i: int| 0 <= i < ps.len() ==> 0 <= (#[trigger] ps[i]).fees <= 0xffff_ffff_ffff_fffe,
        new == Seq::new(
            ps.len(),
            |i: int|
                if exits(ps, ids, i) {
                    closed_at(ps[i], dt, price, exit_share(ps, ids, i, fee, k))
                } else {
                    ps[i]
                },
        ),
    ensures
        lot_fees(new, m) == lot_fees(ps, m) + exit_count(ps, ids, m) * (fee / k) + if exit_count(ps, ids, m)
            > 0 {
            fee % k
        } else {
            0
        },
    decreases m,
{
    if m > 0 {
        lemma_lot_fees_exit(ps, new, ids, dt, price, fee, k, m - 1);
        let c = exit_count(ps, ids, m - 1) as int;
        let q = fee / k;
        assert((c + 1) * q == c * q + q) by (nonlinear_arith);
        if exits(ps, ids, m - 1) {
            assert(new[m - 1].fees == ps[m - 1].fees + exit_share(ps, ids, m - 1, fee, k));
        }
    }
}

/// A valuation leaves every lot's fees as they are.
pub proof fn lemma_valuation_keeps_fees_balanced(v: LedgerView, dt: i32, close: i64)
    requires
        fees_balanced(v),
    ensures
        fees_balanced(after_valuation(v, dt, close)),
{
    let after = after_valuation(v, dt, close);
    lemma_lot_fees_same(after.positions, v.positions, v.positions.len() as int);
}

proof fn lemma_no_exit(ps: Seq<Position>, ids: Seq<u32>, m: int)
    requires
        exit_count(ps, ids, m) == 0,
    ensures
        forall|j: int| 0 <= j < m ==> !exits(ps, ids, j),
    decreases m,
{
    if m > 0 {
        lemma_no_exit(ps, ids, m - 1);
    }
}

proof fn lemma_contains_push(s: Seq<u32>, a: u32, x: u32)
    ensures
        s.push(a).contains(x) == (s.contains(x) || a == x),
{
    if s.contains(x) {
        let j = choose|j: int| 0 <= j < s.len() && s[j] == x;
        assert(s.push(a)[j] == x);
    }
    if a == x {
        assert(s.push(a)[s.len() as int] == x);
    }
    if s.push(a).contains(x) {
        let j = choose|j: int| 0 <= j < s.push(a).len() && s.push(a)[j] == x;
        if j < s.len() {
            assert(s[j] == x);
        }
    }
}

} // verus!
