//! The position ledger: a state machine that folds filled orders into
//! per-ticker positions carried at weighted-average cost.

use crate::amount::{checked_quotient, fits_i64, product, trunc_div, Day};
use vstd::prelude::*;

verus! {

/// What is held of one ticker: a signed quantity and the average cost of one
/// unit of it.
#[derive(Clone, Copy, Debug, PartialEq, Eq, Structural)]
pub struct Position {
    pub quantity: i64,
    pub average_cost: i64,
}

/// A live position together with the ticker it belongs to.
#[derive(Clone, Debug, PartialEq, Eq)]
pub struct Holding {
    pub ticker: String,
    pub position: Position,
}

/// The span of days over which a ticker was held. While the position is live
/// the end of the span is the last day of the calendar.
#[derive(Clone, Debug, PartialEq, Eq)]
pub struct Lifetime {
    pub ticker: String,
    pub first_held: Day,
    pub last_held: Day,
}

/// One executed order as the ledger sees it: a signed quantity (positive
/// buys, negative sells) of a ticker at a price, on a day.
#[derive(Clone, Debug, PartialEq, Eq)]
pub struct Fill {
    pub ticker: String,
    pub date: Day,
    pub quantity: i64,
    pub price: i64,
}

/// Cost basis and market value taken out of a position by a reduction.
#[derive(Clone, Copy, Debug, PartialEq, Eq, Structural)]
pub struct RealizedReturnEvent {
    pub date: Day,
    pub cost_basis_removed: i128,
    pub market_value_removed: i128,
}

/// The four ways in which a fill can meet the ledger.
#[derive(Clone, Copy, Debug, PartialEq, Eq, Structural)]
pub enum Transition {
    /// No position in the ticker existed.
    Open,
    /// The fill brings the quantity to exactly zero.
    FullExit,
    /// A fill of non-negative quantity on an existing position.
    Increase,
    /// A fill of negative quantity that leaves a non-zero position.
    PartialExit,
}

/// What applying one fill produced.
#[derive(Clone, Copy, Debug, PartialEq, Eq, Structural)]
pub struct Applied {
    pub transition: Transition,
    pub realized: Option<RealizedReturnEvent>,
    pub cash_flow: i128,
}

/// Why a fill could not be applied.
#[derive(Clone, Copy, Debug, PartialEq, Eq, Structural)]
pub enum LedgerError {
    /// The new quantity or the new average cost does not fit in 64 bits.
    Overflow,
}

/// Whether some holding is in the given ticker.
pub open spec fn held(holdings: Seq<Holding>, ticker: Seq<char>) -> bool {
    exists|i: int| 0 <= i < holdings.len() && (#[trigger] holdings[i]).ticker@ == ticker
}

/// The place of the ticker's holding among the holdings.
pub open spec fn slot_of(holdings: Seq<Holding>, ticker: Seq<char>) -> int {
    choose|i: int| 0 <= i < holdings.len() && (#[trigger] holdings[i]).ticker@ == ticker
}

/// No two holdings are in the same ticker.
pub open spec fn distinct_tickers(holdings: Seq<Holding>) -> bool {
    forall|i: int, j: int|
        0 <= i < j < holdings.len() ==> (#[trigger] holdings[i]).ticker@ != (
        #[trigger] holdings[j]).ticker@
}

/// The position held in a ticker, if any.
pub open spec fn position_of(holdings: Seq<Holding>, ticker: Seq<char>) -> Option<Position> {
    if held(holdings, ticker) {
        Some(holdings[slot_of(holdings, ticker)].position)
    } else {
        None
    }
}

/// Whether a lifetime is on record for the ticker.
pub open spec fn recorded(lifetimes: Seq<Lifetime>, ticker: Seq<char>) -> bool {
    exists|i: int| 0 <= i < lifetimes.len() && (#[trigger] lifetimes[i]).ticker@ == ticker
}

/// The place of the ticker's lifetime among the lifetimes.
pub open spec fn record_of(lifetimes: Seq<Lifetime>, ticker: Seq<char>) -> int {
    choose|i: int| 0 <= i < lifetimes.len() && (#[trigger] lifetimes[i]).ticker@ == ticker
}

/// No two lifetimes are of the same ticker.
pub open spec fn distinct_records(lifetimes: Seq<Lifetime>) -> bool {
    forall|i: int, j: int|
        0 <= i < j < lifetimes.len() ==> (#[trigger] lifetimes[i]).ticker@ != (
        #[trigger] lifetimes[j]).ticker@
}

/// The span on record for a ticker, if any.
pub open spec fn lifetime_of(lifetimes: Seq<Lifetime>, ticker: Seq<char>) -> Option<(Day, Day)> {
    if recorded(lifetimes, ticker) {
        let l = lifetimes[record_of(lifetimes, ticker)];
        Some((l.first_held, l.last_held))
    } else {
        None
    }
}

/// Which transition a fill of the given quantity takes against what is held.
pub open spec fn transition_of(existing: Option<Position>, quantity: int) -> Transition {
    match existing {
        None => Transition::Open,
        Some(p) => if p.quantity + quantity == 0 {
            Transition::FullExit
        } else if quantity >= 0 {
            Transition::Increase
        } else {
            Transition::PartialExit
        },
    }
}

/// The quantity held after the fill.
pub open spec fn next_quantity(existing: Option<Position>, quantity: int) -> int {
    match existing {
        None => quantity,
        Some(p) => p.quantity + quantity,
    }
}

/// The average cost after the fill: the fill price on opening, the
/// quantity-weighted mean of old cost and fill price (rounded toward zero) on
/// an increase, and the old cost on any exit.
pub open spec fn next_average_cost(existing: Option<Position>, quantity: int, price: int) -> int {
    match existing {
        None => price,
        Some(p) => match transition_of(existing, quantity) {
            Transition::Increase => trunc_div(
                p.quantity * p.average_cost + quantity * price,
                p.quantity + quantity,
            ),
            _ => p.average_cost as int,
        },
    }
}

/// The fill can be applied: the position it leaves fits in 64 bits.
pub open spec fn representable(existing: Option<Position>, quantity: int, price: int) -> bool {
    transition_of(existing, quantity) == Transition::FullExit || (fits_i64(
        next_quantity(existing, quantity),
    ) && fits_i64(next_average_cost(existing, quantity, price)))
}

/// The position that the fill leaves behind (meaningless after a full exit,
/// where none is left).
pub open spec fn next_position(existing: Option<Position>, quantity: int, price: int) -> Position {
    Position {
        quantity: next_quantity(existing, quantity) as i64,
        average_cost: next_average_cost(existing, quantity, price) as i64,
    }
}

/// The cash that the fill moves: money leaves on a buy and comes in on a sale.
pub open spec fn cash_flow_of(quantity: int, price: int) -> int {
    -(quantity * price)
}

/// The realized event of a fill: on either exit, the quantity that left,
/// valued at the average cost and at the fill price.
pub open spec fn realized_of(existing: Option<Position>, fill: Fill) -> Option<
    RealizedReturnEvent,
> {
    match existing {
        None => None,
        Some(p) => match transition_of(existing, fill.quantity as int) {
            Transition::FullExit | Transition::PartialExit => Some(
                RealizedReturnEvent {
                    date: fill.date,
                    cost_basis_removed: (p.average_cost * (-fill.quantity)) as i128,
                    market_value_removed: (fill.price * (-fill.quantity)) as i128,
                },
            ),
            _ => None,
        },
    }
}

/// The holdings after the fill: a new holding is appended, a holding that
/// is fully exited is taken out, any other is updated in place.
pub open spec fn positions_after(holdings: Seq<Holding>, fill: Fill) -> Seq<Holding> {
    let existing = position_of(holdings, fill.ticker@);
    let next = next_position(existing, fill.quantity as int, fill.price as int);
    let slot = slot_of(holdings, fill.ticker@);
    match transition_of(existing, fill.quantity as int) {
        Transition::Open => holdings.push(Holding { ticker: fill.ticker, position: next }),
        Transition::FullExit => holdings.remove(slot),
        _ => holdings.update(slot, Holding { ticker: holdings[slot].ticker, position: next }),
    }
}

/// The lifetimes after the fill. Opening a position starts a fresh span from
/// the fill's day to the last day; a full exit closes the span at the fill's
/// day; anything else keeps the span open to the last day.
pub open spec fn lifetimes_after(
    lifetimes: Seq<Lifetime>,
    transition: Transition,
    fill: Fill,
    last_date: Day,
) -> Seq<Lifetime> {
    if !recorded(lifetimes, fill.ticker@) {
        lifetimes.push(Lifetime { ticker: fill.ticker, first_held: fill.date, last_held: last_date })
    } else {
        let slot = record_of(lifetimes, fill.ticker@);
        let was = lifetimes[slot];
        lifetimes.update(
            slot,
            match transition {
                Transition::Open => Lifetime {
                    ticker: was.ticker,
                    first_held: fill.date,
                    last_held: last_date,
                },
                Transition::FullExit => Lifetime {
                    ticker: was.ticker,
                    first_held: was.first_held,
                    last_held: fill.date,
                },
                _ => Lifetime {
                    ticker: was.ticker,
                    first_held: was.first_held,
                    last_held: last_date,
                },
            },
        )
    }
}

/// With distinct tickers, a holding found in a ticker is the ticker's slot.
pub proof fn lemma_slot_unique(holdings: Seq<Holding>, ticker: Seq<char>, i: int)
    requires
        distinct_tickers(holdings),
        0 <= i < holdings.len(),
        holdings[i].ticker@ == ticker,
    ensures
        held(holdings, ticker),
        slot_of(holdings, ticker) == i,
        position_of(holdings, ticker) == Some(holdings[i].position),
{
    let j = slot_of(holdings, ticker);
    assert(0 <= j < holdings.len() && holdings[j].ticker@ == ticker);
    if j < i {
        assert(holdings[j].ticker@ != holdings[i].ticker@);
    }
    if i < j {
        assert(holdings[i].ticker@ != holdings[j].ticker@);
    }
}

/// With distinct tickers, a lifetime found for a ticker is the ticker's record.
pub proof fn lemma_record_unique(lifetimes: Seq<Lifetime>, ticker: Seq<char>, i: int)
    requires
        distinct_records(lifetimes),
        0 <= i < lifetimes.len(),
        lifetimes[i].ticker@ == ticker,
    ensures
        recorded(lifetimes, ticker),
        record_of(lifetimes, ticker) == i,
        lifetime_of(lifetimes, ticker) == Some((lifetimes[i].first_held, lifetimes[i].last_held)),
{
    let j = record_of(lifetimes, ticker);
    assert(0 <= j < lifetimes.len() && lifetimes[j].ticker@ == ticker);
    if j < i {
        assert(lifetimes[j].ticker@ != lifetimes[i].ticker@);
    }
    if i < j {
        assert(lifetimes[i].ticker@ != lifetimes[j].ticker@);
    }
}

/// The place of the first holding in the given ticker, if there is one.
pub fn find_holding(holdings: &Vec<Holding>, ticker: &String) -> (r: Option<usize>)
    ensures
        match r {
            Some(i) => i < holdings.len() && holdings[i as int].ticker@ == ticker@ && forall|
                k: int,
            | 0 <= k < i ==> (#[trigger] holdings[k]).ticker@ != ticker@,
            None => !held(holdings@, ticker@),
        },
{
    let mut i: usize = 0;
    while i < holdings.len()
        invariant
            i <= holdings.len(),
            forall|k: int| 0 <= k < i ==> (#[trigger] holdings[k]).ticker@ != ticker@,
        decreases holdings.len() - i,
    {
        if holdings[i].ticker == *ticker {
            return Some(i);
        }
        i += 1;
    }
    None
}

/// The place of the first lifetime of the given ticker, if there is one.
pub fn find_lifetime(lifetimes: &Vec<Lifetime>, ticker: &String) -> (r: Option<usize>)
    ensures
        match r {
            Some(i) => i < lifetimes.len() && lifetimes[i as int].ticker@ == ticker@ && forall|
                k: int,
            | 0 <= k < i ==> (#[trigger] lifetimes[k]).ticker@ != ticker@,
            None => !recorded(lifetimes@, ticker@),
        },
{
    let mut i: usize = 0;
    while i < lifetimes.len()
        invariant
            i <= lifetimes.len(),
            forall|k: int| 0 <= k < i ==> (#[trigger] lifetimes[k]).ticker@ != ticker@,
        decreases lifetimes.len() - i,
    {
        if lifetimes[i].ticker == *ticker {
            return Some(i);
        }
        i += 1;
    }
    None
}

/// Brings the lifetimes up to date with one transition.
fn record_transition(
    lifetimes: &mut Vec<Lifetime>,
    transition: Transition,
    fill: &Fill,
    last_date: Day,
)
    requires
        distinct_records(old(lifetimes)@),
    ensures
        final(lifetimes)@ == lifetimes_after(old(lifetimes)@, transition, *fill, last_date),
        distinct_records(final(lifetimes)@),
        recorded(final(lifetimes)@, fill.ticker@),
        forall|t: Seq<char>|
            recorded(old(lifetimes)@, t) ==> #[trigger] recorded(final(lifetimes)@, t),
{
    let ghost before = lifetimes@;
    match find_lifetime(lifetimes, &fill.ticker) {
        None => {
            lifetimes.push(
                Lifetime { ticker: fill.ticker.clone(), first_held: fill.date, last_held: last_date },
            );
            proof {
                let after = lifetimes@;
                assert(after[before.len() as int].ticker@ == fill.ticker@);
                assert forall|t: Seq<char>| recorded(before, t) implies #[trigger] recorded(
                    after,
                    t,
                ) by {
                    let k = record_of(before, t);
                    assert(after[k].ticker@ == t);
                }
                assert forall|i: int, j: int| 0 <= i < j < after.len() implies (
                #[trigger] after[i]).ticker@ != (#[trigger] after[j]).ticker@ by {
                    if j == before.len() {
                        assert(before[i].ticker@ != fill.ticker@);
                    } else {
                        assert(before[i].ticker@ != before[j].ticker@);
                    }
                }
            }
        },
        Some(slot) => {
            proof {
                lemma_record_unique(before, fill.ticker@, slot as int);
            }
            let ticker = lifetimes[slot].ticker.clone();
            let first_held: Day = lifetimes[slot].first_held;
            let next = match transition {
                Transition::Open => Lifetime { ticker, first_held: fill.date, last_held: last_date },
                Transition::FullExit => Lifetime { ticker, first_held, last_held: fill.date },
                _ => Lifetime { ticker, first_held, last_held: last_date },
            };
            lifetimes.set(slot, next);
            proof {
                let after = lifetimes@;
                assert(after[slot as int].ticker@ == fill.ticker@);
                assert forall|k: int| 0 <= k < after.len() implies (#[trigger] after[k]).ticker@
                    == before[k].ticker@ by {}
                assert forall|t: Seq<char>| recorded(before, t) implies #[trigger] recorded(
                    after,
                    t,
                ) by {
                    let k = record_of(before, t);
                    assert(after[k].ticker@ == t);
                }
                assert forall|i: int, j: int| 0 <= i < j < after.len() implies (
                #[trigger] after[i]).ticker@ != (#[trigger] after[j]).ticker@ by {
                    assert(before[i].ticker@ != before[j].ticker@);
                }
            }
        },
    }
}

/// Classifies a fill of the given quantity against what is held.
pub fn classify(existing: Option<Position>, quantity: i64) -> (r: Transition)
    ensures
        r == transition_of(existing, quantity as int),
{
    match existing {
        None => Transition::Open,
        Some(p) => if p.quantity as i128 + quantity as i128 == 0 {
            Transition::FullExit
        } else if quantity >= 0 {
            Transition::Increase
        } else {
            Transition::PartialExit
        },
    }
}

/// The realized event that a fill gives against what is held, if any.
pub fn realized_event(existing: Option<Position>, fill: &Fill) -> (r: Option<RealizedReturnEvent>)
    ensures
        r == realized_of(existing, *fill),
{
    match existing {
        None => None,
        Some(p) => match classify(existing, fill.quantity) {
            Transition::FullExit | Transition::PartialExit => {
                let cost_basis_removed: i128 = -product(p.average_cost, fill.quantity);
                let market_value_removed: i128 = -product(fill.price, fill.quantity);
                proof {
                    lemma_negated_factor(p.average_cost as int, fill.quantity as int);
                    lemma_negated_factor(fill.price as int, fill.quantity as int);
                }
                Some(
                    RealizedReturnEvent {
                        date: fill.date,
                        cost_basis_removed,
                        market_value_removed,
                    },
                )
            },
            _ => None,
        },
    }
}

/// A copy of a list of holdings.
pub fn copy_holdings(holdings: &Vec<Holding>) -> (r: Vec<Holding>)
    ensures
        r@ == holdings@,
{
    let mut out: Vec<Holding> = Vec::new();
    let mut i: usize = 0;
    while i < holdings.len()
        invariant
            i <= holdings.len(),
            out@ == holdings@.subrange(0, i as int),
        decreases holdings.len() - i,
    {
        out.push(Holding { ticker: holdings[i].ticker.clone(), position: holdings[i].position });
        assert(holdings@.subrange(0, i as int).push(holdings[i as int]) == holdings@.subrange(
            0,
            i + 1,
        ));
        i += 1;
    }
    assert(holdings@.subrange(0, holdings.len() as int) == holdings@);
    out
}

/// The live positions and the lifetime of every ticker ever held.
pub struct PositionLedger {
    positions: Vec<Holding>,
    lifetimes: Vec<Lifetime>,
}

impl PositionLedger {
    /// The live holdings, in the order in which they were opened.
    pub closed spec fn positions(&self) -> Seq<Holding> {
        self.positions@
    }

    /// The lifetimes on record, in the order in which tickers were first held.
    pub closed spec fn lifetimes(&self) -> Seq<Lifetime> {
        self.lifetimes@
    }

    /// No ticker is held twice or recorded twice, and every ticker held has a
    /// lifetime on record.
    pub open spec fn wf(&self) -> bool {
        &&& distinct_tickers(self.positions())
        &&& distinct_records(self.lifetimes())
        &&& forall|i: int|
            0 <= i < self.positions().len() ==> recorded(
                self.lifetimes(),
                (#[trigger] self.positions()[i]).ticker@,
            )
    }

    /// A ledger that holds nothing.
    pub fn new() -> (r: Self)
        ensures
            r.wf(),
            r.positions() == Seq::<Holding>::empty(),
            r.lifetimes() == Seq::<Lifetime>::empty(),
    {
        PositionLedger { positions: Vec::new(), lifetimes: Vec::new() }
    }

    /// A copy of the live holdings, to keep as the snapshot of a day.
    pub fn snapshot(&self) -> (r: Vec<Holding>)
        ensures
            r@ == self.positions(),
    {
        copy_holdings(&self.positions)
    }

    /// The live holdings.
    pub fn holdings(&self) -> (r: &Vec<Holding>)
        ensures
            r@ == self.positions(),
    {
        &self.positions
    }

    /// The lifetimes on record.
    pub fn ticker_history(&self) -> (r: &Vec<Lifetime>)
        ensures
            r@ == self.lifetimes(),
    {
        &self.lifetimes
    }

    /// The position held in a ticker, if any.
    pub fn position(&self, ticker: &String) -> (r: Option<Position>)
        requires
            self.wf(),
        ensures
            r == position_of(self.positions(), ticker@),
    {
        match find_holding(&self.positions, ticker) {
            None => None,
            Some(i) => {
                proof {
                    lemma_slot_unique(self.positions@, ticker@, i as int);
                }
                Some(self.positions[i].position)
            },
        }
    }

    /// The span on record for a ticker, if any.
    pub fn lifetime(&self, ticker: &String) -> (r: Option<(Day, Day)>)
        requires
            self.wf(),
        ensures
            r == lifetime_of(self.lifetimes(), ticker@),
    {
        match find_lifetime(&self.lifetimes, ticker) {
            None => None,
            Some(i) => {
                proof {
                    lemma_record_unique(self.lifetimes@, ticker@, i as int);
                }
                Some((self.lifetimes[i].first_held, self.lifetimes[i].last_held))
            },
        }
    }

    /// Applies one fill. The fill is classified against the position held in
    /// its ticker; the position, the lifetime of the ticker, the realized
    /// event and the cash flow follow from the transition. The fill is
    /// refused, and nothing changes, exactly when the position it would leave
    /// does not fit in 64 bits.
    pub fn apply(&mut self, fill: &Fill, last_date: Day) -> (r: Result<Applied, LedgerError>)
        requires
            old(self).wf(),
        ensures
            final(self).wf(),
            r.is_ok() <==> representable(
                position_of(old(self).positions(), fill.ticker@),
                fill.quantity as int,
                fill.price as int,
            ),
            match r {
                Ok(applied) => {
                    let existing = position_of(old(self).positions(), fill.ticker@);
                    &&& applied.transition == transition_of(existing, fill.quantity as int)
                    &&& applied.cash_flow == cash_flow_of(fill.quantity as int, fill.price as int)
                    &&& applied.realized == realized_of(existing, *fill)
                    &&& final(self).positions() == positions_after(old(self).positions(), *fill)
                    &&& final(self).lifetimes() == lifetimes_after(
                        old(self).lifetimes(),
                        applied.transition,
                        *fill,
                        last_date,
                    )
                },
                Err(e) => {
                    &&& e == LedgerError::Overflow
                    &&& final(self).positions() == old(self).positions()
                    &&& final(self).lifetimes() == old(self).lifetimes()
                },
            },
    {
        let ghost before = self.positions@;
        let ghost records = self.lifetimes@;
        let cash_flow: i128 = -product(fill.quantity, fill.price);
        match find_holding(&self.positions, &fill.ticker) {
            None => {
                let position = Position { quantity: fill.quantity, average_cost: fill.price };
                self.positions.push(Holding { ticker: fill.ticker.clone(), position });
                record_transition(&mut self.lifetimes, Transition::Open, fill, last_date);
                proof {
                    let after = self.positions@;
                    assert forall|i: int, j: int| 0 <= i < j < after.len() implies (
                    #[trigger] after[i]).ticker@ != (#[trigger] after[j]).ticker@ by {
                        if j == before.len() {
                            assert(before[i].ticker@ != fill.ticker@);
                        } else {
                            assert(before[i].ticker@ != before[j].ticker@);
                        }
                    }
                    assert forall|i: int| 0 <= i < after.len() implies recorded(
                        self.lifetimes@,
                        (#[trigger] after[i]).ticker@,
                    ) by {
                        if i < before.len() {
                            assert(recorded(records, before[i].ticker@));
                        }
                    }
                }
                Ok(Applied { transition: Transition::Open, realized: None, cash_flow })
            },
            Some(slot) => {
                proof {
                    lemma_slot_unique(before, fill.ticker@, slot as int);
                }
                let was: Position = self.positions[slot].position;
                let quantity: i128 = was.quantity as i128 + fill.quantity as i128;
                if quantity == 0 {
                    let cost_basis_removed: i128 = -product(was.average_cost, fill.quantity);
                    let market_value_removed: i128 = -product(fill.price, fill.quantity);
                    proof {
                        lemma_negated_factor(was.average_cost as int, fill.quantity as int);
                        lemma_negated_factor(fill.price as int, fill.quantity as int);
                    }
                    self.positions.remove(slot);
                    record_transition(&mut self.lifetimes, Transition::FullExit, fill, last_date);
                    proof {
                        let after = self.positions@;
                        assert forall|i: int, j: int| 0 <= i < j < after.len() implies (
                        #[trigger] after[i]).ticker@ != (#[trigger] after[j]).ticker@ by {
                            let a = if i < slot { i } else { i + 1 };
                            let b = if j < slot { j } else { j + 1 };
                            assert(before[a].ticker@ != before[b].ticker@);
                        }
                        assert forall|i: int| 0 <= i < after.len() implies recorded(
                            self.lifetimes@,
                            (#[trigger] after[i]).ticker@,
                        ) by {
                            let a = if i < slot { i } else { i + 1 };
                            assert(recorded(records, before[a].ticker@));
                        }
                    }
                    Ok(
                        Applied {
                            transition: Transition::FullExit,
                            realized: Some(
                                RealizedReturnEvent {
                                    date: fill.date,
                                    cost_basis_removed,
                                    market_value_removed,
                                },
                            ),
                            cash_flow,
                        },
                    )
                } else {
                    if quantity < i64::MIN as i128 || quantity > i64::MAX as i128 {
                        return Err(LedgerError::Overflow);
                    }
                    let transition = if fill.quantity >= 0 {
                        Transition::Increase
                    } else {
                        Transition::PartialExit
                    };
                    let mut average_cost: i64 = was.average_cost;
                    let mut realized: Option<RealizedReturnEvent> = None;
                    if fill.quantity >= 0 {
                        let carried: i128 = product(was.quantity, was.average_cost);
                        let added: i128 = product(fill.quantity, fill.price);
                        proof {
                            lemma_buy_value_bound(fill.quantity as int, fill.price as int);
                        }
                        let mean = checked_quotient(carried + added, quantity);
                        match mean {
                            None => {
                                return Err(LedgerError::Overflow);
                            },
                            Some(m) => {
                                if m < i64::MIN as i128 || m > i64::MAX as i128 {
                                    return Err(LedgerError::Overflow);
                                }
                                average_cost = m as i64;
                            },
                        }
                    } else {
                        let cost_basis_removed: i128 = -product(was.average_cost, fill.quantity);
                        let market_value_removed: i128 = -product(fill.price, fill.quantity);
                        proof {
                            lemma_negated_factor(was.average_cost as int, fill.quantity as int);
                            lemma_negated_factor(fill.price as int, fill.quantity as int);
                        }
                        realized = Some(
                            RealizedReturnEvent {
                                date: fill.date,
                                cost_basis_removed,
                                market_value_removed,
                            },
                        );
                    }
                    let ticker = self.positions[slot].ticker.clone();
                    self.positions.set(
                        slot,
                        Holding {
                            ticker,
                            position: Position { quantity: quantity as i64, average_cost },
                        },
                    );
                    record_transition(&mut self.lifetimes, transition, fill, last_date);
                    proof {
                        let after = self.positions@;
                        assert forall|k: int| 0 <= k < after.len() implies (
                        #[trigger] after[k]).ticker@ == before[k].ticker@ by {}
                        assert forall|i: int, j: int| 0 <= i < j < after.len() implies (
                        #[trigger] after[i]).ticker@ != (#[trigger] after[j]).ticker@ by {
                            assert(before[i].ticker@ != before[j].ticker@);
                        }
                        assert forall|i: int| 0 <= i < after.len() implies recorded(
                            self.lifetimes@,
                            (#[trigger] after[i]).ticker@,
                        ) by {
                            assert(recorded(records, before[i].ticker@));
                        }
                    }
                    Ok(Applied { transition, realized, cash_flow })
                }
            },
        }
    }
}

proof fn lemma_negated_factor(a: int, b: int)
    ensures
        a * (-b) == -(a * b),
{
    assert(a * (-b) == -(a * b)) by (nonlinear_arith);
}

proof fn lemma_buy_value_bound(quantity: int, price: int)
    requires
        0 <= quantity <= i64::MAX,
        i64::MIN <= price <= i64::MAX,
    ensures
        -0x4000_0000_0000_0000_0000_0000_0000_0000 < quantity * price
            < 0x4000_0000_0000_0000_0000_0000_0000_0000,
{
    assert(-0x4000_0000_0000_0000_0000_0000_0000_0000 < quantity * price
        < 0x4000_0000_0000_0000_0000_0000_0000_0000) by (nonlinear_arith)
        requires
            0 <= quantity <= 0x7fff_ffff_ffff_ffff,
            -0x8000_0000_0000_0000 <= price <= 0x7fff_ffff_ffff_ffff,
    ;
}

} // verus!
