//! What holds of the ledger's transitions, whatever the fills.

use crate::amount::{fits_i64, lemma_trunc_div_bounds, trunc_div, Day};
use crate::ledger::{
    distinct_records, distinct_tickers, held, lemma_record_unique, lemma_slot_unique,
    lifetime_of, lifetimes_after, next_average_cost, next_position, next_quantity, position_of,
    positions_after, realized_of, record_of, recorded, slot_of, transition_of,
    Fill, Holding, Lifetime, Position, Transition,
};
use vstd::prelude::*;

verus! {

/// The position in one ticker after one fill: none after a full exit, else
/// the position that the transition leaves.
pub open spec fn step(existing: Option<Position>, quantity: i64, price: i64) -> Option<Position> {
    if transition_of(existing, quantity as int) == Transition::FullExit {
        None
    } else {
        Some(next_position(existing, quantity as int, price as int))
    }
}

/// Applying a fill changes the position in the fill's ticker as `step` says
/// and leaves the position in every other ticker as it was.
pub proof fn lemma_fill_touches_one_ticker(holdings: Seq<Holding>, fill: Fill, other: Seq<char>)
    requires
        distinct_tickers(holdings),
        other != fill.ticker@,
    ensures
        distinct_tickers(positions_after(holdings, fill)),
        position_of(positions_after(holdings, fill), fill.ticker@) == step(
            position_of(holdings, fill.ticker@),
            fill.quantity,
            fill.price,
        ),
        position_of(positions_after(holdings, fill), other) == position_of(holdings, other),
{
    let t = fill.ticker@;
    let existing = position_of(holdings, t);
    let after = positions_after(holdings, fill);
    let next = next_position(existing, fill.quantity as int, fill.price as int);
    let n = holdings.len() as int;
    if !held(holdings, t) {
        assert(after == holdings.push(Holding { ticker: fill.ticker, position: next }));
        assert forall|i: int, j: int| 0 <= i < j < after.len() implies (#[trigger] after[i]).ticker@
            != (#[trigger] after[j]).ticker@ by {
            if j == n {
                assert(holdings[i].ticker@ != t);
            } else {
                assert(holdings[i].ticker@ != holdings[j].ticker@);
            }
        }
        lemma_slot_unique(after, t, n);
        if held(holdings, other) {
            let k = slot_of(holdings, other);
            lemma_slot_unique(holdings, other, k);
            lemma_slot_unique(after, other, k);
        } else {
            if held(after, other) {
                let k = slot_of(after, other);
                assert(k < n);
                assert(holdings[k].ticker@ == other);
            }
        }
    } else {
        let slot = slot_of(holdings, t);
        lemma_slot_unique(holdings, t, slot);
        if transition_of(existing, fill.quantity as int) == Transition::FullExit {
            assert(after == holdings.remove(slot));
            assert forall|i: int| 0 <= i < after.len() implies (#[trigger] after[i])
                == holdings[if i < slot { i } else { i + 1 }] by {}
            assert forall|i: int, j: int| 0 <= i < j < after.len() implies (
            #[trigger] after[i]).ticker@ != (#[trigger] after[j]).ticker@ by {
                let a = if i < slot { i } else { i + 1 };
                let b = if j < slot { j } else { j + 1 };
                assert(holdings[a].ticker@ != holdings[b].ticker@);
            }
            if held(after, t) {
                let k = slot_of(after, t);
                let a = if k < slot { k } else { k + 1 };
                assert(after[k] == holdings[a]);
                if a < slot {
                    assert(holdings[a].ticker@ != holdings[slot].ticker@);
                } else {
                    assert(holdings[slot].ticker@ != holdings[a].ticker@);
                }
            }
            if held(holdings, other) {
                let k = slot_of(holdings, other);
                lemma_slot_unique(holdings, other, k);
                let b = if k < slot { k } else { k - 1 };
                assert(after[b] == holdings[k]);
                lemma_slot_unique(after, other, b);
            } else {
                if held(after, other) {
                    let k = slot_of(after, other);
                    let a = if k < slot { k } else { k + 1 };
                    assert(after[k] == holdings[a]);
                    assert(holdings[a].ticker@ == other);
                }
            }
        } else {
            assert(after == holdings.update(
                slot,
                Holding { ticker: holdings[slot].ticker, position: next },
            ));
            assert forall|k: int| 0 <= k < after.len() implies (#[trigger] after[k]).ticker@
                == holdings[k].ticker@ by {}
            assert forall|i: int, j: int| 0 <= i < j < after.len() implies (
            #[trigger] after[i]).ticker@ != (#[trigger] after[j]).ticker@ by {
                assert(holdings[i].ticker@ != holdings[j].ticker@);
            }
            lemma_slot_unique(after, t, slot);
            if held(holdings, other) {
                let k = slot_of(holdings, other);
                lemma_slot_unique(holdings, other, k);
                assert(after[k].ticker@ == other);
                lemma_slot_unique(after, other, k);
            } else {
                if held(after, other) {
                    let k = slot_of(after, other);
                    assert(holdings[k].ticker@ == other);
                }
            }
        }
    }
}

/// The gain that an exit realizes is the difference between the fill price
/// and the average cost at the exit, times the quantity that left.
pub proof fn lemma_realized_gain(existing: Position, fill: Fill)
    requires
        realized_of(Some(existing), fill).is_some(),
    ensures
        ({
            let event = realized_of(Some(existing), fill).unwrap();
            &&& event.date == fill.date
            &&& event.cost_basis_removed == existing.average_cost * (-fill.quantity)
            &&& event.market_value_removed == fill.price * (-fill.quantity)
            &&& event.market_value_removed - event.cost_basis_removed == (fill.price
                - existing.average_cost) * (-fill.quantity)
        }),
{
    let q = -(fill.quantity as int);
    let a = existing.average_cost as int;
    let p = fill.price as int;
    assert(-0x8000_0000_0000_0000_0000_0000_0000_0000 <= a * q
        <= 0x7fff_ffff_ffff_ffff_ffff_ffff_ffff_ffff) by (nonlinear_arith)
        requires
            -0x8000_0000_0000_0000 <= a <= 0x7fff_ffff_ffff_ffff,
            -0x7fff_ffff_ffff_ffff <= q <= 0x8000_0000_0000_0000,
    ;
    assert(-0x8000_0000_0000_0000_0000_0000_0000_0000 <= p * q
        <= 0x7fff_ffff_ffff_ffff_ffff_ffff_ffff_ffff) by (nonlinear_arith)
        requires
            -0x8000_0000_0000_0000 <= p <= 0x7fff_ffff_ffff_ffff,
            -0x7fff_ffff_ffff_ffff <= q <= 0x8000_0000_0000_0000,
    ;
    assert(p * q - a * q == (p - a) * q) by (nonlinear_arith);
}

/// A fill that brings the quantity to zero takes the ticker out of the live
/// holdings and closes its lifetime on the day of the exit; a later fill in
/// the same ticker opens a position at the fill's own quantity and price, and
/// starts a fresh lifetime on the day of that fill.
pub proof fn lemma_full_exit_then_reopen(
    holdings: Seq<Holding>,
    lifetimes: Seq<Lifetime>,
    exit: Fill,
    exit_last_date: Day,
    buy: Fill,
    buy_last_date: Day,
)
    requires
        distinct_tickers(holdings),
        distinct_records(lifetimes),
        recorded(lifetimes, exit.ticker@),
        held(holdings, exit.ticker@),
        position_of(holdings, exit.ticker@).unwrap().quantity + exit.quantity == 0,
        buy.ticker@ == exit.ticker@,
    ensures
        ({
            let t = exit.ticker@;
            let was = position_of(holdings, t);
            let span = lifetime_of(lifetimes, t).unwrap();
            let left = positions_after(holdings, exit);
            let closed = lifetimes_after(lifetimes, Transition::FullExit, exit, exit_last_date);
            let reopened = positions_after(left, buy);
            let fresh = lifetimes_after(closed, Transition::Open, buy, buy_last_date);
            &&& transition_of(was, exit.quantity as int) == Transition::FullExit
            &&& next_quantity(was, exit.quantity as int) == 0
            &&& !held(left, t)
            &&& position_of(left, t).is_none()
            &&& lifetime_of(closed, t) == Some((span.0, exit.date))
            &&& transition_of(position_of(left, t), buy.quantity as int) == Transition::Open
            &&& position_of(reopened, t) == Some(
                Position { quantity: buy.quantity, average_cost: buy.price },
            )
            &&& lifetime_of(fresh, t) == Some((buy.date, buy_last_date))
        }),
{
    let t = exit.ticker@;
    let other: Seq<char> = t.push('_');
    assert(other.len() != t.len());
    lemma_fill_touches_one_ticker(holdings, exit, other);
    let left = positions_after(holdings, exit);
    lemma_fill_touches_one_ticker(left, buy, other);
    let slot = record_of(lifetimes, t);
    lemma_record_unique(lifetimes, t, slot);
    let closed = lifetimes_after(lifetimes, Transition::FullExit, exit, exit_last_date);
    assert(closed[slot].ticker@ == t);
    assert forall|i: int, j: int| 0 <= i < j < closed.len() implies (#[trigger] closed[i]).ticker@
        != (#[trigger] closed[j]).ticker@ by {
        assert(lifetimes[i].ticker@ != lifetimes[j].ticker@);
    }
    lemma_record_unique(closed, t, slot);
    let fresh = lifetimes_after(closed, Transition::Open, buy, buy_last_date);
    assert(fresh[slot].ticker@ == t);
    assert forall|i: int, j: int| 0 <= i < j < fresh.len() implies (#[trigger] fresh[i]).ticker@
        != (#[trigger] fresh[j]).ticker@ by {
        assert(closed[i].ticker@ != closed[j].ticker@);
    }
    lemma_record_unique(fresh, t, slot);
}

/// The position in one ticker after a run of fills in it, starting from
/// nothing held.
pub open spec fn position_after(fills: Seq<(i64, i64)>) -> Option<Position>
    decreases fills.len(),
{
    if fills.len() == 0 {
        None
    } else {
        step(position_after(fills.drop_last()), fills.last().0, fills.last().1)
    }
}

/// The sum of the quantities of a run of fills.
pub open spec fn total_quantity(fills: Seq<(i64, i64)>) -> int
    decreases fills.len(),
{
    if fills.len() == 0 {
        0
    } else {
        total_quantity(fills.drop_last()) + fills.last().0
    }
}

/// The sum of quantity times price over a run of fills.
pub open spec fn total_value(fills: Seq<(i64, i64)>) -> int
    decreases fills.len(),
{
    if fills.len() == 0 {
        0
    } else {
        total_value(fills.drop_last()) + fills.last().0 * fills.last().1
    }
}

/// Every fill of the run buys: its quantity is positive.
pub open spec fn all_buys(fills: Seq<(i64, i64)>) -> bool {
    forall|i: int| 0 <= i < fills.len() ==> (#[trigger] fills[i]).0 > 0
}

/// After every fill of the run, the quantity-weighted mean of the prices so
/// far is a whole number of price units.
pub open spec fn means_are_whole(fills: Seq<(i64, i64)>) -> bool {
    forall|k: int|
        1 <= k <= fills.len() ==> total_value(#[trigger] fills.subrange(0, k)) % total_quantity(
            fills.subrange(0, k),
        ) == 0
}

proof fn lemma_buys_prefix(fills: Seq<(i64, i64)>)
    requires
        fills.len() > 0,
        all_buys(fills),
    ensures
        all_buys(fills.drop_last()),
        total_quantity(fills.drop_last()) >= 0,
        fills.len() > 1 ==> total_quantity(fills.drop_last()) > 0,
        total_quantity(fills) > 0,
        i64::MIN * total_quantity(fills) <= total_value(fills) <= i64::MAX * total_quantity(fills),
    decreases fills.len(),
{
    let head = fills.drop_last();
    assert forall|i: int| 0 <= i < head.len() implies (#[trigger] head[i]).0 > 0 by {
        assert(head[i] == fills[i]);
    }
    let q = fills.last().0 as int;
    let p = fills.last().1 as int;
    assert(fills[fills.len() - 1].0 > 0);
    assert(i64::MIN * q <= q * p <= i64::MAX * q) by (nonlinear_arith)
        requires
            q > 0,
            i64::MIN <= p <= i64::MAX,
    ;
    if head.len() > 0 {
        lemma_buys_prefix(head);
        let hq = total_quantity(head);
        assert(i64::MIN * (hq + q) == i64::MIN * hq + i64::MIN * q) by (nonlinear_arith);
        assert(i64::MAX * (hq + q) == i64::MAX * hq + i64::MAX * q) by (nonlinear_arith);
    } else {
        assert(total_quantity(head) == 0);
        assert(total_value(head) == 0);
    }
}

/// A quotient of a numerator that lies between the 64-bit bounds times a
/// positive divisor fits in 64 bits.
proof fn lemma_mean_fits(numerator: int, divisor: int)
    requires
        divisor > 0,
        i64::MIN * divisor <= numerator <= i64::MAX * divisor,
    ensures
        fits_i64(trunc_div(numerator, divisor)),
{
    lemma_trunc_div_bounds(numerator, divisor);
    let m = trunc_div(numerator, divisor);
    if numerator >= 0 {
        assert(0 <= m <= i64::MAX) by (nonlinear_arith)
            requires
                m * divisor <= numerator,
                numerator < m * divisor + divisor,
                numerator <= i64::MAX * divisor,
                numerator >= 0,
                divisor > 0,
        ;
    } else {
        assert(i64::MIN <= m <= 0) by (nonlinear_arith)
            requires
                m * divisor - divisor < numerator,
                numerator <= m * divisor,
                i64::MIN * divisor <= numerator,
                numerator < 0,
                divisor > 0,
        ;
    }
}

/// For every run of buys whose running means are whole numbers, the average
/// cost that the ledger holds is the quantity-weighted mean of the fill
/// prices: the sum of quantity times price, divided by the sum of the
/// quantities.
pub proof fn lemma_buys_average_is_weighted_mean(fills: Seq<(i64, i64)>)
    requires
        fills.len() > 0,
        all_buys(fills),
        means_are_whole(fills),
        total_quantity(fills) <= i64::MAX,
    ensures
        position_after(fills).is_some(),
        position_after(fills).unwrap().quantity == total_quantity(fills),
        position_after(fills).unwrap().average_cost * total_quantity(fills) == total_value(fills),
        position_after(fills).unwrap().average_cost == total_value(fills) / total_quantity(fills),
    decreases fills.len(),
{
    let head = fills.drop_last();
    let q = fills.last().0;
    let p = fills.last().1;
    lemma_buys_prefix(fills);
    assert(fills.subrange(0, fills.len() as int) == fills);
    let total_q = total_quantity(fills);
    let total_v = total_value(fills);
    if head.len() == 0 {
        assert(total_quantity(head) == 0);
        assert(total_value(head) == 0);
        assert(position_after(head).is_none());
        assert(p * total_q == total_v) by (nonlinear_arith)
            requires
                total_q == q,
                total_v == q * p,
        ;
    } else {
        assert forall|k: int| 1 <= k <= head.len() implies total_value(
            #[trigger] head.subrange(0, k),
        ) % total_quantity(head.subrange(0, k)) == 0 by {
            assert(head.subrange(0, k) == fills.subrange(0, k));
        }
        lemma_buys_average_is_weighted_mean(head);
        let was = position_after(head).unwrap();
        assert(was.quantity + q != 0);
        assert(transition_of(Some(was), q as int) == Transition::Increase);
        let numerator = was.quantity * was.average_cost + q * p;
        assert(was.quantity * was.average_cost == was.average_cost * was.quantity)
            by (nonlinear_arith);
        assert(numerator == total_v);
        lemma_trunc_div_bounds(total_v, total_q);
        lemma_mean_fits(total_v, total_q);
        assert(next_average_cost(Some(was), q as int, p as int) == trunc_div(total_v, total_q));
    }
    let mean = position_after(fills).unwrap().average_cost as int;
    assert(mean * total_q == total_v);
    vstd::arithmetic::div_mod::lemma_fundamental_div_mod_converse(total_v, total_q, mean, 0);
}

/// For every run of buys, the average cost that the ledger holds is the
/// quantity-weighted mean of the fill prices up to rounding: every buy after
/// the first rounds once, by less than one price unit. Where no price is
/// negative, the rounding is always downward.
pub proof fn lemma_buys_average_is_near_weighted_mean(fills: Seq<(i64, i64)>)
    requires
        fills.len() > 0,
        all_buys(fills),
        total_quantity(fills) <= i64::MAX,
    ensures
        position_after(fills).is_some(),
        position_after(fills).unwrap().quantity == total_quantity(fills),
        ({
            let held = position_after(fills).unwrap().average_cost * total_quantity(fills);
            let slack = (fills.len() - 1) * total_quantity(fills);
            &&& total_value(fills) - slack <= held <= total_value(fills) + slack
            &&& (forall|i: int| 0 <= i < fills.len() ==> (#[trigger] fills[i]).1 >= 0) ==> 0
                <= position_after(fills).unwrap().average_cost && held <= total_value(fills)
        }),
    decreases fills.len(),
{
    let head = fills.drop_last();
    let q = fills.last().0 as int;
    let p = fills.last().1 as int;
    lemma_buys_prefix(fills);
    let total_q = total_quantity(fills);
    let total_v = total_value(fills);
    if head.len() == 0 {
        assert(total_quantity(head) == 0);
        assert(total_value(head) == 0);
        assert(position_after(head).is_none());
        assert(p * total_q == total_v) by (nonlinear_arith)
            requires
                total_q == q,
                total_v == q * p,
        ;
        assert(fills[0].1 == p);
    } else {
        lemma_buys_average_is_near_weighted_mean(head);
        let was = position_after(head).unwrap();
        let head_q = total_quantity(head);
        let a = was.average_cost as int;
        assert(transition_of(Some(was), q) == Transition::Increase);
        let numerator = was.quantity * was.average_cost + q * p;
        assert(was.quantity * was.average_cost == a * head_q) by (nonlinear_arith)
            requires
                was.quantity == head_q,
                was.average_cost == a,
        ;
        assert(i64::MIN * head_q <= a * head_q <= i64::MAX * head_q) by (nonlinear_arith)
            requires
                head_q > 0,
                i64::MIN <= a <= i64::MAX,
        ;
        assert(i64::MIN * q <= q * p <= i64::MAX * q) by (nonlinear_arith)
            requires
                q > 0,
                i64::MIN <= p <= i64::MAX,
        ;
        assert(i64::MIN * (head_q + q) == i64::MIN * head_q + i64::MIN * q) by (nonlinear_arith);
        assert(i64::MAX * (head_q + q) == i64::MAX * head_q + i64::MAX * q) by (nonlinear_arith);
        lemma_mean_fits(numerator, total_q);
        lemma_trunc_div_bounds(numerator, total_q);
        let mean = trunc_div(numerator, total_q);
        assert(next_average_cost(Some(was), q, p) == mean);
        assert(position_after(fills).unwrap().average_cost == mean);
        let n = fills.len() as int;
        assert((n - 1) * total_q == (n - 2) * total_q + total_q) by (nonlinear_arith);
        assert((n - 2) * head_q <= (n - 2) * total_q) by (nonlinear_arith)
            requires
                n >= 2,
                head_q <= total_q,
        ;
        assert(head.len() == n - 1);
        if forall|i: int| 0 <= i < fills.len() ==> (#[trigger] fills[i]).1 >= 0 {
            assert forall|i: int| 0 <= i < head.len() implies (#[trigger] head[i]).1 >= 0 by {
                assert(head[i] == fills[i]);
            }
            assert(fills[n - 1].1 >= 0);
            assert(a * head_q >= 0) by (nonlinear_arith)
                requires
                    a >= 0,
                    head_q > 0,
            ;
            assert(q * p >= 0) by (nonlinear_arith)
                requires
                    q > 0,
                    p >= 0,
            ;
            assert(mean >= 0) by (nonlinear_arith)
                requires
                    numerator >= 0,
                    numerator < mean * total_q + total_q,
                    total_q > 0,
            ;
        }
    }
}

/// The holdings after a run of fills, taken in their order.
pub open spec fn holdings_after(holdings: Seq<Holding>, fills: Seq<Fill>) -> Seq<Holding>
    decreases fills.len(),
{
    if fills.len() == 0 {
        holdings
    } else {
        positions_after(holdings_after(holdings, fills.drop_last()), fills.last())
    }
}

/// Quantity and price of each fill of a run.
pub open spec fn amounts_of(fills: Seq<Fill>) -> Seq<(i64, i64)> {
    Seq::new(fills.len(), |i: int| (fills[i].quantity, fills[i].price))
}

/// Where a ticker is not held, the position that a run of fills in that
/// ticker leaves in the ledger is the position after those fills alone,
/// whatever else is held: `position_after` speaks of the ledger.
pub proof fn lemma_ledger_follows_fills(holdings: Seq<Holding>, ticker: Seq<char>, fills: Seq<Fill>)
    requires
        distinct_tickers(holdings),
        !held(holdings, ticker),
        forall|i: int| 0 <= i < fills.len() ==> (#[trigger] fills[i]).ticker@ == ticker,
    ensures
        distinct_tickers(holdings_after(holdings, fills)),
        position_of(holdings_after(holdings, fills), ticker) == position_after(amounts_of(fills)),
    decreases fills.len(),
{
    if fills.len() > 0 {
        let head = fills.drop_last();
        let last = fills.last();
        assert forall|i: int| 0 <= i < head.len() implies (#[trigger] head[i]).ticker@
            == ticker by {
            assert(head[i] == fills[i]);
        }
        lemma_ledger_follows_fills(holdings, ticker, head);
        let other: Seq<char> = ticker.push('_');
        assert(other.len() != ticker.len());
        assert(fills[fills.len() - 1].ticker@ == ticker);
        lemma_fill_touches_one_ticker(holdings_after(holdings, head), last, other);
        assert(amounts_of(fills).drop_last() =~= amounts_of(head));
        assert(amounts_of(fills).last() == (last.quantity, last.price));
    }
}

/// Taking one fill out of a run takes its quantity and its value out of
/// the totals.
proof fn lemma_totals_without(fills: Seq<(i64, i64)>, place: int)
    requires
        0 <= place < fills.len(),
    ensures
        total_quantity(fills) == total_quantity(fills.remove(place)) + fills[place].0,
        total_value(fills) == total_value(fills.remove(place)) + fills[place].0 * fills[place].1,
    decreases fills.len(),
{
    if place == fills.len() - 1 {
        assert(fills.remove(place) =~= fills.drop_last());
    } else {
        lemma_totals_without(fills.drop_last(), place);
        assert(fills.remove(place).drop_last() =~= fills.drop_last().remove(place));
        assert(fills.remove(place).last() == fills.last());
        assert(fills.drop_last()[place] == fills[place]);
    }
}

/// The totals of a run of fills do not depend on the order of the fills.
pub proof fn lemma_totals_in_any_order(a: Seq<(i64, i64)>, b: Seq<(i64, i64)>)
    requires
        a.to_multiset() == b.to_multiset(),
    ensures
        a.len() == b.len(),
        total_quantity(a) == total_quantity(b),
        total_value(a) == total_value(b),
    decreases a.len(),
{
    a.to_multiset_ensures();
    b.to_multiset_ensures();
    if a.len() > 0 {
        let last = a.last();
        let head = a.drop_last();
        head.to_multiset_ensures();
        assert(head.push(last) =~= a);
        assert(a.to_multiset() =~= head.to_multiset().insert(last));
        assert(b.to_multiset().count(last) > 0);
        assert(b.contains(last));
        let place = choose|i: int| 0 <= i < b.len() && b[i] == last;
        assert(b.remove(place).to_multiset() =~= b.to_multiset().remove(b[place]));
        assert(head.to_multiset().insert(last).remove(last) =~= head.to_multiset());
        lemma_totals_in_any_order(head, b.remove(place));
        lemma_totals_without(b, place);
    }
}

/// The same buys in any order leave the same quantity, and average costs
/// that are both within rounding of the one quantity-weighted mean: each
/// differs from it by less than one price unit for every buy after the
/// first, so that the two differ by no more than twice that. Where the
/// running means are whole numbers in both orders, the two positions are
/// the same.
pub proof fn lemma_buys_in_any_order(a: Seq<(i64, i64)>, b: Seq<(i64, i64)>)
    requires
        a.len() > 0,
        all_buys(a),
        a.to_multiset() == b.to_multiset(),
        total_quantity(a) <= i64::MAX,
    ensures
        position_after(a).is_some(),
        position_after(b).is_some(),
        position_after(a).unwrap().quantity == position_after(b).unwrap().quantity,
        position_after(a).unwrap().quantity == total_quantity(a),
        -2 * (a.len() - 1) <= position_after(a).unwrap().average_cost - position_after(
            b,
        ).unwrap().average_cost <= 2 * (a.len() - 1),
        means_are_whole(a) && means_are_whole(b) ==> position_after(a) == position_after(b),
{
    a.to_multiset_ensures();
    b.to_multiset_ensures();
    lemma_totals_in_any_order(a, b);
    assert forall|i: int| 0 <= i < b.len() implies (#[trigger] b[i]).0 > 0 by {
        assert(b.contains(b[i]));
        assert(a.to_multiset().count(b[i]) > 0);
        assert(a.contains(b[i]));
        let j = choose|j: int| 0 <= j < a.len() && a[j] == b[i];
        assert(a[j].0 > 0);
    }
    lemma_buys_average_is_near_weighted_mean(a);
    lemma_buys_average_is_near_weighted_mean(b);
    lemma_buys_prefix(a);
    let q = total_quantity(a);
    let v = total_value(a);
    let n = a.len() as int;
    let first = position_after(a).unwrap().average_cost as int;
    let second = position_after(b).unwrap().average_cost as int;
    let slack = (n - 1) * q;
    assert(first - second <= 2 * (n - 1) && second - first <= 2 * (n - 1)) by (nonlinear_arith)
        requires
            q > 0,
            n >= 1,
            slack == (n - 1) * q,
            v - slack <= first * q <= v + slack,
            v - slack <= second * q <= v + slack,
    ;
    if means_are_whole(a) && means_are_whole(b) {
        lemma_buys_average_is_weighted_mean(a);
        lemma_buys_average_is_weighted_mean(b);
    }
}

} // verus!
