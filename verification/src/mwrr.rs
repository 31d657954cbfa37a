//! The money-weighted rate of return: the schedule of cash flows that it is
//! solved from, and the decisions of the Newton-Raphson iteration that
//! solves it.
//!
//! The net present value at a rate, and its slope, are evaluated by the
//! caller. The solver holds the rate in rate units, is told value and slope
//! at that rate, and answers with what to do next.

use crate::amount::{
    checked_product, checked_quotient, fits_i128, fits_i64, trunc_div, Day, RATE_UNITS,
};
use crate::series::{chronological, increasing, lemma_keyed_order};
use vstd::prelude::*;

verus! {

/// The number of evaluations after which an attempt is given up.
pub const MAX_ITERATIONS: u32 = 1000;

/// Two successive rates closer than this, in rate units, count as converged.
pub const TOLERANCE: i64 = 10_000;

/// The cash flows dated at or before `date` among the first `count`.
pub open spec fn flows_until(cash_flows: Seq<(Day, i128)>, date: Day, count: int) -> Seq<
    (Day, i128),
>
    decreases count,
{
    if count <= 0 {
        Seq::empty()
    } else if cash_flows[count - 1].0 <= date {
        flows_until(cash_flows, date, count - 1).push(cash_flows[count - 1])
    } else {
        flows_until(cash_flows, date, count - 1)
    }
}

/// The schedule to solve on an evaluation day: the cash flows up to that day
/// and the day's market value as one more inflow on the day itself.
pub open spec fn schedule_on(cash_flows: Seq<(Day, i128)>, date: Day, market_value: i128) -> Seq<
    (Day, i128),
> {
    flows_until(cash_flows, date, cash_flows.len() as int).push((date, market_value))
}

/// The schedule of a day over cash flows in the order of their dates is
/// itself in order: no entry is dated before the entry before it, and the
/// market value stands last, on the evaluation day.
pub proof fn lemma_schedule_chronological(
    cash_flows: Seq<(Day, i128)>,
    date: Day,
    market_value: i128,
)
    requires
        increasing(cash_flows),
    ensures
        chronological(schedule_on(cash_flows, date, market_value)),
        schedule_on(cash_flows, date, market_value).last() == (date, market_value),
{
    lemma_keyed_order(cash_flows);
    lemma_flows_until(cash_flows, date, cash_flows.len() as int);
    let flows = flows_until(cash_flows, date, cash_flows.len() as int);
    let schedule = schedule_on(cash_flows, date, market_value);
    assert forall|i: int, j: int| 0 <= i <= j < schedule.len() implies (#[trigger] schedule[i]).0
        <= (#[trigger] schedule[j]).0 by {
        if j < flows.len() {
            assert(schedule[i] == flows[i]);
            assert(schedule[j] == flows[j]);
        } else if i < flows.len() {
            assert(schedule[i] == flows[i]);
        }
    }
}

/// The cash flows up to a day, taken from cash flows in the order of their
/// dates, are a leading part of them, and none is dated after the day.
proof fn lemma_flows_until(cash_flows: Seq<(Day, i128)>, date: Day, count: int)
    requires
        chronological(cash_flows),
        0 <= count <= cash_flows.len(),
    ensures
        flows_until(cash_flows, date, count).len() <= count,
        flows_until(cash_flows, date, count) == cash_flows.subrange(
            0,
            flows_until(cash_flows, date, count).len() as int,
        ),
        forall|k: int|
            0 <= k < flows_until(cash_flows, date, count).len() ==> (#[trigger] flows_until(
                cash_flows,
                date,
                count,
            )[k]).0 <= date,
        flows_until(cash_flows, date, count).len() < count ==> cash_flows[flows_until(
            cash_flows,
            date,
            count,
        ).len() as int].0 > date,
    decreases count,
{
    if count > 0 {
        lemma_flows_until(cash_flows, date, count - 1);
        let before = flows_until(cash_flows, date, count - 1);
        if cash_flows[count - 1].0 <= date {
            if before.len() < count - 1 {
                assert(cash_flows[before.len() as int].0 <= cash_flows[count - 1].0);
            }
            assert(before.push(cash_flows[count - 1]) =~= cash_flows.subrange(0, count));
        }
    } else {
        assert(flows_until(cash_flows, date, count) =~= cash_flows.subrange(0, 0));
    }
}

/// Builds the schedule of an evaluation day.
pub fn schedule_with_value(cash_flows: &Vec<(Day, i128)>, date: Day, market_value: i128) -> (r:
    Vec<(Day, i128)>)
    ensures
        r@ == schedule_on(cash_flows@, date, market_value),
{
    let mut out: Vec<(Day, i128)> = Vec::new();
    let mut i: usize = 0;
    while i < cash_flows.len()
        invariant
            i <= cash_flows.len(),
            out@ == flows_until(cash_flows@, date, i as int),
        decreases cash_flows.len() - i,
    {
        if cash_flows[i].0 <= date {
            out.push(cash_flows[i]);
        }
        i += 1;
    }
    out.push((date, market_value));
    out
}

/// The days from the first cash flow to each cash flow, and to the last: the
/// numerators and the denominator of the exponents of the present value.
/// There are none for an empty schedule.
pub fn day_offsets(schedule: &Vec<(Day, i128)>) -> (r: Option<(Vec<i64>, i64)>)
    ensures
        r.is_some() <==> schedule.len() > 0,
        match r {
            Some((offsets, total)) => {
                &&& offsets.len() == schedule.len()
                &&& forall|i: int|
                    0 <= i < schedule.len() ==> #[trigger] offsets[i] == schedule[i].0
                        - schedule[0].0
                &&& total == schedule[schedule.len() - 1].0 - schedule[0].0
            },
            None => true,
        },
{
    if schedule.len() == 0 {
        return None;
    }
    let first: i64 = schedule[0].0 as i64;
    let mut offsets: Vec<i64> = Vec::new();
    let mut i: usize = 0;
    while i < schedule.len()
        invariant
            i <= schedule.len(),
            schedule.len() > 0,
            first == schedule[0].0,
            offsets.len() == i,
            forall|k: int| 0 <= k < i ==> #[trigger] offsets[k] == schedule[k].0 - schedule[0].0,
        decreases schedule.len() - i,
    {
        offsets.push(schedule[i].0 as i64 - first);
        i += 1;
    }
    let total: i64 = schedule[schedule.len() - 1].0 as i64 - first;
    Some((offsets, total))
}

/// Which of the two attempts the solver is in.
#[derive(Clone, Copy, Debug, PartialEq, Eq, Structural)]
pub enum Attempt {
    /// The attempt seeded with the guess.
    First,
    /// The attempt seeded with the negated guess.
    Second,
}

/// What the solver asks for after an evaluation.
#[derive(Clone, Copy, Debug, PartialEq, Eq, Structural)]
pub enum Verdict {
    /// Evaluate again, at the solver's new rate.
    Evaluate,
    /// The iteration has converged to this rate.
    Converged(i64),
    /// Both attempts have failed: there is no rate.
    Failed,
}

/// The state of the iteration between two evaluations.
#[derive(Clone, Copy, Debug, PartialEq, Eq, Structural)]
pub struct Solver {
    /// The rate that seeded the first attempt.
    pub guess: i64,
    /// The rate at which to evaluate next.
    pub rate: i64,
    /// The evaluations that the current attempt has used.
    pub iterations: u32,
    /// The current attempt.
    pub attempt: Attempt,
}

/// The Newton-Raphson step from a rate: the rate less value over slope. There
/// is none where the slope is flat (zero in amount units) or the step leaves
/// what 64 and 128 bits can hold.
pub open spec fn newton_step(rate: int, value: int, slope: int) -> Option<int> {
    if slope == 0 || !fits_i128(value * RATE_UNITS) || !fits_i128(
        trunc_div(value * RATE_UNITS, slope),
    ) || !fits_i64(rate - trunc_div(value * RATE_UNITS, slope)) {
        None
    } else {
        Some(rate - trunc_div(value * RATE_UNITS, slope))
    }
}

/// The distance between two rates.
pub open spec fn distance(a: int, b: int) -> int {
    if a >= b {
        a - b
    } else {
        b - a
    }
}

/// What becomes of an attempt that is given up: the first gives way to the
/// second, seeded with the negated guess; the second ends the search, as
/// does a guess that cannot be negated.
pub open spec fn give_up(solver: Solver) -> (Solver, Verdict) {
    if solver.attempt == Attempt::First && solver.guess > i64::MIN {
        (
            Solver {
                guess: solver.guess,
                rate: (-solver.guess) as i64,
                iterations: 0,
                attempt: Attempt::Second,
            },
            Verdict::Evaluate,
        )
    } else {
        (solver, Verdict::Failed)
    }
}

/// The solver's answer to one evaluation. Where the step exists and moves
/// the rate by less than the tolerance, the new rate is the result. Where it
/// exists and the attempt has evaluations left, the iteration goes on from
/// the new rate. Otherwise the attempt is given up.
pub open spec fn advance(solver: Solver, value: int, slope: int) -> (Solver, Verdict) {
    match newton_step(solver.rate as int, value, slope) {
        None => give_up(solver),
        Some(next) => if distance(next, solver.rate as int) < TOLERANCE {
            (solver, Verdict::Converged(next as i64))
        } else if solver.iterations + 1 >= MAX_ITERATIONS {
            give_up(solver)
        } else {
            (
                Solver {
                    guess: solver.guess,
                    rate: next as i64,
                    iterations: (solver.iterations + 1) as u32,
                    attempt: solver.attempt,
                },
                Verdict::Evaluate,
            )
        },
    }
}

/// The evaluations that the solver can still ask for.
pub open spec fn evaluations_left(solver: Solver) -> int {
    (if solver.attempt == Attempt::First {
        MAX_ITERATIONS as int
    } else {
        0
    }) + (MAX_ITERATIONS - solver.iterations)
}

impl Solver {
    /// The attempt has not used up its evaluations.
    pub open spec fn wf(&self) -> bool {
        self.iterations < MAX_ITERATIONS
    }

    /// A solver for a schedule of `entries` cash flows, seeded with a guess.
    /// An empty schedule has no solver, and so no rate.
    pub fn start(entries: usize, guess: i64) -> (r: Option<Solver>)
        ensures
            r == (if entries == 0 {
                None
            } else {
                Some(Solver { guess, rate: guess, iterations: 0, attempt: Attempt::First })
            }),
            r.is_some() ==> r.unwrap().wf(),
    {
        if entries == 0 {
            None
        } else {
            Some(Solver { guess, rate: guess, iterations: 0, attempt: Attempt::First })
        }
    }

    /// Gives the current attempt up.
    fn abandon(&mut self) -> (r: Verdict)
        requires
            old(self).wf(),
        ensures
            (*final(self), r) == give_up(*old(self)),
            final(self).wf(),
    {
        if self.attempt == Attempt::First && self.guess > i64::MIN {
            self.rate = -self.guess;
            self.iterations = 0;
            self.attempt = Attempt::Second;
            Verdict::Evaluate
        } else {
            Verdict::Failed
        }
    }

    /// Takes the net present value and its slope at the solver's rate, both
    /// in amount units (the slope per whole unit of rate), and decides what
    /// comes next.
    pub fn step(&mut self, value: i128, slope: i128) -> (r: Verdict)
        requires
            old(self).wf(),
        ensures
            (*final(self), r) == advance(*old(self), value as int, slope as int),
            final(self).wf(),
            r == Verdict::Evaluate ==> evaluations_left(*final(self)) < evaluations_left(
                *old(self),
            ),
    {
        let scaled = match checked_product(value, RATE_UNITS as i128) {
            None => {
                return self.abandon();
            },
            Some(s) => s,
        };
        let change = match checked_quotient(scaled, slope) {
            None => {
                return self.abandon();
            },
            Some(c) => c,
        };
        let rate: i128 = self.rate as i128;
        if change < rate - i64::MAX as i128 || change > rate - i64::MIN as i128 {
            return self.abandon();
        }
        let next: i64 = (rate - change) as i64;
        let moved: i128 = if next >= self.rate {
            next as i128 - rate
        } else {
            rate - next as i128
        };
        if moved < TOLERANCE as i128 {
            return Verdict::Converged(next);
        }
        if self.iterations + 1 >= MAX_ITERATIONS {
            return self.abandon();
        }
        self.rate = next;
        self.iterations = self.iterations + 1;
        Verdict::Evaluate
    }
}

/// The rate to report for a day: the solved rate, and the rate of the day
/// before where the solver found none.
pub fn rate_or_previous(solved: Option<i64>, previous: i64) -> (r: i64)
    ensures
        r == (match solved {
            Some(rate) => rate,
            None => previous,
        }),
{
    match solved {
        Some(rate) => rate,
        None => previous,
    }
}

/// The state of a solver seeded with a guess before any evaluation.
pub open spec fn seeded(guess: i64) -> Solver {
    Solver { guess, rate: guess, iterations: 0, attempt: Attempt::First }
}

/// The state in which a solver seeded with a guess stands after it has been
/// told the first `count` evaluations of a trace, each a net present value
/// and its slope.
pub open spec fn state_after(guess: i64, trace: Seq<(i128, i128)>, count: int) -> Solver
    decreases count,
{
    if count <= 0 {
        seeded(guess)
    } else {
        advance(
            state_after(guess, trace, count - 1),
            trace[count - 1].0 as int,
            trace[count - 1].1 as int,
        ).0
    }
}

/// What the solver answers to the evaluation at a place of a trace.
pub open spec fn verdict_at(guess: i64, trace: Seq<(i128, i128)>, place: int) -> Verdict {
    advance(state_after(guess, trace, place), trace[place].0 as int, trace[place].1 as int).1
}

/// Whether a trace is a whole search on a schedule: it has an evaluation
/// and no more than twice the iteration cap of them; each is what
/// `evaluate` gave for the schedule at the rate at which the solver stood;
/// the solver asked for another evaluation after each but the last, and
/// after the last it did not.
#[verifier::opaque]
pub open spec fn is_search<F: Fn(&Vec<(Day, i128)>, i64) -> (i128, i128)>(
    evaluate: F,
    schedule: &Vec<(Day, i128)>,
    guess: i64,
    trace: Seq<(i128, i128)>,
) -> bool {
    &&& 0 < trace.len() <= 2 * MAX_ITERATIONS
    &&& forall|k: int|
        0 <= k < trace.len() ==> call_ensures(
            evaluate,
            (schedule, state_after(guess, trace, k).rate),
            #[trigger] trace[k],
        )
    &&& forall|k: int|
        0 <= k < trace.len() - 1 ==> #[trigger] verdict_at(guess, trace, k) == Verdict::Evaluate
    &&& verdict_at(guess, trace, trace.len() - 1) != Verdict::Evaluate
}

/// The rate that a search ends with: the rate to which it converged, and
/// none where both attempts failed.
pub open spec fn found(guess: i64, trace: Seq<(i128, i128)>) -> Option<i64> {
    match verdict_at(guess, trace, trace.len() - 1) {
        Verdict::Converged(rate) => Some(rate),
        _ => None,
    }
}

/// What has been told to a solver stays told: a longer trace leads through
/// the same states.
proof fn lemma_trace_extends(guess: i64, trace: Seq<(i128, i128)>, next: (i128, i128), count: int)
    requires
        0 <= count <= trace.len(),
    ensures
        state_after(guess, trace.push(next), count) == state_after(guess, trace, count),
        count < trace.len() ==> verdict_at(guess, trace.push(next), count) == verdict_at(
            guess,
            trace,
            count,
        ),
    decreases count,
{
    if count > 0 {
        lemma_trace_extends(guess, trace, next, count - 1);
        assert(trace.push(next)[count - 1] == trace[count - 1]);
    }
    if count < trace.len() {
        assert(trace.push(next)[count] == trace[count]);
    }
}

/// Whether a trace is the beginning of a search on a schedule: each of its
/// evaluations is what `evaluate` gave at the rate at which the solver
/// stood, and the solver asked for another evaluation after each.
#[verifier::opaque]
pub open spec fn search_so_far<F: Fn(&Vec<(Day, i128)>, i64) -> (i128, i128)>(
    evaluate: F,
    schedule: &Vec<(Day, i128)>,
    guess: i64,
    trace: Seq<(i128, i128)>,
) -> bool {
    &&& forall|k: int|
        0 <= k < trace.len() ==> call_ensures(
            evaluate,
            (schedule, state_after(guess, trace, k).rate),
            #[trigger] trace[k],
        )
    &&& forall|k: int|
        0 <= k < trace.len() ==> #[trigger] verdict_at(guess, trace, k) == Verdict::Evaluate
}

/// Before any evaluation a search has begun.
proof fn lemma_search_begins<F: Fn(&Vec<(Day, i128)>, i64) -> (i128, i128)>(
    evaluate: F,
    schedule: &Vec<(Day, i128)>,
    guess: i64,
)
    ensures
        search_so_far(evaluate, schedule, guess, Seq::empty()),
{
    reveal(search_so_far);
}

/// One more evaluation, taken at the rate at which the solver stands,
/// carries a search on where the solver asks for another, and makes it
/// whole where the solver does not.
proof fn lemma_search_goes_on<F: Fn(&Vec<(Day, i128)>, i64) -> (i128, i128)>(
    evaluate: F,
    schedule: &Vec<(Day, i128)>,
    guess: i64,
    told: Seq<(i128, i128)>,
    next: (i128, i128),
)
    requires
        search_so_far(evaluate, schedule, guess, told),
        call_ensures(
            evaluate,
            (schedule, state_after(guess, told, told.len() as int).rate),
            next,
        ),
    ensures
        ({
            let stood = state_after(guess, told, told.len() as int);
            let trace = told.push(next);
            let answer = advance(stood, next.0 as int, next.1 as int);
            &&& state_after(guess, trace, trace.len() as int) == answer.0
            &&& verdict_at(guess, trace, trace.len() - 1) == answer.1
            &&& answer.1 == Verdict::Evaluate ==> search_so_far(evaluate, schedule, guess, trace)
            &&& answer.1 != Verdict::Evaluate && trace.len() <= 2 * MAX_ITERATIONS ==> is_search(
                evaluate,
                schedule,
                guess,
                trace,
            )
        }),
{
    reveal(search_so_far);
    reveal(is_search);
    let n = told.len() as int;
    let trace = told.push(next);
    lemma_trace_extends(guess, told, next, n);
    assert(trace[n] == next);
    assert forall|k: int| 0 <= k < trace.len() implies call_ensures(
        evaluate,
        (schedule, state_after(guess, trace, k).rate),
        #[trigger] trace[k],
    ) by {
        lemma_trace_extends(guess, told, next, k);
        if k < n {
            assert(trace[k] == told[k]);
        }
    }
    assert forall|k: int| 0 <= k < n implies #[trigger] verdict_at(guess, trace, k)
        == Verdict::Evaluate by {
        lemma_trace_extends(guess, told, next, k);
        assert(verdict_at(guess, told, k) == Verdict::Evaluate);
    }
}

/// Whether a schedule spans time: it has a cash flow, and its first and
/// its last are not dated on the same day. The exponents of the present
/// value are fractions of the span, so that without a span no rate is
/// defined.
pub open spec fn has_span(schedule: Seq<(Day, i128)>) -> bool {
    schedule.len() > 0 && schedule[schedule.len() - 1].0 != schedule[0].0
}

/// Whether a rate can be the rate of a day. Where the day's schedule spans
/// time there is a whole search on it, and the rate is what the search
/// found, or the rate of the day before where it found none. Where the
/// schedule spans no time the rate is that of the day before.
pub open spec fn rate_of_day<F: Fn(&Vec<(Day, i128)>, i64) -> (i128, i128)>(
    evaluate: F,
    schedule: Seq<(Day, i128)>,
    guess: i64,
    previous: i64,
    rate: i64,
) -> bool {
    if has_span(schedule) {
        exists|asked: &Vec<(Day, i128)>, trace: Seq<(i128, i128)>|
            asked@ == schedule && #[trigger] is_search(evaluate, asked, guess, trace) && rate == (
            match found(guess, trace) {
                Some(solved) => solved,
                None => previous,
            })
    } else {
        rate == previous
    }
}

/// Whether a list of rates, one to a day, explains a series: the series
/// gives each day's rate in percent, and each rate is what the search on
/// the day's schedule found, or the rate of the day before (zero before the
/// first day) where it found none.
pub open spec fn rates_explain<F: Fn(&Vec<(Day, i128)>, i64) -> (i128, i128)>(
    evaluate: F,
    guess: i64,
    valuations: Seq<(Day, (i128, i128))>,
    cash_flows: Seq<(Day, i128)>,
    series: Seq<(Day, i128)>,
    rates: Seq<i64>,
) -> bool {
    &&& rates.len() == valuations.len()
    &&& series.len() == valuations.len()
    &&& forall|i: int|
        0 <= i < valuations.len() ==> (#[trigger] series[i]).0 == valuations[i].0 && series[i].1
            == rate_as_percent(rates[i] as int) && rate_of_day(
            evaluate,
            schedule_on(cash_flows, valuations[i].0, valuations[i].1.1),
            guess,
            if i == 0 {
                0
            } else {
                rates[i - 1]
            },
            rates[i],
        )
}

/// Solves for the money-weighted rate of return of a schedule by
/// Newton-Raphson iteration. `evaluate` gives the net present value of a
/// schedule and its slope at a rate, the rate in rate units, both results
/// in amount units.
///
/// A schedule that spans no time, an empty one or one whose first and last
/// cash flow are dated on the same day, has no rate, and `evaluate` is not
/// asked. On any other schedule the search starts at the guess and asks
/// `evaluate` at the rate at which the solver stands, until the solver's
/// answer is no longer to evaluate again: the result is the rate to which
/// the search converged, and none where both attempts were given up. The
/// search ends after no more than twice the iteration cap of evaluations.
pub fn mwrr<F: Fn(&Vec<(Day, i128)>, i64) -> (i128, i128)>(
    schedule: &Vec<(Day, i128)>,
    guess: i64,
    evaluate: &F,
) -> (r: Option<i64>)
    requires
        forall|asked: &Vec<(Day, i128)>, rate: i64| call_requires(*evaluate, (asked, rate)),
    ensures
        !has_span(schedule@) ==> r.is_none(),
        has_span(schedule@) ==> exists|trace: Seq<(i128, i128)>| #[trigger]
            is_search(*evaluate, schedule, guess, trace) && r == found(guess, trace),
{
    let mut solver = match Solver::start(schedule.len(), guess) {
        None => {
            return None;
        },
        Some(s) => s,
    };
    if schedule[schedule.len() - 1].0 == schedule[0].0 {
        return None;
    }
    let ghost mut trace: Seq<(i128, i128)> = Seq::empty();
    proof {
        lemma_search_begins(*evaluate, schedule, guess);
    }
    loop
        invariant
            has_span(schedule@),
            solver.wf(),
            solver == state_after(guess, trace, trace.len() as int),
            trace.len() + evaluations_left(solver) <= 2 * MAX_ITERATIONS,
            search_so_far(*evaluate, schedule, guess, trace),
            forall|asked: &Vec<(Day, i128)>, rate: i64| call_requires(*evaluate, (asked, rate)),
        decreases evaluations_left(solver),
    {
        let (value, slope) = evaluate(schedule, solver.rate);
        proof {
            lemma_search_goes_on(*evaluate, schedule, guess, trace, (value, slope));
            trace = trace.push((value, slope));
        }
        match solver.step(value, slope) {
            Verdict::Evaluate => {},
            Verdict::Converged(rate) => {
                return Some(rate);
            },
            Verdict::Failed => {
                return None;
            },
        }
    }
}

/// The money-weighted rate of return of every day of a calendar, in percent
/// units. The schedule of a day is the cash flows up to it with the day's
/// market value as a last inflow; `evaluate` gives the net present value of
/// a schedule and its slope at a rate. The rate of a day is what the search
/// of `mwrr` on the day's schedule finds; a day on which it finds no rate
/// keeps the rate of the day before, and zero where there is none.
pub fn mwrr_returns<F: Fn(&Vec<(Day, i128)>, i64) -> (i128, i128)>(
    valuations: &Vec<(Day, (i128, i128))>,
    cash_flows: &Vec<(Day, i128)>,
    guess: i64,
    evaluate: F,
) -> (r: Vec<(Day, i128)>)
    requires
        forall|schedule: &Vec<(Day, i128)>, rate: i64| call_requires(evaluate, (schedule, rate)),
    ensures
        exists|rates: Seq<i64>| #[trigger]
            rates_explain(evaluate, guess, valuations@, cash_flows@, r@, rates),
{
    let mut out: Vec<(Day, i128)> = Vec::new();
    let ghost mut rates: Seq<i64> = Seq::empty();
    let mut previous: i64 = 0;
    let mut i: usize = 0;
    while i < valuations.len()
        invariant
            i <= valuations.len(),
            out.len() == i,
            rates.len() == i,
            previous == (if i == 0 {
                0
            } else {
                rates[i - 1]
            }),
            forall|schedule: &Vec<(Day, i128)>, rate: i64|
                call_requires(evaluate, (schedule, rate)),
            forall|k: int|
                0 <= k < i ==> (#[trigger] out[k]).0 == valuations[k].0 && out[k].1
                    == rate_as_percent(rates[k] as int) && rate_of_day(
                    evaluate,
                    schedule_on(cash_flows@, valuations[k].0, valuations[k].1.1),
                    guess,
                    if k == 0 {
                        0
                    } else {
                        rates[k - 1]
                    },
                    rates[k],
                ),
        decreases valuations.len() - i,
    {
        let day: Day = valuations[i].0;
        let schedule = schedule_with_value(cash_flows, day, valuations[i].1.1);
        let solved = mwrr(&schedule, guess, &evaluate);
        let rate = rate_or_previous(solved, previous);
        proof {
            let of_day = schedule_on(cash_flows@, day, valuations[i as int].1.1);
            let asked = &schedule;
            if has_span(of_day) {
                let trace = choose|trace: Seq<(i128, i128)>| #[trigger]
                    is_search(evaluate, asked, guess, trace) && solved == found(guess, trace);
                assert(asked@ == of_day && is_search(evaluate, asked, guess, trace));
            }
            assert(rate_of_day(evaluate, of_day, guess, previous, rate));
        }
        let ghost had = out@;
        let ghost known = rates;
        out.push((day, percent_of_rate(rate)));
        proof {
            rates = rates.push(rate);
            assert forall|k: int| 0 <= k < i + 1 implies (#[trigger] out[k]).0 == valuations[k].0
                && out[k].1 == rate_as_percent(rates[k] as int) && rate_of_day(
                evaluate,
                schedule_on(cash_flows@, valuations[k].0, valuations[k].1.1),
                guess,
                if k == 0 {
                    0
                } else {
                    rates[k - 1]
                },
                rates[k],
            ) by {
                if k < i {
                    assert(out[k] == had[k]);
                    assert(rates[k] == known[k]);
                    if k > 0 {
                        assert(rates[k - 1] == known[k - 1]);
                    }
                }
            }
        }
        previous = rate;
        i += 1;
    }
    assert(rates_explain(evaluate, guess, valuations@, cash_flows@, out@, rates));
    out
}

/// A rate as a percentage, in percent units: a hundred times the rate,
/// since a rate unit and a percent unit are the same fraction.
pub open spec fn rate_as_percent(rate: int) -> int {
    100 * rate
}

/// A rate as a percentage, in percent units.
pub fn percent_of_rate(rate: i64) -> (r: i128)
    ensures
        r == rate_as_percent(rate as int),
{
    100 * (rate as i128)
}

/// However the evaluations come out, a solver asks for no more than twice
/// the iteration cap of them: each answer that asks for another evaluation
/// lowers the number left, which starts at twice the cap and never falls
/// below one while the solver is well formed.
pub proof fn lemma_evaluations_bounded(solver: Solver, value: int, slope: int)
    requires
        solver.wf(),
    ensures
        0 < evaluations_left(solver) <= 2 * MAX_ITERATIONS,
        advance(solver, value, slope).0.wf(),
        advance(solver, value, slope).1 == Verdict::Evaluate ==> evaluations_left(
            advance(solver, value, slope).0,
        ) < evaluations_left(solver),
{
}

/// A rate is reported as converged only where it is a Newton-Raphson step
/// away from the rate evaluated and closer to it than the tolerance.
pub proof fn lemma_converged_is_close(solver: Solver, value: int, slope: int, rate: i64)
    requires
        advance(solver, value, slope).1 == Verdict::Converged(rate),
    ensures
        newton_step(solver.rate as int, value, slope) == Some(rate as int),
        distance(rate as int, solver.rate as int) < TOLERANCE,
        slope != 0,
{
}

} // verus!
