use portfolio_returns::mwrr::{
    day_offsets, mwrr, mwrr_returns, percent_of_rate, rate_or_previous, schedule_with_value, Attempt, Solver,
    Verdict, MAX_ITERATIONS, TOLERANCE,
};
use std::cell::Cell;

const RATE_UNITS: f64 = 1_000_000.0;

/// Drives the solver with the present value of a schedule, evaluated in
/// floating point, and counts the evaluations.
fn solve(schedule: &Vec<(i32, i128)>, guess: i64) -> (Option<i64>, u32) {
    let mut evaluations: u32 = 0;
    let (offsets, total) = match day_offsets(schedule) {
        Some(v) => v,
        None => return (None, 0),
    };
    let mut solver = match Solver::start(schedule.len(), guess) {
        Some(s) => s,
        None => return (None, 0),
    };
    loop {
        let rate = solver.rate as f64 / RATE_UNITS;
        let mut value: f64 = 0.0;
        let mut slope: f64 = 0.0;
        for (flow, days) in schedule.iter().zip(offsets.iter()) {
            let exponent = *days as f64 / total as f64;
            value += flow.1 as f64 / (1.0 + rate).powf(exponent);
            slope += -(flow.1 as f64) * exponent / (1.0 + rate).powf(exponent + 1.0);
        }
        evaluations += 1;
        match solver.step(value.round() as i128, slope.round() as i128) {
            Verdict::Evaluate => {}
            Verdict::Converged(rate) => return (Some(rate), evaluations),
            Verdict::Failed => return (None, evaluations),
        }
    }
}

#[test]
fn one_year_round_trip_converges_to_ten_percent() {
    let schedule: Vec<(i32, i128)> = vec![(0, -100_000_000), (365, 110_000_000)];
    let (rate, _) = solve(&schedule, 500_000);
    let rate = rate.expect("the solver converges");
    assert!((rate - 100_000).abs() < TOLERANCE, "rate {}", rate);
}

#[test]
fn negative_return_is_found() {
    let schedule: Vec<(i32, i128)> = vec![(0, -100_000_000), (200, 80_000_000)];
    let (rate, _) = solve(&schedule, 500_000);
    let rate = rate.expect("the solver converges");
    assert!((rate + 200_000).abs() < TOLERANCE, "rate {}", rate);
}

#[test]
fn empty_schedule_has_no_rate() {
    assert_eq!(Solver::start(0, 500_000), None);
    assert_eq!(day_offsets(&vec![]), None);
    assert_eq!(solve(&vec![], 500_000), (None, 0));
}

#[test]
fn start_seeds_first_attempt_with_guess() {
    assert_eq!(
        Solver::start(3, 500_000),
        Some(Solver { guess: 500_000, rate: 500_000, iterations: 0, attempt: Attempt::First })
    );
}

#[test]
fn newton_step_moves_rate() {
    let mut solver = Solver::start(2, 500_000).unwrap();
    // rate - value / slope = 0.5 - (-30 / 60) = 1.0
    assert_eq!(solver.step(-30, 60), Verdict::Evaluate);
    assert_eq!(
        solver,
        Solver { guess: 500_000, rate: 1_000_000, iterations: 1, attempt: Attempt::First }
    );
}

#[test]
fn small_step_converges() {
    let mut solver = Solver::start(2, 500_000).unwrap();
    // value / slope = 1 / 200 = 0.005, less than the tolerance of 0.01
    assert_eq!(solver.step(1, 200), Verdict::Converged(495_000));
    // a step of exactly the tolerance is not yet close enough
    let mut solver = Solver::start(2, 500_000).unwrap();
    assert_eq!(solver.step(1, 100), Verdict::Evaluate);
    assert_eq!(solver.rate, 490_000);
}

#[test]
fn flat_slope_retries_with_negated_guess_then_fails() {
    let mut solver = Solver::start(2, 500_000).unwrap();
    assert_eq!(solver.step(10, 0), Verdict::Evaluate);
    assert_eq!(
        solver,
        Solver { guess: 500_000, rate: -500_000, iterations: 0, attempt: Attempt::Second }
    );
    assert_eq!(solver.step(10, 0), Verdict::Failed);
}

#[test]
fn each_attempt_is_capped() {
    let mut solver = Solver::start(2, 0).unwrap();
    let mut evaluations: u32 = 0;
    loop {
        evaluations += 1;
        // a step of one whole unit of rate, every time
        match solver.step(-1, 1) {
            Verdict::Evaluate => {}
            Verdict::Converged(_) => panic!("a step of one unit never converges"),
            Verdict::Failed => break,
        }
    }
    assert_eq!(evaluations, 2 * MAX_ITERATIONS);
}

#[test]
fn step_that_cannot_be_held_gives_the_attempt_up() {
    let mut solver = Solver::start(2, 500_000).unwrap();
    assert_eq!(solver.step(i128::MAX, 1), Verdict::Evaluate);
    assert_eq!(solver.attempt, Attempt::Second);
    let mut solver = Solver { guess: 1, rate: i64::MAX, iterations: 0, attempt: Attempt::Second };
    assert_eq!(solver.step(-1, 1), Verdict::Failed);
}

#[test]
fn guess_that_cannot_be_negated_fails_at_once() {
    let mut solver = Solver::start(2, i64::MIN).unwrap();
    assert_eq!(solver.step(1, 0), Verdict::Failed);
}

#[test]
fn schedule_takes_flows_up_to_the_day_and_adds_value() {
    let flows: Vec<(i32, i128)> = vec![(1, -1000), (3, -500), (5, 200), (8, -50)];
    assert_eq!(
        schedule_with_value(&flows, 5, 1800),
        vec![(1, -1000), (3, -500), (5, 200), (5, 1800)]
    );
    assert_eq!(schedule_with_value(&flows, 0, 7), vec![(0, 7)]);
}

#[test]
fn offsets_count_days_from_first_flow() {
    let schedule: Vec<(i32, i128)> = vec![(10, -1), (15, 2), (40, 3)];
    assert_eq!(day_offsets(&schedule), Some((vec![0, 5, 30], 30)));
    let wide: Vec<(i32, i128)> = vec![(i32::MIN, -1), (i32::MAX, 2)];
    assert_eq!(day_offsets(&wide), Some((vec![0, 4_294_967_295], 4_294_967_295)));
}

#[test]
fn unsolved_day_keeps_previous_rate() {
    assert_eq!(rate_or_previous(Some(120_000), 90_000), 120_000);
    assert_eq!(rate_or_previous(None, 90_000), 90_000);
}

#[test]
fn rate_in_percent_units() {
    assert_eq!(percent_of_rate(100_000), 10_000_000);
    assert_eq!(percent_of_rate(-250_000), -25_000_000);
}

/// The present value of a schedule and its slope at a rate, in whole amounts.
fn present_value(schedule: &Vec<(i32, i128)>, rate: i64) -> (i128, i128) {
    let (offsets, total) = match day_offsets(schedule) {
        Some(v) => v,
        None => return (0, 0),
    };
    let rate = rate as f64 / RATE_UNITS;
    let mut value: f64 = 0.0;
    let mut slope: f64 = 0.0;
    for (flow, days) in schedule.iter().zip(offsets.iter()) {
        let exponent = *days as f64 / total as f64;
        value += flow.1 as f64 / (1.0 + rate).powf(exponent);
        slope += -(flow.1 as f64) * exponent / (1.0 + rate).powf(exponent + 1.0);
    }
    (value.round() as i128, slope.trunc() as i128)
}

#[test]
fn mwrr_of_one_year_round_trip_is_ten_percent() {
    let schedule: Vec<(i32, i128)> = vec![(0, -100_000_000), (365, 110_000_000)];
    let rate = mwrr(&schedule, 500_000, &present_value).unwrap();
    assert!((rate - 100_000).abs() < TOLERANCE, "rate {}", rate);
}

#[test]
fn mwrr_of_irregular_schedule_zeroes_present_value() {
    let schedule: Vec<(i32, i128)> =
        vec![(0, -1_000_000_000), (40, -500_000_000), (90, 200_000_000), (200, 1_500_000_000)];
    let rate = mwrr(&schedule, 500_000, &present_value).unwrap();
    let (value, slope) = present_value(&schedule, rate);
    // within the tolerance of the root, the value is within the tolerance times the slope
    assert!(value.abs() <= (slope.abs() / 100) + 1, "value {} slope {}", value, slope);
}

#[test]
fn mwrr_of_empty_schedule_is_none() {
    let asked = Cell::new(0u32);
    let rate = mwrr(&vec![], 500_000, &|_: &Vec<(i32, i128)>, _: i64| {
        asked.set(asked.get() + 1);
        (0, 1)
    });
    assert_eq!(rate, None);
    assert_eq!(asked.get(), 0);
}

#[test]
fn mwrr_gives_up_after_both_attempts() {
    let schedule: Vec<(i32, i128)> = vec![(0, -1), (1, 1)];
    let asked = Cell::new(0u32);
    let rate = mwrr(&schedule, 0, &|_: &Vec<(i32, i128)>, _: i64| {
        asked.set(asked.get() + 1);
        (-1, 1)
    });
    assert_eq!(rate, None);
    assert_eq!(asked.get(), 2 * MAX_ITERATIONS);
}

#[test]
fn mwrr_on_a_single_day_has_no_rate() {
    // every exponent is undefined: the value and the slope come out as zero
    let schedule: Vec<(i32, i128)> = vec![(5, -100), (5, 100)];
    let rate = mwrr(&schedule, 500_000, &present_value);
    assert_eq!(rate, None);
}

#[test]
fn mwrr_series_falls_back_to_the_day_before() {
    // 100 paid on day 0; worth 100 on day 0, 105 after half a year, 110 after a year
    let cash_flows: Vec<(i32, i128)> = vec![(0, -100_000_000)];
    let valuations: Vec<(i32, (i128, i128))> = vec![
        (0, (100_000_000, 100_000_000)),
        (182, (100_000_000, 105_000_000)),
        (365, (100_000_000, 110_000_000)),
    ];
    let series = mwrr_returns(&valuations, &cash_flows, 500_000, present_value);
    assert_eq!(series.len(), 3);
    // on day 0 every exponent is undefined: no rate, and none before it
    assert_eq!(series[0], (0, 0));
    assert_eq!(series[1].0, 182);
    assert!((series[1].1 - 5_000_000).abs() < 100 * TOLERANCE as i128, "{:?}", series[1]);
    assert_eq!(series[2].0, 365);
    assert!((series[2].1 - 10_000_000).abs() < 100 * TOLERANCE as i128, "{:?}", series[2]);
}

#[test]
fn mwrr_series_keeps_last_rate_when_the_search_fails() {
    let cash_flows: Vec<(i32, i128)> = vec![(0, -100)];
    let valuations: Vec<(i32, (i128, i128))> =
        vec![(10, (100, 110)), (11, (100, 120)), (12, (100, 130))];
    let calls = Cell::new(0u32);
    // the first day converges at once; every later evaluation is flat
    let series = mwrr_returns(&valuations, &cash_flows, 500_000, |_: &Vec<(i32, i128)>, _: i64| {
        calls.set(calls.get() + 1);
        if calls.get() == 1 {
            (1, 200)
        } else {
            (1, 0)
        }
    });
    assert_eq!(series, vec![(10, 49_500_000), (11, 49_500_000), (12, 49_500_000)]);
    assert_eq!(calls.get(), 5);
}

#[test]
fn mwrr_of_a_schedule_without_span_asks_nothing() {
    let asked = Cell::new(0u32);
    let converging = |_: &Vec<(i32, i128)>, _: i64| {
        asked.set(asked.get() + 1);
        (1, 1_000_000_000)
    };
    assert_eq!(mwrr(&vec![(19723, -100)], 500_000, &converging), None);
    assert_eq!(mwrr(&vec![(7, -100), (9, 30), (7, 80)], 500_000, &converging), None);
    assert_eq!(asked.get(), 0);
    assert_eq!(mwrr(&vec![(7, -100), (8, 80)], 500_000, &converging), Some(500_000));
    assert_eq!(asked.get(), 1);
}
