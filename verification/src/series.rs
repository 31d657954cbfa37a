//! Series keyed by calendar day, and the forward-fill that closes their gaps.

use crate::amount::{checked_sum, fits_i128, Day};
use vstd::prelude::*;

verus! {

/// The value that a series gives for a day: that of the first entry dated so.
pub open spec fn value_on<T>(series: Seq<(Day, T)>, day: Day) -> Option<T>
    decreases series.len(),
{
    if series.len() == 0 {
        None
    } else if series[0].0 == day {
        Some(series[0].1)
    } else {
        value_on(series.drop_first(), day)
    }
}

/// A day has a value exactly when some entry bears its date.
pub proof fn lemma_value_on_dated<T>(series: Seq<(Day, T)>, day: Day)
    ensures
        value_on(series, day).is_some() <==> exists|i: int|
            0 <= i < series.len() && (#[trigger] series[i]).0 == day,
    decreases series.len(),
{
    if series.len() > 0 {
        let rest = series.drop_first();
        lemma_value_on_dated(rest, day);
        if series[0].0 != day {
            if value_on(rest, day).is_some() {
                let i = choose|i: int| 0 <= i < rest.len() && (#[trigger] rest[i]).0 == day;
                assert(series[i + 1].0 == day);
            }
            if exists|i: int| 0 <= i < series.len() && (#[trigger] series[i]).0 == day {
                let i = choose|i: int| 0 <= i < series.len() && (#[trigger] series[i]).0 == day;
                assert(rest[i - 1].0 == day);
            }
        }
    }
}

/// Looks a day up in a series.
pub fn lookup<T: Copy>(series: &Vec<(Day, T)>, day: Day) -> (r: Option<T>)
    ensures
        r == value_on(series@, day),
{
    let mut i: usize = 0;
    assert(series@.subrange(0, series.len() as int) == series@);
    while i < series.len()
        invariant
            i <= series.len(),
            value_on(series@, day) == value_on(series@.subrange(i as int, series.len() as int), day),
        decreases series.len() - i,
    {
        let ghost rest = series@.subrange(i as int, series.len() as int);
        assert(rest[0] == series[i as int]);
        if series[i].0 == day {
            return Some(series[i].1);
        }
        assert(rest.drop_first() == series@.subrange(i + 1, series.len() as int));
        i += 1;
    }
    assert(series@.subrange(i as int, series.len() as int).len() == 0);
    None
}

/// A run of consecutive days that all carry one value.
pub open spec fn run<T>(from: Day, value: T, length: int) -> Seq<(Day, T)> {
    Seq::new(length as nat, |k: int| ((from + k) as Day, value))
}

/// The number of days that the entry at a place stands for once the series
/// is filled: the distance to the next entry where that is more than one day,
/// and one day otherwise.
pub open spec fn span<T>(series: Seq<(Day, T)>, place: int) -> int {
    if place + 1 < series.len() && series[place + 1].0 - series[place].0 > 1 {
        series[place + 1].0 - series[place].0
    } else {
        1
    }
}

/// The forward-fill of the first `count` entries of a series.
pub open spec fn filled_to<T>(series: Seq<(Day, T)>, count: int) -> Seq<(Day, T)>
    decreases count,
{
    if count <= 0 {
        Seq::empty()
    } else {
        filled_to(series, count - 1) + run(
            series[count - 1].0,
            series[count - 1].1,
            span(series, count - 1),
        )
    }
}

/// The forward-fill of a series: every entry is followed by copies of itself
/// on each day that is missing before the next entry.
pub open spec fn filled<T>(series: Seq<(Day, T)>) -> Seq<(Day, T)> {
    filled_to(series, series.len() as int)
}

/// No two adjacent entries are more than one day apart.
pub open spec fn gap_free<T>(series: Seq<(Day, T)>) -> bool {
    forall|i: int| 0 <= i < series.len() - 1 ==> series[i + 1].0 - (#[trigger] series[i]).0 <= 1
}

/// Every entry is dated one day after the entry before it.
pub open spec fn dense<T>(series: Seq<(Day, T)>) -> bool {
    forall|i: int| 0 <= i < series.len() - 1 ==> series[i + 1].0 - (#[trigger] series[i]).0 == 1
}

/// The dates of a series increase strictly.
pub open spec fn increasing<T>(series: Seq<(Day, T)>) -> bool {
    forall|i: int| 0 <= i < series.len() - 1 ==> (#[trigger] series[i]).0 < series[i + 1].0
}

/// Closes the gaps of a series: wherever two adjacent entries are more than
/// one day apart, the earlier value is repeated on every day between them.
pub fn interpolate<T: Copy>(history: &mut Vec<(Day, T)>)
    ensures
        final(history)@ == filled(old(history)@),
{
    let mut out: Vec<(Day, T)> = Vec::new();
    let mut i: usize = 0;
    while i < history.len()
        invariant
            i <= history.len(),
            out@ == filled_to(history@, i as int),
        decreases history.len() - i,
    {
        let day: Day = history[i].0;
        let value: T = history[i].1;
        let mut days: i64 = 1;
        if i + 1 < history.len() {
            let distance: i64 = history[i + 1].0 as i64 - day as i64;
            if distance > 1 {
                days = distance;
            }
        }
        assert(days == span(history@, i as int));
        let mut k: i64 = 0;
        while k < days
            invariant
                0 <= k <= days,
                i < history.len(),
                day == history[i as int].0,
                value == history[i as int].1,
                days == span(history@, i as int),
                out@ == filled_to(history@, i as int) + run(day, value, k as int),
            decreases days - k,
        {
            let date: i64 = day as i64 + k;
            out.push((date as Day, value));
            assert(run(day, value, k as int).push(((day + k) as Day, value)) == run(
                day,
                value,
                k + 1,
            ));
            k += 1;
        }
        i += 1;
    }
    *history = out;
}

/// A series without gaps is its own forward-fill.
pub proof fn lemma_filled_keeps_gap_free<T>(series: Seq<(Day, T)>)
    requires
        gap_free(series),
    ensures
        filled(series) == series,
{
    lemma_filled_to_prefix(series, series.len() as int);
    assert(series.subrange(0, series.len() as int) == series);
}

proof fn lemma_filled_to_prefix<T>(series: Seq<(Day, T)>, count: int)
    requires
        gap_free(series),
        0 <= count <= series.len(),
    ensures
        filled_to(series, count) == series.subrange(0, count),
    decreases count,
{
    if count > 0 {
        lemma_filled_to_prefix(series, count - 1);
        let entry = series[count - 1];
        assert(span(series, count - 1) == 1);
        assert(run(entry.0, entry.1, 1) == seq![entry]);
        assert(series.subrange(0, count - 1) + seq![entry] == series.subrange(0, count));
    } else {
        assert(series.subrange(0, 0) == Seq::<(Day, T)>::empty());
    }
}

/// What the forward-fill of the first `count` entries looks like: it has no
/// gaps, it is not empty unless `count` is zero, and it ends on the last day
/// that the last of those entries stands for.
proof fn lemma_filled_to_shape<T>(series: Seq<(Day, T)>, count: int)
    requires
        0 <= count <= series.len(),
    ensures
        gap_free(filled_to(series, count)),
        count > 0 ==> filled_to(series, count).len() > 0 && filled_to(series, count).last().0
            == series[count - 1].0 + span(series, count - 1) - 1,
        count > 0 ==> filled_to(series, count)[0] == series[0],
    decreases count,
{
    if count > 0 {
        lemma_filled_to_shape(series, count - 1);
        let head = filled_to(series, count - 1);
        let entry = series[count - 1];
        let tail = run(entry.0, entry.1, span(series, count - 1));
        let whole = filled_to(series, count);
        assert(whole == head + tail);
        assert(tail.len() == span(series, count - 1));
        assert forall|i: int| 0 <= i < whole.len() - 1 implies whole[i + 1].0 - (
        #[trigger] whole[i]).0 <= 1 by {
            if i + 1 < head.len() {
                assert(whole[i] == head[i]);
                assert(whole[i + 1] == head[i + 1]);
            } else if i + 1 == head.len() {
                assert(whole[i] == head.last());
                assert(whole[i + 1] == tail[0]);
            } else {
                assert(whole[i] == tail[i - head.len()]);
                assert(whole[i + 1] == tail[i + 1 - head.len()]);
            }
        }
        assert(whole.last() == tail.last());
        if count == 1 {
            assert(head.len() == 0);
            assert(whole[0] == tail[0]);
        } else {
            assert(whole[0] == head[0]);
        }
    }
}

/// The forward-fill of any series has no gaps.
pub proof fn lemma_filled_is_gap_free<T>(series: Seq<(Day, T)>)
    ensures
        gap_free(filled(series)),
{
    lemma_filled_to_shape(series, series.len() as int);
}

/// Forward-filling is idempotent: filling a filled series changes nothing.
pub proof fn lemma_interpolate_idempotent<T>(series: Seq<(Day, T)>)
    ensures
        filled(filled(series)) == filled(series),
{
    lemma_filled_is_gap_free(series);
    lemma_filled_keeps_gap_free(filled(series));
}

/// A series whose days are already consecutive is its own forward-fill.
pub proof fn lemma_dense_is_fixed<T>(series: Seq<(Day, T)>)
    requires
        dense(series),
    ensures
        filled(series) == series,
{
    lemma_filled_keeps_gap_free(series);
}

/// The first place from `from` on whose entry is not dated before the day,
/// and the length of the series where every entry from there on is.
pub open spec fn place_from<T>(series: Seq<(Day, T)>, day: Day, from: int) -> int
    decreases series.len() - from,
{
    if from < 0 || from >= series.len() {
        series.len() as int
    } else if series[from].0 >= day {
        from
    } else {
        place_from(series, day, from + 1)
    }
}

/// The place at which an entry for the day stands or belongs.
pub open spec fn place_of<T>(series: Seq<(Day, T)>, day: Day) -> int {
    place_from(series, day, 0)
}

/// Whether the entry at the day's place is dated on the day.
pub open spec fn dated<T>(series: Seq<(Day, T)>, day: Day) -> bool {
    place_of(series, day) < series.len() && series[place_of(series, day)].0 == day
}

/// The series with the day set to a value: the entry at the day's place is
/// replaced where it is dated on the day, and a new entry goes in before it
/// where it is not.
pub open spec fn with_entry<T>(series: Seq<(Day, T)>, day: Day, value: T) -> Seq<(Day, T)> {
    if dated(series, day) {
        series.update(place_of(series, day), (day, value))
    } else {
        series.insert(place_of(series, day), (day, value))
    }
}

/// The amount that a series holds at the day's place, and zero where it
/// holds none for the day.
pub open spec fn amount_on(series: Seq<(Day, i128)>, day: Day) -> int {
    if dated(series, day) {
        series[place_of(series, day)].1 as int
    } else {
        0
    }
}

/// The series after an amount has been added to a day.
pub open spec fn posted(series: Seq<(Day, i128)>, day: Day, amount: i128) -> Seq<(Day, i128)> {
    with_entry(series, day, (amount_on(series, day) + amount) as i128)
}

/// Where the day's place lies, and what lies on either side of it.
pub proof fn lemma_place<T>(series: Seq<(Day, T)>, day: Day, from: int)
    requires
        0 <= from <= series.len(),
    ensures
        from <= place_from(series, day, from) <= series.len(),
        forall|k: int| from <= k < place_from(series, day, from) ==> (#[trigger] series[k]).0 < day,
        place_from(series, day, from) < series.len() ==> series[place_from(series, day, from)].0
            >= day,
    decreases series.len() - from,
{
    if from < series.len() && series[from].0 < day {
        lemma_place(series, day, from + 1);
    }
}

/// Setting a day keeps a series in the order of its dates.
pub proof fn lemma_with_entry_increasing<T>(series: Seq<(Day, T)>, day: Day, value: T)
    requires
        increasing(series),
    ensures
        increasing(with_entry(series, day, value)),
{
    lemma_place(series, day, 0);
    let at = place_of(series, day);
    let after = with_entry(series, day, value);
    assert forall|i: int| 0 <= i < after.len() - 1 implies (#[trigger] after[i]).0 < after[i
        + 1].0 by {
        if dated(series, day) {
            assert(series[i].0 < series[i + 1].0);
        } else {
            if i + 1 < at {
                assert(series[i].0 < series[i + 1].0);
            } else if i + 1 == at {
                assert(series[i].0 < day);
            } else if i == at {
                assert(after[i + 1] == series[i]);
            } else {
                assert(after[i] == series[i - 1]);
                assert(after[i + 1] == series[i]);
                assert(series[i - 1].0 < series[i - 1 + 1].0);
            }
        }
    }
}

/// The place at which an entry for the day stands or belongs.
pub fn find_place<T>(series: &Vec<(Day, T)>, day: Day) -> (r: usize)
    ensures
        r == place_of(series@, day),
        r <= series.len(),
{
    let mut at: usize = 0;
    while at < series.len()
        invariant
            at <= series.len(),
            place_of(series@, day) == place_from(series@, day, at as int),
        decreases series.len() - at,
    {
        if series[at].0 >= day {
            return at;
        }
        at += 1;
    }
    at
}

/// Sets a day of a series to a value.
pub fn put<T: Copy>(series: &mut Vec<(Day, T)>, day: Day, value: T)
    ensures
        final(series)@ == with_entry(old(series)@, day, value),
{
    let at: usize = find_place(series, day);
    if at < series.len() && series[at].0 == day {
        series.set(at, (day, value));
    } else {
        series.insert(at, (day, value));
    }
}

/// Adds an amount to a day of a series. Where the sum does not fit in 128
/// bits the series is left as it was.
pub fn post(series: &mut Vec<(Day, i128)>, day: Day, amount: i128) -> (r: bool)
    ensures
        r == fits_i128(amount_on(old(series)@, day) + amount),
        r ==> final(series)@ == posted(old(series)@, day, amount),
        !r ==> final(series)@ == old(series)@,
{
    let at: usize = find_place(series, day);
    let held: i128 = if at < series.len() && series[at].0 == day {
        series[at].1
    } else {
        0
    };
    match checked_sum(held, amount) {
        None => false,
        Some(sum) => {
            put(series, day, sum);
            true
        },
    }
}

/// The first `count` pairs of a list, keyed by day: a later pair replaces
/// an earlier one of the same day.
pub open spec fn keyed_to<T>(pairs: Seq<(Day, T)>, count: int) -> Seq<(Day, T)>
    decreases count,
{
    if count <= 0 {
        Seq::empty()
    } else {
        with_entry(keyed_to(pairs, count - 1), pairs[count - 1].0, pairs[count - 1].1)
    }
}

/// The dates of a series never fall.
pub open spec fn chronological<T>(series: Seq<(Day, T)>) -> bool {
    forall|i: int, j: int|
        0 <= i <= j < series.len() ==> (#[trigger] series[i]).0 <= (#[trigger] series[j]).0
}

/// In a series in the order of its dates, an entry is dated before every
/// entry after it.
pub proof fn lemma_keyed_order<T>(series: Seq<(Day, T)>)
    requires
        increasing(series),
    ensures
        chronological(series),
        forall|i: int, j: int|
            0 <= i < j < series.len() ==> (#[trigger] series[i]).0 < (#[trigger] series[j]).0,
{
    assert forall|i: int, j: int| 0 <= i <= j < series.len() implies (#[trigger] series[i]).0 <= (
    #[trigger] series[j]).0 by {
        lemma_increasing_ordered(series, i, j);
    }
    assert forall|i: int, j: int| 0 <= i < j < series.len() implies (#[trigger] series[i]).0 < (
    #[trigger] series[j]).0 by {
        lemma_increasing_ordered(series, i, j);
    }
}

/// A list of pairs keyed by day comes out in the order of its dates.
pub proof fn lemma_keyed_increasing<T>(pairs: Seq<(Day, T)>, count: int)
    ensures
        increasing(keyed_to(pairs, count)),
    decreases count,
{
    if count > 0 {
        lemma_keyed_increasing(pairs, count - 1);
        lemma_with_entry_increasing(
            keyed_to(pairs, count - 1),
            pairs[count - 1].0,
            pairs[count - 1].1,
        );
    }
}

/// Lays the pairs of a map from days to values out in the order of their
/// dates, one entry to a day.
pub fn hashmap_to_sorted_vec<T: Copy>(hashmap: Vec<(Day, T)>) -> (r: Vec<(Day, T)>)
    ensures
        r@ == keyed_to(hashmap@, hashmap.len() as int),
        increasing(r@),
{
    let mut out: Vec<(Day, T)> = Vec::new();
    let mut i: usize = 0;
    while i < hashmap.len()
        invariant
            i <= hashmap.len(),
            out@ == keyed_to(hashmap@, i as int),
        decreases hashmap.len() - i,
    {
        put(&mut out, hashmap[i].0, hashmap[i].1);
        i += 1;
    }
    proof {
        lemma_keyed_increasing(hashmap@, hashmap.len() as int);
    }
    out
}

/// The values of a series without their dates.
pub fn strip_dates<T: Copy>(return_history: Vec<(Day, T)>) -> (r: Vec<T>)
    ensures
        r.len() == return_history.len(),
        forall|i: int| 0 <= i < r.len() ==> #[trigger] r[i] == return_history[i].1,
{
    let mut out: Vec<T> = Vec::new();
    let mut i: usize = 0;
    while i < return_history.len()
        invariant
            i <= return_history.len(),
            out.len() == i,
            forall|k: int| 0 <= k < i ==> #[trigger] out[k] == return_history[k].1,
        decreases return_history.len() - i,
    {
        out.push(return_history[i].1);
        i += 1;
    }
    out
}

/// The pair of amounts that a series holds at the day's place, and zeros
/// where it holds none for the day.
pub open spec fn pair_on(series: Seq<(Day, (i128, i128))>, day: Day) -> (int, int) {
    if dated(series, day) {
        (series[place_of(series, day)].1.0 as int, series[place_of(series, day)].1.1 as int)
    } else {
        (0, 0)
    }
}

/// The series after a pair of amounts has been added to a day, each to its
/// own side.
pub open spec fn pair_posted(
    series: Seq<(Day, (i128, i128))>,
    day: Day,
    first: i128,
    second: i128,
) -> Seq<(Day, (i128, i128))> {
    with_entry(
        series,
        day,
        ((pair_on(series, day).0 + first) as i128, (pair_on(series, day).1 + second) as i128),
    )
}

/// The amount that a series holds for a day, and zero where it holds none.
pub fn amount_at(series: &Vec<(Day, i128)>, day: Day) -> (r: i128)
    ensures
        r == amount_on(series@, day),
{
    let at: usize = find_place(series, day);
    if at < series.len() && series[at].0 == day {
        series[at].1
    } else {
        0
    }
}

/// The pair that a series holds for a day, and zeros where it holds none.
pub fn pair_at(series: &Vec<(Day, (i128, i128))>, day: Day) -> (r: (i128, i128))
    ensures
        r.0 == pair_on(series@, day).0,
        r.1 == pair_on(series@, day).1,
{
    let at: usize = find_place(series, day);
    if at < series.len() && series[at].0 == day {
        series[at].1
    } else {
        (0, 0)
    }
}

/// Adds a pair of amounts to a day of a series. Where either sum does not
/// fit in 128 bits the series is left as it was.
pub fn post_pair(series: &mut Vec<(Day, (i128, i128))>, day: Day, first: i128, second: i128) -> (r:
    bool)
    ensures
        r == (fits_i128(pair_on(old(series)@, day).0 + first) && fits_i128(
            pair_on(old(series)@, day).1 + second,
        )),
        r ==> final(series)@ == pair_posted(old(series)@, day, first, second),
        !r ==> final(series)@ == old(series)@,
{
    let held = pair_at(series, day);
    match checked_sum(held.0, first) {
        None => false,
        Some(a) => match checked_sum(held.1, second) {
            None => false,
            Some(b) => {
                put(series, day, (a, b));
                true
            },
        },
    }
}

/// The value of a day is that of the entry dated on it before which no
/// entry is dated on it.
pub proof fn lemma_value_on_first<T>(series: Seq<(Day, T)>, day: Day, place: int)
    requires
        0 <= place < series.len(),
        series[place].0 == day,
        forall|k: int| 0 <= k < place ==> (#[trigger] series[k]).0 != day,
    ensures
        value_on(series, day) == Some(series[place].1),
    decreases series.len(),
{
    if place > 0 {
        let rest = series.drop_first();
        assert(series[0].0 != day);
        assert forall|k: int| 0 <= k < place - 1 implies (#[trigger] rest[k]).0 != day by {
            assert(series[k + 1].0 != day);
        }
        lemma_value_on_first(rest, day, place - 1);
    }
}

/// Setting a day gives the day its value and leaves the value of every
/// other day as it was.
pub proof fn lemma_with_entry_values<T>(series: Seq<(Day, T)>, day: Day, value: T, other: Day)
    ensures
        value_on(with_entry(series, day, value), day) == Some(value),
        other != day ==> value_on(with_entry(series, day, value), other) == value_on(
            series,
            other,
        ),
{
    lemma_place(series, day, 0);
    let at = place_of(series, day);
    let after = with_entry(series, day, value);
    assert(after[at] == (day, value));
    assert forall|k: int| 0 <= k < at implies (#[trigger] after[k]).0 != day by {
        assert(after[k] == series[k]);
    }
    lemma_value_on_first(after, day, at);
    if other != day {
        lemma_value_on_dated(series, other);
        lemma_value_on_dated(after, other);
        if value_on(series, other).is_some() {
            let i = first_dated(series, other, series.len() as int);
            lemma_first_dated(series, other, series.len() as int);
            lemma_value_on_first(series, other, i);
            let j = if dated(series, day) || i < at {
                i
            } else {
                i + 1
            };
            assert(after[j] == series[i]);
            assert forall|k: int| 0 <= k < j implies (#[trigger] after[k]).0 != other by {
                if dated(series, day) {
                    if k != at {
                        assert(after[k] == series[k]);
                    }
                } else if k < at {
                    assert(after[k] == series[k]);
                } else if k > at {
                    assert(after[k] == series[k - 1]);
                }
            }
            lemma_value_on_first(after, other, j);
        } else {
            if value_on(after, other).is_some() {
                let j = choose|j: int| 0 <= j < after.len() && (#[trigger] after[j]).0 == other;
                if dated(series, day) {
                    assert(after[j] == series[j]);
                } else if j < at {
                    assert(after[j] == series[j]);
                } else {
                    assert(after[j] == series[j - 1]);
                }
            }
        }
    }
}

/// The first place among the first `count` at which an entry is dated on
/// the day, and `count` where there is none.
pub open spec fn first_dated<T>(series: Seq<(Day, T)>, day: Day, count: int) -> int
    decreases count,
{
    if count <= 0 {
        0
    } else if first_dated(series, day, count - 1) < count - 1 {
        first_dated(series, day, count - 1)
    } else if series[count - 1].0 == day {
        count - 1
    } else {
        count
    }
}

proof fn lemma_first_dated<T>(series: Seq<(Day, T)>, day: Day, count: int)
    requires
        0 <= count <= series.len(),
    ensures
        0 <= first_dated(series, day, count) <= count,
        forall|k: int|
            0 <= k < first_dated(series, day, count) ==> (#[trigger] series[k]).0 != day,
        first_dated(series, day, count) < count ==> series[first_dated(series, day, count)].0
            == day,
    decreases count,
{
    if count > 0 {
        lemma_first_dated(series, day, count - 1);
    }
}

/// The day on which the forward-fill of the first `count` entries ends, and
/// the day before the first where `count` is zero.
pub open spec fn filled_until<T>(series: Seq<(Day, T)>, count: int) -> int {
    if count <= 0 {
        series[0].0 - 1
    } else {
        series[count - 1].0 + span(series, count - 1) - 1
    }
}

/// The forward-fill of the first entries of a series in the order of its
/// dates has one entry for every day from the first on.
proof fn lemma_filled_to_days<T>(series: Seq<(Day, T)>, count: int)
    requires
        increasing(series),
        0 <= count <= series.len(),
    ensures
        filled_to(series, count).len() == filled_until(series, count) - series[0].0 + 1,
        forall|k: int|
            0 <= k < filled_to(series, count).len() ==> (#[trigger] filled_to(series, count)[k]).0
                == series[0].0 + k,
    decreases count,
{
    if count > 0 {
        lemma_filled_to_days(series, count - 1);
        lemma_increasing_ordered(series, 0, count - 1);
        let head = filled_to(series, count - 1);
        let entry = series[count - 1];
        let tail = run(entry.0, entry.1, span(series, count - 1));
        let whole = filled_to(series, count);
        assert(whole == head + tail);
        if count > 1 {
            assert(series[count - 2].0 < series[count - 2 + 1].0);
            assert(filled_until(series, count - 1) == entry.0 - 1);
        }
        assert(head.len() == entry.0 - series[0].0);
        assert forall|k: int| 0 <= k < whole.len() implies (#[trigger] whole[k]).0 == series[0].0
            + k by {
            if k < head.len() {
                assert(whole[k] == head[k]);
            } else {
                assert(whole[k] == tail[k - head.len()]);
            }
        }
    }
}

/// In the forward-fill of the first entries of a series in the order of its
/// dates, a day that an entry stands for has the value of that entry.
proof fn lemma_filled_to_value<T>(series: Seq<(Day, T)>, count: int, place: int, day: int)
    requires
        increasing(series),
        0 <= place < count <= series.len(),
        series[place].0 <= day < series[place].0 + span(series, place),
    ensures
        0 <= day - series[0].0 < filled_to(series, count).len(),
        filled_to(series, count)[day - series[0].0] == (day as Day, series[place].1),
    decreases count,
{
    lemma_filled_to_days(series, count);
    lemma_filled_to_days(series, count - 1);
    lemma_increasing_ordered(series, 0, place);
    lemma_increasing_ordered(series, 0, count - 1);
    let head = filled_to(series, count - 1);
    let entry = series[count - 1];
    let tail = run(entry.0, entry.1, span(series, count - 1));
    let whole = filled_to(series, count);
    assert(whole == head + tail);
    if count > 1 {
        assert(series[count - 2].0 < series[count - 2 + 1].0);
    }
    assert(head.len() == entry.0 - series[0].0);
    let at = day - series[0].0;
    if place < count - 1 {
        lemma_filled_to_value(series, count - 1, place, day);
        assert(whole[at] == head[at]);
    } else {
        assert(whole[at] == tail[at - head.len()]);
    }
}

/// In a series in the order of its dates, an entry is dated no later than
/// any entry after it.
proof fn lemma_increasing_ordered<T>(series: Seq<(Day, T)>, i: int, j: int)
    requires
        increasing(series),
        0 <= i <= j < series.len(),
    ensures
        series[i].0 <= series[j].0,
        i < j ==> series[i].0 < series[j].0,
    decreases j - i,
{
    if i < j {
        lemma_increasing_ordered(series, i, j - 1);
        assert(series[j - 1].0 < series[j - 1 + 1].0);
    }
}

/// Forward-filling a series that is in the order of its dates gives every
/// day from its first to its last exactly one entry, and the value of a day
/// is that of the last entry dated at or before the day.
pub proof fn lemma_filled_is_forward_fill<T>(series: Seq<(Day, T)>, place: int, day: Day)
    requires
        increasing(series),
        0 <= place < series.len(),
        series[place].0 <= day,
        place + 1 < series.len() ==> day < series[place + 1].0,
        place + 1 == series.len() ==> day == series[place].0,
    ensures
        dense(filled(series)),
        filled(series).len() == series.last().0 - series[0].0 + 1,
        filled(series)[0].0 == series[0].0,
        value_on(filled(series), day) == Some(series[place].1),
{
    let whole = filled(series);
    lemma_filled_to_days(series, series.len() as int);
    lemma_increasing_ordered(series, 0, place);
    if place + 1 < series.len() {
        assert(series[place].0 < series[place + 1].0);
    }
    lemma_filled_to_value(series, series.len() as int, place, day as int);
    let at = day - series[0].0;
    assert forall|k: int| 0 <= k < at implies (#[trigger] whole[k]).0 != day by {}
    lemma_value_on_first(whole, day, at);
    assert(whole[0].0 == series[0].0 + 0);
    assert forall|i: int| 0 <= i < whole.len() - 1 implies whole[i + 1].0 - (
    #[trigger] whole[i]).0 == 1 by {
        assert(whole[i + 1].0 == series[0].0 + (i + 1));
    }
}

} // verus!
