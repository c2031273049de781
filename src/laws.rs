//! Properties of the flex rules that relate several inputs or calls.
use vstd::prelude::*;
use vstd::seq_lib::group_to_multiset_ensures;
use crate::calendar::{Day, is_weekend_number};
use crate::flex::{
    active_override, date_set, dates_flex, day_flex, expected_minutes, flex_sum, has_date,
    lemma_listing_unique, lists_set, rows_on, sorted_dates, sorted_of_set, time_flex,
    total_flex, worked_sum,
};
use crate::records::{DailyTimeOverrideLine, DateLine, FlexLine};
use crate::ledger::{close_window, closed_at, without_id};

verus! {

/// Minutes from start to end, summed over entries.
pub open spec fn span_sum(rows: Seq<DateLine>) -> int
    decreases rows.len(),
{
    if rows.len() == 0 {
        0
    } else {
        span_sum(rows.drop_last()) + (rows.last().end.abs_minutes() - rows.last().start.abs_minutes())
    }
}

/// Break minutes summed over entries.
pub open spec fn break_sum(rows: Seq<DateLine>) -> int
    decreases rows.len(),
{
    if rows.len() == 0 {
        0
    } else {
        break_sum(rows.drop_last()) + rows.last().break_time_minutes
    }
}

/// Every entry is filed under day `d`.
pub open spec fn all_on(rows: Seq<DateLine>, d: i32) -> bool {
    forall|j: int| 0 <= j < rows.len() ==> (#[trigger] rows[j]).date.days_from_ce == d
}

/// Worked minutes are the spans less the breaks.
pub proof fn lemma_worked_split(rows: Seq<DateLine>)
    ensures
        worked_sum(rows) == span_sum(rows) - break_sum(rows),
    decreases rows.len(),
{
    if rows.len() > 0 {
        lemma_worked_split(rows.drop_last());
    }
}

/// When every entry is on day `d`, the day's group is all of them.
pub proof fn lemma_rows_on_all(rows: Seq<DateLine>, d: i32)
    requires
        all_on(rows, d),
    ensures
        rows_on(rows, d) == rows,
    decreases rows.len(),
{
    if rows.len() > 0 {
        let pre = rows.drop_last();
        assert(all_on(pre, d)) by {
            assert forall|j: int| 0 <= j < pre.len() implies (#[trigger] pre[j]).date.days_from_ce == d by {
                assert(pre[j] == rows[j]);
            }
        }
        lemma_rows_on_all(pre, d);
        assert(rows[rows.len() - 1].date.days_from_ce == d);
        assert(pre.push(rows.last()) =~= rows);
    }
}

/// Entries all on one day `d` make a balance of that one day's flex.
pub proof fn lemma_single_day_time_flex(rows: Seq<DateLine>, ovs: Seq<DailyTimeOverrideLine>, d: i32)
    requires
        rows.len() > 0,
        all_on(rows, d),
    ensures
        time_flex(rows, ovs) == day_flex(rows, ovs, d as int),
{
    let s = seq![d];
    assert(lists_set(s, date_set(rows))) by {
        assert forall|x: i32| s.contains(x) <==> date_set(rows).contains(x) by {
            if s.contains(x) {
                assert(x == d);
                assert(rows[0].date.days_from_ce == d);
                assert(has_date(rows, x));
            }
            if date_set(rows).contains(x) {
                let j = choose|j: int| 0 <= j < rows.len() && rows[j].date.days_from_ce == x;
                assert(x == d);
                assert(s[0] == x);
            }
        }
    }
    let chosen = sorted_of_set(date_set(rows));
    assert(lists_set(chosen, date_set(rows)));
    lemma_listing_unique(chosen, s);
    lemma_rows_on_all(rows, d);
    assert(s.drop_last() =~= Seq::<i32>::empty());
    assert(sorted_dates(rows) == s);
    assert(dates_flex(s.drop_last(), rows, ovs) == 0);
    assert(s.last() == d);
    assert(dates_flex(s, rows, ovs) == day_flex(rows_on(rows, d), ovs, d as int));
}

/// A weekday that no override window covers expects the nominal 480 minutes:
/// the day's flex, and the balance of entries all on that day, is the worked
/// span less the breaks less 480.
pub proof fn lemma_weekday_nominal_flex(rows: Seq<DateLine>, ovs: Seq<DailyTimeOverrideLine>, d: Day)
    requires
        all_on(rows, d.days_from_ce),
        !is_weekend_number(d.num()),
        active_override(ovs, d.num()) is None,
    ensures
        day_flex(rows, ovs, d.num()) == span_sum(rows) - break_sum(rows) - 480,
        rows.len() > 0 ==> time_flex(rows, ovs) == span_sum(rows) - break_sum(rows) - 480,
{
    lemma_worked_split(rows);
    if rows.len() > 0 {
        lemma_single_day_time_flex(rows, ovs, d.days_from_ce);
    }
}

/// A Saturday or Sunday expects no work, whatever the overrides: the day's
/// flex, and the balance of entries all on that day, is the worked span less
/// the breaks.
pub proof fn lemma_weekend_flex(rows: Seq<DateLine>, ovs: Seq<DailyTimeOverrideLine>, d: Day)
    requires
        all_on(rows, d.days_from_ce),
        is_weekend_number(d.num()),
    ensures
        day_flex(rows, ovs, d.num()) == span_sum(rows) - break_sum(rows),
        rows.len() > 0 ==> time_flex(rows, ovs) == span_sum(rows) - break_sum(rows),
{
    lemma_worked_split(rows);
    if rows.len() > 0 {
        lemma_single_day_time_flex(rows, ovs, d.days_from_ce);
    }
}

/// A weekday under an active override of `M` minutes expects `M`: the day's
/// flex, and the balance of entries all on that day, is the worked span less
/// the breaks less `M`.
pub proof fn lemma_override_flex(rows: Seq<DateLine>, ovs: Seq<DailyTimeOverrideLine>, d: Day, o: DailyTimeOverrideLine)
    requires
        all_on(rows, d.days_from_ce),
        !is_weekend_number(d.num()),
        active_override(ovs, d.num()) == Some(o),
    ensures
        day_flex(rows, ovs, d.num()) == span_sum(rows) - break_sum(rows) - o.minutes_of_work,
        rows.len() > 0 ==> time_flex(rows, ovs) == span_sum(rows) - break_sum(rows) - o.minutes_of_work,
{
    lemma_worked_split(rows);
    if rows.len() > 0 {
        lemma_single_day_time_flex(rows, ovs, d.days_from_ce);
    }
}

proof fn lemma_rows_on_remove(b: Seq<DateLine>, k: int, d: i32)
    requires
        0 <= k < b.len(),
    ensures
        worked_sum(rows_on(b, d)) == worked_sum(rows_on(b.remove(k), d)) + if b[k].date.days_from_ce == d {
            b[k].worked()
        } else {
            0
        },
    decreases b.len(),
{
    let b1 = b.drop_last();
    if k == b.len() - 1 {
        assert(b.remove(k) =~= b1);
        assert(rows_on(b1, d).push(b.last()).drop_last() =~= rows_on(b1, d));
    } else {
        lemma_rows_on_remove(b1, k, d);
        let r = b.remove(k);
        assert(r.drop_last() =~= b1.remove(k));
        assert(r.last() == b.last());
        assert(rows_on(b1, d).push(b.last()).drop_last() =~= rows_on(b1, d));
        assert(rows_on(b1.remove(k), d).push(b.last()).drop_last() =~= rows_on(b1.remove(k), d));
    }
}

/// A day's worked minutes do not depend on the order of the entries.
pub proof fn lemma_day_worked_permutation(a: Seq<DateLine>, b: Seq<DateLine>, d: i32)
    requires
        a.to_multiset() == b.to_multiset(),
    ensures
        worked_sum(rows_on(a, d)) == worked_sum(rows_on(b, d)),
    decreases a.len(),
{
    broadcast use group_to_multiset_ensures;

    if a.len() == 0 {
        assert(a.len() == a.to_multiset().len());
        assert(b.len() == b.to_multiset().len());
        assert(b.len() == 0);
        assert(a =~= b);
    } else {
        let x = a.last();
        let a1 = a.drop_last();
        assert(a1.push(x) =~= a);
        assert(a.to_multiset().count(x) > 0);
        assert(b.contains(x));
        let k = choose|k: int| 0 <= k < b.len() && b[k] == x;
        let b1 = b.remove(k);
        assert(b1.to_multiset() =~= b.to_multiset().remove(x));
        assert(a1.to_multiset() =~= a.to_multiset().remove(x));
        lemma_day_worked_permutation(a1, b1, d);
        lemma_rows_on_remove(b, k, d);
        assert(rows_on(a1, d).push(x).drop_last() =~= rows_on(a1, d));
    }
}

proof fn lemma_flex_remove(b: Seq<FlexLine>, k: int)
    requires
        0 <= k < b.len(),
    ensures
        flex_sum(b) == flex_sum(b.remove(k)) + b[k].flex_minutes,
    decreases b.len(),
{
    let b1 = b.drop_last();
    if k == b.len() - 1 {
        assert(b.remove(k) =~= b1);
    } else {
        lemma_flex_remove(b1, k);
        let r = b.remove(k);
        assert(r.drop_last() =~= b1.remove(k));
        assert(r.last() == b.last());
    }
}

/// The manual flex sum does not depend on the order of the entries.
pub proof fn lemma_flex_sum_permutation(a: Seq<FlexLine>, b: Seq<FlexLine>)
    requires
        a.to_multiset() == b.to_multiset(),
    ensures
        flex_sum(a) == flex_sum(b),
    decreases a.len(),
{
    broadcast use group_to_multiset_ensures;

    if a.len() == 0 {
        assert(a.len() == a.to_multiset().len());
        assert(b.len() == b.to_multiset().len());
        assert(b.len() == 0);
        assert(a =~= b);
    } else {
        let x = a.last();
        let a1 = a.drop_last();
        assert(a1.push(x) =~= a);
        assert(a.to_multiset().count(x) > 0);
        assert(b.contains(x));
        let k = choose|k: int| 0 <= k < b.len() && b[k] == x;
        let b1 = b.remove(k);
        assert(b1.to_multiset() =~= b.to_multiset().remove(x));
        assert(a1.to_multiset() =~= a.to_multiset().remove(x));
        lemma_flex_sum_permutation(a1, b1);
        lemma_flex_remove(b, k);
    }
}

proof fn lemma_dates_flex_permutation(ds: Seq<i32>, a: Seq<DateLine>, b: Seq<DateLine>, ovs: Seq<DailyTimeOverrideLine>)
    requires
        a.to_multiset() == b.to_multiset(),
    ensures
        dates_flex(ds, a, ovs) == dates_flex(ds, b, ovs),
    decreases ds.len(),
{
    if ds.len() > 0 {
        lemma_dates_flex_permutation(ds.drop_last(), a, b, ovs);
        lemma_day_worked_permutation(a, b, ds.last());
    }
}

/// The all-time balance does not depend on the order in which time entries
/// and manual flex entries were recorded.
pub proof fn lemma_total_order_independent(
    rows1: Seq<DateLine>,
    rows2: Seq<DateLine>,
    flex1: Seq<FlexLine>,
    flex2: Seq<FlexLine>,
    ovs: Seq<DailyTimeOverrideLine>,
)
    requires
        rows1.to_multiset() == rows2.to_multiset(),
        flex1.to_multiset() == flex2.to_multiset(),
    ensures
        total_flex(rows1, flex1, ovs) == total_flex(rows2, flex2, ovs),
{
    broadcast use group_to_multiset_ensures;

    assert(date_set(rows1) =~= date_set(rows2)) by {
        assert forall|d: i32| has_date(rows1, d) <==> has_date(rows2, d) by {
            if has_date(rows1, d) {
                let j = choose|j: int| 0 <= j < rows1.len() && rows1[j].date.days_from_ce == d;
                assert(rows1.contains(rows1[j]));
                assert(rows1.to_multiset().count(rows1[j]) > 0);
                assert(rows2.to_multiset().count(rows1[j]) > 0);
                assert(rows2.contains(rows1[j]));
                let k = choose|k: int| 0 <= k < rows2.len() && rows2[k] == rows1[j];
                assert(rows2[k].date.days_from_ce == d);
            }
            if has_date(rows2, d) {
                let j = choose|j: int| 0 <= j < rows2.len() && rows2[j].date.days_from_ce == d;
                assert(rows2.contains(rows2[j]));
                assert(rows2.to_multiset().count(rows2[j]) > 0);
                assert(rows1.to_multiset().count(rows2[j]) > 0);
                assert(rows1.contains(rows2[j]));
                let k = choose|k: int| 0 <= k < rows1.len() && rows1[k] == rows2[j];
                assert(rows1[k].date.days_from_ce == d);
            }
        }
    }
    assert(sorted_dates(rows1) == sorted_dates(rows2));
    lemma_dates_flex_permutation(sorted_dates(rows1), rows1, rows2, ovs);
    lemma_flex_sum_permutation(flex1, flex2);
}

/// Closing open windows of id `id` at `end` leaves every day before `end`
/// governed as before: the same window applies, and the same length is expected.
pub proof fn lemma_close_window_before(ovs: Seq<DailyTimeOverrideLine>, id: i32, end: Day, d: int)
    requires
        d < end.num(),
        forall|j: int| 0 <= j < ovs.len() && (#[trigger] ovs[j]).id == id ==> ovs[j].end is None,
    ensures
        active_override(close_window(ovs, id, end), d) == match active_override(ovs, d) {
            Some(o) => Some(closed_at(o, id, end)),
            None => None,
        },
        expected_minutes(close_window(ovs, id, end), d) == expected_minutes(ovs, d),
    decreases ovs.len(),
{
    if ovs.len() > 0 {
        let pre = ovs.drop_last();
        assert(close_window(ovs, id, end).drop_last() =~= close_window(pre, id, end));
        assert(close_window(ovs, id, end).last() == closed_at(ovs.last(), id, end));
        assert forall|j: int| 0 <= j < pre.len() && (#[trigger] pre[j]).id == id implies pre[j].end is None by {
            assert(pre[j] == ovs[j]);
        }
        lemma_close_window_before(pre, id, end, d);
        if ovs.last().id == id {
            assert(ovs[ovs.len() - 1].end is None);
        }
    }
}

/// From the close date `end` on, the closed windows count no more: the days
/// are governed as if no window of id `id` had been opened.
pub proof fn lemma_close_window_after(ovs: Seq<DailyTimeOverrideLine>, id: i32, end: Day, d: int)
    requires
        d >= end.num(),
    ensures
        active_override(close_window(ovs, id, end), d) == active_override(without_id(ovs, id), d),
        expected_minutes(close_window(ovs, id, end), d) == expected_minutes(without_id(ovs, id), d),
    decreases ovs.len(),
{
    if ovs.len() > 0 {
        let pre = ovs.drop_last();
        assert(close_window(ovs, id, end).drop_last() =~= close_window(pre, id, end));
        assert(close_window(ovs, id, end).last() == closed_at(ovs.last(), id, end));
        lemma_close_window_after(pre, id, end, d);
        if ovs.last().id != id {
            assert(without_id(ovs, id).drop_last() =~= without_id(pre, id));
        }
    }
}

/// At most one window covers any day.
pub open spec fn windows_disjoint(ovs: Seq<DailyTimeOverrideLine>) -> bool {
    forall|i: int, j: int, d: int|
        0 <= i < j < ovs.len() ==> !(#[trigger] ovs[i].covers(d) && #[trigger] ovs[j].covers(d))
}

/// With disjoint windows, the window that governs a day is the one that covers it.
proof fn lemma_active_is_covering(ovs: Seq<DailyTimeOverrideLine>, d: int)
    requires
        windows_disjoint(ovs),
    ensures
        forall|i: int| 0 <= i < ovs.len() && (#[trigger] ovs[i]).covers(d) ==> active_override(ovs, d) == Some(ovs[i]),
        (forall|i: int| 0 <= i < ovs.len() ==> !(#[trigger] ovs[i]).covers(d)) ==> active_override(ovs, d) is None,
    decreases ovs.len(),
{
    if ovs.len() > 0 {
        let pre = ovs.drop_last();
        assert(windows_disjoint(pre)) by {
            assert forall|i: int, j: int, e: int| 0 <= i < j < pre.len() implies !(#[trigger] pre[i].covers(e)
                && #[trigger] pre[j].covers(e)) by {
                assert(pre[i] == ovs[i]);
                assert(pre[j] == ovs[j]);
            }
        }
        lemma_active_is_covering(pre, d);
        assert forall|i: int| 0 <= i < ovs.len() && (#[trigger] ovs[i]).covers(d) implies active_override(ovs, d) == Some(
            ovs[i],
        ) by {
            if i < ovs.len() - 1 {
                assert(pre[i] == ovs[i]);
                assert(!(ovs[i].covers(d) && ovs[ovs.len() - 1].covers(d)));
            }
        }
        if forall|i: int| 0 <= i < ovs.len() ==> !(#[trigger] ovs[i]).covers(d) {
            assert(!ovs[ovs.len() - 1].covers(d));
            assert forall|i: int| 0 <= i < pre.len() implies !(#[trigger] pre[i]).covers(d) by {
                assert(pre[i] == ovs[i]);
            }
        }
    }
}

/// Disjoint windows recorded in another order govern every day alike.
proof fn lemma_expected_permutation(ovs1: Seq<DailyTimeOverrideLine>, ovs2: Seq<DailyTimeOverrideLine>, d: int)
    requires
        ovs1.to_multiset() == ovs2.to_multiset(),
        windows_disjoint(ovs1),
        windows_disjoint(ovs2),
    ensures
        expected_minutes(ovs1, d) == expected_minutes(ovs2, d),
{
    broadcast use group_to_multiset_ensures;

    lemma_active_is_covering(ovs1, d);
    lemma_active_is_covering(ovs2, d);
    if exists|i: int| 0 <= i < ovs1.len() && (#[trigger] ovs1[i]).covers(d) {
        let i = choose|i: int| 0 <= i < ovs1.len() && (#[trigger] ovs1[i]).covers(d);
        assert(ovs1.contains(ovs1[i]));
        assert(ovs1.to_multiset().count(ovs1[i]) > 0);
        assert(ovs2.contains(ovs1[i]));
        let k = choose|k: int| 0 <= k < ovs2.len() && ovs2[k] == ovs1[i];
        assert(ovs2[k].covers(d));
    } else {
        assert forall|k: int| 0 <= k < ovs2.len() implies !(#[trigger] ovs2[k]).covers(d) by {
            assert(ovs2.contains(ovs2[k]));
            assert(ovs2.to_multiset().count(ovs2[k]) > 0);
            assert(ovs1.contains(ovs2[k]));
            let i = choose|i: int| 0 <= i < ovs1.len() && ovs1[i] == ovs2[k];
            assert(!ovs1[i].covers(d));
        }
    }
}

proof fn lemma_dates_flex_same_windows(
    ds: Seq<i32>,
    rows: Seq<DateLine>,
    ovs1: Seq<DailyTimeOverrideLine>,
    ovs2: Seq<DailyTimeOverrideLine>,
)
    requires
        ovs1.to_multiset() == ovs2.to_multiset(),
        windows_disjoint(ovs1),
        windows_disjoint(ovs2),
    ensures
        dates_flex(ds, rows, ovs1) == dates_flex(ds, rows, ovs2),
    decreases ds.len(),
{
    if ds.len() > 0 {
        lemma_dates_flex_same_windows(ds.drop_last(), rows, ovs1, ovs2);
        lemma_expected_permutation(ovs1, ovs2, ds.last() as int);
    }
}

/// The all-time balance does not depend on the order in which time entries,
/// manual flex entries and (well-formed, non-overlapping) override windows
/// were recorded.
pub proof fn lemma_total_order_independent_with_windows(
    rows1: Seq<DateLine>,
    rows2: Seq<DateLine>,
    flex1: Seq<FlexLine>,
    flex2: Seq<FlexLine>,
    ovs1: Seq<DailyTimeOverrideLine>,
    ovs2: Seq<DailyTimeOverrideLine>,
)
    requires
        rows1.to_multiset() == rows2.to_multiset(),
        flex1.to_multiset() == flex2.to_multiset(),
        ovs1.to_multiset() == ovs2.to_multiset(),
        windows_disjoint(ovs1),
        windows_disjoint(ovs2),
    ensures
        total_flex(rows1, flex1, ovs1) == total_flex(rows2, flex2, ovs2),
{
    lemma_total_order_independent(rows1, rows2, flex1, flex2, ovs1);
    lemma_dates_flex_same_windows(sorted_dates(rows2), rows2, ovs1, ovs2);
}

} // verus!
