//! The flex accounting rules: expected workday length, per-day flex, and the
//! period and all-time balances, all in whole minutes.
use vstd::prelude::*;
use crate::calendar::{Day, is_weekend_number};
use crate::records::{DateLine, FlexLine, DailyTimeOverrideLine};

verus! {

/// Expected minutes of a weekday that no override window covers.
pub const NOMINAL_WORKDAY_MINUTES: i32 = 480;

/// The override that governs day `d`: of the windows that cover it, the one
/// created last (latest in the sequence).
pub open spec fn active_override(ovs: Seq<DailyTimeOverrideLine>, d: int) -> Option<DailyTimeOverrideLine>
    decreases ovs.len(),
{
    if ovs.len() == 0 {
        None
    } else if ovs.last().covers(d) {
        Some(ovs.last())
    } else {
        active_override(ovs.drop_last(), d)
    }
}

/// Expected minutes of work on day `d`: none on weekends, else the active
/// override's length, else the nominal workday.
pub open spec fn expected_minutes(ovs: Seq<DailyTimeOverrideLine>, d: int) -> int {
    if is_weekend_number(d) {
        0
    } else {
        match active_override(ovs, d) {
            Some(o) => o.minutes_of_work as int,
            None => NOMINAL_WORKDAY_MINUTES as int,
        }
    }
}

/// The entries filed under day `d`, in their order.
pub open spec fn rows_on(rows: Seq<DateLine>, d: i32) -> Seq<DateLine>
    decreases rows.len(),
{
    if rows.len() == 0 {
        rows
    } else if rows.last().date.days_from_ce == d {
        rows_on(rows.drop_last(), d).push(rows.last())
    } else {
        rows_on(rows.drop_last(), d)
    }
}

/// Worked minutes summed over entries.
pub open spec fn worked_sum(rows: Seq<DateLine>) -> int
    decreases rows.len(),
{
    if rows.len() == 0 {
        0
    } else {
        worked_sum(rows.drop_last()) + rows.last().worked()
    }
}

/// Flex of one day from the entries filed under it.
pub open spec fn day_flex(rows_for_day: Seq<DateLine>, ovs: Seq<DailyTimeOverrideLine>, d: int) -> int {
    worked_sum(rows_for_day) - expected_minutes(ovs, d)
}

/// Manual flex minutes summed.
pub open spec fn flex_sum(flex: Seq<FlexLine>) -> int
    decreases flex.len(),
{
    if flex.len() == 0 {
        0
    } else {
        flex_sum(flex.drop_last()) + flex.last().flex_minutes
    }
}

/// The override that covers `date`, chosen as `active_override` does.
pub fn get_active_override(overrides: &Vec<DailyTimeOverrideLine>, date: Day) -> (r: Option<DailyTimeOverrideLine>)
    ensures
        r == active_override(overrides@, date.num()),
{
    let mut i: usize = overrides.len();
    proof {
        assert(overrides@.subrange(0, i as int) =~= overrides@);
    }
    while i > 0
        invariant
            i <= overrides.len(),
            active_override(overrides@, date.num()) == active_override(overrides@.subrange(0, i as int), date.num()),
        decreases i,
    {
        proof {
            assert(overrides@.subrange(0, i as int).drop_last() =~= overrides@.subrange(0, i as int - 1));
        }
        i = i - 1;
        if overrides[i].covers_day(date) {
            return Some(overrides[i]);
        }
    }
    proof {
        assert(overrides@.subrange(0, 0) =~= Seq::<DailyTimeOverrideLine>::empty());
    }
    None
}

/// Expected minutes of work on `date`.
pub fn expected_workday_minutes(overrides: &Vec<DailyTimeOverrideLine>, date: Day) -> (r: i32)
    requires
        date.wf(),
    ensures
        r == expected_minutes(overrides@, date.num()),
{
    if date.is_weekend() {
        0
    } else {
        match get_active_override(overrides, date) {
            Some(o) => o.minutes_of_work,
            None => NOMINAL_WORKDAY_MINUTES,
        }
    }
}

/// Worked minutes summed over `rows`.
pub fn worked_minutes_sum(rows: &Vec<DateLine>) -> (r: i128)
    ensures
        r == worked_sum(rows@),
        -0x1000_0000_0000 * rows@.len() <= r <= 0x1000_0000_0000 * rows@.len(),
{
    let mut sum: i128 = 0;
    let mut i: usize = 0;
    while i < rows.len()
        invariant
            i <= rows.len(),
            sum == worked_sum(rows@.subrange(0, i as int)),
            -0x1000_0000_0000 * i <= sum <= 0x1000_0000_0000 * i,
        decreases rows.len() - i,
    {
        proof {
            assert(rows@.subrange(0, i as int + 1).drop_last() =~= rows@.subrange(0, i as int));
        }
        let w = rows[i].worked_minutes();
        assert(-0x1000_0000_0000 <= w <= 0x1000_0000_0000);
        sum = sum + w as i128;
        i = i + 1;
    }
    proof {
        assert(rows@.subrange(0, i as int) =~= rows@);
    }
    sum
}

/// Flex of one day: the worked minutes of its entries less the day's expected minutes.
pub fn calculate_flex(rows_for_date: &Vec<DateLine>, date: Day, overrides: &Vec<DailyTimeOverrideLine>) -> (r: i128)
    requires
        date.wf(),
    ensures
        r == day_flex(rows_for_date@, overrides@, date.num()),
{
    let worked = worked_minutes_sum(rows_for_date);
    let n = rows_for_date.len();
    assert(n == rows_for_date@.len());
    let expected = expected_workday_minutes(overrides, date);
    worked - expected as i128
}

/// Manual flex minutes summed over `flex`.
pub fn flex_minutes_sum(flex: &Vec<FlexLine>) -> (r: i128)
    ensures
        r == flex_sum(flex@),
        -0x8000_0000 * flex@.len() <= r <= 0x8000_0000 * flex@.len(),
{
    let mut sum: i128 = 0;
    let mut i: usize = 0;
    while i < flex.len()
        invariant
            i <= flex.len(),
            sum == flex_sum(flex@.subrange(0, i as int)),
            -0x8000_0000 * i <= sum <= 0x8000_0000 * i,
        decreases flex.len() - i,
    {
        proof {
            assert(flex@.subrange(0, i as int + 1).drop_last() =~= flex@.subrange(0, i as int));
        }
        sum = sum + flex[i].flex_minutes as i128;
        i = i + 1;
    }
    proof {
        assert(flex@.subrange(0, i as int) =~= flex@);
    }
    sum
}

/// Some entry is filed under day `d`.
pub open spec fn has_date(rows: Seq<DateLine>, d: i32) -> bool {
    exists|j: int| 0 <= j < rows.len() && rows[j].date.days_from_ce == d
}

/// The days that have at least one entry.
pub open spec fn date_set(rows: Seq<DateLine>) -> Set<i32> {
    Set::new(|d: i32| has_date(rows, d))
}

pub open spec fn increasing(s: Seq<i32>) -> bool {
    forall|i: int, j: int| 0 <= i < j < s.len() ==> s[i] < s[j]
}

/// `s` lists the members of `ds` in increasing order.
pub open spec fn lists_set(s: Seq<i32>, ds: Set<i32>) -> bool {
    &&& increasing(s)
    &&& forall|d: i32| s.contains(d) <==> ds.contains(d)
}

/// The members of a set of day numbers in increasing order.
pub open spec fn sorted_of_set(ds: Set<i32>) -> Seq<i32> {
    choose|s: Seq<i32>| lists_set(s, ds)
}

/// The days that have entries, in increasing order.
pub open spec fn sorted_dates(rows: Seq<DateLine>) -> Seq<i32> {
    sorted_of_set(date_set(rows))
}

/// Per-day flex summed over the days `ds`.
pub open spec fn dates_flex(ds: Seq<i32>, rows: Seq<DateLine>, ovs: Seq<DailyTimeOverrideLine>) -> int
    decreases ds.len(),
{
    if ds.len() == 0 {
        0
    } else {
        dates_flex(ds.drop_last(), rows, ovs) + day_flex(rows_on(rows, ds.last()), ovs, ds.last() as int)
    }
}

/// Per-day flex summed over every day that has entries.
pub open spec fn time_flex(rows: Seq<DateLine>, ovs: Seq<DailyTimeOverrideLine>) -> int {
    dates_flex(sorted_dates(rows), rows, ovs)
}

/// The balance of the given entries: per-day flex of the time entries plus the manual flex.
pub open spec fn total_flex(rows: Seq<DateLine>, flex: Seq<FlexLine>, ovs: Seq<DailyTimeOverrideLine>) -> int {
    time_flex(rows, ovs) + flex_sum(flex)
}

/// Worked minutes of the entries of each day of `ds`, summed.
pub open spec fn worked_over(ds: Seq<i32>, rows: Seq<DateLine>) -> int
    decreases ds.len(),
{
    if ds.len() == 0 {
        0
    } else {
        worked_over(ds.drop_last(), rows) + worked_sum(rows_on(rows, ds.last()))
    }
}

/// Expected minutes of each day of `ds`, summed.
pub open spec fn expected_over(ds: Seq<i32>, ovs: Seq<DailyTimeOverrideLine>) -> int
    decreases ds.len(),
{
    if ds.len() == 0 {
        0
    } else {
        expected_over(ds.drop_last(), ovs) + expected_minutes(ovs, ds.last() as int)
    }
}

/// Two increasing listings of the same members are the same sequence.
pub proof fn lemma_listing_unique(a: Seq<i32>, b: Seq<i32>)
    requires
        increasing(a),
        increasing(b),
        forall|d: i32| a.contains(d) <==> b.contains(d),
    ensures
        a == b,
    decreases a.len(),
{
    if a.len() == 0 {
        if b.len() > 0 {
            assert(b.contains(b[0]));
        }
        assert(a =~= b);
    } else {
        assert(a.contains(a[0]));
        assert(b.contains(a[0]));
        assert(b.len() > 0);
        assert(b.contains(b[0]));
        assert(a.contains(b[0]));
        let k = choose|k: int| 0 <= k < b.len() && b[k] == a[0];
        let m = choose|m: int| 0 <= m < a.len() && a[m] == b[0];
        assert(b[0] <= b[k]);
        assert(a[0] <= a[m]);
        assert(a[0] == b[0]);
        let a1 = a.drop_first();
        let b1 = b.drop_first();
        assert forall|d: i32| a1.contains(d) <==> b1.contains(d) by {
            if a1.contains(d) {
                let i = choose|i: int| 0 <= i < a1.len() && a1[i] == d;
                assert(a[i + 1] == d);
                assert(a.contains(d));
                assert(b.contains(d));
                let j = choose|j: int| 0 <= j < b.len() && b[j] == d;
                assert(a[0] < d);
                assert(j != 0);
                assert(b1[j - 1] == d);
            }
            if b1.contains(d) {
                let i = choose|i: int| 0 <= i < b1.len() && b1[i] == d;
                assert(b[i + 1] == d);
                assert(b.contains(d));
                assert(a.contains(d));
                let j = choose|j: int| 0 <= j < a.len() && a[j] == d;
                assert(b[0] < d);
                assert(j != 0);
                assert(a1[j - 1] == d);
            }
        }
        lemma_listing_unique(a1, b1);
        assert(a =~= seq![a[0]] + a1);
        assert(b =~= seq![b[0]] + b1);
    }
}

/// Per-day flex over `ds` splits into worked and expected minutes.
pub proof fn lemma_dates_flex_split(ds: Seq<i32>, rows: Seq<DateLine>, ovs: Seq<DailyTimeOverrideLine>)
    ensures
        dates_flex(ds, rows, ovs) == worked_over(ds, rows) - expected_over(ds, ovs),
    decreases ds.len(),
{
    if ds.len() > 0 {
        lemma_dates_flex_split(ds.drop_last(), rows, ovs);
    }
}

proof fn lemma_worked_over_empty(ds: Seq<i32>, rows: Seq<DateLine>)
    requires
        rows.len() == 0,
    ensures
        worked_over(ds, rows) == 0,
    decreases ds.len(),
{
    if ds.len() > 0 {
        lemma_worked_over_empty(ds.drop_last(), rows);
    }
}

proof fn lemma_worked_over_push(ds: Seq<i32>, pre: Seq<DateLine>, x: DateLine)
    requires
        increasing(ds),
    ensures
        worked_over(ds, pre.push(x)) == worked_over(ds, pre) + if ds.contains(x.date.days_from_ce) {
            x.worked()
        } else {
            0
        },
    decreases ds.len(),
{
    if ds.len() > 0 {
        let ds1 = ds.drop_last();
        let l = ds.last();
        assert(increasing(ds1));
        lemma_worked_over_push(ds1, pre, x);
        assert(pre.push(x).drop_last() =~= pre);
        assert(pre.push(x).last() == x);
        assert(rows_on(pre, l).push(x).drop_last() =~= rows_on(pre, l));
        if l == x.date.days_from_ce {
            if ds1.contains(l) {
                let i = choose|i: int| 0 <= i < ds1.len() && ds1[i] == l;
                assert(ds[i] < ds[ds.len() - 1]);
            }
            assert(ds.contains(l));
        } else {
            if ds.contains(x.date.days_from_ce) {
                let i = choose|i: int| 0 <= i < ds.len() && ds[i] == x.date.days_from_ce;
                assert(ds1[i] == x.date.days_from_ce);
            }
            if ds1.contains(x.date.days_from_ce) {
                let i = choose|i: int| 0 <= i < ds1.len() && ds1[i] == x.date.days_from_ce;
                assert(ds[i] == x.date.days_from_ce);
            }
        }
    }
}

/// Summing each listed day's entries counts every entry once, when every
/// entry's day is listed once.
pub proof fn lemma_worked_over_partition(ds: Seq<i32>, rows: Seq<DateLine>)
    requires
        increasing(ds),
        forall|j: int| 0 <= j < rows.len() ==> ds.contains(#[trigger] rows[j].date.days_from_ce),
    ensures
        worked_over(ds, rows) == worked_sum(rows),
    decreases rows.len(),
{
    if rows.len() == 0 {
        lemma_worked_over_empty(ds, rows);
    } else {
        let pre = rows.drop_last();
        let x = rows.last();
        assert forall|j: int| 0 <= j < pre.len() implies ds.contains(#[trigger] pre[j].date.days_from_ce) by {
            assert(pre[j] == rows[j]);
        }
        lemma_worked_over_partition(ds, pre);
        assert(pre.push(x) =~= rows);
        lemma_worked_over_push(ds, pre, x);
        assert(ds.contains(rows[rows.len() - 1].date.days_from_ce));
    }
}

/// The days that have entries, in increasing order.
fn distinct_sorted_dates(rows: &Vec<DateLine>) -> (r: Vec<i32>)
    ensures
        lists_set(r@, date_set(rows@)),
        r@ == sorted_dates(rows@),
{
    let mut dates: Vec<i32> = Vec::new();
    let mut i: usize = 0;
    while i < rows.len()
        invariant
            i <= rows.len(),
            increasing(dates@),
            forall|d: i32| dates@.contains(d) <==> has_date(rows@.subrange(0, i as int), d),
        decreases rows.len() - i,
    {
        let n = rows[i].date.days_from_ce;
        let mut p: usize = 0;
        while p < dates.len() && dates[p] < n
            invariant
                p <= dates.len(),
                increasing(dates@),
                forall|q: int| 0 <= q < p ==> dates@[q] < n,
            decreases dates.len() - p,
        {
            p = p + 1;
        }
        let ghost old_dates = dates@;
        if p < dates.len() && dates[p] == n {
            assert(old_dates[p as int] == n);
            assert(old_dates.contains(n));
            assert(forall|d: i32| dates@.contains(d) <==> (old_dates.contains(d) || d == n));
        } else {
            dates.insert(p, n);
            proof {
                assert(dates@ == old_dates.insert(p as int, n));
                assert forall|a: int, b: int| 0 <= a < b < dates@.len() implies dates@[a] < dates@[b] by {
                    if b < p {
                        assert(dates@[a] == old_dates[a]);
                        assert(dates@[b] == old_dates[b]);
                    } else if b == p {
                        assert(dates@[a] == old_dates[a]);
                    } else {
                        assert(dates@[b] == old_dates[b - 1]);
                        assert(old_dates[p as int] > n);
                        assert(old_dates[b - 1] >= old_dates[p as int]);
                        if a < p {
                            assert(dates@[a] == old_dates[a]);
                        } else if a > p {
                            assert(dates@[a] == old_dates[a - 1]);
                        }
                    }
                }
                assert forall|d: i32| dates@.contains(d) <==> (old_dates.contains(d) || d == n) by {
                    if dates@.contains(d) {
                        let k = choose|k: int| 0 <= k < dates@.len() && dates@[k] == d;
                        if k < p {
                            assert(old_dates[k] == d);
                        } else if k > p {
                            assert(old_dates[k - 1] == d);
                        }
                    }
                    if old_dates.contains(d) {
                        let k = choose|k: int| 0 <= k < old_dates.len() && old_dates[k] == d;
                        if k < p {
                            assert(dates@[k] == d);
                        } else {
                            assert(dates@[k + 1] == d);
                        }
                    }
                    if d == n {
                        assert(dates@[p as int] == d);
                    }
                }
            }
        }
        proof {
            let sub = rows@.subrange(0, i as int);
            let sub1 = rows@.subrange(0, i as int + 1);
            assert forall|d: i32| has_date(sub1, d) <==> (has_date(sub, d) || d == n) by {
                if has_date(sub1, d) {
                    let j = choose|j: int| 0 <= j < sub1.len() && sub1[j].date.days_from_ce == d;
                    if j < i {
                        assert(sub[j] == sub1[j]);
                    }
                }
                if has_date(sub, d) {
                    let j = choose|j: int| 0 <= j < sub.len() && sub[j].date.days_from_ce == d;
                    assert(sub1[j] == sub[j]);
                }
                if d == n {
                    assert(sub1[i as int].date.days_from_ce == d);
                }
            }
            assert(forall|d: i32| dates@.contains(d) <==> (old_dates.contains(d) || d == n));
            assert forall|d: i32| dates@.contains(d) <==> has_date(sub1, d) by {
                assert(old_dates.contains(d) <==> has_date(sub, d));
                assert(has_date(sub1, d) <==> (has_date(sub, d) || d == n));
            }
        }
        i = i + 1;
    }
    proof {
        assert(rows@.subrange(0, i as int) =~= rows@);
        let ds = date_set(rows@);
        assert(lists_set(dates@, ds));
        let chosen = sorted_of_set(ds);
        assert(lists_set(chosen, ds));
        lemma_listing_unique(chosen, dates@);
    }
    dates
}

/// The entries of one day, in the order they were given.
pub struct DayGroup {
    pub date: Day,
    pub lines: Vec<DateLine>,
}

/// The entries of `rows` filed under day `d`.
fn rows_on_date(rows: &Vec<DateLine>, d: i32) -> (r: Vec<DateLine>)
    ensures
        r@ == rows_on(rows@, d),
{
    let mut out: Vec<DateLine> = Vec::new();
    let mut i: usize = 0;
    while i < rows.len()
        invariant
            i <= rows.len(),
            out@ == rows_on(rows@.subrange(0, i as int), d),
        decreases rows.len() - i,
    {
        proof {
            assert(rows@.subrange(0, i as int + 1).drop_last() =~= rows@.subrange(0, i as int));
        }
        if rows[i].date.days_from_ce == d {
            out.push(rows[i]);
        }
        i = i + 1;
    }
    proof {
        assert(rows@.subrange(0, i as int) =~= rows@);
    }
    out
}

/// Groups the entries by day: one group per day that has entries, in
/// increasing order of day, each holding that day's entries in their order.
pub fn build_map_by_date(time_rows: &Vec<DateLine>) -> (r: Vec<DayGroup>)
    ensures
        lists_set(sorted_dates(time_rows@), date_set(time_rows@)),
        r@.len() == sorted_dates(time_rows@).len(),
        forall|k: int|
            0 <= k < r@.len() ==> {
                &&& (#[trigger] r@[k]).date.days_from_ce == sorted_dates(time_rows@)[k]
                &&& r@[k].lines@ == rows_on(time_rows@, sorted_dates(time_rows@)[k])
            },
{
    let dates = distinct_sorted_dates(time_rows);
    let mut groups: Vec<DayGroup> = Vec::new();
    let mut k: usize = 0;
    while k < dates.len()
        invariant
            k <= dates.len(),
            dates@ == sorted_dates(time_rows@),
            groups@.len() == k,
            forall|q: int|
                0 <= q < k ==> {
                    &&& (#[trigger] groups@[q]).date.days_from_ce == dates@[q]
                    &&& groups@[q].lines@ == rows_on(time_rows@, dates@[q])
                },
        decreases dates.len() - k,
    {
        let lines = rows_on_date(time_rows, dates[k]);
        groups.push(DayGroup { date: Day { days_from_ce: dates[k] }, lines });
        k = k + 1;
    }
    groups
}

/// Per-day flex summed over every day that has entries.
pub fn time_flex_minutes(rows: &Vec<DateLine>, overrides: &Vec<DailyTimeOverrideLine>) -> (r: i128)
    requires
        forall|j: int| 0 <= j < rows@.len() ==> (#[trigger] rows@[j]).date.wf(),
    ensures
        r == time_flex(rows@, overrides@),
        -0x1_0000_0000_0000_0000_0000_0000_0000 <= r <= 0x1_0000_0000_0000_0000_0000_0000_0000,
{
    let dates = distinct_sorted_dates(rows);
    let worked = worked_minutes_sum(rows);
    let n = rows.len();
    assert(n == rows@.len());
    let mut expected: i128 = 0;
    let mut k: usize = 0;
    while k < dates.len()
        invariant
            k <= dates.len(),
            lists_set(dates@, date_set(rows@)),
            forall|j: int| 0 <= j < rows@.len() ==> (#[trigger] rows@[j]).date.wf(),
            expected == expected_over(dates@.subrange(0, k as int), overrides@),
            -0x8000_0000 * k <= expected <= 0x8000_0000 * k,
        decreases dates.len() - k,
    {
        let day = Day { days_from_ce: dates[k] };
        proof {
            assert(dates@.contains(dates@[k as int]));
            assert(date_set(rows@).contains(dates@[k as int]));
            let j = choose|j: int| 0 <= j < rows@.len() && rows@[j].date.days_from_ce == dates@[k as int];
            assert(rows@[j].date.wf());
            assert(dates@.subrange(0, k as int + 1).drop_last() =~= dates@.subrange(0, k as int));
        }
        let e = expected_workday_minutes(overrides, day);
        expected = expected + e as i128;
        k = k + 1;
    }
    proof {
        assert(dates@.subrange(0, k as int) =~= dates@);
        lemma_dates_flex_split(dates@, rows@, overrides@);
        assert forall|j: int| 0 <= j < rows@.len() implies dates@.contains(#[trigger] rows@[j].date.days_from_ce) by {
            assert(has_date(rows@, rows@[j].date.days_from_ce));
            assert(date_set(rows@).contains(rows@[j].date.days_from_ce));
        }
        lemma_worked_over_partition(dates@, rows@);
    }
    worked - expected
}

/// All-time balance in minutes: per-day flex of every day with entries plus
/// every manual flex entry.
pub fn total_flex_minutes(rows: &Vec<DateLine>, flex: &Vec<FlexLine>, overrides: &Vec<DailyTimeOverrideLine>) -> (r: i128)
    requires
        forall|j: int| 0 <= j < rows@.len() ==> (#[trigger] rows@[j]).date.wf(),
    ensures
        r == total_flex(rows@, flex@, overrides@),
        -0x2_0000_0000_0000_0000_0000_0000_0000 <= r <= 0x2_0000_0000_0000_0000_0000_0000_0000,
{
    let t = time_flex_minutes(rows, overrides);
    let f = flex_minutes_sum(flex);
    let n = flex.len();
    assert(n == flex@.len());
    t + f
}

} // verus!
