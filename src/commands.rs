//! Decisions of the command workflows that do not touch storage or the terminal.
use vstd::prelude::*;
use crate::calendar::{Day, is_weekend_number};
use crate::flex::{NOMINAL_WORKDAY_MINUTES};

verus! {

/// A one-line result.
pub fn singleton_vec(value: String) -> (r: Vec<String>)
    ensures
        r@ == seq![value],
{
    let mut v: Vec<String> = Vec::new();
    v.push(value);
    v
}

/// The weekdays after `last_entry` and before `today`, in order: the days
/// still to be reported.
pub fn days_to_report(last_entry: Day, today: Day) -> (r: Vec<Day>)
    requires
        last_entry.wf(),
        today.wf(),
    ensures
        forall|k: int| 0 <= k < r@.len() ==> {
            &&& last_entry.num() < (#[trigger] r@[k]).num() < today.num()
            &&& !is_weekend_number(r@[k].num())
            &&& r@[k].wf()
        },
        forall|k: int, q: int| 0 <= k < q < r@.len() ==> r@[k].num() < r@[q].num(),
        forall|d: int|
            last_entry.num() < d < today.num() && !is_weekend_number(d) ==> exists|k: int|
                0 <= k < r@.len() && (#[trigger] r@[k]).num() == d,
{
    let mut out: Vec<Day> = Vec::new();
    let mut n: i32 = last_entry.days_from_ce + 1;
    if last_entry.days_from_ce >= today.days_from_ce {
        return out;
    }
    while n < today.days_from_ce
        invariant
            last_entry.num() < n <= today.num(),
            today.wf(),
            last_entry.wf(),
            forall|k: int| 0 <= k < out@.len() ==> {
                &&& last_entry.num() < (#[trigger] out@[k]).num() < n
                &&& !is_weekend_number(out@[k].num())
                &&& out@[k].wf()
            },
            forall|k: int, q: int| 0 <= k < q < out@.len() ==> out@[k].num() < out@[q].num(),
            forall|d: int|
                last_entry.num() < d < n && !is_weekend_number(d) ==> exists|k: int|
                    0 <= k < out@.len() && (#[trigger] out@[k]).num() == d,
        decreases today.days_from_ce - n,
    {
        let day = Day { days_from_ce: n };
        if !day.is_weekend() {
            let ghost prev = out@;
            out.push(day);
            proof {
                assert(out@[out@.len() - 1].num() == n);
                assert forall|d: int|
                    last_entry.num() < d < n + 1 && !is_weekend_number(d) implies exists|k: int|
                        0 <= k < out@.len() && (#[trigger] out@[k]).num() == d by {
                    if d == n {
                        assert(out@[out@.len() - 1].num() == d);
                    } else {
                        let k = choose|k: int| 0 <= k < prev.len() && (#[trigger] prev[k]).num() == d;
                        assert(out@[k] == prev[k]);
                    }
                }
            }
        }
        n = n + 1;
    }
    out
}

/// The flex of a planned weekday entry from `start` to `end` (hour, minute)
/// with a break, against the nominal workday.
pub fn planned_flex(start: (u32, u32), end: (u32, u32), break_minutes: i32) -> (r: i64)
    requires
        start.0 <= 24 && start.1 < 100,
        end.0 <= 24 && end.1 < 100,
    ensures
        r == (end.0 * 60 + end.1) - (start.0 * 60 + start.1) - break_minutes - NOMINAL_WORKDAY_MINUTES,
{
    (end.0 as i64 * 60 + end.1 as i64) - (start.0 as i64 * 60 + start.1 as i64) - break_minutes as i64
        - NOMINAL_WORKDAY_MINUTES as i64
}

} // verus!
