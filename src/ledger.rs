//! The recorded history held in memory: time entries, manual flex entries and
//! override windows, with the queries and updates the reports rest on.
use vstd::prelude::*;
use crate::calendar::{Day, Stamp};
use crate::flex::{active_override, get_active_override, total_flex};
use crate::records::{DailyTimeOverrideLine, DateLine, FlexLine};
use crate::report_generation::{
    create_csv_report, create_human_friendly_report, csv_report, flex_wf, human_report, rows_wf, texts,
};

verus! {

/// Why the ledger refused an update.
#[derive(Clone, Copy, Debug, PartialEq, Eq, Structural)]
pub enum LedgerError {
    /// A day or time out of range, an end not after its start, or a
    /// non-positive workday length.
    InvalidEntry,
    /// No override window has the given id.
    NotFound,
    /// No further id or entry can be recorded.
    Full,
}

/// Entry `e` lies inside the period: it starts after the first day's
/// midnight and ends before the last day's.
pub open spec fn in_period(e: DateLine, from: Day, to: Day) -> bool {
    from.num() * 1440 < e.start.abs_minutes() && e.end.abs_minutes() < to.num() * 1440
}

/// The entries inside the period, in their order.
pub open spec fn rows_in_period(rows: Seq<DateLine>, from: Day, to: Day) -> Seq<DateLine>
    decreases rows.len(),
{
    if rows.len() == 0 {
        rows
    } else if in_period(rows.last(), from, to) {
        rows_in_period(rows.drop_last(), from, to).push(rows.last())
    } else {
        rows_in_period(rows.drop_last(), from, to)
    }
}

/// The flex entries dated in `[from, to)`, in their order.
pub open spec fn flex_in_period(flex: Seq<FlexLine>, from: Day, to: Day) -> Seq<FlexLine>
    decreases flex.len(),
{
    if flex.len() == 0 {
        flex
    } else if from.num() <= flex.last().date.num() < to.num() {
        flex_in_period(flex.drop_last(), from, to).push(flex.last())
    } else {
        flex_in_period(flex.drop_last(), from, to)
    }
}

/// The balance of a period: its entries' per-day flex plus its manual flex.
pub open spec fn period_flex(
    rows: Seq<DateLine>,
    flex: Seq<FlexLine>,
    ovs: Seq<DailyTimeOverrideLine>,
    from: Day,
    to: Day,
) -> int {
    total_flex(rows_in_period(rows, from, to), flex_in_period(flex, from, to), ovs)
}

/// Entries in non-decreasing order of start.
pub open spec fn sorted_by_start(rows: Seq<DateLine>) -> bool {
    forall|i: int, j: int| 0 <= i < j < rows.len() ==> rows[i].start.abs_minutes() <= rows[j].start.abs_minutes()
}

/// The text of an optional comment, empty when there is none.
pub open spec fn comment_text(comment: Option<String>) -> Seq<char> {
    match comment {
        Some(c) => c@,
        None => Seq::empty(),
    }
}

/// Flex entries in non-decreasing order of day.
pub open spec fn sorted_by_date(flex: Seq<FlexLine>) -> bool {
    forall|i: int, j: int| 0 <= i < j < flex.len() ==> flex[i].date.num() <= flex[j].date.num()
}

/// The flex entries of a period, taken from entries in order of day, are in order of day.
pub proof fn lemma_flex_in_period_sorted(flex: Seq<FlexLine>, from: Day, to: Day)
    requires
        sorted_by_date(flex),
    ensures
        sorted_by_date(flex_in_period(flex, from, to)),
        forall|i: int|
            0 <= i < flex_in_period(flex, from, to).len() ==> exists|j: int|
                0 <= j < flex.len() && #[trigger] flex_in_period(flex, from, to)[i] == flex[j],
    decreases flex.len(),
{
    if flex.len() > 0 {
        let pre = flex.drop_last();
        let x = flex.last();
        let fp = flex_in_period(pre, from, to);
        lemma_flex_in_period_sorted(pre, from, to);
        assert forall|i: int| 0 <= i < fp.len() implies exists|j: int| 0 <= j < flex.len() && #[trigger] fp[i] == flex[j] by {
            let j = choose|j: int| 0 <= j < pre.len() && fp[i] == pre[j];
            assert(pre[j] == flex[j]);
        }
        if from.num() <= x.date.num() < to.num() {
            let f = fp.push(x);
            assert forall|i: int, j: int| 0 <= i < j < f.len() implies f[i].date.num() <= f[j].date.num() by {
                if j == f.len() - 1 {
                    let k = choose|k: int| 0 <= k < pre.len() && fp[i] == pre[k];
                    assert(pre[k] == flex[k]);
                    assert(flex[k].date.num() <= flex[flex.len() - 1].date.num());
                } else {
                    assert(f[i] == fp[i] && f[j] == fp[j]);
                }
            }
            assert forall|i: int| 0 <= i < f.len() implies exists|j: int| 0 <= j < flex.len() && #[trigger] f[i] == flex[j] by {
                if i == f.len() - 1 {
                    assert(f[i] == flex[flex.len() - 1]);
                } else {
                    assert(f[i] == fp[i]);
                    let j = choose|j: int| 0 <= j < flex.len() && fp[i] == flex[j];
                }
            }
        }
    }
}

/// The entries of a period, taken from entries in order of start, are in order of start.
pub proof fn lemma_rows_in_period_sorted(rows: Seq<DateLine>, from: Day, to: Day)
    requires
        sorted_by_start(rows),
    ensures
        sorted_by_start(rows_in_period(rows, from, to)),
        forall|i: int|
            0 <= i < rows_in_period(rows, from, to).len() ==> exists|j: int|
                0 <= j < rows.len() && #[trigger] rows_in_period(rows, from, to)[i] == rows[j],
    decreases rows.len(),
{
    if rows.len() > 0 {
        let pre = rows.drop_last();
        let x = rows.last();
        let fp = rows_in_period(pre, from, to);
        lemma_rows_in_period_sorted(pre, from, to);
        assert forall|i: int| 0 <= i < fp.len() implies exists|j: int| 0 <= j < rows.len() && #[trigger] fp[i] == rows[j] by {
            let j = choose|j: int| 0 <= j < pre.len() && fp[i] == pre[j];
            assert(pre[j] == rows[j]);
        }
        if in_period(x, from, to) {
            let f = fp.push(x);
            assert forall|i: int, j: int| 0 <= i < j < f.len() implies f[i].start.abs_minutes() <= f[j].start.abs_minutes() by {
                if j == f.len() - 1 {
                    let k = choose|k: int| 0 <= k < pre.len() && fp[i] == pre[k];
                    assert(pre[k] == rows[k]);
                    assert(rows[k].start.abs_minutes() <= rows[rows.len() - 1].start.abs_minutes());
                } else {
                    assert(f[i] == fp[i] && f[j] == fp[j]);
                }
            }
            assert forall|i: int| 0 <= i < f.len() implies exists|j: int| 0 <= j < rows.len() && #[trigger] f[i] == rows[j] by {
                if i == f.len() - 1 {
                    assert(f[i] == rows[rows.len() - 1]);
                } else {
                    assert(f[i] == fp[i]);
                    let j = choose|j: int| 0 <= j < rows.len() && fp[i] == rows[j];
                }
            }
        }
    }
}

/// Override windows on valid days with positive ids and lengths.
pub open spec fn overrides_wf(ovs: Seq<DailyTimeOverrideLine>) -> bool {
    forall|j: int|
        0 <= j < ovs.len() ==> {
            &&& (#[trigger] ovs[j]).start.wf()
            &&& ovs[j].id >= 1
            &&& ovs[j].minutes_of_work >= 1
            &&& match ovs[j].end {
                Some(e) => e.wf(),
                None => true,
            }
        }
}

/// The largest id among the windows, 0 for none.
pub open spec fn max_id(ovs: Seq<DailyTimeOverrideLine>) -> int
    decreases ovs.len(),
{
    if ovs.len() == 0 {
        0
    } else if ovs.last().id > max_id(ovs.drop_last()) {
        ovs.last().id as int
    } else {
        max_id(ovs.drop_last())
    }
}

/// Some window has id `id`.
pub open spec fn has_id(ovs: Seq<DailyTimeOverrideLine>, id: i32) -> bool {
    exists|j: int| 0 <= j < ovs.len() && ovs[j].id == id
}

/// How many entries start before minute `t`.
pub open spec fn count_started_before(rows: Seq<DateLine>, t: int) -> nat
    decreases rows.len(),
{
    if rows.len() == 0 {
        0
    } else if rows.last().start.abs_minutes() < t {
        count_started_before(rows.drop_last(), t) + 1
    } else {
        count_started_before(rows.drop_last(), t)
    }
}

/// Window `o` with its end set to `end` if its id is `id`.
pub open spec fn closed_at(o: DailyTimeOverrideLine, id: i32, end: Day) -> DailyTimeOverrideLine {
    if o.id == id {
        DailyTimeOverrideLine { id: o.id, start: o.start, end: Some(end), minutes_of_work: o.minutes_of_work }
    } else {
        o
    }
}

/// The windows with those of id `id` closed at `end`.
pub open spec fn close_window(ovs: Seq<DailyTimeOverrideLine>, id: i32, end: Day) -> Seq<DailyTimeOverrideLine> {
    ovs.map_values(|o: DailyTimeOverrideLine| closed_at(o, id, end))
}

/// The windows other than those of id `id`.
pub open spec fn without_id(ovs: Seq<DailyTimeOverrideLine>, id: i32) -> Seq<DailyTimeOverrideLine>
    decreases ovs.len(),
{
    if ovs.len() == 0 {
        ovs
    } else if ovs.last().id == id {
        without_id(ovs.drop_last(), id)
    } else {
        without_id(ovs.drop_last(), id).push(ovs.last())
    }
}

/// Entries in a period are entries of the whole, so they are valid too.
pub proof fn lemma_rows_in_period_wf(rows: Seq<DateLine>, from: Day, to: Day)
    requires
        rows_wf(rows),
    ensures
        rows_wf(rows_in_period(rows, from, to)),
        rows_in_period(rows, from, to).len() <= rows.len(),
    decreases rows.len(),
{
    if rows.len() > 0 {
        let pre = rows.drop_last();
        assert(rows_wf(pre)) by {
            assert forall|j: int| 0 <= j < pre.len() implies (#[trigger] pre[j]).wf() by {
                assert(pre[j] == rows[j]);
            }
        }
        lemma_rows_in_period_wf(pre, from, to);
        assert(rows[rows.len() - 1].wf());
    }
}

/// Flex entries in a period are entries of the whole, so they are valid too.
pub proof fn lemma_flex_in_period_wf(flex: Seq<FlexLine>, from: Day, to: Day)
    requires
        flex_wf(flex),
    ensures
        flex_wf(flex_in_period(flex, from, to)),
        flex_in_period(flex, from, to).len() <= flex.len(),
    decreases flex.len(),
{
    if flex.len() > 0 {
        let pre = flex.drop_last();
        assert(flex_wf(pre)) by {
            assert forall|j: int| 0 <= j < pre.len() implies (#[trigger] pre[j]).date.wf() by {
                assert(pre[j] == flex[j]);
            }
        }
        lemma_flex_in_period_wf(pre, from, to);
        assert(flex[flex.len() - 1].date.wf());
    }
}

/// A copy of a flex entry.
fn copy_flex_line(f: &FlexLine) -> (r: FlexLine)
    ensures
        r == *f,
{
    FlexLine { date: f.date, flex_minutes: f.flex_minutes, comment: f.comment.clone() }
}

/// The recorded history.
pub struct Ledger {
    pub times: Vec<DateLine>,
    pub flex: Vec<FlexLine>,
    pub overrides: Vec<DailyTimeOverrideLine>,
}

impl Ledger {
    /// Valid entries and windows, and room for the report's fixed rows.
    pub open spec fn wf(&self) -> bool {
        &&& rows_wf(self.times@)
        &&& sorted_by_start(self.times@)
        &&& flex_wf(self.flex@)
        &&& sorted_by_date(self.flex@)
        &&& overrides_wf(self.overrides@)
        &&& self.flex@.len() <= usize::MAX - 4
    }

    /// An empty history.
    pub fn new() -> (r: Ledger)
        ensures
            r.wf(),
            r.times@.len() == 0,
            r.flex@.len() == 0,
            r.overrides@.len() == 0,
    {
        Ledger { times: Vec::new(), flex: Vec::new(), overrides: Vec::new() }
    }

    /// Records an entry from `start` to `end` with a break, filed under the
    /// start's day, after every entry that starts no later. Refused unless both
    /// stamps are valid and the end is after the start.
    pub fn insert_time(&mut self, start: Stamp, end: Stamp, break_time_minutes: i32) -> (r: Result<(), LedgerError>)
        requires
            old(self).wf(),
        ensures
            final(self).wf(),
            r is Ok <==> start.wf() && end.wf() && start.abs_minutes() < end.abs_minutes(),
            r is Ok ==> exists|p: int|
                0 <= p <= old(self).times@.len() && final(self).times@ == old(self).times@.insert(
                    p,
                    DateLine { start, end, break_time_minutes, date: start.day },
                ),
            r is Ok ==> final(self).times@.to_multiset() == old(self).times@.to_multiset().insert(
                DateLine { start, end, break_time_minutes, date: start.day },
            ),
            r is Err ==> final(self).times@ == old(self).times@ && r == Err::<(), LedgerError>(LedgerError::InvalidEntry),
            final(self).flex@ == old(self).flex@,
            final(self).overrides@ == old(self).overrides@,
    {
        let valid = start.day.days_from_ce >= 1 && start.day.days_from_ce <= crate::calendar::LAST_DAY
            && end.day.days_from_ce >= 1 && end.day.days_from_ce <= crate::calendar::LAST_DAY
            && start.minute_of_day < 1440 && end.minute_of_day < 1440;
        if !valid || start.minutes() >= end.minutes() {
            return Err(LedgerError::InvalidEntry);
        }
        let line = DateLine { start, end, break_time_minutes, date: start.day };
        let t = start.minutes();
        let mut p: usize = 0;
        while p < self.times.len() && self.times[p].start.minutes() <= t
            invariant
                p <= self.times@.len(),
                t == start.abs_minutes(),
                forall|q: int| 0 <= q < p ==> self.times@[q].start.abs_minutes() <= t,
            decreases self.times.len() - p,
        {
            p = p + 1;
        }
        let ghost before = self.times@;
        self.times.insert(p, line);
        proof {
            broadcast use vstd::seq_lib::group_to_multiset_ensures;

            let after = self.times@;
            assert(after == before.insert(p as int, line));
            assert forall|a: int, b: int| 0 <= a < b < after.len() implies after[a].start.abs_minutes()
                <= after[b].start.abs_minutes() by {
                if b < p {
                    assert(after[a] == before[a] && after[b] == before[b]);
                } else if b == p {
                    assert(after[a] == before[a]);
                } else {
                    assert(after[b] == before[b - 1]);
                    assert(before[p as int].start.abs_minutes() > t);
                    if a < p {
                        assert(after[a] == before[a]);
                    } else if a > p {
                        assert(after[a] == before[a - 1]);
                    }
                }
            }
            assert forall|j: int| 0 <= j < after.len() implies (#[trigger] after[j]).wf() by {
                if j < p {
                    assert(after[j] == before[j]);
                } else if j > p {
                    assert(after[j] == before[j - 1]);
                }
            }
            assert(after.remove(p as int) =~= before);
            assert(after.remove(p as int).to_multiset() =~= after.to_multiset().remove(line));
            assert(after.to_multiset().count(line) > 0) by {
                assert(after.contains(line)) by {
                    assert(after[p as int] == line);
                }
            }
            assert(after.to_multiset() =~= before.to_multiset().insert(line));
        }
        Ok(())
    }

    /// Records a manual flex adjustment after every one dated no later; a
    /// missing comment is recorded as empty.
    pub fn add_flex(&mut self, flex_minutes: i32, date: Day, comment: Option<String>) -> (r: Result<(), LedgerError>)
        requires
            old(self).wf(),
        ensures
            final(self).wf(),
            !date.wf() ==> r == Err::<(), LedgerError>(LedgerError::InvalidEntry),
            date.wf() && old(self).flex@.len() < usize::MAX - 4 ==> r is Ok,
            r is Ok ==> exists|p: int|
                0 <= p <= old(self).flex@.len() && final(self).flex@ == old(self).flex@.insert(p, final(self).flex@[p])
                    && final(self).flex@[p].date == date && final(self).flex@[p].flex_minutes == flex_minutes
                    && final(self).flex@[p].comment@ == comment_text(comment),
            r is Err ==> final(self).flex@ == old(self).flex@,
            final(self).times@ == old(self).times@,
            final(self).overrides@ == old(self).overrides@,
    {
        if !(date.days_from_ce >= 1 && date.days_from_ce <= crate::calendar::LAST_DAY) {
            return Err(LedgerError::InvalidEntry);
        }
        if self.flex.len() >= usize::MAX - 4 {
            return Err(LedgerError::Full);
        }
        let ghost given = comment;
        let text = match comment {
            Some(c) => c,
            None => String::new(),
        };
        assert(text@ == comment_text(given));
        let mut p: usize = 0;
        while p < self.flex.len() && self.flex[p].date.days_from_ce <= date.days_from_ce
            invariant
                p <= self.flex@.len(),
                forall|q: int| 0 <= q < p ==> self.flex@[q].date.num() <= date.num(),
            decreases self.flex.len() - p,
        {
            p = p + 1;
        }
        let ghost before = self.flex@;
        let line = FlexLine { date, flex_minutes, comment: text };
        let ghost new_line = line;
        self.flex.insert(p, line);
        proof {
            let after = self.flex@;
            assert(after == before.insert(p as int, new_line));
            assert(after[p as int] == new_line);
            assert forall|a: int, b: int| 0 <= a < b < after.len() implies after[a].date.num() <= after[b].date.num() by {
                if b < p {
                    assert(after[a] == before[a] && after[b] == before[b]);
                } else if b == p {
                    assert(after[a] == before[a]);
                } else {
                    assert(after[b] == before[b - 1]);
                    assert(before[p as int].date.num() > date.num());
                    if a < p {
                        assert(after[a] == before[a]);
                    } else if a > p {
                        assert(after[a] == before[a - 1]);
                    }
                }
            }
            assert forall|j: int| 0 <= j < after.len() implies (#[trigger] after[j]).date.wf() by {
                if j < p {
                    assert(after[j] == before[j]);
                } else if j > p {
                    assert(after[j] == before[j - 1]);
                }
            }
        }
        Ok(())
    }

    /// The largest window id, 0 for none.
    fn largest_override_id(&self) -> (r: i32)
        requires
            overrides_wf(self.overrides@),
        ensures
            r == max_id(self.overrides@),
            r >= 0,
    {
        let mut best: i32 = 0;
        let mut i: usize = 0;
        while i < self.overrides.len()
            invariant
                i <= self.overrides@.len(),
                best == max_id(self.overrides@.subrange(0, i as int)),
                best >= 0,
            decreases self.overrides.len() - i,
        {
            proof {
                assert(self.overrides@.subrange(0, i as int + 1).drop_last() =~= self.overrides@.subrange(0, i as int));
            }
            if self.overrides[i].id > best {
                best = self.overrides[i].id;
            }
            i = i + 1;
        }
        proof {
            assert(self.overrides@.subrange(0, i as int) =~= self.overrides@);
        }
        best
    }

    /// Opens a window from `start` on with a workday of `minutes_of_work`
    /// minutes, under the id one above the largest so far, which it returns.
    pub fn add_daily_time_override(&mut self, start: Day, minutes_of_work: i32) -> (r: Result<i32, LedgerError>)
        requires
            old(self).wf(),
        ensures
            final(self).wf(),
            !(start.wf() && minutes_of_work >= 1) ==> r == Err::<i32, LedgerError>(LedgerError::InvalidEntry),
            start.wf() && minutes_of_work >= 1 ==> (r is Ok <==> max_id(old(self).overrides@) < i32::MAX),
            r matches Ok(id) ==> id == max_id(old(self).overrides@) + 1 && final(self).overrides@
                == old(self).overrides@.push(DailyTimeOverrideLine { id, start, end: None, minutes_of_work }),
            r is Err ==> final(self).overrides@ == old(self).overrides@,
            final(self).times@ == old(self).times@,
            final(self).flex@ == old(self).flex@,
    {
        if !(start.days_from_ce >= 1 && start.days_from_ce <= crate::calendar::LAST_DAY) || minutes_of_work < 1 {
            return Err(LedgerError::InvalidEntry);
        }
        let top = self.largest_override_id();
        if top == i32::MAX {
            return Err(LedgerError::Full);
        }
        let id = top + 1;
        self.overrides.push(DailyTimeOverrideLine { id, start, end: None, minutes_of_work });
        proof {
            assert forall|j: int| 0 <= j < self.overrides@.len() implies {
                &&& (#[trigger] self.overrides@[j]).start.wf()
                &&& self.overrides@[j].id >= 1
                &&& self.overrides@[j].minutes_of_work >= 1
                &&& match self.overrides@[j].end {
                    Some(e) => e.wf(),
                    None => true,
                }
            } by {
                if j < old(self).overrides@.len() {
                    assert(self.overrides@[j] == old(self).overrides@[j]);
                }
            }
        }
        Ok(id)
    }

    /// Closes the window with id `id` at `end` (exclusive). `NotFound` when no
    /// window has that id.
    pub fn stop_daily_time_override(&mut self, id: i32, end: Day) -> (r: Result<(), LedgerError>)
        requires
            old(self).wf(),
        ensures
            final(self).wf(),
            !end.wf() ==> r == Err::<(), LedgerError>(LedgerError::InvalidEntry),
            end.wf() ==> (r is Ok <==> has_id(old(self).overrides@, id)),
            end.wf() && r is Err ==> r == Err::<(), LedgerError>(LedgerError::NotFound),
            r is Ok ==> final(self).overrides@ == close_window(old(self).overrides@, id, end),
            r is Err ==> final(self).overrides@ == old(self).overrides@,
            final(self).times@ == old(self).times@,
            final(self).flex@ == old(self).flex@,
    {
        if !(end.days_from_ce >= 1 && end.days_from_ce <= crate::calendar::LAST_DAY) {
            return Err(LedgerError::InvalidEntry);
        }
        let mut found = false;
        let mut i: usize = 0;
        while i < self.overrides.len()
            invariant
                i <= self.overrides@.len(),
                self.overrides@.len() == old(self).overrides@.len(),
                forall|q: int| 0 <= q < i ==> self.overrides@[q] == closed_at(old(self).overrides@[q], id, end),
                forall|q: int| i <= q < self.overrides@.len() ==> self.overrides@[q] == old(self).overrides@[q],
                found <==> exists|q: int| 0 <= q < i && old(self).overrides@[q].id == id,
                self.times@ == old(self).times@,
                self.flex@ == old(self).flex@,
            decreases self.overrides.len() - i,
        {
            let o = self.overrides[i];
            if o.id == id {
                self.overrides.set(
                    i,
                    DailyTimeOverrideLine { id: o.id, start: o.start, end: Some(end), minutes_of_work: o.minutes_of_work },
                );
                found = true;
            }
            i = i + 1;
        }
        if !found {
            proof {
                assert(self.overrides@ =~= old(self).overrides@);
            }
            return Err(LedgerError::NotFound);
        }
        proof {
            assert(self.overrides@ =~= close_window(old(self).overrides@, id, end));
            assert forall|j: int| 0 <= j < self.overrides@.len() implies {
                &&& (#[trigger] self.overrides@[j]).start.wf()
                &&& self.overrides@[j].id >= 1
                &&& self.overrides@[j].minutes_of_work >= 1
                &&& match self.overrides@[j].end {
                    Some(e) => e.wf(),
                    None => true,
                }
            } by {
                assert(old(self).overrides@[j].start.wf());
            }
        }
        Ok(())
    }

    /// Every window, in the order they were opened.
    pub fn list_daily_time_overrides(&self) -> (r: Vec<DailyTimeOverrideLine>)
        ensures
            r@ == self.overrides@,
    {
        let mut out: Vec<DailyTimeOverrideLine> = Vec::new();
        let mut i: usize = 0;
        while i < self.overrides.len()
            invariant
                i <= self.overrides@.len(),
                out@ == self.overrides@.subrange(0, i as int),
            decreases self.overrides.len() - i,
        {
            out.push(self.overrides[i]);
            proof {
                assert(out@ =~= self.overrides@.subrange(0, i as int + 1));
            }
            i = i + 1;
        }
        proof {
            assert(self.overrides@.subrange(0, i as int) =~= self.overrides@);
        }
        out
    }

    /// The window that governs `date`: of those that cover it, the one opened last.
    pub fn get_daily_time_override_for_date(&self, date: Day) -> (r: Option<DailyTimeOverrideLine>)
        ensures
            r == active_override(self.overrides@, date.num()),
    {
        get_active_override(&self.overrides, date)
    }

    /// The entries inside the period from `from` to `to`, in their order.
    pub fn list_times(&self, from: Day, to: Day) -> (r: Vec<DateLine>)
        ensures
            r@ == rows_in_period(self.times@, from, to),
            sorted_by_start(self.times@) ==> sorted_by_start(r@),
    {
        let lo: i64 = from.days_from_ce as i64 * 1440;
        let hi: i64 = to.days_from_ce as i64 * 1440;
        let mut out: Vec<DateLine> = Vec::new();
        let mut i: usize = 0;
        while i < self.times.len()
            invariant
                i <= self.times@.len(),
                lo == from.num() * 1440,
                hi == to.num() * 1440,
                out@ == rows_in_period(self.times@.subrange(0, i as int), from, to),
            decreases self.times.len() - i,
        {
            proof {
                assert(self.times@.subrange(0, i as int + 1).drop_last() =~= self.times@.subrange(0, i as int));
            }
            let e = self.times[i];
            if lo < e.start.minutes() && e.end.minutes() < hi {
                out.push(e);
            }
            i = i + 1;
        }
        proof {
            assert(self.times@.subrange(0, i as int) =~= self.times@);
            if sorted_by_start(self.times@) {
                lemma_rows_in_period_sorted(self.times@, from, to);
            }
        }
        out
    }

    /// The flex entries dated from `from` up to, not including, `to`, in their order.
    pub fn list_flex(&self, from: Day, to: Day) -> (r: Vec<FlexLine>)
        ensures
            r@ == flex_in_period(self.flex@, from, to),
            sorted_by_date(self.flex@) ==> sorted_by_date(r@),
    {
        let mut out: Vec<FlexLine> = Vec::new();
        let mut i: usize = 0;
        while i < self.flex.len()
            invariant
                i <= self.flex@.len(),
                out@ == flex_in_period(self.flex@.subrange(0, i as int), from, to),
            decreases self.flex.len() - i,
        {
            proof {
                assert(self.flex@.subrange(0, i as int + 1).drop_last() =~= self.flex@.subrange(0, i as int));
            }
            let d = self.flex[i].date.days_from_ce;
            if from.days_from_ce <= d && d < to.days_from_ce {
                let f = copy_flex_line(&self.flex[i]);
                out.push(f);
            }
            i = i + 1;
        }
        proof {
            assert(self.flex@.subrange(0, i as int) =~= self.flex@);
            if sorted_by_date(self.flex@) {
                lemma_flex_in_period_sorted(self.flex@, from, to);
            }
        }
        out
    }

    /// The all-time balance in minutes.
    pub fn calculate_flex_minutes(&self) -> (r: i128)
        requires
            self.wf(),
        ensures
            r == total_flex(self.times@, self.flex@, self.overrides@),
            -0x2_0000_0000_0000_0000_0000_0000_0000 <= r <= 0x2_0000_0000_0000_0000_0000_0000_0000,
    {
        assert forall|j: int| 0 <= j < self.times@.len() implies (#[trigger] self.times@[j]).date.wf() by {
            assert(self.times@[j].wf());
        }
        crate::flex::total_flex_minutes(&self.times, &self.flex, &self.overrides)
    }

    /// The balance of the period from `from` to `to` and the all-time balance,
    /// in minutes.
    pub fn flex_totals(&self, from: Day, to: Day) -> (r: (i128, i128))
        requires
            self.wf(),
        ensures
            r.0 == period_flex(self.times@, self.flex@, self.overrides@, from, to),
            r.1 == total_flex(self.times@, self.flex@, self.overrides@),
    {
        let rows = self.list_times(from, to);
        let flex = self.list_flex(from, to);
        proof {
            lemma_rows_in_period_wf(self.times@, from, to);
        }
        assert forall|j: int| 0 <= j < rows@.len() implies (#[trigger] rows@[j]).date.wf() by {
            assert(rows@[j].wf());
        }
        let period = crate::flex::total_flex_minutes(&rows, &flex, &self.overrides);
        (period, self.calculate_flex_minutes())
    }

    /// The report of the period from `from` to `to`: CSV when `csv`, else the
    /// human report; both over the period's entries and the all-time balance.
    pub fn report(&self, from: Day, to: Day, csv: bool) -> (r: Vec<String>)
        requires
            self.wf(),
            from.wf(),
            to.wf(),
        ensures
            csv ==> texts(r@) == csv_report(
                rows_in_period(self.times@, from, to),
                flex_in_period(self.flex@, from, to),
                self.overrides@,
                total_flex(self.times@, self.flex@, self.overrides@),
            ),
            !csv ==> texts(r@) == human_report(
                rows_in_period(self.times@, from, to),
                flex_in_period(self.flex@, from, to),
                self.overrides@,
                total_flex(self.times@, self.flex@, self.overrides@),
                from,
                to,
            ),
    {
        let rows = self.list_times(from, to);
        let flex = self.list_flex(from, to);
        let total = self.calculate_flex_minutes();
        proof {
            lemma_rows_in_period_wf(self.times@, from, to);
            lemma_flex_in_period_wf(self.flex@, from, to);
        }
        if csv {
            create_csv_report(rows, flex, &self.overrides, total)
        } else {
            create_human_friendly_report(rows, flex, &self.overrides, total, from, to)
        }
    }

    /// How many entries start before `now`.
    pub fn get_num_time_entries(&self, now: Stamp) -> (r: usize)
        ensures
            r == count_started_before(self.times@, now.abs_minutes()),
    {
        let t = now.minutes();
        let mut n: usize = 0;
        let mut i: usize = 0;
        while i < self.times.len()
            invariant
                i <= self.times@.len(),
                t == now.abs_minutes(),
                n == count_started_before(self.times@.subrange(0, i as int), t as int),
                n <= i,
            decreases self.times.len() - i,
        {
            proof {
                assert(self.times@.subrange(0, i as int + 1).drop_last() =~= self.times@.subrange(0, i as int));
            }
            if self.times[i].start.minutes() < t {
                n = n + 1;
            }
            i = i + 1;
        }
        proof {
            assert(self.times@.subrange(0, i as int) =~= self.times@);
        }
        n
    }

    /// The day of the latest-starting entry that starts before `now`, if any does.
    pub fn get_date_for_last_entry(&self, now: Stamp) -> (r: Option<Day>)
        ensures
            r is None <==> forall|j: int| 0 <= j < self.times@.len() ==> (#[trigger] self.times@[j]).start.abs_minutes() >= now.abs_minutes(),
            r matches Some(d) ==> exists|j: int|
                0 <= j < self.times@.len() && {
                    &&& (#[trigger] self.times@[j]).date == d
                    &&& self.times@[j].start.abs_minutes() < now.abs_minutes()
                    &&& forall|k: int|
                        0 <= k < self.times@.len() && (#[trigger] self.times@[k]).start.abs_minutes() < now.abs_minutes()
                            ==> self.times@[k].start.abs_minutes() <= self.times@[j].start.abs_minutes()
                },
    {
        let t = now.minutes();
        let mut best: Option<usize> = None;
        let mut i: usize = 0;
        while i < self.times.len()
            invariant
                i <= self.times@.len(),
                t == now.abs_minutes(),
                best is None <==> forall|j: int| 0 <= j < i ==> (#[trigger] self.times@[j]).start.abs_minutes() >= t,
                best matches Some(b) ==> {
                    &&& b < i
                    &&& self.times@[b as int].start.abs_minutes() < t
                    &&& forall|k: int|
                        0 <= k < i && (#[trigger] self.times@[k]).start.abs_minutes() < t
                            ==> self.times@[k].start.abs_minutes() <= self.times@[b as int].start.abs_minutes()
                },
            decreases self.times.len() - i,
        {
            let s = self.times[i].start.minutes();
            if s < t {
                match best {
                    None => {
                        best = Some(i);
                    },
                    Some(b) => {
                        if s > self.times[b].start.minutes() {
                            best = Some(i);
                        }
                    },
                }
            }
            i = i + 1;
        }
        match best {
            None => None,
            Some(b) => Some(self.times[b].date),
        }
    }

    /// Forgets every entry and window.
    pub fn clear(&mut self)
        ensures
            final(self).wf(),
            final(self).times@.len() == 0,
            final(self).flex@.len() == 0,
            final(self).overrides@.len() == 0,
    {
        self.times = Vec::new();
        self.flex = Vec::new();
        self.overrides = Vec::new();
    }
}

} // verus!
