//! The human-readable and CSV reports over a period's entries.
use vstd::prelude::*;
use vstd::string::*;
use crate::calendar::{Day, iso_date_text};
use crate::flex::{
    build_map_by_date, calculate_flex, date_set, day_flex, has_date, rows_on, sorted_dates, total_flex,
    lists_set,
};
use crate::records::{DailyTimeOverrideLine, DateLine, FlexLine};
use crate::text::{clock_text, hours_text, hours_to_text, int_text, int_to_text};

verus! {

/// The character views of a sequence of strings.
pub open spec fn texts(v: Seq<String>) -> Seq<Seq<char>> {
    v.map_values(|s: String| s@)
}

/// Every entry valid.
pub open spec fn rows_wf(rows: Seq<DateLine>) -> bool {
    forall|j: int| 0 <= j < rows.len() ==> (#[trigger] rows[j]).wf()
}

/// Every flex entry on a valid day.
pub open spec fn flex_wf(flex: Seq<FlexLine>) -> bool {
    forall|j: int| 0 <= j < flex.len() ==> (#[trigger] flex[j]).date.wf()
}

/// Largest magnitude of a total that the reports render.
pub open spec fn total_in_range(total: int) -> bool {
    -0x100_0000_0000_0000_0000_0000_0000_0000 < total < 0x100_0000_0000_0000_0000_0000_0000_0000
}

pub open spec fn entry_line(e: DateLine) -> Seq<char> {
    "Worked from "@ + clock_text(e.start.minute_of_day as int) + " to "@ + clock_text(e.end.minute_of_day as int)
        + " with a break of "@ + int_text(e.break_time_minutes as int) + " minutes"@
}

pub open spec fn entry_lines(rows: Seq<DateLine>) -> Seq<Seq<char>> {
    rows.map_values(|e: DateLine| entry_line(e))
}

pub open spec fn day_header(flex: int, d: int) -> Seq<char> {
    "Got "@ + int_text(flex) + " flex minutes from "@ + iso_date_text(d) + ":"@
}

/// For each day of `ds`: its header with the day's flex, then one line per entry.
pub open spec fn human_days(ds: Seq<i32>, rows: Seq<DateLine>, ovs: Seq<DailyTimeOverrideLine>) -> Seq<Seq<char>>
    decreases ds.len(),
{
    if ds.len() == 0 {
        Seq::empty()
    } else {
        let d = ds.last();
        let rs = rows_on(rows, d);
        human_days(ds.drop_last(), rows, ovs) + seq![day_header(day_flex(rs, ovs, d as int), d as int)]
            + entry_lines(rs)
    }
}

pub open spec fn flex_line(f: FlexLine) -> Seq<char> {
    "Registered "@ + int_text(f.flex_minutes as int) + " minutes of flex at "@ + iso_date_text(f.date.num())
        + " with comment: '"@ + f.comment@ + "'"@
}

pub open spec fn flex_lines(flex: Seq<FlexLine>) -> Seq<Seq<char>> {
    flex.map_values(|f: FlexLine| flex_line(f))
}

pub open spec fn closing_line(period: int, total: int) -> Seq<char> {
    "Flex diff for selected period: "@ + hours_text(period) + " hours. Total flex to spend: "@ + hours_text(total)
        + " hours"@
}

pub open spec fn human_title(from: Day, to: Day) -> Seq<char> {
    "Time entries from "@ + iso_date_text(from.num()) + " to "@ + iso_date_text(to.num()) + "."@
}

/// The human report: a title, each day with entries, the manual flex entries,
/// and a closing line with the period's and the all-time balance.
pub open spec fn human_report(
    rows: Seq<DateLine>,
    flex: Seq<FlexLine>,
    ovs: Seq<DailyTimeOverrideLine>,
    total: int,
    from: Day,
    to: Day,
) -> Seq<Seq<char>> {
    seq![human_title(from, to)] + human_days(sorted_dates(rows), rows, ovs) + seq!["Manual flex entries:"@]
        + flex_lines(flex) + seq![closing_line(total_flex(rows, flex, ovs), total)]
}

/// Entries of a day are entries of the whole, so they are valid too.
pub proof fn lemma_rows_on_wf(rows: Seq<DateLine>, d: i32)
    requires
        rows_wf(rows),
    ensures
        rows_wf(rows_on(rows, d)),
    decreases rows.len(),
{
    if rows.len() > 0 {
        let pre = rows.drop_last();
        assert(rows_wf(pre)) by {
            assert forall|j: int| 0 <= j < pre.len() implies (#[trigger] pre[j]).wf() by {
                assert(pre[j] == rows[j]);
            }
        }
        lemma_rows_on_wf(pre, d);
        assert(rows[rows.len() - 1].wf());
    }
}

/// A day that has entries has a nonempty group.
pub proof fn lemma_rows_on_nonempty(rows: Seq<DateLine>, d: i32)
    requires
        has_date(rows, d),
    ensures
        rows_on(rows, d).len() > 0,
    decreases rows.len(),
{
    let pre = rows.drop_last();
    if rows.last().date.days_from_ce != d {
        let j = choose|j: int| 0 <= j < rows.len() && rows[j].date.days_from_ce == d;
        assert(pre[j] == rows[j]);
        lemma_rows_on_nonempty(pre, d);
    }
}

fn entry_text(e: &DateLine) -> (r: String)
    requires
        e.wf(),
    ensures
        r@ == entry_line(*e),
{
    let mut s = String::from_str("Worked from ");
    let a = e.start.clock();
    s.append(a.as_str());
    s.append(" to ");
    let b = e.end.clock();
    s.append(b.as_str());
    s.append(" with a break of ");
    let c = int_to_text(e.break_time_minutes as i128);
    s.append(c.as_str());
    s.append(" minutes");
    s
}

fn day_header_text(flex: i128, d: Day) -> (r: String)
    requires
        d.wf(),
    ensures
        r@ == day_header(flex as int, d.num()),
{
    let mut s = String::from_str("Got ");
    let a = int_to_text(flex);
    s.append(a.as_str());
    s.append(" flex minutes from ");
    let b = d.to_text();
    s.append(b.as_str());
    s.append(":");
    s
}

fn flex_text(f: &FlexLine) -> (r: String)
    requires
        f.date.wf(),
    ensures
        r@ == flex_line(*f),
{
    let mut s = String::from_str("Registered ");
    let a = int_to_text(f.flex_minutes as i128);
    s.append(a.as_str());
    s.append(" minutes of flex at ");
    let b = f.date.to_text();
    s.append(b.as_str());
    s.append(" with comment: '");
    s.append(f.comment.as_str());
    s.append("'");
    s
}

fn closing_text(period: i128, total: i128) -> (r: String)
    requires
        total_in_range(period as int),
        total_in_range(total as int),
    ensures
        r@ == closing_line(period as int, total as int),
{
    let mut s = String::from_str("Flex diff for selected period: ");
    let a = hours_to_text(period);
    s.append(a.as_str());
    s.append(" hours. Total flex to spend: ");
    let b = hours_to_text(total);
    s.append(b.as_str());
    s.append(" hours");
    s
}

fn title_text(from: Day, to: Day) -> (r: String)
    requires
        from.wf(),
        to.wf(),
    ensures
        r@ == human_title(from, to),
{
    let mut s = String::from_str("Time entries from ");
    let a = from.to_text();
    s.append(a.as_str());
    s.append(" to ");
    let b = to.to_text();
    s.append(b.as_str());
    s.append(".");
    s
}

/// The human report of the period's entries `time_rows` and flex entries
/// `flex_rows`, with the all-time balance `total_flex_minutes`, for the period
/// from `start` to `end`.
pub fn create_human_friendly_report(
    time_rows: Vec<DateLine>,
    flex_rows: Vec<FlexLine>,
    overrides: &Vec<DailyTimeOverrideLine>,
    total_flex_minutes: i128,
    start: Day,
    end: Day,
) -> (r: Vec<String>)
    requires
        rows_wf(time_rows@),
        flex_wf(flex_rows@),
        total_in_range(total_flex_minutes as int),
        start.wf(),
        end.wf(),
    ensures
        texts(r@) == human_report(time_rows@, flex_rows@, overrides@, total_flex_minutes as int, start, end),
{
    let ghost rows = time_rows@;
    let ghost ovs = overrides@;
    assert forall|j: int| 0 <= j < rows.len() implies (#[trigger] rows[j]).date.wf() by {
        assert(rows[j].wf());
    }
    let period = crate::flex::total_flex_minutes(&time_rows, &flex_rows, overrides);
    let mut lines: Vec<String> = Vec::new();
    let t = title_text(start, end);
    lines.push(t);
    let groups = build_map_by_date(&time_rows);
    let ghost ds = sorted_dates(rows);
    let ghost head = seq![human_title(start, end)];
    assert(texts(lines@) =~= head);
    let mut k: usize = 0;
    while k < groups.len()
        invariant
            k <= groups.len(),
            rows == time_rows@,
            ovs == overrides@,
            rows_wf(rows),
            ds == sorted_dates(rows),
            lists_set(ds, date_set(rows)),
            groups@.len() == ds.len(),
            forall|q: int|
                0 <= q < groups@.len() ==> {
                    &&& (#[trigger] groups@[q]).date.days_from_ce == ds[q]
                    &&& groups@[q].lines@ == rows_on(rows, ds[q])
                },
            texts(lines@) == head + human_days(ds.subrange(0, k as int), rows, ovs),
        decreases groups.len() - k,
    {
        let g = &groups[k];
        let ghost d = ds[k as int];
        proof {
            assert(ds.contains(d));
            assert(date_set(rows).contains(d));
            let j = choose|j: int| 0 <= j < rows.len() && rows[j].date.days_from_ce == d;
            assert(rows[j].wf());
            lemma_rows_on_wf(rows, d);
        }
        let flex = calculate_flex(&g.lines, g.date, overrides);
        let h = day_header_text(flex, g.date);
        let ghost before = texts(lines@);
        lines.push(h);
        proof {
            assert(texts(lines@) =~= before.push(h@));
        }
        let mut j: usize = 0;
        while j < g.lines.len()
            invariant
                j <= g.lines@.len(),
                rows_wf(g.lines@),
                texts(lines@) == before + seq![h@] + entry_lines(g.lines@.subrange(0, j as int)),
            decreases g.lines.len() - j,
        {
            let e = entry_text(&g.lines[j]);
            let ghost b2 = texts(lines@);
            lines.push(e);
            proof {
                assert(texts(lines@) =~= b2.push(e@));
                assert(entry_lines(g.lines@.subrange(0, j as int + 1)) =~= entry_lines(
                    g.lines@.subrange(0, j as int),
                ).push(entry_line(g.lines@[j as int])));
            }
            j = j + 1;
        }
        proof {
            assert(g.lines@.subrange(0, j as int) =~= g.lines@);
            assert(ds.subrange(0, k as int + 1).drop_last() =~= ds.subrange(0, k as int));
            assert(texts(lines@) =~= head + human_days(ds.subrange(0, k as int + 1), rows, ovs));
        }
        k = k + 1;
    }
    let m = String::from_str("Manual flex entries:");
    let ghost b3 = texts(lines@);
    lines.push(m);
    proof {
        assert(ds.subrange(0, k as int) =~= ds);
        assert(texts(lines@) =~= b3.push("Manual flex entries:"@));
    }
    let ghost mid = texts(lines@);
    let mut i: usize = 0;
    while i < flex_rows.len()
        invariant
            i <= flex_rows@.len(),
            flex_wf(flex_rows@),
            texts(lines@) == mid + flex_lines(flex_rows@.subrange(0, i as int)),
        decreases flex_rows.len() - i,
    {
        assert(flex_rows@[i as int].date.wf());
        let f = flex_text(&flex_rows[i]);
        let ghost b4 = texts(lines@);
        lines.push(f);
        proof {
            assert(texts(lines@) =~= b4.push(f@));
            assert(flex_lines(flex_rows@.subrange(0, i as int + 1)) =~= flex_lines(flex_rows@.subrange(0, i as int)).push(
                flex_line(flex_rows@[i as int]),
            ));
        }
        i = i + 1;
    }
    let c = closing_text(period, total_flex_minutes);
    let ghost b5 = texts(lines@);
    lines.push(c);
    proof {
        assert(flex_rows@.subrange(0, i as int) =~= flex_rows@);
        assert(texts(lines@) =~= b5.push(c@));
        assert(texts(lines@) =~= human_report(rows, flex_rows@, ovs, total_flex_minutes as int, start, end));
    }
    lines
}

pub open spec fn csv_header() -> Seq<char> {
    "Date,Start,End,Break,Flex (minutes),,,Flex for period (hours),Flex total (hours)"@
}

/// The row of a day's first entry, carrying the day and its flex.
pub open spec fn csv_first_row(e: DateLine, d: int, flex: int) -> Seq<char> {
    iso_date_text(d) + ","@ + clock_text(e.start.minute_of_day as int) + ","@ + clock_text(
        e.end.minute_of_day as int,
    ) + ","@ + int_text(e.break_time_minutes as int) + ","@ + int_text(flex)
}

/// The row of a further entry of the same day, with the day and flex left blank.
pub open spec fn csv_more_row(e: DateLine) -> Seq<char> {
    ","@ + clock_text(e.start.minute_of_day as int) + ","@ + clock_text(e.end.minute_of_day as int) + ","@
        + int_text(e.break_time_minutes as int) + ","@
}

pub open spec fn csv_more_rows(rows: Seq<DateLine>) -> Seq<Seq<char>> {
    rows.map_values(|e: DateLine| csv_more_row(e))
}

/// For each day of `ds`: its first entry's row, then its further entries' rows.
pub open spec fn csv_days(ds: Seq<i32>, rows: Seq<DateLine>, ovs: Seq<DailyTimeOverrideLine>) -> Seq<Seq<char>>
    decreases ds.len(),
{
    if ds.len() == 0 {
        Seq::empty()
    } else {
        let d = ds.last();
        let rs = rows_on(rows, d);
        csv_days(ds.drop_last(), rows, ovs) + seq![csv_first_row(rs[0], d as int, day_flex(rs, ovs, d as int))]
            + csv_more_rows(rs.drop_first())
    }
}

/// `rows` padded with empty rows up to length `index`.
pub open spec fn pad_to(rows: Seq<Seq<char>>, index: int) -> Seq<Seq<char>> {
    if rows.len() < index {
        rows + Seq::new((index - rows.len()) as nat, |i: int| Seq::<char>::empty())
    } else {
        rows
    }
}

/// Puts `s` into column 8 onwards of row `index`: a new row after empty
/// padding rows, or appended to an existing row after three more commas.
pub open spec fn append_or_push(rows: Seq<Seq<char>>, index: int, s: Seq<char>) -> Seq<Seq<char>> {
    let p = pad_to(rows, index);
    if p.len() == index {
        p.push(",,,,,,,"@ + s)
    } else {
        p.update(index, p[index] + ",,,"@ + s)
    }
}

pub open spec fn csv_flex_row(f: FlexLine) -> Seq<char> {
    iso_date_text(f.date.num()) + ","@ + int_text(f.flex_minutes as int) + ","@ + f.comment@
}

/// The flex entries placed from row 4 on, one per row.
pub open spec fn csv_with_flex(base: Seq<Seq<char>>, flex: Seq<FlexLine>) -> Seq<Seq<char>>
    decreases flex.len(),
{
    if flex.len() == 0 {
        base
    } else {
        append_or_push(csv_with_flex(base, flex.drop_last()), 4 + flex.len() - 1, csv_flex_row(flex.last()))
    }
}

pub open spec fn csv_figures(period: int, total: int) -> Seq<char> {
    hours_text(period) + ","@ + hours_text(total)
}

/// The CSV report: the entries table, the period's and all-time balance in
/// row 1, and the flex entries table titled in row 3.
pub open spec fn csv_report(
    rows: Seq<DateLine>,
    flex: Seq<FlexLine>,
    ovs: Seq<DailyTimeOverrideLine>,
    total: int,
) -> Seq<Seq<char>> {
    let body = seq![csv_header()] + csv_days(sorted_dates(rows), rows, ovs);
    let with_figures = append_or_push(body, 1, csv_figures(total_flex(rows, flex, ovs), total));
    let with_title = append_or_push(with_figures, 3, "Date for flex,Minutes reported,Comment"@);
    csv_with_flex(with_title, flex)
}

/// Puts `to_append` into row `index` from column 8 on, adding empty rows
/// first where there are too few.
pub fn append_string_line_or_push_new(rows: &mut Vec<String>, index: usize, to_append: String)
    ensures
        texts(final(rows)@) == append_or_push(texts(old(rows)@), index as int, to_append@),
{
    let ghost start = texts(rows@);
    while rows.len() < index
        invariant
            texts(rows@) == pad_to(start, rows@.len() as int),
            start.len() <= rows@.len() || rows@.len() == start.len(),
            rows@.len() <= index || rows@.len() == start.len(),
        decreases index - rows.len(),
    {
        let ghost before = texts(rows@);
        rows.push(String::new());
        proof {
            assert(texts(rows@) =~= before.push(Seq::<char>::empty()));
            assert(pad_to(start, rows@.len() as int) =~= pad_to(start, rows@.len() - 1).push(Seq::<char>::empty()));
        }
    }
    proof {
        assert(texts(rows@) =~= pad_to(start, index as int));
    }
    if rows.len() == index {
        let mut s = String::from_str(",,,,,,,");
        s.append(to_append.as_str());
        let ghost before = texts(rows@);
        rows.push(s);
        proof {
            assert(texts(rows@) =~= before.push(s@));
        }
    } else {
        let mut s = rows[index].clone();
        s.append(",,,");
        s.append(to_append.as_str());
        let ghost before = texts(rows@);
        rows.set(index, s);
        proof {
            assert(texts(rows@) =~= before.update(index as int, s@));
        }
    }
}

fn csv_first_text(e: &DateLine, d: Day, flex: i128) -> (r: String)
    requires
        e.wf(),
        d.wf(),
    ensures
        r@ == csv_first_row(*e, d.num(), flex as int),
{
    let mut s = d.to_text();
    s.append(",");
    let a = e.start.clock();
    s.append(a.as_str());
    s.append(",");
    let b = e.end.clock();
    s.append(b.as_str());
    s.append(",");
    let c = int_to_text(e.break_time_minutes as i128);
    s.append(c.as_str());
    s.append(",");
    let f = int_to_text(flex);
    s.append(f.as_str());
    s
}

fn csv_more_text(e: &DateLine) -> (r: String)
    requires
        e.wf(),
    ensures
        r@ == csv_more_row(*e),
{
    let mut s = String::from_str(",");
    let a = e.start.clock();
    s.append(a.as_str());
    s.append(",");
    let b = e.end.clock();
    s.append(b.as_str());
    s.append(",");
    let c = int_to_text(e.break_time_minutes as i128);
    s.append(c.as_str());
    s.append(",");
    s
}

fn csv_flex_text(f: &FlexLine) -> (r: String)
    requires
        f.date.wf(),
    ensures
        r@ == csv_flex_row(*f),
{
    let mut s = f.date.to_text();
    s.append(",");
    let a = int_to_text(f.flex_minutes as i128);
    s.append(a.as_str());
    s.append(",");
    s.append(f.comment.as_str());
    s
}

fn csv_figures_text(period: i128, total: i128) -> (r: String)
    requires
        total_in_range(period as int),
        total_in_range(total as int),
    ensures
        r@ == csv_figures(period as int, total as int),
{
    let mut s = hours_to_text(period);
    s.append(",");
    let b = hours_to_text(total);
    s.append(b.as_str());
    s
}

/// The CSV report of the period's entries `time_rows` and flex entries
/// `flex_rows`, with the all-time balance `total_flex_minutes`.
pub fn create_csv_report(
    time_rows: Vec<DateLine>,
    flex_rows: Vec<FlexLine>,
    overrides: &Vec<DailyTimeOverrideLine>,
    total_flex_minutes: i128,
) -> (r: Vec<String>)
    requires
        rows_wf(time_rows@),
        flex_wf(flex_rows@),
        flex_rows@.len() <= usize::MAX - 4,
        total_in_range(total_flex_minutes as int),
    ensures
        texts(r@) == csv_report(time_rows@, flex_rows@, overrides@, total_flex_minutes as int),
{
    let ghost rows = time_rows@;
    let ghost ovs = overrides@;
    assert forall|j: int| 0 <= j < rows.len() implies (#[trigger] rows[j]).date.wf() by {
        assert(rows[j].wf());
    }
    let period = crate::flex::total_flex_minutes(&time_rows, &flex_rows, overrides);
    let mut lines: Vec<String> = Vec::new();
    lines.push(String::from_str("Date,Start,End,Break,Flex (minutes),,,Flex for period (hours),Flex total (hours)"));
    let groups = build_map_by_date(&time_rows);
    let ghost ds = sorted_dates(rows);
    let ghost head = seq![csv_header()];
    assert(texts(lines@) =~= head);
    let mut k: usize = 0;
    while k < groups.len()
        invariant
            k <= groups.len(),
            rows == time_rows@,
            ovs == overrides@,
            rows_wf(rows),
            ds == sorted_dates(rows),
            lists_set(ds, date_set(rows)),
            groups@.len() == ds.len(),
            forall|q: int|
                0 <= q < groups@.len() ==> {
                    &&& (#[trigger] groups@[q]).date.days_from_ce == ds[q]
                    &&& groups@[q].lines@ == rows_on(rows, ds[q])
                },
            texts(lines@) == head + csv_days(ds.subrange(0, k as int), rows, ovs),
        decreases groups.len() - k,
    {
        let g = &groups[k];
        let ghost d = ds[k as int];
        proof {
            assert(ds.contains(d));
            assert(date_set(rows).contains(d));
            let j = choose|j: int| 0 <= j < rows.len() && rows[j].date.days_from_ce == d;
            assert(rows[j].wf());
            lemma_rows_on_wf(rows, d);
            lemma_rows_on_nonempty(rows, d);
        }
        let flex = calculate_flex(&g.lines, g.date, overrides);
        let first = csv_first_text(&g.lines[0], g.date, flex);
        let ghost before = texts(lines@);
        lines.push(first);
        proof {
            assert(texts(lines@) =~= before.push(first@));
        }
        let mut j: usize = 1;
        while j < g.lines.len()
            invariant
                1 <= j <= g.lines@.len(),
                rows_wf(g.lines@),
                texts(lines@) == before + seq![first@] + csv_more_rows(g.lines@.subrange(1, j as int)),
            decreases g.lines.len() - j,
        {
            let e = csv_more_text(&g.lines[j]);
            let ghost b2 = texts(lines@);
            lines.push(e);
            proof {
                assert(texts(lines@) =~= b2.push(e@));
                assert(csv_more_rows(g.lines@.subrange(1, j as int + 1)) =~= csv_more_rows(
                    g.lines@.subrange(1, j as int),
                ).push(csv_more_row(g.lines@[j as int])));
            }
            j = j + 1;
        }
        proof {
            assert(g.lines@.subrange(1, j as int) =~= g.lines@.drop_first());
            assert(ds.subrange(0, k as int + 1).drop_last() =~= ds.subrange(0, k as int));
            assert(texts(lines@) =~= head + csv_days(ds.subrange(0, k as int + 1), rows, ovs));
        }
        k = k + 1;
    }
    proof {
        assert(ds.subrange(0, k as int) =~= ds);
    }
    let figures = csv_figures_text(period, total_flex_minutes);
    append_string_line_or_push_new(&mut lines, 1, figures);
    let title = String::from_str("Date for flex,Minutes reported,Comment");
    append_string_line_or_push_new(&mut lines, 3, title);
    let ghost with_title = texts(lines@);
    let mut i: usize = 0;
    while i < flex_rows.len()
        invariant
            i <= flex_rows@.len(),
            flex_rows@.len() <= usize::MAX - 4,
            flex_wf(flex_rows@),
            texts(lines@) == csv_with_flex(with_title, flex_rows@.subrange(0, i as int)),
        decreases flex_rows.len() - i,
    {
        assert(flex_rows@[i as int].date.wf());
        let f = csv_flex_text(&flex_rows[i]);
        append_string_line_or_push_new(&mut lines, 4 + i, f);
        proof {
            assert(flex_rows@.subrange(0, i as int + 1).drop_last() =~= flex_rows@.subrange(0, i as int));
        }
        i = i + 1;
    }
    proof {
        assert(flex_rows@.subrange(0, i as int) =~= flex_rows@);
    }
    lines
}

/// `s` ends with `t`.
pub open spec fn ends_with(s: Seq<char>, t: Seq<char>) -> bool {
    s.len() >= t.len() && s.subrange(s.len() - t.len(), s.len() as int) == t
}

proof fn lemma_append_or_push_keeps(rows: Seq<Seq<char>>, index: int, s: Seq<char>, j: int)
    requires
        0 <= j < rows.len(),
        j < index,
    ensures
        append_or_push(rows, index, s)[j] == rows[j],
        append_or_push(rows, index, s).len() >= rows.len(),
        append_or_push(rows, index, s).len() > index,
{
}

proof fn lemma_csv_with_flex_keeps(base: Seq<Seq<char>>, flex: Seq<FlexLine>, j: int)
    requires
        0 <= j < 4,
        base.len() >= 4,
    ensures
        csv_with_flex(base, flex)[j] == base[j],
        csv_with_flex(base, flex).len() >= 4,
    decreases flex.len(),
{
    if flex.len() > 0 {
        lemma_csv_with_flex_keeps(base, flex.drop_last(), j);
        lemma_append_or_push_keeps(csv_with_flex(base, flex.drop_last()), 4 + flex.len() - 1, csv_flex_row(flex.last()), j);
    }
}

/// The CSV and the human report of the same data state the same period and
/// all-time figures: the human report closes with them, and row 1 of the CSV
/// report ends with them.
pub proof fn lemma_reports_agree(
    rows: Seq<DateLine>,
    flex: Seq<FlexLine>,
    ovs: Seq<DailyTimeOverrideLine>,
    total: int,
    from: Day,
    to: Day,
)
    ensures
        human_report(rows, flex, ovs, total, from, to).last() == closing_line(total_flex(rows, flex, ovs), total),
        ends_with(csv_report(rows, flex, ovs, total)[1], csv_figures(total_flex(rows, flex, ovs), total)),
{
    let period = total_flex(rows, flex, ovs);
    let fig = csv_figures(period, total);
    let body = seq![csv_header()] + csv_days(sorted_dates(rows), rows, ovs);
    let with_figures = append_or_push(body, 1, fig);
    let row1 = with_figures[1];
    assert(ends_with(row1, fig)) by {
        if body.len() == 1 {
            assert(row1 == ",,,,,,,"@ + fig);
        } else {
            assert(row1 == body[1] + ",,,"@ + fig);
        }
        assert(row1.subrange(row1.len() - fig.len(), row1.len() as int) =~= fig);
    }
    let with_title = append_or_push(with_figures, 3, "Date for flex,Minutes reported,Comment"@);
    lemma_append_or_push_keeps(with_figures, 3, "Date for flex,Minutes reported,Comment"@, 1);
    lemma_csv_with_flex_keeps(with_title, flex, 1);
}

} // verus!
