//! Values of the accepted day, time and integer texts.
use vstd::prelude::*;
use vstd::string::*;
use crate::calendar::{Day, Stamp, civil_day_number, is_civil_date};
use crate::validators::{
    all_digits, digits_between, is_day_text, is_days_ago_text, is_digit, is_iso_date_shape, is_iso_date_str,
    is_days_ago_str, is_signed_text, is_time_str, is_time_text, is_unsigned_text, same_text,
};

verus! {

pub open spec fn digit_value(c: char) -> int {
    (c as u32) as int - ('0' as u32) as int
}

/// Value of a run of decimal digits (0 for none).
pub open spec fn digits_value(s: Seq<char>) -> int
    decreases s.len(),
{
    if s.len() == 0 {
        0
    } else {
        digits_value(s.drop_last()) * 10 + digit_value(s.last())
    }
}

/// Value of a signed integer text.
pub open spec fn signed_value(s: Seq<char>) -> int {
    if s.len() > 0 && s[0] == '-' {
        -digits_value(s.drop_first())
    } else {
        digits_value(s)
    }
}

/// The `i32` that a signed integer text names, if it is one and fits.
pub open spec fn integer_of(s: Seq<char>) -> Option<i32> {
    if is_signed_text(s) && i32::MIN <= signed_value(s) <= i32::MAX {
        Some(signed_value(s) as i32)
    } else {
        None
    }
}

/// Hour and minute of an `HH:mm` text.
pub open spec fn time_value(s: Seq<char>) -> (int, int) {
    (digit_value(s[0]) * 10 + digit_value(s[1]), digit_value(s[3]) * 10 + digit_value(s[4]))
}

/// Day number that a day text names, relative to `today` for the relative forms.
pub open spec fn day_expr(s: Seq<char>, today: int) -> Option<int> {
    if s == "today"@ {
        Some(today)
    } else if s == "yesterday"@ {
        if today > 1 { Some(today - 1) } else { None }
    } else if is_days_ago_text(s) {
        let n = digits_value(s.drop_last());
        if n < today { Some(today - n) } else { None }
    } else if is_iso_date_shape(s) {
        let y = digits_value(s.subrange(0, 4));
        let m = digits_value(s.subrange(5, 7));
        let d = digits_value(s.subrange(8, 10));
        if is_civil_date(y, m, d) { Some(civil_day_number(y, m, d)) } else { None }
    } else {
        None
    }
}

proof fn lemma_digits_value_nonneg(s: Seq<char>)
    requires
        all_digits(s),
    ensures
        digits_value(s) >= 0,
    decreases s.len(),
{
    if s.len() > 0 {
        assert(is_digit(s[s.len() - 1]));
        lemma_digits_value_nonneg(s.drop_last());
    }
}

/// A run of digits is worth at least any of its prefixes.
proof fn lemma_digits_value_prefix(s: Seq<char>, k: int)
    requires
        all_digits(s),
        0 <= k <= s.len(),
    ensures
        digits_value(s) >= digits_value(s.subrange(0, k)),
    decreases s.len(),
{
    if k < s.len() {
        let t = s.drop_last();
        assert(is_digit(s[s.len() - 1]));
        lemma_digits_value_nonneg(t);
        lemma_digits_value_prefix(t, k);
        assert(t.subrange(0, k) =~= s.subrange(0, k));
    } else {
        assert(s.subrange(0, k) =~= s);
    }
}

/// Value of the digits of `s` in `[from, to)`, if it is at most `cap`.
fn digits_capped(s: &str, from: usize, to: usize, cap: u64) -> (r: Option<u64>)
    requires
        from <= to <= s@.len(),
        all_digits(s@.subrange(from as int, to as int)),
        cap <= 0x100_0000_0000,
    ensures
        r is Some <==> digits_value(s@.subrange(from as int, to as int)) <= cap,
        r is Some ==> r->0 == digits_value(s@.subrange(from as int, to as int)),
{
    let ghost full = s@.subrange(from as int, to as int);
    let mut acc: u64 = 0;
    let mut i: usize = from;
    while i < to
        invariant
            from <= i <= to <= s@.len(),
            full == s@.subrange(from as int, to as int),
            all_digits(full),
            acc == digits_value(s@.subrange(from as int, i as int)),
            acc <= cap <= 0x100_0000_0000,
        decreases to - i,
    {
        let c = s.get_char(i);
        proof {
            assert(full[i - from] == c);
            assert(is_digit(c));
            assert(s@.subrange(from as int, i as int + 1).drop_last() =~= s@.subrange(from as int, i as int));
        }
        let d = (c as u32 - '0' as u32) as u64;
        let next = acc * 10 + d;
        if next > cap {
            proof {
                assert(full.subrange(0, i + 1 - from) =~= s@.subrange(from as int, i as int + 1));
                lemma_digits_value_prefix(full, i + 1 - from);
            }
            return None;
        }
        acc = next;
        i = i + 1;
    }
    Some(acc)
}

/// Hour and minute of an `HH:mm` text; `None` for no text or another shape.
pub fn parse_time(time: Option<&str>) -> (r: Option<(u32, u32)>)
    ensures
        r == match time {
            None => None,
            Some(s) => if is_time_text(s@) {
                Some(((time_value(s@).0) as u32, (time_value(s@).1) as u32))
            } else {
                None
            },
        },
        r matches Some(v) ==> v.0 as int == time_value(time->0@).0 && v.1 as int == time_value(time->0@).1,
{
    match time {
        None => None,
        Some(s) => {
            if !is_time_str(s) {
                return None;
            }
            let h = (s.get_char(0) as u32 - '0' as u32) * 10 + (s.get_char(1) as u32 - '0' as u32);
            let m = (s.get_char(3) as u32 - '0' as u32) * 10 + (s.get_char(4) as u32 - '0' as u32);
            Some((h, m))
        },
    }
}

/// Hour and minute of an `HH:mm` text.
pub fn force_parse_time(time: String) -> (r: (u32, u32))
    requires
        is_time_text(time@),
    ensures
        r.0 as int == time_value(time@).0,
        r.1 as int == time_value(time@).1,
{
    match parse_time(Some(time.as_str())) {
        Some(v) => v,
        None => (0, 0),
    }
}

/// Value of a signed integer text that fits in `i32`; `None` for no text,
/// another shape, or a value out of range.
pub fn parse_integer(break_time_string: Option<&str>) -> (r: Option<i32>)
    ensures
        r == match break_time_string {
            None => None,
            Some(s) => integer_of(s@),
        },
{
    match break_time_string {
        None => None,
        Some(s) => {
            let n = s.unicode_len();
            if n == 0 {
                return None;
            }
            let neg = s.get_char(0) == '-';
            let start: usize = if neg { 1 } else { 0 };
            if neg && n == 1 {
                return None;
            }
            if !digits_between(s, start, n) {
                proof {
                    if neg {
                        assert(s@.subrange(1, n as int) =~= s@.drop_first());
                        assert(!is_unsigned_text(s@)) by {
                            assert(!is_digit(s@[0]));
                        }
                    } else {
                        assert(s@.subrange(0, n as int) =~= s@);
                    }
                }
                return None;
            }
            proof {
                if neg {
                    assert(s@.subrange(1, n as int) =~= s@.drop_first());
                } else {
                    assert(s@.subrange(0, n as int) =~= s@);
                }
            }
            match digits_capped(s, start, n, 0x8000_0000) {
                None => None,
                Some(v) => {
                    if neg {
                        Some((-(v as i64)) as i32)
                    } else if v <= 0x7fff_ffff {
                        Some(v as i32)
                    } else {
                        None
                    }
                },
            }
        },
    }
}

/// Value of a signed integer text, 0 when there is none or it does not parse.
pub fn force_parse_integer(break_time_string: Option<&str>) -> (r: i32)
    ensures
        r == match break_time_string {
            None => 0,
            Some(s) => match integer_of(s@) {
                Some(v) => v,
                None => 0,
            },
        },
{
    match parse_integer(break_time_string) {
        Some(v) => v,
        None => 0,
    }
}

/// The day that a day text names: `today`, `yesterday`, `<N>d` (N days before
/// today) or `YYYY-MM-DD`. `None` for another text, a date that does not
/// exist, or a day before 0001-01-01.
pub fn get_date_from_string(date_string: &str, today: Day) -> (r: Option<Day>)
    requires
        today.wf(),
    ensures
        r is Some <==> day_expr(date_string@, today.num()) is Some,
        r is Some ==> r->0.wf() && r->0.num() == day_expr(date_string@, today.num())->0,
        r is Some ==> is_day_text(date_string@),
{
    if same_text(date_string, "today") {
        return Some(today);
    }
    if same_text(date_string, "yesterday") {
        proof {
            reveal_strlit("today");
            reveal_strlit("yesterday");
            assert(date_string@ != "today"@) by {
                assert(date_string@.len() != "today"@.len());
            }
        }
        return today.minus_days(1);
    }
    proof {
        reveal_strlit("today");
        reveal_strlit("yesterday");
    }
    if is_days_ago_str(date_string) {
        let n = date_string.unicode_len();
        proof {
            assert(date_string@.subrange(0, n - 1) =~= date_string@.drop_last());
            assert(date_string@ != "today"@) by {
                assert(date_string@.last() != "today"@.last());
            }
            assert(date_string@ != "yesterday"@) by {
                assert(date_string@.last() != "yesterday"@.last());
            }
        }
        return match digits_capped(date_string, 0, n - 1, (today.days_from_ce - 1) as u64) {
            Some(k) => today.minus_days(k),
            None => None,
        };
    }
    if is_iso_date_str(date_string) {
        proof {
            assert(date_string@ != "today"@) by {
                assert(date_string@.len() != "today"@.len());
            }
            assert(date_string@ != "yesterday"@) by {
                assert(date_string@.len() != "yesterday"@.len());
            }
        }
        let y = digits_capped(date_string, 0, 4, 9999);
        let m = digits_capped(date_string, 5, 7, 99);
        let d = digits_capped(date_string, 8, 10, 99);
        proof {
            let s = date_string@;
            lemma_four_digits_bound(s.subrange(0, 4));
            lemma_two_digits_bound(s.subrange(5, 7));
            lemma_two_digits_bound(s.subrange(8, 10));
        }
        return match (y, m, d) {
            (Some(y), Some(m), Some(d)) => {
                if y == 0 {
                    None
                } else {
                    Day::from_ymd(y as i32, m as u32, d as u32)
                }
            },
            _ => None,
        };
    }
    None
}

proof fn lemma_digit_bound(c: char)
    requires
        is_digit(c),
    ensures
        0 <= digit_value(c) <= 9,
{
}

/// One more digit after a run worth at most `b` is worth at most `10 * b + 9`.
proof fn lemma_digits_step(s: Seq<char>, b: int)
    requires
        s.len() > 0,
        all_digits(s),
        0 <= digits_value(s.drop_last()) <= b,
    ensures
        0 <= digits_value(s) <= 10 * b + 9,
{
    assert(is_digit(s[s.len() - 1]));
    lemma_digit_bound(s.last());
}

proof fn lemma_run_bound(s: Seq<char>)
    requires
        all_digits(s),
        s.len() <= 4,
    ensures
        0 <= digits_value(s),
        s.len() <= 1 ==> digits_value(s) <= 9,
        s.len() <= 2 ==> digits_value(s) <= 99,
        s.len() <= 3 ==> digits_value(s) <= 999,
        digits_value(s) <= 9999,
    decreases s.len(),
{
    if s.len() > 0 {
        let t = s.drop_last();
        assert(all_digits(t)) by {
            assert forall|i: int| 0 <= i < t.len() implies is_digit(#[trigger] t[i]) by {
                assert(t[i] == s[i]);
            }
        }
        lemma_run_bound(t);
        if t.len() == 0 {
            lemma_digits_step(s, 0);
        } else if t.len() == 1 {
            lemma_digits_step(s, 9);
        } else if t.len() == 2 {
            lemma_digits_step(s, 99);
        } else {
            lemma_digits_step(s, 999);
        }
    }
}

proof fn lemma_two_digits_bound(s: Seq<char>)
    requires
        s.len() == 2,
        all_digits(s),
    ensures
        0 <= digits_value(s) <= 99,
{
    lemma_run_bound(s);
}

proof fn lemma_four_digits_bound(s: Seq<char>)
    requires
        s.len() == 4,
        all_digits(s),
    ensures
        0 <= digits_value(s) <= 9999,
{
    lemma_run_bound(s);
}

/// The day of a day text, if one is given and it names a day.
pub fn force_parse_date(date: Option<&str>, today: Day) -> (r: Option<Day>)
    requires
        today.wf(),
    ensures
        r is Some <==> date is Some && day_expr(date->0@, today.num()) is Some,
        r is Some ==> r->0.wf() && r->0.num() == day_expr(date->0@, today.num())->0,
{
    match date {
        Some(s) => get_date_from_string(s, today),
        None => None,
    }
}

/// The stamp at an `HH:mm` time of a day text's day, if both are given, both
/// parse, and the time lies within the day.
pub fn force_parse_datetime(time: Option<&str>, date: Option<&str>, today: Day) -> (r: Option<Stamp>)
    requires
        today.wf(),
    ensures
        r is Some <==> {
            &&& time is Some
            &&& date is Some
            &&& is_time_text(time->0@)
            &&& day_expr(date->0@, today.num()) is Some
            &&& time_value(time->0@).0 < 24
            &&& time_value(time->0@).1 < 60
        },
        r is Some ==> {
            &&& r->0.wf()
            &&& r->0.day.num() == day_expr(date->0@, today.num())->0
            &&& r->0.minute_of_day == time_value(time->0@).0 * 60 + time_value(time->0@).1
        },
{
    let day = match force_parse_date(date, today) {
        Some(d) => d,
        None => {
            return None;
        },
    };
    match parse_time(time) {
        Some((h, m)) => Stamp::at(day, h, m),
        None => None,
    }
}

} // verus!
