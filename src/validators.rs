//! Shapes of the accepted day, time and integer texts, and their checks.
use vstd::prelude::*;
use vstd::string::*;

verus! {

pub open spec fn is_digit(c: char) -> bool {
    '0' <= c <= '9'
}

pub open spec fn all_digits(s: Seq<char>) -> bool {
    forall|i: int| 0 <= i < s.len() ==> is_digit(#[trigger] s[i])
}

/// One or more decimal digits.
pub open spec fn is_unsigned_text(s: Seq<char>) -> bool {
    s.len() > 0 && all_digits(s)
}

/// Decimal digits with an optional leading `-`.
pub open spec fn is_signed_text(s: Seq<char>) -> bool {
    is_unsigned_text(s) || (s.len() > 1 && s[0] == '-' && all_digits(s.drop_first()))
}

/// `HH:mm`: hours `00` to `24`, then `:`, then minutes `00` to `69`.
pub open spec fn is_time_text(s: Seq<char>) -> bool {
    &&& s.len() == 5
    &&& ((s[0] == '2' && '0' <= s[1] <= '4') || ((s[0] == '0' || s[0] == '1') && is_digit(s[1])))
    &&& s[2] == ':'
    &&& '0' <= s[3] <= '6'
    &&& is_digit(s[4])
}

/// `YYYY-MM-DD` as digits and dashes, whatever the values.
pub open spec fn is_iso_date_shape(s: Seq<char>) -> bool {
    &&& s.len() == 10
    &&& all_digits(s.subrange(0, 4))
    &&& s[4] == '-'
    &&& all_digits(s.subrange(5, 7))
    &&& s[7] == '-'
    &&& all_digits(s.subrange(8, 10))
}

/// Digits followed by `d`: that many days ago.
pub open spec fn is_days_ago_text(s: Seq<char>) -> bool {
    s.len() >= 2 && s.last() == 'd' && is_unsigned_text(s.drop_last())
}

/// `today`, `yesterday`, `<N>d` or `YYYY-MM-DD`.
pub open spec fn is_day_text(s: Seq<char>) -> bool {
    s == "today"@ || s == "yesterday"@ || is_days_ago_text(s) || is_iso_date_shape(s)
}

/// Whether the characters of `s` in `[from, to)` are all digits.
pub fn digits_between(s: &str, from: usize, to: usize) -> (r: bool)
    requires
        from <= to <= s@.len(),
    ensures
        r == all_digits(s@.subrange(from as int, to as int)),
{
    let mut i: usize = from;
    while i < to
        invariant
            from <= i <= to <= s@.len(),
            all_digits(s@.subrange(from as int, i as int)),
        decreases to - i,
    {
        let c = s.get_char(i);
        if !('0' <= c && c <= '9') {
            assert(s@.subrange(from as int, to as int)[i - from] == c);
            return false;
        }
        assert forall|k: int| 0 <= k < i + 1 - from implies is_digit(#[trigger] s@.subrange(from as int, i as int + 1)[k]) by {
            if k < i - from {
                assert(s@.subrange(from as int, i as int + 1)[k] == s@.subrange(from as int, i as int)[k]);
            }
        }
        i = i + 1;
    }
    true
}

/// Whether `s` reads the same as `lit`.
pub fn same_text(s: &str, lit: &str) -> (r: bool)
    ensures
        r == (s@ == lit@),
{
    let n = s.unicode_len();
    if n != lit.unicode_len() {
        return false;
    }
    let mut i: usize = 0;
    while i < n
        invariant
            n == s@.len() == lit@.len(),
            i <= n,
            forall|k: int| 0 <= k < i ==> s@[k] == lit@[k],
        decreases n - i,
    {
        if s.get_char(i) != lit.get_char(i) {
            return false;
        }
        i = i + 1;
    }
    assert(s@ =~= lit@);
    true
}

pub fn is_time_str(s: &str) -> (r: bool)
    ensures
        r == is_time_text(s@),
{
    if s.unicode_len() != 5 {
        return false;
    }
    let c0 = s.get_char(0);
    let c1 = s.get_char(1);
    let c2 = s.get_char(2);
    let c3 = s.get_char(3);
    let c4 = s.get_char(4);
    ((c0 == '2' && '0' <= c1 && c1 <= '4') || ((c0 == '0' || c0 == '1') && '0' <= c1 && c1 <= '9'))
        && c2 == ':' && '0' <= c3 && c3 <= '6' && '0' <= c4 && c4 <= '9'
}

pub fn is_unsigned_str(s: &str) -> (r: bool)
    ensures
        r == is_unsigned_text(s@),
{
    let n = s.unicode_len();
    if n == 0 {
        return false;
    }
    let r = digits_between(s, 0, n);
    assert(s@.subrange(0, n as int) =~= s@);
    r
}

pub fn is_signed_str(s: &str) -> (r: bool)
    ensures
        r == is_signed_text(s@),
{
    let n = s.unicode_len();
    if n == 0 {
        return false;
    }
    if is_unsigned_str(s) {
        return true;
    }
    if n > 1 && s.get_char(0) == '-' {
        let r = digits_between(s, 1, n);
        assert(s@.subrange(1, n as int) =~= s@.drop_first());
        r
    } else {
        false
    }
}

pub fn is_iso_date_str(s: &str) -> (r: bool)
    ensures
        r == is_iso_date_shape(s@),
{
    if s.unicode_len() != 10 {
        return false;
    }
    digits_between(s, 0, 4) && s.get_char(4) == '-' && digits_between(s, 5, 7) && s.get_char(7) == '-'
        && digits_between(s, 8, 10)
}

pub fn is_days_ago_str(s: &str) -> (r: bool)
    ensures
        r == is_days_ago_text(s@),
{
    let n = s.unicode_len();
    if n < 2 || s.get_char(n - 1) != 'd' {
        return false;
    }
    let r = digits_between(s, 0, n - 1);
    assert(s@.subrange(0, n - 1) =~= s@.drop_last());
    r
}

pub fn is_day_str(s: &str) -> (r: bool)
    ensures
        r == is_day_text(s@),
{
    same_text(s, "today") || same_text(s, "yesterday") || is_days_ago_str(s) || is_iso_date_str(s)
}

/// Accepts `HH:mm`; the error names the rejected text.
pub fn time_validator(to_check: String) -> (r: Result<(), String>)
    ensures
        r is Ok <==> is_time_text(to_check@),
        r matches Err(m) ==> m@ == "Specified value '"@ + to_check@
            + "' is not a valid time format. It should be in HH:mm."@,
{
    if is_time_str(to_check.as_str()) {
        Ok(())
    } else {
        let mut m = String::from_str("Specified value '");
        m.append(to_check.as_str());
        m.append("' is not a valid time format. It should be in HH:mm.");
        Err(m)
    }
}

/// Accepts one or more digits; the error names the rejected text.
pub fn unsigned_number_validator(to_check: String) -> (r: Result<(), String>)
    ensures
        r is Ok <==> is_unsigned_text(to_check@),
        r matches Err(m) ==> m@ == "Specified value '"@ + to_check@ + "' is not a positive integer."@,
{
    if is_unsigned_str(to_check.as_str()) {
        Ok(())
    } else {
        let mut m = String::from_str("Specified value '");
        m.append(to_check.as_str());
        m.append("' is not a positive integer.");
        Err(m)
    }
}

/// Accepts digits with an optional leading `-`; the error names the rejected text.
pub fn signed_minute_validator(to_check: String) -> (r: Result<(), String>)
    ensures
        r is Ok <==> is_signed_text(to_check@),
        r matches Err(m) ==> m@ == "Specified value '"@ + to_check@ + "' is not an integer."@,
{
    if is_signed_str(to_check.as_str()) {
        Ok(())
    } else {
        let mut m = String::from_str("Specified value '");
        m.append(to_check.as_str());
        m.append("' is not an integer.");
        Err(m)
    }
}

/// Accepts `today`, `yesterday`, `<N>d` or `YYYY-MM-DD`; the error names the rejected text.
pub fn day_validator(to_check: String) -> (r: Result<(), String>)
    ensures
        r is Ok <==> is_day_text(to_check@),
        r matches Err(m) ==> m@ == "Specified value '"@ + to_check@
            + "' is not any of 'today', 'yesterday', an integer followed by 'd' (e.g. 10d), or a valid date (yyyy-mm-dd zero padded)."@,
{
    if is_day_str(to_check.as_str()) {
        Ok(())
    } else {
        let mut m = String::from_str("Specified value '");
        m.append(to_check.as_str());
        m.append(
            "' is not any of 'today', 'yesterday', an integer followed by 'd' (e.g. 10d), or a valid date (yyyy-mm-dd zero padded).",
        );
        Err(m)
    }
}

} // verus!
