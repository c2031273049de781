//! Decimal rendering of integers, clock times and hour figures.
use vstd::prelude::*;
use vstd::string::*;

verus! {

/// The decimal digit character for `d` (0 to 9).
pub open spec fn digit_char(d: int) -> char {
    if d == 0 {
        '0'
    } else if d == 1 {
        '1'
    } else if d == 2 {
        '2'
    } else if d == 3 {
        '3'
    } else if d == 4 {
        '4'
    } else if d == 5 {
        '5'
    } else if d == 6 {
        '6'
    } else if d == 7 {
        '7'
    } else if d == 8 {
        '8'
    } else {
        '9'
    }
}

/// Decimal digits of a natural number, without leading zeros.
pub open spec fn nat_text(n: nat) -> Seq<char>
    decreases n,
{
    if n < 10 {
        seq![digit_char(n as int)]
    } else {
        nat_text(n / 10).push(digit_char((n % 10) as int))
    }
}

/// Decimal text of an integer, with a leading `-` when negative.
pub open spec fn int_text(n: int) -> Seq<char> {
    if n < 0 {
        seq!['-'] + nat_text((-n) as nat)
    } else {
        nat_text(n as nat)
    }
}

/// Two digits, zero padded, of a number below 100.
pub open spec fn two_digits(n: int) -> Seq<char> {
    seq![digit_char(n / 10), digit_char(n % 10)]
}

/// `HH:MM` of a minute of the day.
pub open spec fn clock_text(minute_of_day: int) -> Seq<char> {
    two_digits(minute_of_day / 60) + seq![':'] + two_digits(minute_of_day % 60)
}

/// A minute count shown in hours, rounded to the nearest hundredth. A third of
/// a hundredth is the finest fraction that occurs, so no tie arises.
pub open spec fn hundredths_of_minutes(minutes: int) -> int {
    if minutes < 0 {
        -(((-minutes) * 5 + 1) / 3)
    } else {
        (minutes * 5 + 1) / 3
    }
}

/// Hours text with two decimals of a minute count (`-1.50` for -90 minutes).
pub open spec fn hours_text(minutes: int) -> Seq<char> {
    let h = hundredths_of_minutes(minutes);
    let mag = if h < 0 { -h } else { h };
    let body = nat_text((mag / 100) as nat) + seq!['.'] + two_digits(mag % 100);
    if h < 0 {
        seq!['-'] + body
    } else {
        body
    }
}

fn digit_str(d: u128) -> (r: &'static str)
    requires
        d < 10,
    ensures
        r@ == seq![digit_char(d as int)],
{
    if d == 0 {
        proof { reveal_strlit("0"); }
        "0"
    } else if d == 1 {
        proof { reveal_strlit("1"); }
        "1"
    } else if d == 2 {
        proof { reveal_strlit("2"); }
        "2"
    } else if d == 3 {
        proof { reveal_strlit("3"); }
        "3"
    } else if d == 4 {
        proof { reveal_strlit("4"); }
        "4"
    } else if d == 5 {
        proof { reveal_strlit("5"); }
        "5"
    } else if d == 6 {
        proof { reveal_strlit("6"); }
        "6"
    } else if d == 7 {
        proof { reveal_strlit("7"); }
        "7"
    } else if d == 8 {
        proof { reveal_strlit("8"); }
        "8"
    } else {
        proof { reveal_strlit("9"); }
        "9"
    }
}

/// Decimal text of a natural number.
pub fn nat_to_text(n: u128) -> (r: String)
    ensures
        r@ == nat_text(n as nat),
    decreases n,
{
    if n < 10 {
        String::from_str(digit_str(n))
    } else {
        let mut s = nat_to_text(n / 10);
        s.append(digit_str(n % 10));
        s
    }
}

/// Decimal text of an integer.
pub fn int_to_text(n: i128) -> (r: String)
    ensures
        r@ == int_text(n as int),
{
    if n < 0 {
        let mag: u128 = ((-(n + 1)) as u128) + 1;
        let digits = nat_to_text(mag);
        let mut s = String::from_str("-");
        proof { reveal_strlit("-"); }
        s.append(digits.as_str());
        s
    } else {
        nat_to_text(n as u128)
    }
}

/// Two zero-padded digits of a number below 100.
pub fn two_digit_text(n: u32) -> (r: String)
    requires
        n < 100,
    ensures
        r@ == two_digits(n as int),
{
    let mut s = String::from_str(digit_str((n / 10) as u128));
    s.append(digit_str((n % 10) as u128));
    s
}

/// `HH:MM` of a minute of the day.
pub fn clock_to_text(minute_of_day: u32) -> (r: String)
    requires
        minute_of_day < 1440,
    ensures
        r@ == clock_text(minute_of_day as int),
{
    let mut s = two_digit_text(minute_of_day / 60);
    s.append(":");
    proof { reveal_strlit(":"); }
    let m = two_digit_text(minute_of_day % 60);
    s.append(m.as_str());
    s
}

/// A minute count as hours with two decimals.
pub fn hours_to_text(minutes: i128) -> (r: String)
    requires
        -0x100_0000_0000_0000_0000_0000_0000_0000 < minutes < 0x100_0000_0000_0000_0000_0000_0000_0000,
    ensures
        r@ == hours_text(minutes as int),
{
    let neg = minutes < 0;
    let mag_minutes: i128 = if neg { -minutes } else { minutes };
    let mag: i128 = (mag_minutes * 5 + 1) / 3;
    let whole = nat_to_text((mag / 100) as u128);
    let frac = two_digit_text((mag % 100) as u32);
    let mut s = if neg && mag != 0 {
        proof { reveal_strlit("-"); }
        String::from_str("-")
    } else {
        String::new()
    };
    s.append(whole.as_str());
    s.append(".");
    proof { reveal_strlit("."); }
    s.append(frac.as_str());
    proof {
        let h = hundredths_of_minutes(minutes as int);
        if neg {
            assert(h == -(mag as int));
        } else {
            assert(h == mag as int);
        }
        assert(s@ =~= hours_text(minutes as int));
    }
    s
}

} // verus!
