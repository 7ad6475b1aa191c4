//! Calendar dates in the proleptic Gregorian calendar, restricted to the
//! range the `YYYY-MM-DD` text form can carry, with verified day and month
//! arithmetic, parsing and formatting. The current date comes from chrono
//! through a trusted wrapper and is validated before use.
use vstd::prelude::*;

verus! {

/// A calendar date. Valid values (see `wf`) lie between 0000-01-01 and
/// 9999-12-31.
#[derive(Clone, Copy, Debug, PartialEq, Eq, Structural)]
pub struct Date {
    pub year: u32,
    pub month: u32,
    pub day: u32,
}

pub open spec fn is_leap_year(y: int) -> bool {
    (y % 4 == 0 && y % 100 != 0) || y % 400 == 0
}

pub open spec fn days_in_month(y: int, m: int) -> int {
    if m == 2 {
        if is_leap_year(y) {
            29
        } else {
            28
        }
    } else if m == 4 || m == 6 || m == 9 || m == 11 {
        30
    } else {
        31
    }
}

/// Executable check matching `days_in_month`.
pub fn days_in_month_x(y: u32, m: u32) -> (r: u32)
    ensures
        r == days_in_month(y as int, m as int),
{
    if m == 2 {
        if (y % 4 == 0 && y % 100 != 0) || y % 400 == 0 {
            29
        } else {
            28
        }
    } else if m == 4 || m == 6 || m == 9 || m == 11 {
        30
    } else {
        31
    }
}

impl Date {
    /// The date names a real calendar day and fits the four-digit year form.
    pub open spec fn wf(self) -> bool {
        self.year <= 9999 && 1 <= self.month <= 12 && 1 <= self.day <= days_in_month(
            self.year as int,
            self.month as int,
        )
    }

    /// Builds a date after checking every validity condition.
    pub fn from_ymd(year: u32, month: u32, day: u32) -> (r: Option<Date>)
        ensures
            match r {
                Some(d) => d.wf() && d.year == year && d.month == month && d.day == day,
                None => !(Date { year, month, day }).wf(),
            },
    {
        if year <= 9999 && 1 <= month && month <= 12 && 1 <= day && day <= days_in_month_x(
            year,
            month,
        ) {
            Some(Date { year, month, day })
        } else {
            None
        }
    }
}

pub open spec fn is_max_date(d: Date) -> bool {
    d.year == 9999 && d.month == 12 && d.day == 31
}

/// The day after `d`.
pub open spec fn next_date(d: Date) -> Date {
    if d.day < days_in_month(d.year as int, d.month as int) {
        Date { year: d.year, month: d.month, day: (d.day + 1) as u32 }
    } else if d.month < 12 {
        Date { year: d.year, month: (d.month + 1) as u32, day: 1 }
    } else {
        Date { year: (d.year + 1) as u32, month: 1, day: 1 }
    }
}

/// `d` advanced by `n` days; `None` when that runs past 9999-12-31.
pub open spec fn plus_days(d: Date, n: nat) -> Option<Date>
    decreases n,
{
    if n == 0 {
        Some(d)
    } else if is_max_date(d) {
        None
    } else {
        plus_days(next_date(d), (n - 1) as nat)
    }
}

/// Strictly decreasing measure for `next_date` steps within valid dates.
pub open spec fn date_rank(d: Date) -> int {
    (9999 - d.year) * 372 + (12 - d.month) * 31 + (31 - d.day)
}

pub proof fn lemma_next_date(d: Date)
    requires
        d.wf(),
        !is_max_date(d),
    ensures
        next_date(d).wf(),
        date_rank(next_date(d)) < date_rank(d),
        0 <= date_rank(next_date(d)),
{
}

pub proof fn lemma_date_rank_bound(d: Date)
    requires
        d.wf(),
    ensures
        0 <= date_rank(d) < 3720000,
{
}

pub proof fn lemma_plus_days_overrun(d: Date, n: nat)
    requires
        d.wf(),
        n > date_rank(d),
    ensures
        plus_days(d, n) is None,
    decreases n,
{
    if is_max_date(d) {
    } else {
        lemma_next_date(d);
        lemma_plus_days_overrun(next_date(d), (n - 1) as nat);
    }
}

pub proof fn lemma_plus_days_wf(d: Date, n: nat)
    requires
        d.wf(),
        plus_days(d, n) is Some,
    ensures
        plus_days(d, n)->Some_0.wf(),
    decreases n,
{
    if n == 0 {
    } else if is_max_date(d) {
    } else {
        lemma_next_date(d);
        lemma_plus_days_wf(next_date(d), (n - 1) as nat);
    }
}

/// Executable day successor.
pub fn next_day(d: &Date) -> (r: Date)
    requires
        d.wf(),
        !is_max_date(*d),
    ensures
        r == next_date(*d),
        r.wf(),
{
    proof {
        lemma_next_date(*d);
    }
    if d.day < days_in_month_x(d.year, d.month) {
        Date { year: d.year, month: d.month, day: d.day + 1 }
    } else if d.month < 12 {
        Date { year: d.year, month: d.month + 1, day: 1 }
    } else {
        Date { year: d.year + 1, month: 1, day: 1 }
    }
}

/// Adds `n` days, failing when the result would pass 9999-12-31.
pub fn add_days(d: Date, n: u64) -> (r: Option<Date>)
    requires
        d.wf(),
    ensures
        r == plus_days(d, n as nat),
        r is Some ==> r->Some_0.wf(),
{
    proof {
        lemma_date_rank_bound(d);
    }
    if n >= 3720000 {
        proof {
            lemma_plus_days_overrun(d, n as nat);
        }
        return None;
    }
    let mut cur = d;
    let mut j: u64 = 0;
    while j < n
        invariant
            j <= n,
            cur.wf(),
            plus_days(d, n as nat) == plus_days(cur, (n - j) as nat),
        decreases n - j,
    {
        if cur.year == 9999 && cur.month == 12 && cur.day == 31 {
            return None;
        }
        cur = next_day(&cur);
        j += 1;
    }
    proof {
        lemma_plus_days_wf(d, n as nat);
    }
    Some(cur)
}

/// `d` advanced by `n` calendar months, the day clamped to the target
/// month's length; `None` when the target month lies past year 9999.
pub open spec fn plus_months(d: Date, n: nat) -> Option<Date> {
    let t = d.year * 12 + (d.month - 1) + n;
    if t >= 120000 {
        None
    } else {
        let y = t / 12;
        let m = t % 12 + 1;
        let day = if d.day <= days_in_month(y, m) {
            d.day as int
        } else {
            days_in_month(y, m)
        };
        Some(Date { year: y as u32, month: m as u32, day: day as u32 })
    }
}

/// Adds `n` calendar months with day clamping.
pub fn add_months(d: Date, n: u64) -> (r: Option<Date>)
    requires
        d.wf(),
    ensures
        r == plus_months(d, n as nat),
        r is Some ==> r->Some_0.wf(),
{
    if n >= 120000 {
        return None;
    }
    let t: u64 = (d.year as u64) * 12 + (d.month as u64 - 1) + n;
    if t >= 120000 {
        return None;
    }
    let y: u32 = (t / 12) as u32;
    let m: u32 = (t % 12) as u32 + 1;
    let dim = days_in_month_x(y, m);
    let day = if d.day <= dim {
        d.day
    } else {
        dim
    };
    Some(Date { year: y, month: m, day })
}

pub open spec fn is_digit(c: char) -> bool {
    '0' <= c && c <= '9'
}

pub open spec fn digit_val(c: char) -> int {
    c as int - 48
}

/// The digit character for a value in 0..=9.
pub open spec fn digit_char(n: int) -> char {
    if n == 0 {
        '0'
    } else if n == 1 {
        '1'
    } else if n == 2 {
        '2'
    } else if n == 3 {
        '3'
    } else if n == 4 {
        '4'
    } else if n == 5 {
        '5'
    } else if n == 6 {
        '6'
    } else if n == 7 {
        '7'
    } else if n == 8 {
        '8'
    } else {
        '9'
    }
}

/// Executable digit-to-character conversion matching `digit_char`.
pub fn digit_char_x(n: u32) -> (c: char)
    requires
        n < 10,
    ensures
        c == digit_char(n as int),
{
    let c = ((n + 48) as u8) as char;
    c
}

/// The ten characters `YYYY-MM-DD` for a date.
pub open spec fn fmt_date(d: Date) -> Seq<char> {
    seq![
        digit_char(d.year as int / 1000),
        digit_char(d.year as int / 100 % 10),
        digit_char(d.year as int / 10 % 10),
        digit_char(d.year as int % 10),
        '-',
        digit_char(d.month as int / 10),
        digit_char(d.month as int % 10),
        '-',
        digit_char(d.day as int / 10),
        digit_char(d.day as int % 10),
    ]
}

/// Formats a date as its ten `YYYY-MM-DD` characters.
pub fn fmt_date_vec(d: &Date) -> (v: Vec<char>)
    requires
        d.wf(),
    ensures
        v@ == fmt_date(*d),
{
    let mut v: Vec<char> = Vec::new();
    v.push(digit_char_x(d.year / 1000));
    v.push(digit_char_x(d.year / 100 % 10));
    v.push(digit_char_x(d.year / 10 % 10));
    v.push(digit_char_x(d.year % 10));
    v.push('-');
    v.push(digit_char_x(d.month / 10));
    v.push(digit_char_x(d.month % 10));
    v.push('-');
    v.push(digit_char_x(d.day / 10));
    v.push(digit_char_x(d.day % 10));
    assert(v@ =~= fmt_date(*d));
    v
}

/// A formatted valid date has the ten-character `YYYY-MM-DD` shape.
pub proof fn lemma_fmt_date_is_date10(d: Date)
    requires
        d.wf(),
    ensures
        is_date10(fmt_date(d)),
{
}

/// `s` has exactly the shape `YYYY-MM-DD`: digits with dashes at
/// positions 4 and 7. The shape alone; the fields may still be out of
/// range as a calendar day.
pub open spec fn is_date10(s: Seq<char>) -> bool {
    s.len() == 10 && is_digit(s[0]) && is_digit(s[1]) && is_digit(s[2]) && is_digit(s[3]) && s[4]
        == '-' && is_digit(s[5]) && is_digit(s[6]) && s[7] == '-' && is_digit(s[8]) && is_digit(
        s[9],
    )
}

/// The date named by a ten-character `YYYY-MM-DD` sequence.
pub open spec fn date_of_seq(s: Seq<char>) -> Date {
    Date {
        year: (digit_val(s[0]) * 1000 + digit_val(s[1]) * 100 + digit_val(s[2]) * 10 + digit_val(
            s[3],
        )) as u32,
        month: (digit_val(s[5]) * 10 + digit_val(s[6])) as u32,
        day: (digit_val(s[8]) * 10 + digit_val(s[9])) as u32,
    }
}

/// A strict date parse: the exact ten-character shape, naming a valid
/// calendar day.
pub open spec fn parse_date10(s: Seq<char>) -> Option<Date> {
    if is_date10(s) && date_of_seq(s).wf() {
        Some(date_of_seq(s))
    } else {
        None
    }
}

/// Executable check matching `is_digit`.
pub fn digit_char_p(c: char) -> (r: bool)
    ensures
        r == is_digit(c),
{
    '0' <= c && c <= '9'
}

/// Value of a digit character.
pub fn digit_val_x(c: char) -> (r: u32)
    requires
        is_digit(c),
    ensures
        r == digit_val(c),
        r < 10,
{
    (c as u32) - 48
}

/// Whether the ten characters starting at `at` have the `YYYY-MM-DD` shape.
pub fn date10_at(v: &Vec<char>, at: usize) -> (r: bool)
    requires
        at + 10 <= v.len(),
    ensures
        r == is_date10(v@.subrange(at as int, at + 10)),
{
    let ghost s = v@.subrange(at as int, at + 10);
    assert(forall|j: int| 0 <= j < 10 ==> s[j] == v@[at + j]);
    let r = digit_char_p(v[at]) && digit_char_p(v[at + 1]) && digit_char_p(v[at + 2])
        && digit_char_p(v[at + 3]) && v[at + 4] == '-' && digit_char_p(v[at + 5]) && digit_char_p(
        v[at + 6],
    ) && v[at + 7] == '-' && digit_char_p(v[at + 8]) && digit_char_p(v[at + 9]);
    r
}

/// Strict parse of a whole vector as a `YYYY-MM-DD` calendar day.
pub fn parse_date_vec(v: &Vec<char>) -> (r: Option<Date>)
    ensures
        r == parse_date10(v@),
{
    if v.len() != 10 {
        return None;
    }
    assert(v@.subrange(0, 10) =~= v@);
    if !date10_at(v, 0) {
        return None;
    }
    let year = digit_val_x(v[0]) * 1000 + digit_val_x(v[1]) * 100 + digit_val_x(v[2]) * 10
        + digit_val_x(v[3]);
    let month = digit_val_x(v[5]) * 10 + digit_val_x(v[6]);
    let day = digit_val_x(v[8]) * 10 + digit_val_x(v[9]);
    Date::from_ymd(year, month, day)
}

/// Relies on chrono's `Local::now` and the `Datelike` accessors: the month
/// is in 1..=12 and the day in 1..=31.
#[verifier::external_body]
fn today_ymd() -> (r: (i64, u32, u32))
    ensures
        1 <= r.1 <= 12,
        1 <= r.2 <= 31,
{
    let now = chrono::Local::now().date_naive();
    (chrono::Datelike::year(&now) as i64, chrono::Datelike::month(&now), chrono::Datelike::day(
        &now,
    ))
}

/// The current local date, when it lies in the representable range;
/// otherwise the fixed date 1970-01-01.
pub fn today() -> (d: Date)
    ensures
        d.wf(),
{
    let (y, m, dd) = today_ymd();
    if 0 <= y && y <= 9999 {
        match Date::from_ymd(y as u32, m, dd) {
            Some(d) => d,
            None => Date { year: 1970, month: 1, day: 1 },
        }
    } else {
        Date { year: 1970, month: 1, day: 1 }
    }
}

} // verus!
