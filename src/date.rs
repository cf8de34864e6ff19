use chrono::DateTime;
use chrono::Datelike;
use chrono::NaiveDate;
use chrono::Utc;
use std::time::SystemTime;
use vstd::prelude::*;

verus! {

/// Smallest year that a calendar date can carry.
pub const MIN_YEAR: i32 = -262143;

/// Largest year that a calendar date can carry.
pub const MAX_YEAR: i32 = 262142;

/// Proleptic Gregorian leap year rule.
pub open spec fn is_leap_year(y: int) -> bool {
    (y % 4 == 0 && y % 100 != 0) || y % 400 == 0
}

/// Number of days in month `m` (1..=12) of year `y`.
pub open spec fn days_in_month(y: int, m: int) -> int {
    if m == 2 {
        if is_leap_year(y) {
            29
        } else {
            28
        }
    } else if m == 4 || m == 6 || m == 9 || m == 11 {
        30
    } else {
        31
    }
}

/// `(y, m, d)` names an existing day of the calendar, within the supported years.
pub open spec fn valid_ymd(y: int, m: int, d: int) -> bool {
    MIN_YEAR <= y <= MAX_YEAR && 1 <= m <= 12 && 1 <= d <= days_in_month(y, m)
}

/// Days of year `y` that come before the first of month `m`.
pub open spec fn days_before_month(y: int, m: int) -> int
    decreases m,
{
    if m <= 1 {
        0
    } else {
        days_before_month(y, m - 1) + days_in_month(y, m - 1)
    }
}

/// Position of the day within its year, starting from 1.
pub open spec fn day_of_year(y: int, m: int, d: int) -> int {
    days_before_month(y, m) + d
}

/// Week of the year counted from day of year alone: days 1..=7 form week 1.
pub open spec fn week_of_year(y: int, m: int, d: int) -> int {
    (day_of_year(y, m, d) + 6) / 7
}

/// A calendar date as its year, month and day.
#[derive(Clone, Copy, Debug, PartialEq, Eq, Structural)]
pub struct CalDate {
    pub year: i32,
    pub month: u32,
    pub day: u32,
}

impl View for CalDate {
    type V = (int, int, int);

    open spec fn view(&self) -> (int, int, int) {
        (self.year as int, self.month as int, self.day as int)
    }
}

impl CalDate {
    pub open spec fn wf(&self) -> bool {
        valid_ymd(self.year as int, self.month as int, self.day as int)
    }

    /// The date `year-month-day`, when that day exists.
    pub fn from_ymd(year: i32, month: u32, day: u32) -> (r: Option<CalDate>)
        ensures
            r is Some <==> valid_ymd(year as int, month as int, day as int),
            r matches Some(d) ==> d == (CalDate { year, month, day }),
    {
        checked_ymd(year, month, day)
    }

    /// Whether this value names an existing day.
    pub fn is_valid(&self) -> (r: bool)
        ensures
            r == self.wf(),
    {
        checked_ymd(self.year, self.month, self.day).is_some()
    }

    /// Day of the year, starting from 1.
    pub fn ordinal(&self) -> (r: u32)
        requires
            self.wf(),
        ensures
            r == day_of_year(self.year as int, self.month as int, self.day as int),
            1 <= r <= 372,
    {
        let mut before: u32 = 0;
        let mut m: u32 = 1;
        while m < self.month
            invariant
                self.wf(),
                1 <= m <= self.month,
                before == days_before_month(self.year as int, m as int),
                before <= 31 * (m - 1),
            decreases self.month - m,
        {
            before = before + month_length(self.year, m);
            m = m + 1;
        }
        before + self.day
    }

    /// Week of the year, as `ceil(ordinal / 7)`.
    pub fn week(&self) -> (r: u32)
        requires
            self.wf(),
        ensures
            r == week_of_year(self.year as int, self.month as int, self.day as int),
    {
        (self.ordinal() + 6) / 7
    }
}

/// Lexicographic order of `(year, month, day)`, which is the calendar order.
pub open spec fn ymd_le(a: (int, int, int), b: (int, int, int)) -> bool {
    a.0 < b.0 || (a.0 == b.0 && (a.1 < b.1 || (a.1 == b.1 && a.2 <= b.2)))
}

/// `a <= b` in calendar order.
pub fn date_le(a: &CalDate, b: &CalDate) -> (r: bool)
    ensures
        r == ymd_le(a@, b@),
{
    a.year < b.year || (a.year == b.year && (a.month < b.month || (a.month == b.month && a.day
        <= b.day)))
}

/// Whether `y` is a leap year.
pub fn leap_year(y: i32) -> (r: bool)
    ensures
        r == is_leap_year(y as int),
{
    // shifting by a multiple of 400 keeps every remainder the rule looks at
    let shifted: u64 = (y as i64 + 2_400_000_000) as u64;
    let r4 = shifted % 4;
    let r100 = shifted % 100;
    let r400 = shifted % 400;
    assert(shifted as int == y as int + 400 * 6_000_000);
    assert(r4 as int == (y as int) % 4 && r100 as int == (y as int) % 100 && r400 as int
        == (y as int) % 400) by (nonlinear_arith)
        requires
            shifted as int == y as int + 400 * 6_000_000,
            r4 == shifted % 4,
            r100 == shifted % 100,
            r400 == shifted % 400,
    ;
    (r4 == 0 && r100 != 0) || r400 == 0
}

/// Length of month `m` of year `y`.
pub fn month_length(y: i32, m: u32) -> (r: u32)
    requires
        1 <= m <= 12,
    ensures
        r == days_in_month(y as int, m as int),
{
    if m == 2 {
        if leap_year(y) {
            29
        } else {
            28
        }
    } else if m == 4 || m == 6 || m == 9 || m == 11 {
        30
    } else {
        31
    }
}

/// Relies on chrono's `NaiveDate::from_ymd_opt`: `None` exactly when the day does not
/// exist, the month or day is out of range, or the year is outside `MIN_YEAR..=MAX_YEAR`.
#[verifier::external_body]
fn checked_ymd(year: i32, month: u32, day: u32) -> (r: Option<CalDate>)
    ensures
        r is Some <==> valid_ymd(year as int, month as int, day as int),
        r matches Some(d) ==> d == (CalDate { year, month, day }),
{
    match NaiveDate::from_ymd_opt(year, month, day) {
        Some(nd) => Some(CalDate { year: nd.year(), month: nd.month(), day: nd.day() }),
        None => None,
    }
}

/// Relies on chrono's `From<SystemTime>` for `DateTime<Utc>`: the current UTC day, which is
/// always an existing date; a clock set before 1970 is converted, not refused.
#[verifier::external_body]
pub(crate) fn current_date() -> (r: CalDate)
    ensures
        r.wf(),
{
    let t = DateTime::<Utc>::from(SystemTime::now()).date_naive();
    CalDate { year: t.year(), month: t.month(), day: t.day() }
}

/// The decimal digit character of `d` (0..=9).
pub open spec fn digit_char(d: nat) -> char {
    seq!['0', '1', '2', '3', '4', '5', '6', '7', '8', '9'][d as int]
}

/// The decimal digits of `n`, without leading zeros (`0` is one digit).
pub open spec fn decimal_digits(n: nat) -> Seq<char>
    decreases n,
{
    if n < 10 {
        seq![digit_char(n)]
    } else {
        decimal_digits(n / 10).push(digit_char(n % 10))
    }
}

/// The decimal text of `n`, with a leading `-` when negative.
pub open spec fn decimal_text(n: int) -> Seq<char> {
    if n < 0 {
        seq!['-'] + decimal_digits((-n) as nat)
    } else {
        decimal_digits(n as nat)
    }
}

/// The digits of `n`, padded on the left with zeros to at least `width` characters.
pub open spec fn zero_padded(n: nat, width: nat) -> Seq<char> {
    let d = decimal_digits(n);
    if d.len() < width {
        Seq::new((width - d.len()) as nat, |i: int| '0') + d
    } else {
        d
    }
}

/// The year as written in a date: four digits for years 0 to 9999, else a sign and at
/// least four digits.
pub open spec fn year_text(y: int) -> Seq<char> {
    if 0 <= y <= 9999 {
        zero_padded(y as nat, 4)
    } else if y > 9999 {
        seq!['+'] + zero_padded(y as nat, 4)
    } else {
        seq!['-'] + zero_padded((-y) as nat, 4)
    }
}

/// A date written as `yyyy-mm-dd`.
pub open spec fn date_text_of(y: int, m: int, d: int) -> Seq<char> {
    year_text(y) + seq!['-'] + zero_padded(m as nat, 2) + seq!['-'] + zero_padded(d as nat, 2)
}

/// Relies on chrono's `Display` for `NaiveDate`, which writes `%Y-%m-%d`: the year as four
/// digits when in 0..=9999, else signed and padded to five characters; month and day as two.
#[verifier::external_body]
pub(crate) fn date_text(d: &CalDate) -> (r: String)
    requires
        d.wf(),
    ensures
        r@ == date_text_of(d.year as int, d.month as int, d.day as int),
{
    NaiveDate::from_ymd_opt(d.year, d.month, d.day).unwrap().to_string()
}

/// How many candidate days the resolver tries, the stored one included.
pub const RESOLVE_ATTEMPTS: u32 = 3;

/// Walks back from `day` in month `m` of year `y`, trying at most `attempts` days.
pub open spec fn resolve_from(y: int, m: int, day: int, attempts: int) -> Option<(int, int, int)>
    decreases attempts,
{
    if attempts <= 0 || day <= 0 {
        None
    } else if valid_ymd(y, m, day) {
        Some((y, m, day))
    } else {
        resolve_from(y, m, day - 1, attempts - 1)
    }
}

/// The date in year `y` that a recurring `(m, d)` stands for, if any.
pub open spec fn resolve_md(y: int, m: int, d: int) -> Option<(int, int, int)> {
    if m == 0 || d == 0 {
        None
    } else {
        resolve_from(y, m, d, RESOLVE_ATTEMPTS as int)
    }
}

/// Resolves the recurring date `(month, day)` in `year`: the day itself when it exists,
/// else the nearest of the two days before it that exists.
pub fn try_date_from_md(year: i32, month: u32, day: u32) -> (r: Option<CalDate>)
    ensures
        r is Some <==> resolve_md(year as int, month as int, day as int) is Some,
        r matches Some(c) ==> resolve_md(year as int, month as int, day as int) == Some(c@)
            && c.wf(),
{
    if month == 0 || day == 0 {
        return None;
    }
    let mut d: u32 = day;
    let mut left: u32 = RESOLVE_ATTEMPTS;
    while left > 0 && d > 0
        invariant
            d <= day,
            resolve_md(year as int, month as int, day as int) == resolve_from(
                year as int,
                month as int,
                d as int,
                left as int,
            ),
        decreases left,
    {
        if let Some(c) = checked_ymd(year, month, d) {
            return Some(c);
        }
        d = d - 1;
        left = left - 1;
    }
    None
}

/// A recurring date whose day exists in year `y` resolves to that very day.
pub proof fn lemma_existing_day_resolves_to_itself(y: int, m: int, d: int)
    requires
        valid_ymd(y, m, d),
    ensures
        resolve_md(y, m, d) == Some((y, m, d)),
{
}

/// The twenty-ninth of February resolves to the twenty-eighth in a common year.
pub proof fn lemma_leap_day_falls_back(y: int)
    requires
        MIN_YEAR <= y <= MAX_YEAR,
        !is_leap_year(y),
    ensures
        resolve_md(y, 2, 29) == Some((y, 2int, 28int)),
{
    assert(!valid_ymd(y, 2, 29));
    assert(valid_ymd(y, 2, 28));
    assert(resolve_from(y, 2, 28, 2) == Some((y, 2int, 28int)));
}

/// Month zero or day zero never resolves.
pub proof fn lemma_zero_never_resolves(y: int, m: int, d: int)
    requires
        m == 0 || d == 0,
    ensures
        resolve_md(y, m, d) is None,
{
}

} // verus!
