use crate::date::current_date;
use crate::date::date_text;
use crate::date::date_text_of;
use crate::date::decimal_digits;
use crate::date::decimal_text;
use crate::date::digit_char;
use crate::date::MAX_YEAR;
use crate::date::MIN_YEAR;
use crate::date::resolve_md;
use crate::date::try_date_from_md;
use crate::date::CalDate;
use vstd::prelude::*;

verus! {

/// The date an event recurs on.
#[derive(Clone, Copy, Debug, PartialEq, Eq, Structural)]
pub enum Date {
    /// A fixed calendar date.
    Full(CalDate),
    /// A month and day that recur every year.
    Trunc { month: u32, day: u32 },
}

impl Date {
    /// The concrete date this stands for in year `y`: a full date is itself (when that day
    /// exists), a recurring one goes through the resolver.
    pub open spec fn resolved_in(&self, y: int) -> Option<(int, int, int)> {
        match *self {
            Date::Full(d) => if d.wf() {
                Some(d@)
            } else {
                None
            },
            Date::Trunc { month, day } => resolve_md(y, month as int, day as int),
        }
    }

    /// The stored month and day.
    pub open spec fn month_day(&self) -> (int, int) {
        match *self {
            Date::Full(d) => (d.month as int, d.day as int),
            Date::Trunc { month, day } => (month as int, day as int),
        }
    }

    /// Resolves this date in `year`.
    pub fn resolve_in(&self, year: i32) -> (r: Option<CalDate>)
        ensures
            r is Some <==> self.resolved_in(year as int) is Some,
            r matches Some(c) ==> self.resolved_in(year as int) == Some(c@) && c.wf(),
    {
        match *self {
            Date::Full(d) => if d.is_valid() {
                Some(d)
            } else {
                None
            },
            Date::Trunc { month, day } => try_date_from_md(year, month, day),
        }
    }
}

impl Default for Date {
    /// Today, as a full date.
    fn default() -> (r: Self)
        ensures
            r matches Date::Full(d) && d.wf(),
    {
        Date::Full(current_date())
    }
}

/// What an event celebrates.
#[derive(Clone, Copy, Debug, PartialEq, Eq, Structural)]
pub enum EventKind {
    Birthday,
    Namesday,
    Other,
}

/// The glyph shown after an event of kind `k`.
pub open spec fn glyph_of(k: EventKind) -> Seq<char> {
    match k {
        EventKind::Birthday => seq!['\u{1F380}'],
        EventKind::Namesday => seq!['\u{1F389}'],
        EventKind::Other => seq![],
    }
}

/// The kind a selector text picks: `"0"`, `"1"` or `"2"`.
pub open spec fn kind_of_selector(s: Seq<char>) -> Option<EventKind> {
    if s == seq!['0'] {
        Some(EventKind::Birthday)
    } else if s == seq!['1'] {
        Some(EventKind::Namesday)
    } else if s == seq!['2'] {
        Some(EventKind::Other)
    } else {
        None
    }
}

impl EventKind {
    /// The glyph of this kind; empty for `Other`.
    pub fn glyph(&self) -> (r: &'static str)
        ensures
            r@ == glyph_of(*self),
    {
        match self {
            EventKind::Birthday => {
                let s = "\u{1F380}";
                proof {
                    reveal_strlit("\u{1F380}");
                }
                s
            },
            EventKind::Namesday => {
                let s = "\u{1F389}";
                proof {
                    reveal_strlit("\u{1F389}");
                }
                s
            },
            EventKind::Other => {
                let s = "";
                proof {
                    reveal_strlit("");
                }
                s
            },
        }
    }

    /// The kind that a selector text picks, if any.
    pub fn from_selector(s: &str) -> (r: Option<EventKind>)
        ensures
            r == kind_of_selector(s@),
    {
        if s.unicode_len() != 1 {
            assert(s@ != seq!['0'] && s@ != seq!['1'] && s@ != seq!['2']);
            return None;
        }
        let c = s.get_char(0);
        assert(s@ == seq![c]);
        if c == '0' {
            Some(EventKind::Birthday)
        } else if c == '1' {
            Some(EventKind::Namesday)
        } else if c == '2' {
            Some(EventKind::Other)
        } else {
            None
        }
    }
}

impl Default for EventKind {
    fn default() -> (r: Self)
        ensures
            r == EventKind::Other,
    {
        EventKind::Other
    }
}

/// Why a date could not be resolved, as a readable message.
pub struct Error(String);

impl Error {
    pub closed spec fn spec_message(&self) -> Seq<char> {
        self.0@
    }

    /// The message.
    pub fn message(&self) -> (r: &str)
        ensures
            r@ == self.spec_message(),
    {
        self.0.as_str()
    }
}

/// The message of a failure to resolve `m`-`d` of event `description` in year `y`.
pub open spec fn failure_text(description: Seq<char>, y: int, m: int, d: int) -> Seq<char> {
    "Wrong date format for "@ + description + " # "@ + decimal_text(y) + seq!['-'] + decimal_text(m)
        + seq!['-'] + decimal_text(d)
}

/// Appends the decimal digits of `n` to `out`.
fn push_digits(out: &mut String, n: u64)
    ensures
        final(out)@ == old(out)@ + decimal_digits(n as nat),
    decreases n,
{
    if n >= 10 {
        push_digits(out, n / 10);
    }
    let digits = "0123456789";
    proof {
        reveal_strlit("0123456789");
    }
    let d = (n % 10) as usize;
    let one = digits.substring_char(d, d + 1);
    assert(one@ =~= seq![digit_char((n % 10) as nat)]);
    let ghost before = out@;
    out.append(one);
    proof {
        if n >= 10 {
            assert(decimal_digits(n as nat) == decimal_digits((n / 10) as nat).push(
                digit_char((n % 10) as nat),
            ));
        } else {
            assert(decimal_digits(n as nat) == seq![digit_char(n as nat)]);
        }
    }
    assert(out@ =~= old(out)@ + decimal_digits(n as nat));
}

/// Appends the decimal text of `n` to `out`.
fn push_decimal(out: &mut String, n: i64)
    ensures
        final(out)@ == old(out)@ + decimal_text(n as int),
{
    if n < 0 {
        out.append("-");
        proof {
            reveal_strlit("-");
        }
        push_digits(out, (-(n as i128)) as u64);
        assert(out@ =~= old(out)@ + decimal_text(n as int));
    } else {
        push_digits(out, n as u64);
    }
}

/// The message of a failure to resolve `month`-`day` of `description` in `year`.
fn failure_message(description: &str, year: i32, month: u32, day: u32) -> (r: String)
    ensures
        r@ == failure_text(description@, year as int, month as int, day as int),
{
    let mut out = String::from_str("Wrong date format for ");
    out.append(description);
    out.append(" # ");
    push_decimal(&mut out, year as i64);
    out.append("-");
    push_decimal(&mut out, month as i64);
    out.append("-");
    push_decimal(&mut out, day as i64);
    proof {
        reveal_strlit("Wrong date format for ");
        reveal_strlit(" # ");
        reveal_strlit("-");
    }
    assert(out@ =~= failure_text(description@, year as int, month as int, day as int));
    out
}

/// A recurring event: what it is, when, and of which kind.
#[derive(Clone, Debug, Default)]
pub struct Event {
    description: String,
    date: Date,
    kind: EventKind,
}

pub const TODAY_MARK: &'static str = "*** => ";

pub const NO_DATE: &'static str = "___NONE___";

/// The date part of a rendered line: the resolved date, or a placeholder.
pub open spec fn date_part(r: Option<(int, int, int)>) -> Seq<char> {
    match r {
        Some(d) => date_text_of(d.0, d.1, d.2),
        None => NO_DATE@,
    }
}

impl Event {
    pub closed spec fn spec_description(&self) -> Seq<char> {
        self.description@
    }

    pub closed spec fn spec_date(&self) -> Date {
        self.date
    }

    pub closed spec fn spec_kind(&self) -> EventKind {
        self.kind
    }

    /// The line that shows this event on day `today`: a mark when it falls on that day,
    /// the date, a tab, the description, a space and the glyph.
    pub open spec fn rendered(&self, today: (int, int, int)) -> Seq<char> {
        let r = self.spec_date().resolved_in(today.0);
        let mark = if r == Some(today) {
            TODAY_MARK@
        } else {
            seq![]
        };
        mark + date_part(r) + seq!['\t'] + self.spec_description() + seq![' '] + glyph_of(
            self.spec_kind(),
        )
    }

    pub fn new(description: String, date: Date, kind: EventKind) -> (r: Self)
        ensures
            r.spec_description() == description@,
            r.spec_date() == date,
            r.spec_kind() == kind,
    {
        Event { description, date, kind }
    }

    pub fn get_description(&self) -> (r: &str)
        ensures
            r@ == self.spec_description(),
    {
        self.description.as_str()
    }

    pub fn get_date(&self) -> (r: Date)
        ensures
            r == self.spec_date(),
    {
        self.date
    }

    pub fn get_kind(&self) -> (r: EventKind)
        ensures
            r == self.spec_kind(),
    {
        self.kind
    }

    /// The concrete date of this event in `year`, or an error naming it.
    pub fn try_date_in(&self, year: i32) -> (r: Result<CalDate, Error>)
        ensures
            r is Ok <==> self.spec_date().resolved_in(year as int) is Some,
            r matches Ok(c) ==> self.spec_date().resolved_in(year as int) == Some(c@) && c.wf(),
            r matches Err(e) ==> e.spec_message() == failure_text(
                self.spec_description(),
                year as int,
                self.spec_date().month_day().0,
                self.spec_date().month_day().1,
            ),
    {
        match self.date.resolve_in(year) {
            Some(c) => Ok(c),
            None => {
                let (month, day) = match self.date {
                    Date::Full(d) => (d.month, d.day),
                    Date::Trunc { month, day } => (month, day),
                };
                Err(Error(failure_message(self.description.as_str(), year, month, day)))
            },
        }
    }

    /// The concrete date of this event in the current year, or an error naming it.
    pub fn try_date(&self) -> (r: Result<CalDate, Error>)
        ensures
            self.spec_date() is Full ==> (r is Ok <==> self.spec_date().resolved_in(0) is Some),
            self.spec_date() matches Date::Trunc { month, day } ==> (month == 0 || day == 0
                ==> r is Err),
            r matches Ok(c) ==> c.wf(),
            exists|y: int|
                MIN_YEAR <= y <= MAX_YEAR && (r is Ok <==> self.spec_date().resolved_in(y) is Some)
                    && (r matches Ok(c) ==> self.spec_date().resolved_in(y) == Some(c@)) && (
                r matches Err(e) ==> e.spec_message() == failure_text(
                    self.spec_description(),
                    y,
                    self.spec_date().month_day().0,
                    self.spec_date().month_day().1,
                )),
    {
        let today = current_date();
        let r = self.try_date_in(today.year);
        let ghost y = today.year as int;
        assert(MIN_YEAR <= y <= MAX_YEAR && (r is Ok <==> self.spec_date().resolved_in(y) is Some));
        r
    }

    /// Renders this event as one line, as of `today`.
    pub fn render(&self, today: &CalDate) -> (r: String)
        ensures
            r@ == self.rendered(today@),
    {
        let resolved = self.date.resolve_in(today.year);
        let mut line = String::new();
        let mut is_today = false;
        if let Some(c) = resolved {
            is_today = c == *today;
        }
        if is_today {
            line.append(TODAY_MARK);
        }
        match resolved {
            Some(c) => {
                let t = date_text(&c);
                line.append(t.as_str());
            },
            None => {
                line.append(NO_DATE);
            },
        }
        line.append("\t");
        line.append(self.description.as_str());
        line.append(" ");
        line.append(self.kind.glyph());
        proof {
            reveal_strlit("\t");
            reveal_strlit(" ");
            reveal_strlit("");
        }
        assert(line@ == self.rendered(today@));
        line
    }
}

} // verus!
