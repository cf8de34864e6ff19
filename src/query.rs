use crate::date::date_le;
use crate::date::day_of_year;
use crate::date::week_of_year;
use crate::date::ymd_le;
use crate::date::CalDate;
use crate::date::lemma_existing_day_resolves_to_itself;
use crate::date::valid_ymd;
use crate::event::Date;
use crate::event::Event;
use vstd::prelude::*;

verus! {

/// Which events a listing shows.
#[derive(Clone, Copy, Debug, PartialEq, Eq, Structural)]
pub enum Mode {
    /// Events on or after today.
    Upcoming,
    /// Every event, resolvable or not.
    All,
    /// Events on today.
    Today,
    /// Events from today to the end of this month.
    Month,
    /// Events from today to the end of this week, weeks counted from the day of year.
    Week,
    /// Events from today on whose day of year is at most thirty past today's.
    Next30,
}

/// Whether the resolved date `d` is shown in `mode` on day `t`.
pub open spec fn admits(mode: Mode, d: (int, int, int), t: (int, int, int)) -> bool {
    match mode {
        Mode::All => true,
        Mode::Upcoming => ymd_le(t, d),
        Mode::Today => d == t,
        Mode::Month => ymd_le(t, d) && d.1 == t.1,
        Mode::Week => ymd_le(t, d) && week_of_year(d.0, d.1, d.2) == week_of_year(t.0, t.1, t.2),
        Mode::Next30 => ymd_le(t, d) && day_of_year(t.0, t.1, t.2) <= day_of_year(d.0, d.1, d.2)
            <= day_of_year(t.0, t.1, t.2) + 30,
    }
}

/// Whether an event whose date resolves to `r` is shown in `mode` on day `t`: every event
/// in `All`, else only one with a date that the mode admits.
pub open spec fn selects(mode: Mode, r: Option<(int, int, int)>, t: (int, int, int)) -> bool {
    mode == Mode::All || (r matches Some(d) && admits(mode, d, t))
}

/// Order of listing: by resolved date, events without a date last.
pub open spec fn key_le(a: Option<(int, int, int)>, b: Option<(int, int, int)>) -> bool {
    match (a, b) {
        (Some(x), Some(y)) => ymd_le(x, y),
        (Some(_), None) => true,
        (None, Some(_)) => false,
        (None, None) => true,
    }
}

/// The resolved date of the event at `i`, in the year of `t`.
pub open spec fn key_at(events: Seq<Event>, i: int, t: (int, int, int)) -> Option<(int, int, int)> {
    events[i].spec_date().resolved_in(t.0)
}

/// `r` lists, by position, exactly the events of `events` that `mode` shows on day `t`,
/// each once, in the order of their resolved dates, ties kept in their original order.
pub open spec fn is_listing(events: Seq<Event>, mode: Mode, t: (int, int, int), r: Seq<usize>) -> bool {
    &&& forall|k: int| 0 <= k < r.len() ==> r[k] < events.len()
    &&& r.no_duplicates()
    &&& forall|i: int|
        0 <= i < events.len() ==> (r.contains(i as usize) <==> selects(mode, key_at(events, i, t), t))
    &&& in_order(events, t, r)
}

proof fn lemma_key_order(a: Option<(int, int, int)>, b: Option<(int, int, int)>, c: Option<(int, int, int)>)
    ensures
        key_le(a, a),
        key_le(a, b) || key_le(b, a),
        key_le(a, b) && key_le(b, c) ==> key_le(a, c),
{
}

/// Whether `mode` shows an event whose date resolved to `key`, on day `today`.
pub fn shows(mode: Mode, key: &Option<CalDate>, today: &CalDate) -> (r: bool)
    requires
        today.wf(),
        key matches Some(c) ==> c.wf(),
    ensures
        r == selects(mode, opt_view(*key), today@),
{
    match mode {
        Mode::All => true,
        _ => match key {
            None => false,
            Some(d) => {
                let from_today = date_le(today, d);
                match mode {
                    Mode::Upcoming => from_today,
                    Mode::Today => *d == *today,
                    Mode::Month => from_today && d.month == today.month,
                    Mode::Week => from_today && d.week() == today.week(),
                    Mode::Next30 => {
                        let od = d.ordinal();
                        let ot = today.ordinal();
                        from_today && ot <= od && od - ot <= 30
                    },
                    Mode::All => true,
                }
            },
        },
    }
}

fn key_le_exec(a: &Option<CalDate>, b: &Option<CalDate>) -> (r: bool)
    ensures
        r == key_le(opt_view(*a), opt_view(*b)),
{
    match (a, b) {
        (Some(x), Some(y)) => date_le(x, y),
        (Some(_), None) => true,
        (None, Some(_)) => false,
        (None, None) => true,
    }
}

pub open spec fn opt_view(o: Option<CalDate>) -> Option<(int, int, int)> {
    match o {
        Some(c) => Some(c@),
        None => None,
    }
}

/// `s` is ordered by resolved date, ties by position.
pub open spec fn in_order(events: Seq<Event>, t: (int, int, int), s: Seq<usize>) -> bool {
    &&& forall|a: int, b: int|
        0 <= a < b < s.len() ==> key_le(key_at(events, s[a] as int, t), key_at(events, s[b] as int, t))
    &&& forall|a: int, b: int|
        0 <= a < b < s.len() && key_le(key_at(events, s[b] as int, t), key_at(events, s[a] as int, t))
            ==> s[a] < s[b]
}

proof fn lemma_insert_in_order(events: Seq<Event>, t: (int, int, int), s: Seq<usize>, p: int, i: usize)
    requires
        in_order(events, t, s),
        0 <= p <= s.len(),
        forall|k: int| 0 <= k < s.len() ==> s[k] < i,
        forall|q: int| 0 <= q < p ==> key_le(key_at(events, s[q] as int, t), key_at(events, i as int, t)),
        p < s.len() ==> !key_le(key_at(events, s[p] as int, t), key_at(events, i as int, t)),
    ensures
        in_order(events, t, s.insert(p, i)),
{
    let r = s.insert(p, i);
    let ki = key_at(events, i as int, t);
    assert forall|a: int, b: int| 0 <= a < b < r.len() implies key_le(
        key_at(events, r[a] as int, t),
        key_at(events, r[b] as int, t),
    ) by {
        let ka = key_at(events, r[a] as int, t);
        let kb = key_at(events, r[b] as int, t);
        if a < p && b == p {
        } else if a == p && b > p {
            let kp = key_at(events, s[p] as int, t);
            lemma_key_order(kp, ki, kb);
            lemma_key_order(ki, kp, kb);
        } else if a < p && b > p {
            let kp = key_at(events, s[p] as int, t);
            lemma_key_order(ki, kp, kb);
            lemma_key_order(kp, ki, kb);
            lemma_key_order(ka, ki, kb);
        } else if a > p {
            assert(r[a] == s[a - 1] && r[b] == s[b - 1]);
        }
    }
    assert forall|a: int, b: int|
        0 <= a < b < r.len() && key_le(key_at(events, r[b] as int, t), key_at(events, r[a] as int, t))
            implies r[a] < r[b] by {
        if a == p && b > p {
            let kb = key_at(events, r[b] as int, t);
            let kp = key_at(events, s[p] as int, t);
            lemma_key_order(kb, ki, kp);
            lemma_key_order(kp, kb, ki);
            lemma_key_order(ki, kp, kb);
        } else if a > p {
            assert(r[a] == s[a - 1] && r[b] == s[b - 1]);
        } else if a < p && b > p {
            assert(r[b] == s[b - 1]);
        }
    }
}

proof fn lemma_insert_keeps_members(s: Seq<usize>, p: int, i: usize)
    requires
        0 <= p <= s.len(),
        s.no_duplicates(),
        forall|k: int| 0 <= k < s.len() ==> s[k] < i,
    ensures
        s.insert(p, i).no_duplicates(),
        forall|k: int| 0 <= k < s.insert(p, i).len() ==> s.insert(p, i)[k] <= i,
        forall|x: usize| s.insert(p, i).contains(x) <==> (s.contains(x) || x == i),
{
    let r = s.insert(p, i);
    assert forall|x: usize| r.contains(x) <==> (s.contains(x) || x == i) by {
        if s.contains(x) {
            let q = choose|q: int| 0 <= q < s.len() && s[q] == x;
            if q < p {
                assert(r[q] == x);
            } else {
                assert(r[q + 1] == x);
            }
        }
        if x == i {
            assert(r[p] == x);
        }
        if r.contains(x) {
            let q = choose|q: int| 0 <= q < r.len() && r[q] == x;
            if q < p {
                assert(s[q] == x);
            } else if q > p {
                assert(s[q - 1] == x);
            }
        }
    }
    assert forall|a: int, b: int| 0 <= a < r.len() && 0 <= b < r.len() && a != b implies r[a] != r[b] by {
        if a != p && b != p {
            let sa = if a < p { a } else { a - 1 };
            let sb = if b < p { b } else { b - 1 };
            assert(r[a] == s[sa] && r[b] == s[sb]);
        }
    }
}

/// The positions of the events that `mode` shows on day `today`, ordered by resolved
/// date, events that keep no date last, ties in their original order.
pub fn query(events: &Vec<Event>, mode: Mode, today: &CalDate) -> (r: Vec<usize>)
    requires
        today.wf(),
    ensures
        is_listing(events@, mode, today@, r@),
{
    let n = events.len();
    let mut keys: Vec<Option<CalDate>> = Vec::new();
    let mut i: usize = 0;
    while i < n
        invariant
            n == events@.len(),
            i <= n,
            keys@.len() == i,
            forall|j: int|
                0 <= j < i ==> opt_view(#[trigger] keys@[j]) == key_at(events@, j, today@) && (
                keys@[j] matches Some(c) ==> c.wf()),
        decreases n - i,
    {
        let k = events[i].get_date().resolve_in(today.year);
        keys.push(k);
        i = i + 1;
    }
    let mut out: Vec<usize> = Vec::new();
    i = 0;
    while i < n
        invariant
            n == events@.len(),
            i <= n,
            keys@.len() == n,
            today.wf(),
            forall|j: int|
                0 <= j < n ==> opt_view(#[trigger] keys@[j]) == key_at(events@, j, today@) && (
                keys@[j] matches Some(c) ==> c.wf()),
            forall|k: int| 0 <= k < out@.len() ==> out@[k] < i,
            out@.no_duplicates(),
            forall|j: int|
                0 <= j < i ==> (out@.contains(j as usize) <==> selects(
                    mode,
                    key_at(events@, j, today@),
                    today@,
                )),
            in_order(events@, today@, out@),
        decreases n - i,
    {
        if shows(mode, &keys[i], today) {
            let ghost ki = key_at(events@, i as int, today@);
            let mut p: usize = 0;
            let mut searching = true;
            while searching && p < out.len()
                invariant
                    ki == key_at(events@, i as int, today@),
                    p <= out@.len(),
                    keys@.len() == n,
                    i < n,
                    forall|k: int| 0 <= k < out@.len() ==> out@[k] < i,
                    forall|j: int|
                        0 <= j < n ==> opt_view(#[trigger] keys@[j]) == key_at(
                            events@,
                            j,
                            today@,
                        ),
                    forall|q: int|
                        0 <= q < p ==> key_le(key_at(events@, out@[q] as int, today@), ki),
                    !searching ==> p < out@.len() && !key_le(
                        key_at(events@, out@[p as int] as int, today@),
                        ki,
                    ),
                decreases out@.len() - p + (if searching { 1int } else { 0int }),
            {
                let q = out[p];
                if key_le_exec(&keys[q], &keys[i]) {
                    p = p + 1;
                } else {
                    searching = false;
                }
            }
            let ghost old_out = out@;
            out.insert(p, i);
            proof {
                assert(out@ == old_out.insert(p as int, i));
                lemma_insert_in_order(events@, today@, old_out, p as int, i);
                lemma_insert_keeps_members(old_out, p as int, i);
                assert(opt_view(keys@[i as int]) == key_at(events@, i as int, today@));
                assert forall|j: int| 0 <= j < i + 1 implies (out@.contains(j as usize) <==> selects(
                    mode,
                    key_at(events@, j, today@),
                    today@,
                )) by {
                    if j < i {
                        assert(old_out.contains(j as usize) <==> out@.contains(j as usize));
                    } else {
                        assert(j as usize == i);
                        assert(out@[p as int] == i);
                        assert(out@.contains(i));
                        assert(selects(mode, key_at(events@, i as int, today@), today@));
                    }
                }
            }
        } else {
            proof {
                assert(opt_view(keys@[i as int]) == key_at(events@, i as int, today@));
                assert(!out@.contains(i));
            }
        }
        i = i + 1;
    }
    out
}

/// Line under a listing's heading.
pub const SEPARATOR: &'static str = "============================================";

/// Line shown in place of an empty listing.
pub const NO_EVENTS: &'static str = "There is no event to display";

/// The heading of the listing of each mode.
pub open spec fn heading_of(mode: Mode) -> Seq<char> {
    match mode {
        Mode::Upcoming => "Coming events"@,
        Mode::All => "All events"@,
        Mode::Today => "Today events"@,
        Mode::Month => "This month"@,
        Mode::Week => "This week"@,
        Mode::Next30 => "Next 30 days"@,
    }
}

impl Mode {
    /// The heading of this mode's listing.
    pub fn heading(&self) -> (r: &'static str)
        ensures
            r@ == heading_of(*self),
    {
        match self {
            Mode::Upcoming => {
                proof {
                    reveal_strlit("Coming events");
                }
                "Coming events"
            },
            Mode::All => {
                proof {
                    reveal_strlit("All events");
                }
                "All events"
            },
            Mode::Today => {
                proof {
                    reveal_strlit("Today events");
                }
                "Today events"
            },
            Mode::Month => {
                proof {
                    reveal_strlit("This month");
                }
                "This month"
            },
            Mode::Week => {
                proof {
                    reveal_strlit("This week");
                }
                "This week"
            },
            Mode::Next30 => {
                proof {
                    reveal_strlit("Next 30 days");
                }
                "Next 30 days"
            },
        }
    }
}

/// The lines of a listing: the heading, the separator, then one rendered line per listed
/// event, or the no-events line when there is none.
pub open spec fn listing_lines(
    heading: Seq<char>,
    events: Seq<Event>,
    order: Seq<usize>,
    t: (int, int, int),
) -> Seq<Seq<char>> {
    let head = seq![heading, SEPARATOR@];
    if order.len() == 0 {
        head + seq![NO_EVENTS@]
    } else {
        head + order.map_values(|i: usize| events[i as int].rendered(t))
    }
}

pub open spec fn texts(lines: Seq<String>) -> Seq<Seq<char>> {
    lines.map_values(|s: String| s@)
}

/// The lines that show the events at positions `order` under `heading`, as of `today`.
pub fn print(heading: &str, events: &Vec<Event>, order: &Vec<usize>, today: &CalDate) -> (r: Vec<String>)
    requires
        forall|k: int| 0 <= k < order@.len() ==> order@[k] < events@.len(),
    ensures
        texts(r@) == listing_lines(heading@, events@, order@, today@),
{
    let mut lines: Vec<String> = Vec::new();
    lines.push(String::from_str(heading));
    lines.push(String::from_str(SEPARATOR));
    if order.len() == 0 {
        lines.push(String::from_str(NO_EVENTS));
        assert(texts(lines@) =~= listing_lines(heading@, events@, order@, today@));
        return lines;
    }
    let ghost head = texts(lines@);
    let mut k: usize = 0;
    while k < order.len()
        invariant
            forall|q: int| 0 <= q < order@.len() ==> order@[q] < events@.len(),
            k <= order@.len(),
            lines@.len() == 2 + k,
            head == seq![heading@, SEPARATOR@],
            texts(lines@) =~= head + order@.take(k as int).map_values(
                |i: usize| events@[i as int].rendered(today@),
            ),
        decreases order@.len() - k,
    {
        let line = events[order[k]].render(today);
        let ghost before = lines@;
        lines.push(line);
        proof {
            assert(order@.take(k + 1) =~= order@.take(k as int).push(order@[k as int]));
            assert(texts(lines@) =~= texts(before).push(line@));
        }
        k = k + 1;
    }
    assert(order@.take(order@.len() as int) =~= order@);
    lines
}

/// The listing of `mode` as of `today`: its heading, then its events in order.
pub fn report(events: &Vec<Event>, mode: Mode, today: &CalDate) -> (r: Vec<String>)
    requires
        today.wf(),
    ensures
        exists|order: Seq<usize>|
            is_listing(events@, mode, today@, order) && texts(r@) == listing_lines(
                heading_of(mode),
                events@,
                order,
                today@,
            ),
{
    let order = query(events, mode, today);
    print(mode.heading(), events, &order, today)
}

/// Whatever the day, listing every event of an empty list shows the heading, the separator
/// and the no-events line, and no event.
pub proof fn lemma_empty_list_shows_no_events(heading: Seq<char>, t: (int, int, int), order: Seq<usize>)
    requires
        is_listing(Seq::<Event>::empty(), Mode::All, t, order),
    ensures
        order.len() == 0,
        listing_lines(heading, Seq::<Event>::empty(), order, t) == seq![heading, SEPARATOR@, NO_EVENTS@],
{
    if order.len() > 0 {
        assert(order[0] < 0);
    }
    assert(listing_lines(heading, Seq::<Event>::empty(), order, t) =~= seq![heading, SEPARATOR@, NO_EVENTS@]);
}

/// The listing of today holds exactly the events whose date resolves to today.
pub proof fn lemma_today_lists_exactly_today(events: Seq<Event>, t: (int, int, int), order: Seq<usize>, i: int)
    requires
        is_listing(events, Mode::Today, t, order),
        0 <= i < events.len(),
    ensures
        order.contains(i as usize) <==> events[i].spec_date().resolved_in(t.0) == Some(t),
{
    assert(order.contains(i as usize) <==> selects(Mode::Today, key_at(events, i, t), t));
}

/// In every listing, an event with a date that comes before another with a date is not
/// dated later.
pub proof fn lemma_listing_ascending(events: Seq<Event>, mode: Mode, t: (int, int, int), order: Seq<usize>, a: int, b: int)
    requires
        is_listing(events, mode, t, order),
        0 <= a < b < order.len(),
        key_at(events, order[a] as int, t) is Some,
        key_at(events, order[b] as int, t) is Some,
    ensures
        ymd_le(key_at(events, order[a] as int, t)->0, key_at(events, order[b] as int, t)->0),
{
    assert(in_order(events, t, order));
    assert(key_le(key_at(events, order[a] as int, t), key_at(events, order[b] as int, t)));
}

/// Thirty days past today, within the same year, is in the thirty-day window; thirty-one
/// days past it is not.
pub proof fn lemma_thirty_day_boundary(t: (int, int, int), d: (int, int, int))
    requires
        d.0 == t.0,
        ymd_le(t, d),
    ensures
        day_of_year(d.0, d.1, d.2) == day_of_year(t.0, t.1, t.2) + 30 ==> admits(Mode::Next30, d, t),
        day_of_year(d.0, d.1, d.2) == day_of_year(t.0, t.1, t.2) + 31 ==> !admits(Mode::Next30, d, t),
{
}

/// A birthday recurring on the twentieth of April is in the month listing of every April
/// day up to that date.
pub proof fn lemma_april_date_in_month_listing(e: Event, t: (int, int, int))
    requires
        e.spec_date() == (Date::Trunc { month: 4, day: 20 }),
        valid_ymd(t.0, t.1, t.2),
        t.1 == 4,
        t.2 <= 20,
    ensures
        e.spec_date().resolved_in(t.0) == Some((t.0, 4int, 20int)),
        selects(Mode::Month, e.spec_date().resolved_in(t.0), t),
{
    lemma_existing_day_resolves_to_itself(t.0, 4, 20);
}

} // verus!
