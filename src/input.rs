use crate::date::valid_ymd;
use crate::date::CalDate;
use crate::event::kind_of_selector;
use crate::event::Date;
use crate::event::Event;
use crate::event::EventKind;
use crate::query::texts;
use vstd::prelude::*;

verus! {

/// Why typed-in event fields were rejected.
#[derive(Clone, Copy, Debug, PartialEq, Eq, Structural)]
pub enum InputError {
    /// The year is not a number of its type.
    MalformedYear,
    /// The month is not a number of its type.
    MalformedMonth,
    /// The day is not a number of its type.
    MalformedDay,
    /// The year, month and day name no existing day.
    NonexistentDate,
    /// The date has neither two nor three parts.
    PartCount,
    /// The kind selector is not `0`, `1` or `2`.
    KindOutOfRange,
}

/// `s` without its line breaks.
pub open spec fn without_newlines(s: Seq<char>) -> Seq<char> {
    s.filter(|c: char| c != '\n')
}

/// The parts of `s` between the dashes, in order; `s` without a dash is one part.
pub open spec fn split_dash(s: Seq<char>) -> Seq<Seq<char>>
    decreases s.len(),
{
    if s.len() == 0 {
        seq![Seq::<char>::empty()]
    } else {
        let p = split_dash(s.drop_last());
        if s.last() == '-' {
            p.push(Seq::<char>::empty())
        } else {
            p.update(p.len() - 1, p.last().push(s.last()))
        }
    }
}

pub open spec fn is_digit(c: char) -> bool {
    '0' <= c && c <= '9'
}

/// The number that a string of decimal digits writes.
pub open spec fn digits_value(s: Seq<char>) -> int
    decreases s.len(),
{
    if s.len() == 0 {
        0
    } else {
        10 * digits_value(s.drop_last()) + ((s.last() as u32) - ('0' as u32))
    }
}

/// The number that `s` writes as an optional `+` and one or more decimal digits.
pub open spec fn decimal_value(s: Seq<char>) -> Option<int> {
    let body = if s.len() > 0 && s[0] == '+' {
        s.drop_first()
    } else {
        s
    };
    if body.len() > 0 && forall|i: int| 0 <= i < body.len() ==> is_digit(#[trigger] body[i]) {
        Some(digits_value(body))
    } else {
        None
    }
}

/// The `u32` that `s` writes, if it writes one.
pub open spec fn u32_of(s: Seq<char>) -> Option<u32> {
    match decimal_value(s) {
        Some(v) => if v <= u32::MAX {
            Some(v as u32)
        } else {
            None
        },
        None => None,
    }
}

/// The `i32` that `s`, which holds no minus sign, writes, if it writes one.
pub open spec fn i32_of(s: Seq<char>) -> Option<i32> {
    match decimal_value(s) {
        Some(v) => if v <= i32::MAX {
            Some(v as i32)
        } else {
            None
        },
        None => None,
    }
}

/// Relies on std's `str::parse::<u32>`: an optional `+` followed by decimal digits whose
/// value fits, else an error.
#[verifier::external_body]
fn parse_u32(s: &str) -> (r: Option<u32>)
    ensures
        r == u32_of(s@),
{
    s.parse::<u32>().ok()
}

/// Relies on std's `str::parse::<i32>`: on text without a minus sign, an optional `+`
/// followed by decimal digits whose value fits, else an error.
#[verifier::external_body]
fn parse_i32(s: &str) -> (r: Option<i32>)
    requires
        !s@.contains('-'),
    ensures
        r == i32_of(s@),
{
    s.parse::<i32>().ok()
}

/// The date that typed-in text stands for: `month-day` recurs every year, `year-month-day`
/// is a fixed date that must exist. Line breaks are ignored.
pub open spec fn date_of_input(s: Seq<char>) -> Result<Date, InputError> {
    let parts = split_dash(without_newlines(s));
    if parts.len() == 2 {
        if u32_of(parts[0]) is None {
            Err(InputError::MalformedMonth)
        } else if u32_of(parts[1]) is None {
            Err(InputError::MalformedDay)
        } else {
            Ok(Date::Trunc { month: u32_of(parts[0])->0, day: u32_of(parts[1])->0 })
        }
    } else if parts.len() == 3 {
        if i32_of(parts[0]) is None {
            Err(InputError::MalformedYear)
        } else if u32_of(parts[1]) is None {
            Err(InputError::MalformedMonth)
        } else if u32_of(parts[2]) is None {
            Err(InputError::MalformedDay)
        } else {
            let y = i32_of(parts[0])->0;
            let m = u32_of(parts[1])->0;
            let d = u32_of(parts[2])->0;
            if valid_ymd(y as int, m as int, d as int) {
                Ok(Date::Full(CalDate { year: y, month: m, day: d }))
            } else {
                Err(InputError::NonexistentDate)
            }
        }
    } else {
        Err(InputError::PartCount)
    }
}

/// `s` without its line breaks.
pub fn without_newline_chars(s: &str) -> (r: String)
    ensures
        r@ == without_newlines(s@),
{
    let n = s.unicode_len();
    let mut out = String::new();
    let mut i: usize = 0;
    while i < n
        invariant
            n == s@.len(),
            i <= n,
            out@ == without_newlines(s@.take(i as int)),
        decreases n - i,
    {
        let c = s.get_char(i);
        proof {
            reveal(Seq::filter);
            assert(s@.take(i + 1).drop_last() =~= s@.take(i as int));
        }
        if c != '\n' {
            let one = s.substring_char(i, i + 1);
            assert(one@ =~= seq![c]);
            out.append(one);
        }
        i = i + 1;
    }
    assert(s@.take(n as int) =~= s@);
    out
}

/// Removes every line break from `text`.
pub fn clean_str(text: &mut String)
    ensures
        final(text)@ == without_newlines(old(text)@),
{
    let cleaned = without_newline_chars(text.as_str());
    *text = cleaned;
}

fn split_on_dash(s: &str) -> (r: Vec<String>)
    ensures
        texts(r@) == split_dash(s@),
{
    let n = s.unicode_len();
    let mut parts: Vec<String> = Vec::new();
    let mut cur = String::new();
    let mut i: usize = 0;
    while i < n
        invariant
            n == s@.len(),
            i <= n,
            texts(parts@).push(cur@) == split_dash(s@.take(i as int)),
        decreases n - i,
    {
        let c = s.get_char(i);
        let ghost before = texts(parts@).push(cur@);
        proof {
            assert(s@.take(i + 1).drop_last() =~= s@.take(i as int));
        }
        if c == '-' {
            let done = cur;
            parts.push(done);
            cur = String::new();
            assert(texts(parts@).push(cur@) =~= before.push(Seq::<char>::empty()));
        } else {
            let one = s.substring_char(i, i + 1);
            assert(one@ =~= seq![c]);
            let ghost old_cur = cur@;
            cur.append(one);
            assert(cur@ =~= old_cur.push(c));
            assert(before.last() == old_cur);
            assert(texts(parts@).push(cur@) =~= before.update(
                before.len() - 1,
                before.last().push(c),
            ));
        }
        i = i + 1;
    }
    let ghost before = texts(parts@).push(cur@);
    parts.push(cur);
    assert(texts(parts@) =~= before);
    assert(s@.take(n as int) =~= s@);
    parts
}

proof fn lemma_parts_have_no_dash(s: Seq<char>)
    ensures
        forall|k: int| 0 <= k < split_dash(s).len() ==> !(#[trigger] split_dash(s)[k]).contains('-'),
        split_dash(s).len() >= 1,
    decreases s.len(),
{
    if s.len() > 0 {
        lemma_parts_have_no_dash(s.drop_last());
        let p = split_dash(s.drop_last());
        if s.last() != '-' {
            let q = p.update(p.len() - 1, p.last().push(s.last()));
            assert forall|k: int| 0 <= k < q.len() implies !(#[trigger] q[k]).contains('-') by {
                if k == p.len() - 1 {
                    if q[k].contains('-') {
                        let j = choose|j: int| 0 <= j < q[k].len() && q[k][j] == '-';
                        if j < p.last().len() {
                            assert(p[k][j] == '-');
                        }
                    }
                }
            }
        } else {
            let q = p.push(Seq::<char>::empty());
            assert forall|k: int| 0 <= k < q.len() implies !(#[trigger] q[k]).contains('-') by {
                if k < p.len() {
                    assert(q[k] == p[k]);
                }
            }
        }
    }
}

/// The date that typed-in text stands for, or why it stands for none.
pub fn process_date_str(date_str: &str) -> (r: Result<Date, InputError>)
    ensures
        r == date_of_input(date_str@),
{
    let clean = without_newline_chars(date_str);
    let parts = split_on_dash(clean.as_str());
    proof {
        lemma_parts_have_no_dash(clean@);
        assert(forall|k: int| 0 <= k < parts@.len() ==> parts@[k]@ == texts(parts@)[k]);
    }
    if parts.len() == 2 {
        let month = match parse_u32(parts[0].as_str()) {
            Some(m) => m,
            None => {
                return Err(InputError::MalformedMonth);
            },
        };
        let day = match parse_u32(parts[1].as_str()) {
            Some(d) => d,
            None => {
                return Err(InputError::MalformedDay);
            },
        };
        Ok(Date::Trunc { month, day })
    } else if parts.len() == 3 {
        assert(!texts(parts@)[0].contains('-'));
        let year = match parse_i32(parts[0].as_str()) {
            Some(y) => y,
            None => {
                return Err(InputError::MalformedYear);
            },
        };
        let month = match parse_u32(parts[1].as_str()) {
            Some(m) => m,
            None => {
                return Err(InputError::MalformedMonth);
            },
        };
        let day = match parse_u32(parts[2].as_str()) {
            Some(d) => d,
            None => {
                return Err(InputError::MalformedDay);
            },
        };
        match CalDate::from_ymd(year, month, day) {
            Some(d) => Ok(Date::Full(d)),
            None => Err(InputError::NonexistentDate),
        }
    } else {
        Err(InputError::PartCount)
    }
}

/// What typed-in date and kind fields give: the date and kind of a new event, or the first
/// reason to reject them, the date's before the kind's.
pub open spec fn entry_of_input(date_in: Seq<char>, kind_in: Seq<char>) -> Result<
    (Date, EventKind),
    InputError,
> {
    match date_of_input(date_in) {
        Err(e) => Err(e),
        Ok(d) => match kind_of_selector(without_newlines(kind_in)) {
            Some(k) => Ok((d, k)),
            None => Err(InputError::KindOutOfRange),
        },
    }
}

/// Adds the event that typed-in fields describe to `events`; on rejected fields, leaves
/// `events` as it was.
pub fn add_event(events: &mut Vec<Event>, date_in: &str, description_in: &str, kind_in: &str) -> (r:
    Result<(), InputError>)
    ensures
        r is Ok <==> entry_of_input(date_in@, kind_in@) is Ok,
        r matches Err(e) ==> entry_of_input(date_in@, kind_in@) == Err::<(Date, EventKind), InputError>(e)
            && final(events)@ == old(events)@,
        r is Ok ==> final(events)@.len() == old(events)@.len() + 1 && final(events)@.drop_last()
            == old(events)@ && final(events)@.last().spec_date() == entry_of_input(
            date_in@,
            kind_in@,
        )->Ok_0.0 && final(events)@.last().spec_kind() == entry_of_input(date_in@, kind_in@)->Ok_0.1
            && final(events)@.last().spec_description() == without_newlines(description_in@),
{
    let date = match process_date_str(date_in) {
        Ok(d) => d,
        Err(e) => {
            return Err(e);
        },
    };
    let kind_text = without_newline_chars(kind_in);
    let kind = match EventKind::from_selector(kind_text.as_str()) {
        Some(k) => k,
        None => {
            return Err(InputError::KindOutOfRange);
        },
    };
    let description = without_newline_chars(description_in);
    events.push(Event::new(description, date, kind));
    assert(events@.drop_last() =~= old(events)@);
    Ok(())
}

proof fn lemma_no_newline_kept(s: Seq<char>)
    requires
        !s.contains('\n'),
    ensures
        without_newlines(s) == s,
    decreases s.len(),
{
    reveal(Seq::filter);
    if s.len() > 0 {
        assert(!s.drop_last().contains('\n')) by {
            if s.drop_last().contains('\n') {
                let j = choose|j: int| 0 <= j < s.drop_last().len() && s.drop_last()[j] == '\n';
                assert(s[j] == '\n');
            }
        }
        lemma_no_newline_kept(s.drop_last());
        assert(s.last() != '\n') by {
            assert(s[s.len() - 1] == s.last());
        }
        assert(s.drop_last().push(s.last()) =~= s);
    }
}

/// Adding an event dated the thirtieth of February 2020 is rejected as a day that does not
/// exist, whatever the kind; `add_event` then leaves the list unchanged.
pub proof fn lemma_february_thirtieth_rejected(kind_in: Seq<char>)
    ensures
        entry_of_input("2020-02-30"@, kind_in) == Err::<(Date, EventKind), InputError>(
            InputError::NonexistentDate,
        ),
{
    reveal_strlit("2020-02-30");
    let s = "2020-02-30"@;
    assert(s =~= seq!['2', '0', '2', '0', '-', '0', '2', '-', '3', '0']);
    assert(!s.contains('\n')) by {
        if s.contains('\n') {
            let j = choose|j: int| 0 <= j < s.len() && s[j] == '\n';
        }
    }
    lemma_no_newline_kept(s);
    let y = seq!['2', '0', '2', '0'];
    let m = seq!['0', '2'];
    let d = seq!['3', '0'];
    reveal_with_fuel(split_dash, 11);
    assert(split_dash(s) =~= seq![y, m, d]) by {
        assert(s.drop_last() =~= seq!['2', '0', '2', '0', '-', '0', '2', '-', '3']);
        assert(s.drop_last().drop_last() =~= seq!['2', '0', '2', '0', '-', '0', '2', '-']);
        assert(s.drop_last().drop_last().drop_last() =~= seq!['2', '0', '2', '0', '-', '0', '2']);
        assert(split_dash(seq!['2']) =~= seq![seq!['2']]) by {
            assert(seq!['2'].drop_last() =~= Seq::<char>::empty());
        }
        assert(split_dash(seq!['2', '0']) =~= seq![seq!['2', '0']]) by {
            assert(seq!['2', '0'].drop_last() =~= seq!['2']);
            assert(seq!['2'].push('0') =~= seq!['2', '0']);
            assert(seq![seq!['2']].update(0, seq!['2', '0']) =~= seq![seq!['2', '0']]);
        }
        assert(split_dash(seq!['2', '0', '2']) =~= seq![seq!['2', '0', '2']]) by {
            assert(seq!['2', '0', '2'].drop_last() =~= seq!['2', '0']);
            assert(seq!['2', '0'].push('2') =~= seq!['2', '0', '2']);
            assert(seq![seq!['2', '0']].update(0, seq!['2', '0', '2']) =~= seq![seq!['2', '0', '2']]);
        }
        assert(split_dash(y) =~= seq![y]) by {
            assert(y.drop_last() =~= seq!['2', '0', '2']);
            assert(seq!['2', '0', '2'].push('0') =~= y);
            assert(seq![seq!['2', '0', '2']].update(0, y) =~= seq![y]);
        }
        let s5 = seq!['2', '0', '2', '0', '-'];
        assert(split_dash(s5) =~= seq![y, Seq::<char>::empty()]) by {
            assert(s5.drop_last() =~= y);
        }
        let s6 = seq!['2', '0', '2', '0', '-', '0'];
        assert(split_dash(s6) =~= seq![y, seq!['0']]) by {
            assert(s6.drop_last() =~= s5);
        }
        let s7 = seq!['2', '0', '2', '0', '-', '0', '2'];
        assert(split_dash(s7) =~= seq![y, m]) by {
            assert(s7.drop_last() =~= s6);
            assert(seq!['0'].push('2') =~= m);
            assert(seq![y, seq!['0']].update(1, m) =~= seq![y, m]);
        }
        let s8 = seq!['2', '0', '2', '0', '-', '0', '2', '-'];
        assert(split_dash(s8) =~= seq![y, m, Seq::<char>::empty()]) by {
            assert(s8.drop_last() =~= s7);
        }
        let s9 = seq!['2', '0', '2', '0', '-', '0', '2', '-', '3'];
        assert(split_dash(s9) =~= seq![y, m, seq!['3']]) by {
            assert(s9.drop_last() =~= s8);
        }
        assert(s.drop_last() =~= s9);
        assert(seq!['3'].push('0') =~= d);
        assert(seq![y, m, seq!['3']].update(2, d) =~= seq![y, m, d]);
    }
    assert(digits_value(y) == 2020) by {
        assert(y.drop_last() =~= seq!['2', '0', '2']);
        assert(seq!['2', '0', '2'].drop_last() =~= seq!['2', '0']);
        assert(seq!['2', '0'].drop_last() =~= seq!['2']);
        assert(seq!['2'].drop_last() =~= Seq::<char>::empty());
        reveal_with_fuel(digits_value, 5);
    }
    assert(digits_value(m) == 2) by {
        assert(m.drop_last() =~= seq!['0']);
        assert(seq!['0'].drop_last() =~= Seq::<char>::empty());
        reveal_with_fuel(digits_value, 3);
    }
    assert(digits_value(d) == 30) by {
        assert(d.drop_last() =~= seq!['3']);
        assert(seq!['3'].drop_last() =~= Seq::<char>::empty());
        reveal_with_fuel(digits_value, 3);
    }
    assert(i32_of(y) == Some(2020i32));
    assert(u32_of(m) == Some(2u32));
    assert(u32_of(d) == Some(30u32));
    assert(!valid_ymd(2020, 2, 30));
}

} // verus!
