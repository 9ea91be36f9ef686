use chrono::Datelike;
use vstd::prelude::*;

verus! {

/// A day of the calendar by its numbers.
#[derive(Debug, Clone, Copy, PartialEq, Eq, Structural)]
pub struct CalendarDate {
    pub year: i32,
    pub month: u32,
    pub day: u32,
}

/// The date that `chrono` reads out of a text in the form year-month-day, if it
/// reads one.
pub uninterp spec fn parsed_date(text: Seq<char>) -> Option<CalendarDate>;

/// The day before a date in `chrono`'s calendar, if the numbers are a date of that
/// calendar and not its first.
pub uninterp spec fn date_before(date: CalendarDate) -> Option<CalendarDate>;

/// The day after a date in `chrono`'s calendar, if the numbers are a date of that
/// calendar and not its last.
pub uninterp spec fn date_after(date: CalendarDate) -> Option<CalendarDate>;

/// A date as `chrono` writes it in the form year-month-day, if the numbers are a
/// date of its calendar.
pub uninterp spec fn formatted_date(date: CalendarDate) -> Option<Seq<char>>;

/// Calls `chrono::NaiveDate::parse_from_str` with the format `%Y-%m-%d` and hands
/// back the year, month and day of the date that it read. The contract only names
/// that result: which texts `chrono` accepts is not stated.
#[verifier::external_body]
fn parse_date(text: &str) -> (date: Option<CalendarDate>)
    ensures
        date == parsed_date(text@),
{
    match chrono::NaiveDate::parse_from_str(text, "%Y-%m-%d") {
        Ok(date) => Some(CalendarDate { year: date.year(), month: date.month(), day: date.day() }),
        Err(_) => None,
    }
}

/// Calls `chrono::NaiveDate::pred_opt` on the date with these numbers, made by
/// `from_ymd_opt`. The contract only names the result: the calendar is `chrono`'s.
#[verifier::external_body]
fn day_before(date: CalendarDate) -> (before: Option<CalendarDate>)
    ensures
        before == date_before(date),
{
    match chrono::NaiveDate::from_ymd_opt(date.year, date.month, date.day) {
        Some(day) => match day.pred_opt() {
            Some(b) => Some(CalendarDate { year: b.year(), month: b.month(), day: b.day() }),
            None => None,
        },
        None => None,
    }
}

/// Calls `chrono::NaiveDate::succ_opt` on the date with these numbers, made by
/// `from_ymd_opt`. The contract only names the result: the calendar is `chrono`'s.
#[verifier::external_body]
fn day_after(date: CalendarDate) -> (after: Option<CalendarDate>)
    ensures
        after == date_after(date),
{
    match chrono::NaiveDate::from_ymd_opt(date.year, date.month, date.day) {
        Some(day) => match day.succ_opt() {
            Some(a) => Some(CalendarDate { year: a.year(), month: a.month(), day: a.day() }),
            None => None,
        },
        None => None,
    }
}

/// Calls `chrono::NaiveDate::format` with the format `%Y-%m-%d` on the date with
/// these numbers, made by `from_ymd_opt`, and turns what it gives into a string.
/// The contract only names the result.
#[verifier::external_body]
fn format_date(date: CalendarDate) -> (text: Option<String>)
    ensures
        match text {
            Some(t) => formatted_date(date) == Some(t@),
            None => formatted_date(date).is_none(),
        },
{
    match chrono::NaiveDate::from_ymd_opt(date.year, date.month, date.day) {
        Some(day) => Some(day.format("%Y-%m-%d").to_string()),
        None => None,
    }
}

/// The text of the day before (or, with `forward`, after) the date that a text
/// holds: none where the text holds no date, or the calendar has no such day.
pub open spec fn shifted(text: Seq<char>, forward: bool) -> Option<Seq<char>> {
    match parsed_date(text) {
        None => None,
        Some(date) => match (if forward {
            date_after(date)
        } else {
            date_before(date)
        }) {
            None => None,
            Some(moved) => formatted_date(moved),
        },
    }
}

/// Whether a text holds a date in the form year-month-day.
pub fn is_valid_date(text: &str) -> (valid: bool)
    ensures
        valid == parsed_date(text@).is_some(),
{
    parse_date(text).is_some()
}

/// The day before the date that a text holds, as a text.
pub fn previous_day(date: &str) -> (day: Option<String>)
    ensures
        match day {
            Some(text) => shifted(date@, false) == Some(text@),
            None => shifted(date@, false).is_none(),
        },
{
    match parse_date(date) {
        Some(parsed) => match day_before(parsed) {
            Some(before) => format_date(before),
            None => None,
        },
        None => None,
    }
}

/// The day after the date that a text holds, as a text.
pub fn next_day(date: &str) -> (day: Option<String>)
    ensures
        match day {
            Some(text) => shifted(date@, true) == Some(text@),
            None => shifted(date@, true).is_none(),
        },
{
    match parse_date(date) {
        Some(parsed) => match day_after(parsed) {
            Some(after) => format_date(after),
            None => None,
        },
        None => None,
    }
}

/// The date at hand after a step to a neighbouring day: the day that the step
/// found, or the date as it was where it found none.
pub fn date_after_step(current: &str, step: Option<String>) -> (date: String)
    ensures
        date@ == match step {
            Some(text) => text@,
            None => current@,
        },
{
    match step {
        Some(text) => text,
        None => current.to_owned(),
    }
}

/// The date that a user chose: today's where the input is empty or no date, else
/// the input as it was typed.
pub fn chosen_date(input: &str, valid: bool, today: &str) -> (date: String)
    ensures
        date@ == if input@.len() > 0 && valid {
            input@
        } else {
            today@
        },
{
    if !input.is_empty() && valid {
        input.to_owned()
    } else {
        today.to_owned()
    }
}

/// The date that a user chose by typing `input`, on the day `today`.
pub fn select_date(input: &str, today: &str) -> (date: String)
    ensures
        date@ == if input@.len() > 0 && parsed_date(input@).is_some() {
            input@
        } else {
            today@
        },
{
    let valid = is_valid_date(input);
    chosen_date(input, valid, today)
}

} // verus!
