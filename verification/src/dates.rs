//! Calendar days, held as the number of days since the start of the common
//! era (January 1 of year 1 is day 1), with the calendar arithmetic done by
//! `chrono`.

use vstd::prelude::*;
use chrono::Datelike;
use crate::text::lex_lt;

verus! {

/// Day number of `chrono::NaiveDate::MIN` (January 1, 262144 BCE).
pub const MIN_DAY: i32 = -95746129i32;

/// Day number of `chrono::NaiveDate::MAX` (December 31, 262142 CE).
pub const MAX_DAY: i32 = 95745399i32;

/// Whether `d` is the day number of a date that `chrono::NaiveDate` can hold.
pub open spec fn valid_day(d: int) -> bool {
    MIN_DAY <= d <= MAX_DAY
}

/// Name for the day number of what `NaiveDate::parse_from_str(s, "%Y-%m-%d")`
/// parses from `s`, `None` when it fails.
pub uninterp spec fn spec_parse_ymd(s: Seq<char>) -> Option<i32>;

/// Name for the day number of `checked_add_months(Months::new(n))` applied
/// to the date with day number `day`.
pub uninterp spec fn spec_add_months(day: i32, n: u32) -> Option<i32>;

/// Name for the day number of `checked_sub_months(Months::new(n))` applied
/// to the date with day number `day`.
pub uninterp spec fn spec_sub_months(day: i32, n: u32) -> Option<i32>;

/// Name for the text of the date with day number `day` as chrono writes it
/// with `format("%Y-%m-%d")`, which chrono documents to be the same as its
/// `Display` (`to_string`).
pub uninterp spec fn spec_date_text(day: i32) -> Seq<char>;

/// Day numbers of January 1, year 0, through December 31, 9999: the dates
/// whose text has a four-digit year.
pub open spec fn four_digit_year_day(d: int) -> bool {
    -365 <= d <= 3652059
}

/// When `day` has a four-digit year, `text` sorts against the text of every
/// other such day as the days themselves do. `%Y-%m-%d` zero-pads the year
/// to four digits and the month and day to two, so for these dates the
/// text is `YYYY-MM-DD` and string order is calendar order.
pub open spec fn text_orders_as_day(day: i32, text: Seq<char>) -> bool {
    four_digit_year_day(day as int) ==> forall|e: i32|
        #![trigger spec_date_text(e)]
        four_digit_year_day(e as int) ==> ((lex_lt(spec_date_text(e), text) <==> e < day) && (
        lex_lt(text, spec_date_text(e)) <==> day < e))
}

/// Calls `NaiveDate::parse_from_str(s, "%Y-%m-%d")` and gives the day
/// number of the parsed date. Claims: the result is the named value, and a
/// parsed date lies in chrono's range.
#[verifier::external_body]
fn chrono_parse_ymd(s: &str) -> (r: Option<i32>)
    ensures
        r == spec_parse_ymd(s@),
        r matches Some(d) ==> valid_day(d as int),
{
    let d = chrono::NaiveDate::parse_from_str(s, "%Y-%m-%d").ok()?;
    Some(d.num_days_from_ce())
}

/// Calls `NaiveDate::checked_add_days(Days::new(n))`. Claims what chrono
/// documents: the date `n` days later, `None` when that leaves chrono's
/// range (and `None` for a day number outside the range).
#[verifier::external_body]
fn chrono_add_days(day: i32, n: u64) -> (r: Option<i32>)
    ensures
        r == (if valid_day(day as int) && valid_day(day + n) {
            Some((day + n) as i32)
        } else {
            None::<i32>
        }),
{
    let d = chrono::NaiveDate::from_num_days_from_ce_opt(day)?;
    let e = d.checked_add_days(chrono::Days::new(n))?;
    Some(e.num_days_from_ce())
}

/// Calls `NaiveDate::checked_sub_days(Days::new(n))`. Claims what chrono
/// documents: the date `n` days earlier, `None` when that leaves chrono's
/// range (and `None` for a day number outside the range).
#[verifier::external_body]
fn chrono_sub_days(day: i32, n: u64) -> (r: Option<i32>)
    ensures
        r == (if valid_day(day as int) && valid_day(day - n) {
            Some((day - n) as i32)
        } else {
            None::<i32>
        }),
{
    let d = chrono::NaiveDate::from_num_days_from_ce_opt(day)?;
    let e = d.checked_sub_days(chrono::Days::new(n))?;
    Some(e.num_days_from_ce())
}

/// Calls `NaiveDate::checked_add_months(Months::new(n))`. Claims: the
/// result is the named value, lies in chrono's range, is not earlier than
/// the date (the month index grows and the day is only clamped), and adding
/// zero months keeps the date. The clamping to the month's last day is left to
/// the name.
#[verifier::external_body]
fn chrono_add_months(day: i32, n: u32) -> (r: Option<i32>)
    ensures
        r == spec_add_months(day, n),
        r matches Some(x) ==> valid_day(x as int) && day <= x,
        valid_day(day as int) && n == 0 ==> r == Some(day),
        !valid_day(day as int) ==> r is None,
{
    let d = chrono::NaiveDate::from_num_days_from_ce_opt(day)?;
    let e = d.checked_add_months(chrono::Months::new(n))?;
    Some(e.num_days_from_ce())
}

/// Calls `NaiveDate::checked_sub_months(Months::new(n))`. Claims: the
/// result is the named value, lies in chrono's range, is not later than the
/// date (the month index shrinks and the day is only clamped), and
/// subtracting zero months keeps the date. The clamping to the month's last day is left to
/// the name.
#[verifier::external_body]
fn chrono_sub_months(day: i32, n: u32) -> (r: Option<i32>)
    ensures
        r == spec_sub_months(day, n),
        r matches Some(x) ==> valid_day(x as int) && x <= day,
        valid_day(day as int) && n == 0 ==> r == Some(day),
        !valid_day(day as int) ==> r is None,
{
    let d = chrono::NaiveDate::from_num_days_from_ce_opt(day)?;
    let e = d.checked_sub_months(chrono::Months::new(n))?;
    Some(e.num_days_from_ce())
}

/// Calls `Datelike::weekday` and `Weekday::num_days_from_monday`. Claims the
/// calendar fact that day 1 (January 1 of year 1) is a Monday, so the count
/// repeats every seven days from there.
#[verifier::external_body]
fn chrono_days_from_monday(day: i32) -> (r: Option<u32>)
    ensures
        r == (if valid_day(day as int) {
            Some(((day + 6) % 7) as u32)
        } else {
            None::<u32>
        }),
{
    let d = chrono::NaiveDate::from_num_days_from_ce_opt(day)?;
    Some(d.weekday().num_days_from_monday())
}

/// Calls `Datelike::weekday` and `Weekday::num_days_from_sunday`. Claims the
/// calendar fact that day 1 (January 1 of year 1) is a Monday, one day
/// after a Sunday.
#[verifier::external_body]
fn chrono_days_from_sunday(day: i32) -> (r: Option<u32>)
    ensures
        r == (if valid_day(day as int) {
            Some((day % 7) as u32)
        } else {
            None::<u32>
        }),
{
    let d = chrono::NaiveDate::from_num_days_from_ce_opt(day)?;
    Some(d.weekday().num_days_from_sunday())
}

/// Calls `NaiveDate`'s `to_string` (its `Display`). Claims: the text is the
/// named date text, which chrono documents `Display` to be, and it sorts as
/// the days do among four-digit-year dates; `None` only for a day number
/// outside chrono's range.
#[verifier::external_body]
fn chrono_display(day: i32) -> (r: Option<String>)
    ensures
        r is Some <==> valid_day(day as int),
        r matches Some(s) ==> s@ == spec_date_text(day),
        r matches Some(s) ==> text_orders_as_day(day, s@),
{
    let d = chrono::NaiveDate::from_num_days_from_ce_opt(day)?;
    Some(d.to_string())
}

/// Calls `NaiveDate::format("%Y-%m-%d")` and renders it. Claims: the text
/// is the named date text, and it sorts as the days do among
/// four-digit-year dates; `None` only for a day number outside chrono's
/// range.
#[verifier::external_body]
fn chrono_format_ymd(day: i32) -> (r: Option<String>)
    ensures
        r is Some <==> valid_day(day as int),
        r matches Some(s) ==> s@ == spec_date_text(day),
        r matches Some(s) ==> text_orders_as_day(day, s@),
{
    let d = chrono::NaiveDate::from_num_days_from_ce_opt(day)?;
    Some(d.format("%Y-%m-%d").to_string())
}

/// A date of the proleptic Gregorian calendar that chrono can hold, viewed
/// as its day number.
#[derive(Clone, Copy, Debug, PartialEq, Eq)]
pub struct Date {
    days: i32,
}

impl View for Date {
    type V = int;

    closed spec fn view(&self) -> int {
        self.days as int
    }
}

/// The view of an optional date.
pub open spec fn opt_day(d: Option<Date>) -> Option<int> {
    match d {
        Some(x) => Some(x@),
        None => None,
    }
}

/// The view of an optional `i32` day number.
pub open spec fn opt_i32_day(d: Option<i32>) -> Option<int> {
    match d {
        Some(x) => Some(x as int),
        None => None,
    }
}

/// The date `n` days away from `day` (backwards when `back`), if chrono can
/// hold it.
pub open spec fn shifted_day(day: int, n: int, back: bool) -> Option<int> {
    let t = if back {
        day - n
    } else {
        day + n
    };
    if valid_day(t) {
        Some(t)
    } else {
        None
    }
}

impl Date {
    #[verifier::type_invariant]
    spec fn inv(self) -> bool {
        valid_day(self.days as int)
    }

    /// The day number.
    pub fn day_number(&self) -> (r: i32)
        ensures
            r as int == self@,
            valid_day(r as int),
    {
        proof {
            use_type_invariant(self);
        }
        self.days
    }

    /// Parses `YYYY-MM-DD` as chrono does.
    pub fn parse_ymd(s: &str) -> (r: Option<Date>)
        ensures
            opt_day(r) == opt_i32_day(spec_parse_ymd(s@)),
    {
        match chrono_parse_ymd(s) {
            Some(d) => Some(Date { days: d }),
            None => None,
        }
    }

    /// The date `n` days later, if chrono can hold it.
    pub fn add_days(&self, n: u64) -> (r: Option<Date>)
        ensures
            opt_day(r) == shifted_day(self@, n as int, false),
    {
        proof {
            use_type_invariant(self);
        }
        match chrono_add_days(self.days, n) {
            Some(d) => Some(Date { days: d }),
            None => None,
        }
    }

    /// The date `n` days earlier, if chrono can hold it.
    pub fn sub_days(&self, n: u64) -> (r: Option<Date>)
        ensures
            opt_day(r) == shifted_day(self@, n as int, true),
    {
        proof {
            use_type_invariant(self);
        }
        match chrono_sub_days(self.days, n) {
            Some(d) => Some(Date { days: d }),
            None => None,
        }
    }

    /// The date `n` months later, clamped to the month's last day.
    pub fn add_months(&self, n: u32) -> (r: Option<Date>)
        ensures
            opt_day(r) == opt_i32_day(spec_add_months(self@ as i32, n)),
            r matches Some(x) ==> self@ <= x@,
            n == 0 ==> opt_day(r) == Some(self@),
    {
        proof {
            use_type_invariant(self);
        }
        match chrono_add_months(self.days, n) {
            Some(d) => Some(Date { days: d }),
            None => None,
        }
    }

    /// The date `n` months earlier, clamped to the month's last day.
    pub fn sub_months(&self, n: u32) -> (r: Option<Date>)
        ensures
            opt_day(r) == opt_i32_day(spec_sub_months(self@ as i32, n)),
            r matches Some(x) ==> x@ <= self@,
            n == 0 ==> opt_day(r) == Some(self@),
    {
        proof {
            use_type_invariant(self);
        }
        match chrono_sub_months(self.days, n) {
            Some(d) => Some(Date { days: d }),
            None => None,
        }
    }

    /// Days since the most recent Monday (0 on a Monday).
    pub fn days_from_monday(&self) -> (r: u32)
        ensures
            r as int == (self@ + 6) % 7,
    {
        proof {
            use_type_invariant(self);
        }
        match chrono_days_from_monday(self.days) {
            Some(w) => w,
            None => 0,
        }
    }

    /// Days since the most recent Sunday (0 on a Sunday).
    pub fn days_from_sunday(&self) -> (r: u32)
        ensures
            r as int == self@ % 7,
    {
        proof {
            use_type_invariant(self);
        }
        match chrono_days_from_sunday(self.days) {
            Some(w) => w,
            None => 0,
        }
    }

    /// The date as chrono displays it (`YYYY-MM-DD` for years 0 to 9999).
    pub fn to_display_string(&self) -> (r: String)
        ensures
            r@ == spec_date_text(self@ as i32),
            text_orders_as_day(self@ as i32, r@),
    {
        proof {
            use_type_invariant(self);
        }
        match chrono_display(self.days) {
            Some(s) => s,
            None => String::new(),
        }
    }

    /// The date formatted with `%Y-%m-%d`, the same text as
    /// [`Date::to_display_string`].
    pub fn format_ymd(&self) -> (r: String)
        ensures
            r@ == spec_date_text(self@ as i32),
            text_orders_as_day(self@ as i32, r@),
    {
        proof {
            use_type_invariant(self);
        }
        match chrono_format_ymd(self.days) {
            Some(s) => s,
            None => String::new(),
        }
    }
}

} // verus!
