//! Parsing for `due:` filter terms.
//!
//! Extends `due:` filtering beyond an exact `YYYY-MM-DD` match to ranges
//! anchored on today, reusing the `t:` threshold grammar (see
//! [`crate::threshold`]) so `due:` and `t:` offsets mean the same thing:
//!
//! ```text
//! due:YYYY-MM-DD   // exact match — a single-day range
//! due:[+-]?Nu       // range from today to the offset, u ∈ {d, w, m, b}
//! ```
//!
//! `due:+1w` matches tasks due between today and 7 days from now
//! (inclusive). `due:-3d` matches tasks due between 3 days ago and today.
//! No sign defaults to `+` (forward), matching `t:`'s convention.

use vstd::prelude::*;
use crate::dates::{Date, four_digit_year_day, spec_date_text, text_orders_as_day, valid_day};
use crate::text::{lex_le, lex_lt};
use crate::threshold::{
    ThresholdSpec, ThresholdView, Unit, parse_threshold, resolve_at,
    resolved_at, threshold_of,
};

verus! {

/// The inclusive day range a `due:` value selects on day `today`: an
/// absolute date is a single day; an offset spans from today to the date it
/// resolves to (or from that date to today, for a backward offset).
pub open spec fn due_days(value: Seq<char>, today: int) -> Option<(int, int)> {
    match threshold_of(value) {
        None => None,
        Some(ThresholdView::Absolute(d)) => Some((d, d)),
        Some(t) => match resolved_at(t, today) {
            None => None,
            Some(b) => if t->before {
                Some((b, today))
            } else {
                Some((today, b))
            },
        },
    }
}

/// The range of a `due:` offset of `n` days or weeks, in day numbers: a
/// backward offset spans from `n` days (`7n` for weeks) before today to
/// today, a forward one from today to `n` days (`7n`) after; `None` when
/// chrono cannot hold the far end.
pub proof fn law_due_day_and_week_ranges(value: Seq<char>, today: int, before: bool, n: nat, unit: Unit)
    requires
        threshold_of(value) == Some(ThresholdView::Relative { before, amount: n, unit }),
        unit == Unit::Day || unit == Unit::Week,
    ensures
        ({
            let len: int = if unit == Unit::Week {
                7 * (n as int)
            } else {
                n as int
            };
            let far = if before {
                today - len
            } else {
                today + len
            };
            due_days(value, today) == if !valid_day(far) {
                None::<(int, int)>
            } else if before {
                Some((far, today))
            } else {
                Some((today, far))
            }
        }),
{
}

/// Whether a range, if any, runs forward.
pub open spec fn ordered(r: Option<(int, int)>) -> bool {
    match r {
        Some(p) => p.0 <= p.1,
        None => true,
    }
}

/// The range as the pair of `%Y-%m-%d` strings that tasks' `due:` values
/// are compared against.
pub open spec fn due_range_text(value: Seq<char>, today: int) -> Option<(Seq<char>, Seq<char>)> {
    match due_days(value, today) {
        None => None,
        Some((f, t)) => Some((spec_date_text(f as i32), spec_date_text(t as i32))),
    }
}

/// The view of an optional pair of strings.
pub open spec fn opt_pair(r: Option<(String, String)>) -> Option<(Seq<char>, Seq<char>)> {
    match r {
        Some((a, b)) => Some((a@, b@)),
        None => None,
    }
}

/// Parse the *value* of a `due:` filter term (e.g. `"2026-08-01"`, `"+1w"`,
/// `"-3d"`) into an inclusive `(from, to)` ISO-date range to compare against
/// a task's `due:` field. An absolute date becomes a single-day range.
/// Returns `None` for unrecognized forms — callers fall back to treating the
/// term as literal search text.
pub fn parse_due_range(value: &str, today: Date) -> (r: Option<(String, String)>)
    ensures
        opt_pair(r) == due_range_text(value@, today@),
        ordered(due_days(value@, today@)),
        (due_days(value@, today@) matches Some((f, t)) && four_digit_year_day(f)
            && four_digit_year_day(t)) ==> (r matches Some((from, to)) && lex_le(from@, to@)),
{
    let spec = match parse_threshold(value) {
        Some(s) => s,
        None => return None,
    };
    match spec {
        ThresholdSpec::Absolute(d) => {
            let s = iso(d);
            let s2 = s.clone();
            Some((s2, s))
        },
        ThresholdSpec::Relative { before, .. } => {
            let bound = match resolve_at(&spec, today) {
                Some(b) => b,
                None => return None,
            };
            let (from, to) = if before {
                (bound, today)
            } else {
                (today, bound)
            };
            let a = iso(from);
            let b = iso(to);
            proof {
                if from@ != to@ && four_digit_year_day(from@) && four_digit_year_day(to@) {
                    assert(lex_lt(spec_date_text(from@ as i32), b@));
                }
            }
            Some((a, b))
        },
    }
}

/// A date as `%Y-%m-%d`.
fn iso(d: Date) -> (s: String)
    ensures
        s@ == spec_date_text(d@ as i32),
        text_orders_as_day(d@ as i32, s@),
{
    d.format_ymd()
}

} // verus!
