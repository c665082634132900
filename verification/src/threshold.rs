//! The `t:` threshold grammar, shared with `due:` filter terms:
//!
//! ```text
//! YYYY-MM-DD      an absolute date
//! [+-]?N u        an offset of N units, u in {d, w, m, b}
//! ```
//!
//! `d` counts days, `w` weeks, `m` months (clamped to the month's last day)
//! and `b` business days (Monday to Friday). No sign means `+`.

use vstd::prelude::*;
use crate::dates::{
    Date, opt_day, opt_i32_day, shifted_day, spec_add_months, spec_parse_ymd, spec_sub_months,
    valid_day,
};
use crate::text::chars_of;

verus! {

/// The unit of a relative offset.
#[derive(Clone, Copy, Debug, PartialEq, Eq, Structural)]
pub enum Unit {
    Day,
    Week,
    Month,
    BusinessDay,
}

/// A parsed threshold value.
#[derive(Clone, Copy, Debug)]
pub enum ThresholdSpec {
    /// A fixed date.
    Absolute(Date),
    /// `amount` units after (or, when `before`, before) an anchor date.
    Relative { before: bool, amount: u32, unit: Unit },
}

/// What a threshold value denotes, with the date as its day number.
pub enum ThresholdView {
    Absolute(int),
    Relative { before: bool, amount: nat, unit: Unit },
}

impl View for ThresholdSpec {
    type V = ThresholdView;

    open spec fn view(&self) -> ThresholdView {
        match self {
            ThresholdSpec::Absolute(d) => ThresholdView::Absolute(d@),
            ThresholdSpec::Relative { before, amount, unit } => ThresholdView::Relative {
                before: *before,
                amount: *amount as nat,
                unit: *unit,
            },
        }
    }
}

pub open spec fn opt_threshold(t: Option<ThresholdSpec>) -> Option<ThresholdView> {
    match t {
        Some(x) => Some(x@),
        None => None,
    }
}

pub open spec fn is_digit(c: char) -> bool {
    '0' <= c <= '9'
}

pub open spec fn digit_value(c: char) -> int {
    c as int - '0' as int
}

/// The number written by a sequence of decimal digits.
pub open spec fn digits_value(ds: Seq<char>) -> nat
    decreases ds.len(),
{
    if ds.len() == 0 {
        0
    } else {
        (digits_value(ds.drop_last()) * 10 + digit_value(ds.last())) as nat
    }
}

pub open spec fn unit_of(c: char) -> Option<Unit> {
    if c == 'd' {
        Some(Unit::Day)
    } else if c == 'w' {
        Some(Unit::Week)
    } else if c == 'm' {
        Some(Unit::Month)
    } else if c == 'b' {
        Some(Unit::BusinessDay)
    } else {
        None
    }
}

/// Length of the sign prefix of an offset (0 or 1).
pub open spec fn sign_len(s: Seq<char>) -> int {
    if s.len() > 0 && (s[0] == '+' || s[0] == '-') {
        1
    } else {
        0
    }
}

/// The offset form `[+-]?N u`: sign, at least one digit, one unit letter,
/// and an amount that fits in `u32`.
pub open spec fn relative_form(s: Seq<char>) -> Option<ThresholdView> {
    let start = sign_len(s);
    let ds = s.subrange(start, s.len() - 1);
    if s.len() >= start + 2 && (forall|k: int| 0 <= k < ds.len() ==> is_digit(#[trigger] ds[k]))
        && unit_of(s.last()) is Some && digits_value(ds) <= u32::MAX {
        Some(
            ThresholdView::Relative {
                before: start == 1 && s[0] == '-',
                amount: digits_value(ds),
                unit: unit_of(s.last())->0,
            },
        )
    } else {
        None
    }
}

/// What a threshold value parses to: a chrono-parsed date first, else the
/// offset form.
pub open spec fn threshold_of(s: Seq<char>) -> Option<ThresholdView> {
    match spec_parse_ymd(s) {
        Some(d) => Some(ThresholdView::Absolute(d as int)),
        None => relative_form(s),
    }
}

fn unit_char(c: char) -> (r: Option<Unit>)
    ensures
        r == unit_of(c),
{
    if c == 'd' {
        Some(Unit::Day)
    } else if c == 'w' {
        Some(Unit::Week)
    } else if c == 'm' {
        Some(Unit::Month)
    } else if c == 'b' {
        Some(Unit::BusinessDay)
    } else {
        None
    }
}

proof fn lemma_digits_value_push(ds: Seq<char>, c: char)
    ensures
        digits_value(ds.push(c)) == (digits_value(ds) * 10 + digit_value(c)) as nat,
{
    assert(ds.push(c).drop_last() =~= ds);
}

proof fn lemma_digits_value_mono(ds: Seq<char>, i: int)
    requires
        0 <= i <= ds.len(),
        forall|k: int| 0 <= k < ds.len() ==> is_digit(#[trigger] ds[k]),
    ensures
        digits_value(ds.subrange(0, i)) <= digits_value(ds),
    decreases ds.len() - i,
{
    if i < ds.len() {
        lemma_digits_value_mono(ds, i + 1);
        assert(ds.subrange(0, i + 1).drop_last() =~= ds.subrange(0, i));
        assert(is_digit(ds[i]));
    } else {
        assert(ds.subrange(0, i) =~= ds);
    }
}

/// Parses a threshold value (`YYYY-MM-DD` or `[+-]?N u`).
pub fn parse_threshold(raw: &str) -> (r: Option<ThresholdSpec>)
    ensures
        opt_threshold(r) == threshold_of(raw@),
{
    if let Some(d) = Date::parse_ymd(raw) {
        return Some(ThresholdSpec::Absolute(d));
    }
    let cs = chars_of(raw);
    let n = cs.len();
    let start: usize = if n > 0 && (cs[0] == '+' || cs[0] == '-') {
        1
    } else {
        0
    };
    if n < start + 2 {
        return None;
    }
    let unit = match unit_char(cs[n - 1]) {
        Some(u) => u,
        None => return None,
    };
    let ghost ds = cs@.subrange(start as int, n - 1);
    let mut value: u32 = 0;
    let mut i: usize = start;
    while i < n - 1
        invariant
            cs@ == raw@,
            n == cs@.len(),
            start <= i <= n - 1,
            ds == cs@.subrange(start as int, n - 1),
            spec_parse_ymd(raw@) is None,
            start as int == sign_len(raw@),
            n >= start + 2,
            unit_of(raw@.last()) == Some(unit),
            forall|k: int| 0 <= k < i - start ==> is_digit(#[trigger] ds[k]),
            value as nat == digits_value(ds.subrange(0, i - start)),
        decreases n - 1 - i,
    {
        let c = cs[i];
        if !('0' <= c && c <= '9') {
            proof {
                assert(ds[i - start] == c);
                assert(!is_digit(ds[i - start]));
            }
            return None;
        }
        let dv: u32 = (c as u32) - ('0' as u32);
        proof {
            assert(ds[i - start] == c);
            assert(ds.subrange(0, i - start + 1) =~= ds.subrange(0, i - start).push(c));
            lemma_digits_value_push(ds.subrange(0, i - start), c);
        }
        if value > 429496729 || (value == 429496729 && dv > 5) {
            proof {
                if forall|k: int| 0 <= k < ds.len() ==> is_digit(#[trigger] ds[k]) {
                    lemma_digits_value_mono(ds, i - start + 1);
                }
            }
            return None;
        }
        value = value * 10 + dv;
        i = i + 1;
    }
    proof {
        assert(ds.subrange(0, ds.len() as int) =~= ds);
    }
    Some(ThresholdSpec::Relative { before: start == 1 && cs[0] == '-', amount: value, unit })
}


/// Monday to Friday.
pub open spec fn is_weekday(day: int) -> bool {
    (day + 6) % 7 < 5
}

/// The neighbouring day in the walking direction.
pub open spec fn next_day(day: int, back: bool) -> int {
    if back {
        day - 1
    } else {
        day + 1
    }
}

/// The first weekday after `day` (before it, when `back`). A weekend is
/// two days long, so it is one of the next three days.
pub open spec fn next_business_day(day: int, back: bool) -> int {
    let d1 = next_day(day, back);
    let d2 = next_day(d1, back);
    let d3 = next_day(d2, back);
    if is_weekday(d1) {
        d1
    } else if is_weekday(d2) {
        d2
    } else {
        d3
    }
}

/// The day `n` business days after `day` (before it, when `back`).
pub open spec fn business_target(day: int, n: nat, back: bool) -> int
    decreases n,
{
    if n == 0 {
        day
    } else {
        next_business_day(business_target(day, (n - 1) as nat, back), back)
    }
}

pub proof fn lemma_business_target_monotone(day: int, k: nat, m: nat, back: bool)
    requires
        k <= m,
    ensures
        back ==> business_target(day, m, back) <= business_target(day, k, back) - (m - k),
        !back ==> business_target(day, m, back) >= business_target(day, k, back) + (m - k),
    decreases m,
{
    if k < m {
        lemma_business_target_monotone(day, k, (m - 1) as nat, back);
    }
}

/// The date a threshold denotes, taking relative offsets from `today`.
pub open spec fn resolved_at(t: ThresholdView, today: int) -> Option<int> {
    match t {
        ThresholdView::Absolute(d) => Some(d),
        ThresholdView::Relative { before, amount, unit } => match unit {
            Unit::Day => shifted_day(today, amount as int, before),
            Unit::Week => shifted_day(today, 7 * amount as int, before),
            Unit::Month => if before {
                opt_i32_day(spec_sub_months(today as i32, amount as u32))
            } else {
                opt_i32_day(spec_add_months(today as i32, amount as u32))
            },
            Unit::BusinessDay => {
                let target = business_target(today, amount, before);
                if valid_day(target) {
                    Some(target)
                } else {
                    None
                }
            },
        },
    }
}

fn step_day(d: &Date, back: bool) -> (r: Option<Date>)
    ensures
        opt_day(r) == shifted_day(d@, 1, back),
{
    if back {
        d.sub_days(1)
    } else {
        d.add_days(1)
    }
}

fn walk_business_days(start: Date, n: u32, back: bool) -> (r: Option<Date>)
    ensures
        opt_day(r) == (if valid_day(business_target(start@, n as nat, back)) {
            Some(business_target(start@, n as nat, back))
        } else {
            None
        }),
{
    let _ = start.day_number();
    let mut cur = start;
    let mut k: u32 = 0;
    while k < n
        invariant
            k <= n,
            cur@ == business_target(start@, k as nat, back),
            valid_day(cur@),
        decreases n - k,
    {
        let ghost before_step = cur@;
        proof {
            lemma_business_target_monotone(start@, (k + 1) as nat, n as nat, back);
        }
        let mut c = match step_day(&cur, back) {
            Some(x) => x,
            None => return None,
        };
        if c.days_from_monday() >= 5 {
            c = match step_day(&c, back) {
                Some(x) => x,
                None => return None,
            };
            if c.days_from_monday() >= 5 {
                c = match step_day(&c, back) {
                    Some(x) => x,
                    None => return None,
                };
            }
        }
        assert(c@ == next_business_day(before_step, back));
        cur = c;
        k = k + 1;
    }
    let _ = cur.day_number();
    Some(cur)
}

/// A backward offset never lands after its anchor, a forward one never
/// before it.
pub open spec fn relative_direction_holds(t: ThresholdView, anchor: int, b: int) -> bool {
    match t {
        ThresholdView::Absolute(_) => true,
        ThresholdView::Relative { before, .. } => if before {
            b <= anchor
        } else {
            anchor <= b
        },
    }
}

/// The date `spec` denotes when relative offsets are taken from `today`.
pub fn resolve_at(spec: &ThresholdSpec, today: Date) -> (r: Option<Date>)
    ensures
        opt_day(r) == resolved_at(spec@, today@),
        r matches Some(b) ==> relative_direction_holds(spec@, today@, b@),
{
    let _ = today.day_number();
    proof {
        if let ThresholdSpec::Relative { before, amount, .. } = spec {
            lemma_business_target_monotone(today@, 0, *amount as nat, *before);
        }
    }
    match spec {
        ThresholdSpec::Absolute(d) => Some(*d),
        ThresholdSpec::Relative { before, amount, unit } => match unit {
            Unit::Day => if *before {
                today.sub_days(*amount as u64)
            } else {
                today.add_days(*amount as u64)
            },
            Unit::Week => if *before {
                today.sub_days(7 * (*amount as u64))
            } else {
                today.add_days(7 * (*amount as u64))
            },
            Unit::Month => if *before {
                today.sub_months(*amount)
            } else {
                today.add_months(*amount)
            },
            Unit::BusinessDay => walk_business_days(today, *amount, *before),
        },
    }
}

/// Day and week offsets, in terms of day numbers: `n` days after (before)
/// today is the day `n` later (earlier), and `n` weeks is `7n` days, in
/// both directions; `None` when chrono cannot hold that day.
pub proof fn law_day_and_week_offsets(today: int, n: nat, before: bool)
    ensures
        resolved_at(ThresholdView::Relative { before, amount: n, unit: Unit::Day }, today) == (
        if before {
            if valid_day(today - n) {
                Some(today - n)
            } else {
                None
            }
        } else {
            if valid_day(today + n) {
                Some(today + n)
            } else {
                None
            }
        }),
        resolved_at(ThresholdView::Relative { before, amount: n, unit: Unit::Week }, today) == (
        if before {
            if valid_day(today - 7 * n) {
                Some(today - 7 * n)
            } else {
                None
            }
        } else {
            if valid_day(today + 7 * n) {
                Some(today + 7 * n)
            } else {
                None
            }
        }),
        resolved_at(ThresholdView::Relative { before, amount: n, unit: Unit::Week }, today)
            == resolved_at(
            ThresholdView::Relative { before, amount: 7 * n, unit: Unit::Day },
            today,
        ),
{
}

/// The first of `due`, `created` that parses as a date: the anchor of a
/// relative threshold.
pub open spec fn anchor_of(due: Option<Seq<char>>, created: Option<Seq<char>>) -> Option<int> {
    let d = match due {
        Some(s) => opt_i32_day(spec_parse_ymd(s)),
        None => None,
    };
    match d {
        Some(x) => Some(x),
        None => match created {
            Some(s) => opt_i32_day(spec_parse_ymd(s)),
            None => None,
        },
    }
}

/// The view of an optional string slice.
pub open spec fn opt_str(s: Option<&str>) -> Option<Seq<char>> {
    match s {
        Some(x) => Some(x@),
        None => None,
    }
}

/// The date a task's threshold denotes: an absolute date as is, a relative
/// offset taken from the task's due date, else from its creation date.
/// `None` when a relative offset has no parseable anchor or leaves chrono's
/// range.
pub open spec fn resolved(t: ThresholdView, due: Option<Seq<char>>, created: Option<Seq<char>>) -> Option<int> {
    match t {
        ThresholdView::Absolute(d) => Some(d),
        ThresholdView::Relative { .. } => match anchor_of(due, created) {
            Some(a) => resolved_at(t, a),
            None => None,
        },
    }
}

/// A relative threshold counts from the due date whenever the due value
/// parses as a date, whatever the creation date.
pub proof fn law_threshold_counts_from_due(
    t: ThresholdView,
    due: Seq<char>,
    created: Option<Seq<char>>,
    d: i32,
)
    requires
        t is Relative,
        spec_parse_ymd(due) == Some(d),
    ensures
        resolved(t, Some(due), created) == resolved_at(t, d as int),
{
}

/// Without a parseable due date, a relative threshold counts from the
/// creation date; with neither it resolves to nothing. An absolute
/// threshold ignores both.
pub proof fn law_threshold_fallback_anchor(
    t: ThresholdView,
    due: Option<Seq<char>>,
    created: Option<Seq<char>>,
)
    requires
        due is None || spec_parse_ymd(due->0) is None,
    ensures
        t is Absolute ==> resolved(t, due, created) == Some(t->Absolute_0),
        t is Relative && created is Some && spec_parse_ymd(created->0) is Some ==> resolved(
            t,
            due,
            created,
        ) == resolved_at(t, spec_parse_ymd(created->0)->0 as int),
        t is Relative && (created is None || spec_parse_ymd(created->0) is None) ==> resolved(
            t,
            due,
            created,
        ) is None,
{
}

fn parse_opt(s: Option<&str>) -> (r: Option<Date>)
    ensures
        opt_day(r) == match opt_str(s) {
            Some(x) => opt_i32_day(spec_parse_ymd(x)),
            None => None,
        },
{
    match s {
        Some(x) => Date::parse_ymd(x),
        None => None,
    }
}

/// Resolves a task's threshold against its due date (or, failing that, its
/// creation date).
pub fn resolve(spec: &ThresholdSpec, due: Option<&str>, created: Option<&str>) -> (r: Option<Date>)
    ensures
        opt_day(r) == resolved(spec@, opt_str(due), opt_str(created)),
{
    match spec {
        ThresholdSpec::Absolute(d) => Some(*d),
        ThresholdSpec::Relative { .. } => {
            let anchor = match parse_opt(due) {
                Some(d) => Some(d),
                None => parse_opt(created),
            };
            match anchor {
                Some(a) => resolve_at(spec, a),
                None => None,
            }
        },
    }
}

} // verus!
