//! Pure filtering, sorting, and grouping helpers over `[Task]`.
//!
//! These take plain data (`&Task` / `&[Task]` + `Filter`/`Sort` + flags) and
//! return decisions or orderings. They hold no view state, so both the TUI's
//! `recompute_visible` (which owns the visible-index cache) and list
//! commands reuse them.

use vstd::prelude::*;
use crate::app::{Filter, FilterView, Sort, WeekStart};
use crate::dates::{Date, four_digit_year_day, spec_date_text, spec_parse_ymd, valid_day};
use crate::due_filter::{due_range_text, opt_pair, parse_due_range};
use crate::search::{subseq_ci, subseq_match_ci};
use crate::text::{
    chars_eq, chars_lt, chars_of, chars_start_with, has_prefix, join_spaced, join_with_spaces,
    lemma_lex_asymmetric, lemma_lex_irreflexive, lemma_lex_total, lemma_lex_transitive, lex_le, lex_lt, split_whitespace, str_eq, str_le,
    str_lt, views, words,
};
use crate::threshold::{opt_str, parse_threshold, resolve, resolved, threshold_of};
use crate::todo::{Task, TaskView, body_after_priority, body_after_priority_of, task_views};

verus! {

/// Which canonical bucket a List-view row belongs to when the active sort is
/// `Sort::Due`. `NoDue` covers tasks with no `due:` tag.
#[derive(Debug, Clone, Copy, PartialEq, Eq, Structural)]
pub enum ListDueBucket {
    Overdue,
    Today,
    ThisWeek,
    NextWeek,
    Later,
    NoDue,
}

/// The heading shown above a bucket.
pub open spec fn bucket_label(b: ListDueBucket) -> Seq<char> {
    match b {
        ListDueBucket::Overdue => "OVERDUE"@,
        ListDueBucket::Today => "TODAY"@,
        ListDueBucket::ThisWeek => "THIS WEEK"@,
        ListDueBucket::NextWeek => "NEXT WEEK"@,
        ListDueBucket::Later => "LATER"@,
        ListDueBucket::NoDue => "NO DUE DATE"@,
    }
}

impl ListDueBucket {
    pub fn label(self) -> (r: &'static str)
        ensures
            r@ == bucket_label(self),
    {
        match self {
            ListDueBucket::Overdue => "OVERDUE",
            ListDueBucket::Today => "TODAY",
            ListDueBucket::ThisWeek => "THIS WEEK",
            ListDueBucket::NextWeek => "NEXT WEEK",
            ListDueBucket::Later => "LATER",
            ListDueBucket::NoDue => "NO DUE DATE",
        }
    }
}

/// Days from the start of the week to the day with number `d`.
pub open spec fn days_into_week(d: int, week_start: WeekStart) -> int {
    match week_start {
        WeekStart::Sunday => d % 7,
        WeekStart::Monday => (d + 6) % 7,
    }
}

/// Day numbers of the last day of this week and of next week.
pub open spec fn week_end_days(d: int, week_start: WeekStart) -> (int, int) {
    let til = 6 - days_into_week(d, week_start);
    (d + til, d + til + 7)
}

/// The last day of the week containing `today`, and of the week after, as
/// chrono displays them; `None` when `today` does not parse or the dates
/// leave chrono's range.
pub open spec fn week_cutoffs(today: Seq<char>, week_start: WeekStart) -> Option<(Seq<char>, Seq<char>)> {
    match spec_parse_ymd(today) {
        None => None,
        Some(d) => {
            let (e1, e2) = week_end_days(d as int, week_start);
            if valid_day(e1) && valid_day(e2) {
                Some((spec_date_text(e1 as i32), spec_date_text(e2 as i32)))
            } else {
                None
            }
        },
    }
}

/// The view of an optional pair of strings.
pub open spec fn opt_pair_view(r: Option<(String, String)>) -> Option<(Seq<char>, Seq<char>)> {
    match r {
        Some((a, b)) => Some((a@, b@)),
        None => None,
    }
}

/// `today` is the `YYYY-MM-DD` text of a day with a four-digit year, and
/// the week after it also ends within four-digit years.
pub open spec fn canonical_today(today: Seq<char>) -> bool {
    &&& spec_parse_ymd(today) is Some
    &&& spec_date_text(spec_parse_ymd(today)->0) == today
    &&& four_digit_year_day(spec_parse_ymd(today)->0 as int)
    &&& four_digit_year_day(spec_parse_ymd(today)->0 + 13)
}

pub fn get_week_cutoff(today: &str, week_start: &WeekStart) -> (r: Option<(String, String)>)
    ensures
        opt_pair_view(r) == week_cutoffs(today@, *week_start),
        canonical_today(today@) ==> (r matches Some((a, b)) && lex_le(today@, a@) && lex_lt(a@, b@)),
{
    let ghost text = today@;
    let today_date = match Date::parse_ymd(today) {
        Some(d) => d,
        None => return None,
    };
    let days_from_start_week = match week_start {
        WeekStart::Sunday => today_date.days_from_sunday(),
        WeekStart::Monday => today_date.days_from_monday(),
    };
    let days_til_week_end = 6 - days_from_start_week;
    let end_this_week = match today_date.add_days(days_til_week_end as u64) {
        Some(d) => d,
        None => return None,
    };
    let end_next_week = match today_date.add_days((days_til_week_end + 7) as u64) {
        Some(d) => d,
        None => return None,
    };
    let a = end_this_week.to_display_string();
    let b = end_next_week.to_display_string();
    proof {
        if canonical_today(text) {
            let t = today_date@ as i32;
            assert(spec_date_text(t) == text);
            assert(lex_lt(a@, spec_date_text(end_next_week@ as i32)));
            if today_date@ != end_this_week@ {
                assert(lex_lt(spec_date_text(t), a@));
            }
        }
    }
    Some((a, b))
}

/// The bucket of a task with due value `due` on day `today`. Due values
/// are compared as strings, so a malformed one still lands somewhere; if
/// the week cutoffs cannot be computed a dated task lands in `Later`.
pub open spec fn bucket_of(due: Option<Seq<char>>, today: Seq<char>, week_start: WeekStart) -> ListDueBucket {
    match due {
        None => ListDueBucket::NoDue,
        Some(d) => match week_cutoffs(today, week_start) {
            None => ListDueBucket::Later,
            Some((this_week, next_week)) => if lex_lt(d, today) {
                ListDueBucket::Overdue
            } else if d == today {
                ListDueBucket::Today
            } else if lex_le(d, this_week) {
                ListDueBucket::ThisWeek
            } else if lex_le(d, next_week) {
                ListDueBucket::NextWeek
            } else {
                ListDueBucket::Later
            },
        },
    }
}

/// If the date cannot be parsed we assign to Later
pub fn due_bucket(task: &Task, today: &str, week_start: &WeekStart) -> (r: ListDueBucket)
    ensures
        r == bucket_of(task@.due, today@, *week_start),
{
    match &task.due {
        None => ListDueBucket::NoDue,
        Some(d) => {
            let (this_week, next_week) = match get_week_cutoff(today, week_start) {
                Some(p) => p,
                None => return ListDueBucket::Later,
            };
            if str_lt(d.as_str(), today) {
                ListDueBucket::Overdue
            } else if str_eq(d.as_str(), today) {
                ListDueBucket::Today
            } else if str_le(d.as_str(), this_week.as_str()) {
                ListDueBucket::ThisWeek
            } else if str_le(d.as_str(), next_week.as_str()) {
                ListDueBucket::NextWeek
            } else {
                ListDueBucket::Later
            }
        },
    }
}


/// A search string resolved once per query: the literal text to
/// subsequence-match, plus an inclusive `due:` range if the query had a
/// parseable `due:` term. Building this is not free — a `due:` value can
/// drive a business-day walk in [`crate::threshold`] — so callers resolve it
/// once per search change via [`resolve_needle`] and reuse it across every
/// task, rather than re-parsing per task inside [`passes_user_filter`].
pub struct ResolvedNeedle {
    /// Remaining free text to subsequence-match against the task body — the
    /// original search with any parsed `due:` term removed. Equal to the
    /// original search string when no `due:` term parsed.
    pub text: String,
    /// The inclusive `(from, to)` range of the parsed `due:` term, if any.
    pub due_range: Option<(String, String)>,
}

impl ResolvedNeedle {
    /// The free text.
    pub open spec fn text_view(&self) -> Seq<char> {
        self.text@
    }

    /// The inclusive `due:` range, if the query had one.
    pub open spec fn range(&self) -> Option<(Seq<char>, Seq<char>)> {
        opt_pair(self.due_range)
    }
}

/// The view of an optional resolved needle: its text and range.
pub open spec fn needle_view(n: Option<&ResolvedNeedle>) -> Option<(Seq<char>, Option<(Seq<char>, Seq<char>)>)> {
    match n {
        Some(x) => Some((x.text_view(), x.range())),
        None => None,
    }
}

pub open spec fn due_key() -> Seq<char> {
    seq!['d', 'u', 'e', ':']
}

/// Position of the first word, from `i` on, that is a `due:` term whose
/// value parses as a due range on day `today`.
pub open spec fn first_due_term(ws: Seq<Seq<char>>, today: int, i: int) -> Option<int>
    decreases ws.len() - i,
{
    if i < 0 || i >= ws.len() {
        None
    } else if has_prefix(ws[i], due_key()) && due_range_text(ws[i].skip(4), today) is Some {
        Some(i)
    } else {
        first_due_term(ws, today, i + 1)
    }
}

/// The first parseable `due:` term of `needle` pulled out: the other words
/// joined with single spaces, and the term's range. `None` when `today`
/// does not parse or no term parses.
pub open spec fn extracted(needle: Seq<char>, today: Seq<char>) -> Option<(Seq<char>, (Seq<char>, Seq<char>))> {
    match spec_parse_ymd(today) {
        None => None,
        Some(td) => {
            let ws = words(needle);
            match first_due_term(ws, td as int, 0) {
                None => None,
                Some(k) => Some(
                    (join_spaced(ws.remove(k)), due_range_text(ws[k].skip(4), td as int)->0),
                ),
            }
        },
    }
}

/// The view of an extraction result.
pub open spec fn extraction_view(r: Option<(String, (String, String))>) -> Option<(Seq<char>, (Seq<char>, Seq<char>))> {
    match r {
        Some((rest, (a, b))) => Some((rest@, (a@, b@))),
        None => None,
    }
}

proof fn lemma_first_due_term_skip(ws: Seq<Seq<char>>, today: int, i: int)
    requires
        0 <= i < ws.len(),
        !(has_prefix(ws[i], due_key()) && due_range_text(ws[i].skip(4), today) is Some),
    ensures
        first_due_term(ws, today, i) == first_due_term(ws, today, i + 1),
{
}

proof fn lemma_first_due_term_at_least(ws: Seq<Seq<char>>, today: int, i: int)
    ensures
        first_due_term(ws, today, i) matches Some(j) ==> i <= j < ws.len(),
    decreases ws.len() - i,
{
    if 0 <= i < ws.len() {
        lemma_first_due_term_at_least(ws, today, i + 1);
    }
}

proof fn lemma_first_due_term_found(ws: Seq<Seq<char>>, today: int, i: int, k: int)
    requires
        0 <= i <= k,
        first_due_term(ws, today, i) == Some(k),
    ensures
        k < ws.len(),
        has_prefix(ws[k], due_key()),
        due_range_text(ws[k].skip(4), today) is Some,
    decreases k - i,
{
    lemma_first_due_term_at_least(ws, today, i + 1);
    lemma_first_due_term_at_least(ws, today, i);
    if i < k {
        if !(has_prefix(ws[i], due_key()) && due_range_text(ws[i].skip(4), today) is Some) {
            lemma_first_due_term_found(ws, today, i + 1, k);
        }
    }
}

/// Pull the first parseable `due:` term out of `needle`, if any, returning
/// the remaining text plus the resolved `(from, to)` range. An unparseable
/// `due:` term is left in place as literal text. `None` when nothing parses,
/// so callers with no `due:` usage see unchanged matching behavior.
fn extract_due_range(needle: &str, today: &str) -> (r: Option<(String, (String, String))>)
    ensures
        extraction_view(r) == extracted(needle@, today@),
{
    let today_date = match Date::parse_ymd(today) {
        Some(d) => d,
        None => return None,
    };
    let ghost td = today_date@;
    let terms = split_whitespace(needle);
    let ghost ws = words(needle@);
    let key: Vec<char> = vec!['d', 'u', 'e', ':'];
    assert(key@ =~= due_key());
    let mut found: Option<(String, String)> = None;
    let ghost mut found_at: int = 0;
    let mut rest: Vec<String> = Vec::new();
    let mut i: usize = 0;
    while i < terms.len()
        invariant
            views(terms@) == ws,
            ws == words(needle@),
            key@ == due_key(),
            td == today_date@,
            i <= terms.len(),
            found is None ==> first_due_term(ws, td, 0) == first_due_term(ws, td, i as int),
            found is None ==> views(rest@) =~= ws.take(i as int),
            found is Some ==> 0 <= found_at < i && first_due_term(ws, td, 0) == Some(found_at)
                && views(rest@) =~= ws.take(i as int).remove(found_at) && opt_pair(found)
                == due_range_text(ws[found_at].skip(4), td),
        decreases terms.len() - i,
    {
        let term = &terms[i];
        assert(ws[i as int] == term@);
        let mut parsed: Option<(String, String)> = None;
        if found.is_none() {
            let tc = chars_of(term.as_str());
            if chars_start_with(&tc, &key) {
                let n = term.unicode_len();
                let value = term.as_str().substring_char(4, n);
                assert(value@ =~= term@.skip(4));
                parsed = parse_due_range(value, today_date);
                assert(opt_pair(parsed) == due_range_text(value@, td));
                assert(value@ == ws[i as int].skip(4));
            } else {
                assert(!has_prefix(ws[i as int], due_key()));
            }
        }
        if parsed.is_some() {
            proof {
                found_at = i as int;
                assert(ws.take(i as int + 1).remove(i as int) =~= ws.take(i as int));
            }
            found = parsed;
        } else {
            proof {
                if found is None {
                    lemma_first_due_term_skip(ws, td, i as int);
                } else {
                    assert(ws.take(i as int + 1).remove(found_at) =~= ws.take(i as int).remove(
                        found_at,
                    ).push(term@));
                }
                assert(views(rest@.push(*term)) =~= views(rest@).push(term@));
            }
            rest.push(term.clone());
        }
        i = i + 1;
    }
    proof {
        assert(ws.take(terms.len() as int) =~= ws);
    }
    match found {
        Some(range) => {
            proof {
                lemma_first_due_term_found(ws, td, 0, found_at);
            }
            Some((join_with_spaces(&rest), range))
        },
        None => {
            assert(first_due_term(ws, td, terms.len() as int) is None);
            None
        },
    }
}

/// Resolve `needle` against `today`: pull the first parseable `due:` term out
/// (if any) and compute its inclusive range, leaving the rest as literal
/// search text. An unparseable `due:` term, or a second `due:` term, is left
/// in place as literal text — only the first parseable one is honored.
pub fn resolve_needle(needle: &str, today: &str) -> (r: ResolvedNeedle)
    ensures
        match extracted(needle@, today@) {
            Some((rest, range)) => r.text_view() == rest && r.range() == Some(range),
            None => r.text_view() == needle@ && r.range() is None,
        },
{
    match extract_due_range(needle, today) {
        Some((rest, range)) => ResolvedNeedle { text: rest, due_range: Some(range) },
        None => ResolvedNeedle { text: String::from_str(needle), due_range: None },
    }
}

/// Whether a task passes the user's project, context and search filters.
/// A search with a `due:` range admits only tasks whose `due:` value lies in
/// it (compared as strings); remaining search text must be a
/// case-insensitive subsequence of the task's body.
pub open spec fn passes(t: TaskView, f: FilterView, needle: Option<(Seq<char>, Option<(Seq<char>, Seq<char>)>)>) -> bool {
    &&& (f.project matches Some(p) ==> t.projects.contains(p))
    &&& (f.context matches Some(c) ==> t.contexts.contains(c))
    &&& (needle matches Some((text, range)) ==> {
        &&& (range matches Some((from, to)) ==> (t.due matches Some(d) && lex_le(from, d) && lex_le(
            d,
            to,
        )))
        &&& (text.len() > 0 ==> subseq_ci(text, body_after_priority_of(t.raw)))
    })
}

fn contains_str(v: &Vec<String>, x: &String) -> (r: bool)
    ensures
        r == views(v@).contains(x@),
{
    let mut i: usize = 0;
    while i < v.len()
        invariant
            i <= v.len(),
            forall|k: int| 0 <= k < i ==> v@[k]@ != x@,
        decreases v.len() - i,
    {
        if str_eq(v[i].as_str(), x.as_str()) {
            assert(views(v@)[i as int] == x@);
            return true;
        }
        i = i + 1;
    }
    proof {
        if views(v@).contains(x@) {
            let k = choose|k: int| 0 <= k < views(v@).len() && views(v@)[k] == x@;
            assert(v@[k]@ == x@);
        }
    }
    false
}

/// Project / context / search predicate, shared by every view that honors
/// user filters. `needle` matches as a case-insensitive subsequence of the
/// task body — chars must appear in order, gaps allowed. When it carries a
/// resolved `due:` range, that's matched against `t.due` instead; see
/// [`resolve_needle`].
pub fn passes_user_filter(t: &Task, filter: &Filter, needle: Option<&ResolvedNeedle>) -> (r: bool)
    ensures
        r == passes(t@, filter@, needle_view(needle)),
{
    if let Some(p) = &filter.project {
        if !contains_str(&t.projects, p) {
            return false;
        }
    }
    if let Some(c) = &filter.context {
        if !contains_str(&t.contexts, c) {
            return false;
        }
    }
    if let Some(needle) = needle {
        if let Some((from, to)) = &needle.due_range {
            match &t.due {
                Some(d) => {
                    if !(str_le(from.as_str(), d.as_str()) && str_le(d.as_str(), to.as_str())) {
                        return false;
                    }
                },
                None => return false,
            }
        }
        if needle.text.unicode_len() != 0 {
            let body = body_after_priority(t.raw.as_str());
            if subseq_match_ci(body, needle.text.as_str()).is_none() {
                return false;
            }
        }
    }
    true
}

/// Whether a task's threshold resolves to a date strictly after `today`
/// (compared as `%Y-%m-%d` strings).
pub open spec fn future_threshold(t: TaskView, today: Seq<char>) -> bool {
    match t.threshold {
        None => false,
        Some(raw) => match threshold_of(raw) {
            None => false,
            Some(spec) => match resolved(spec, t.due, t.created_date) {
                None => false,
                Some(d) => lex_lt(today, spec_date_text(d as i32)),
            },
        },
    }
}

fn as_opt_str(s: &Option<String>) -> (r: Option<&str>)
    ensures
        opt_str(r) == crate::todo::opt_view(*s),
{
    match s {
        Some(x) => Some(x.as_str()),
        None => None,
    }
}

/// True when the task carries a `t:` value that resolves to a date strictly
/// after `today`. Malformed values, missing anchors for relative offsets,
/// and arithmetic overflow all leave the task visible — better to surface a
/// task the user might miss than to hide it because of a bad threshold.
pub fn is_future_threshold(t: &Task, today: &str) -> (r: bool)
    ensures
        r == future_threshold(t@, today@),
{
    let raw = match &t.threshold {
        Some(x) => x,
        None => return false,
    };
    let spec = match parse_threshold(raw.as_str()) {
        Some(s) => s,
        None => return false,
    };
    let date = match resolve(&spec, as_opt_str(&t.due), as_opt_str(&t.created_date)) {
        Some(d) => d,
        None => return false,
    };
    let shown = date.format_ymd();
    str_lt(today, shown.as_str())
}

/// Whether a task is listed: done tasks only when `show_done`, tasks with a
/// future threshold only when `show_future`, and only tasks that pass the
/// user's filters.
pub open spec fn listed(t: TaskView, show_done: bool, show_future: bool, today: Seq<char>, f: FilterView, needle: Option<(Seq<char>, Option<(Seq<char>, Seq<char>)>)>) -> bool {
    &&& (t.done ==> show_done)
    &&& (!show_future ==> !future_threshold(t, today))
    &&& passes(t, f, needle)
}

pub fn list_predicate(
    t: &Task,
    show_done: bool,
    show_future: bool,
    today: &str,
    filter: &Filter,
    needle: Option<&ResolvedNeedle>,
) -> (r: bool)
    ensures
        r == listed(t@, show_done, show_future, today@, filter@, needle_view(needle)),
{
    if t.done && !show_done {
        return false;
    }
    if !show_future && is_future_threshold(t, today) {
        return false;
    }
    passes_user_filter(t, filter, needle)
}


/// A task's due value, empty when it has none.
pub open spec fn due_text(t: TaskView) -> Seq<char> {
    match t.due {
        Some(d) => d,
        None => seq![],
    }
}

/// 0 for a task with a due value, 1 for one without, so undated tasks sort
/// after every dated one.
pub open spec fn undated_rank(t: TaskView) -> int {
    if t.due is Some {
        0
    } else {
        1
    }
}

/// A task's priority letter as a number; a task without a priority ranks
/// past every character, so it sorts after every prioritised task.
pub open spec fn priority_rank(t: TaskView) -> int {
    match t.priority {
        Some(c) => c as int,
        None => 0x110000,
    }
}

/// What a sort orders tasks by: priority (none last), then due value (none
/// last); due value alone (none last); or nothing (file order).
pub open spec fn sort_key(sort: Sort, t: TaskView) -> (int, int, Seq<char>) {
    match sort {
        Sort::Priority => (priority_rank(t), undated_rank(t), due_text(t)),
        Sort::Due => (0, undated_rank(t), due_text(t)),
        Sort::File => (0, 0, seq![]),
    }
}

/// Strict order on sort keys: by the first number, then the second, then
/// lexicographically.
pub open spec fn key_lt(a: (int, int, Seq<char>), b: (int, int, Seq<char>)) -> bool {
    a.0 < b.0 || (a.0 == b.0 && (a.1 < b.1 || (a.1 == b.1 && lex_lt(a.2, b.2))))
}

proof fn lemma_key_irreflexive(a: (int, int, Seq<char>))
    ensures
        !key_lt(a, a),
{
    lemma_lex_irreflexive(a.2);
}

proof fn lemma_key_transitive(a: (int, int, Seq<char>), b: (int, int, Seq<char>), c: (int, int, Seq<char>))
    requires
        key_lt(a, b),
        key_lt(b, c),
    ensures
        key_lt(a, c),
{
    if a.0 == b.0 && b.0 == c.0 && a.1 == b.1 && b.1 == c.1 {
        lemma_lex_transitive(a.2, b.2, c.2);
    }
}

/// The sort key of the task at index `i`.
pub open spec fn idx_key(tasks: Seq<Task>, sort: Sort, i: usize) -> (int, int, Seq<char>) {
    sort_key(sort, tasks[i as int]@)
}

/// No later index has a key strictly before an earlier one.
pub open spec fn sorted_by(s: Seq<usize>, tasks: Seq<Task>, sort: Sort) -> bool {
    forall|a: int, b: int|
        0 <= a < b < s.len() ==> !key_lt(
            #[trigger] idx_key(tasks, sort, s[b]),
            #[trigger] idx_key(tasks, sort, s[a]),
        )
}

/// The indices whose task has sort key `k`.
pub open spec fn with_key(tasks: Seq<Task>, sort: Sort, k: (int, int, Seq<char>)) -> spec_fn(usize) -> bool {
    |j: usize| idx_key(tasks, sort, j) == k
}

/// `out` is `inp` stably sorted: ordered by key, and the indices sharing a
/// key keep their relative order. This determines `out` from `inp`.
pub open spec fn stable_sort_of(out: Seq<usize>, inp: Seq<usize>, tasks: Seq<Task>, sort: Sort) -> bool {
    &&& sorted_by(out, tasks, sort)
    &&& forall|k: (int, int, Seq<char>)| #[trigger]
        out.filter(with_key(tasks, sort, k)) == inp.filter(with_key(tasks, sort, k))
}

proof fn lemma_stable_insert(
    out: Seq<usize>,
    inp: Seq<usize>,
    x: usize,
    p: int,
    tasks: Seq<Task>,
    sort: Sort,
)
    requires
        stable_sort_of(out, inp, tasks, sort),
        0 <= p <= out.len(),
        forall|a: int|
            0 <= a < p ==> !key_lt(idx_key(tasks, sort, x), #[trigger] idx_key(tasks, sort, out[a])),
        p < out.len() ==> key_lt(idx_key(tasks, sort, x), idx_key(tasks, sort, out[p])),
    ensures
        stable_sort_of(out.insert(p, x), inp.push(x), tasks, sort),
{
    let res = out.insert(p, x);
    let kx = idx_key(tasks, sort, x);
    let left = out.subrange(0, p);
    let right = out.subrange(p, out.len() as int);
    assert(out =~= left + right);
    assert(res =~= left + seq![x] + right);
    // Everything from `p` on sorts strictly after `x`.
    assert forall|b: int| 0 <= b < right.len() implies key_lt(
        kx,
        #[trigger] idx_key(tasks, sort, right[b]),
    ) by {
        if b > 0 {
            assert(!key_lt(idx_key(tasks, sort, out[p + b]), idx_key(tasks, sort, out[p])));
            if !key_lt(kx, idx_key(tasks, sort, out[p + b])) {
                lemma_key_total(kx, idx_key(tasks, sort, out[p + b]));
                if kx == idx_key(tasks, sort, out[p + b]) {
                } else {
                    lemma_key_transitive(
                        idx_key(tasks, sort, out[p + b]),
                        kx,
                        idx_key(tasks, sort, out[p]),
                    );
                }
            }
        }
    }
    assert forall|a: int, b: int| 0 <= a < b < res.len() implies !key_lt(
        #[trigger] idx_key(tasks, sort, res[b]),
        #[trigger] idx_key(tasks, sort, res[a]),
    ) by {
        if b < p {
            assert(res[a] == out[a] && res[b] == out[b]);
        } else if b == p {
            assert(res[a] == out[a]);
        } else if a == p {
            assert(res[b] == right[b - p - 1]);
            if key_lt(idx_key(tasks, sort, res[b]), kx) {
                lemma_key_transitive(idx_key(tasks, sort, res[b]), kx, idx_key(tasks, sort, res[b]));
                lemma_key_irreflexive(idx_key(tasks, sort, res[b]));
            }
        } else if a < p {
            assert(res[a] == out[a] && res[b] == out[b - 1]);
        } else {
            assert(res[a] == out[a - 1] && res[b] == out[b - 1]);
        }
    }
    assert forall|k: (int, int, Seq<char>)| #[trigger]
        res.filter(with_key(tasks, sort, k)) == inp.push(x).filter(with_key(tasks, sort, k)) by {
        let pred = with_key(tasks, sort, k);
        Seq::filter_distributes_over_add(left + seq![x], right, pred);
        Seq::filter_distributes_over_add(left, seq![x], pred);
        Seq::filter_distributes_over_add(left, right, pred);
        inp.lemma_filter_push(x, pred);
        assert(seq![x].filter(pred) =~= if pred(x) {
            seq![x]
        } else {
            Seq::<usize>::empty()
        }) by {
            Seq::<usize>::empty().lemma_filter_push(x, pred);
            assert(Seq::<usize>::empty().push(x) =~= seq![x]);
            assert(Seq::<usize>::empty().filter(pred) =~= Seq::<usize>::empty());
        }
        if pred(x) {
            assert forall|b: int| 0 <= b < right.len() implies !pred(#[trigger] right[b]) by {
                lemma_key_irreflexive(kx);
                assert(key_lt(kx, idx_key(tasks, sort, right[b])));
            }
            right.lemma_all_neg_filter_empty(pred);
        }
    }
}

proof fn lemma_key_total(a: (int, int, Seq<char>), b: (int, int, Seq<char>))
    ensures
        a == b || key_lt(a, b) || key_lt(b, a),
{
    crate::text::lemma_lex_total(a.2, b.2);
}

/// Whether task `ta` sorts before `tb` by due value alone: by value, with a
/// missing one after every present one.
fn due_before(ta: &Task, tb: &Task) -> (r: bool)
    ensures
        r == (undated_rank(ta@) < undated_rank(tb@) || (undated_rank(ta@) == undated_rank(tb@)
            && lex_lt(due_text(ta@), due_text(tb@)))),
{
    match (&ta.due, &tb.due) {
        (Some(x), Some(y)) => str_lt(x.as_str(), y.as_str()),
        (Some(_), None) => true,
        (None, Some(_)) => false,
        (None, None) => {
            proof {
                lemma_lex_irreflexive(seq![]);
            }
            false
        },
    }
}

/// Every priority letter ranks before a missing priority.
proof fn lemma_char_ranks_before_none(c: char)
    ensures
        (c as int) < 0x110000,
{
}

/// Sort by priority asc (None last), tie-broken by due-date asc (None last).
fn cmp_priority(tasks: &[Task], a: usize, b: usize) -> (r: bool)
    requires
        a < tasks@.len(),
        b < tasks@.len(),
    ensures
        r == key_lt(idx_key(tasks@, Sort::Priority, a), idx_key(tasks@, Sort::Priority, b)),
{
    let ta = &tasks[a];
    let tb = &tasks[b];
    match (ta.priority, tb.priority) {
        (Some(p), Some(q)) => {
            if p != q {
                return p < q;
            }
        },
        (Some(p), None) => {
            proof {
                lemma_char_ranks_before_none(p);
            }
            return true;
        },
        (None, Some(q)) => {
            proof {
                lemma_char_ranks_before_none(q);
            }
            return false;
        },
        (None, None) => {},
    }
    due_before(ta, tb)
}

/// Sort by due-date asc (None last).
fn cmp_due(tasks: &[Task], a: usize, b: usize) -> (r: bool)
    requires
        a < tasks@.len(),
        b < tasks@.len(),
    ensures
        r == key_lt(idx_key(tasks@, Sort::Due, a), idx_key(tasks@, Sort::Due, b)),
{
    due_before(&tasks[a], &tasks[b])
}

/// Whether the task at `a` sorts strictly before the task at `b`.
fn precedes(tasks: &[Task], sort: Sort, a: usize, b: usize) -> (r: bool)
    requires
        a < tasks@.len(),
        b < tasks@.len(),
        sort != Sort::File,
    ensures
        r == key_lt(idx_key(tasks@, sort, a), idx_key(tasks@, sort, b)),
{
    if sort == Sort::Priority {
        cmp_priority(tasks, a, b)
    } else {
        cmp_due(tasks, a, b)
    }
}

/// Reorders `idxs` (indices into `tasks`) by the sort preference: a stable
/// sort by priority then due date, or by due date, with a missing priority
/// or due date after every present one; no change for file order, which
/// reads no task.
pub fn sort_by_prefs(idxs: &mut [usize], tasks: &[Task], sort: Sort)
    requires
        sort != Sort::File ==> forall|i: int|
            0 <= i < old(idxs)@.len() ==> #[trigger] old(idxs)@[i] < tasks@.len(),
    ensures
        stable_sort_of(final(idxs)@, old(idxs)@, tasks@, sort),
        sort == Sort::File ==> final(idxs)@ == old(idxs)@,
        final(idxs)@.len() == old(idxs)@.len(),
        (forall|i: int| 0 <= i < old(idxs)@.len() ==> #[trigger] old(idxs)@[i] < tasks@.len())
            ==> forall|i: int| 0 <= i < final(idxs)@.len() ==> #[trigger] final(idxs)@[i] < tasks@.len(),
{
    if sort == Sort::File {
        proof {
            assert forall|a: int, b: int| 0 <= a < b < idxs@.len() implies !key_lt(
                #[trigger] idx_key(tasks@, sort, idxs@[b]),
                #[trigger] idx_key(tasks@, sort, idxs@[a]),
            ) by {
                lemma_lex_irreflexive(seq![]);
            }
        }
        return ;
    }
    let ghost inp = idxs@;
    let n = idxs.len();
    let mut out: Vec<usize> = Vec::new();
    let mut i: usize = 0;
    proof {
        assert(inp.take(0) =~= Seq::<usize>::empty());
    }
    while i < n
        invariant
            n == idxs@.len(),
            out@.len() == i,
            idxs@ == inp,
            i <= n,
            forall|j: int| 0 <= j < inp.len() ==> #[trigger] inp[j] < tasks@.len(),
            forall|j: int| 0 <= j < out@.len() ==> #[trigger] out@[j] < tasks@.len(),
            sort != Sort::File,
            stable_sort_of(out@, inp.take(i as int), tasks@, sort),
        decreases n - i,
    {
        let x = idxs[i];
        let mut p: usize = 0;
        while p < out.len() && !precedes(tasks, sort, x, out[p])
            invariant
                p <= out@.len(),
                x < tasks@.len(),
                sort != Sort::File,
                forall|j: int| 0 <= j < out@.len() ==> #[trigger] out@[j] < tasks@.len(),
                forall|a: int|
                    0 <= a < p ==> !key_lt(
                        idx_key(tasks@, sort, x),
                        #[trigger] idx_key(tasks@, sort, out@[a]),
                    ),
            decreases out@.len() - p,
        {
            p = p + 1;
        }
        proof {
            lemma_stable_insert(out@, inp.take(i as int), x, p as int, tasks@, sort);
            assert(inp.take(i as int).push(x) =~= inp.take(i as int + 1));
        }
        out.insert(p, x);
        i = i + 1;
    }
    proof {
        assert(inp.take(n as int) =~= inp);
    }
    let mut k: usize = 0;
    while k < n
        invariant
            n == out@.len(),
            n == idxs@.len(),
            k <= n,
            forall|j: int| 0 <= j < k ==> idxs@[j] == out@[j],
        decreases n - k,
    {
        idxs[k] = out[k];
        k = k + 1;
    }
    assert(idxs@ =~= out@);
}


/// Which tag list of a task to group by.
#[derive(Clone, Copy, Debug, PartialEq, Eq, Structural)]
pub enum TagKind {
    Project,
    Context,
}

/// A task's projects or contexts.
pub open spec fn picked(t: TaskView, kind: TagKind) -> Seq<Seq<char>> {
    match kind {
        TagKind::Project => t.projects,
        TagKind::Context => t.contexts,
    }
}

/// How often `name` occurs in `ws`.
pub open spec fn occurrences(ws: Seq<Seq<char>>, name: Seq<char>) -> nat
    decreases ws.len(),
{
    if ws.len() == 0 {
        0
    } else {
        occurrences(ws.drop_last(), name) + if ws.last() == name {
            1nat
        } else {
            0nat
        }
    }
}

/// How often `name` is used as a tag of the given kind by tasks that are
/// not done.
pub open spec fn tag_count(ts: Seq<TaskView>, kind: TagKind, name: Seq<char>) -> nat
    decreases ts.len(),
{
    if ts.len() == 0 {
        0
    } else {
        tag_count(ts.drop_last(), kind, name) + if ts.last().done {
            0nat
        } else {
            occurrences(picked(ts.last(), kind), name)
        }
    }
}

/// How many tags of the given kind tasks that are not done carry in all.
pub open spec fn tag_total(ts: Seq<TaskView>, kind: TagKind) -> nat
    decreases ts.len(),
{
    if ts.len() == 0 {
        0
    } else {
        tag_total(ts.drop_last(), kind) + if ts.last().done {
            0nat
        } else {
            picked(ts.last(), kind).len()
        }
    }
}

proof fn lemma_occurrences_bound(ws: Seq<Seq<char>>, name: Seq<char>)
    ensures
        occurrences(ws, name) <= ws.len(),
    decreases ws.len(),
{
    if ws.len() > 0 {
        lemma_occurrences_bound(ws.drop_last(), name);
    }
}

proof fn lemma_tag_count_bound(ts: Seq<TaskView>, kind: TagKind, name: Seq<char>)
    ensures
        tag_count(ts, kind, name) <= tag_total(ts, kind),
    decreases ts.len(),
{
    if ts.len() > 0 {
        lemma_tag_count_bound(ts.drop_last(), kind, name);
        lemma_occurrences_bound(picked(ts.last(), kind), name);
    }
}

proof fn lemma_tag_total_prefix(ts: Seq<TaskView>, kind: TagKind, i: int)
    requires
        0 <= i <= ts.len(),
    ensures
        tag_total(ts.take(i), kind) <= tag_total(ts, kind),
    decreases ts.len() - i,
{
    if i < ts.len() {
        lemma_tag_total_prefix(ts, kind, i + 1);
        assert(ts.take(i + 1).drop_last() =~= ts.take(i));
    } else {
        assert(ts.take(i) =~= ts);
    }
}

/// One summary line: a tag and its count.
pub open spec fn entry_before(a: (Seq<char>, nat), b: (Seq<char>, nat)) -> bool {
    a.1 > b.1 || (a.1 == b.1 && lex_lt(a.0, b.0))
}

/// `out` lists every tag of the given kind used by tasks that are not done,
/// once, with its count: count descending, then name ascending.
pub open spec fn is_tag_summary(out: Seq<(Seq<char>, nat)>, ts: Seq<TaskView>, kind: TagKind) -> bool {
    &&& forall|i: int|
        0 <= i < out.len() ==> (#[trigger] out[i]).1 == tag_count(ts, kind, out[i].0) && out[i].1 > 0
    &&& forall|name: Seq<char>|
        tag_count(ts, kind, name) > 0 ==> exists|i: int| 0 <= i < out.len() && (#[trigger] out[i]).0 == name
    &&& forall|i: int, j: int| 0 <= i < j < out.len() ==> entry_before(#[trigger] out[i], #[trigger] out[j])
}

/// The tag summary of the tasks (there is exactly one; see
/// [`lemma_tag_summary_unique`]).
pub open spec fn tag_summary(ts: Seq<TaskView>, kind: TagKind) -> Seq<(Seq<char>, nat)> {
    choose|s: Seq<(Seq<char>, nat)>| is_tag_summary(s, ts, kind)
}

/// The tags of the summary, in its order.
pub open spec fn tag_names(ts: Seq<TaskView>, kind: TagKind) -> Seq<Seq<char>> {
    tag_summary(ts, kind).map_values(|e: (Seq<char>, nat)| e.0)
}

/// The view of summary lines.
pub open spec fn entries_view(v: Seq<(String, usize)>) -> Seq<(Seq<char>, nat)> {
    v.map_values(|e: (String, usize)| (e.0@, e.1 as nat))
}

/// `picked` computed on a task.
fn pick_list(t: &Task, kind: TagKind) -> (r: &Vec<String>)
    ensures
        views(r@) == picked(t@, kind),
{
    match kind {
        TagKind::Project => &t.projects,
        TagKind::Context => &t.contexts,
    }
}

/// The view of parallel name and count lists as summary lines.
pub open spec fn zipped(names: Seq<String>, cnts: Seq<usize>) -> Seq<(Seq<char>, nat)> {
    Seq::new(names.len(), |k: int| (names[k]@, cnts[k] as nat))
}

/// What `count_tags` keeps while scanning: names distinct, each with its
/// count so far (`so_far`), every name used so far listed.
pub open spec fn counts_hold(names: Seq<String>, cnts: Seq<usize>, so_far: spec_fn(Seq<char>) -> nat) -> bool {
    &&& names.len() == cnts.len()
    &&& forall|k: int| 0 <= k < names.len() ==> #[trigger] cnts[k] == so_far(names[k]@) && cnts[k] > 0
    &&& forall|a: int, b: int| 0 <= a < b < names.len() ==> (#[trigger] names[a])@ != (#[trigger] names[b])@
    &&& forall|name: Seq<char>| #[trigger] so_far(name) > 0 ==> exists|k: int| 0 <= k < names.len() && (#[trigger] names[k])@ == name
}

/// The position of `name` in `names`, if it is there.
fn find_name(names: &Vec<String>, name: &String) -> (r: Option<usize>)
    ensures
        match r {
            Some(j) => j < names@.len() && names@[j as int]@ == name@,
            None => forall|k: int| 0 <= k < names@.len() ==> (#[trigger] names@[k])@ != name@,
        },
{
    let mut j: usize = 0;
    while j < names.len()
        invariant
            j <= names@.len(),
            forall|k: int| 0 <= k < j ==> (#[trigger] names@[k])@ != name@,
        decreases names@.len() - j,
    {
        if str_eq(names[j].as_str(), name.as_str()) {
            return Some(j);
        }
        j = j + 1;
    }
    None
}

/// Counts, per tag, how often tasks that are not done use it.
fn count_tags(tasks: &[Task], kind: TagKind) -> (r: (Vec<String>, Vec<usize>))
    requires
        tag_total(task_views(tasks@), kind) <= usize::MAX,
    ensures
        counts_hold(r.0@, r.1@, |name: Seq<char>| tag_count(task_views(tasks@), kind, name)),
{
    let ghost ts = task_views(tasks@);
    let mut names: Vec<String> = Vec::new();
    let mut cnts: Vec<usize> = Vec::new();
    let mut ti: usize = 0;
    proof {
        assert(ts.take(0) =~= Seq::<TaskView>::empty());
    }
    while ti < tasks.len()
        invariant
            ts == task_views(tasks@),
            ti <= tasks@.len(),
            tag_total(ts, kind) <= usize::MAX,
            counts_hold(names@, cnts@, |name: Seq<char>| tag_count(ts.take(ti as int), kind, name)),
        decreases tasks@.len() - ti,
    {
        let t = &tasks[ti];
        let ghost before = |name: Seq<char>| tag_count(ts.take(ti as int), kind, name);
        proof {
            assert(ts.take(ti as int + 1).drop_last() =~= ts.take(ti as int));
            assert(ts[ti as int] == t@);
            lemma_tag_total_prefix(ts, kind, ti as int + 1);
        }
        if !t.done {
            let list = pick_list(t, kind);
            let ghost lv = views(list@);
            let mut ni: usize = 0;
            proof {
                assert(lv.take(0) =~= Seq::<Seq<char>>::empty());
            }
            while ni < list.len()
                invariant
                    ts == task_views(tasks@),
                    ti < ts.len(),
                    lv == views(list@),
                    lv == picked(ts[ti as int], kind),
                    !ts[ti as int].done,
                    ni <= list@.len(),
                    tag_total(ts.take(ti as int), kind) + lv.len() <= usize::MAX,
                    counts_hold(
                        names@,
                        cnts@,
                        |name: Seq<char>| before(name) + occurrences(lv.take(ni as int), name),
                    ),
                    forall|name: Seq<char>|
                        #[trigger] before(name) == tag_count(ts.take(ti as int), kind, name),
                decreases list@.len() - ni,
            {
                let name = &list[ni];
                let ghost now = |nm: Seq<char>| before(nm) + occurrences(lv.take(ni as int), nm);
                let ghost next = |nm: Seq<char>| before(nm) + occurrences(lv.take(ni as int + 1), nm);
                proof {
                    assert(lv.take(ni as int + 1).drop_last() =~= lv.take(ni as int));
                    assert(lv[ni as int] == name@);
                    assert forall|nm: Seq<char>| #[trigger] next(nm) == now(nm) + if nm == name@ {
                        1nat
                    } else {
                        0nat
                    } by {}
                }
                match find_name(&names, name) {
                    Some(j) => {
                        proof {
                            lemma_tag_count_bound(ts.take(ti as int), kind, name@);
                            lemma_occurrences_bound(lv.take(ni as int), name@);
                            assert(cnts@[j as int] == now(names@[j as int]@));
                        }
                        let c = cnts[j];
                        cnts.set(j, c + 1);
                        proof {
                            assert forall|name2: Seq<char>| #[trigger] next(name2) > 0 implies exists|
                                k: int,
                            | 0 <= k < names@.len() && (#[trigger] names@[k])@ == name2 by {
                                if name2 != name@ {
                                    assert(now(name2) > 0);
                                } else {
                                    assert(names@[j as int]@ == name2);
                                }
                            }
                            assert forall|k: int| 0 <= k < names@.len() implies #[trigger] cnts@[k]
                                == next(names@[k]@) && cnts@[k] > 0 by {
                                assert(now(names@[k]@) == cnts@[k] || k == j);
                                if k != j {
                                    assert(names@[k]@ != names@[j as int]@);
                                }
                            }
                        }
                    },
                    None => {
                        let ghost old_names = names@;
                        let ghost old_cnts = cnts@;
                        proof {
                            assert(now(name@) == 0) by {
                                if now(name@) > 0 {
                                    let k = choose|k: int|
                                        0 <= k < old_names.len() && (#[trigger] old_names[k])@
                                            == name@;
                                }
                            }
                        }
                        names.push(name.clone());
                        cnts.push(1);
                        proof {
                            assert forall|name2: Seq<char>| #[trigger] next(name2) > 0 implies exists|
                                k: int,
                            | 0 <= k < names@.len() && (#[trigger] names@[k])@ == name2 by {
                                if name2 != name@ {
                                    assert(now(name2) > 0);
                                    let k = choose|k: int|
                                        0 <= k < old_names.len() && (#[trigger] old_names[k])@
                                            == name2;
                                    assert(names@[k] == old_names[k]);
                                } else {
                                    assert(names@[names@.len() - 1]@ == name2);
                                }
                            }
                            assert forall|k: int| 0 <= k < names@.len() implies #[trigger] cnts@[k]
                                == next(names@[k]@) && cnts@[k] > 0 by {
                                if k < old_names.len() {
                                    assert(old_cnts[k] == now(old_names[k]@));
                                    assert(names@[k] == old_names[k]);
                                }
                            }
                            assert forall|a: int, b: int| 0 <= a < b < names@.len() implies (
                            #[trigger] names@[a])@ != (#[trigger] names@[b])@ by {
                                if b < old_names.len() {
                                    assert(names@[a] == old_names[a] && names@[b] == old_names[b]);
                                } else {
                                    assert(names@[a] == old_names[a]);
                                }
                            }
                        }
                    },
                }
                ni = ni + 1;
            }
            proof {
                assert(lv.take(lv.len() as int) =~= lv);
                assert((|name: Seq<char>| tag_count(ts.take(ti as int + 1), kind, name)) =~= (|
                    name: Seq<char>,
                | before(name) + occurrences(lv.take(ni as int), name)));
            }
        } else {
            proof {
                assert((|name: Seq<char>| tag_count(ts.take(ti as int + 1), kind, name)) =~= (|
                    name: Seq<char>,
                | tag_count(ts.take(ti as int), kind, name)));
            }
        }
        ti = ti + 1;
    }
    proof {
        assert(ts.take(tasks@.len() as int) =~= ts);
    }
    (names, cnts)
}


/// Summary lines in strictly increasing `entry_before` order.
pub open spec fn strictly_sorted(s: Seq<(Seq<char>, nat)>) -> bool {
    forall|i: int, j: int| 0 <= i < j < s.len() ==> entry_before(#[trigger] s[i], #[trigger] s[j])
}

proof fn lemma_entry_irreflexive(a: (Seq<char>, nat))
    ensures
        !entry_before(a, a),
{
    lemma_lex_irreflexive(a.0);
}

proof fn lemma_entry_asymmetric(a: (Seq<char>, nat), b: (Seq<char>, nat))
    requires
        entry_before(a, b),
    ensures
        !entry_before(b, a),
{
    if a.1 == b.1 {
        lemma_lex_asymmetric(a.0, b.0);
    }
}

proof fn lemma_entry_transitive(a: (Seq<char>, nat), b: (Seq<char>, nat), c: (Seq<char>, nat))
    requires
        entry_before(a, b),
        entry_before(b, c),
    ensures
        entry_before(a, c),
{
    if a.1 == b.1 && b.1 == c.1 {
        lemma_lex_transitive(a.0, b.0, c.0);
    }
}

proof fn lemma_entry_total(a: (Seq<char>, nat), b: (Seq<char>, nat))
    requires
        a.0 != b.0,
    ensures
        entry_before(a, b) || entry_before(b, a),
{
    lemma_lex_total(a.0, b.0);
}

/// Two strictly sorted lists of summary lines with the same lines are the
/// same list.
pub proof fn lemma_sorted_entries_unique(a: Seq<(Seq<char>, nat)>, b: Seq<(Seq<char>, nat)>)
    requires
        strictly_sorted(a),
        strictly_sorted(b),
        forall|e: (Seq<char>, nat)| a.contains(e) <==> b.contains(e),
    ensures
        a == b,
    decreases a.len(),
{
    if a.len() == 0 {
        if b.len() > 0 {
            assert(b.contains(b[0]));
        }
        assert(a =~= b);
    } else {
        assert(a.contains(a[0]));
        let j = choose|j: int| 0 <= j < b.len() && b[j] == a[0];
        assert(b.contains(b[0]));
        let k = choose|k: int| 0 <= k < a.len() && a[k] == b[0];
        if j > 0 && k > 0 {
            assert(entry_before(b[0], b[j]));
            assert(entry_before(a[0], a[k]));
            lemma_entry_asymmetric(a[0], b[0]);
        }
        assert(a[0] == b[0]);
        let ta = a.drop_first();
        let tb = b.drop_first();
        assert forall|e: (Seq<char>, nat)| ta.contains(e) <==> tb.contains(e) by {
            if ta.contains(e) {
                let i = choose|i: int| 0 <= i < ta.len() && ta[i] == e;
                assert(entry_before(a[0], a[i + 1]));
                lemma_entry_irreflexive(e);
                assert(a.contains(e));
                let m = choose|m: int| 0 <= m < b.len() && b[m] == e;
                assert(m != 0);
                assert(tb[m - 1] == e);
            }
            if tb.contains(e) {
                let i = choose|i: int| 0 <= i < tb.len() && tb[i] == e;
                assert(entry_before(b[0], b[i + 1]));
                lemma_entry_irreflexive(e);
                assert(b.contains(e));
                let m = choose|m: int| 0 <= m < a.len() && a[m] == e;
                assert(m != 0);
                assert(ta[m - 1] == e);
            }
        }
        assert forall|i: int, j2: int| 0 <= i < j2 < ta.len() implies entry_before(
            #[trigger] ta[i],
            #[trigger] ta[j2],
        ) by {
            assert(entry_before(a[i + 1], a[j2 + 1]));
        }
        assert forall|i: int, j2: int| 0 <= i < j2 < tb.len() implies entry_before(
            #[trigger] tb[i],
            #[trigger] tb[j2],
        ) by {
            assert(entry_before(b[i + 1], b[j2 + 1]));
        }
        lemma_sorted_entries_unique(ta, tb);
        assert(a =~= seq![a[0]] + ta);
        assert(b =~= seq![b[0]] + tb);
    }
}

/// A task list has exactly one tag summary.
pub proof fn lemma_tag_summary_unique(
    a: Seq<(Seq<char>, nat)>,
    b: Seq<(Seq<char>, nat)>,
    ts: Seq<TaskView>,
    kind: TagKind,
)
    requires
        is_tag_summary(a, ts, kind),
        is_tag_summary(b, ts, kind),
    ensures
        a == b,
{
    assert forall|e: (Seq<char>, nat)| a.contains(e) implies b.contains(e) by {
        let i = choose|i: int| 0 <= i < a.len() && a[i] == e;
        assert(a[i].1 == tag_count(ts, kind, a[i].0));
        let j = choose|j: int| 0 <= j < b.len() && (#[trigger] b[j]).0 == e.0;
        assert(b[j].1 == tag_count(ts, kind, b[j].0));
        assert(b[j] == e);
    }
    assert forall|e: (Seq<char>, nat)| b.contains(e) implies a.contains(e) by {
        let i = choose|i: int| 0 <= i < b.len() && b[i] == e;
        assert(b[i].1 == tag_count(ts, kind, b[i].0));
        let j = choose|j: int| 0 <= j < a.len() && (#[trigger] a[j]).0 == e.0;
        assert(a[j].1 == tag_count(ts, kind, a[j].0));
        assert(a[j] == e);
    }
    lemma_sorted_entries_unique(a, b);
}

fn entry_lt(a: &(String, usize), b: &(String, usize)) -> (r: bool)
    ensures
        r == entry_before((a.0@, a.1 as nat), (b.0@, b.1 as nat)),
{
    a.1 > b.1 || (a.1 == b.1 && str_lt(a.0.as_str(), b.0.as_str()))
}

/// The lines of `zipped(names, cnts)` in strictly increasing order.
fn sort_entries(names: &Vec<String>, cnts: &Vec<usize>) -> (r: Vec<(String, usize)>)
    requires
        names@.len() == cnts@.len(),
        forall|a: int, b: int|
            0 <= a < b < names@.len() ==> (#[trigger] names@[a])@ != (#[trigger] names@[b])@,
    ensures
        strictly_sorted(entries_view(r@)),
        forall|e: (Seq<char>, nat)|
            entries_view(r@).contains(e) <==> zipped(names@, cnts@).contains(e),
{
    let ghost z = zipped(names@, cnts@);
    let mut out: Vec<(String, usize)> = Vec::new();
    let mut j: usize = 0;
    while j < names.len()
        invariant
            z == zipped(names@, cnts@),
            names@.len() == cnts@.len(),
            forall|a: int, b: int|
                0 <= a < b < names@.len() ==> (#[trigger] names@[a])@ != (#[trigger] names@[b])@,
            j <= names@.len(),
            strictly_sorted(entries_view(out@)),
            forall|e: (Seq<char>, nat)|
                entries_view(out@).contains(e) <==> z.take(j as int).contains(e),
        decreases names@.len() - j,
    {
        let x = (names[j].clone(), cnts[j]);
        let ghost xv = (x.0@, x.1 as nat);
        assert(xv == z[j as int]);
        let ghost ov = entries_view(out@);
        // Names already placed differ from this one.
        assert forall|a: int| 0 <= a < ov.len() implies (#[trigger] ov[a]).0 != xv.0 by {
            assert(ov.contains(ov[a]));
            let m = choose|m: int| 0 <= m < j && z.take(j as int)[m] == ov[a];
            assert(names@[m]@ != names@[j as int]@);
        }
        let mut p: usize = 0;
        while p < out.len() && !entry_lt(&x, &out[p])
            invariant
                p <= out@.len(),
                ov == entries_view(out@),
                xv == (x.0@, x.1 as nat),
                forall|a: int| 0 <= a < p ==> !entry_before(xv, #[trigger] ov[a]),
            decreases out@.len() - p,
        {
            p = p + 1;
        }
        out.insert(p, x);
        proof {
            let nv = entries_view(out@);
            assert(nv =~= ov.insert(p as int, xv));
            assert forall|a: int, b: int| 0 <= a < b < nv.len() implies entry_before(
                #[trigger] nv[a],
                #[trigger] nv[b],
            ) by {
                if b < p {
                    assert(nv[a] == ov[a] && nv[b] == ov[b]);
                } else if b == p {
                    assert(nv[a] == ov[a]);
                    lemma_entry_total(ov[a], xv);
                } else if a == p {
                    assert(nv[b] == ov[b - 1]);
                    if b - 1 > p {
                        assert(entry_before(ov[p as int], ov[b - 1]));
                        lemma_entry_transitive(xv, ov[p as int], ov[b - 1]);
                    }
                } else if a < p {
                    assert(nv[a] == ov[a] && nv[b] == ov[b - 1]);
                    lemma_entry_total(ov[a], xv);
                    if b - 1 > p {
                        assert(entry_before(ov[p as int], ov[b - 1]));
                        lemma_entry_transitive(xv, ov[p as int], ov[b - 1]);
                    }
                    lemma_entry_transitive(ov[a], xv, ov[b - 1]);
                } else {
                    assert(nv[a] == ov[a - 1] && nv[b] == ov[b - 1]);
                }
            }
            assert(z.take(j as int + 1) =~= z.take(j as int).push(xv));
            assert forall|e: (Seq<char>, nat)| nv.contains(e) <==> z.take(j as int + 1).contains(
                e,
            ) by {
                if nv.contains(e) {
                    let i = choose|i: int| 0 <= i < nv.len() && nv[i] == e;
                    if i < p {
                        assert(ov.contains(ov[i]));
                    } else if i > p {
                        assert(ov.contains(ov[i - 1]));
                    }
                    if e != xv {
                        assert(z.take(j as int).contains(e));
                        let m = choose|m: int| 0 <= m < j && z.take(j as int)[m] == e;
                        assert(z.take(j as int + 1)[m] == e);
                    } else {
                        assert(z.take(j as int + 1)[j as int] == e);
                    }
                }
                if z.take(j as int + 1).contains(e) {
                    let zz = z.take(j as int + 1);
                    let m = choose|m: int| 0 <= m < zz.len() && zz[m] == e;
                    if m < j {
                        assert(z.take(j as int)[m] == e);
                        assert(ov.contains(e));
                        let i = choose|i: int| 0 <= i < ov.len() && ov[i] == e;
                        if i < p {
                            assert(nv[i] == e);
                        } else {
                            assert(nv[i + 1] == e);
                        }
                    } else {
                        assert(nv[p as int] == e);
                    }
                }
            }
        }
        j = j + 1;
    }
    proof {
        assert(z.take(names@.len() as int) =~= z);
    }
    out
}

/// Order projects/contexts the same way the filter sidebar does:
/// count descending, then name ascending. Used by both the picker and
/// the sidebar so j/k advances visibly down the list.
pub fn ordered_unique(tasks: &[Task], kind: TagKind) -> (r: Vec<(String, usize)>)
    requires
        tag_total(task_views(tasks@), kind) <= usize::MAX,
    ensures
        is_tag_summary(entries_view(r@), task_views(tasks@), kind),
        entries_view(r@) == tag_summary(task_views(tasks@), kind),
{
    let ghost ts = task_views(tasks@);
    let (names, cnts) = count_tags(tasks, kind);
    let out = sort_entries(&names, &cnts);
    proof {
        let ov = entries_view(out@);
        let z = zipped(names@, cnts@);
        assert forall|i: int| 0 <= i < ov.len() implies (#[trigger] ov[i]).1 == tag_count(
            ts,
            kind,
            ov[i].0,
        ) && ov[i].1 > 0 by {
            assert(ov.contains(ov[i]));
            let m = choose|m: int| 0 <= m < z.len() && z[m] == ov[i];
            assert(cnts@[m] == tag_count(ts, kind, names@[m]@));
        }
        assert forall|name: Seq<char>| tag_count(ts, kind, name) > 0 implies exists|i: int|
            0 <= i < ov.len() && (#[trigger] ov[i]).0 == name by {
            let f = |nm: Seq<char>| tag_count(ts, kind, nm);
            assert(f(name) > 0);
            let m = choose|m: int| 0 <= m < names@.len() && (#[trigger] names@[m])@ == name;
            assert(z[m].0 == name);
            assert(z.contains(z[m]));
            assert(ov.contains(z[m]));
            let i = choose|i: int| 0 <= i < ov.len() && ov[i] == z[m];
            assert(ov[i].0 == name);
        }
        assert(is_tag_summary(ov, ts, kind));
        lemma_tag_summary_unique(ov, tag_summary(ts, kind), ts, kind);
    }
    out
}

pub fn unique_values(tasks: &[Task], kind: TagKind) -> (r: Vec<String>)
    requires
        tag_total(task_views(tasks@), kind) <= usize::MAX,
    ensures
        views(r@) == tag_names(task_views(tasks@), kind),
{
    let entries = ordered_unique(tasks, kind);
    let mut out: Vec<String> = Vec::new();
    let mut i: usize = 0;
    while i < entries.len()
        invariant
            i <= entries@.len(),
            views(out@) =~= entries_view(entries@).take(i as int).map_values(
                |e: (Seq<char>, nat)| e.0,
            ),
        decreases entries@.len() - i,
    {
        let name = entries[i].0.clone();
        proof {
            let ev = entries_view(entries@);
            assert(ev.take(i as int + 1) =~= ev.take(i as int).push(ev[i as int]));
            assert(views(out@.push(name)) =~= views(out@).push(name@));
        }
        out.push(name);
        i = i + 1;
    }
    proof {
        assert(entries_view(entries@).take(entries@.len() as int) =~= entries_view(entries@));
    }
    out
}


/// Whether the tags of the given kind carried by tasks that are not done
/// number at most `usize::MAX` in all, so that they can be counted.
pub fn tag_total_fits(tasks: &[Task], kind: TagKind) -> (r: bool)
    ensures
        r == (tag_total(task_views(tasks@), kind) <= usize::MAX),
{
    let ghost ts = task_views(tasks@);
    let mut total: usize = 0;
    let mut i: usize = 0;
    proof {
        assert(ts.take(0) =~= Seq::<TaskView>::empty());
    }
    while i < tasks.len()
        invariant
            ts == task_views(tasks@),
            i <= tasks@.len(),
            total as nat == tag_total(ts.take(i as int), kind),
        decreases tasks@.len() - i,
    {
        let t = &tasks[i];
        proof {
            assert(ts.take(i as int + 1).drop_last() =~= ts.take(i as int));
            assert(ts[i as int] == t@);
        }
        if !t.done {
            let n = pick_list(t, kind).len();
            assert(n == picked(t@, kind).len());
            match total.checked_add(n) {
                Some(x) => {
                    total = x;
                },
                None => {
                    proof {
                        lemma_tag_total_prefix(ts, kind, i as int + 1);
                    }
                    return false;
                },
            }
        }
        i = i + 1;
    }
    proof {
        assert(ts.take(tasks@.len() as int) =~= ts);
    }
    true
}

/// The position of a bucket in the list: overdue first, then today, this
/// week, next week, later, and undated last.
pub open spec fn bucket_rank(b: ListDueBucket) -> int {
    match b {
        ListDueBucket::Overdue => 0,
        ListDueBucket::Today => 1,
        ListDueBucket::ThisWeek => 2,
        ListDueBucket::NextWeek => 3,
        ListDueBucket::Later => 4,
        ListDueBucket::NoDue => 5,
    }
}

/// A later due value never lands in an earlier bucket: due values are
/// compared as strings, and each bucket takes the values up to a bound.
pub proof fn law_bucket_monotone(d1: Seq<char>, d2: Seq<char>, today: Seq<char>, week_start: WeekStart)
    requires
        lex_le(d1, d2),
    ensures
        bucket_rank(bucket_of(Some(d1), today, week_start)) <= bucket_rank(
            bucket_of(Some(d2), today, week_start),
        ),
{
    match week_cutoffs(today, week_start) {
        None => {},
        Some((a, b)) => {
            // Every bucket bound is closed downwards: what lies at or below
            // `d2` lies at or below `d1`'s bound only if `d1` does.
            if d1 != d2 {
                if lex_lt(d2, today) {
                    lemma_lex_transitive(d1, d2, today);
                }
                if d2 == today && !lex_lt(d1, today) {
                    lemma_lex_total(d1, today);
                }
                if lex_le(d2, a) && d2 != a {
                    lemma_lex_transitive(d1, d2, a);
                }
                if lex_le(d2, b) && d2 != b {
                    lemma_lex_transitive(d1, d2, b);
                }
            }
        },
    }
}

/// The tasks that are not done, in order.
pub open spec fn open_tasks(ts: Seq<TaskView>) -> Seq<TaskView> {
    ts.filter(|t: TaskView| !t.done)
}

proof fn lemma_counts_of_open_tasks(ts: Seq<TaskView>, kind: TagKind, name: Seq<char>)
    ensures
        tag_count(ts, kind, name) == tag_count(open_tasks(ts), kind, name),
        tag_total(ts, kind) == tag_total(open_tasks(ts), kind),
    decreases ts.len(),
{
    let p = |t: TaskView| !t.done;
    if ts.len() == 0 {
        assert(ts.filter(p) =~= ts) by {
            reveal(Seq::filter);
        }
    } else {
        let r = ts.drop_last();
        let x = ts.last();
        lemma_counts_of_open_tasks(r, kind, name);
        assert(r.push(x) =~= ts);
        r.lemma_filter_push(x, p);
        if !x.done {
            assert(r.filter(p).push(x).drop_last() =~= r.filter(p));
        }
    }
}

/// Done tasks carry no weight in the tag summaries: two task lists with the
/// same open tasks, in the same order, count every tag alike, have the same
/// total, and have the same summaries.
pub proof fn law_done_tasks_ignored(ts1: Seq<TaskView>, ts2: Seq<TaskView>, kind: TagKind)
    requires
        open_tasks(ts1) == open_tasks(ts2),
    ensures
        forall|name: Seq<char>| #[trigger] tag_count(ts1, kind, name) == tag_count(ts2, kind, name),
        tag_total(ts1, kind) == tag_total(ts2, kind),
        forall|s: Seq<(Seq<char>, nat)>| #[trigger] is_tag_summary(s, ts1, kind) <==> is_tag_summary(s, ts2, kind),
        (exists|s: Seq<(Seq<char>, nat)>| is_tag_summary(s, ts1, kind)) ==> tag_summary(ts1, kind)
            == tag_summary(ts2, kind),
{
    assert forall|name: Seq<char>| #[trigger] tag_count(ts1, kind, name) == tag_count(ts2, kind, name) by {
        lemma_counts_of_open_tasks(ts1, kind, name);
        lemma_counts_of_open_tasks(ts2, kind, name);
    }
    lemma_counts_of_open_tasks(ts1, kind, seq![]);
    lemma_counts_of_open_tasks(ts2, kind, seq![]);
    assert forall|s: Seq<(Seq<char>, nat)>| #[trigger] is_tag_summary(s, ts1, kind) <==> is_tag_summary(s, ts2, kind) by {
        if is_tag_summary(s, ts1, kind) {
            assert forall|name: Seq<char>| tag_count(ts2, kind, name) > 0 implies exists|i: int|
                0 <= i < s.len() && (#[trigger] s[i]).0 == name by {
                assert(tag_count(ts1, kind, name) == tag_count(ts2, kind, name));
            }
        }
        if is_tag_summary(s, ts2, kind) {
            assert forall|name: Seq<char>| tag_count(ts1, kind, name) > 0 implies exists|i: int|
                0 <= i < s.len() && (#[trigger] s[i]).0 == name by {
                assert(tag_count(ts1, kind, name) == tag_count(ts2, kind, name));
            }
        }
    }
    if exists|s: Seq<(Seq<char>, nat)>| is_tag_summary(s, ts1, kind) {
        let s = choose|s: Seq<(Seq<char>, nat)>| is_tag_summary(s, ts1, kind);
        assert(is_tag_summary(s, ts2, kind));
        let a = tag_summary(ts1, kind);
        let b = tag_summary(ts2, kind);
        assert(is_tag_summary(b, ts1, kind));
        lemma_tag_summary_unique(a, b, ts1, kind);
    }
}

/// Which bucket a dated task lands in, in terms of its due value: before
/// today is overdue; exactly today is today; after today and at most the
/// end of this week is this week; after that and at most the end of next
/// week is next week; anything later is later. Without week cutoffs every
/// dated task is later. This holds for either start of the week.
pub proof fn law_bucket_by_due_value(d: Seq<char>, today: Seq<char>, week_start: WeekStart)
    ensures
        week_cutoffs(today, week_start) is None ==> bucket_of(Some(d), today, week_start)
            == ListDueBucket::Later,
        week_cutoffs(today, week_start) matches Some((a, b)) ==> {
            &&& (bucket_of(Some(d), today, week_start) == ListDueBucket::Overdue) <==> lex_lt(
                d,
                today,
            )
            &&& (bucket_of(Some(d), today, week_start) == ListDueBucket::Today) <==> d == today
            &&& (bucket_of(Some(d), today, week_start) == ListDueBucket::ThisWeek) <==> (lex_lt(
                today,
                d,
            ) && lex_le(d, a))
            &&& (bucket_of(Some(d), today, week_start) == ListDueBucket::NextWeek) <==> (lex_lt(
                today,
                d,
            ) && !lex_le(d, a) && lex_le(d, b))
            &&& (bucket_of(Some(d), today, week_start) == ListDueBucket::Later) <==> (lex_lt(
                today,
                d,
            ) && !lex_le(d, a) && !lex_le(d, b))
        },
{
    lemma_lex_irreflexive(d);
    lemma_lex_total(d, today);
    if lex_lt(d, today) {
        lemma_lex_asymmetric(d, today);
    }
    if lex_lt(today, d) {
        lemma_lex_asymmetric(today, d);
    }
}

/// The project and context filters admit a task exactly when the filtered
/// project (context) is one of the task's projects (contexts), at any
/// position in its list.
pub proof fn law_tag_filters_match_any_tag(t: TaskView, f: FilterView)
    ensures
        passes(t, f, None) <==> ((f.project matches Some(p) ==> exists|i: int|
            0 <= i < t.projects.len() && t.projects[i] == p) && (f.context matches Some(c)
            ==> exists|i: int| 0 <= i < t.contexts.len() && t.contexts[i] == c)),
{
}

/// In a list sorted by due date, undated tasks come after every dated one,
/// and dated tasks come in ascending order of their due values.
pub proof fn law_due_sort_order(out: Seq<usize>, tasks: Seq<Task>, a: int, b: int)
    requires
        sorted_by(out, tasks, Sort::Due),
        0 <= a < b < out.len(),
    ensures
        tasks[out[a] as int]@.due is None ==> tasks[out[b] as int]@.due is None,
        tasks[out[a] as int]@.due matches Some(da) ==> (tasks[out[b] as int]@.due matches Some(db)
            ==> lex_le(da, db)),
{
    let ka = idx_key(tasks, Sort::Due, out[a]);
    let kb = idx_key(tasks, Sort::Due, out[b]);
    assert(!key_lt(kb, ka));
    lemma_lex_total(ka.2, kb.2);
}

/// In a list sorted by priority, unprioritised tasks come after every
/// prioritised one, and prioritised tasks come in ascending order of their
/// letters; among tasks of one priority, undated tasks come after dated
/// ones.
pub proof fn law_priority_sort_order(out: Seq<usize>, tasks: Seq<Task>, a: int, b: int)
    requires
        sorted_by(out, tasks, Sort::Priority),
        0 <= a < b < out.len(),
    ensures
        tasks[out[a] as int]@.priority is None ==> tasks[out[b] as int]@.priority is None,
        tasks[out[a] as int]@.priority matches Some(pa) ==> (tasks[out[b] as int]@.priority matches Some(
            pb,
        ) ==> pa as int <= pb as int),
        tasks[out[a] as int]@.priority == tasks[out[b] as int]@.priority && tasks[out[a] as int]@.due
            is None ==> tasks[out[b] as int]@.due is None,
{
    let ka = idx_key(tasks, Sort::Priority, out[a]);
    let kb = idx_key(tasks, Sort::Priority, out[b]);
    assert(!key_lt(kb, ka));
    if let Some(p) = tasks[out[a] as int]@.priority {
        lemma_char_ranks_before_none(p);
    }
    if let Some(p) = tasks[out[b] as int]@.priority {
        lemma_char_ranks_before_none(p);
    }
}

/// A `due:` range in the search admits exactly the tasks whose due value
/// lies between its ends, both included, compared as strings; a task
/// without a due value never passes it.
pub proof fn law_due_range_inclusive(t: TaskView, f: FilterView, from: Seq<char>, to: Seq<char>)
    requires
        f.project is None,
        f.context is None,
    ensures
        passes(t, f, Some((seq![], Some((from, to))))) <==> (t.due is Some && lex_le(from, t.due->0)
            && lex_le(t.due->0, to)),
{
}

/// Done tasks are listed only when done tasks are shown; a task that is
/// not done is listed or not regardless of that flag.
pub proof fn law_done_visibility(
    t: TaskView,
    show_future: bool,
    today: Seq<char>,
    f: FilterView,
    needle: Option<(Seq<char>, Option<(Seq<char>, Seq<char>)>)>,
)
    ensures
        t.done ==> !listed(t, false, show_future, today, f, needle),
        !t.done ==> listed(t, false, show_future, today, f, needle) == listed(
            t,
            true,
            show_future,
            today,
            f,
            needle,
        ),
        listed(t, true, true, today, f, needle) == passes(t, f, needle),
{
}

/// A task that passes the list predicate passes the user's filters.
pub proof fn law_listed_implies_passes(
    t: TaskView,
    show_done: bool,
    show_future: bool,
    today: Seq<char>,
    f: FilterView,
    needle: Option<(Seq<char>, Option<(Seq<char>, Seq<char>)>)>,
)
    requires
        listed(t, show_done, show_future, today, f, needle),
    ensures
        passes(t, f, needle),
        t.done ==> show_done,
{
}

/// A task lands in the no-due-date bucket exactly when it has no due value.
pub proof fn law_undated_bucket(due: Option<Seq<char>>, today: Seq<char>, week_start: WeekStart)
    ensures
        (bucket_of(due, today, week_start) == ListDueBucket::NoDue) <==> due is None,
{
}

/// A task without a threshold is never hidden as future.
pub proof fn law_no_threshold_never_future(t: TaskView, today: Seq<char>)
    requires
        t.threshold is None,
    ensures
        !future_threshold(t, today),
{
}

/// The week cutoffs of day `d`: this week ends within six days, on the
/// week's last day, and next week ends seven days later, also on a last
/// day.
pub proof fn law_week_end_is_last_day(d: int, week_start: WeekStart)
    ensures
        d <= week_end_days(d, week_start).0 <= d + 6,
        week_end_days(d, week_start).1 == week_end_days(d, week_start).0 + 7,
        days_into_week(week_end_days(d, week_start).0, week_start) == 6,
        days_into_week(week_end_days(d, week_start).1, week_start) == 6,
{
    let (e1, e2) = week_end_days(d, week_start);
    match week_start {
        WeekStart::Sunday => {
            vstd::arithmetic::div_mod::lemma_fundamental_div_mod(d, 7);
            let q = d / 7;
            assert(e1 == 7 * q + 6);
            vstd::arithmetic::div_mod::lemma_mod_multiples_vanish(q, 6, 7);
            vstd::arithmetic::div_mod::lemma_mod_multiples_vanish(q + 1, 6, 7);
            assert(e2 == 7 * (q + 1) + 6);
        },
        WeekStart::Monday => {
            vstd::arithmetic::div_mod::lemma_fundamental_div_mod(d + 6, 7);
            let q = (d + 6) / 7;
            assert(e1 + 6 == 7 * q + 6);
            vstd::arithmetic::div_mod::lemma_mod_multiples_vanish(q, 6, 7);
            vstd::arithmetic::div_mod::lemma_mod_multiples_vanish(q + 1, 6, 7);
            assert(e2 + 6 == 7 * (q + 1) + 6);
        },
    }
}

proof fn lemma_filter_keeps_count(s: Seq<usize>, p: spec_fn(usize) -> bool, x: usize)
    requires
        p(x),
    ensures
        s.filter(p).to_multiset().count(x) == s.to_multiset().count(x),
    decreases s.len(),
{
    broadcast use vstd::seq_lib::group_to_multiset_ensures;

    if s.len() > 0 {
        let r = s.drop_last();
        lemma_filter_keeps_count(r, p, x);
        assert(r.push(s.last()) =~= s);
        r.lemma_filter_push(s.last(), p);
    } else {
        assert(s.filter(p) =~= s) by {
            reveal(Seq::filter);
        }
    }
}

/// A stable sort only reorders: the result holds each index as often as
/// the input did.
pub proof fn law_stable_sort_permutes(out: Seq<usize>, inp: Seq<usize>, tasks: Seq<Task>, sort: Sort)
    requires
        stable_sort_of(out, inp, tasks, sort),
    ensures
        out.to_multiset() =~= inp.to_multiset(),
{
    assert forall|x: usize| out.to_multiset().count(x) == inp.to_multiset().count(x) by {
        let p = with_key(tasks, sort, idx_key(tasks, sort, x));
        lemma_filter_keeps_count(out, p, x);
        lemma_filter_keeps_count(inp, p, x);
        assert(out.filter(p) == inp.filter(p));
    }
}

} // verus!
