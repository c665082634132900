use todo_tui::app::{Filter, Sort, WeekStart};
use todo_tui::filter::{
    due_bucket, get_week_cutoff, is_future_threshold, list_predicate, ordered_unique,
    passes_user_filter, resolve_needle, sort_by_prefs, tag_total_fits, unique_values,
    ListDueBucket, ResolvedNeedle, TagKind,
};
use todo_tui::todo::parse_file;

#[test]
fn unique_values_dedups_and_sorts() {
    let raw = "(A) 2026-05-01 a +work +health\n2026-05-01 b +work\n2026-05-01 c +health\n";
    let tasks = parse_file(raw);
    let projects = unique_values(&tasks, TagKind::Project);
    assert_eq!(projects, vec!["health".to_string(), "work".to_string()]);
}

fn resolved(needle: &str, today: &str) -> ResolvedNeedle {
    resolve_needle(needle, today)
}

#[test]
fn due_exact_date_matches_structurally() {
    let raw = "buy milk due:2026-08-01\nbuy eggs due:2026-08-02\n";
    let tasks = parse_file(raw);
    let filter = Filter::default();
    let needle = resolved("due:2026-08-01", "2026-07-28");
    assert!(passes_user_filter(&tasks[0], &filter, Some(&needle)));
    assert!(!passes_user_filter(&tasks[1], &filter, Some(&needle)));
}

#[test]
fn due_plus_range_matches_within_window() {
    let raw = "today due:2026-07-28\nin range due:2026-08-04\nout of range due:2026-08-05\n";
    let tasks = parse_file(raw);
    let filter = Filter::default();
    let needle = resolved("due:+1w", "2026-07-28");
    for t in &tasks[..2] {
        assert!(passes_user_filter(t, &filter, Some(&needle)));
    }
    assert!(!passes_user_filter(&tasks[2], &filter, Some(&needle)));
}

#[test]
fn due_minus_range_matches_past_window() {
    let raw = "recent due:2026-07-25\ntoday due:2026-07-28\ntoo old due:2026-07-24\n";
    let tasks = parse_file(raw);
    let filter = Filter::default();
    let needle = resolved("due:-3d", "2026-07-28");
    for t in &tasks[..2] {
        assert!(passes_user_filter(t, &filter, Some(&needle)));
    }
    assert!(!passes_user_filter(&tasks[2], &filter, Some(&needle)));
}

#[test]
fn due_term_with_no_task_due_date_never_matches() {
    let raw = "no due date at all\n";
    let tasks = parse_file(raw);
    let filter = Filter::default();
    let needle = resolved("due:+1w", "2026-07-28");
    assert!(!passes_user_filter(&tasks[0], &filter, Some(&needle)));
}

#[test]
fn invalid_due_term_falls_back_to_literal_search() {
    let raw = "note due:xyz reminder\nunrelated task\n";
    let tasks = parse_file(raw);
    let filter = Filter::default();
    let needle = resolved("due:xyz", "2026-07-28");
    assert!(passes_user_filter(&tasks[0], &filter, Some(&needle)));
    assert!(!passes_user_filter(&tasks[1], &filter, Some(&needle)));
}

#[test]
fn second_due_term_falls_back_to_literal_text() {
    // Only the first `due:` term is honored; the second is literal text,
    // so a match here only happens to work because "2026-07-31 do"
    // spells out a `due:-3d` subsequence.
    let raw = "due:2026-07-31 do it\ndue:2026-08-01 other task\n";
    let tasks = parse_file(raw);
    let filter = Filter::default();
    let needle = resolved("due:+1w due:-3d", "2026-07-28");
    assert!(passes_user_filter(&tasks[0], &filter, Some(&needle)));
    assert!(!passes_user_filter(&tasks[1], &filter, Some(&needle)));
}

#[test]
fn malformed_task_due_value_compares_lexicographically() {
    // `due:` isn't validated as a real date — the range check is a plain
    // string compare, same as `due_bucket`/`cmp_due`.
    let raw = "garbage due:tbd\nin range due:2026-08-01\n";
    let tasks = parse_file(raw);
    let filter = Filter::default();
    let needle = resolved("due:+1w", "2026-07-28");
    assert!(!passes_user_filter(&tasks[0], &filter, Some(&needle)));
    assert!(passes_user_filter(&tasks[1], &filter, Some(&needle)));
}

#[test]
fn due_term_combined_with_free_text() {
    let raw = "buy groceries due:2026-08-01\nbuy stamps due:2026-08-01\n";
    let tasks = parse_file(raw);
    let filter = Filter::default();
    let needle = resolved("due:+1w groceries", "2026-07-28");
    assert!(passes_user_filter(&tasks[0], &filter, Some(&needle)));
    assert!(!passes_user_filter(&tasks[1], &filter, Some(&needle)));
}

#[test]
fn get_week_cutoffs_for_all_configs() {
    let (end_this_week, end_next_week) = get_week_cutoff("2026-06-18", &WeekStart::Sunday)
        .expect("unable to get the week cutoff date");
    assert_eq!(end_this_week, "2026-06-20");
    assert_eq!(end_next_week, "2026-06-27");

    let (end_this_week, end_next_week) = get_week_cutoff("2026-06-18", &WeekStart::Monday)
        .expect("unable to get the week cutoff date");
    assert_eq!(end_this_week, "2026-06-21");
    assert_eq!(end_next_week, "2026-06-28");
}

#[test]
fn week_cutoff_on_last_day_of_week_is_today() {
    // 2026-06-20 is a Saturday.
    assert_eq!(
        get_week_cutoff("2026-06-20", &WeekStart::Sunday),
        Some(("2026-06-20".to_string(), "2026-06-27".to_string()))
    );
    assert_eq!(get_week_cutoff("not a date", &WeekStart::Monday), None);
}

#[test]
fn resolve_needle_keeps_text_without_due_term() {
    let n = resolve_needle("buy  milk", "2026-07-28");
    assert_eq!(n.text, "buy  milk");
    let n = resolve_needle("buy due:+1d  milk", "2026-07-28");
    assert_eq!(n.text, "buy milk");
    // Without a parseable today nothing is extracted.
    let n = resolve_needle("due:+1d", "yesterday");
    assert_eq!(n.text, "due:+1d");
}

#[test]
fn project_and_context_filters_combine() {
    let tasks = parse_file("call bob +work @phone\ncall mom +family @phone\nemail +work @computer\n");
    let filter = Filter {
        project: Some("work".to_string()),
        context: Some("phone".to_string()),
        search: String::new(),
    };
    assert!(passes_user_filter(&tasks[0], &filter, None));
    assert!(!passes_user_filter(&tasks[1], &filter, None));
    assert!(!passes_user_filter(&tasks[2], &filter, None));
}

#[test]
fn search_is_case_insensitive_subsequence_of_body() {
    let tasks = parse_file("(A) Buy Groceries\n");
    let filter = Filter::default();
    assert!(passes_user_filter(&tasks[0], &filter, Some(&resolve_needle("bgro", "2026-07-28"))));
    // The priority marker is not part of the body.
    assert!(!passes_user_filter(&tasks[0], &filter, Some(&resolve_needle("(a)", "2026-07-28"))));
}

#[test]
fn due_buckets() {
    let tasks = parse_file(
        "a due:2026-06-17\nb due:2026-06-18\nc due:2026-06-20\nd due:2026-06-27\ne due:2026-06-28\nf\n",
    );
    let today = "2026-06-18";
    let ws = WeekStart::Sunday;
    let buckets: Vec<ListDueBucket> = tasks.iter().map(|t| due_bucket(t, today, &ws)).collect();
    assert_eq!(
        buckets,
        vec![
            ListDueBucket::Overdue,
            ListDueBucket::Today,
            ListDueBucket::ThisWeek,
            ListDueBucket::NextWeek,
            ListDueBucket::Later,
            ListDueBucket::NoDue,
        ]
    );
    // A dated task lands in Later when today cannot be parsed.
    assert_eq!(due_bucket(&tasks[0], "someday", &ws), ListDueBucket::Later);
}

#[test]
fn bucket_labels() {
    assert_eq!(ListDueBucket::Overdue.label(), "OVERDUE");
    assert_eq!(ListDueBucket::Today.label(), "TODAY");
    assert_eq!(ListDueBucket::ThisWeek.label(), "THIS WEEK");
    assert_eq!(ListDueBucket::NextWeek.label(), "NEXT WEEK");
    assert_eq!(ListDueBucket::Later.label(), "LATER");
    assert_eq!(ListDueBucket::NoDue.label(), "NO DUE DATE");
}

#[test]
fn sort_by_priority_then_due_is_stable() {
    let tasks = parse_file(
        "(B) one due:2026-01-02\nno priority\n(A) two\n(B) three due:2026-01-01\n(B) four due:2026-01-02\nalso none\n",
    );
    let mut idxs: Vec<usize> = (0..tasks.len()).collect();
    sort_by_prefs(&mut idxs, &tasks, Sort::Priority);
    assert_eq!(idxs, vec![2, 3, 0, 4, 1, 5]);

    let mut idxs: Vec<usize> = (0..tasks.len()).collect();
    sort_by_prefs(&mut idxs, &tasks, Sort::Due);
    assert_eq!(idxs, vec![3, 0, 4, 1, 2, 5]);

    let mut idxs: Vec<usize> = vec![5, 1, 3];
    sort_by_prefs(&mut idxs, &tasks, Sort::File);
    assert_eq!(idxs, vec![5, 1, 3]);
}

#[test]
fn undated_tasks_sort_after_every_dated_one() {
    let tasks = parse_file("undated\nlate due:zz\nearly due:2026-01-01\n");
    let mut idxs: Vec<usize> = (0..tasks.len()).collect();
    sort_by_prefs(&mut idxs, &tasks, Sort::Due);
    assert_eq!(idxs, vec![2, 1, 0]);
}

#[test]
fn unprioritised_tasks_sort_after_every_prioritised_one() {
    let tasks = parse_file("none due:a\n(Z) last letter\n(Z) dated due:2026-01-01\n");
    let mut idxs: Vec<usize> = (0..tasks.len()).collect();
    sort_by_prefs(&mut idxs, &tasks, Sort::Priority);
    assert_eq!(idxs, vec![2, 1, 0]);
}

#[test]
fn file_order_reads_no_task() {
    let tasks = parse_file("only one\n");
    let mut idxs: Vec<usize> = vec![7, 3];
    sort_by_prefs(&mut idxs, &tasks, Sort::File);
    assert_eq!(idxs, vec![7, 3]);
}

#[test]
fn future_threshold_hides_until_due() {
    let tasks = parse_file(
        "later t:2026-08-01\nnow t:2026-07-01\nrelative t:-2d due:2026-07-31\nbad t:soon\nno anchor t:-1d\ncreated 2026-07-20 t:+1w\n",
    );
    let today = "2026-07-28";
    assert!(is_future_threshold(&tasks[0], today));
    assert!(!is_future_threshold(&tasks[1], today));
    // 2026-07-31 - 2 days = 2026-07-29, after today.
    assert!(is_future_threshold(&tasks[2], today));
    assert!(!is_future_threshold(&tasks[3], today));
    assert!(!is_future_threshold(&tasks[4], today));
    // Created 2026-07-20 + 1 week = 2026-07-27, not after today.
    assert!(!is_future_threshold(&tasks[5], today));
}

#[test]
fn list_predicate_hides_done_and_future() {
    let tasks = parse_file("x done task\nlater t:2099-01-01\nplain\n");
    let filter = Filter::default();
    let today = "2026-07-28";
    assert!(!list_predicate(&tasks[0], false, false, today, &filter, None));
    assert!(list_predicate(&tasks[0], true, false, today, &filter, None));
    assert!(!list_predicate(&tasks[1], false, false, today, &filter, None));
    assert!(list_predicate(&tasks[1], false, true, today, &filter, None));
    assert!(list_predicate(&tasks[2], false, false, today, &filter, None));
}

#[test]
fn ordered_unique_counts_open_tasks_only() {
    let tasks = parse_file("a @home @home\nb @work\nx c @work @work\nd @work\n");
    let contexts = ordered_unique(&tasks, TagKind::Context);
    assert_eq!(
        contexts,
        vec![("home".to_string(), 2), ("work".to_string(), 2)]
    );
    let tasks = parse_file("a +b\nc +a\nd +b\n");
    assert_eq!(
        ordered_unique(&tasks, TagKind::Project),
        vec![("b".to_string(), 2), ("a".to_string(), 1)]
    );
}

#[test]
fn done_tasks_leave_tag_summary_unchanged() {
    let open = parse_file("a +work\nb +work @home\nc +alpha\n");
    let with_done = parse_file("a +work\nx done +zeta +alpha @office\nb +work @home\nx +work\nc +alpha\n");
    assert_eq!(
        ordered_unique(&open, TagKind::Project),
        ordered_unique(&with_done, TagKind::Project)
    );
    assert_eq!(
        unique_values(&open, TagKind::Context),
        unique_values(&with_done, TagKind::Context)
    );
}

#[test]
fn tag_totals_fit_for_ordinary_lists() {
    let tasks = parse_file("a +work +home @phone\nx done +many +more\n");
    assert!(tag_total_fits(&tasks, TagKind::Project));
    assert!(tag_total_fits(&tasks, TagKind::Context));
    assert!(tag_total_fits(&[], TagKind::Project));
}

#[test]
fn later_due_never_lands_in_earlier_bucket() {
    let dues = [
        "2026-06-01", "2026-06-17", "2026-06-18", "2026-06-19", "2026-06-21", "2026-06-22",
        "2026-06-28", "2026-06-29", "2027-01-01", "tbd",
    ];
    let rank = |b: ListDueBucket| match b {
        ListDueBucket::Overdue => 0,
        ListDueBucket::Today => 1,
        ListDueBucket::ThisWeek => 2,
        ListDueBucket::NextWeek => 3,
        ListDueBucket::Later => 4,
        ListDueBucket::NoDue => 5,
    };
    for ws in [WeekStart::Monday, WeekStart::Sunday] {
        let mut last = 0;
        for d in dues {
            let t = &parse_file(&format!("task due:{d}\n"))[0];
            let r = rank(due_bucket(t, "2026-06-18", &ws));
            assert!(r >= last, "{d} went back to an earlier bucket");
            last = r;
        }
    }
}

#[test]
fn week_cutoffs_sort_after_today() {
    for ws in [WeekStart::Monday, WeekStart::Sunday] {
        for today in ["2026-06-18", "2026-06-20", "2026-06-21", "0000-01-01", "9999-12-10"] {
            let (a, b) = get_week_cutoff(today, &ws).unwrap();
            assert!(today <= a.as_str() && a < b, "{today}");
        }
    }
}

#[test]
fn unicode_whitespace_separates_search_terms() {
    let tasks = parse_file("buy groceries due:2026-08-01\nbuy stamps due:2026-08-01\n");
    let filter = Filter::default();
    let needle = resolved("due:+1w\u{3000}groceries", "2026-07-28");
    assert_eq!(needle.text, "groceries");
    assert!(passes_user_filter(&tasks[0], &filter, Some(&needle)));
    assert!(!passes_user_filter(&tasks[1], &filter, Some(&needle)));
}
