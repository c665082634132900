use todo_tui::app::{App, Mode, SavedFilter};
use todo_tui::picker::step;
use todo_tui::todo::parse_file;

const TODO_RAW: &str = "(A) 2026-05-01 Finish quarterly report +work @office due:2026-05-10
(B) 2026-05-02 Book dentist appointment +health @phone
2026-05-03 Review pull requests +work @computer
Plan team offsite +work +travel @office
Go for a run +health @outside
Pay credit card bill +finance @computer due:2026-05-15
Fix leaky faucet +home @house
Read Rust book chapter +learning @home
Call grandma +personal @phone
Schedule annual checkup +health +work @phone
x 2026-05-01 2026-04-20 Submit expense report +work @computer
";

fn build_app(raw: &str) -> App {
    App::new(parse_file(raw), "2026-05-05".to_string())
}

#[test]
fn step_forward_wraps() {
    let all = vec![
        "finance".to_string(),
        "health".to_string(),
        "work".to_string(),
    ];
    assert_eq!(step(&all, None, true), "finance".to_string());
    assert_eq!(step(&all, Some("finance"), true), "health".to_string());
    assert_eq!(step(&all, Some("health"), true), "work".to_string());
    assert_eq!(step(&all, Some("work"), true), "finance".to_string());
}

#[test]
fn step_backward_wraps() {
    let all = vec![
        "finance".to_string(),
        "health".to_string(),
        "work".to_string(),
    ];
    assert_eq!(step(&all, Some("finance"), false), "work".to_string());
    assert_eq!(step(&all, Some("work"), false), "health".to_string());
    assert_eq!(step(&all, Some("health"), false), "finance".to_string());
}

#[test]
fn pick_cancel_clears_only_relevant_filter() {
    let mut app = build_app(TODO_RAW);
    // Pretend the user already had a project filter set, then opened
    // the context picker. Cancelling the context picker must keep the
    // project filter intact.
    app.filter.project = Some("work".into());
    app.enter_pick_context();
    assert!(app.filter.context.is_some());
    app.pick_cancel();
    assert_eq!(app.filter.project.as_deref(), Some("work"));
    assert!(app.filter.context.is_none());
    assert_eq!(app.mode, Mode::Normal);
}

#[test]
fn pick_saved_seeds_first_steps_and_cancel_reverts() {
    let mut app = build_app(TODO_RAW);
    app.saved_filters = vec![
        SavedFilter {
            name: "a".into(),
            query: "alpha".into(),
        },
        SavedFilter {
            name: "b".into(),
            query: "beta".into(),
        },
    ];
    app.set_search("pre".into()); // an unrelated search active beforehand
    app.enter_pick_saved();
    assert_eq!(app.mode, Mode::PickSavedFilter);
    // No saved query equals "pre", so it seeds to the first filter.
    assert_eq!(app.filter().search, "alpha");
    app.pick_step(true);
    assert_eq!(app.filter().search, "beta");
    app.pick_step(true); // wraps
    assert_eq!(app.filter().search, "alpha");
    app.pick_cancel();
    assert_eq!(app.mode, Mode::Normal);
    assert_eq!(app.filter().search, "pre"); // reverted to pre-picker search
}

#[test]
fn pick_saved_seeds_from_active_query_and_commit_keeps() {
    let mut app = build_app(TODO_RAW);
    app.saved_filters = vec![
        SavedFilter {
            name: "a".into(),
            query: "alpha".into(),
        },
        SavedFilter {
            name: "b".into(),
            query: "beta".into(),
        },
    ];
    app.set_search("beta".into());
    app.enter_pick_saved();
    // The active search matches filter "b", so it seeds there.
    assert_eq!(app.filter().search, "beta");
    app.pick_step(true); // wraps to "a"
    assert_eq!(app.filter().search, "alpha");
    app.pick_accept();
    assert_eq!(app.mode, Mode::Normal);
    assert_eq!(app.filter().search, "alpha"); // commit keeps the preview
}

#[test]
fn enter_pick_saved_empty_flashes_and_stays_normal() {
    let mut app = build_app(TODO_RAW);
    app.enter_pick_saved();
    assert_eq!(app.mode, Mode::Normal);
    assert_eq!(app.flash_active(), Some("no saved filters"));
}

#[test]
fn pick_saved_steps_by_index_through_duplicate_queries() {
    // Two filters share a query; selection must track the index, not
    // be re-derived from `filter.search` (which can't tell them apart
    // and would strand j/k on the first match).
    let mut app = build_app(TODO_RAW);
    app.saved_filters = vec![
        SavedFilter {
            name: "a".into(),
            query: "dup".into(),
        },
        SavedFilter {
            name: "b".into(),
            query: "dup".into(),
        },
        SavedFilter {
            name: "c".into(),
            query: "other".into(),
        },
    ];
    app.enter_pick_saved();
    assert_eq!(app.flash_active(), Some("a  (1/3)"));
    app.pick_step(true);
    assert_eq!(app.flash_active(), Some("b  (2/3)"));
    assert_eq!(app.filter().search, "dup");
    app.pick_step(true);
    assert_eq!(app.flash_active(), Some("c  (3/3)"));
    assert_eq!(app.filter().search, "other");
    app.pick_step(true); // wraps
    assert_eq!(app.flash_active(), Some("a  (1/3)"));
    assert_eq!(app.filter().search, "dup");
    app.pick_step(false); // back-wrap to "c"
    assert_eq!(app.flash_active(), Some("c  (3/3)"));
}

#[test]
fn picker_seeds_from_cursor_task_and_steps() {
    let mut app = build_app(TODO_RAW);
    // Cursor task's first project is "work". Sidebar order is by count
    // desc, name asc: [work(4), health(3), finance(1), home(1),
    // learning(1), personal(1), travel(1)].
    app.enter_pick_project();
    assert!(matches!(app.mode, Mode::PickProject));
    assert_eq!(app.filter.project.as_deref(), Some("work"));
    // Forward: work → health
    app.pick_step(true);
    assert_eq!(app.filter.project.as_deref(), Some("health"));
    // Forward: health → finance
    app.pick_step(true);
    assert_eq!(app.filter.project.as_deref(), Some("finance"));
    // Backward from finance → health
    app.pick_step(false);
    assert_eq!(app.filter.project.as_deref(), Some("health"));
}

#[test]
fn project_picker_flashes_position_and_filters_list() {
    let mut app = build_app(TODO_RAW);
    app.enter_pick_project();
    assert_eq!(app.flash_active(), Some("+work  (1/7)"));
    // Only tasks tagged +work remain visible (the done one stays hidden).
    assert_eq!(app.visible, vec![0, 2, 3, 9]);
    assert_eq!(app.cursor, 0);
    app.pick_step(false); // wraps back to the last project
    assert_eq!(app.filter.project.as_deref(), Some("travel"));
    assert_eq!(app.flash_active(), Some("+travel  (7/7)"));
    app.pick_cancel();
    assert!(app.filter.project.is_none());
    assert_eq!(app.visible.len(), 10);
}

#[test]
fn context_picker_seeds_from_active_filter_when_cursor_task_lacks_one() {
    let mut app = build_app("alpha task\nbeta @phone\ngamma @home\n");
    // The cursor task ("alpha task") has no context, so the seed falls
    // back to the active context filter.
    app.filter.context = Some("phone".into());
    app.enter_pick_context();
    assert_eq!(app.filter.context.as_deref(), Some("phone"));
    assert_eq!(app.flash_active(), Some("@phone  (2/2)"));
    // Without an active filter the first context on offer is used.
    let mut app = build_app("alpha task\nbeta @phone\ngamma @home\n");
    app.enter_pick_context();
    assert_eq!(app.filter.context.as_deref(), Some("home"));
}

#[test]
fn project_picker_falls_back_to_alphabetical_first() {
    // "work" is used more often, so it leads the sidebar order, but with no
    // cursor project and no filter the seed is the alphabetically first.
    let mut app = build_app("plain task\nw1 +work\nw2 +work\na1 +alpha\n");
    app.enter_pick_project();
    assert_eq!(app.mode, Mode::PickProject);
    assert_eq!(app.filter.project.as_deref(), Some("alpha"));
    assert_eq!(app.flash_active(), Some("+alpha  (2/2)"));
    assert_eq!(app.cursor, 0);
}

#[test]
fn enter_pick_project_without_projects_flashes() {
    let mut app = build_app("plain task\n");
    app.enter_pick_project();
    assert_eq!(app.mode, Mode::Normal);
    assert_eq!(app.flash_active(), Some("no projects"));
    app.enter_pick_context();
    assert_eq!(app.flash_active(), Some("no contexts"));
}

#[test]
fn begin_rename_uses_active_filter_name() {
    let mut app = build_app(TODO_RAW);
    app.begin_rename_project();
    assert_eq!(app.mode, Mode::Normal); // no project filter: nothing happens
    app.filter.project = Some("work".into());
    app.begin_rename_project();
    assert_eq!(app.mode, Mode::PromptRenameProject);
    assert_eq!(app.draft, "work");
    app.filter.context = Some("phone".into());
    app.begin_rename_context();
    assert_eq!(app.mode, Mode::PromptRenameContext);
    assert_eq!(app.draft, "phone");
}

#[test]
fn step_forward_then_back_returns_to_start() {
    let all = vec!["a".to_string(), "b".to_string(), "c".to_string()];
    for cur in ["a", "b", "c"] {
        let next = step(&all, Some(cur), true);
        assert_eq!(step(&all, Some(next.as_str()), false), cur);
    }
    // An unknown current value starts from the first entry.
    assert_eq!(step(&all, Some("zzz"), false), "a");
}

#[test]
fn try_new_builds_the_same_state_as_new() {
    let tasks = parse_file("a +work @home\nb\n");
    let app = App::try_new(tasks, "2026-05-05".to_string()).unwrap();
    assert_eq!(app.mode, Mode::Normal);
    assert_eq!(app.visible, vec![0, 1]);
    assert_eq!(app.cursor, 0);
    assert!(app.flash_active().is_none());
}
