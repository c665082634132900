use todo_tui::app::Filter;
use todo_tui::header::{filter_label, header_spans, HeaderProps, HeaderStyle};

fn filter(project: Option<&str>, context: Option<&str>, search: &str) -> Filter {
    Filter {
        project: project.map(String::from),
        context: context.map(String::from),
        search: search.to_string(),
    }
}

#[test]
fn no_active_filter_has_no_label() {
    assert_eq!(filter_label(&filter(None, None, "")), None);
}

#[test]
fn single_project_shows_just_the_project() {
    assert_eq!(
        filter_label(&filter(Some("shop"), None, "")),
        Some("+shop".to_string())
    );
}

#[test]
fn single_context_shows_just_the_context() {
    assert_eq!(
        filter_label(&filter(None, Some("home"), "")),
        Some("@home".to_string())
    );
}

#[test]
fn project_and_context_together_show_both() {
    assert_eq!(
        filter_label(&filter(Some("shop"), Some("home"), "")),
        Some("+shop @home".to_string())
    );
}

#[test]
fn project_context_and_search_all_show_together() {
    assert_eq!(
        filter_label(&filter(Some("shop"), Some("home"), "milk")),
        Some("+shop @home /milk".to_string())
    );
}

#[test]
fn search_alone_shows_slash_query() {
    assert_eq!(
        filter_label(&filter(None, None, "due:+1w milk")),
        Some("/due:+1w milk".to_string())
    );
}

#[test]
fn header_pieces_in_order() {
    let props = HeaderProps {
        title: Some("Inbox"),
        count: 12,
        sort: "due",
        filter: Some("+shop"),
    };
    let spans = header_spans(&props);
    let texts: Vec<&str> = spans.iter().map(|s| s.text.as_str()).collect();
    assert_eq!(
        texts,
        vec![" ", "▶", "▮", "◀", " ", "Inbox", "  •  ", "12 tasks", "  •  ", "sort:due", "   ", "filter:+shop"]
    );
    assert_eq!(spans[5].style, HeaderStyle::Title);
    assert_eq!(spans[9].style, HeaderStyle::Accent);
    assert_eq!(spans[11].style, HeaderStyle::Context);
}

#[test]
fn header_without_title_or_filter() {
    let props = HeaderProps {
        title: None,
        count: 0,
        sort: "file",
        filter: None,
    };
    let spans = header_spans(&props);
    let texts: Vec<&str> = spans.iter().map(|s| s.text.as_str()).collect();
    assert_eq!(texts, vec![" ", "▶", "▮", "◀", " ", "  •  ", "0 tasks", "  •  ", "sort:file"]);
}
