//! The application state that the pickers and list views work on.

use vstd::prelude::*;
use crate::filter::{
    ResolvedNeedle, TagKind, extracted, list_predicate, listed, needle_view, resolve_needle,
    sort_by_prefs, stable_sort_of, tag_total, tag_total_fits,
};
use crate::todo::{Task, TaskView, opt_view, task_views};

verus! {

/// Which day a week starts on.
#[derive(Clone, Copy, Debug, PartialEq, Eq, Structural)]
pub enum WeekStart {
    Sunday,
    Monday,
}

/// The order of the task list.
#[derive(Clone, Copy, Debug, PartialEq, Eq, Structural)]
pub enum Sort {
    /// Priority first (`(A)` before `(B)`, none last), then due date.
    Priority,
    /// Due date, none last.
    Due,
    /// The order of the file.
    File,
}

/// The interaction mode.
#[derive(Clone, Copy, Debug, PartialEq, Eq, Structural)]
pub enum Mode {
    Normal,
    PickProject,
    PickContext,
    PickSavedFilter,
    PromptRenameProject,
    PromptRenameContext,
}

/// The user's filters: project, context and free-text search, combined
/// with AND.
#[derive(Debug)]
pub struct Filter {
    pub project: Option<String>,
    pub context: Option<String>,
    pub search: String,
}

/// What a filter holds, as character sequences.
pub struct FilterView {
    pub project: Option<Seq<char>>,
    pub context: Option<Seq<char>>,
    pub search: Seq<char>,
}

impl View for Filter {
    type V = FilterView;

    open spec fn view(&self) -> FilterView {
        FilterView {
            project: opt_view(self.project),
            context: opt_view(self.context),
            search: self.search@,
        }
    }
}

impl Default for Filter {
    /// No filter at all.
    fn default() -> (f: Filter)
        ensures
            f@.project is None,
            f@.context is None,
            f@.search.len() == 0,
    {
        Filter { project: None, context: None, search: String::new() }
    }
}

/// A named search query the user saved.
#[derive(Debug)]
pub struct SavedFilter {
    pub name: String,
    pub query: String,
}


/// The resolved form of a search string on day `today`: `None` for an
/// empty search; otherwise the free text and the `due:` range, if any.
pub open spec fn needle_of(search: Seq<char>, today: Seq<char>) -> Option<(Seq<char>, Option<(Seq<char>, Seq<char>)>)> {
    if search.len() == 0 {
        None
    } else {
        match extracted(search, today) {
            Some((rest, range)) => Some((rest, Some(range))),
            None => Some((search, None)),
        }
    }
}

/// The indices `0..n`.
pub open spec fn index_range(n: nat) -> Seq<usize> {
    Seq::new(n, |i: int| i as usize)
}

/// The indices of the tasks the list shows, in file order.
pub open spec fn shown_in_file_order(a: App) -> Seq<usize> {
    let needle = needle_of(a.filter@.search, a.today@);
    index_range(a.tasks@.len()).filter(
        |i: usize|
            listed(a.tasks@[i as int]@, a.show_done, a.show_future, a.today@, a.filter@, needle),
    )
}

/// The visible list is the shown tasks in the chosen sort order.
pub open spec fn view_consistent(a: App) -> bool {
    stable_sort_of(a.visible@, shown_in_file_order(a), a.tasks@, a.sort)
}

/// The state of the TUI that the pickers and list views work on.
pub struct App {
    pub tasks: Vec<Task>,
    pub filter: Filter,
    pub mode: Mode,
    /// Position in `visible`.
    pub cursor: usize,
    /// Indices into `tasks` of the listed tasks, in display order.
    pub visible: Vec<usize>,
    pub sort: Sort,
    pub show_done: bool,
    pub show_future: bool,
    /// Today as `YYYY-MM-DD`.
    pub today: String,
    pub week_start: WeekStart,
    pub saved_filters: Vec<SavedFilter>,
    /// The saved filter highlighted in the saved-filter picker.
    pub saved_pick_idx: usize,
    /// The search that was active when the saved-filter picker opened.
    pub saved_pick_restore: Option<String>,
    pub flash_msg: Option<String>,
    /// The text of the prompt being edited.
    pub draft: String,
}

impl App {
    /// What every method keeps: the visible list indexes into `tasks`, and
    /// the tag counts fit in `usize`.
    pub open spec fn wf(&self) -> bool {
        &&& forall|k: int| 0 <= k < self.visible@.len() ==> #[trigger] self.visible@[k] < self.tasks@.len()
        &&& tag_total(task_views(self.tasks@), TagKind::Project) <= usize::MAX
        &&& tag_total(task_views(self.tasks@), TagKind::Context) <= usize::MAX
    }

    /// A fresh state over `tasks`: no filter, file order, done and future
    /// tasks hidden, nothing saved.
    pub fn new(tasks: Vec<Task>, today: String) -> (app: App)
        requires
            tag_total(task_views(tasks@), TagKind::Project) <= usize::MAX,
            tag_total(task_views(tasks@), TagKind::Context) <= usize::MAX,
        ensures
            app.wf(),
            view_consistent(app),
            app.tasks@ == tasks@,
            app.today@ == today@,
            app.filter@.project is None,
            app.filter@.context is None,
            app.filter@.search.len() == 0,
            app.mode == Mode::Normal,
            app.cursor == 0,
            app.sort == Sort::File,
            app.week_start == WeekStart::Monday,
            !app.show_done,
            !app.show_future,
            app.saved_filters@.len() == 0,
            app.saved_pick_idx == 0,
            app.saved_pick_restore is None,
            app.flash_msg is None,
            app.draft@.len() == 0,
    {
        let mut app = App {
            tasks,
            filter: Filter::default(),
            mode: Mode::Normal,
            cursor: 0,
            visible: Vec::new(),
            sort: Sort::File,
            show_done: false,
            show_future: false,
            today,
            week_start: WeekStart::Monday,
            saved_filters: Vec::new(),
            saved_pick_idx: 0,
            saved_pick_restore: None,
            flash_msg: None,
            draft: String::new(),
        };
        app.recompute_visible();
        app
    }

    /// A fresh state as [`App::new`] builds it, or `None` when the tasks
    /// carry more projects or contexts than can be counted.
    pub fn try_new(tasks: Vec<Task>, today: String) -> (r: Option<App>)
        ensures
            r is Some <==> (tag_total(task_views(tasks@), TagKind::Project) <= usize::MAX
                && tag_total(task_views(tasks@), TagKind::Context) <= usize::MAX),
            r matches Some(app) ==> app.wf() && view_consistent(app) && app.tasks@ == tasks@
                && app.today@ == today@ && app.filter@.project is None
                && app.filter@.context is None && app.filter@.search.len() == 0
                && app.mode == Mode::Normal && app.cursor == 0 && app.sort == Sort::File
                && app.week_start == WeekStart::Monday && !app.show_done && !app.show_future
                && app.saved_filters@.len() == 0 && app.saved_pick_idx == 0
                && app.saved_pick_restore is None && app.flash_msg is None
                && app.draft@.len() == 0,
    {
        if tag_total_fits(tasks.as_slice(), TagKind::Project) && tag_total_fits(
            tasks.as_slice(),
            TagKind::Context,
        ) {
            Some(App::new(tasks, today))
        } else {
            None
        }
    }

    /// The loaded tasks.
    pub fn tasks(&self) -> (r: &Vec<Task>)
        ensures
            r == &self.tasks,
    {
        &self.tasks
    }

    /// The active filter.
    pub fn filter(&self) -> (r: &Filter)
        ensures
            r == &self.filter,
    {
        &self.filter
    }

    /// Shows a message in the status line.
    pub fn flash(&mut self, msg: String)
        ensures
            final(self).flash_msg == Some(msg),
            final(self).tasks == old(self).tasks,
            final(self).filter == old(self).filter,
            final(self).mode == old(self).mode,
            final(self).cursor == old(self).cursor,
            final(self).visible == old(self).visible,
            final(self).sort == old(self).sort,
            final(self).show_done == old(self).show_done,
            final(self).show_future == old(self).show_future,
            final(self).today == old(self).today,
            final(self).week_start == old(self).week_start,
            final(self).saved_filters == old(self).saved_filters,
            final(self).saved_pick_idx == old(self).saved_pick_idx,
            final(self).saved_pick_restore == old(self).saved_pick_restore,
            final(self).draft == old(self).draft,
    {
        self.flash_msg = Some(msg);
    }

    /// The message in the status line, if any.
    pub fn flash_active(&self) -> (r: Option<&str>)
        ensures
            match r {
                Some(s) => self.flash_msg matches Some(m) && s@ == m@,
                None => self.flash_msg is None,
            },
    {
        match &self.flash_msg {
            Some(m) => Some(m.as_str()),
            None => None,
        }
    }

    /// Replaces the prompt text.
    pub fn draft_set(&mut self, text: String)
        ensures
            final(self).draft == text,
            final(self).tasks == old(self).tasks,
            final(self).filter == old(self).filter,
            final(self).mode == old(self).mode,
            final(self).cursor == old(self).cursor,
            final(self).visible == old(self).visible,
            final(self).sort == old(self).sort,
            final(self).show_done == old(self).show_done,
            final(self).show_future == old(self).show_future,
            final(self).today == old(self).today,
            final(self).week_start == old(self).week_start,
            final(self).saved_filters == old(self).saved_filters,
            final(self).saved_pick_idx == old(self).saved_pick_idx,
            final(self).saved_pick_restore == old(self).saved_pick_restore,
            final(self).flash_msg == old(self).flash_msg,
    {
        self.draft = text;
    }

    /// The task under the cursor, as an index into `tasks`.
    pub fn cur_abs(&self) -> (r: Option<usize>)
        ensures
            r == (if self.cursor < self.visible@.len() {
                Some(self.visible@[self.cursor as int])
            } else {
                None::<usize>
            }),
    {
        if self.cursor < self.visible.len() {
            Some(self.visible[self.cursor])
        } else {
            None
        }
    }

    /// Rebuilds the visible list from the tasks, the flags, the filter and
    /// the sort, and keeps the cursor on the list.
    pub fn recompute_visible(&mut self)
        ensures
            view_consistent(*final(self)),
            forall|k: int|
                0 <= k < final(self).visible@.len() ==> #[trigger] final(self).visible@[k]
                    < final(self).tasks@.len(),
            final(self).cursor == (if old(self).cursor < final(self).visible@.len() {
                old(self).cursor
            } else if final(self).visible@.len() == 0 {
                0
            } else {
                (final(self).visible@.len() - 1) as usize
            }),
            final(self).tasks == old(self).tasks,
            final(self).filter == old(self).filter,
            final(self).mode == old(self).mode,
            final(self).sort == old(self).sort,
            final(self).show_done == old(self).show_done,
            final(self).show_future == old(self).show_future,
            final(self).today == old(self).today,
            final(self).week_start == old(self).week_start,
            final(self).saved_filters == old(self).saved_filters,
            final(self).saved_pick_idx == old(self).saved_pick_idx,
            final(self).saved_pick_restore == old(self).saved_pick_restore,
            final(self).flash_msg == old(self).flash_msg,
            final(self).draft == old(self).draft,
    {
        let needle: Option<ResolvedNeedle> = if self.filter.search.unicode_len() != 0 {
            Some(resolve_needle(self.filter.search.as_str(), self.today.as_str()))
        } else {
            None
        };
        let nref: Option<&ResolvedNeedle> = match &needle {
            Some(n) => Some(n),
            None => None,
        };
        let ghost nv = needle_of(self.filter@.search, self.today@);
        assert(needle_view(nref) == nv);
        let ghost pred = |i: usize|
            listed(
                self.tasks@[i as int]@,
                self.show_done,
                self.show_future,
                self.today@,
                self.filter@,
                nv,
            );
        let ghost all = index_range(self.tasks@.len());
        let mut vis: Vec<usize> = Vec::new();
        let mut i: usize = 0;
        proof {
            assert(all.take(0) =~= Seq::<usize>::empty());
        }
        while i < self.tasks.len()
            invariant
                i <= self.tasks@.len(),
                all == index_range(self.tasks@.len()),
                needle_view(nref) == nv,
                forall|j: usize|
                    #[trigger] pred(j) == listed(
                        self.tasks@[j as int]@,
                        self.show_done,
                        self.show_future,
                        self.today@,
                        self.filter@,
                        nv,
                    ),
                vis@ == all.take(i as int).filter(pred),
                forall|k: int| 0 <= k < vis@.len() ==> #[trigger] vis@[k] < i,
            decreases self.tasks@.len() - i,
        {
            let keep = list_predicate(
                &self.tasks[i],
                self.show_done,
                self.show_future,
                self.today.as_str(),
                &self.filter,
                nref,
            );
            proof {
                assert(keep == pred(i));
                assert(all.take(i as int + 1) =~= all.take(i as int).push(i));
                all.take(i as int).lemma_filter_push(i, pred);
            }
            if keep {
                vis.push(i);
            }
            i = i + 1;
        }
        proof {
            assert(all.take(self.tasks@.len() as int) =~= all);
        }
        let ghost unsorted = vis@;
        sort_by_prefs(vis.as_mut_slice(), self.tasks.as_slice(), self.sort);
        self.visible = vis;
        if self.cursor >= self.visible.len() {
            self.cursor = if self.visible.len() == 0 {
                0
            } else {
                self.visible.len() - 1
            };
        }
    }

    /// Replaces the search text and rebuilds the list from the top.
    pub fn set_search(&mut self, search: String)
        ensures
            final(self).filter.search == search,
            final(self).filter.project == old(self).filter.project,
            final(self).filter.context == old(self).filter.context,
            final(self).cursor == 0,
            view_consistent(*final(self)),
            final(self).tasks == old(self).tasks,
            final(self).mode == old(self).mode,
            final(self).saved_filters == old(self).saved_filters,
            final(self).saved_pick_idx == old(self).saved_pick_idx,
            final(self).saved_pick_restore == old(self).saved_pick_restore,
            final(self).flash_msg == old(self).flash_msg,
            final(self).sort == old(self).sort,
            final(self).show_done == old(self).show_done,
            final(self).show_future == old(self).show_future,
            final(self).today == old(self).today,
            final(self).week_start == old(self).week_start,
            final(self).draft == old(self).draft,
    {
        self.filter.search = search;
        self.cursor = 0;
        self.recompute_visible();
    }
}

} // verus!
