//! The project, context and saved-filter pickers: entering them, stepping
//! through their choices, and leaving them by accepting or cancelling.
//!
//! The part of the state a picker works on is modelled by [`PickerView`];
//! each operation's effect on it is a spec function, so the laws that
//! relate operations (cancelling restores, stepping back undoes stepping
//! forward) are stated over those functions.

use vstd::prelude::*;
use crate::app::{App, Mode, SavedFilter, view_consistent};
use crate::filter::{
    TagKind, entry_before, is_tag_summary, lemma_tag_summary_unique, tag_names, tag_summary,
    unique_values,
};
use crate::text::{
    decimal, lemma_lex_asymmetric, lemma_lex_total, lemma_lex_transitive, lex_le, push_char,
    push_decimal, push_str, str_eq, str_lt, views,
};
use crate::threshold::opt_str;
use crate::todo::{opt_view, task_views};

verus! {

/// The part of the application state the pickers work on.
pub struct PickerView {
    pub mode: Mode,
    pub project: Option<Seq<char>>,
    pub context: Option<Seq<char>>,
    pub search: Seq<char>,
    /// The search to go back to when the saved-filter picker is cancelled.
    pub restore: Option<Seq<char>>,
    /// The highlighted saved filter.
    pub saved_idx: int,
}

pub open spec fn picker_of(a: App) -> PickerView {
    PickerView {
        mode: a.mode,
        project: a.filter@.project,
        context: a.filter@.context,
        search: a.filter@.search,
        restore: opt_view(a.saved_pick_restore),
        saved_idx: a.saved_pick_idx as int,
    }
}

/// The queries of the saved filters, in order.
pub open spec fn saved_queries(a: App) -> Seq<Seq<char>> {
    a.saved_filters@.map_values(|f: SavedFilter| f.query@)
}

/// The projects the picker offers.
pub open spec fn all_projects(a: App) -> Seq<Seq<char>> {
    tag_names(task_views(a.tasks@), TagKind::Project)
}

/// The contexts the picker offers.
pub open spec fn all_contexts(a: App) -> Seq<Seq<char>> {
    tag_names(task_views(a.tasks@), TagKind::Context)
}

/// Position of the first occurrence of `x` in `s`.
pub open spec fn first_index(s: Seq<Seq<char>>, x: Seq<char>) -> Option<int>
    decreases s.len(),
{
    if s.len() == 0 {
        None
    } else if s[0] == x {
        Some(0)
    } else {
        match first_index(s.drop_first(), x) {
            Some(i) => Some(i + 1),
            None => None,
        }
    }
}

pub proof fn lemma_first_index(s: Seq<Seq<char>>, x: Seq<char>)
    ensures
        match first_index(s, x) {
            Some(i) => 0 <= i < s.len() && s[i] == x && forall|k: int| 0 <= k < i ==> s[k] != x,
            None => forall|k: int| 0 <= k < s.len() ==> s[k] != x,
        },
    decreases s.len(),
{
    if s.len() > 0 && s[0] != x {
        lemma_first_index(s.drop_first(), x);
        match first_index(s.drop_first(), x) {
            Some(i) => {
                assert forall|k: int| 0 <= k < i + 1 implies s[k] != x by {
                    if k > 0 {
                        assert(s[k] == s.drop_first()[k - 1]);
                    }
                }
            },
            None => {
                assert forall|k: int| 0 <= k < s.len() implies s[k] != x by {
                    if k > 0 {
                        assert(s[k] == s.drop_first()[k - 1]);
                    }
                }
            },
        }
    }
}

/// Where `x` sits in `s`, `0` when it is absent.
pub open spec fn position_in(s: Seq<Seq<char>>, x: Seq<char>) -> int {
    match first_index(s, x) {
        Some(i) => i,
        None => 0,
    }
}

/// The index after stepping one place from `cur` in a ring of `len`
/// entries; from nowhere, the first.
pub open spec fn step_index(len: int, cur: Option<int>, forward: bool) -> int {
    match cur {
        None => 0,
        Some(i) => if forward {
            (i + 1) % len
        } else {
            (i + len - 1) % len
        },
    }
}

/// Wrap-around step through `all` from `current` in the given direction.
pub open spec fn step_choice(all: Seq<Seq<char>>, current: Option<Seq<char>>, forward: bool) -> Seq<char> {
    let cur = match current {
        Some(c) => first_index(all, c),
        None => None,
    };
    all[step_index(all.len() as int, cur, forward)]
}

/// The first choice a tag picker highlights: the cursor task's first tag,
/// else the active filter, taking only tags on offer, else `fallback`.
pub open spec fn seed_choice(
    first: Option<Seq<char>>,
    current: Option<Seq<char>>,
    all: Seq<Seq<char>>,
    fallback: Seq<char>,
) -> Seq<char> {
    if first is Some && all.contains(first->0) {
        first->0
    } else if current is Some && all.contains(current->0) {
        current->0
    } else {
        fallback
    }
}

/// `m` is one of `all` and no tag of `all` sorts before it.
pub open spec fn is_least(all: Seq<Seq<char>>, m: Seq<char>) -> bool {
    &&& all.contains(m)
    &&& forall|x: Seq<char>| #[trigger] all.contains(x) ==> lex_le(m, x)
}

/// The alphabetically first tag of `all`.
pub open spec fn least_name(all: Seq<Seq<char>>) -> Seq<char> {
    choose|m: Seq<char>| is_least(all, m)
}

proof fn lemma_least_unique(all: Seq<Seq<char>>, a: Seq<char>, b: Seq<char>)
    requires
        is_least(all, a),
        is_least(all, b),
    ensures
        a == b,
{
    assert(lex_le(a, b));
    assert(lex_le(b, a));
    if a != b {
        lemma_lex_asymmetric(a, b);
    }
}

proof fn lemma_least_exists(all: Seq<Seq<char>>)
    requires
        all.len() > 0,
    ensures
        is_least(all, least_name(all)),
    decreases all.len(),
{
    if all.len() == 1 {
        assert(is_least(all, all[0])) by {
            assert forall|x: Seq<char>| #[trigger] all.contains(x) implies lex_le(all[0], x) by {
                let j = choose|j: int| 0 <= j < all.len() && all[j] == x;
            }
        }
    } else {
        let r = all.drop_last();
        lemma_least_exists(r);
        let m = least_name(r);
        let x = all.last();
        let best = if crate::text::lex_lt(x, m) {
            x
        } else {
            m
        };
        assert(is_least(all, best)) by {
            assert(r.contains(m));
            let k = choose|k: int| 0 <= k < r.len() && r[k] == m;
            assert(all[k] == m);
            assert(all[all.len() - 1] == x);
            lemma_lex_total(x, m);
            assert forall|y: Seq<char>| #[trigger] all.contains(y) implies lex_le(best, y) by {
                let j = choose|j: int| 0 <= j < all.len() && all[j] == y;
                if j < all.len() - 1 {
                    assert(r[j] == y);
                    assert(r.contains(y));
                    assert(lex_le(m, y));
                    if crate::text::lex_lt(x, m) && m != y {
                        lemma_lex_transitive(x, m, y);
                    }
                } else {
                    if best == m && m != x {
                    }
                }
            }
        }
    }
}

/// The fallback seed of each tag picker: the alphabetically first project,
/// and the first context in sidebar order.
pub open spec fn fallback_seed(kind: TagKind, all: Seq<Seq<char>>) -> Seq<char> {
    match kind {
        TagKind::Project => least_name(all),
        TagKind::Context => all[0],
    }
}

/// Opening a tag picker over the tags `all`, with `first` the cursor task's
/// first tag of that kind. Nothing changes when there are no tags.
pub open spec fn open_tag_picker(s: PickerView, kind: TagKind, all: Seq<Seq<char>>, first: Option<Seq<char>>) -> PickerView {
    if all.len() == 0 {
        s
    } else {
        match kind {
            TagKind::Project => PickerView {
                mode: Mode::PickProject,
                project: Some(seed_choice(first, s.project, all, fallback_seed(kind, all))),
                ..s
            },
            TagKind::Context => PickerView {
                mode: Mode::PickContext,
                context: Some(seed_choice(first, s.context, all, fallback_seed(kind, all))),
                ..s
            },
        }
    }
}

/// Opening the saved-filter picker over the saved queries `qs`: it
/// highlights the first saved filter whose query is the active search,
/// else the first one, previews its query, and remembers the search.
pub open spec fn open_saved_picker(s: PickerView, qs: Seq<Seq<char>>) -> PickerView {
    if qs.len() == 0 {
        s
    } else {
        let i = position_in(qs, s.search);
        PickerView {
            mode: Mode::PickSavedFilter,
            search: qs[i],
            restore: Some(s.search),
            saved_idx: i,
            ..s
        }
    }
}

/// One step inside the open picker.
pub open spec fn step_picker(
    s: PickerView,
    projects: Seq<Seq<char>>,
    contexts: Seq<Seq<char>>,
    qs: Seq<Seq<char>>,
    forward: bool,
) -> PickerView {
    match s.mode {
        Mode::PickProject => if projects.len() == 0 {
            s
        } else {
            PickerView { project: Some(step_choice(projects, s.project, forward)), ..s }
        },
        Mode::PickContext => if contexts.len() == 0 {
            s
        } else {
            PickerView { context: Some(step_choice(contexts, s.context, forward)), ..s }
        },
        Mode::PickSavedFilter => if qs.len() == 0 {
            s
        } else {
            let i = step_index(qs.len() as int, Some(s.saved_idx), forward);
            PickerView { saved_idx: i, search: qs[i], ..s }
        },
        _ => s,
    }
}

/// Accepting keeps the previewed filter and returns to normal mode; for the
/// saved-filter picker the remembered search is dropped.
pub open spec fn accept_picker(s: PickerView) -> PickerView {
    PickerView {
        mode: Mode::Normal,
        restore: if s.mode == Mode::PickSavedFilter {
            None
        } else {
            s.restore
        },
        ..s
    }
}

/// Cancelling clears only the filter being picked; the saved-filter picker
/// puts back the search it remembered. It returns to normal mode.
pub open spec fn cancel_picker(s: PickerView) -> PickerView {
    match s.mode {
        Mode::PickProject => PickerView { mode: Mode::Normal, project: None, ..s },
        Mode::PickContext => PickerView { mode: Mode::Normal, context: None, ..s },
        Mode::PickSavedFilter => PickerView {
            mode: Mode::Normal,
            search: match s.restore {
                Some(r) => r,
                None => seq![],
            },
            restore: None,
            ..s
        },
        _ => PickerView { mode: Mode::Normal, ..s },
    }
}

/// The status line a tag picker shows: the sigil and tag, then its place
/// among the tags.
pub open spec fn tag_flash(sigil: char, tag: Seq<char>, all: Seq<Seq<char>>) -> Seq<char> {
    seq![sigil] + tag + "  ("@ + decimal((position_in(all, tag) + 1) as nat) + "/"@ + decimal(
        all.len(),
    ) + ")"@
}

/// The status line the saved-filter picker shows: the filter's name, then
/// its place among the saved filters.
pub open spec fn saved_flash(name: Seq<char>, idx: int, len: nat) -> Seq<char> {
    name + "  ("@ + decimal((idx + 1) as nat) + "/"@ + decimal(len) + ")"@
}

/// The fields no picker operation touches.
pub open spec fn keeps_data(a: App, b: App) -> bool {
    &&& b.tasks == a.tasks
    &&& b.saved_filters == a.saved_filters
    &&& b.today == a.today
    &&& b.week_start == a.week_start
    &&& b.sort == a.sort
    &&& b.show_done == a.show_done
    &&& b.show_future == a.show_future
}

/// `b` equals `a` in every field.
pub open spec fn unchanged(a: App, b: App) -> bool {
    &&& keeps_data(a, b)
    &&& b.filter == a.filter
    &&& b.mode == a.mode
    &&& b.cursor == a.cursor
    &&& b.visible == a.visible
    &&& b.saved_pick_idx == a.saved_pick_idx
    &&& b.saved_pick_restore == a.saved_pick_restore
    &&& b.flash_msg == a.flash_msg
    &&& b.draft == a.draft
}

/// The cursor task's first tag of the given kind.
pub open spec fn cursor_first_tag(a: App, kind: TagKind) -> Option<Seq<char>> {
    if a.cursor < a.visible@.len() {
        let t = a.tasks@[a.visible@[a.cursor as int] as int]@;
        let tags = match kind {
            TagKind::Project => t.projects,
            TagKind::Context => t.contexts,
        };
        if tags.len() > 0 {
            Some(tags[0])
        } else {
            None
        }
    } else {
        None
    }
}

/// Position of `needle` in `all`, `0` when it is absent.
pub fn position_of(all: &[String], needle: &str) -> (r: usize)
    ensures
        r as int == position_in(views(all@), needle@),
{
    proof {
        lemma_first_index(views(all@), needle@);
    }
    let mut i: usize = 0;
    while i < all.len()
        invariant
            i <= all@.len(),
            forall|k: int| 0 <= k < i ==> all@[k]@ != needle@,
            match first_index(views(all@), needle@) {
                Some(j) => 0 <= j < all@.len() && views(all@)[j] == needle@ && forall|k: int|
                    0 <= k < j ==> views(all@)[k] != needle@,
                None => forall|k: int| 0 <= k < all@.len() ==> views(all@)[k] != needle@,
            },
        decreases all@.len() - i,
    {
        if str_eq(all[i].as_str(), needle) {
            proof {
                assert(views(all@)[i as int] == needle@);
                if let Some(j) = first_index(views(all@), needle@) {
                    if j > i {
                        assert(views(all@)[i as int] != needle@);
                    }
                    if j < i {
                        assert(all@[j]@ != needle@);
                    }
                }
            }
            return i;
        }
        i = i + 1;
    }
    proof {
        if let Some(j) = first_index(views(all@), needle@) {
            assert(all@[j]@ != needle@);
        }
    }
    0
}

fn first_index_exec(all: &[String], needle: &str) -> (r: Option<usize>)
    ensures
        match first_index(views(all@), needle@) {
            Some(j) => r == Some(j as usize),
            None => r is None,
        },
{
    proof {
        lemma_first_index(views(all@), needle@);
    }
    let p = position_of(all, needle);
    if p < all.len() && str_eq(all[p].as_str(), needle) {
        Some(p)
    } else {
        proof {
            if let Some(j) = first_index(views(all@), needle@) {
                assert(views(all@)[j] == needle@);
            }
        }
        None
    }
}

/// Wrap-around step through `all` in the requested direction.
pub fn step(all: &[String], current: Option<&str>, forward: bool) -> (r: String)
    requires
        all@.len() > 0,
    ensures
        r@ == step_choice(views(all@), opt_str(current), forward),
{
    let len = all.len();
    let cur_idx = match current {
        Some(c) => first_index_exec(all, c),
        None => None,
    };
    proof {
        if let Some(c) = current {
            lemma_first_index(views(all@), c@);
        }
    }
    let next: usize = match cur_idx {
        None => 0,
        Some(i) => if forward {
            (i + 1) % len
        } else if i == 0 {
            len - 1
        } else {
            i - 1
        },
    };
    proof {
        if let Some(i) = cur_idx {
            if !forward {
                assert(((i + len - 1) as int) % (len as int) == next as int) by (nonlinear_arith)
                    requires
                        i < len,
                        next == (if i == 0 {
                            len - 1
                        } else {
                            i - 1
                        }),
                ;
            }
        }
    }
    all[next].clone()
}

/// The status line for a tag picker showing `tag`.
fn tag_flash_text(sigil: char, tag: &String, all: &Vec<String>) -> (r: String)
    ensures
        r@ == tag_flash(sigil, tag@, views(all@)),
{
    proof {
        lemma_first_index(views(all@), tag@);
    }
    let pos = position_of(all.as_slice(), tag.as_str());
    let len = all.len();
    assert(pos < len || pos == 0);
    let mut s = String::new();
    push_char(&mut s, sigil);
    push_str(&mut s, tag.as_str());
    push_str(&mut s, "  (");
    push_decimal(&mut s, pos + 1);
    push_str(&mut s, "/");
    push_decimal(&mut s, len);
    push_str(&mut s, ")");
    assert(s@ =~= tag_flash(sigil, tag@, views(all@)));
    s
}


proof fn lemma_ring_step(i: int, len: int)
    requires
        0 <= i,
        len > 0,
    ensures
        (i + 1) % len == ((i % len) + 1) % len,
        (i + len - 1) % len == (if i % len == 0 {
            len - 1
        } else {
            i % len - 1
        }),
        0 <= i % len < len,
{
    let q = i / len;
    let r = i % len;
    vstd::arithmetic::div_mod::lemma_fundamental_div_mod(i, len);
    assert(i + 1 == len * q + (r + 1));
    assert(i + len - 1 == len * q + (r + len - 1));
    vstd::arithmetic::div_mod::lemma_mod_multiples_vanish(q, r + 1, len);
    vstd::arithmetic::div_mod::lemma_mod_multiples_vanish(q, r + len - 1, len);
    if r == 0 {
        vstd::arithmetic::div_mod::lemma_small_mod((len - 1) as nat, len as nat);
    } else {
        vstd::arithmetic::div_mod::lemma_mod_multiples_vanish(1, r - 1, len);
        vstd::arithmetic::div_mod::lemma_small_mod((r - 1) as nat, len as nat);
    }
}

/// The saved-filter index one step from `idx` in a ring of `len`.
fn ring_step(idx: usize, len: usize, forward: bool) -> (r: usize)
    requires
        len > 0,
    ensures
        r as int == step_index(len as int, Some(idx as int), forward),
        r < len,
{
    proof {
        lemma_ring_step(idx as int, len as int);
    }
    let m = idx % len;
    if forward {
        (m + 1) % len
    } else if m == 0 {
        len - 1
    } else {
        m - 1
    }
}

/// The alphabetically first of `all`.
fn least_of(all: &Vec<String>) -> (r: String)
    requires
        all@.len() > 0,
    ensures
        r@ == least_name(views(all@)),
{
    let ghost vs = views(all@);
    let mut best: usize = 0;
    let mut i: usize = 1;
    while i < all.len()
        invariant
            vs == views(all@),
            vs.len() == all@.len(),
            1 <= i <= all@.len(),
            best < i,
            forall|j: int| 0 <= j < i ==> lex_le(vs[best as int], #[trigger] vs[j]),
        decreases all@.len() - i,
    {
        if str_lt(all[i].as_str(), all[best].as_str()) {
            proof {
                assert forall|j: int| 0 <= j < i + 1 implies lex_le(vs[i as int], #[trigger] vs[j]) by {
                    if j < i {
                        if vs[best as int] != vs[j] {
                            lemma_lex_transitive(vs[i as int], vs[best as int], vs[j]);
                        }
                    }
                }
            }
            best = i;
        } else {
            proof {
                lemma_lex_total(vs[best as int], vs[i as int]);
            }
        }
        i = i + 1;
    }
    let ghost m = vs[best as int];
    proof {
        assert forall|x: Seq<char>| #[trigger] vs.contains(x) implies lex_le(m, x) by {
            let j = choose|j: int| 0 <= j < vs.len() && vs[j] == x;
            assert(lex_le(m, vs[j]));
        }
        assert(is_least(vs, m));
        lemma_least_unique(vs, m, least_name(vs));
    }
    all[best].clone()
}

/// The first choice of a tag picker (see [`seed_choice`]).
fn seed_pick(all: &Vec<String>, first: Option<&String>, current: &Option<String>, fallback: String) -> (r: String)
    ensures
        r@ == seed_choice(
            match first {
                Some(f) => Some(f@),
                None => None,
            },
            opt_view(*current),
            views(all@),
            fallback@,
        ),
{
    if let Some(f) = first {
        proof {
            lemma_first_index(views(all@), f@);
        }
        if first_index_exec(all.as_slice(), f.as_str()).is_some() {
            return f.clone();
        } else {
            proof {
                if views(all@).contains(f@) {
                    let k = choose|k: int| 0 <= k < views(all@).len() && views(all@)[k] == f@;
                }
            }
        }
    }
    if let Some(c) = current {
        proof {
            lemma_first_index(views(all@), c@);
        }
        if first_index_exec(all.as_slice(), c.as_str()).is_some() {
            return c.clone();
        } else {
            proof {
                if views(all@).contains(c@) {
                    let k = choose|k: int| 0 <= k < views(all@).len() && views(all@)[k] == c@;
                }
            }
        }
    }
    fallback
}

/// The status line for the saved filter at `idx`.
fn saved_flash_text(name: &String, idx: usize, len: usize) -> (r: String)
    requires
        idx < len,
    ensures
        r@ == saved_flash(name@, idx as int, len as nat),
{
    let mut s = String::new();
    push_str(&mut s, name.as_str());
    push_str(&mut s, "  (");
    push_decimal(&mut s, idx + 1);
    push_str(&mut s, "/");
    push_decimal(&mut s, len);
    push_str(&mut s, ")");
    assert(s@ =~= saved_flash(name@, idx as int, len as nat));
    s
}

impl App {
    /// The cursor task's first tag of the given kind.
    fn cursor_first(&self, kind: TagKind) -> (r: Option<&String>)
        requires
            self.wf(),
        ensures
            match r {
                Some(t) => cursor_first_tag(*self, kind) == Some(t@),
                None => cursor_first_tag(*self, kind) is None,
            },
    {
        match self.cur_abs() {
            Some(i) => {
                let t = &self.tasks[i];
                let tags = match kind {
                    TagKind::Project => &t.projects,
                    TagKind::Context => &t.contexts,
                };
                if tags.len() > 0 {
                    Some(&tags[0])
                } else {
                    None
                }
            },
            None => None,
        }
    }

    /// Show the project picker's status line.
    fn flash_pick_project(&mut self)
        requires
            old(self).wf(),
        ensures
            old(self).filter@.project is None ==> final(self).flash_msg == old(self).flash_msg,
            old(self).filter@.project matches Some(p) ==> final(self).flash_msg matches Some(m)
                && m@ == tag_flash('+', p, all_projects(*old(self))),
            final(self).wf(),
            keeps_data(*old(self), *final(self)),
            final(self).filter == old(self).filter,
            final(self).mode == old(self).mode,
            final(self).cursor == old(self).cursor,
            final(self).visible == old(self).visible,
            final(self).saved_pick_idx == old(self).saved_pick_idx,
            final(self).saved_pick_restore == old(self).saved_pick_restore,
            final(self).draft == old(self).draft,
    {
        let all = unique_values(self.tasks.as_slice(), TagKind::Project);
        match &self.filter.project {
            Some(cur) => {
                let msg = tag_flash_text('+', cur, &all);
                self.flash(msg);
            },
            None => {},
        }
    }

    /// Show the context picker's status line.
    fn flash_pick_context(&mut self)
        requires
            old(self).wf(),
        ensures
            old(self).filter@.context is None ==> final(self).flash_msg == old(self).flash_msg,
            old(self).filter@.context matches Some(c) ==> final(self).flash_msg matches Some(m)
                && m@ == tag_flash('@', c, all_contexts(*old(self))),
            final(self).wf(),
            keeps_data(*old(self), *final(self)),
            final(self).filter == old(self).filter,
            final(self).mode == old(self).mode,
            final(self).cursor == old(self).cursor,
            final(self).visible == old(self).visible,
            final(self).saved_pick_idx == old(self).saved_pick_idx,
            final(self).saved_pick_restore == old(self).saved_pick_restore,
            final(self).draft == old(self).draft,
    {
        let all = unique_values(self.tasks.as_slice(), TagKind::Context);
        match &self.filter.context {
            Some(cur) => {
                let msg = tag_flash_text('@', cur, &all);
                self.flash(msg);
            },
            None => {},
        }
    }

    /// Show the saved-filter picker's status line.
    fn flash_pick_saved(&mut self)
        requires
            old(self).wf(),
        ensures
            old(self).saved_pick_idx < old(self).saved_filters@.len() ==> (final(self).flash_msg matches Some(m) && m@ == saved_flash(
                old(self).saved_filters@[old(self).saved_pick_idx as int].name@,
                old(self).saved_pick_idx as int,
                old(self).saved_filters@.len(),
            )),
            old(self).saved_pick_idx >= old(self).saved_filters@.len() ==> final(self).flash_msg
                == old(self).flash_msg,
            final(self).wf(),
            keeps_data(*old(self), *final(self)),
            final(self).filter == old(self).filter,
            final(self).mode == old(self).mode,
            final(self).cursor == old(self).cursor,
            final(self).visible == old(self).visible,
            final(self).saved_pick_idx == old(self).saved_pick_idx,
            final(self).saved_pick_restore == old(self).saved_pick_restore,
            final(self).draft == old(self).draft,
    {
        let len = self.saved_filters.len();
        if self.saved_pick_idx < len {
            let msg = saved_flash_text(
                &self.saved_filters[self.saved_pick_idx].name,
                self.saved_pick_idx,
                len,
            );
            self.flash(msg);
        }
    }
}


/// Whether a step in the open picker changes anything: a picker is open
/// and it has choices.
pub open spec fn step_moves(a: App) -> bool {
    match a.mode {
        Mode::PickProject => all_projects(a).len() > 0,
        Mode::PickContext => all_contexts(a).len() > 0,
        Mode::PickSavedFilter => a.saved_filters@.len() > 0,
        _ => false,
    }
}

/// The position of the first saved filter whose query is `search`, `0`
/// when there is none.
fn query_position(saved: &Vec<SavedFilter>, search: &String) -> (r: usize)
    ensures
        r as int == position_in(saved@.map_values(|f: SavedFilter| f.query@), search@),
{
    let ghost qs = saved@.map_values(|f: SavedFilter| f.query@);
    proof {
        lemma_first_index(qs, search@);
    }
    let mut i: usize = 0;
    while i < saved.len()
        invariant
            qs == saved@.map_values(|f: SavedFilter| f.query@),
            i <= saved@.len(),
            forall|k: int| 0 <= k < i ==> qs[k] != search@,
            match first_index(qs, search@) {
                Some(j) => 0 <= j < qs.len() && qs[j] == search@ && forall|k: int|
                    0 <= k < j ==> qs[k] != search@,
                None => forall|k: int| 0 <= k < qs.len() ==> qs[k] != search@,
            },
        decreases saved@.len() - i,
    {
        if str_eq(saved[i].query.as_str(), search.as_str()) {
            proof {
                assert(qs[i as int] == search@);
                if let Some(j) = first_index(qs, search@) {
                    if j > i {
                        assert(qs[i as int] != search@);
                    }
                }
            }
            return i;
        }
        i = i + 1;
    }
    0
}

fn opt_string_as_str(s: &Option<String>) -> (r: Option<&str>)
    ensures
        opt_str(r) == opt_view(*s),
{
    match s {
        Some(x) => Some(x.as_str()),
        None => None,
    }
}

impl App {
    /// Enter project-picker mode. Seeds the filter from the cursor task's
    /// first project (falling back to the current filter, then alphabetical
    /// first). Inside the picker, j/k cycle through projects.
    pub fn enter_pick_project(&mut self)
        requires
            old(self).wf(),
        ensures
            final(self).wf(),
            keeps_data(*old(self), *final(self)),
            final(self).draft == old(self).draft,
            picker_of(*final(self)) == open_tag_picker(
                picker_of(*old(self)),
                TagKind::Project,
                all_projects(*old(self)),
                cursor_first_tag(*old(self), TagKind::Project),
            ),
            all_projects(*old(self)).len() == 0 ==> (final(self).flash_msg matches Some(m) && m@
                == "no projects"@) && final(self).cursor == old(self).cursor && final(self).visible
                == old(self).visible,
            all_projects(*old(self)).len() > 0 ==> final(self).cursor == 0 && view_consistent(*final(self)) && (final(self).flash_msg matches Some(m) && m@ == tag_flash(
                '+',
                final(self).filter@.project->0,
                all_projects(*old(self)),
            )),
    {
        let all = unique_values(self.tasks.as_slice(), TagKind::Project);
        if all.len() == 0 {
            self.flash(String::from_str("no projects"));
            return ;
        }
        let fallback = least_of(&all);
        let seed = seed_pick(&all, self.cursor_first(TagKind::Project), &self.filter.project, fallback);
        self.filter.project = Some(seed);
        self.cursor = 0;
        self.mode = Mode::PickProject;
        self.recompute_visible();
        self.flash_pick_project();
    }

    /// Enter context-picker mode. Seeds the filter from the cursor task's
    /// first context, falling back to the current filter, then the first
    /// context in sidebar order (count descending, then name).
    pub fn enter_pick_context(&mut self)
        requires
            old(self).wf(),
        ensures
            final(self).wf(),
            keeps_data(*old(self), *final(self)),
            final(self).draft == old(self).draft,
            picker_of(*final(self)) == open_tag_picker(
                picker_of(*old(self)),
                TagKind::Context,
                all_contexts(*old(self)),
                cursor_first_tag(*old(self), TagKind::Context),
            ),
            all_contexts(*old(self)).len() == 0 ==> (final(self).flash_msg matches Some(m) && m@
                == "no contexts"@) && final(self).cursor == old(self).cursor && final(self).visible
                == old(self).visible,
            all_contexts(*old(self)).len() > 0 ==> final(self).cursor == 0 && view_consistent(*final(self)) && (final(self).flash_msg matches Some(m) && m@ == tag_flash(
                '@',
                final(self).filter@.context->0,
                all_contexts(*old(self)),
            )),
    {
        let all = unique_values(self.tasks.as_slice(), TagKind::Context);
        if all.len() == 0 {
            self.flash(String::from_str("no contexts"));
            return ;
        }
        let fallback = all[0].clone();
        let seed = seed_pick(&all, self.cursor_first(TagKind::Context), &self.filter.context, fallback);
        self.filter.context = Some(seed);
        self.cursor = 0;
        self.mode = Mode::PickContext;
        self.recompute_visible();
        self.flash_pick_context();
    }

    /// Start renaming the context being filtered on: the prompt starts from
    /// its name. Nothing happens without a context filter.
    pub fn begin_rename_context(&mut self)
        ensures
            match old(self).filter@.context {
                Some(c) => final(self).draft@ == c && final(self).mode == Mode::PromptRenameContext
                    && keeps_data(*old(self), *final(self)) && final(self).filter == old(self).filter && final(self).cursor == old(self).cursor && final(self).visible == old(self).visible && final(self).saved_pick_idx == old(self).saved_pick_idx && final(self).saved_pick_restore == old(self).saved_pick_restore && final(self).flash_msg
                    == old(self).flash_msg,
                None => unchanged(*old(self), *final(self)),
            },
    {
        let name = match &self.filter.context {
            Some(c) => c.clone(),
            None => return ,
        };
        self.draft_set(name);
        self.mode = Mode::PromptRenameContext;
    }

    /// Start renaming the project being filtered on: the prompt starts from
    /// its name. Nothing happens without a project filter.
    pub fn begin_rename_project(&mut self)
        ensures
            match old(self).filter@.project {
                Some(p) => final(self).draft@ == p && final(self).mode == Mode::PromptRenameProject
                    && keeps_data(*old(self), *final(self)) && final(self).filter == old(self).filter && final(self).cursor == old(self).cursor && final(self).visible == old(self).visible && final(self).saved_pick_idx == old(self).saved_pick_idx && final(self).saved_pick_restore == old(self).saved_pick_restore && final(self).flash_msg
                    == old(self).flash_msg,
                None => unchanged(*old(self), *final(self)),
            },
    {
        let name = match &self.filter.project {
            Some(p) => p.clone(),
            None => return ,
        };
        self.draft_set(name);
        self.mode = Mode::PromptRenameProject;
    }

    /// Enter saved-filter picker mode. Seeds to the saved filter whose query
    /// equals the active search (so reopening highlights the current one),
    /// else the first. Stashes the pre-picker search so `pick_cancel` can
    /// revert. Inside the picker, j/k cycle through saved searches.
    pub fn enter_pick_saved(&mut self)
        requires
            old(self).wf(),
        ensures
            final(self).wf(),
            keeps_data(*old(self), *final(self)),
            final(self).draft == old(self).draft,
            picker_of(*final(self)) == open_saved_picker(
                picker_of(*old(self)),
                saved_queries(*old(self)),
            ),
            old(self).saved_filters@.len() == 0 ==> (final(self).flash_msg matches Some(m) && m@
                == "no saved filters"@) && final(self).cursor == old(self).cursor
                && final(self).visible == old(self).visible,
            old(self).saved_filters@.len() > 0 ==> final(self).cursor == 0 && view_consistent(*final(self)) && (final(self).flash_msg matches Some(m) && m@ == saved_flash(
                old(self).saved_filters@[final(self).saved_pick_idx as int].name@,
                final(self).saved_pick_idx as int,
                old(self).saved_filters@.len(),
            )),
    {
        if self.saved_filters.len() == 0 {
            self.flash(String::from_str("no saved filters"));
            return ;
        }
        let ghost qs = saved_queries(*self);
        self.saved_pick_restore = Some(self.filter.search.clone());
        // Highlight the saved filter matching the active search, else the
        // first; track the index so duplicate queries stay distinguishable.
        let idx = query_position(&self.saved_filters, &self.filter.search);
        proof {
            lemma_first_index(qs, self.filter@.search);
        }
        assert(idx < self.saved_filters@.len());
        self.saved_pick_idx = idx;
        self.filter.search = self.saved_filters[idx].query.clone();
        self.cursor = 0;
        self.mode = Mode::PickSavedFilter;
        self.recompute_visible();
        self.flash_pick_saved();
    }

    /// Commit an open picker (Enter): keep the previewed filter, return to
    /// Normal. For the saved-filter picker this also drops the revert
    /// snapshot so a later cancel elsewhere can't resurrect it.
    pub fn pick_accept(&mut self)
        ensures
            picker_of(*final(self)) == accept_picker(picker_of(*old(self))),
            keeps_data(*old(self), *final(self)),
            final(self).cursor == old(self).cursor,
            final(self).visible == old(self).visible,
            final(self).flash_msg == old(self).flash_msg,
            final(self).draft == old(self).draft,
    {
        if self.mode == Mode::PickSavedFilter {
            self.saved_pick_restore = None;
        }
        self.mode = Mode::Normal;
    }

    /// Cancel an open picker. Clears only the filter that was being picked
    /// (so escaping the context picker doesn't drop a project filter that
    /// the user set independently). The saved-filter picker restores the
    /// search that was active before it opened.
    pub fn pick_cancel(&mut self)
        requires
            old(self).wf(),
        ensures
            final(self).wf(),
            picker_of(*final(self)) == cancel_picker(picker_of(*old(self))),
            keeps_data(*old(self), *final(self)),
            final(self).cursor == 0,
            view_consistent(*final(self)),
            final(self).flash_msg == old(self).flash_msg,
            final(self).draft == old(self).draft,
    {
        match self.mode {
            Mode::PickProject => self.filter.project = None,
            Mode::PickContext => self.filter.context = None,
            Mode::PickSavedFilter => {
                let restored = match &self.saved_pick_restore {
                    Some(r) => r.clone(),
                    None => String::new(),
                };
                self.saved_pick_restore = None;
                self.filter.search = restored;
            },
            _ => {},
        }
        self.cursor = 0;
        self.mode = Mode::Normal;
        self.recompute_visible();
    }

    /// Step through projects/contexts (or saved filters) within picker
    /// mode, wrapping around at either end.
    pub fn pick_step(&mut self, forward: bool)
        requires
            old(self).wf(),
        ensures
            final(self).wf(),
            picker_of(*final(self)) == step_picker(
                picker_of(*old(self)),
                all_projects(*old(self)),
                all_contexts(*old(self)),
                saved_queries(*old(self)),
                forward,
            ),
            keeps_data(*old(self), *final(self)),
            final(self).draft == old(self).draft,
            !step_moves(*old(self)) ==> unchanged(*old(self), *final(self)),
            step_moves(*old(self)) ==> final(self).cursor == 0 && view_consistent(*final(self)),
            step_moves(*old(self)) && old(self).mode == Mode::PickProject ==> (final(self).flash_msg matches Some(m) && m@ == tag_flash(
                '+',
                final(self).filter@.project->0,
                all_projects(*old(self)),
            )),
            step_moves(*old(self)) && old(self).mode == Mode::PickContext ==> (final(self).flash_msg matches Some(m) && m@ == tag_flash(
                '@',
                final(self).filter@.context->0,
                all_contexts(*old(self)),
            )),
            step_moves(*old(self)) && old(self).mode == Mode::PickSavedFilter ==> (final(self).flash_msg matches Some(m) && m@ == saved_flash(
                old(self).saved_filters@[final(self).saved_pick_idx as int].name@,
                final(self).saved_pick_idx as int,
                old(self).saved_filters@.len(),
            )),
    {
        match self.mode {
            Mode::PickProject => {
                let all = unique_values(self.tasks.as_slice(), TagKind::Project);
                if all.len() == 0 {
                    return ;
                }
                let next = step(
                    all.as_slice(),
                    opt_string_as_str(&self.filter.project),
                    forward,
                );
                self.filter.project = Some(next);
                self.cursor = 0;
                self.recompute_visible();
                self.flash_pick_project();
            },
            Mode::PickContext => {
                let all = unique_values(self.tasks.as_slice(), TagKind::Context);
                if all.len() == 0 {
                    return ;
                }
                let next = step(
                    all.as_slice(),
                    opt_string_as_str(&self.filter.context),
                    forward,
                );
                self.filter.context = Some(next);
                self.cursor = 0;
                self.recompute_visible();
                self.flash_pick_context();
            },
            Mode::PickSavedFilter => {
                let len = self.saved_filters.len();
                if len == 0 {
                    return ;
                }
                let ghost qs = saved_queries(*self);
                self.saved_pick_idx = ring_step(self.saved_pick_idx, len, forward);
                self.filter.search = self.saved_filters[self.saved_pick_idx].query.clone();
                assert(self.filter@.search == qs[self.saved_pick_idx as int]);
                self.cursor = 0;
                self.recompute_visible();
                self.flash_pick_saved();
            },
            _ => {},
        }
    }
}


/// Several steps inside the open picker, in the directions `dirs`.
pub open spec fn step_many(
    s: PickerView,
    projects: Seq<Seq<char>>,
    contexts: Seq<Seq<char>>,
    qs: Seq<Seq<char>>,
    dirs: Seq<bool>,
) -> PickerView
    decreases dirs.len(),
{
    if dirs.len() == 0 {
        s
    } else {
        step_many(step_picker(s, projects, contexts, qs, dirs[0]), projects, contexts, qs, dirs.drop_first())
    }
}

/// No entry occurs twice.
pub open spec fn distinct(all: Seq<Seq<char>>) -> bool {
    forall|i: int, j: int| 0 <= i < j < all.len() ==> all[i] != all[j]
}

proof fn lemma_ring_back_and_forth(i: int, len: int)
    requires
        0 <= i < len,
    ensures
        step_index(len, Some(step_index(len, Some(i), true)), false) == i,
        step_index(len, Some(step_index(len, Some(i), false)), true) == i,
        0 <= step_index(len, Some(i), true) < len,
        0 <= step_index(len, Some(i), false) < len,
{
    if i + 1 < len {
        vstd::arithmetic::div_mod::lemma_small_mod((i + 1) as nat, len as nat);
        vstd::arithmetic::div_mod::lemma_mod_multiples_vanish(1, i, len);
        vstd::arithmetic::div_mod::lemma_small_mod(i as nat, len as nat);
    } else {
        vstd::arithmetic::div_mod::lemma_mod_multiples_vanish(1, 0, len);
        vstd::arithmetic::div_mod::lemma_small_mod((len - 1) as nat, len as nat);
    }
    if i == 0 {
        vstd::arithmetic::div_mod::lemma_small_mod((len - 1) as nat, len as nat);
        vstd::arithmetic::div_mod::lemma_mod_multiples_vanish(1, 0, len);
    } else {
        vstd::arithmetic::div_mod::lemma_mod_multiples_vanish(1, i - 1, len);
        vstd::arithmetic::div_mod::lemma_small_mod((i - 1) as nat, len as nat);
        vstd::arithmetic::div_mod::lemma_small_mod(i as nat, len as nat);
    }
}

proof fn lemma_first_index_distinct(all: Seq<Seq<char>>, k: int)
    requires
        distinct(all),
        0 <= k < all.len(),
    ensures
        first_index(all, all[k]) == Some(k),
{
    lemma_first_index(all, all[k]);
    match first_index(all, all[k]) {
        Some(j) => {
            if j != k {
                if j < k {
                    assert(all[j] != all[k]);
                }
            }
        },
        None => {},
    }
}

/// `x` is a tag on offer.
pub open spec fn offered(x: Option<Seq<char>>, all: Seq<Seq<char>>) -> bool {
    x is Some && all.contains(x->0)
}

/// The tag filter of the kind a picker sets.
pub open spec fn tag_filter(s: PickerView, kind: TagKind) -> Option<Seq<char>> {
    match kind {
        TagKind::Project => s.project,
        TagKind::Context => s.context,
    }
}

/// Where a tag picker opens: on the cursor task's first tag whenever it is
/// on offer, whatever filter was active; otherwise on the active filter if
/// it is on offer; otherwise on the alphabetically first project, or the
/// first context in sidebar order.
pub proof fn law_tag_picker_seed(
    s: PickerView,
    kind: TagKind,
    all: Seq<Seq<char>>,
    first: Option<Seq<char>>,
)
    requires
        all.len() > 0,
    ensures
        offered(first, all) ==> tag_filter(open_tag_picker(s, kind, all, first), kind) == first,
        !offered(first, all) && offered(tag_filter(s, kind), all) ==> tag_filter(
            open_tag_picker(s, kind, all, first),
            kind,
        ) == tag_filter(s, kind),
        !offered(first, all) && !offered(tag_filter(s, kind), all) && kind == TagKind::Project
            ==> open_tag_picker(s, kind, all, first).project is Some && is_least(
            all,
            open_tag_picker(s, kind, all, first).project->0,
        ),
        !offered(first, all) && !offered(tag_filter(s, kind), all) && kind == TagKind::Context
            ==> open_tag_picker(s, kind, all, first).context == Some(all[0]),
{
    if kind == TagKind::Project {
        lemma_least_exists(all);
    }
}

/// A step always lands on one of the choices.
pub proof fn law_step_stays_in_choices(all: Seq<Seq<char>>, current: Option<Seq<char>>, forward: bool)
    requires
        all.len() > 0,
    ensures
        all.contains(step_choice(all, current, forward)),
{
    let cur = match current {
        Some(c) => first_index(all, c),
        None => None,
    };
    if let Some(c) = current {
        lemma_first_index(all, c);
    }
    if let Some(i) = cur {
        lemma_ring_back_and_forth(i, all.len() as int);
    }
    assert(all[step_index(all.len() as int, cur, forward)] == step_choice(all, current, forward));
}

/// Stepping one way and then the other returns to the starting choice,
/// when the choices are distinct and the start is one of them.
pub proof fn law_step_round_trip(all: Seq<Seq<char>>, cur: Seq<char>, forward: bool)
    requires
        distinct(all),
        all.contains(cur),
    ensures
        step_choice(all, Some(step_choice(all, Some(cur), forward)), !forward) == cur,
{
    lemma_first_index(all, cur);
    let i = first_index(all, cur)->0;
    let len = all.len() as int;
    lemma_ring_back_and_forth(i, len);
    let next = step_index(len, Some(i), forward);
    lemma_first_index_distinct(all, next);
}

/// In a tag picker over distinct tags, stepping forward and then back (or
/// back and then forward) restores the tag that was highlighted.
pub proof fn law_tag_picker_round_trip(
    s: PickerView,
    projects: Seq<Seq<char>>,
    contexts: Seq<Seq<char>>,
    qs: Seq<Seq<char>>,
    forward: bool,
)
    requires
        s.mode == Mode::PickProject ==> distinct(projects) && s.project is Some && projects.contains(
            s.project->0,
        ),
        s.mode == Mode::PickContext ==> distinct(contexts) && s.context is Some && contexts.contains(
            s.context->0,
        ),
        s.mode == Mode::PickProject || s.mode == Mode::PickContext,
    ensures
        step_picker(step_picker(s, projects, contexts, qs, forward), projects, contexts, qs, !forward)
            == s,
{
    if s.mode == Mode::PickProject {
        law_step_round_trip(projects, s.project->0, forward);
    } else {
        law_step_round_trip(contexts, s.context->0, forward);
    }
}

/// In the saved-filter picker, stepping forward and then back (or back and
/// then forward) returns to the same saved filter and its query.
pub proof fn law_saved_picker_round_trip(
    s: PickerView,
    projects: Seq<Seq<char>>,
    contexts: Seq<Seq<char>>,
    qs: Seq<Seq<char>>,
    forward: bool,
)
    requires
        s.mode == Mode::PickSavedFilter,
        0 <= s.saved_idx < qs.len(),
    ensures
        step_picker(step_picker(s, projects, contexts, qs, forward), projects, contexts, qs, !forward).saved_idx
            == s.saved_idx,
        step_picker(step_picker(s, projects, contexts, qs, forward), projects, contexts, qs, !forward).search
            == qs[s.saved_idx],
{
    lemma_ring_back_and_forth(s.saved_idx, qs.len() as int);
}

proof fn lemma_steps_keep_saved_picker(
    s: PickerView,
    projects: Seq<Seq<char>>,
    contexts: Seq<Seq<char>>,
    qs: Seq<Seq<char>>,
    dirs: Seq<bool>,
)
    requires
        s.mode == Mode::PickSavedFilter,
    ensures
        step_many(s, projects, contexts, qs, dirs).mode == Mode::PickSavedFilter,
        step_many(s, projects, contexts, qs, dirs).restore == s.restore,
        step_many(s, projects, contexts, qs, dirs).project == s.project,
        step_many(s, projects, contexts, qs, dirs).context == s.context,
    decreases dirs.len(),
{
    if dirs.len() > 0 {
        lemma_steps_keep_saved_picker(
            step_picker(s, projects, contexts, qs, dirs[0]),
            projects,
            contexts,
            qs,
            dirs.drop_first(),
        );
    }
}

/// Opening the saved-filter picker, stepping through it any number of
/// times, and cancelling puts back the search that was active before, and
/// leaves the project and context filters as they were.
pub proof fn law_saved_picker_cancel_restores(
    s: PickerView,
    projects: Seq<Seq<char>>,
    contexts: Seq<Seq<char>>,
    qs: Seq<Seq<char>>,
    dirs: Seq<bool>,
)
    requires
        qs.len() > 0,
    ensures
        cancel_picker(step_many(open_saved_picker(s, qs), projects, contexts, qs, dirs)).search
            == s.search,
        cancel_picker(step_many(open_saved_picker(s, qs), projects, contexts, qs, dirs)).mode
            == Mode::Normal,
        cancel_picker(step_many(open_saved_picker(s, qs), projects, contexts, qs, dirs)).restore is None,
        cancel_picker(step_many(open_saved_picker(s, qs), projects, contexts, qs, dirs)).project
            == s.project,
        cancel_picker(step_many(open_saved_picker(s, qs), projects, contexts, qs, dirs)).context
            == s.context,
{
    lemma_steps_keep_saved_picker(open_saved_picker(s, qs), projects, contexts, qs, dirs);
}

/// Accepting keeps the previewed filters and returns to normal mode.
pub proof fn law_accept_keeps_preview(s: PickerView)
    ensures
        accept_picker(s).mode == Mode::Normal,
        accept_picker(s).project == s.project,
        accept_picker(s).context == s.context,
        accept_picker(s).search == s.search,
{
}

/// Cancelling returns to normal mode and clears only the filter that was
/// being picked.
pub proof fn law_cancel_clears_only_picked(s: PickerView)
    ensures
        cancel_picker(s).mode == Mode::Normal,
        s.mode == Mode::PickProject ==> cancel_picker(s).project is None && cancel_picker(s).context
            == s.context && cancel_picker(s).search == s.search,
        s.mode == Mode::PickContext ==> cancel_picker(s).context is None && cancel_picker(s).project
            == s.project && cancel_picker(s).search == s.search,
        s.mode == Mode::PickSavedFilter ==> cancel_picker(s).project == s.project && cancel_picker(
            s,
        ).context == s.context,
{
}

/// The tags a picker offers are distinct.
pub proof fn law_tag_names_distinct(s: Seq<(Seq<char>, nat)>, ts: Seq<crate::todo::TaskView>, kind: TagKind)
    requires
        is_tag_summary(s, ts, kind),
    ensures
        distinct(tag_names(ts, kind)),
{
    lemma_tag_summary_unique(s, tag_summary(ts, kind), ts, kind);
    let names = tag_names(ts, kind);
    assert forall|i: int, j: int| 0 <= i < j < names.len() implies names[i] != names[j] by {
        assert(entry_before(s[i], s[j]));
        assert(s[i].1 == crate::filter::tag_count(ts, kind, s[i].0));
        assert(s[j].1 == crate::filter::tag_count(ts, kind, s[j].0));
        if names[i] == names[j] {
            crate::text::lemma_lex_irreflexive(s[i].0);
        }
    }
}

} // verus!
