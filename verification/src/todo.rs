//! todo.txt lines as tasks.
//!
//! A line is split into whitespace-separated words:
//!
//! ```text
//! x (A) 2026-05-02 2026-05-01 call mom +family @phone due:2026-05-09 t:-2d
//! ```
//!
//! A leading `x` marks the task done; a `(A)`..`(Z)` word after it is the
//! priority; then comes the completion date (done tasks only) and the
//! creation date. `+word` names a project, `@word` a context, and the first
//! `due:` and `t:` words give the due date and the threshold.

use vstd::prelude::*;
use crate::text::{
    chars_eq, chars_of, chars_start_with, has_prefix, lemma_run_end_bounds, run_end,
    spec_is_whitespace, split_whitespace, views, words, words_from,
};

verus! {

/// One todo.txt task.
#[derive(Clone, Debug)]
pub struct Task {
    /// The line as written (without its line break).
    pub raw: String,
    pub done: bool,
    pub priority: Option<char>,
    pub created_date: Option<String>,
    pub due: Option<String>,
    /// The raw `t:` value.
    pub threshold: Option<String>,
    pub projects: Vec<String>,
    pub contexts: Vec<String>,
}

/// What a task holds, as character sequences.
pub struct TaskView {
    pub raw: Seq<char>,
    pub done: bool,
    pub priority: Option<char>,
    pub created_date: Option<Seq<char>>,
    pub due: Option<Seq<char>>,
    pub threshold: Option<Seq<char>>,
    pub projects: Seq<Seq<char>>,
    pub contexts: Seq<Seq<char>>,
}

/// The view of an optional string.
pub open spec fn opt_view(s: Option<String>) -> Option<Seq<char>> {
    match s {
        Some(x) => Some(x@),
        None => None,
    }
}

impl View for Task {
    type V = TaskView;

    open spec fn view(&self) -> TaskView {
        TaskView {
            raw: self.raw@,
            done: self.done,
            priority: self.priority,
            created_date: opt_view(self.created_date),
            due: opt_view(self.due),
            threshold: opt_view(self.threshold),
            projects: views(self.projects@),
            contexts: views(self.contexts@),
        }
    }
}

/// The views of a list of tasks.
pub open spec fn task_views(ts: Seq<Task>) -> Seq<TaskView> {
    ts.map_values(|t: Task| t@)
}

/// The words that start with `sigil` and have more after it, without the
/// sigil, in order.
pub open spec fn tag_values(ws: Seq<Seq<char>>, sigil: char) -> Seq<Seq<char>>
    decreases ws.len(),
{
    if ws.len() == 0 {
        seq![]
    } else {
        let rest = tag_values(ws.drop_last(), sigil);
        let w = ws.last();
        if w.len() > 1 && w[0] == sigil {
            rest.push(w.drop_first())
        } else {
            rest
        }
    }
}

/// What follows `key` in the first word that starts with `key` and has
/// more after it.
pub open spec fn first_value(ws: Seq<Seq<char>>, key: Seq<char>) -> Option<Seq<char>>
    decreases ws.len(),
{
    if ws.len() == 0 {
        None
    } else if has_prefix(ws[0], key) && ws[0].len() > key.len() {
        Some(ws[0].skip(key.len() as int))
    } else {
        first_value(ws.drop_first(), key)
    }
}

pub open spec fn is_digit_char(c: char) -> bool {
    '0' <= c <= '9'
}

/// `DDDD-DD-DD`.
pub open spec fn date_shaped(w: Seq<char>) -> bool {
    &&& w.len() == 10
    &&& w[4] == '-' && w[7] == '-'
    &&& forall|k: int| 0 <= k < 10 && k != 4 && k != 7 ==> is_digit_char(#[trigger] w[k])
}

/// `(A)` to `(Z)`.
pub open spec fn priority_word(w: Seq<char>) -> Option<char> {
    if w.len() == 3 && w[0] == '(' && 'A' <= w[1] <= 'Z' && w[2] == ')' {
        Some(w[1])
    } else {
        None
    }
}

pub open spec fn word_at(ws: Seq<Seq<char>>, i: int) -> Seq<char> {
    if 0 <= i < ws.len() {
        ws[i]
    } else {
        seq![]
    }
}

/// The task a line describes.
pub open spec fn parse_task(line: Seq<char>) -> TaskView {
    let ws = words(line);
    let done = ws.len() > 0 && ws[0] == seq!['x'];
    let p = if done {
        1int
    } else {
        0int
    };
    let priority = priority_word(word_at(ws, p));
    let q = if priority is Some {
        p + 1
    } else {
        p
    };
    let created = if done {
        if date_shaped(word_at(ws, q)) && date_shaped(word_at(ws, q + 1)) {
            Some(word_at(ws, q + 1))
        } else {
            None
        }
    } else if date_shaped(word_at(ws, q)) {
        Some(word_at(ws, q))
    } else {
        None
    };
    TaskView {
        raw: line,
        done,
        priority,
        created_date: created,
        due: first_value(ws, seq!['d', 'u', 'e', ':']),
        threshold: first_value(ws, seq!['t', ':']),
        projects: tag_values(ws, '+'),
        contexts: tag_values(ws, '@'),
    }
}

fn word_is_date(w: &Vec<char>) -> (r: bool)
    ensures
        r == date_shaped(w@),
{
    if w.len() != 10 || w[4] != '-' || w[7] != '-' {
        return false;
    }
    let mut k: usize = 0;
    while k < 10
        invariant
            w@.len() == 10,
            k <= 10,
            forall|j: int| 0 <= j < k && j != 4 && j != 7 ==> is_digit_char(#[trigger] w@[j]),
        decreases 10 - k,
    {
        if k != 4 && k != 7 && !('0' <= w[k] && w[k] <= '9') {
            return false;
        }
        k = k + 1;
    }
    true
}

fn word_priority(w: &Vec<char>) -> (r: Option<char>)
    ensures
        r == priority_word(w@),
{
    if w.len() == 3 && w[0] == '(' && 'A' <= w[1] && w[1] <= 'Z' && w[2] == ')' {
        Some(w[1])
    } else {
        None
    }
}

fn tags_with(ws: &Vec<Vec<char>>, sigil: char) -> (r: Vec<String>)
    ensures
        views(r@) == tag_values(char_views(ws@), sigil),
{
    let mut out: Vec<String> = Vec::new();
    let mut i: usize = 0;
    while i < ws.len()
        invariant
            i <= ws.len(),
            views(out@) == tag_values(char_views(ws@).take(i as int), sigil),
        decreases ws.len() - i,
    {
        let ghost before = out@;
        proof {
            assert(char_views(ws@).take(i as int + 1).drop_last() =~= char_views(ws@).take(
                i as int,
            ));
        }
        let w = &ws[i];
        if w.len() > 1 && w[0] == sigil {
            let mut rest: Vec<char> = Vec::new();
            let mut k: usize = 1;
            while k < w.len()
                invariant
                    1 <= k <= w.len(),
                    rest@ =~= w@.subrange(1, k as int),
                decreases w.len() - k,
            {
                rest.push(w[k]);
                k = k + 1;
            }
            out.push(crate::text::string_of(&rest));
            proof {
                assert(views(out@) =~= views(before).push(w@.drop_first()));
            }
        }
        i = i + 1;
    }
    proof {
        assert(char_views(ws@).take(ws.len() as int) =~= char_views(ws@));
    }
    out
}

/// The character sequences of a list of character vectors.
pub open spec fn char_views(v: Seq<Vec<char>>) -> Seq<Seq<char>> {
    v.map_values(|w: Vec<char>| w@)
}

fn first_with(ws: &Vec<Vec<char>>, key: &Vec<char>) -> (r: Option<String>)
    ensures
        opt_view(r) == first_value(char_views(ws@), key@),
{
    let mut i: usize = 0;
    assert(char_views(ws@).skip(0) =~= char_views(ws@));
    while i < ws.len()
        invariant
            i <= ws.len(),
            first_value(char_views(ws@), key@) == first_value(char_views(ws@).skip(i as int), key@),
        decreases ws.len() - i,
    {
        let ghost rest = char_views(ws@).skip(i as int);
        proof {
            assert(rest[0] == ws@[i as int]@);
            assert(rest.drop_first() =~= char_views(ws@).skip(i as int + 1));
        }
        let w = &ws[i];
        if chars_start_with(w, key) && w.len() > key.len() {
            let mut v: Vec<char> = Vec::new();
            let mut k: usize = key.len();
            while k < w.len()
                invariant
                    key@.len() <= k <= w@.len(),
                    v@ =~= w@.subrange(key@.len() as int, k as int),
                decreases w@.len() - k,
            {
                v.push(w[k]);
                k = k + 1;
            }
            return Some(crate::text::string_of(&v));
        }
        i = i + 1;
    }
    proof {
        assert(char_views(ws@).skip(ws.len() as int).len() == 0);
    }
    None
}

/// Parses one todo.txt line.
pub fn parse_line(line: &str) -> (t: Task)
    ensures
        t@ == parse_task(line@),
{
    let toks = split_whitespace(line);
    let mut ws: Vec<Vec<char>> = Vec::new();
    let mut i: usize = 0;
    while i < toks.len()
        invariant
            i <= toks.len(),
            char_views(ws@) =~= views(toks@).take(i as int),
        decreases toks.len() - i,
    {
        let cs = chars_of(toks[i].as_str());
        proof {
            assert(views(toks@).take(i as int + 1) =~= views(toks@).take(i as int).push(cs@));
            assert(char_views(ws@.push(cs)) =~= char_views(ws@).push(cs@));
        }
        ws.push(cs);
        i = i + 1;
    }
    let ghost wv = words(line@);
    assert(char_views(ws@) =~= wv) by {
        assert(views(toks@).take(toks.len() as int) =~= views(toks@));
    }
    let n = ws.len();
    let done = n > 0 && ws[0].len() == 1 && ws[0][0] == 'x';
    proof {
        if n > 0 {
            assert(wv[0] == ws@[0]@);
            if ws@[0]@.len() == 1 && ws@[0]@[0] == 'x' {
                assert(wv[0] =~= seq!['x']);
            }
        }
    }
    let p: usize = if done {
        1
    } else {
        0
    };
    let priority = if p < n {
        word_priority(&ws[p])
    } else {
        None
    };
    let q: usize = if priority.is_some() {
        p + 1
    } else {
        p
    };
    let created: Option<String> = if done {
        if q + 1 < n && word_is_date(&ws[q]) && word_is_date(&ws[q + 1]) {
            Some(crate::text::string_of(&ws[q + 1]))
        } else {
            None
        }
    } else if q < n && word_is_date(&ws[q]) {
        Some(crate::text::string_of(&ws[q]))
    } else {
        None
    };
    proof {
        assert(word_at(wv, q as int + 1).len() == 0 || q + 1 < n);
        assert(word_at(wv, q as int).len() == 0 || q < n);
    }
    let due_key: Vec<char> = vec!['d', 'u', 'e', ':'];
    let t_key: Vec<char> = vec!['t', ':'];
    assert(due_key@ =~= seq!['d', 'u', 'e', ':']);
    assert(t_key@ =~= seq!['t', ':']);
    let due = first_with(&ws, &due_key);
    let threshold = first_with(&ws, &t_key);
    let projects = tags_with(&ws, '+');
    let contexts = tags_with(&ws, '@');
    let raw = String::from_str(line);
    Task { raw, done, priority, created_date: created, due, threshold, projects, contexts }
}


/// End (exclusive) of the line that starts at `i`.
pub open spec fn line_end(s: Seq<char>, i: int) -> int
    decreases s.len() - i,
{
    if i < 0 || i >= s.len() || s[i] == '\n' {
        i
    } else {
        line_end(s, i + 1)
    }
}

pub proof fn lemma_line_end_bounds(s: Seq<char>, i: int)
    requires
        0 <= i <= s.len(),
    ensures
        i <= line_end(s, i) <= s.len(),
        forall|k: int| i <= k < line_end(s, i) ==> s[k] != '\n',
        line_end(s, i) < s.len() ==> s[line_end(s, i)] == '\n',
    decreases s.len() - i,
{
    if i < s.len() && s[i] != '\n' {
        lemma_line_end_bounds(s, i + 1);
    }
}

/// The pieces of `s` between line breaks, from position `i` on.
pub open spec fn lines_from(s: Seq<char>, i: int) -> Seq<Seq<char>>
    decreases s.len() + 1 - i,
{
    if i < 0 || i > s.len() {
        seq![]
    } else {
        proof {
            lemma_line_end_bounds(s, i);
        }
        seq![s.subrange(i, line_end(s, i))] + lines_from(s, line_end(s, i) + 1)
    }
}

/// A line without its trailing carriage return.
pub open spec fn strip_cr(l: Seq<char>) -> Seq<char> {
    if l.len() > 0 && l.last() == '\r' {
        l.drop_last()
    } else {
        l
    }
}

/// The lines that hold a task: carriage returns dropped, blank lines
/// skipped.
pub open spec fn task_lines(ls: Seq<Seq<char>>) -> Seq<Seq<char>>
    decreases ls.len(),
{
    if ls.len() == 0 {
        seq![]
    } else {
        let rest = task_lines(ls.drop_last());
        let l = strip_cr(ls.last());
        if words(l).len() > 0 {
            rest.push(l)
        } else {
            rest
        }
    }
}

/// The tasks a todo.txt file holds, one per non-blank line.
pub open spec fn file_tasks(s: Seq<char>) -> Seq<TaskView> {
    task_lines(lines_from(s, 0)).map_values(|l: Seq<char>| parse_task(l))
}

proof fn lemma_words_from_empty(l: Seq<char>, i: int)
    requires
        0 <= i <= l.len(),
    ensures
        (words_from(l, i).len() > 0) == (exists|k: int| i <= k < l.len() && !spec_is_whitespace(
            #[trigger] l[k],
        )),
    decreases l.len() - i,
{
    if i < l.len() {
        if spec_is_whitespace(l[i]) {
            lemma_words_from_empty(l, i + 1);
            if exists|k: int| i <= k < l.len() && !spec_is_whitespace(#[trigger] l[k]) {
                let k = choose|k: int| i <= k < l.len() && !spec_is_whitespace(#[trigger] l[k]);
                assert(k != i);
            }
        } else {
            lemma_run_end_bounds(l, i);
            assert(!spec_is_whitespace(l[i]));
        }
    }
}

fn has_word(l: &Vec<char>) -> (r: bool)
    ensures
        r == (words(l@).len() > 0),
{
    proof {
        lemma_words_from_empty(l@, 0);
    }
    let mut k: usize = 0;
    while k < l.len()
        invariant
            k <= l.len(),
            forall|j: int| 0 <= j < k ==> spec_is_whitespace(#[trigger] l@[j]),
        decreases l.len() - k,
    {
        if !crate::text::is_whitespace(l[k]) {
            proof {
                lemma_words_from_empty(l@, 0);
                assert(!spec_is_whitespace(l@[k as int]));
            }
            return true;
        }
        k = k + 1;
    }
    proof {
        lemma_words_from_empty(l@, 0);
    }
    false
}

fn add_line(out: &mut Vec<Task>, piece: &Vec<char>, Ghost(done): Ghost<Seq<Seq<char>>>)
    requires
        task_views(old(out)@) == task_lines(done).map_values(|l: Seq<char>| parse_task(l)),
    ensures
        task_views(final(out)@) == task_lines(done.push(piece@)).map_values(
            |l: Seq<char>| parse_task(l),
        ),
{
    let line = if piece.len() > 0 && piece[piece.len() - 1] == '\r' {
        let mut t = piece.clone();
        t.pop();
        t
    } else {
        piece.clone()
    };
    assert(line@ =~= strip_cr(piece@));
    assert(done.push(piece@).drop_last() =~= done);
    if has_word(&line) {
        let ls = crate::text::string_of(&line);
        let t = parse_line(ls.as_str());
        proof {
            assert(task_lines(done.push(piece@)) =~= task_lines(done).push(line@));
            assert(task_views(out@.push(t)) =~= task_views(out@).push(t@));
        }
        out.push(t);
    }
}

/// Parses every non-blank line of a todo.txt file.
pub fn parse_file(text: &str) -> (r: Vec<Task>)
    ensures
        task_views(r@) == file_tasks(text@),
{
    let cs = chars_of(text);
    let ghost s = cs@;
    let ghost all = lines_from(s, 0);
    let mut out: Vec<Task> = Vec::new();
    let mut start: usize = 0;
    let mut cur: Vec<char> = Vec::new();
    let mut i: usize = 0;
    let ghost mut done_lines: Seq<Seq<char>> = seq![];
    proof {
        lemma_line_end_bounds(s, 0);
    }
    while i < cs.len()
        invariant
            s == cs@,
            s == text@,
            all == lines_from(s, 0),
            start <= i <= cs.len(),
            line_end(s, start as int) >= i,
            cur@ =~= s.subrange(start as int, i as int),
            done_lines + lines_from(s, start as int) == all,
            task_views(out@) == task_lines(done_lines).map_values(|l: Seq<char>| parse_task(l)),
        decreases cs.len() - i,
    {
        proof {
            lemma_line_end_bounds(s, start as int);
        }
        if cs[i] == '\n' {
            assert(line_end(s, start as int) == i);
            let ghost piece = cur@;
            add_line(&mut out, &cur, Ghost(done_lines));
            proof {
                assert(lines_from(s, start as int) =~= seq![piece] + lines_from(s, i + 1));
                done_lines = done_lines.push(piece);
                assert(done_lines + lines_from(s, i + 1) =~= all);
                lemma_line_end_bounds(s, i + 1);
            }
            cur = Vec::new();
            start = i + 1;
            i = i + 1;
            assert(cur@ =~= s.subrange(start as int, i as int));
        } else {
            assert(line_end(s, start as int) > i) by {
                if line_end(s, start as int) == i {
                    assert(s[i as int] == '\n');
                }
            }
            cur.push(cs[i]);
            i = i + 1;
        }
    }
    proof {
        lemma_line_end_bounds(s, start as int);
        assert(line_end(s, start as int) == i);
        assert(lines_from(s, start as int) =~= seq![cur@] + lines_from(s, i + 1));
        assert(lines_from(s, i + 1) =~= Seq::<Seq<char>>::empty());
    }
    let ghost piece = cur@;
    add_line(&mut out, &cur, Ghost(done_lines));
    proof {
        assert(done_lines.push(piece) =~= all);
    }
    out
}

/// The text of a task line after a leading `(A) ` priority marker.
pub open spec fn body_after_priority_of(raw: Seq<char>) -> Seq<char> {
    if raw.len() >= 4 && raw[0] == '(' && 'A' <= raw[1] <= 'Z' && raw[2] == ')' && raw[3] == ' ' {
        raw.skip(4)
    } else {
        raw
    }
}

/// The body of a task line: the line without a leading `(A) ` priority.
pub fn body_after_priority(raw: &str) -> (r: &str)
    ensures
        r@ == body_after_priority_of(raw@),
{
    let n = raw.unicode_len();
    if n >= 4 && raw.get_char(0) == '(' && 'A' <= raw.get_char(1) && raw.get_char(1) <= 'Z'
        && raw.get_char(2) == ')' && raw.get_char(3) == ' ' {
        raw.substring_char(4, n)
    } else {
        raw
    }
}

} // verus!
