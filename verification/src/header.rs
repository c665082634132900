//! The header bar: the filter chip text and the sequence of styled pieces
//! the bar shows. Drawing them on a terminal is left to the caller.

use vstd::prelude::*;
use crate::app::{Filter, FilterView};
use crate::text::{join_spaced, join_with_spaces, push_decimal, push_str, views, decimal};

verus! {

/// The labelled parts of the filter chip: `+project`, `@context` and
/// `/search`, for those that are active.
pub open spec fn label_parts(f: FilterView) -> Seq<Seq<char>> {
    let p = match f.project {
        Some(x) => seq![seq!['+'] + x],
        None => seq![],
    };
    let c = match f.context {
        Some(x) => seq![seq!['@'] + x],
        None => seq![],
    };
    let s = if f.search.len() > 0 {
        seq![seq!['/'] + f.search]
    } else {
        seq![]
    };
    p + c + s
}

/// The filter chip: the active parts joined with spaces, `None` when no
/// filter is active.
pub open spec fn filter_label_of(f: FilterView) -> Option<Seq<char>> {
    let parts = label_parts(f);
    if parts.len() == 0 {
        None
    } else {
        Some(join_spaced(parts))
    }
}

/// The view of an optional string.
pub open spec fn opt_string_view(s: Option<String>) -> Option<Seq<char>> {
    match s {
        Some(x) => Some(x@),
        None => None,
    }
}

fn tagged(sigil: char, body: &str) -> (r: String)
    ensures
        r@ == seq![sigil] + body@,
{
    let mut s = String::new();
    crate::text::push_char(&mut s, sigil);
    push_str(&mut s, body);
    assert(s@ =~= seq![sigil] + body@);
    s
}

/// Build the human-readable filter chip shown in the header. Project,
/// context, and search combine as AND'd filters, so every active one must
/// appear in the label. `None` when no filter is active.
pub fn filter_label(filter: &Filter) -> (r: Option<String>)
    ensures
        opt_string_view(r) == filter_label_of(filter@),
        r is None <==> (filter@.project is None && filter@.context is None && filter@.search.len()
            == 0),
{
    let mut parts: Vec<String> = Vec::new();
    let ghost f = filter@;
    if let Some(p) = &filter.project {
        parts.push(tagged('+', p.as_str()));
    }
    let ghost after_p = views(parts@);
    if let Some(c) = &filter.context {
        parts.push(tagged('@', c.as_str()));
    }
    let ghost after_c = views(parts@);
    if filter.search.unicode_len() != 0 {
        parts.push(tagged('/', filter.search.as_str()));
    }
    proof {
        let pp = match f.project {
            Some(x) => seq![seq!['+'] + x],
            None => Seq::<Seq<char>>::empty(),
        };
        let cc = match f.context {
            Some(x) => seq![seq!['@'] + x],
            None => Seq::<Seq<char>>::empty(),
        };
        assert(after_p =~= pp);
        assert(after_c =~= pp + cc);
        assert(views(parts@) =~= label_parts(f));
    }
    if parts.len() == 0 {
        None
    } else {
        Some(join_with_spaces(&parts))
    }
}

/// Inputs for the top-of-screen header bar. Grouped into a struct so call
/// sites pass labelled fields instead of positional `&str` args (which were
/// trivially swappable).
pub struct HeaderProps<'a> {
    pub title: Option<&'a str>,
    pub count: usize,
    pub sort: &'a str,
    pub filter: Option<&'a str>,
}

/// How a piece of the header is coloured.
#[derive(Clone, Copy, Debug, PartialEq, Eq, Structural)]
pub enum HeaderStyle {
    /// Unstyled.
    Plain,
    /// The theme's accent colour.
    Accent,
    /// The theme's priority-A colour.
    PriorityA,
    /// Foreground colour, bold.
    Title,
    /// The dimmed colour.
    Dim,
    /// The context colour.
    Context,
}

/// One piece of the header bar.
pub struct HeaderSpan {
    pub text: String,
    pub style: HeaderStyle,
}

/// The pieces, as text and style.
pub open spec fn spans_view(v: Seq<HeaderSpan>) -> Seq<(Seq<char>, HeaderStyle)> {
    v.map_values(|s: HeaderSpan| (s.text@, s.style))
}

/// The header bar: a small bow-tie mark, the title if any, the task count,
/// the sort, and the filter chip if any.
pub open spec fn header_of(
    title: Option<Seq<char>>,
    count: nat,
    sort: Seq<char>,
    filter: Option<Seq<char>>,
) -> Seq<(Seq<char>, HeaderStyle)> {
    let mark = seq![
        (" "@, HeaderStyle::Plain),
        ("▶"@, HeaderStyle::Accent),
        ("▮"@, HeaderStyle::PriorityA),
        ("◀"@, HeaderStyle::Accent),
        (" "@, HeaderStyle::Plain),
    ];
    let t = match title {
        Some(x) => seq![(x, HeaderStyle::Title)],
        None => seq![],
    };
    let info = seq![
        ("  •  "@, HeaderStyle::Dim),
        (decimal(count) + " tasks"@, HeaderStyle::Dim),
        ("  •  "@, HeaderStyle::Dim),
        ("sort:"@ + sort, HeaderStyle::Accent),
    ];
    let f = match filter {
        Some(x) => seq![("   "@, HeaderStyle::Plain), ("filter:"@ + x, HeaderStyle::Context)],
        None => seq![],
    };
    mark + t + info + f
}

fn span(text: &str, style: HeaderStyle) -> (r: HeaderSpan)
    ensures
        r.text@ == text@,
        r.style == style,
{
    HeaderSpan { text: String::from_str(text), style }
}

fn push_span(v: &mut Vec<HeaderSpan>, s: HeaderSpan)
    ensures
        spans_view(final(v)@) == spans_view(old(v)@).push((s.text@, s.style)),
{
    let ghost before = v@;
    v.push(s);
    assert(spans_view(v@) =~= spans_view(before).push((s.text@, s.style)));
}

/// The pieces of the header bar, in order.
pub fn header_spans(props: &HeaderProps) -> (r: Vec<HeaderSpan>)
    ensures
        spans_view(r@) == header_of(
            match props.title {
                Some(x) => Some(x@),
                None => None,
            },
            props.count as nat,
            props.sort@,
            match props.filter {
                Some(x) => Some(x@),
                None => None,
            },
        ),
{
    let mut v: Vec<HeaderSpan> = Vec::new();
    push_span(&mut v, span(" ", HeaderStyle::Plain));
    push_span(&mut v, span("▶", HeaderStyle::Accent));
    push_span(&mut v, span("▮", HeaderStyle::PriorityA));
    push_span(&mut v, span("◀", HeaderStyle::Accent));
    push_span(&mut v, span(" ", HeaderStyle::Plain));
    let ghost after_mark = spans_view(v@);
    if let Some(t) = props.title {
        push_span(&mut v, span(t, HeaderStyle::Title));
    }
    let ghost after_title = spans_view(v@);
    push_span(&mut v, span("  •  ", HeaderStyle::Dim));
    let mut count = String::new();
    push_decimal(&mut count, props.count);
    push_str(&mut count, " tasks");
    push_span(&mut v, HeaderSpan { text: count, style: HeaderStyle::Dim });
    push_span(&mut v, span("  •  ", HeaderStyle::Dim));
    let mut sort = String::from_str("sort:");
    push_str(&mut sort, props.sort);
    push_span(&mut v, HeaderSpan { text: sort, style: HeaderStyle::Accent });
    let ghost after_info = spans_view(v@);
    if let Some(f) = props.filter {
        push_span(&mut v, span("   ", HeaderStyle::Plain));
        let mut chip = String::from_str("filter:");
        push_str(&mut chip, f);
        push_span(&mut v, HeaderSpan { text: chip, style: HeaderStyle::Context });
    }
    proof {
        let title = match props.title {
            Some(x) => Some(x@),
            None => None,
        };
        let filter = match props.filter {
            Some(x) => Some(x@),
            None => None,
        };
        let mark = seq![
            (" "@, HeaderStyle::Plain),
            ("▶"@, HeaderStyle::Accent),
            ("▮"@, HeaderStyle::PriorityA),
            ("◀"@, HeaderStyle::Accent),
            (" "@, HeaderStyle::Plain),
        ];
        let t = match title {
            Some(x) => seq![(x, HeaderStyle::Title)],
            None => seq![],
        };
        assert(after_mark =~= mark);
        assert(after_title =~= mark + t);
        assert(spans_view(v@) =~= header_of(title, props.count as nat, props.sort@, filter));
    }
    v
}

} // verus!
