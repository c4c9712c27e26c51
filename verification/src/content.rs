//! The document-assembly rules of the page scraper that rides on the
//! scheduler: which blocks of a fetched page become text lines, which links
//! are handed to the worker queue as new documents, which children are
//! fetched and folded into the current document, and when pagination asks
//! for another request.
//!
//! The scraper's transport — the HTTP calls and the JSON decoding — stays
//! outside; these functions work on a plain model of what one fetched block
//! holds, and every decision is stated exactly.

use vstd::prelude::*;

use vstd::pervasive::unreached;
use vstd::string::StringExecFns;

verus! {

/// The kind of a fetched block, read from its type tag.
#[derive(Clone, Copy, Debug, PartialEq, Eq, Structural)]
pub enum BlockKind {
    BulletedListItem,
    Code,
    Paragraph,
    ChildPage,
    LinkToPage,
    Other,
}

/// A text field of a rich-text span: absent, present but not textual, or a
/// string.
pub enum TextField {
    Missing,
    NotText,
    Value(String),
}

/// One span of rich text inside a block.
///
/// All three fields mirror the span's own fields: absent, present but not
/// textual, or a string. A span without any `href` field at all is
/// malformed — [`parse_rich_text`] rules it out and the scraper stops on
/// it — while a non-textual one (a null link) renders as no link, and so
/// does an empty one. `plain_text` wins over `text` whenever the field is
/// present at all, textual or not.
pub struct RichSpan {
    pub href: TextField,
    pub plain_text: TextField,
    pub text: TextField,
}

/// The model of one fetched block: its kind, its own identifier, the page a
/// link block points to, whether children hang below it, and its rich-text
/// spans. `rich` is present exactly when the block's payload is an object
/// holding a rich-text list.
pub struct Block {
    pub kind: BlockKind,
    pub id: Option<String>,
    pub link_to_page_id: Option<String>,
    pub has_children: bool,
    pub rich: Option<Vec<RichSpan>>,
}

/// The text a span contributes before link markup: a present `plain_text`
/// field decides alone, a present `text` field is consulted otherwise, and
/// a non-textual field contributes nothing.
pub open spec fn span_value(s: RichSpan) -> Option<Seq<char>> {
    match s.plain_text {
        TextField::Value(t) => Some(t@),
        TextField::NotText => None,
        TextField::Missing => match s.text {
            TextField::Value(t) => Some(t@),
            TextField::NotText => None,
            TextField::Missing => None,
        },
    }
}

/// The link target a span renders with: the `href` string when it is one,
/// nothing when the field is non-textual.
pub open spec fn span_href(s: RichSpan) -> Seq<char> {
    match s.href {
        TextField::Value(t) => t@,
        _ => Seq::empty(),
    }
}

/// What one span adds to the line: nothing without text, the bare text
/// without a link, and bracketed link markup otherwise.
pub open spec fn span_render(s: RichSpan) -> Seq<char> {
    match span_value(s) {
        None => Seq::empty(),
        Some(v) => if span_href(s).len() == 0 {
            v
        } else {
            "["@ + v + "]("@ + span_href(s) + ")"@
        },
    }
}

/// The renderings of a whole span list, in order.
pub open spec fn spans_render(spans: Seq<RichSpan>) -> Seq<char>
    decreases spans.len(),
{
    if spans.len() == 0 {
        Seq::empty()
    } else {
        spans_render(spans.drop_last()) + span_render(spans.last())
    }
}

/// The markup put before a block's text, by kind.
pub open spec fn kind_prefix(kind: BlockKind) -> Seq<char> {
    match kind {
        BlockKind::BulletedListItem => "* "@,
        BlockKind::Code => "\n```\n"@,
        _ => ""@,
    }
}

/// The markup put after a block's text, by kind.
pub open spec fn kind_suffix(kind: BlockKind) -> Seq<char> {
    match kind {
        BlockKind::Paragraph => "\n"@,
        BlockKind::Code => "\n```"@,
        _ => ""@,
    }
}

/// True when every span of the list carries its `href` field, present or
/// null; a span without one is malformed.
pub open spec fn spans_carry_href(rich: Option<Vec<RichSpan>>) -> bool {
    match rich {
        Some(spans) => forall|i: int|
            0 <= i < spans@.len() ==> !((#[trigger] spans@[i]).href is Missing),
        None => true,
    }
}

/// Renders a block's rich-text spans into one line of markup: the kind's
/// prefix, each span's contribution in order, and the kind's suffix.
/// Returns nothing exactly when the block carries no rich-text list. A
/// span lacking its `href` field altogether is malformed and ruled out
/// here; the caller tests for one first and stops on it.
pub fn parse_rich_text(kind: &BlockKind, rich: &Option<Vec<RichSpan>>) -> (r: Option<String>)
    requires
        spans_carry_href(*rich),
    ensures
        match (rich, r) {
            (Some(spans), Some(line)) => line@ == kind_prefix(*kind) + spans_render(spans@)
                + kind_suffix(*kind),
            (None, None) => true,
            _ => false,
        },
{
    let spans = match rich {
        Some(spans) => spans,
        None => {
            return None;
        },
    };

    let prefix: &str = match kind {
        BlockKind::BulletedListItem => "* ",
        BlockKind::Code => "\n```\n",
        _ => "",
    };
    let suffix: &str = match kind {
        BlockKind::Paragraph => "\n",
        BlockKind::Code => "\n```",
        _ => "",
    };
    let mut line = String::new();
    line.append(prefix);
    let mut i: usize = 0;
    while i < spans.len()
        invariant
            i <= spans@.len(),
            forall|k: int| 0 <= k < spans@.len() ==> !((#[trigger] spans@[k]).href is Missing),
            line@ == kind_prefix(*kind) + spans_render(spans@.subrange(0, i as int)),
        decreases spans@.len() - i,
    {
        let ghost prefix_done = spans@.subrange(0, i as int);
        let ghost line0 = line@;
        let span = &spans[i];
        let value: Option<&str> = match &span.plain_text {
            TextField::Value(t) => Some(t.as_str()),
            TextField::NotText => None,
            TextField::Missing => match &span.text {
                TextField::Value(t) => Some(t.as_str()),
                TextField::NotText => None,
                TextField::Missing => None,
            },
        };
        proof {
            match value {
                Some(v) => {
                    assert(span_value(spans@[i as int]) == Some(v@));
                },
                None => {
                    assert(span_value(spans@[i as int]) is None);
                },
            }
        }
        match value {
            Some(v) => {
                proof {
                    assert(!(spans@[i as int].href is Missing));
                }
                let href: &str = match &span.href {
                    TextField::Value(t) => t.as_str(),
                    TextField::NotText => "",
                    TextField::Missing => unreached(),
                };
                proof {
                    assert(href@ == span_href(spans@[i as int])) by {
                        reveal_strlit("");
                    }
                }
                if href.is_empty() {
                    line.append(v);
                    proof {
                        assert(span_href(spans@[i as int]).len() == 0);
                        assert(line@ == line0 + span_render(spans@[i as int]));
                    }
                } else {
                    line.append("[");
                    line.append(v);
                    line.append("](");
                    line.append(href);
                    line.append(")");
                    proof {
                        assert(span_href(spans@[i as int]).len() != 0);
                        assert(span_render(spans@[i as int]) == "["@ + v@ + "]("@ + span_href(
                            spans@[i as int],
                        ) + ")"@);
                        assert(line@ =~= line0 + span_render(spans@[i as int]));
                    }
                }
            },
            None => {
                proof {
                    assert(span_render(spans@[i as int]) =~= Seq::<char>::empty());
                    assert(line@ =~= line0 + span_render(spans@[i as int]));
                }
            },
        }
        proof {
            assert(spans@.subrange(0, i + 1).drop_last() =~= prefix_done);
            assert(spans@.subrange(0, i + 1).last() == spans@[i as int]);
            assert(line@ =~= kind_prefix(*kind) + spans_render(spans@.subrange(0, i + 1)));
        }
        i = i + 1;
    }
    proof {
        assert(spans@.subrange(0, spans@.len() as int) =~= spans@);
    }
    line.append(suffix);
    Some(line)
}

/// What a block contributes beyond its own line: nothing, a link to a page
/// that becomes a document of its own, or children to fetch and fold into
/// the current document.
pub struct BlockStep {
    /// A page identifier to hand to the worker queue as a new document.
    pub enqueue: Option<String>,
    /// The identifier of a block whose children join this document,
    /// indented one level.
    pub inline_children: Option<String>,
}

/// Decides what a block feeds back into the walk: a link block enqueues the
/// page it points to, a child-page block with children enqueues itself as a
/// new document, and any other block with children and an identifier has
/// them fetched inline.
pub fn block_step(b: &Block) -> (r: BlockStep)
    requires
        b.kind is LinkToPage ==> b.link_to_page_id is Some,
    ensures
        r.enqueue == (if b.kind is LinkToPage {
            b.link_to_page_id
        } else if b.has_children && b.kind is ChildPage {
            b.id
        } else {
            Option::<String>::None
        }),
        r.inline_children == (if b.has_children && !(b.kind is ChildPage) {
            b.id
        } else {
            Option::<String>::None
        }),
{
    let enqueue = if matches!(b.kind, BlockKind::LinkToPage) {
        match &b.link_to_page_id {
            Some(id) => Some(id.clone()),
            None => None,
        }
    } else if b.has_children && matches!(b.kind, BlockKind::ChildPage) {
        match &b.id {
            Some(id) => Some(id.clone()),
            None => None,
        }
    } else {
        None
    };
    let inline_children = if b.has_children && !matches!(b.kind, BlockKind::ChildPage) {
        match &b.id {
            Some(id) => Some(id.clone()),
            None => None,
        }
    } else {
        None
    };
    BlockStep { enqueue, inline_children }
}

/// What the pagination signal of a fetched page asks for next.
pub enum PageNext {
    /// No more results: the page is complete.
    Done,
    /// More results were promised but no cursor came with them; assembly
    /// stops and the caller reports the gap.
    MissingCursor,
    /// Fetch the next batch from this cursor.
    Continue(String),
}

/// Decides whether assembly continues after one batch of results: it
/// continues exactly when more results were promised and a cursor points at
/// them.
pub fn page_next(has_more: bool, next_cursor: Option<String>) -> (r: PageNext)
    ensures
        match r {
            PageNext::Done => !has_more,
            PageNext::MissingCursor => has_more && next_cursor is None,
            PageNext::Continue(c) => has_more && next_cursor == Some(c),
        },
{
    if has_more {
        match next_cursor {
            Some(c) => PageNext::Continue(c),
            None => PageNext::MissingCursor,
        }
    } else {
        PageNext::Done
    }
}

/// Indents fetched child lines one level under their parent: every line
/// gains one leading tab.
pub fn indent_lines(lines: Vec<String>) -> (out: Vec<String>)
    ensures
        out@.len() == lines@.len(),
        forall|i: int| 0 <= i < lines@.len() ==> #[trigger] out@[i]@ == "\t"@ + lines@[i]@,
{
    let mut out: Vec<String> = Vec::new();
    let mut i: usize = 0;
    while i < lines.len()
        invariant
            i <= lines@.len(),
            out@.len() == i,
            forall|j: int| 0 <= j < i ==> #[trigger] out@[j]@ == "\t"@ + lines@[j]@,
        decreases lines@.len() - i,
    {
        let mut t = String::new();
        t.append("\t");
        t.append(lines[i].as_str());
        out.push(t);
        i = i + 1;
    }
    out
}

/// The lines of a document joined with newlines, in order.
pub open spec fn joined_lines(ls: Seq<Seq<char>>) -> Seq<char>
    decreases ls.len(),
{
    if ls.len() == 0 {
        Seq::empty()
    } else if ls.len() == 1 {
        ls[0]
    } else {
        joined_lines(ls.drop_last()) + "\n"@ + ls.last()
    }
}

/// Assembles the final document: the collected lines joined with newlines.
pub fn join_lines(lines: &Vec<String>) -> (out: String)
    ensures
        out@ == joined_lines(lines@.map_values(|s: String| s@)),
{
    let ghost views = lines@.map_values(|s: String| s@);
    let mut out = String::new();
    let mut i: usize = 0;
    proof {
        assert(views.subrange(0, 0) =~= Seq::<Seq<char>>::empty());
        assert(out@ =~= joined_lines(views.subrange(0, 0)));
    }
    while i < lines.len()
        invariant
            i <= lines@.len(),
            views == lines@.map_values(|s: String| s@),
            out@ == joined_lines(views.subrange(0, i as int)),
        decreases lines@.len() - i,
    {
        let ghost done = views.subrange(0, i as int);
        if i > 0 {
            out.append("\n");
        }
        out.append(lines[i].as_str());
        proof {
            assert(views.subrange(0, i + 1).drop_last() =~= done);
            assert(views.subrange(0, i + 1).last() == views[i as int]);
            assert(views[i as int] == lines@[i as int]@);
            if i == 0 {
                assert(out@ =~= joined_lines(views.subrange(0, i + 1)));
            } else {
                assert(out@ =~= joined_lines(views.subrange(0, i + 1)));
            }
        }
        i = i + 1;
    }
    proof {
        assert(views.subrange(0, views.len() as int) =~= views);
    }
    out
}

} // verus!
