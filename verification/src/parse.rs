//! Splitting a document into heading-delimited sections.

use crate::id::{hex_prefix_spec, is_hex_id, section_id};
use crate::snippet::{code_tokens_spec, count_code_tokens, extract_snippet, snippet_spec};
use crate::text::{
    chars_of, slice_chars, join, join_chars, push_str, slice_bytes, string_from_chars, trim, trim_chars, trim_end, trim_start,
    views,
};
use crate::token::{cl100k_encode, count};
use pulldown_cmark::{Event, Parser, Tag, TagEnd};
use vstd::prelude::*;
use vstd::utf8::{decode_utf8, valid_utf8};

verus! {

// ---------------------------------------------------------------------------
// Markdown events
// ---------------------------------------------------------------------------

/// The markdown parser events that sectioning reads.
pub enum MdEvent {
    /// Start of a heading: byte offset of its source range and level 1..=6.
    HeadingStart { offset: usize, level: u8 },
    /// A text or inline-code node.
    Text { text: String },
    /// The end of a heading.
    HeadingEnd,
    /// Any other event.
    Other,
}

/// Mathematical model of an `MdEvent`.
pub enum MdEventView {
    HeadingStart { offset: nat, level: u8 },
    Text { text: Seq<char> },
    HeadingEnd,
    Other,
}

impl View for MdEvent {
    type V = MdEventView;

    open spec fn view(&self) -> MdEventView {
        match self {
            MdEvent::HeadingStart { offset, level } => MdEventView::HeadingStart {
                offset: *offset as nat,
                level: *level,
            },
            MdEvent::Text { text } => MdEventView::Text { text: text@ },
            MdEvent::HeadingEnd => MdEventView::HeadingEnd,
            MdEvent::Other => MdEventView::Other,
        }
    }
}

/// The event stream `pulldown_cmark` (default options) produces for `text`,
/// reduced to `MdEventView`s.
pub uninterp spec fn markdown_events(text: Seq<char>) -> Seq<MdEventView>;

/// Every heading start has a level from 1 to 6.
pub open spec fn heading_levels_ok(ev: Seq<MdEventView>) -> bool {
    forall|i: int|
        0 <= i < ev.len() ==> (#[trigger] ev[i] matches MdEventView::HeadingStart { level, .. } ==> 1
            <= level <= 6)
}

/// Heading starts come in source order.
pub open spec fn heading_starts_ordered(ev: Seq<MdEventView>) -> bool {
    forall|i: int, j: int|
        0 <= i < j < ev.len() ==> (#[trigger] ev[i] matches MdEventView::HeadingStart { offset: a, .. }
            ==> (#[trigger] ev[j] matches MdEventView::HeadingStart { offset: b, .. } ==> a <= b))
}

/// Trusted: iterates `pulldown_cmark::Parser::new(text).into_offset_iter()`
/// and converts each event one for one: a heading start carries the start
/// of its source range and its level number, text and inline code carry
/// their text, the end of a heading is `HeadingEnd`, all else `Other`. The
/// contract names the converted stream as a function of the text, and
/// states what the parser's source fixes: heading levels are 1 to 6
/// (`HeadingLevel::H1..=H6`), and events come in source order, so heading
/// starts never go backwards.
#[verifier::external_body]
fn markdown_event_stream(text: &str) -> (res: Vec<MdEvent>)
    ensures
        res@.len() == markdown_events(text@).len(),
        forall|i: int| 0 <= i < res@.len() ==> (#[trigger] res@[i])@ == markdown_events(text@)[i],
        heading_levels_ok(res@.map_values(|e: MdEvent| e@)),
        heading_starts_ordered(res@.map_values(|e: MdEvent| e@)),
{
    Parser::new(text).into_offset_iter().map(|(event, range)| match event {
        Event::Start(Tag::Heading { level, .. }) => MdEvent::HeadingStart {
            offset: range.start,
            level: level as u8,
        },
        Event::Text(t) => MdEvent::Text { text: t.to_string() },
        Event::Code(t) => MdEvent::Text { text: t.to_string() },
        Event::End(TagEnd::Heading(_)) => MdEvent::HeadingEnd,
        _ => MdEvent::Other,
    }).collect()
}

/// Trusted: `std::str::from_utf8`, which std documents to succeed exactly
/// on valid UTF-8; the contract states that, and that the string's
/// characters are the decoding of the bytes.
#[verifier::external_body]
fn utf8_str(bytes: &[u8]) -> (res: Option<&str>)
    ensures
        res is Some <==> valid_utf8(bytes@),
        res matches Some(s) ==> s@ == decode_utf8(bytes@),
{
    std::str::from_utf8(bytes).ok()
}

/// The text of a byte sequence: its decoding when valid UTF-8, else empty.
pub open spec fn text_of(bytes: Seq<u8>) -> Seq<char> {
    if valid_utf8(bytes) {
        decode_utf8(bytes)
    } else {
        seq![]
    }
}

/// Executable `text_of`.
pub fn text_of_bytes(bytes: &[u8]) -> (res: Vec<char>)
    ensures
        res@ == text_of(bytes@),
{
    match utf8_str(bytes) {
        Some(s) => chars_of(s),
        None => Vec::new(),
    }
}

// ---------------------------------------------------------------------------
// Heading boundaries
// ---------------------------------------------------------------------------

/// A heading boundary: byte offset of the heading, its level and its text.
pub struct Bound {
    pub start: usize,
    pub level: u8,
    pub heading: Vec<char>,
}

/// Mathematical model of a `Bound`.
pub struct BoundView {
    pub start: nat,
    pub level: u8,
    pub heading: Seq<char>,
}

impl View for Bound {
    type V = BoundView;

    open spec fn view(&self) -> BoundView {
        BoundView { start: self.start as nat, level: self.level, heading: self.heading@ }
    }
}

pub open spec fn bound_views(b: Seq<Bound>) -> Seq<BoundView> {
    b.map_values(|x: Bound| x@)
}

/// Heading boundaries collected from `ev[i..]` given the heading being read
/// (`cur`) and the boundaries collected so far: a heading start opens a
/// heading, text and code append to an open heading (inline markup inside
/// it included), and the heading's own end closes it and keeps it when its
/// text is non-empty.
pub open spec fn bounds_from(
    ev: Seq<MdEventView>,
    i: int,
    cur: Option<BoundView>,
    acc: Seq<BoundView>,
) -> Seq<BoundView>
    decreases ev.len() - i,
{
    if i < 0 || i >= ev.len() {
        acc
    } else {
        match ev[i] {
            MdEventView::HeadingStart { offset, level } => bounds_from(
                ev,
                i + 1,
                Some(BoundView { start: offset, level, heading: seq![] }),
                acc,
            ),
            MdEventView::Text { text } => bounds_from(
                ev,
                i + 1,
                match cur {
                    Some(b) => Some(BoundView { heading: b.heading + text, ..b }),
                    None => None,
                },
                acc,
            ),
            MdEventView::HeadingEnd => match cur {
                Some(b) => bounds_from(
                    ev,
                    i + 1,
                    None,
                    if b.heading.len() > 0 {
                        acc.push(b)
                    } else {
                        acc
                    },
                ),
                None => bounds_from(ev, i + 1, None, acc),
            },
            MdEventView::Other => bounds_from(ev, i + 1, cur, acc),
        }
    }
}

/// The heading boundaries of an event stream, in order.
pub open spec fn heading_bounds_spec(ev: Seq<MdEventView>) -> Seq<BoundView> {
    bounds_from(ev, 0, None, seq![])
}

/// What holds of the boundaries collected after reading `ev[..i]`: they
/// are in order with levels 1 to 6, the open heading comes after them, and
/// no heading still to come starts before any of them.
spec fn bounds_inv(ev: Seq<MdEventView>, i: int, cur: Option<BoundView>, acc: Seq<BoundView>) -> bool {
    &&& offsets_in_order(acc)
    &&& forall|k: int| 0 <= k < acc.len() ==> 1 <= #[trigger] acc[k].level <= 6
    &&& cur matches Some(b) ==> 1 <= b.level <= 6 && (acc.len() > 0 ==> acc.last().start <= b.start)
    &&& forall|j: int|
        i <= j < ev.len() ==> (#[trigger] ev[j] matches MdEventView::HeadingStart { offset, .. } ==> (
        acc.len() > 0 ==> acc.last().start <= offset) && (cur matches Some(b) ==> b.start <= offset))
}

proof fn lemma_bounds_from_ordered(
    ev: Seq<MdEventView>,
    i: int,
    cur: Option<BoundView>,
    acc: Seq<BoundView>,
)
    requires
        heading_levels_ok(ev),
        heading_starts_ordered(ev),
        0 <= i <= ev.len(),
        bounds_inv(ev, i, cur, acc),
    ensures
        offsets_in_order(bounds_from(ev, i, cur, acc)),
        forall|k: int|
            0 <= k < bounds_from(ev, i, cur, acc).len() ==> 1 <= #[trigger] bounds_from(
                ev,
                i,
                cur,
                acc,
            )[k].level <= 6,
    decreases ev.len() - i,
{
    if i < ev.len() {
        match ev[i] {
            MdEventView::HeadingStart { offset, level } => {
                let nb = BoundView { start: offset, level, heading: seq![] };
                assert forall|j: int|
                    i + 1 <= j < ev.len() implies (#[trigger] ev[j] matches MdEventView::HeadingStart {
                    offset: o,
                    ..
                } ==> (acc.len() > 0 ==> acc.last().start <= o) && (Some(nb) matches Some(b)
                    ==> b.start <= o)) by {
                    assert(ev[i] matches MdEventView::HeadingStart { .. });
                }
                lemma_bounds_from_ordered(ev, i + 1, Some(nb), acc);
            },
            MdEventView::Text { text } => {
                let nc = match cur {
                    Some(b) => Some(BoundView { heading: b.heading + text, ..b }),
                    None => None,
                };
                lemma_bounds_from_ordered(ev, i + 1, nc, acc);
            },
            MdEventView::HeadingEnd => match cur {
                Some(b) => {
                    let na = if b.heading.len() > 0 {
                        acc.push(b)
                    } else {
                        acc
                    };
                    if b.heading.len() > 0 {
                        assert forall|k: int| 0 <= k < na.len() - 1 implies #[trigger] na[k].start
                            <= na[k + 1].start by {
                            if k + 1 < acc.len() {
                                assert(acc[k].start <= acc[k + 1].start);
                            }
                        }
                        assert forall|k: int| 0 <= k < na.len() implies 1 <= #[trigger] na[k].level
                            <= 6 by {
                            if k < acc.len() {
                                assert(acc[k].level == na[k].level);
                            }
                        }
                    }
                    lemma_bounds_from_ordered(ev, i + 1, None, na);
                },
                None => {
                    lemma_bounds_from_ordered(ev, i + 1, None, acc);
                },
            },
            MdEventView::Other => {
                lemma_bounds_from_ordered(ev, i + 1, cur, acc);
            },
        }
    }
}

/// The heading boundaries of a parser's events are in source order and
/// have levels 1 to 6.
proof fn lemma_heading_bounds_ordered(ev: Seq<MdEventView>)
    requires
        heading_levels_ok(ev),
        heading_starts_ordered(ev),
    ensures
        offsets_in_order(heading_bounds_spec(ev)),
        forall|k: int|
            0 <= k < heading_bounds_spec(ev).len() ==> 1 <= #[trigger] heading_bounds_spec(ev)[k].level
                <= 6,
{
    lemma_bounds_from_ordered(ev, 0, None, seq![]);
}

/// Collects the non-empty headings of an event stream with their offsets and
/// levels.
pub fn heading_bounds(events: &Vec<MdEvent>) -> (res: Vec<Bound>)
    ensures
        bound_views(res@) == heading_bounds_spec(events@.map_values(|e: MdEvent| e@)),
{
    let ghost ev = events@.map_values(|e: MdEvent| e@);
    let mut out: Vec<Bound> = Vec::new();
    let mut cur: Option<Bound> = None;
    let mut i: usize = 0;
    assert(bound_views(out@) =~= Seq::<BoundView>::empty());
    while i < events.len()
        invariant
            i <= events.len(),
            ev == events@.map_values(|e: MdEvent| e@),
            heading_bounds_spec(ev) == bounds_from(
                ev,
                i as int,
                match cur {
                    Some(b) => Some(b@),
                    None => None,
                },
                bound_views(out@),
            ),
        decreases events.len() - i,
    {
        assert(ev[i as int] == events@[i as int]@);
        match &events[i] {
            MdEvent::HeadingStart { offset, level } => {
                cur = Some(Bound { start: *offset, level: *level, heading: Vec::new() });
            },
            MdEvent::Text { text } => {
                match cur {
                    Some(mut b) => {
                        push_str(&mut b.heading, text.as_str());
                        cur = Some(b);
                    },
                    None => {},
                }
            },
            MdEvent::HeadingEnd => {
                match cur {
                    Some(b) => {
                        if b.heading.len() > 0 {
                            let ghost before = bound_views(out@);
                            let ghost bv = b@;
                            out.push(b);
                            assert(bound_views(out@) =~= before.push(bv));
                        }
                        cur = None;
                    },
                    None => {},
                }
            },
            MdEvent::Other => {},
        }
        i = i + 1;
    }
    out
}

// ---------------------------------------------------------------------------
// Heading paths
// ---------------------------------------------------------------------------

/// Drops the top entries whose level is `>= level`.
pub open spec fn pop_ge(stack: Seq<(u8, Seq<char>)>, level: u8) -> Seq<(u8, Seq<char>)>
    decreases stack.len(),
{
    if stack.len() > 0 && stack.last().0 >= level {
        pop_ge(stack.drop_last(), level)
    } else {
        stack
    }
}

/// The stack of enclosing headings before boundary `i` is processed.
pub open spec fn stack_before(b: Seq<BoundView>, i: int) -> Seq<(u8, Seq<char>)>
    decreases i,
{
    if i <= 0 || i > b.len() {
        seq![]
    } else {
        pop_ge(stack_before(b, i - 1), b[i - 1].level).push((b[i - 1].level, b[i - 1].heading))
    }
}

/// The headings enclosing boundary `i` (outermost first).
pub open spec fn ancestors(b: Seq<BoundView>, i: int) -> Seq<(u8, Seq<char>)> {
    pop_ge(stack_before(b, i), b[i].level)
}

/// Breadcrumb of the enclosing headings, e.g. `Install > macOS`.
pub open spec fn heading_path_spec(b: Seq<BoundView>, i: int) -> Seq<char> {
    join(ancestors(b, i).map_values(|e: (u8, Seq<char>)| e.1), seq![' ', '>', ' '])
}

/// Levels strictly increase from the bottom of a stack to its top.
pub open spec fn strictly_increasing(stack: Seq<(u8, Seq<char>)>) -> bool {
    forall|j: int, k: int| 0 <= j < k < stack.len() ==> stack[j].0 < stack[k].0
}

proof fn lemma_pop_ge(stack: Seq<(u8, Seq<char>)>, level: u8)
    requires
        strictly_increasing(stack),
    ensures
        strictly_increasing(pop_ge(stack, level)),
        forall|j: int|
            0 <= j < pop_ge(stack, level).len() ==> (#[trigger] pop_ge(stack, level)[j]).0
                < level,
        pop_ge(stack, level).len() <= stack.len(),
        forall|j: int|
            0 <= j < pop_ge(stack, level).len() ==> #[trigger] pop_ge(stack, level)[j]
                == stack[j],
    decreases stack.len(),
{
    if stack.len() > 0 && stack.last().0 >= level {
        lemma_pop_ge(stack.drop_last(), level);
    } else if stack.len() > 0 {
        assert forall|j: int| 0 <= j < stack.len() implies (#[trigger] stack[j]).0 < level by {
            if j < stack.len() - 1 {
                assert(stack[j].0 < stack[stack.len() - 1].0);
            }
        }
    }
}

/// The enclosing-heading stack always has strictly increasing levels.
pub proof fn lemma_stack_increasing(b: Seq<BoundView>, i: int)
    ensures
        strictly_increasing(stack_before(b, i)),
    decreases i,
{
    if 0 < i <= b.len() {
        lemma_stack_increasing(b, i - 1);
        lemma_pop_ge(stack_before(b, i - 1), b[i - 1].level);
    }
}

/// The headings enclosing a section are listed outermost first, with
/// strictly increasing levels, all lower than the section's own level.
pub proof fn lemma_ancestors_nest(b: Seq<BoundView>, i: int)
    requires
        0 <= i < b.len(),
    ensures
        strictly_increasing(ancestors(b, i)),
        forall|j: int|
            0 <= j < ancestors(b, i).len() ==> (#[trigger] ancestors(b, i)[j]).0 < b[i].level,
{
    lemma_stack_increasing(b, i);
    lemma_pop_ge(stack_before(b, i), b[i].level);
}

// ---------------------------------------------------------------------------
// Sections
// ---------------------------------------------------------------------------

/// One indexable slice of a document.
#[derive(Debug, Clone, PartialEq, Eq)]
pub struct Section {
    pub id: String,
    /// 0 = synthetic root (pre-first-heading or `.txt` whole-file),
    /// 1..=6 = H1..=H6.
    pub level: u8,
    /// Heading text, or filename stem for the root section.
    pub heading: String,
    /// Breadcrumb of parent headings, e.g. "Install > macOS".
    /// Empty for top-level or root sections.
    pub heading_path: String,
    /// Raw bytes of the section (heading line through end of section).
    pub content: Vec<u8>,
    /// First sentence, ≤25 words, code/HTML stripped.
    pub snippet: String,
    /// Token count of `content`.
    pub tokens: usize,
    /// Token count of fenced code-block content within `content`
    /// (fence markers excluded). Zero when the section has no fences.
    pub code_tokens: usize,
}

/// Mathematical model of a `Section`.
pub struct SectionView {
    pub id: Seq<char>,
    pub level: u8,
    pub heading: Seq<char>,
    pub heading_path: Seq<char>,
    pub content: Seq<u8>,
    pub snippet: Seq<char>,
    pub tokens: nat,
    pub code_tokens: nat,
}

impl View for Section {
    type V = SectionView;

    open spec fn view(&self) -> SectionView {
        SectionView {
            id: self.id@,
            level: self.level,
            heading: self.heading@,
            heading_path: self.heading_path@,
            content: self.content@,
            snippet: self.snippet@,
            tokens: self.tokens as nat,
            code_tokens: self.code_tokens as nat,
        }
    }
}

pub open spec fn section_views(s: Seq<Section>) -> Seq<SectionView> {
    s.map_values(|x: Section| x@)
}

/// The section with the given level, heading, breadcrumb and raw content:
/// its ID is the 6-hex content hash, heading and breadcrumb are trimmed,
/// and snippet and token counts are taken from the content's text.
pub open spec fn section_spec(
    level: u8,
    heading: Seq<char>,
    path: Seq<char>,
    content: Seq<u8>,
) -> SectionView {
    let text = text_of(content);
    SectionView {
        id: hex_prefix_spec(content, 6),
        level,
        heading: trim(heading),
        heading_path: trim(path),
        content,
        snippet: snippet_spec(text),
        tokens: cl100k_encode(text).len(),
        code_tokens: code_tokens_spec(text),
    }
}

/// Builds one section.
pub fn make_section(level: u8, heading: &Vec<char>, heading_path: &Vec<char>, content: Vec<u8>) -> (res: Section)
    ensures
        res@ == section_spec(level, heading@, heading_path@, content@),
        is_hex_id(res.id@, 6),
{
    let text = text_of_bytes(content.as_slice());
    let text_s = string_from_chars(&text);
    let h = trim_chars(heading);
    let p = trim_chars(heading_path);
    let snip = extract_snippet(&text);
    Section {
        id: section_id(content.as_slice()),
        level,
        heading: string_from_chars(&h),
        heading_path: string_from_chars(&p),
        content,
        snippet: string_from_chars(&snip),
        tokens: count(text_s.as_str()),
        code_tokens: count_code_tokens(&text),
    }
}

/// `x` clamped to `len`.
pub open spec fn clamp(x: nat, len: nat) -> nat {
    if x < len {
        x
    } else {
        len
    }
}

/// Where the content before the first heading ends.
pub open spec fn first_start(b: Seq<BoundView>, len: nat) -> nat {
    if b.len() > 0 {
        clamp(b[0].start, len)
    } else {
        len
    }
}

/// Byte range of the section of boundary `i`: from its heading to the next
/// heading or the end of the document (offsets clamped to the document).
pub open spec fn section_lo(b: Seq<BoundView>, i: int, len: nat) -> nat {
    clamp(b[i].start, len)
}

pub open spec fn section_hi(b: Seq<BoundView>, i: int, len: nat) -> nat {
    let next = if i + 1 < b.len() {
        clamp(b[i + 1].start, len)
    } else {
        len
    };
    if next < section_lo(b, i, len) {
        section_lo(b, i, len)
    } else {
        next
    }
}

/// The sections of a markdown document with the given heading boundaries:
/// a root section for any content before the first heading, then one
/// section per heading with its breadcrumb.
pub open spec fn sections_spec(bytes: Seq<u8>, stem: Seq<char>, b: Seq<BoundView>) -> Seq<
    SectionView,
> {
    let len = bytes.len();
    let first = first_start(b, len);
    let root: Seq<SectionView> = if first > 0 {
        seq![section_spec(0, stem, seq![], bytes.take(first as int))]
    } else {
        seq![]
    };
    root + Seq::new(
        b.len(),
        |i: int|
            section_spec(
                b[i].level,
                b[i].heading,
                heading_path_spec(b, i),
                bytes.subrange(section_lo(b, i, len) as int, section_hi(b, i, len) as int),
            ),
    )
}

/// Builds the sections of a markdown document from its heading boundaries.
pub fn build_sections(bytes: &[u8], filename_stem: &str, bounds: &Vec<Bound>) -> (res: Vec<
    Section,
>)
    ensures
        section_views(res@) == sections_spec(bytes@, filename_stem@, bound_views(bounds@)),
        forall|k: int| 0 <= k < res@.len() ==> is_hex_id(#[trigger] res@[k].id@, 6),
{
    let ghost b = bound_views(bounds@);
    let len = bytes.len();
    let mut sections: Vec<Section> = Vec::new();
    let first = if bounds.len() > 0 {
        if bounds[0].start < len {
            bounds[0].start
        } else {
            len
        }
    } else {
        len
    };
    if first > 0 {
        let stem = chars_of(filename_stem);
        let empty: Vec<char> = Vec::new();
        let content = slice_bytes(bytes, 0, first);
        let s = make_section(0, &stem, &empty, content);
        sections.push(s);
        assert(bytes@.subrange(0, first as int) =~= bytes@.take(first as int));
    }
    let ghost root = section_views(sections@);
    let mut stack: Vec<(u8, Vec<char>)> = Vec::new();
    let mut i: usize = 0;
    while i < bounds.len()
        invariant
            i <= bounds.len(),
            len == bytes@.len(),
            b == bound_views(bounds@),
            forall|k: int| 0 <= k < sections@.len() ==> is_hex_id(#[trigger] sections@[k].id@, 6),
            stack@.map_values(|e: (u8, Vec<char>)| (e.0, e.1@)) == stack_before(b, i as int),
            root == (if first_start(b, len as nat) > 0 {
                seq![section_spec(0, filename_stem@, seq![], bytes@.take(first_start(b, len as nat) as int))]
            } else {
                seq![]
            }),
            section_views(sections@) == root + Seq::new(
                i as nat,
                |j: int|
                    section_spec(
                        b[j].level,
                        b[j].heading,
                        heading_path_spec(b, j),
                        bytes@.subrange(section_lo(b, j, len as nat) as int, section_hi(b, j, len as nat) as int),
                    ),
            ),
        decreases bounds.len() - i,
    {
        let ghost sv = stack@.map_values(|e: (u8, Vec<char>)| (e.0, e.1@));
        let level = bounds[i].level;
        assert(b[i as int].level == level);
        while stack.len() > 0 && stack[stack.len() - 1].0 >= level
            invariant
                pop_ge(sv, level) == pop_ge(stack@.map_values(|e: (u8, Vec<char>)| (e.0, e.1@)), level),
            decreases stack.len(),
        {
            let ghost before = stack@.map_values(|e: (u8, Vec<char>)| (e.0, e.1@));
            stack.pop();
            assert(stack@.map_values(|e: (u8, Vec<char>)| (e.0, e.1@)) =~= before.drop_last());
        }
        let ghost popped = stack@.map_values(|e: (u8, Vec<char>)| (e.0, e.1@));
        assert(popped == pop_ge(sv, level));
        let mut heads: Vec<Vec<char>> = Vec::new();
        let mut k: usize = 0;
        while k < stack.len()
            invariant
                k <= stack.len(),
                popped == stack@.map_values(|e: (u8, Vec<char>)| (e.0, e.1@)),
                views(heads@) == popped.take(k as int).map_values(|e: (u8, Seq<char>)| e.1),
            decreases stack.len() - k,
        {
            let ghost hv = views(heads@);
            let h = slice_chars(&stack[k].1, 0, stack[k].1.len());
            assert(h@ =~= stack@[k as int].1@);
            assert(popped[k as int].1 == stack@[k as int].1@);
            heads.push(h);
            k = k + 1;
            assert(views(heads@) =~= hv.push(popped[k - 1].1));
            assert(popped.take(k as int).map_values(|e: (u8, Seq<char>)| e.1) =~= popped.take(
                k - 1,
            ).map_values(|e: (u8, Seq<char>)| e.1).push(popped[k - 1].1));
        }
        let sep = vec![' ', '>', ' '];
        assert(sep@ =~= seq![' ', '>', ' ']);
        let path = join_chars(&heads, heads.len(), &sep);
        assert(views(heads@).take(heads.len() as int) =~= views(heads@));
        assert(popped.take(k as int) =~= popped);
        assert(path@ == heading_path_spec(b, i as int));
        let lo = if bounds[i].start < len {
            bounds[i].start
        } else {
            len
        };
        let next = if i + 1 < bounds.len() {
            if bounds[i + 1].start < len {
                bounds[i + 1].start
            } else {
                len
            }
        } else {
            len
        };
        let hi = if next < lo {
            lo
        } else {
            next
        };
        let content = slice_bytes(bytes, lo, hi);
        let s = make_section(level, &bounds[i].heading, &path, content);
        let ghost before = section_views(sections@);
        let ghost svw = s@;
        sections.push(s);
        let hcopy = slice_chars(&bounds[i].heading, 0, bounds[i].heading.len());
        assert(hcopy@ =~= bounds[i as int].heading@);
        stack.push((level, hcopy));
        i = i + 1;
        proof {
            assert(section_views(sections@) =~= before.push(svw));
            assert(stack@.map_values(|e: (u8, Vec<char>)| (e.0, e.1@)) =~= popped.push(
                (b[i - 1].level, b[i - 1].heading),
            ));
            assert(section_views(sections@) =~= root + Seq::new(
                i as nat,
                |j: int|
                    section_spec(
                        b[j].level,
                        b[j].heading,
                        heading_path_spec(b, j),
                        bytes@.subrange(section_lo(b, j, len as nat) as int, section_hi(b, j, len as nat) as int),
                    ),
            ));
        }
    }
    sections
}

/// Byte sequences laid end to end.
pub open spec fn concat(parts: Seq<Seq<u8>>) -> Seq<u8>
    decreases parts.len(),
{
    if parts.len() == 0 {
        seq![]
    } else {
        concat(parts.drop_last()) + parts.last()
    }
}

/// The bytes of a sequence of sections laid end to end.
pub open spec fn contents(s: Seq<SectionView>) -> Seq<u8> {
    concat(s.map_values(|x: SectionView| x.content))
}

/// Heading offsets that never go backwards, as a markdown parser reports
/// them in source order.
pub open spec fn offsets_in_order(b: Seq<BoundView>) -> bool {
    forall|i: int| 0 <= i < b.len() - 1 ==> #[trigger] b[i].start <= b[i + 1].start
}

/// End of the `k` first heading sections (of the root section when `k` is 0).
spec fn cover_end(b: Seq<BoundView>, k: int, len: nat) -> int {
    if k == 0 {
        first_start(b, len) as int
    } else {
        section_hi(b, k - 1, len) as int
    }
}

/// The content bytes of the sections of `sections_spec`.
spec fn section_bytes(bytes: Seq<u8>, b: Seq<BoundView>, k: nat) -> Seq<Seq<u8>> {
    let len = bytes.len();
    let first = first_start(b, len);
    let root: Seq<Seq<u8>> = if first > 0 {
        seq![bytes.take(first as int)]
    } else {
        seq![]
    };
    root + Seq::new(
        k,
        |i: int| bytes.subrange(section_lo(b, i, len) as int, section_hi(b, i, len) as int),
    )
}

proof fn lemma_concat_prefix(bytes: Seq<u8>, b: Seq<BoundView>, k: int)
    requires
        offsets_in_order(b),
        0 <= k <= b.len(),
    ensures
        concat(section_bytes(bytes, b, k as nat)) == bytes.take(cover_end(b, k, bytes.len())),
    decreases k,
{
    let len = bytes.len();
    let first = first_start(b, len);
    let parts = section_bytes(bytes, b, k as nat);
    if k == 0 {
        if first > 0 {
            assert(parts.drop_last() =~= Seq::<Seq<u8>>::empty());
            assert(concat(parts.drop_last()) == Seq::<u8>::empty());
            assert(concat(parts) =~= bytes.take(first as int));
        } else {
            assert(parts =~= Seq::<Seq<u8>>::empty());
            assert(concat(parts) =~= bytes.take(0));
        }
    } else {
        lemma_concat_prefix(bytes, b, k - 1);
        assert(parts.drop_last() =~= section_bytes(bytes, b, (k - 1) as nat));
        let lo = section_lo(b, k - 1, len);
        let hi = section_hi(b, k - 1, len);
        assert(parts.last() == bytes.subrange(lo as int, hi as int));
        if k - 1 > 0 {
            assert(b[k - 2].start <= b[k - 2 + 1].start);
        }
        assert(cover_end(b, k - 1, len) == lo);
        assert(bytes.take(lo as int) + bytes.subrange(lo as int, hi as int) =~= bytes.take(
            hi as int,
        ));
    }
}

/// Sections cover their document: when heading offsets come in source
/// order, the contents of the sections, laid end to end, are exactly the
/// document's bytes.
pub proof fn lemma_sections_cover(bytes: Seq<u8>, stem: Seq<char>, b: Seq<BoundView>)
    requires
        offsets_in_order(b),
    ensures
        contents(sections_spec(bytes, stem, b)) == bytes,
{
    let len = bytes.len();
    let parts = section_bytes(bytes, b, b.len());
    assert(sections_spec(bytes, stem, b).map_values(|x: SectionView| x.content) =~= parts);
    lemma_concat_prefix(bytes, b, b.len() as int);
    if b.len() > 0 {
        assert(section_hi(b, b.len() - 1, len) == len);
    }
    assert(bytes.take(len as int) =~= bytes);
}

/// A plain-text document is one section holding all of its bytes.
pub proof fn lemma_plain_text_single_section(bytes: Seq<u8>, stem: Seq<char>)
    ensures
        parse_spec(bytes, stem, false).len() == 1,
        parse_spec(bytes, stem, false)[0].level == 0,
        contents(parse_spec(bytes, stem, false)) == bytes,
{
    let parts = parse_spec(bytes, stem, false).map_values(|x: SectionView| x.content);
    assert(parts =~= seq![bytes]);
    assert(parts.drop_last() =~= Seq::<Seq<u8>>::empty());
    assert(concat(parts.drop_last()) == Seq::<u8>::empty());
    assert(concat(parts) =~= bytes);
}

/// The sections of a document: one root section holding everything for
/// plain text; for markdown, the sections of `sections_spec` over the
/// headings found by the markdown parser, or none when the bytes are not
/// UTF-8.
pub open spec fn parse_spec(bytes: Seq<u8>, stem: Seq<char>, is_markdown: bool) -> Seq<
    SectionView,
> {
    if !is_markdown {
        seq![section_spec(0, stem, seq![], bytes)]
    } else if !valid_utf8(bytes) {
        seq![]
    } else {
        sections_spec(bytes, stem, heading_bounds_spec(markdown_events(decode_utf8(bytes))))
    }
}

/// Parse a document's bytes into a flat list of sections, in source order.
///
/// `filename_stem` is used as the heading for synthetic root sections
/// (pre-first-heading markdown, or entire `.txt` files).
/// `is_markdown` selects the parser; `false` treats the entire input as
/// one root section.
pub fn parse(bytes: &[u8], filename_stem: &str, is_markdown: bool) -> (res: Vec<Section>)
    ensures
        section_views(res@) == parse_spec(bytes@, filename_stem@, is_markdown),
        forall|k: int| 0 <= k < res@.len() ==> is_hex_id(#[trigger] res@[k].id@, 6),
        forall|k: int|
            0 <= k < res@.len() ==> #[trigger] res@[k].level <= 6 && (k > 0 ==> res@[k].level >= 1),
        !is_markdown || valid_utf8(bytes@) ==> contents(section_views(res@)) == bytes@,
        forall|k: int|
            0 <= k < res@.len() && #[trigger] res@[k].level == 0 ==> k == 0 && res@[k].heading@
                == trim(filename_stem@) && res@[k].heading_path@ == Seq::<char>::empty(),
{
    proof {
        lemma_trim_empty();
    }
    if !is_markdown {
        let stem = chars_of(filename_stem);
        let empty: Vec<char> = Vec::new();
        let content = slice_bytes(bytes, 0, bytes.len());
        assert(content@ =~= bytes@);
        let s = make_section(0, &stem, &empty, content);
        let mut v: Vec<Section> = Vec::new();
        v.push(s);
        assert(section_views(v@) =~= parse_spec(bytes@, filename_stem@, is_markdown));
        proof {
            lemma_plain_text_single_section(bytes@, filename_stem@);
        }
        return v;
    }
    let text = match utf8_str(bytes) {
        Some(t) => t,
        None => {
            let v: Vec<Section> = Vec::new();
            assert(section_views(v@) =~= parse_spec(bytes@, filename_stem@, is_markdown));
            return v;
        },
    };
    let events = markdown_event_stream(text);
    let bounds = heading_bounds(&events);
    assert(events@.map_values(|e: MdEvent| e@) =~= markdown_events(text@));
    let res = build_sections(bytes, filename_stem, &bounds);
    proof {
        let ev = events@.map_values(|e: MdEvent| e@);
        let b = bound_views(bounds@);
        lemma_heading_bounds_ordered(ev);
        lemma_sections_cover(bytes@, filename_stem@, b);
        let sv = section_views(res@);
        let first = first_start(b, bytes@.len());
        let r: int = if first > 0 { 1 } else { 0 };
        assert forall|k: int|
            0 <= k < res@.len() implies #[trigger] res@[k].level <= 6 && (k > 0 ==> res@[k].level
            >= 1) by {
            assert(sv[k] == res@[k]@);
            if k >= r {
                assert(sv[k].level == b[k - r].level);
            }
        }
        assert forall|k: int|
            0 <= k < res@.len() && #[trigger] res@[k].level == 0 implies k == 0
                && res@[k].heading@ == trim(filename_stem@) && res@[k].heading_path@
                == Seq::<char>::empty() by {
            assert(sv[k] == res@[k]@);
            if k >= r {
                assert(sv[k].level == b[k - r].level);
            }
        }
    }
    res
}

proof fn lemma_trim_empty()
    ensures
        trim(Seq::<char>::empty()) == Seq::<char>::empty(),
{
    let e = Seq::<char>::empty();
    assert(trim_start(e).len() == 0);
    assert(trim_end(trim_start(e)).len() == 0);
    assert(trim(e) =~= e);
}

} // verus!
