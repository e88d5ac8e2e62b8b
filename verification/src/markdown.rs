//! Splitting a Markdown document into sections: the text under each
//! heading, labelled with the path of headings above it.

use vstd::prelude::*;
use pulldown_cmark::{Event, Tag, TagEnd};
use crate::text::{
    chars_of, is_trimmed, join, join_chars, lemma_trimmed_is_trimmed, push_str, string_from_chars,
    trim_chars, trimmed,
};

verus! {

/// The parser events that sectioning looks at.
#[derive(Debug)]
pub enum MarkdownEvent {
    /// A heading opens; its level, 1 to 6.
    HeadingStart(u8),
    /// A heading closes.
    HeadingEnd,
    /// A text node.
    Text(String),
    /// An inline code node.
    Code(String),
    /// A soft line break.
    SoftBreak,
    /// A hard line break.
    HardBreak,
    /// Any other event.
    Other,
}

/// The plain value of a parser event.
pub enum EventView {
    HeadingStart(u8),
    HeadingEnd,
    Text(Seq<char>),
    Code(Seq<char>),
    SoftBreak,
    HardBreak,
    Other,
}

impl View for MarkdownEvent {
    type V = EventView;

    open spec fn view(&self) -> EventView {
        match self {
            MarkdownEvent::HeadingStart(l) => EventView::HeadingStart(*l),
            MarkdownEvent::HeadingEnd => EventView::HeadingEnd,
            MarkdownEvent::Text(t) => EventView::Text(t@),
            MarkdownEvent::Code(t) => EventView::Code(t@),
            MarkdownEvent::SoftBreak => EventView::SoftBreak,
            MarkdownEvent::HardBreak => EventView::HardBreak,
            MarkdownEvent::Other => EventView::Other,
        }
    }
}

/// The plain values of a list of events.
pub open spec fn event_views(v: Seq<MarkdownEvent>) -> Seq<EventView> {
    v.map_values(|e: MarkdownEvent| e@)
}

/// What `pulldown_cmark::Parser` with all options yields for `text`, reduced
/// to the events that sectioning looks at.
pub uninterp spec fn markdown_events(text: Seq<char>) -> Seq<EventView>;

/// Every heading level in the events is between 1 and 6.
pub open spec fn levels_valid(evs: Seq<EventView>) -> bool {
    forall|i: int|
        0 <= i < evs.len() ==> (#[trigger] evs[i] matches EventView::HeadingStart(l) ==> 1 <= l
            <= 6)
}

/// Parses Markdown with `pulldown_cmark::Parser::new_ext` and all options.
/// The contract claims that the events are what the parser yields for the
/// text, and that heading levels are 1 to 6 (`HeadingLevel`'s discriminants).
#[verifier::external_body]
fn parse_markdown(markdown: &str) -> (events: Vec<MarkdownEvent>)
    ensures
        event_views(events@) == markdown_events(markdown@),
        levels_valid(event_views(events@)),
{
    pulldown_cmark::Parser::new_ext(markdown, pulldown_cmark::Options::all()).map(|e| match e {
        Event::Start(Tag::Heading { level, .. }) => MarkdownEvent::HeadingStart(level as u8),
        Event::End(TagEnd::Heading(_)) => MarkdownEvent::HeadingEnd,
        Event::Text(t) => MarkdownEvent::Text(t.to_string()),
        Event::Code(t) => MarkdownEvent::Code(t.to_string()),
        Event::SoftBreak => MarkdownEvent::SoftBreak,
        Event::HardBreak => MarkdownEvent::HardBreak,
        _ => MarkdownEvent::Other,
    }).collect()
}


/// A section of a document: the heading path above it and its text.
#[derive(Debug)]
pub struct Section {
    pub section_path: String,
    pub content: String,
}

/// The plain value of a section.
pub struct SectionView {
    pub section_path: Seq<char>,
    pub content: Seq<char>,
}

impl View for Section {
    type V = SectionView;

    open spec fn view(&self) -> SectionView {
        SectionView { section_path: self.section_path@, content: self.content@ }
    }
}

/// The plain values of a list of sections.
pub open spec fn section_views(v: Seq<Section>) -> Seq<SectionView> {
    v.map_values(|s: Section| s@)
}

/// The separator between headings in a section path: `" > "`.
pub open spec fn path_sep() -> Seq<char> {
    " > "@
}

/// The section path of text before any heading.
pub open spec fn document_path() -> Seq<char> {
    "Document"@
}

/// Where the scan of a document stands between two events.
pub struct ScanState {
    /// Sections finished so far.
    pub sections: Seq<SectionView>,
    /// Texts of the open headings, outermost first.
    pub stack: Seq<Seq<char>>,
    /// Text gathered since the last section was finished.
    pub content: Seq<char>,
    /// Path of the section being gathered.
    pub heading: Seq<char>,
    /// Inside a heading.
    pub in_heading: bool,
    /// Level of the last heading opened.
    pub level: u8,
    /// Text of the heading being read.
    pub buf: Seq<char>,
}

/// The state before the first event.
pub open spec fn initial_scan() -> ScanState {
    ScanState {
        sections: Seq::empty(),
        stack: Seq::empty(),
        content: Seq::empty(),
        heading: document_path(),
        in_heading: false,
        level: 1,
        buf: Seq::empty(),
    }
}

/// The finished sections, with the gathered text added as one more section
/// when it is not blank.
pub open spec fn close_section(st: ScanState) -> Seq<SectionView> {
    if trimmed(st.content).len() > 0 {
        st.sections.push(SectionView { section_path: st.heading, content: trimmed(st.content) })
    } else {
        st.sections
    }
}

/// The heading stack once a heading of level `level` opens: headings at
/// that level or deeper are closed.
pub open spec fn pop_to(stack: Seq<Seq<char>>, level: int) -> Seq<Seq<char>> {
    if stack.len() >= level {
        stack.take(level - 1)
    } else {
        stack
    }
}

/// One step of the scan.
pub open spec fn scan_step(st: ScanState, ev: EventView) -> ScanState {
    match ev {
        EventView::HeadingStart(l) => ScanState {
            sections: close_section(st),
            content: if trimmed(st.content).len() > 0 {
                Seq::empty()
            } else {
                st.content
            },
            in_heading: true,
            level: l,
            buf: Seq::empty(),
            ..st
        },
        EventView::HeadingEnd => {
            let t = trimmed(st.buf);
            if t.len() > 0 {
                let stack = pop_to(st.stack, st.level as int).push(t);
                ScanState {
                    stack: stack,
                    heading: join(stack, path_sep()),
                    in_heading: false,
                    buf: Seq::empty(),
                    ..st
                }
            } else {
                ScanState { in_heading: false, buf: Seq::empty(), ..st }
            }
        },
        EventView::Text(x) => if st.in_heading {
            ScanState { buf: st.buf + x, ..st }
        } else {
            ScanState { content: st.content + x, ..st }
        },
        EventView::Code(x) => if st.in_heading {
            ScanState { buf: st.buf + x, ..st }
        } else {
            ScanState { content: st.content + x, ..st }
        },
        EventView::SoftBreak | EventView::HardBreak => if st.in_heading {
            ScanState { buf: st.buf.push(' '), ..st }
        } else {
            ScanState { content: st.content.push('\n'), ..st }
        },
        EventView::Other => st,
    }
}

/// The state after all the events.
pub open spec fn scan(evs: Seq<EventView>) -> ScanState
    decreases evs.len(),
{
    if evs.len() == 0 {
        initial_scan()
    } else {
        scan_step(scan(evs.drop_last()), evs.last())
    }
}

/// The sections of a document, given its parser events.
pub open spec fn sections_of(evs: Seq<EventView>) -> Seq<SectionView> {
    close_section(scan(evs))
}

/// Builds the sections of a document from its parser events: text is
/// gathered under the path of the open headings (`"Document"` before the
/// first one), and each non-blank stretch becomes a trimmed section.
pub fn sections_from_events(events: &Vec<MarkdownEvent>) -> (sections: Vec<Section>)
    requires
        levels_valid(event_views(events@)),
    ensures
        section_views(sections@) == sections_of(event_views(events@)),
{
    let ghost evs = event_views(events@);
    let mut sections: Vec<Section> = Vec::new();
    let mut stack: Vec<Vec<char>> = Vec::new();
    let mut content: Vec<char> = Vec::new();
    let mut heading: Vec<char> = chars_of("Document");
    let mut in_heading = false;
    let mut level: u8 = 1;
    let mut buf: Vec<char> = Vec::new();
    let sep = chars_of(" > ");
    let n = events.len();
    let mut i: usize = 0;
    proof {
        assert(evs.take(0) =~= Seq::<EventView>::empty());
        assert(section_views(sections@) =~= Seq::<SectionView>::empty());
        assert(stack@.map_values(|v: Vec<char>| v@) =~= Seq::<Seq<char>>::empty());
    }
    while i < n
        invariant
            i <= n,
            n == events@.len(),
            evs == event_views(events@),
            levels_valid(evs),
            sep@ == path_sep(),
            1 <= level <= 6,
            scan(evs.take(i as int)) == (ScanState {
                sections: section_views(sections@),
                stack: stack@.map_values(|v: Vec<char>| v@),
                content: content@,
                heading: heading@,
                in_heading: in_heading,
                level: level,
                buf: buf@,
            }),
        decreases n - i,
    {
        let ghost before = scan(evs.take(i as int));
        proof {
            assert(evs.take(i + 1).drop_last() =~= evs.take(i as int));
            assert(evs.take(i + 1).last() == evs[i as int]);
            assert(evs[i as int] == events@[i as int]@);
        }
        match &events[i] {
            MarkdownEvent::HeadingStart(l) => {
                let t = trim_chars(content.as_slice());
                if t.len() > 0 {
                    let ghost old_sections = section_views(sections@);
                    let sec = Section {
                        section_path: string_from_chars(heading.as_slice()),
                        content: string_from_chars(t.as_slice()),
                    };
                    sections.push(sec);
                    content = Vec::new();
                    proof {
                        assert(section_views(sections@) =~= old_sections.push(
                            SectionView { section_path: heading@, content: t@ },
                        ));
                    }
                }
                in_heading = true;
                level = *l;
                buf = Vec::new();
            },
            MarkdownEvent::HeadingEnd => {
                let t = trim_chars(buf.as_slice());
                if t.len() > 0 {
                    let ghost old_stack = stack@.map_values(|v: Vec<char>| v@);
                    let lvl = level as usize;
                    while stack.len() >= lvl
                        invariant
                            1 <= lvl <= 6,
                            old_stack.len() >= stack@.len(),
                            stack@.map_values(|v: Vec<char>| v@) == old_stack.take(
                                stack@.len() as int,
                            ),
                            old_stack.len() < lvl ==> stack@.len() == old_stack.len(),
                            old_stack.len() >= lvl ==> stack@.len() >= lvl - 1,
                        decreases stack@.len(),
                    {
                        let ghost pre = stack@;
                        let _ = stack.pop();
                        proof {
                            assert(stack@ == pre.drop_last());
                            assert(stack@.map_values(|v: Vec<char>| v@) =~= old_stack.take(
                                stack@.len() as int,
                            ));
                        }
                    }
                    proof {
                        if old_stack.len() < lvl {
                            assert(old_stack.take(old_stack.len() as int) =~= old_stack);
                        }
                        assert(stack@.map_values(|v: Vec<char>| v@) == pop_to(old_stack, lvl as int));
                    }
                    let ghost popped = stack@.map_values(|v: Vec<char>| v@);
                    stack.push(t);
                    proof {
                        assert(stack@.map_values(|v: Vec<char>| v@) =~= popped.push(trimmed(buf@)));
                    }
                    heading = join_chars(&stack, sep.as_slice());
                }
                in_heading = false;
                buf = Vec::new();
            },
            MarkdownEvent::Text(x) | MarkdownEvent::Code(x) => {
                if in_heading {
                    push_str(&mut buf, x.as_str());
                } else {
                    push_str(&mut content, x.as_str());
                }
            },
            MarkdownEvent::SoftBreak | MarkdownEvent::HardBreak => {
                if in_heading {
                    buf.push(' ');
                } else {
                    content.push('\n');
                }
            },
            MarkdownEvent::Other => {},
        }
        proof {
            assert(scan(evs.take(i + 1)) == scan_step(before, evs[i as int]));
        }
        i = i + 1;
    }
    proof {
        assert(evs.take(n as int) =~= evs);
    }
    let t = trim_chars(content.as_slice());
    if t.len() > 0 {
        let ghost old_sections = section_views(sections@);
        sections.push(
            Section {
                section_path: string_from_chars(heading.as_slice()),
                content: string_from_chars(t.as_slice()),
            },
        );
        proof {
            assert(section_views(sections@) =~= old_sections.push(
                SectionView { section_path: heading@, content: t@ },
            ));
        }
    }
    sections
}

/// Splits a Markdown document into sections (see `sections_from_events`).
pub fn extract_sections(markdown: &str) -> (sections: Vec<Section>)
    ensures
        section_views(sections@) == sections_of(markdown_events(markdown@)),
        levels_valid(markdown_events(markdown@)),
        forall|i: int| 0 <= i < sections@.len() ==> valid_section(#[trigger] section_views(sections@)[i]),
{
    let events = parse_markdown(markdown);
    proof {
        law_sections_valid(event_views(events@));
    }
    sections_from_events(&events)
}


/// A heading stack of one to six non-empty headings with no whitespace at
/// either end.
pub open spec fn valid_stack(hs: Seq<Seq<char>>) -> bool {
    &&& 1 <= hs.len() <= 6
    &&& forall|i: int| 0 <= i < hs.len() ==> #[trigger] hs[i].len() > 0 && is_trimmed(hs[i])
}

/// A section path as sectioning makes it: `"Document"`, or one to six
/// trimmed non-empty headings joined by `" > "`.
pub open spec fn valid_path(p: Seq<char>) -> bool {
    p == document_path() || exists|hs: Seq<Seq<char>>| valid_stack(hs) && p == join(hs, path_sep())
}

/// A section as sectioning makes it: non-empty trimmed text under a valid path.
pub open spec fn valid_section(s: SectionView) -> bool {
    &&& s.content.len() > 0
    &&& is_trimmed(s.content)
    &&& valid_path(s.section_path)
}

/// The invariant of the scan.
pub open spec fn scan_inv(st: ScanState) -> bool {
    &&& forall|i: int| 0 <= i < st.sections.len() ==> valid_section(#[trigger] st.sections[i])
    &&& (st.stack.len() == 0 && st.heading == document_path()) || (valid_stack(st.stack)
        && st.heading == join(st.stack, path_sep()))
    &&& 1 <= st.level <= 6
}

proof fn lemma_close_section(st: ScanState)
    requires
        scan_inv(st),
    ensures
        forall|i: int|
            0 <= i < close_section(st).len() ==> valid_section(#[trigger] close_section(st)[i]),
{
    lemma_trimmed_is_trimmed(st.content);
    let t = trimmed(st.content);
    if t.len() > 0 {
        let sec = SectionView { section_path: st.heading, content: t };
        if st.stack.len() != 0 {
            assert(valid_stack(st.stack) && st.heading == join(st.stack, path_sep()));
        }
        assert(valid_path(st.heading));
        assert forall|i: int| 0 <= i < close_section(st).len() implies valid_section(
            #[trigger] close_section(st)[i],
        ) by {
            if i < st.sections.len() {
                assert(close_section(st)[i] == st.sections[i]);
            }
        }
    }
}

proof fn lemma_scan_inv(evs: Seq<EventView>)
    requires
        levels_valid(evs),
    ensures
        scan_inv(scan(evs)),
    decreases evs.len(),
{
    if evs.len() > 0 {
        let rest = evs.drop_last();
        assert forall|i: int| 0 <= i < rest.len() implies (#[trigger] rest[i] matches EventView::HeadingStart(l) ==> 1 <= l <= 6) by {
            assert(rest[i] == evs[i]);
        }
        lemma_scan_inv(rest);
        let st = scan(rest);
        let ev = evs.last();
        assert(evs[evs.len() - 1] == ev);
        match ev {
            EventView::HeadingStart(l) => {
                lemma_close_section(st);
            },
            EventView::HeadingEnd => {
                let t = trimmed(st.buf);
                lemma_trimmed_is_trimmed(st.buf);
                if t.len() > 0 {
                    let p = pop_to(st.stack, st.level as int);
                    let hs = p.push(t);
                    assert forall|i: int| 0 <= i < hs.len() implies #[trigger] hs[i].len() > 0
                        && is_trimmed(hs[i]) by {
                        if i < p.len() {
                            assert(hs[i] == st.stack[i]);
                        }
                    }
                }
            },
            _ => {},
        }
    }
}

/// Law: every section of a document holds non-empty text with no
/// whitespace at either end, under the path `"Document"` or a path of one to
/// six headings joined by `" > "`.
pub proof fn law_sections_valid(evs: Seq<EventView>)
    requires
        levels_valid(evs),
    ensures
        forall|i: int| 0 <= i < sections_of(evs).len() ==> valid_section(#[trigger] sections_of(evs)[i]),
{
    lemma_scan_inv(evs);
    lemma_close_section(scan(evs));
}

/// Law: when a heading with non-blank text closes, every open heading at
/// its level or deeper is closed first: the stack becomes its first
/// `min(len, level - 1)` headings followed by the new one. So a stack never
/// holds more headings than the level of its last heading, and text under a
/// level-1 heading has that heading alone as its path.
pub proof fn law_heading_closes(evs: Seq<EventView>, k: int)
    requires
        levels_valid(evs),
        0 <= k < evs.len(),
        evs[k] matches EventView::HeadingEnd,
        trimmed(scan(evs.take(k)).buf).len() > 0,
    ensures
        ({
            let before = scan(evs.take(k));
            let after = scan(evs.take(k + 1));
            let level = before.level as int;
            let kept = if before.stack.len() < level { before.stack.len() as int } else { level - 1 };
            &&& after.stack == before.stack.take(kept).push(trimmed(before.buf))
            &&& after.stack.len() <= level
            &&& level == 1 ==> after.heading == trimmed(before.buf)
        }),
{
    let pre = evs.take(k);
    assert(evs.take(k + 1).drop_last() =~= pre);
    assert(evs.take(k + 1).last() == evs[k]);
    assert forall|i: int| 0 <= i < pre.len() implies (#[trigger] pre[i] matches EventView::HeadingStart(l) ==> 1 <= l <= 6) by {
        assert(pre[i] == evs[i]);
    }
    lemma_scan_inv(pre);
    let before = scan(pre);
    let after = scan(evs.take(k + 1));
    let level = before.level as int;
    if before.stack.len() < level {
        assert(before.stack.take(before.stack.len() as int) =~= before.stack);
    }
    if level == 1 {
        assert(after.stack =~= seq![trimmed(before.buf)]);
        assert(after.stack.drop_last().len() == 0);
    }
}

} // verus!
