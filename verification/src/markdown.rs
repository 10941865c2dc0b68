//! The page source shown as-is: source lines wrapped at the pane width, with the `#` headings
//! collected for the outline.

use pulldown_cmark::{CodeBlockKind, Event, LinkType, Options, Parser, Tag, TagEnd};
use vstd::prelude::*;

use crate::editor::{cw, lead_hashes, char_cols};
use crate::text::{
    chars_of, lines_of, push_all, push_str, slice, split_lines, starts_with, string_of, trim, trim_all,
    trim_start, views,
};
use crate::wiki::{strip_end_char, LinkTarget, Target};

verus! {

broadcast use vstd::string::group_string_axioms;

/// A heading of the page, for the table of contents.
pub struct Heading {
    /// 1 for `#`, 2 for `##`, and so on.
    pub level: u8,
    pub text: String,
    /// Line the heading starts on.
    pub line: usize,
}

/// Level and text of a `# Heading` source line: one to six `#`, a space, and some text; the
/// text trimmed, closing `#`s removed.
pub open spec fn heading_of(line: Seq<char>) -> Option<(int, Seq<char>)> {
    let h = lead_hashes(line);
    let rest = line.skip(h);
    if 1 <= h <= 6 && rest.len() > 0 && rest[0] == ' ' {
        let t = trim(strip_end_char(trim(rest.drop_first()), '#'));
        if t.len() > 0 {
            Some((h, t))
        } else {
            None
        }
    } else {
        None
    }
}

/// Level and text of a `# Heading` source line, if it is one.
pub fn source_heading(line: &str) -> (r: Option<(u8, String)>)
    ensures
        match r {
            Some((level, text)) => heading_of(line@) == Some((level as int, text@)),
            None => heading_of(line@) is None,
        },
{
    let cs = chars_of(line);
    let mut h: usize = 0;
    assert(cs@.skip(0) =~= cs@);
    while h < cs.len() && cs[h] == '#'
        invariant
            0 <= h <= cs.len(),
            lead_hashes(cs@) == h + lead_hashes(cs@.skip(h as int)),
        decreases cs.len() - h,
    {
        assert(cs@.skip(h as int).drop_first() =~= cs@.skip(h + 1));
        h = h + 1;
    }
    proof {
        if h < cs.len() {
            assert(cs@.skip(h as int)[0] != '#');
        }
    }
    assert(lead_hashes(cs@) == h);
    if h < 1 || h > 6 || h >= cs.len() || cs[h] != ' ' {
        return None;
    }
    let body = crate::text::trimmed(&cs, h + 1, cs.len());
    assert(cs@.subrange(h + 1, cs.len() as int) =~= cs@.skip(h as int).drop_first());
    let stripped = crate::wiki::strip_end_char_exec(&body, '#');
    let t = trim_all(&stripped);
    if t.len() == 0 {
        return None;
    }
    Some((h as u8, string_of(&t)))
}


/// The text with each tab as four spaces.
pub open spec fn tabs_expanded(s: Seq<char>) -> Seq<char>
    decreases s.len(),
{
    if s.len() == 0 {
        seq![]
    } else {
        (if s[0] == '\t' {
            seq![' ', ' ', ' ', ' ']
        } else {
            seq![s[0]]
        }) + tabs_expanded(s.drop_first())
    }
}

/// The screen lines of characters `i..` of `cs`, the current one holding `cur` (`used`
/// columns): a character that does not fit starts a new line.
pub open spec fn wrap_from(cs: Seq<char>, width: int, i: int, cur: Seq<char>, used: int) -> Seq<Seq<char>>
    decreases cs.len() - i,
{
    if i < 0 || i >= cs.len() {
        seq![cur]
    } else if used + cw(cs[i]) > width {
        seq![cur] + wrap_from(cs, width, i + 1, seq![cs[i]], cw(cs[i]))
    } else {
        wrap_from(cs, width, i + 1, cur.push(cs[i]), used + cw(cs[i]))
    }
}

/// The raw view so far: its lines, the headings found (level, text, line) and whether a
/// fenced block is open.
pub struct RawState {
    pub lines: Seq<Seq<char>>,
    pub headings: Seq<(int, Seq<char>, int)>,
    pub in_fence: bool,
}

pub open spec fn raw_step(st: RawState, source: Seq<char>, width: int) -> RawState {
    let t = trim_start(source);
    let fence = starts_with(t, "```"@) || starts_with(t, "~~~"@);
    let headings = if !fence && !st.in_fence && heading_of(t) is Some {
        st.headings.push((heading_of(t)->Some_0.0, heading_of(t)->Some_0.1, st.lines.len() as int))
    } else {
        st.headings
    };
    RawState {
        lines: st.lines + wrap_from(tabs_expanded(source), width, 0, seq![], 0),
        headings,
        in_fence: if fence {
            !st.in_fence
        } else {
            st.in_fence
        },
    }
}

pub open spec fn raw_upto(sources: Seq<Seq<char>>, width: int, k: int) -> RawState
    decreases k,
{
    if k <= 0 || k > sources.len() {
        RawState { lines: seq![], headings: seq![], in_fence: false }
    } else {
        raw_step(raw_upto(sources, width, k - 1), sources[k - 1], width)
    }
}

/// The page source as screen lines at `width` columns (at least ten).
pub open spec fn raw_view(text: Seq<char>, width: int) -> RawState {
    let ls = lines_of(text);
    raw_upto(ls, if width < 10 { 10 } else { width }, ls.len() as int)
}

pub open spec fn heading_view(h: Heading) -> (int, Seq<char>, int) {
    (h.level as int, h.text@, h.line as int)
}

pub open spec fn tab_piece(c: char) -> Seq<char> {
    if c == '\t' {
        seq![' ', ' ', ' ', ' ']
    } else {
        seq![c]
    }
}

proof fn lemma_tabs_push(s: Seq<char>, c: char)
    ensures
        tabs_expanded(s.push(c)) == tabs_expanded(s) + tab_piece(c),
    decreases s.len(),
{
    if s.len() == 0 {
        assert(s.push(c).drop_first() =~= Seq::<char>::empty());
        assert(s.push(c)[0] == c);
        assert(tabs_expanded(Seq::<char>::empty()) == Seq::<char>::empty());
        assert(tabs_expanded(s.push(c)) == tab_piece(c) + tabs_expanded(s.push(c).drop_first()));
        assert(tabs_expanded(s.push(c)) =~= tab_piece(c));
        assert(tabs_expanded(s) + tab_piece(c) =~= tab_piece(c));
    } else {
        lemma_tabs_push(s.drop_first(), c);
        assert(s.push(c).drop_first() =~= s.drop_first().push(c));
        assert(s.push(c)[0] == s[0]);
        assert(tabs_expanded(s.push(c)) == tab_piece(s[0]) + tabs_expanded(s.drop_first().push(c)));
        assert(tabs_expanded(s) == tab_piece(s[0]) + tabs_expanded(s.drop_first()));
        assert(tabs_expanded(s.push(c)) =~= tabs_expanded(s) + tab_piece(c));
    }
}

fn expand_tabs(s: &Vec<char>) -> (r: Vec<char>)
    ensures
        r@ == tabs_expanded(s@),
{
    let mut out: Vec<char> = Vec::new();
    let mut i: usize = 0;
    while i < s.len()
        invariant
            0 <= i <= s.len(),
            out@ == tabs_expanded(s@.take(i as int)),
        decreases s.len() - i,
    {
        let c = s[i];
        if c == '\t' {
            out.push(' ');
            out.push(' ');
            out.push(' ');
            out.push(' ');
        } else {
            out.push(c);
        }
        proof {
            lemma_tabs_push(s@.take(i as int), c);
            assert(s@.take(i + 1) =~= s@.take(i as int).push(c));
        }
        i = i + 1;
    }
    assert(s@.take(s.len() as int) =~= s@);
    out
}

/// Wraps `cs` at `width` columns, appending the screen lines to `out`.
fn wrap_into(out: &mut Vec<String>, cs: &Vec<char>, width: usize)
    requires
        width <= 0x10000,
    ensures
        strs(final(out)@) == strs(old(out)@) + wrap_from(cs@, width as int, 0, seq![], 0),
{
    let mut cur: Vec<char> = Vec::new();
    let mut used: usize = 0;
    let mut i: usize = 0;
    let ghost start = strs(out@);
    while i < cs.len()
        invariant
            0 <= i <= cs.len(),
            width <= 0x10000,
            used <= width + 3,
            start + wrap_from(cs@, width as int, 0, seq![], 0) == strs(out@) + wrap_from(cs@, width as int, i as int, cur@, used as int),
        decreases cs.len() - i,
    {
        let w = char_cols(cs[i]);
        let ghost before = strs(out@);
        if used + w > width {
            let line = string_of(&cur);
            out.push(line);
            assert(strs(out@) =~= before.push(cur@));
            cur = Vec::new();
            used = 0;
            assert(seq![cur@.push(cs@[i as int])] == seq![seq![cs@[i as int]]]) by {
                assert(cur@.push(cs@[i as int]) =~= seq![cs@[i as int]]);
            }
        }
        cur.push(cs[i]);
        used = used + w;
        i = i + 1;
    }
    let ghost before = strs(out@);
    out.push(string_of(&cur));
    assert(strs(out@) =~= before.push(cur@));
}

pub open spec fn strs(v: Seq<String>) -> Seq<Seq<char>> {
    v.map_values(|s: String| s@)
}

pub open spec fn headings_view(v: Seq<Heading>) -> Seq<(int, Seq<char>, int)> {
    v.map_values(|h: Heading| heading_view(h))
}

/// The Markdown source as-is, one text line per line, long lines wrapped at `width`
/// columns. `#` heading lines (outside fenced code blocks) still feed the outline.
pub fn render_raw(text: &str, width: u16) -> (r: Rendered)
    ensures
        lines_view(r.lines@) == raw_lines(raw_view(text@, width as int).lines),
        headings_view(r.headings@) == raw_view(text@, width as int).headings,
        r.links@.len() == 0,
        r.images@.len() == 0,
        r.items@.len() == 0,
        r.tasks@.len() == 0,
{
    let width: usize = if width < 10 {
        10
    } else {
        width as usize
    };
    let src = chars_of(text);
    let sources = split_lines(&src);
    let ghost ls = views(sources@);
    let mut lines: Vec<String> = Vec::new();
    let mut headings: Vec<Heading> = Vec::new();
    let mut in_fence = false;
    let ticks = chars_of("```");
    let tildes = chars_of("~~~");
    let mut k: usize = 0;
    assert(strs(lines@) =~= Seq::<Seq<char>>::empty());
    assert(headings_view(headings@) =~= Seq::<(int, Seq<char>, int)>::empty());
    while k < sources.len()
        invariant
            ls == views(sources@),
            ls == lines_of(text@),
            width <= 0x10000,
            ticks@ == "```"@,
            tildes@ == "~~~"@,
            width >= 10,
            0 <= k <= sources.len(),
            raw_upto(ls, width as int, k as int) == (RawState { lines: strs(lines@), headings: headings_view(headings@), in_fence }),
        decreases sources.len() - k,
    {
        let source = &sources[k];
        assert(ls[k as int] == source@);
        let i = crate::text::skip_ws(source, 0, source.len());
        let t = slice(source, i, source.len());
        assert(source@.subrange(0, source.len() as int) =~= source@);
        let fence = crate::text::has_prefix(&t, &ticks) || crate::text::has_prefix(&t, &tildes);
        if fence {
            in_fence = !in_fence;
        } else if !in_fence {
            let ts = string_of(&t);
            match source_heading(ts.as_str()) {
                Some((level, h)) => {
                    let ghost before = headings_view(headings@);
                    let hd = Heading { level, text: h, line: lines.len() };
                    headings.push(hd);
                    assert(headings_view(headings@) =~= before.push(heading_view(hd)));
                },
                None => {},
            }
        }
        let expanded = expand_tabs(source);
        wrap_into(&mut lines, &expanded, width);
        k = k + 1;
    }
    let mut out: Vec<Line> = Vec::new();
    let mut i: usize = 0;
    while i < lines.len()
        invariant
            0 <= i <= lines.len(),
            lines_view(out@) == raw_lines(strs(lines@).take(i as int)),
        decreases lines.len() - i,
    {
        let mut spans: Vec<Span> = Vec::new();
        if chars_of(lines[i].as_str()).len() > 0 {
            spans.push(Span { text: lines[i].clone(), style: Style::plain() });
        }
        let l = Line { spans };
        let ghost before = lines_view(out@);
        out.push(l);
        proof {
            assert(line_view(l) =~= raw_line(lines@[i as int]@));
            assert(lines_view(out@) =~= before.push(line_view(l)));
            assert(strs(lines@).take(i + 1) =~= strs(lines@).take(i as int).push(lines@[i as int]@));
            assert(raw_lines(strs(lines@).take(i + 1)) =~= raw_lines(strs(lines@).take(i as int)).push(raw_line(lines@[i as int]@)));
        }
        i = i + 1;
    }
    assert(strs(lines@).take(lines.len() as int) =~= strs(lines@));
    Rendered { lines: out, links: Vec::new(), images: Vec::new(), items: Vec::new(), headings, tasks: Vec::new() }
}

/// A source line as a screen line: one plain span, none when empty.
pub open spec fn raw_line(t: Seq<char>) -> Seq<SpanV> {
    if t.len() == 0 {
        seq![]
    } else {
        seq![(t, plain_style())]
    }
}

pub open spec fn raw_lines(ls: Seq<Seq<char>>) -> Seq<Seq<SpanV>> {
    ls.map_values(|t: Seq<char>| raw_line(t))
}


// ----- styled lines ----------------------------------------------------------------------

/// The colors the page uses.
#[derive(Clone, Copy, Debug, PartialEq, Eq, Structural)]
pub enum Color {
    Yellow,
    Green,
    Blue,
    Cyan,
    Red,
    Magenta,
}

/// How a piece of text is drawn: a foreground color and text modifiers.
#[derive(Clone, Copy, Debug, PartialEq, Eq, Structural)]
pub struct Style {
    pub fg: Option<Color>,
    pub bold: bool,
    pub italic: bool,
    pub dim: bool,
    pub underlined: bool,
    pub crossed_out: bool,
}

/// `a` with `b` laid over it: `b`'s color wins where it has one, modifiers add up.
pub open spec fn patched(a: Style, b: Style) -> Style {
    Style {
        fg: if b.fg is Some {
            b.fg
        } else {
            a.fg
        },
        bold: a.bold || b.bold,
        italic: a.italic || b.italic,
        dim: a.dim || b.dim,
        underlined: a.underlined || b.underlined,
        crossed_out: a.crossed_out || b.crossed_out,
    }
}

impl Style {
    /// No color, no modifiers.
    pub fn plain() -> (r: Style)
        ensures
            r == plain_style(),
    {
        Style { fg: None, bold: false, italic: false, dim: false, underlined: false, crossed_out: false }
    }

    /// Just a color.
    pub fn colored(c: Color) -> (r: Style)
        ensures
            r == (Style { fg: Some(c), ..plain_style() }),
    {
        Style { fg: Some(c), ..Style::plain() }
    }

    /// This style with `other` laid over it.
    pub fn patch(self, other: Style) -> (r: Style)
        ensures
            r == patched(self, other),
    {
        Style {
            fg: if other.fg.is_some() {
                other.fg
            } else {
                self.fg
            },
            bold: self.bold || other.bold,
            italic: self.italic || other.italic,
            dim: self.dim || other.dim,
            underlined: self.underlined || other.underlined,
            crossed_out: self.crossed_out || other.crossed_out,
        }
    }
}

pub open spec fn plain_style() -> Style {
    Style { fg: None, bold: false, italic: false, dim: false, underlined: false, crossed_out: false }
}

/// Dimmed text: markers, rules, link targets, image frames.
pub open spec fn dim_style() -> Style {
    Style { dim: true, ..plain_style() }
}

/// Code spans and blocks.
pub open spec fn code_style() -> Style {
    Style { fg: Some(Color::Magenta), ..plain_style() }
}

/// A link, colored by where it leads: cyan to a page, red to a missing one, blue outside.
pub open spec fn link_style_of(t: Target) -> Style {
    Style {
        fg: Some(
            match t {
                Target::Page(_) => Color::Cyan,
                Target::Missing(_) => Color::Red,
                Target::External(_) => Color::Blue,
            },
        ),
        underlined: true,
        ..plain_style()
    }
}

/// Heading text: yellow, green, blue for the first three levels, bold for all.
pub open spec fn heading_style(level: u8) -> Style {
    Style {
        fg: if level == 1 {
            Some(Color::Yellow)
        } else if level == 2 {
            Some(Color::Green)
        } else if level == 3 {
            Some(Color::Blue)
        } else {
            None
        },
        bold: true,
        ..plain_style()
    }
}

/// Some text in a style.
pub struct Span {
    pub text: String,
    pub style: Style,
}

/// One screen line.
pub struct Line {
    pub spans: Vec<Span>,
}

pub open spec fn span_view(s: Span) -> (Seq<char>, Style) {
    (s.text@, s.style)
}

pub open spec fn spans_view(v: Seq<Span>) -> Seq<(Seq<char>, Style)> {
    v.map_values(|s: Span| span_view(s))
}

pub open spec fn line_view(l: Line) -> Seq<(Seq<char>, Style)> {
    spans_view(l.spans@)
}

pub open spec fn lines_view(v: Seq<Line>) -> Seq<Seq<(Seq<char>, Style)>> {
    v.map_values(|l: Line| line_view(l))
}

/// The text of some spans, one after the other.
pub open spec fn spans_text(v: Seq<(Seq<char>, Style)>) -> Seq<char>
    decreases v.len(),
{
    if v.len() == 0 {
        seq![]
    } else {
        spans_text(v.drop_last()) + v.last().0
    }
}

fn copy_span(s: &Span) -> (r: Span)
    ensures
        span_view(r) == span_view(*s),
{
    Span { text: s.text.clone(), style: s.style }
}

fn copy_spans(v: &Vec<Span>) -> (r: Vec<Span>)
    ensures
        spans_view(r@) == spans_view(v@),
{
    let mut out: Vec<Span> = Vec::new();
    let mut i: usize = 0;
    while i < v.len()
        invariant
            0 <= i <= v.len(),
            spans_view(out@) == spans_view(v@).take(i as int),
        decreases v.len() - i,
    {
        let ghost before = out@;
        out.push(copy_span(&v[i]));
        assert(spans_view(out@) =~= spans_view(before).push(span_view(v@[i as int])));
        assert(spans_view(v@).take(i + 1) =~= spans_view(v@).take(i as int).push(span_view(v@[i as int])));
        i = i + 1;
    }
    assert(spans_view(v@).take(v.len() as int) =~= spans_view(v@));
    out
}

impl Line {
    /// The line's text, its spans one after the other.
    pub fn text(&self) -> (r: String)
        ensures
            r@ == spans_text(line_view(*self)),
    {
        let mut out: Vec<char> = Vec::new();
        let mut i: usize = 0;
        while i < self.spans.len()
            invariant
                0 <= i <= self.spans.len(),
                out@ == spans_text(line_view(*self).take(i as int)),
            decreases self.spans.len() - i,
        {
            push_str(&mut out, self.spans[i].text.as_str());
            assert(line_view(*self).take(i + 1).drop_last() =~= line_view(*self).take(i as int));
            i = i + 1;
        }
        assert(line_view(*self).take(self.spans.len() as int) =~= line_view(*self));
        string_of(&out)
    }
}


// ----- a rendered page ---------------------------------------------------------------------

/// Something on the page that can be selected and activated.
#[derive(Clone, Copy, Debug, PartialEq, Eq, Structural)]
pub enum Item {
    /// Index into the page's links.
    Link(usize),
    /// Index into the page's images.
    Image(usize),
    /// Index into the page's tasks.
    Task(usize),
}

/// A task-list checkbox: where its marker is drawn and where it lives in the source.
pub struct TaskSlot {
    pub line: usize,
    /// Index of the marker span in that line.
    pub span: usize,
    /// Byte range of `[ ]` / `[x]` in the Markdown source.
    pub source: std::ops::Range<usize>,
}

/// A link on the page: where it leads, and `(line, span)` of every span that shows it.
pub struct Link {
    pub target: LinkTarget,
    pub spans: Vec<(usize, usize)>,
}

/// An image on the page, drawn inside a one-cell frame. The frame occupies lines
/// `line ..= line + height + 1` and columns `x - 1 ..= x + width`; the image itself is drawn at
/// `(x, line + 1)`.
pub struct ImageSlot {
    pub path: String,
    /// First line of the frame.
    pub line: usize,
    /// Column the image starts at (after the frame's left edge).
    pub x: u16,
    pub width: u16,
    pub height: u16,
    /// Bounds the image was prepared for.
    pub max_width: u16,
    pub max_height: u16,
}

/// A page made ready for the screen.
pub struct Rendered {
    pub lines: Vec<Line>,
    pub links: Vec<Link>,
    pub images: Vec<ImageSlot>,
    /// Links, images and tasks in document order: what `n`/`p` step through.
    pub items: Vec<Item>,
    /// Headings in document order, for the table of contents.
    pub headings: Vec<Heading>,
    pub tasks: Vec<TaskSlot>,
}

/// What the renderer needs from the outside world. Its users implement it; what the renderer
/// asks of it is stated by `Renderer::question`, and `ask` puts those questions to it.
///
/// Each method's answer is named by a spec function that a verified implementation defines.
/// The default bodies of those spec functions exist only so that implementations outside
/// Verus compile; no proof in this crate reads them, since the renderer only ever sees a
/// context through the trait.
pub trait Context {
    /// What `resolve` answers for destination `raw`.
    closed spec fn resolves(&self, raw: Seq<char>) -> Target {
        arbitrary()
    }

    /// What `title` answers for page `id`.
    closed spec fn titles(&self, id: Seq<char>) -> Seq<char> {
        arbitrary()
    }

    /// What `image_path` answers for destination `raw`.
    closed spec fn paths(&self, raw: Seq<char>) -> Option<Seq<char>> {
        arbitrary()
    }

    /// What `image_size` answers for the file `path` within `max_width` x `max_height` cells.
    closed spec fn sizes(&self, path: Seq<char>, max_width: u16, max_height: u16) -> Option<(u16, u16)> {
        arbitrary()
    }

    /// Where a link destination leads.
    fn resolve(&self, raw: &str) -> (r: LinkTarget)
        ensures
            r@ == self.resolves(raw@),
    ;

    /// The title of a page.
    fn title(&self, id: &str) -> (r: String)
        ensures
            r@ == self.titles(id@),
    ;

    /// The file an image destination names, if it can be shown.
    fn image_path(&self, raw: &str) -> (r: Option<String>)
        ensures
            r is None ==> self.paths(raw@) is None,
            r matches Some(p) ==> self.paths(raw@) == Some(p@),
    ;

    /// Prepares the image for drawing within `max_width` x `max_height` cells (scaled down to
    /// fit, never up) and returns its size in cells, or `None` if it cannot be shown.
    fn image_size(&mut self, path: &str, max_width: u16, max_height: u16) -> (r: Option<(u16, u16)>)
        ensures
            r == old(self).sizes(path@, max_width, max_height),
    ;
}

// ----- Markdown events ---------------------------------------------------------------------

/// The start of a Markdown element.
pub enum MdTag {
    Paragraph,
    /// Level 1 to 6.
    Heading(u8),
    BlockQuote,
    /// The language after a fence; empty for an indented block.
    CodeBlock(String),
    /// The first number of an ordered list; `None` for bullets.
    List(Option<u64>),
    Item,
    Emphasis,
    Strong,
    Strikethrough,
    /// A link: whether it is a `[[wiki link]]`, whether that has a `|label`, and its target.
    Link { wiki: bool, piped: bool, dest: String },
    Image(String),
    Table,
    TableHead,
    TableRow,
    TableCell,
    FootnoteDefinition(String),
    MetadataBlock,
    HtmlBlock,
    Other,
}

/// The end of a Markdown element.
#[derive(Clone, Copy, Debug, PartialEq, Eq, Structural)]
pub enum MdTagEnd {
    Paragraph,
    Heading,
    BlockQuote,
    CodeBlock,
    List,
    Item,
    Emphasis,
    Strong,
    Strikethrough,
    Link,
    Image,
    Table,
    TableHead,
    FootnoteDefinition,
    MetadataBlock,
    HtmlBlock,
    Other,
}

/// One event of the Markdown parser.
pub enum MdEvent {
    Start(MdTag),
    End(MdTagEnd),
    Text(String),
    Code(String),
    /// Inline or display math.
    Math(String),
    /// A block or inline piece of HTML.
    Html(String),
    FootnoteReference(String),
    SoftBreak,
    HardBreak,
    Rule,
    /// A task item's checkbox: whether it is ticked.
    TaskListMarker(bool),
}

/// An element start as text.
pub enum TagV {
    Paragraph,
    Heading(u8),
    BlockQuote,
    CodeBlock(Seq<char>),
    List(Option<u64>),
    Item,
    Emphasis,
    Strong,
    Strikethrough,
    Link { wiki: bool, piped: bool, dest: Seq<char> },
    Image(Seq<char>),
    Table,
    TableHead,
    TableRow,
    TableCell,
    FootnoteDefinition(Seq<char>),
    MetadataBlock,
    HtmlBlock,
    Other,
}

/// A parser event as text.
pub enum EventV {
    Start(TagV),
    End(MdTagEnd),
    Text(Seq<char>),
    Code(Seq<char>),
    Math(Seq<char>),
    Html(Seq<char>),
    FootnoteReference(Seq<char>),
    SoftBreak,
    HardBreak,
    Rule,
    TaskListMarker(bool),
}

impl View for MdTag {
    type V = TagV;

    open spec fn view(&self) -> TagV {
        match self {
            MdTag::Paragraph => TagV::Paragraph,
            MdTag::Heading(l) => TagV::Heading(*l),
            MdTag::BlockQuote => TagV::BlockQuote,
            MdTag::CodeBlock(l) => TagV::CodeBlock(l@),
            MdTag::List(n) => TagV::List(*n),
            MdTag::Item => TagV::Item,
            MdTag::Emphasis => TagV::Emphasis,
            MdTag::Strong => TagV::Strong,
            MdTag::Strikethrough => TagV::Strikethrough,
            MdTag::Link { wiki, piped, dest } => TagV::Link { wiki: *wiki, piped: *piped, dest: dest@ },
            MdTag::Image(d) => TagV::Image(d@),
            MdTag::Table => TagV::Table,
            MdTag::TableHead => TagV::TableHead,
            MdTag::TableRow => TagV::TableRow,
            MdTag::TableCell => TagV::TableCell,
            MdTag::FootnoteDefinition(n) => TagV::FootnoteDefinition(n@),
            MdTag::MetadataBlock => TagV::MetadataBlock,
            MdTag::HtmlBlock => TagV::HtmlBlock,
            MdTag::Other => TagV::Other,
        }
    }
}

impl View for MdEvent {
    type V = EventV;

    open spec fn view(&self) -> EventV {
        match self {
            MdEvent::Start(t) => EventV::Start(t@),
            MdEvent::End(t) => EventV::End(*t),
            MdEvent::Text(s) => EventV::Text(s@),
            MdEvent::Code(s) => EventV::Code(s@),
            MdEvent::Math(s) => EventV::Math(s@),
            MdEvent::Html(s) => EventV::Html(s@),
            MdEvent::FootnoteReference(s) => EventV::FootnoteReference(s@),
            MdEvent::SoftBreak => EventV::SoftBreak,
            MdEvent::HardBreak => EventV::HardBreak,
            MdEvent::Rule => EventV::Rule,
            MdEvent::TaskListMarker(b) => EventV::TaskListMarker(*b),
        }
    }
}

/// An event with the byte range of the source it came from.
pub open spec fn located_view(e: (MdEvent, usize, usize)) -> (EventV, usize, usize) {
    (e.0@, e.1, e.2)
}

pub open spec fn events_view(v: Seq<(MdEvent, usize, usize)>) -> Seq<(EventV, usize, usize)> {
    v.map_values(|e: (MdEvent, usize, usize)| located_view(e))
}

/// The kind of each event `pulldown-cmark` yields for a text, parsed with the wiki's options
/// (wiki links, tables, strikethrough, task lists, YAML metadata blocks).
pub uninterp spec fn md_kinds(text: Seq<char>) -> Seq<EvKind>;

/// For each event of the text: the block element it starts, if it starts one.
pub uninterp spec fn md_blocks(text: Seq<char>) -> Seq<BlockKind>;

/// For each event of the text: the inline or table element it starts, if it starts one.
pub uninterp spec fn md_inlines(text: Seq<char>) -> Seq<InlineKind>;

/// For each event of the text: its text (for text, code, math, HTML and footnote references),
/// the destination of a link or image it starts, the language of a fenced code block or the
/// name of a footnote definition it starts; nothing otherwise.
pub uninterp spec fn md_texts(text: Seq<char>) -> Seq<Seq<char>>;

/// For each event of the text: a heading's level or an ordered list's first number, whether a
/// task is ticked or a link is a wiki link, and whether a wiki link has a `|label`.
pub uninterp spec fn md_flags(text: Seq<char>) -> Seq<(Option<u64>, bool, bool)>;

/// For each event of the text: the byte range of the source it came from.
pub uninterp spec fn md_ranges(text: Seq<char>) -> Seq<(usize, usize)>;

/// The kinds of parser events.
#[derive(Clone, Copy, Debug, PartialEq, Eq, Structural)]
pub enum EvKind {
    Start,
    End,
    Text,
    Code,
    Math,
    Html,
    FootnoteReference,
    SoftBreak,
    HardBreak,
    Rule,
    TaskListMarker,
}

/// Block elements an event can start.
#[derive(Clone, Copy, Debug, PartialEq, Eq, Structural)]
pub enum BlockKind {
    Paragraph,
    Heading,
    BlockQuote,
    CodeBlock,
    List,
    Item,
    FootnoteDefinition,
    MetadataBlock,
    HtmlBlock,
    Other,
}

/// Inline and table elements an event can start.
#[derive(Clone, Copy, Debug, PartialEq, Eq, Structural)]
pub enum InlineKind {
    Emphasis,
    Strong,
    Strikethrough,
    Link,
    Image,
    Table,
    TableHead,
    TableRow,
    TableCell,
    Other,
}

/// The element a start event opens, from its block and inline kinds and its text and flags.
pub open spec fn tag_of(b: BlockKind, i: InlineKind, t: Seq<char>, f: (Option<u64>, bool, bool)) -> TagV {
    match b {
        BlockKind::Paragraph => TagV::Paragraph,
        BlockKind::Heading => TagV::Heading(
            match f.0 {
                Some(n) => n as u8,
                None => 0,
            },
        ),
        BlockKind::BlockQuote => TagV::BlockQuote,
        BlockKind::CodeBlock => TagV::CodeBlock(t),
        BlockKind::List => TagV::List(f.0),
        BlockKind::Item => TagV::Item,
        BlockKind::FootnoteDefinition => TagV::FootnoteDefinition(t),
        BlockKind::MetadataBlock => TagV::MetadataBlock,
        BlockKind::HtmlBlock => TagV::HtmlBlock,
        BlockKind::Other => match i {
            InlineKind::Emphasis => TagV::Emphasis,
            InlineKind::Strong => TagV::Strong,
            InlineKind::Strikethrough => TagV::Strikethrough,
            InlineKind::Link => TagV::Link { wiki: f.1, piped: f.2, dest: t },
            InlineKind::Image => TagV::Image(t),
            InlineKind::Table => TagV::Table,
            InlineKind::TableHead => TagV::TableHead,
            InlineKind::TableRow => TagV::TableRow,
            InlineKind::TableCell => TagV::TableCell,
            InlineKind::Other => TagV::Other,
        },
    }
}

/// How an element ends, from how it started.
pub open spec fn end_for(t: TagV) -> MdTagEnd {
    match t {
        TagV::Paragraph => MdTagEnd::Paragraph,
        TagV::Heading(_) => MdTagEnd::Heading,
        TagV::BlockQuote => MdTagEnd::BlockQuote,
        TagV::CodeBlock(_) => MdTagEnd::CodeBlock,
        TagV::List(_) => MdTagEnd::List,
        TagV::Item => MdTagEnd::Item,
        TagV::Emphasis => MdTagEnd::Emphasis,
        TagV::Strong => MdTagEnd::Strong,
        TagV::Strikethrough => MdTagEnd::Strikethrough,
        TagV::Link { .. } => MdTagEnd::Link,
        TagV::Image(_) => MdTagEnd::Image,
        TagV::Table => MdTagEnd::Table,
        TagV::TableHead => MdTagEnd::TableHead,
        TagV::FootnoteDefinition(_) => MdTagEnd::FootnoteDefinition,
        TagV::MetadataBlock => MdTagEnd::MetadataBlock,
        TagV::HtmlBlock => MdTagEnd::HtmlBlock,
        TagV::TableRow | TagV::TableCell | TagV::Other => MdTagEnd::Other,
    }
}

/// The first `k` events, and the elements open after them (the parser closes elements in the
/// reverse order it opens them, so an end event ends the innermost open element).
pub open spec fn events_upto(text: Seq<char>, k: int) -> (Seq<(EventV, usize, usize)>, Seq<TagV>)
    decreases k,
{
    if k <= 0 {
        (seq![], seq![])
    } else {
        let (evs, open) = events_upto(text, k - 1);
        let i = k - 1;
        let t = md_texts(text)[i];
        let (start, end) = md_ranges(text)[i];
        let (ev, open2) = match md_kinds(text)[i] {
            EvKind::Start => {
                let tag = tag_of(md_blocks(text)[i], md_inlines(text)[i], t, md_flags(text)[i]);
                (EventV::Start(tag), open.push(tag))
            },
            EvKind::End => if open.len() > 0 {
                (EventV::End(end_for(open.last())), open.drop_last())
            } else {
                (EventV::End(MdTagEnd::Other), open)
            },
            EvKind::Text => (EventV::Text(t), open),
            EvKind::Code => (EventV::Code(t), open),
            EvKind::Math => (EventV::Math(t), open),
            EvKind::Html => (EventV::Html(t), open),
            EvKind::FootnoteReference => (EventV::FootnoteReference(t), open),
            EvKind::SoftBreak => (EventV::SoftBreak, open),
            EvKind::HardBreak => (EventV::HardBreak, open),
            EvKind::Rule => (EventV::Rule, open),
            EvKind::TaskListMarker => (EventV::TaskListMarker(md_flags(text)[i].1), open),
        };
        (evs.push((ev, start, end)), open2)
    }
}

/// The events `pulldown-cmark` yields for a text, parsed with the wiki's options, each with
/// its source byte range.
pub open spec fn md_events(text: Seq<char>) -> Seq<(EventV, usize, usize)> {
    events_upto(text, md_kinds(text).len() as int).0
}

/// Calls `pulldown_cmark::Parser::new_ext` with the wiki's options and keeps each event's kind.
/// Claims only that the result is `md_kinds(text)`.
#[verifier::external_body]
fn parse_kinds(text: &str) -> (r: Vec<EvKind>)
    ensures
        r@ == md_kinds(text@),
{
    let mut out = Vec::new();
    for e in Parser::new_ext(text, Options::ENABLE_WIKILINKS | Options::ENABLE_TABLES | Options::ENABLE_STRIKETHROUGH | Options::ENABLE_TASKLISTS | Options::ENABLE_YAML_STYLE_METADATA_BLOCKS) {
        out.push(match e {
            Event::Start(_) => EvKind::Start, Event::End(_) => EvKind::End, Event::Text(_) => EvKind::Text,
            Event::Code(_) => EvKind::Code, Event::InlineMath(_) | Event::DisplayMath(_) => EvKind::Math,
            Event::Html(_) | Event::InlineHtml(_) => EvKind::Html, Event::FootnoteReference(_) => EvKind::FootnoteReference,
            Event::SoftBreak => EvKind::SoftBreak, Event::HardBreak => EvKind::HardBreak, Event::Rule => EvKind::Rule,
            Event::TaskListMarker(_) => EvKind::TaskListMarker,
        });
    }
    out
}

/// Calls `pulldown_cmark::Parser::new_ext` with the wiki's options and keeps, for each event,
/// the block element it starts. Claims only that the result is `md_blocks(text)`, one entry
/// per event like `parse_kinds`, as both run the same parser over the same text.
#[verifier::external_body]
fn parse_blocks(text: &str) -> (r: Vec<BlockKind>)
    ensures
        r@ == md_blocks(text@),
        r@.len() == md_kinds(text@).len(),
{
    let mut out = Vec::new();
    for e in Parser::new_ext(text, Options::ENABLE_WIKILINKS | Options::ENABLE_TABLES | Options::ENABLE_STRIKETHROUGH | Options::ENABLE_TASKLISTS | Options::ENABLE_YAML_STYLE_METADATA_BLOCKS) {
        out.push(match e {
            Event::Start(Tag::Paragraph) => BlockKind::Paragraph, Event::Start(Tag::Heading { .. }) => BlockKind::Heading,
            Event::Start(Tag::BlockQuote(_)) => BlockKind::BlockQuote, Event::Start(Tag::CodeBlock(_)) => BlockKind::CodeBlock,
            Event::Start(Tag::List(_)) => BlockKind::List, Event::Start(Tag::Item) => BlockKind::Item,
            Event::Start(Tag::FootnoteDefinition(_)) => BlockKind::FootnoteDefinition,
            Event::Start(Tag::MetadataBlock(_)) => BlockKind::MetadataBlock, Event::Start(Tag::HtmlBlock) => BlockKind::HtmlBlock,
            _ => BlockKind::Other,
        });
    }
    out
}

/// Calls `pulldown_cmark::Parser::new_ext` with the wiki's options and keeps, for each event,
/// the inline or table element it starts. Claims only that the result is `md_inlines(text)`,
/// one entry per event like `parse_kinds`.
#[verifier::external_body]
fn parse_inlines(text: &str) -> (r: Vec<InlineKind>)
    ensures
        r@ == md_inlines(text@),
        r@.len() == md_kinds(text@).len(),
{
    let mut out = Vec::new();
    for e in Parser::new_ext(text, Options::ENABLE_WIKILINKS | Options::ENABLE_TABLES | Options::ENABLE_STRIKETHROUGH | Options::ENABLE_TASKLISTS | Options::ENABLE_YAML_STYLE_METADATA_BLOCKS) {
        out.push(match e {
            Event::Start(Tag::Emphasis) => InlineKind::Emphasis, Event::Start(Tag::Strong) => InlineKind::Strong,
            Event::Start(Tag::Strikethrough) => InlineKind::Strikethrough, Event::Start(Tag::Link { .. }) => InlineKind::Link,
            Event::Start(Tag::Image { .. }) => InlineKind::Image, Event::Start(Tag::Table(_)) => InlineKind::Table,
            Event::Start(Tag::TableHead) => InlineKind::TableHead, Event::Start(Tag::TableRow) => InlineKind::TableRow,
            Event::Start(Tag::TableCell) => InlineKind::TableCell, _ => InlineKind::Other,
        });
    }
    out
}

/// Calls `pulldown_cmark::Parser::new_ext` with the wiki's options and keeps, for each event,
/// its text or the destination, language or name it starts with. Claims only that the result
/// is `md_texts(text)`, one entry per event like `parse_kinds`.
#[verifier::external_body]
fn parse_texts(text: &str) -> (r: Vec<String>)
    ensures
        crate::wiki::strings(r@) == md_texts(text@),
        r@.len() == md_kinds(text@).len(),
{
    let mut out = Vec::new();
    for e in Parser::new_ext(text, Options::ENABLE_WIKILINKS | Options::ENABLE_TABLES | Options::ENABLE_STRIKETHROUGH | Options::ENABLE_TASKLISTS | Options::ENABLE_YAML_STYLE_METADATA_BLOCKS) {
        out.push(match e {
            Event::Text(t) | Event::Code(t) | Event::InlineMath(t) | Event::DisplayMath(t) | Event::Html(t) | Event::InlineHtml(t) | Event::FootnoteReference(t) => t.to_string(),
            Event::Start(Tag::Link { dest_url: t, .. } | Tag::Image { dest_url: t, .. }) => t.to_string(),
            Event::Start(Tag::CodeBlock(CodeBlockKind::Fenced(t)) | Tag::FootnoteDefinition(t)) => t.to_string(),
            _ => String::new(),
        });
    }
    out
}

/// Calls `pulldown_cmark::Parser::new_ext` with the wiki's options and keeps, for each event,
/// a heading's level or a list's first number, and the task and wiki-link flags. Claims only
/// that the result is `md_flags(text)`, one entry per event like `parse_kinds`.
#[verifier::external_body]
fn parse_flags(text: &str) -> (r: Vec<(Option<u64>, bool, bool)>)
    ensures
        r@ == md_flags(text@),
        r@.len() == md_kinds(text@).len(),
{
    let mut out = Vec::new();
    for e in Parser::new_ext(text, Options::ENABLE_WIKILINKS | Options::ENABLE_TABLES | Options::ENABLE_STRIKETHROUGH | Options::ENABLE_TASKLISTS | Options::ENABLE_YAML_STYLE_METADATA_BLOCKS) {
        out.push(match e {
            Event::Start(Tag::Heading { level, .. }) => (Some(level as u64), false, false),
            Event::Start(Tag::List(n)) => (n, false, false),
            Event::TaskListMarker(done) => (None, done, false),
            Event::Start(Tag::Link { link_type: LinkType::WikiLink { has_pothole }, .. }) => (None, true, has_pothole),
            _ => (None, false, false),
        });
    }
    out
}

/// Calls `pulldown_cmark::Parser::new_ext` with the wiki's options and keeps each event's byte
/// range in the source. Claims only that the result is `md_ranges(text)`, one entry per event
/// like `parse_kinds`.
#[verifier::external_body]
fn parse_ranges(text: &str) -> (r: Vec<(usize, usize)>)
    ensures
        r@ == md_ranges(text@),
        r@.len() == md_kinds(text@).len(),
{
    let mut out = Vec::new();
    for (_, range) in Parser::new_ext(text, Options::ENABLE_WIKILINKS | Options::ENABLE_TABLES | Options::ENABLE_STRIKETHROUGH | Options::ENABLE_TASKLISTS | Options::ENABLE_YAML_STYLE_METADATA_BLOCKS).into_offset_iter() {
        out.push((range.start, range.end));
    }
    out
}



// ----- the renderer's state ----------------------------------------------------------------

/// Text in a table cell, waiting for the column widths to be known.
struct Chunk {
    text: String,
    style: Style,
    link: Option<usize>,
}

struct Table {
    rows: Vec<Vec<Vec<Chunk>>>,
    header_rows: usize,
}

/// Renders Markdown events into styled, word-wrapped lines, remembering where every link and
/// image ended up.
pub struct Renderer {
    width: usize,
    /// Rows available for one image (frame included).
    height: u16,
    lines: Vec<Line>,
    cur: Vec<Span>,
    cur_width: usize,
    at_line_start: bool,
    need_blank: bool,
    /// One continuation prefix per open list item / block quote.
    prefixes: Vec<Span>,
    /// Replaces the innermost prefix on the next line only (the list bullet).
    first_prefix: Option<Span>,
    styles: Vec<Style>,
    links: Vec<Link>,
    cur_link: Option<usize>,
    images: Vec<ImageSlot>,
    items: Vec<Item>,
    headings: Vec<Heading>,
    tasks: Vec<TaskSlot>,
    /// The heading being written: level, first line, and its text so far.
    heading: Option<(u8, usize, String)>,
    /// `None` for bullet lists, `Some(next number)` for ordered ones.
    lists: Vec<Option<u64>>,
    in_code_block: bool,
    /// A nested list just ended: separate the next item of the outer list with a blank line.
    blank_after_nested: bool,
    /// An image's destination and its alt text so far, while inside the image tag.
    image_alt: Option<(String, String)>,
    /// Ignore text events (wiki links that show the page title instead).
    skip_text: bool,
    /// The page's leading `# Title` is read for the outline but not drawn.
    hiding_title: bool,
    table: Option<Table>,
}

pub type SpanV = (Seq<char>, Style);

pub type ChunkV = (Seq<char>, Style, Option<usize>);

/// The renderer's state as text.
pub struct RView {
    pub width: int,
    pub height: u16,
    pub lines: Seq<Seq<SpanV>>,
    pub cur: Seq<SpanV>,
    pub cur_width: int,
    pub at_line_start: bool,
    pub need_blank: bool,
    pub prefixes: Seq<SpanV>,
    pub first_prefix: Option<SpanV>,
    pub styles: Seq<Style>,
    pub links: Seq<(Target, Seq<(usize, usize)>)>,
    pub cur_link: Option<usize>,
    pub images: Seq<(Seq<char>, usize, u16, u16, u16, u16, u16)>,
    pub items: Seq<Item>,
    pub headings: Seq<(int, Seq<char>, int)>,
    pub tasks: Seq<(usize, usize, usize, usize)>,
    pub heading: Option<(u8, usize, Seq<char>)>,
    pub lists: Seq<Option<u64>>,
    pub in_code_block: bool,
    pub blank_after_nested: bool,
    pub image_alt: Option<(Seq<char>, Seq<char>)>,
    pub skip_text: bool,
    pub hiding_title: bool,
    pub table: Option<(Seq<Seq<Seq<ChunkV>>>, usize)>,
}

pub open spec fn link_view(l: Link) -> (Target, Seq<(usize, usize)>) {
    (l.target@, l.spans@)
}

pub open spec fn links_view(v: Seq<Link>) -> Seq<(Target, Seq<(usize, usize)>)> {
    v.map_values(|l: Link| link_view(l))
}

pub open spec fn image_view(i: ImageSlot) -> (Seq<char>, usize, u16, u16, u16, u16, u16) {
    (i.path@, i.line, i.x, i.width, i.height, i.max_width, i.max_height)
}

pub open spec fn images_view(v: Seq<ImageSlot>) -> Seq<(Seq<char>, usize, u16, u16, u16, u16, u16)> {
    v.map_values(|i: ImageSlot| image_view(i))
}

pub open spec fn task_view(t: TaskSlot) -> (usize, usize, usize, usize) {
    (t.line, t.span, t.source.start, t.source.end)
}

pub open spec fn tasks_view(v: Seq<TaskSlot>) -> Seq<(usize, usize, usize, usize)> {
    v.map_values(|t: TaskSlot| task_view(t))
}

spec fn chunk_view(c: Chunk) -> ChunkV {
    (c.text@, c.style, c.link)
}

spec fn chunks_view(v: Seq<Chunk>) -> Seq<ChunkV> {
    v.map_values(|c: Chunk| chunk_view(c))
}

spec fn cells_view(v: Seq<Vec<Chunk>>) -> Seq<Seq<ChunkV>> {
    v.map_values(|c: Vec<Chunk>| chunks_view(c@))
}

spec fn trows_view(v: Seq<Vec<Vec<Chunk>>>) -> Seq<Seq<Seq<ChunkV>>> {
    v.map_values(|r: Vec<Vec<Chunk>>| cells_view(r@))
}

spec fn opt_span_view(s: Option<Span>) -> Option<SpanV> {
    match s {
        Some(s) => Some(span_view(s)),
        None => None,
    }
}

impl View for Renderer {
    type V = RView;

    closed spec fn view(&self) -> RView {
        RView {
            width: self.width as int,
            height: self.height,
            lines: lines_view(self.lines@),
            cur: spans_view(self.cur@),
            cur_width: self.cur_width as int,
            at_line_start: self.at_line_start,
            need_blank: self.need_blank,
            prefixes: spans_view(self.prefixes@),
            first_prefix: opt_span_view(self.first_prefix),
            styles: self.styles@,
            links: links_view(self.links@),
            cur_link: self.cur_link,
            images: images_view(self.images@),
            items: self.items@,
            headings: headings_view(self.headings@),
            tasks: tasks_view(self.tasks@),
            heading: match self.heading {
                Some((l, n, t)) => Some((l, n, t@)),
                None => None,
            },
            lists: self.lists@,
            in_code_block: self.in_code_block,
            blank_after_nested: self.blank_after_nested,
            image_alt: match self.image_alt {
                Some((d, a)) => Some((d@, a@)),
                None => None,
            },
            skip_text: self.skip_text,
            hiding_title: self.hiding_title,
            table: match self.table {
                Some(t) => Some((trows_view(t.rows@), t.header_rows)),
                None => None,
            },
        }
    }
}

/// Every link a span or a table chunk refers to exists, and there is a style to write in.
pub open spec fn rview_ok(r: RView) -> bool {
    &&& r.styles.len() >= 1
    &&& (r.cur_link matches Some(i) ==> i < r.links.len())
    &&& (r.table matches Some((rows, _)) ==> forall|a: int, b: int, c: int|
        0 <= a < rows.len() && 0 <= b < rows[a].len() && 0 <= c < rows[a][b].len() ==> link_ok(
            (#[trigger] rows[a][b][c]).2,
            r.links.len() as int,
        ))
}

/// No link, or one of the first `n`.
pub open spec fn link_ok(l: Option<usize>, n: int) -> bool {
    match l {
        Some(i) => i < n,
        None => true,
    }
}

// ----- widths ------------------------------------------------------------------------------

/// Screen columns of a text.
pub open spec fn width_of(t: Seq<char>) -> int {
    crate::text::text_columns(t) as int
}

/// `a + b`, at most `usize::MAX`.
pub open spec fn sat_add(a: int, b: int) -> int {
    if a + b > usize::MAX {
        usize::MAX as int
    } else {
        a + b
    }
}

/// `a - b`, at least zero.
pub open spec fn sat_sub(a: int, b: int) -> int {
    if a >= b {
        a - b
    } else {
        0
    }
}

/// Screen columns of some spans, adding up at most to `usize::MAX`.
pub open spec fn spans_width(v: Seq<SpanV>) -> int
    decreases v.len(),
{
    if v.len() == 0 {
        0
    } else {
        sat_add(spans_width(v.drop_last()), width_of(v.last().0))
    }
}

fn text_cols(s: &String) -> (r: usize)
    ensures
        r as int == width_of(s@),
{
    crate::text::text_width(&chars_of(s.as_str()))
}

fn spans_cols(v: &Vec<Span>) -> (r: usize)
    ensures
        r as int == spans_width(spans_view(v@)),
{
    let mut sum: usize = 0;
    let mut i: usize = 0;
    while i < v.len()
        invariant
            0 <= i <= v.len(),
            sum as int == spans_width(spans_view(v@).take(i as int)),
        decreases v.len() - i,
    {
        let w = text_cols(&v[i].text);
        sum = sum.saturating_add(w);
        assert(spans_view(v@).take(i + 1).drop_last() =~= spans_view(v@).take(i as int));
        i = i + 1;
    }
    assert(spans_view(v@).take(v.len() as int) =~= spans_view(v@));
    sum
}

// ----- building lines, as specs --------------------------------------------------------------

pub open spec fn style_of(r: RView) -> Style {
    r.styles.last()
}

pub open spec fn push_style_of(r: RView, p: Style) -> RView {
    RView { styles: r.styles.push(patched(style_of(r), p)), ..r }
}

pub open spec fn pop_style_of(r: RView) -> RView {
    if r.styles.len() > 1 {
        RView { styles: r.styles.drop_last(), ..r }
    } else {
        r
    }
}

/// A new line begins with the prefixes, the bullet (if one is pending) in place of the last.
pub open spec fn start_line_of(r: RView) -> RView {
    let spans = match r.first_prefix {
        Some(f) => if r.prefixes.len() > 0 {
            r.prefixes.update(r.prefixes.len() - 1, f)
        } else {
            r.prefixes
        },
        None => r.prefixes,
    };
    RView { cur: spans, cur_width: spans_width(spans), at_line_start: true, ..r }
}

pub open spec fn newline_of(r: RView) -> RView {
    start_line_of(RView { lines: r.lines.push(r.cur), first_prefix: None, ..r })
}

/// Ends the current line if anything was written on it.
pub open spec fn finish_line_of(r: RView) -> RView {
    if !r.at_line_start {
        newline_of(r)
    } else {
        r
    }
}

/// A line holding just the prefixes, the last one's trailing blanks trimmed.
pub open spec fn blank_line_of(r: RView) -> RView {
    let spans = if r.prefixes.len() > 0 {
        r.prefixes.update(
            r.prefixes.len() - 1,
            (crate::text::trim_end(r.prefixes.last().0), r.prefixes.last().1),
        )
    } else {
        r.prefixes
    };
    RView { lines: r.lines.push(spans), ..r }
}

/// Before a block: the line so far ends, and a blank line separates it from the block before.
pub open spec fn start_block_of(r: RView) -> RView {
    let r1 = finish_line_of(r);
    let r2 = if r1.need_blank && r1.lines.len() > 0 {
        blank_line_of(r1)
    } else {
        r1
    };
    start_line_of(RView { need_blank: false, ..r2 })
}

pub open spec fn end_block_of(r: RView) -> RView {
    RView { need_blank: true, ..finish_line_of(r) }
}

/// Some text in a style, perhaps part of a link: on the current line, in the heading being
/// read, or in the current table cell.
pub open spec fn emit_of(r: RView, t: Seq<char>, style: Style, link: Option<usize>) -> RView {
    if t.len() == 0 {
        r
    } else {
        let r1 = heading_text_of(r, t);
        if r1.table is Some {
            cell_text_of(r1, t, style, link)
        } else {
            line_text_of(r1, t, style, link)
        }
    }
}

/// The text joins the heading being read, if any.
pub open spec fn heading_text_of(r: RView, t: Seq<char>) -> RView {
    match r.heading {
        Some((l, n, h)) => RView { heading: Some((l, n, h + t)), ..r },
        None => r,
    }
}

/// The text joins the current table cell, if there is one.
pub open spec fn cell_text_of(r: RView, t: Seq<char>, style: Style, link: Option<usize>) -> RView {
    match r.table {
        Some((rows, hr)) => if rows.len() > 0 && rows.last().len() > 0 {
            let row = rows.last();
            let cell = row.last().push((t, style, link));
            RView { table: Some((rows.update(rows.len() - 1, row.update(row.len() - 1, cell)), hr)), ..r }
        } else {
            r
        },
        None => r,
    }
}

/// The text goes on the current line; a link remembers the span.
pub open spec fn line_text_of(r: RView, t: Seq<char>, style: Style, link: Option<usize>) -> RView {
    let r2 = RView {
        cur: r.cur.push((t, style)),
        cur_width: sat_add(r.cur_width, width_of(t)),
        at_line_start: false,
        ..r
    };
    match link {
        Some(i) => RView {
            links: r2.links.update(
                i as int,
                (r2.links[i as int].0, r2.links[i as int].1.push((r2.lines.len() as usize, (r2.cur.len() - 1) as usize))),
            ),
            ..r2
        },
        None => r2,
    }
}

/// The last span on the line loses its trailing blanks.
pub open spec fn trim_trailing_of(r: RView) -> RView {
    if r.cur.len() > 0 {
        let last = r.cur.last();
        let trimmed = crate::text::trim_end(last.0);
        RView {
            cur_width: sat_sub(r.cur_width, sat_sub(width_of(last.0), width_of(trimmed))),
            cur: r.cur.update(r.cur.len() - 1, (trimmed, last.1)),
            ..r
        }
    } else {
        r
    }
}


fn concat(a: &String, b: &String) -> (r: String)
    ensures
        r@ == a@ + b@,
{
    let mut cs = chars_of(a.as_str());
    push_str(&mut cs, b.as_str());
    string_of(&cs)
}

fn trimmed_end(s: &String) -> (r: String)
    ensures
        r@ == crate::text::trim_end(s@),
{
    let cs = chars_of(s.as_str());
    let k = crate::text::skip_ws_back(&cs, 0, cs.len());
    assert(cs@.subrange(0, cs.len() as int) =~= cs@);
    string_of(&slice(&cs, 0, k))
}

impl Renderer {
    pub closed spec fn wf(&self) -> bool {
        rview_ok(self@)
    }

    fn style(&self) -> (r: Style)
        requires
            self.wf(),
        ensures
            r == style_of(self@),
    {
        self.styles[self.styles.len() - 1]
    }

    fn push_style(&mut self, patch: Style)
        requires
            old(self).wf(),
        ensures
            final(self).wf(),
            final(self)@ == push_style_of(old(self)@, patch),
    {
        let s = self.style().patch(patch);
        self.styles.push(s);
    }

    fn pop_style(&mut self)
        requires
            old(self).wf(),
        ensures
            final(self).wf(),
            final(self)@ == pop_style_of(old(self)@),
    {
        if self.styles.len() > 1 {
            self.styles.pop();
        }
    }

    fn prefix_width(&self) -> (r: usize)
        ensures
            r as int == spans_width(self@.prefixes),
    {
        spans_cols(&self.prefixes)
    }

    fn start_line(&mut self)
        requires
            old(self).wf(),
        ensures
            final(self).wf(),
            final(self)@ == start_line_of(old(self)@),
    {
        let mut spans = copy_spans(&self.prefixes);
        match &self.first_prefix {
            Some(first) => {
                if spans.len() > 0 {
                    let last = spans.len() - 1;
                    let f = copy_span(first);
                    let ghost before = spans@;
                    spans.set(last, f);
                    assert(spans_view(spans@) =~= spans_view(before).update(last as int, span_view(f)));
                }
            },
            None => {},
        }
        self.cur_width = spans_cols(&spans);
        self.cur = spans;
        self.at_line_start = true;
    }

    fn newline(&mut self)
        requires
            old(self).wf(),
        ensures
            final(self).wf(),
            final(self)@ == newline_of(old(self)@),
    {
        let mut cur: Vec<Span> = Vec::new();
        std::mem::swap(&mut cur, &mut self.cur);
        let ghost before = self.lines@;
        let line = Line { spans: cur };
        self.lines.push(line);
        assert(lines_view(self.lines@) =~= lines_view(before).push(line_view(line)));
        self.first_prefix = None;
        self.start_line();
    }

    fn finish_line(&mut self)
        requires
            old(self).wf(),
        ensures
            final(self).wf(),
            final(self)@ == finish_line_of(old(self)@),
    {
        if !self.at_line_start {
            self.newline();
        }
    }

    fn blank_line(&mut self)
        requires
            old(self).wf(),
        ensures
            final(self).wf(),
            final(self)@ == blank_line_of(old(self)@),
    {
        let mut spans = copy_spans(&self.prefixes);
        if spans.len() > 0 {
            let last = spans.len() - 1;
            let sp = Span { text: trimmed_end(&spans[last].text), style: spans[last].style };
            let ghost before = spans@;
            spans.set(last, sp);
            assert(spans_view(spans@) =~= spans_view(before).update(last as int, span_view(sp)));
        }
        let ghost before = self.lines@;
        let line = Line { spans };
        self.lines.push(line);
        assert(lines_view(self.lines@) =~= lines_view(before).push(line_view(line)));
    }

    fn start_block(&mut self)
        requires
            old(self).wf(),
        ensures
            final(self).wf(),
            final(self)@ == start_block_of(old(self)@),
    {
        self.finish_line();
        if self.need_blank && self.lines.len() > 0 {
            self.blank_line();
        }
        self.need_blank = false;
        self.start_line();
    }

    fn end_block(&mut self)
        requires
            old(self).wf(),
        ensures
            final(self).wf(),
            final(self)@ == end_block_of(old(self)@),
    {
        self.finish_line();
        self.need_blank = true;
    }

    fn emit(&mut self, text: &String, style: Style, link: Option<usize>)
        requires
            old(self).wf(),
            link_ok(link, old(self)@.links.len() as int),
        ensures
            final(self).wf(),
            final(self)@ == emit_of(old(self)@, text@, style, link),
            final(self)@.links.len() == old(self)@.links.len(),
    {
        if chars_of(text.as_str()).len() == 0 {
            return;
        }
        self.heading_text(text);
        if self.table.is_some() {
            self.cell_text(text, style, link);
        } else {
            self.line_text(text, style, link);
        }
    }

    fn heading_text(&mut self, text: &String)
        requires
            old(self).wf(),
        ensures
            final(self).wf(),
            final(self)@ == heading_text_of(old(self)@, text@),
    {
        match self.heading.take() {
            Some((l, n, t)) => {
                self.heading = Some((l, n, concat(&t, text)));
            },
            None => {},
        }
    }

    #[verifier::rlimit(40)]
    fn cell_text(&mut self, text: &String, style: Style, link: Option<usize>)
        requires
            old(self).wf(),
            link_ok(link, old(self)@.links.len() as int),
        ensures
            final(self).wf(),
            final(self)@ == cell_text_of(old(self)@, text@, style, link),
    {
        let ghost r1 = self@;
        match self.table.take() {
            Some(mut t) => {
                if t.rows.len() > 0 && t.rows[t.rows.len() - 1].len() > 0 {
                    let ghost rows0 = trows_view(t.rows@);
                    let mut row = t.rows.pop().unwrap();
                    let ghost cells0 = cells_view(row@);
                    let mut cell = row.pop().unwrap();
                    let ghost ch0 = chunks_view(cell@);
                    let chunk = Chunk { text: text.clone(), style, link };
                    cell.push(chunk);
                    assert(chunks_view(cell@) =~= ch0.push((text@, style, link)));
                    row.push(cell);
                    assert(cells_view(row@) =~= cells0.update(cells0.len() - 1, ch0.push((text@, style, link))));
                    t.rows.push(row);
                    assert(trows_view(t.rows@) =~= rows0.update(
                        rows0.len() - 1,
                        cells0.update(cells0.len() - 1, ch0.push((text@, style, link))),
                    ));
                }
                self.table = Some(t);
                proof {
                    let rows = self@.table->Some_0.0;
                    let rows0 = r1.table->Some_0.0;
                    assert forall|a: int, b: int, c: int|
                        0 <= a < rows.len() && 0 <= b < rows[a].len() && 0 <= c < rows[a][b].len() implies link_ok(
                        (#[trigger] rows[a][b][c]).2,
                        self@.links.len() as int,
                    ) by {
                        if a == rows0.len() - 1 && rows0.len() > 0 && rows0.last().len() > 0 && b == rows0.last().len() - 1 {
                            if c < rows0.last().last().len() {
                                assert(rows[a][b][c] == rows0[a][b][c]);
                            }
                        } else {
                            assert(rows[a][b][c] == rows0[a][b][c]);
                        }
                    }
                }
            },
            None => {},
        }
    }

    fn line_text(&mut self, text: &String, style: Style, link: Option<usize>)
        requires
            old(self).wf(),
            link_ok(link, old(self)@.links.len() as int),
        ensures
            final(self).wf(),
            final(self)@ == line_text_of(old(self)@, text@, style, link),
    {
        let ghost before = self.cur@;
        let sp = Span { text: text.clone(), style };
        self.cur.push(sp);
        assert(spans_view(self.cur@) =~= spans_view(before).push((text@, style)));
        self.cur_width = self.cur_width.saturating_add(text_cols(text));
        self.at_line_start = false;
        match link {
            Some(i) => {
                let ghost lv = links_view(self.links@);
                let old_link = self.links.remove(i);
                let mut spans = old_link.spans;
                spans.push((self.lines.len(), self.cur.len() - 1));
                let nl = Link { target: old_link.target, spans };
                self.links.insert(i, nl);
                assert(links_view(self.links@) =~= lv.update(i as int, link_view(nl)));
            },
            None => {},
        }
    }

    fn trim_trailing_space(&mut self)
        requires
            old(self).wf(),
        ensures
            final(self).wf(),
            final(self)@ == trim_trailing_of(old(self)@),
    {
        if self.cur.len() > 0 {
            let last = self.cur.len() - 1;
            let t = trimmed_end(&self.cur[last].text);
            let before_w = text_cols(&self.cur[last].text);
            let after_w = text_cols(&t);
            self.cur_width = self.cur_width.saturating_sub(before_w.saturating_sub(after_w));
            let sp = Span { text: t, style: self.cur[last].style };
            let ghost before = self.cur@;
            self.cur.set(last, sp);
            assert(spans_view(self.cur@) =~= spans_view(before).update(last as int, span_view(sp)));
        }
    }
}


// ----- writing text, links and images, as specs ---------------------------------------------

/// The pieces `str::split_inclusive` yields: each up to and including a `c`, the last perhaps
/// without one; none for an empty text.
pub open spec fn pieces_incl(t: Seq<char>, c: char) -> Seq<Seq<char>>
    decreases t.len(),
{
    if t.len() == 0 {
        seq![]
    } else {
        let i = crate::text::find_from(t, c, 0);
        if i >= t.len() {
            seq![t]
        } else {
            proof {
                crate::text::lemma_find_from(t, c, 0);
            }
            seq![t.take(i + 1)] + pieces_incl(t.skip(i + 1), c)
        }
    }
}

/// Words written one by one: a word that would overflow the line starts a new one (the
/// blank at the old line's end dropped), and blanks do not start a line.
pub open spec fn words_of(r: RView, ws: Seq<Seq<char>>, style: Style, link: Option<usize>) -> RView
    decreases ws.len(),
{
    if ws.len() == 0 {
        r
    } else {
        let word = ws[0];
        let w = width_of(crate::text::trim_end(word));
        let r1 = if !r.at_line_start && r.cur_width + w > r.width {
            newline_of(trim_trailing_of(r))
        } else {
            r
        };
        let r2 = if r1.at_line_start && crate::text::trim(word).len() == 0 {
            r1
        } else {
            emit_of(r1, word, style, link)
        };
        words_of(r2, ws.drop_first(), style, link)
    }
}

/// Inline text, wrapped at word boundaries; in a table cell, on one line.
pub open spec fn write_of(r: RView, t: Seq<char>) -> RView {
    if r.table is Some {
        emit_of(r, crate::editor::replace_all(t, seq!['\n'], seq![' ']), style_of(r), r.cur_link)
    } else {
        words_of(r, pieces_incl(t, ' '), style_of(r), r.cur_link)
    }
}

/// Lines of a code block, each ended line starting a new one.
pub open spec fn code_pieces_of(r: RView, ps: Seq<Seq<char>>, style: Style) -> RView
    decreases ps.len(),
{
    if ps.len() == 0 {
        r
    } else {
        let p = ps[0];
        let ended = p.len() > 0 && p.last() == '\n';
        let body = if ended {
            p.drop_last()
        } else {
            p
        };
        let r1 = emit_of(r, body, style, None);
        let r2 = if ended {
            newline_of(RView { at_line_start: false, ..r1 })
        } else {
            r1
        };
        code_pieces_of(r2, ps.drop_first(), style)
    }
}

pub open spec fn write_code_block_of(r: RView, t: Seq<char>) -> RView {
    code_pieces_of(r, pieces_incl(t, '\n'), patched(style_of(r), code_style()))
}

/// A link starts: it is remembered and joins the items; a wiki link without a label shows the
/// page's title (or its target when it leads nowhere known) instead of its text.
pub open spec fn start_link_of(
    r: RView,
    wiki: bool,
    piped: bool,
    dest: Seq<char>,
    target: Target,
    title: Seq<char>,
) -> RView {
    let n = r.links.len() as usize;
    let r1 = RView {
        links: r.links.push((target, seq![])),
        cur_link: Some(n),
        items: r.items.push(Item::Link(n)),
        ..r
    };
    let r2 = push_style_of(r1, link_style_of(target));
    if wiki && !piped {
        let text = match target {
            Target::Page(_) => title,
            _ => dest,
        };
        RView { skip_text: true, ..write_of(r2, text) }
    } else {
        r2
    }
}

pub open spec fn end_link_of(r: RView) -> RView {
    pop_style_of(RView { skip_text: false, cur_link: None, ..r })
}

/// `t` `n` times.
pub open spec fn repeat(t: Seq<char>, n: nat) -> Seq<char>
    decreases n,
{
    if n == 0 {
        seq![]
    } else {
        repeat(t, (n - 1) as nat) + t
    }
}

/// One line of an image frame, after any list or quote prefix.
pub open spec fn frame_line_of(r: RView, t: Seq<char>) -> RView {
    let r1 = start_line_of(r);
    newline_of(RView { cur: r1.cur.push((t, dim_style())), at_line_start: false, ..r1 })
}

pub open spec fn frame_lines_of(r: RView, n: nat, t: Seq<char>) -> RView
    decreases n,
{
    if n == 0 {
        r
    } else {
        frame_lines_of(frame_line_of(r, t), (n - 1) as nat, t)
    }
}

/// The cells an image may take: the page width less the prefixes and the frame, the page
/// height less the frame; at least one each.
pub open spec fn image_bounds_of(r: RView) -> (u16, u16) {
    let mw = sat_sub(r.width, sat_add(spans_width(r.prefixes), 2));
    let mh = sat_sub(r.height as int, 2);
    ((if mw < 1 {
        1
    } else {
        mw
    }) as u16, (if mh < 1 {
        1
    } else {
        mh
    }) as u16)
}

/// An image's slot: after the current line, one column right of the prefixes.
pub open spec fn image_slot_of(r: RView, path: Seq<char>, w: u16, h: u16) -> RView {
    let x = spans_width(r.prefixes);
    let (mw, mh) = image_bounds_of(r);
    let r1 = finish_line_of(r);
    let xt = x as u16;
    let col = if xt < u16::MAX {
        (xt + 1) as u16
    } else {
        u16::MAX
    };
    RView {
        images: r1.images.push((path, r1.lines.len() as usize, col, w, h, mw, mh)),
        items: r1.items.push(Item::Image(r1.images.len() as usize)),
        ..r1
    }
}

/// The frame's lines: top, `h` sides, bottom.
pub open spec fn frame_of(r: RView, w: u16, h: u16) -> RView {
    let r3 = frame_line_of(r, "╭"@ + repeat("─"@, w as nat) + "╮"@);
    let r4 = frame_lines_of(r3, h as nat, "│"@ + repeat(" "@, w as nat) + "│"@);
    frame_line_of(r4, "╰"@ + repeat("─"@, w as nat) + "╯"@)
}

/// The alt text on a line of its own, if there is one.
pub open spec fn alt_line_of(r: RView, alt: Seq<char>) -> RView {
    if alt.len() > 0 {
        newline_of(emit_of(r, alt, patched(style_of(r), Style { dim: true, italic: true, ..plain_style() }), None))
    } else {
        r
    }
}

/// An image shown in a frame, its alt text below.
pub open spec fn image_frame_of(r: RView, path: Seq<char>, w: u16, h: u16, alt: Seq<char>) -> RView {
    alt_line_of(frame_of(image_slot_of(r, path, w, h), w, h), alt)
}

/// An image ends: shown framed when the context found and sized it (not inside a table),
/// otherwise a placeholder naming it.
pub open spec fn end_image_of(r: RView, path: Option<Seq<char>>, size: Option<(u16, u16)>) -> RView {
    match r.image_alt {
        None => r,
        Some((dest, alt)) => {
            let r0 = RView { image_alt: None, ..r };
            let placeholder = "[image: "@ + (if alt.len() == 0 {
                dest
            } else {
                alt
            }) + "]"@;
            match path {
                None => write_of(r0, placeholder),
                Some(p) => match size {
                    Some((w, h)) => if r0.table is None {
                        image_frame_of(r0, p, w, h, alt)
                    } else {
                        emit_of(r0, placeholder, patched(style_of(r0), dim_style()), None)
                    },
                    None => emit_of(r0, placeholder, patched(style_of(r0), dim_style()), None),
                },
            }
        },
    }
}


fn split_inclusive(t: &Vec<char>, c: char) -> (r: Vec<Vec<char>>)
    ensures
        views(r@) == pieces_incl(t@, c),
{
    let mut out: Vec<Vec<char>> = Vec::new();
    let mut start: usize = 0;
    assert(t@.skip(0) =~= t@);
    while start < t.len()
        invariant
            start <= t.len(),
            pieces_incl(t@, c) == views(out@) + pieces_incl(t@.skip(start as int), c),
        decreases t.len() - start,
    {
        let ghost rest = t@.skip(start as int);
        let i = crate::text::find_char(t, c, start);
        proof {
            crate::text::lemma_find_from_is(rest, c, 0, i - start);
        }
        let ghost before = out@;
        if i >= t.len() {
            let piece = slice(t, start, t.len());
            assert(piece@ =~= rest);
            out.push(piece);
            assert(views(out@) =~= views(before) + seq![piece@]);
            assert(t@.skip(t.len() as int) =~= Seq::<char>::empty());
            start = t.len();
        } else {
            let piece = slice(t, start, i + 1);
            assert(piece@ =~= rest.take(i - start + 1));
            out.push(piece);
            assert(views(out@) =~= views(before) + seq![piece@]);
            assert(rest.skip(i - start + 1) =~= t@.skip(i + 1));
            start = i + 1;
        }
    }
    assert(t@.skip(start as int) =~= Seq::<char>::empty());
    out
}

fn repeat_str(t: &str, n: usize) -> (r: String)
    ensures
        r@ == repeat(t@, n as nat),
{
    let mut out: Vec<char> = Vec::new();
    let mut i: usize = 0;
    while i < n
        invariant
            0 <= i <= n,
            out@ == repeat(t@, i as nat),
        decreases n - i,
    {
        push_str(&mut out, t);
        i = i + 1;
    }
    string_of(&out)
}

pub(crate) fn copy_target(t: &LinkTarget) -> (r: LinkTarget)
    ensures
        r@ == t@,
{
    match t {
        LinkTarget::Page(s) => LinkTarget::Page(s.clone()),
        LinkTarget::Missing(s) => LinkTarget::Missing(s.clone()),
        LinkTarget::External(s) => LinkTarget::External(s.clone()),
    }
}

/// The style of a link, by where it leads: cyan to a page, red to a missing one, blue outside.
pub fn link_style(t: &LinkTarget) -> (r: Style)
    ensures
        r == link_style_of(t@),
{
    let c = match t {
        LinkTarget::Page(_) => Color::Cyan,
        LinkTarget::Missing(_) => Color::Red,
        LinkTarget::External(_) => Color::Blue,
    };
    Style { fg: Some(c), underlined: true, ..Style::plain() }
}

fn dim() -> (r: Style)
    ensures
        r == dim_style(),
{
    Style { dim: true, ..Style::plain() }
}

impl Renderer {
    fn write(&mut self, text: &String)
        requires
            old(self).wf(),
        ensures
            final(self).wf(),
            final(self)@ == write_of(old(self)@, text@),
            final(self)@.links.len() == old(self)@.links.len(),
    {
        let style = self.style();
        let link = self.cur_link;
        if self.table.is_some() {
            let nl: Vec<char> = vec!['\n'];
            let sp: Vec<char> = vec![' '];
            assert(nl@ =~= seq!['\n']);
            assert(sp@ =~= seq![' ']);
            let t = crate::editor::replace_all_exec(&chars_of(text.as_str()), &nl, &sp);
            self.emit(&string_of(&t), style, link);
            return;
        }
        let ws = split_inclusive(&chars_of(text.as_str()), ' ');
        let ghost target = write_of(self@, text@);
        let ghost n0 = self@.links.len();
        let mut k: usize = 0;
        assert(views(ws@).skip(0) =~= views(ws@));
        while k < ws.len()
            invariant
                self.wf(),
                0 <= k <= ws.len(),
                link_ok(link, self@.links.len() as int),
                self@.links.len() == n0,
                words_of(self@, views(ws@).skip(k as int), style, link) == target,
            decreases ws.len() - k,
        {
            let word = &ws[k];
            let w = crate::text::text_width(&slice(word, 0, crate::text::skip_ws_back(word, 0, word.len())));
            proof {
                assert(word@.subrange(0, word.len() as int) =~= word@);
                assert(views(ws@).skip(k as int)[0] == word@);
                assert(views(ws@).skip(k as int).drop_first() =~= views(ws@).skip(k + 1));
            }
            if !self.at_line_start && (w > self.width || self.cur_width > self.width - w) {
                self.trim_trailing_space();
                self.newline();
            }
            if self.at_line_start && crate::text::trim_all(word).len() == 0 {
            } else {
                self.emit(&string_of(word), style, link);
            }
            k = k + 1;
        }
    }

    fn write_code_block(&mut self, text: &String)
        requires
            old(self).wf(),
        ensures
            final(self).wf(),
            final(self)@ == write_code_block_of(old(self)@, text@),
            final(self)@.links.len() == old(self)@.links.len(),
    {
        let style = self.style().patch(Style::colored(Color::Magenta));
        let ps = split_inclusive(&chars_of(text.as_str()), '\n');
        let ghost target = write_code_block_of(self@, text@);
        let ghost n0 = self@.links.len();
        let mut k: usize = 0;
        assert(views(ps@).skip(0) =~= views(ps@));
        while k < ps.len()
            invariant
                self.wf(),
                0 <= k <= ps.len(),
                self@.links.len() == n0,
                style == patched(style_of(old(self)@), code_style()),
                code_pieces_of(self@, views(ps@).skip(k as int), style) == target,
            decreases ps.len() - k,
        {
            let p = &ps[k];
            proof {
                assert(views(ps@).skip(k as int)[0] == p@);
                assert(views(ps@).skip(k as int).drop_first() =~= views(ps@).skip(k + 1));
            }
            let ended = p.len() > 0 && p[p.len() - 1] == '\n';
            let body = if ended {
                slice(p, 0, p.len() - 1)
            } else {
                slice(p, 0, p.len())
            };
            assert(ended ==> body@ =~= p@.drop_last());
            assert(!ended ==> body@ =~= p@);
            self.emit(&string_of(&body), style, None);
            if ended {
                self.at_line_start = false;
                self.newline();
            }
            k = k + 1;
        }
    }

    fn start_link(&mut self, wiki: bool, piped: bool, dest: &String, target: LinkTarget, title: &String)
        requires
            old(self).wf(),
        ensures
            final(self).wf(),
            final(self)@ == start_link_of(old(self)@, wiki, piped, dest@, target@, title@),
    {
        let n = self.links.len();
        let style = link_style(&target);
        let t2 = copy_target(&target);
        let ghost lv = links_view(self.links@);
        let l = Link { target, spans: Vec::new() };
        self.links.push(l);
        assert(links_view(self.links@) =~= lv.push((t2@, seq![])));
        self.cur_link = Some(n);
        self.items.push(Item::Link(n));
        self.push_style(style);
        if wiki && !piped {
            let text = match &t2 {
                LinkTarget::Page(_) => title.clone(),
                _ => dest.clone(),
            };
            self.write(&text);
            self.skip_text = true;
        }
    }

    fn end_link(&mut self)
        requires
            old(self).wf(),
        ensures
            final(self).wf(),
            final(self)@ == end_link_of(old(self)@),
    {
        self.skip_text = false;
        self.cur_link = None;
        self.pop_style();
    }

    fn frame_line(&mut self, text: &String)
        requires
            old(self).wf(),
        ensures
            final(self).wf(),
            final(self)@ == frame_line_of(old(self)@, text@),
            final(self)@.links.len() == old(self)@.links.len(),
    {
        self.start_line();
        let ghost before = self.cur@;
        let sp = Span { text: text.clone(), style: dim() };
        self.cur.push(sp);
        assert(spans_view(self.cur@) =~= spans_view(before).push((text@, dim_style())));
        self.at_line_start = false;
        self.newline();
    }

    /// The cells an image may take here.
    pub fn image_bounds(&self) -> (r: (u16, u16))
        ensures
            r == image_bounds_of(self@),
    {
        let x = self.prefix_width();
        let mw = self.width.saturating_sub(x.saturating_add(2));
        let mh = self.height.saturating_sub(2);
        ((if mw < 1 {
            1
        } else {
            mw
        }) as u16, if mh < 1 {
            1
        } else {
            mh
        })
    }

    fn image_frame(&mut self, path: String, w: u16, h: u16, alt: &String)
        requires
            old(self).wf(),
        ensures
            final(self).wf(),
            final(self)@ == image_frame_of(old(self)@, path@, w, h, alt@),
    {
        self.image_slot(path, w, h);
        self.frame(w, h);
        if chars_of(alt.as_str()).len() > 0 {
            let style = self.style().patch(Style { dim: true, italic: true, ..Style::plain() });
            self.emit(alt, style, None);
            self.newline();
        }
    }

    fn image_slot(&mut self, path: String, w: u16, h: u16)
        requires
            old(self).wf(),
        ensures
            final(self).wf(),
            final(self)@ == image_slot_of(old(self)@, path@, w, h),
    {
        let x = self.prefix_width();
        let (mw, mh) = self.image_bounds();
        self.finish_line();
        let xt = x as u16;
        let col: u16 = if xt < u16::MAX {
            xt + 1
        } else {
            u16::MAX
        };
        let ghost iv = images_view(self.images@);
        let slot = ImageSlot { path, line: self.lines.len(), x: col, width: w, height: h, max_width: mw, max_height: mh };
        self.images.push(slot);
        assert(images_view(self.images@) =~= iv.push(image_view(slot)));
        self.items.push(Item::Image(self.images.len() - 1));
    }

    fn frame(&mut self, w: u16, h: u16)
        requires
            old(self).wf(),
        ensures
            final(self).wf(),
            final(self)@ == frame_of(old(self)@, w, h),
    {
        let top = concat(&concat(&string_of(&chars_of("╭")), &repeat_str("─", w as usize)), &string_of(&chars_of("╮")));
        let mid = concat(&concat(&string_of(&chars_of("│")), &repeat_str(" ", w as usize)), &string_of(&chars_of("│")));
        let bottom = concat(&concat(&string_of(&chars_of("╰")), &repeat_str("─", w as usize)), &string_of(&chars_of("╯")));
        self.frame_line(&top);
        let ghost r3 = self@;
        let mut i: u16 = 0;
        while i < h
            invariant
                self.wf(),
                0 <= i <= h,
                frame_lines_of(r3, h as nat, mid@) == frame_lines_of(self@, (h - i) as nat, mid@),
            decreases h - i,
        {
            self.frame_line(&mid);
            i = i + 1;
        }
        self.frame_line(&bottom);
    }

    /// The image being read, if any: its destination.
    pub fn image_dest(&self) -> (r: Option<String>)
        ensures
            match r {
                Some(d) => self@.image_alt matches Some((dest, _)) && d@ == dest,
                None => self@.image_alt is None,
            },
    {
        match &self.image_alt {
            Some((d, _)) => Some(d.clone()),
            None => None,
        }
    }

    fn end_image(&mut self, path: Option<String>, size: Option<(u16, u16)>)
        requires
            old(self).wf(),
        ensures
            final(self).wf(),
            final(self)@ == end_image_of(old(self)@, match path {
                Some(p) => Some(p@),
                None => None,
            }, size),
    {
        let (dest, alt) = match self.image_alt.take() {
            None => {
                return;
            },
            Some(da) => da,
        };
        let name = if chars_of(alt.as_str()).len() == 0 {
            dest.clone()
        } else {
            alt.clone()
        };
        let placeholder = concat(&concat(&string_of(&chars_of("[image: ")), &name), &string_of(&chars_of("]")));
        match path {
            None => {
                self.write(&placeholder);
            },
            Some(p) => {
                match size {
                    Some((w, h)) => {
                        if self.table.is_none() {
                            self.image_frame(p, w, h, &alt);
                        } else {
                            let style = self.style().patch(dim());
                            self.emit(&placeholder, style, None);
                        }
                    },
                    None => {
                        let style = self.style().patch(dim());
                        self.emit(&placeholder, style, None);
                    },
                }
            },
        }
    }
}


// ----- tables ------------------------------------------------------------------------------

/// The most cells any of the first `k` rows has.
pub open spec fn col_count(rows: Seq<Seq<Seq<ChunkV>>>, k: int) -> int
    decreases k,
{
    if k <= 0 || k > rows.len() {
        0
    } else {
        let m = col_count(rows, k - 1);
        if rows[k - 1].len() > m {
            rows[k - 1].len() as int
        } else {
            m
        }
    }
}

/// Screen columns of a cell's text.
pub open spec fn chunks_width(cs: Seq<ChunkV>) -> int
    decreases cs.len(),
{
    if cs.len() == 0 {
        0
    } else {
        sat_add(chunks_width(cs.drop_last()), width_of(cs.last().0))
    }
}

/// The widest cell of column `i` among the first `k` rows.
pub open spec fn col_width(rows: Seq<Seq<Seq<ChunkV>>>, i: int, k: int) -> int
    decreases k,
{
    if k <= 0 || k > rows.len() {
        0
    } else {
        let m = col_width(rows, i, k - 1);
        let w = if 0 <= i < rows[k - 1].len() {
            chunks_width(rows[k - 1][i])
        } else {
            0
        };
        if w > m {
            w
        } else {
            m
        }
    }
}

/// A cell's text, bold in a header row.
pub open spec fn cell_chunks_of(r: RView, cell: Seq<ChunkV>, header: bool, j: int) -> RView
    decreases cell.len() - j,
{
    if j < 0 || j >= cell.len() {
        r
    } else {
        let c = cell[j];
        let style = if header {
            Style { bold: true, ..c.1 }
        } else {
            c.1
        };
        cell_chunks_of(emit_of(r, c.0, style, c.2), cell, header, j + 1)
    }
}

/// The cells of a row from column `i` on, separated by ` │ `, each padded to its column's width.
pub open spec fn row_cells_of(r: RView, row: Seq<Seq<ChunkV>>, header: bool, widths: Seq<int>, i: int) -> RView
    decreases widths.len() - i,
{
    if i < 0 || i >= widths.len() {
        r
    } else {
        let r1 = if i > 0 {
            emit_of(r, " │ "@, dim_style(), None)
        } else {
            r
        };
        let used = if i < row.len() {
            chunks_width(row[i])
        } else {
            0
        };
        let r2 = if i < row.len() {
            cell_chunks_of(r1, row[i], header, 0)
        } else {
            r1
        };
        let r3 = if used < widths[i] {
            emit_of(r2, repeat(" "@, (widths[i] - used) as nat), plain_style(), None)
        } else {
            r2
        };
        row_cells_of(r3, row, header, widths, i + 1)
    }
}

/// The rule under the header: `─` across each column, `─┼─` between them.
pub open spec fn rule_of(widths: Seq<int>) -> Seq<char> {
    crate::text::join(Seq::new(widths.len(), |i: int| repeat("─"@, widths[i] as nat)), "─┼─"@)
}

/// The rows from `k` on, one line each, the rule after the header rows.
pub open spec fn table_rows_of(r: RView, rows: Seq<Seq<Seq<ChunkV>>>, hr: int, widths: Seq<int>, k: int) -> RView
    decreases rows.len() - k,
{
    if k < 0 || k >= rows.len() {
        r
    } else {
        let r1 = row_cells_of(r, rows[k], k < hr, widths, 0);
        let r2 = newline_of(RView { at_line_start: false, ..r1 });
        let r3 = if k + 1 == hr {
            newline_of(emit_of(r2, rule_of(widths), dim_style(), None))
        } else {
            r2
        };
        table_rows_of(r3, rows, hr, widths, k + 1)
    }
}

/// A table ends: its cells are written out lined up in columns.
pub open spec fn end_table_of(r: RView) -> RView {
    match r.table {
        None => r,
        Some((rows, hr)) => {
            let r0 = RView { table: None, ..r };
            let widths = Seq::new(col_count(rows, rows.len() as int) as nat, |i: int| col_width(rows, i, rows.len() as int));
            table_rows_of(r0, rows, hr as int, widths, 0)
        },
    }
}

fn chunks_cols(cs: &Vec<Chunk>) -> (r: usize)
    ensures
        r as int == chunks_width(chunks_view(cs@)),
{
    let mut sum: usize = 0;
    let mut i: usize = 0;
    while i < cs.len()
        invariant
            0 <= i <= cs.len(),
            sum as int == chunks_width(chunks_view(cs@).take(i as int)),
        decreases cs.len() - i,
    {
        sum = sum.saturating_add(text_cols(&cs[i].text));
        assert(chunks_view(cs@).take(i + 1).drop_last() =~= chunks_view(cs@).take(i as int));
        i = i + 1;
    }
    assert(chunks_view(cs@).take(cs.len() as int) =~= chunks_view(cs@));
    sum
}

fn table_widths(rows: &Vec<Vec<Vec<Chunk>>>) -> (r: Vec<usize>)
    ensures
        r@.len() == col_count(trows_view(rows@), rows@.len() as int),
        forall|i: int| 0 <= i < r@.len() ==> r@[i] as int == col_width(trows_view(rows@), i, rows@.len() as int),
{
    let ghost tv = trows_view(rows@);
    let mut columns: usize = 0;
    let mut k: usize = 0;
    while k < rows.len()
        invariant
            tv == trows_view(rows@),
            0 <= k <= rows.len(),
            columns as int == col_count(tv, k as int),
        decreases rows.len() - k,
    {
        assert(tv[k as int].len() == rows@[k as int]@.len());
        if rows[k].len() > columns {
            columns = rows[k].len();
        }
        k = k + 1;
    }
    let mut widths: Vec<usize> = Vec::new();
    let mut i: usize = 0;
    while i < columns
        invariant
            tv == trows_view(rows@),
            columns as int == col_count(tv, rows@.len() as int),
            0 <= i <= columns,
            widths@.len() == i,
            forall|j: int| 0 <= j < i ==> widths@[j] as int == col_width(tv, j, rows@.len() as int),
        decreases columns - i,
    {
        let mut w: usize = 0;
        let mut k: usize = 0;
        while k < rows.len()
            invariant
                tv == trows_view(rows@),
                0 <= k <= rows.len(),
                w as int == col_width(tv, i as int, k as int),
            decreases rows.len() - k,
        {
            assert(tv[k as int].len() == rows@[k as int]@.len());
            if i < rows[k].len() {
                assert(tv[k as int][i as int] == chunks_view(rows@[k as int]@[i as int]@));
                let cw = chunks_cols(&rows[k][i]);
                if cw > w {
                    w = cw;
                }
            }
            k = k + 1;
        }
        widths.push(w);
        i = i + 1;
    }
    widths
}

fn rule_line(widths: &Vec<usize>) -> (r: String)
    ensures
        r@ == rule_of(widths@.map_values(|w: usize| w as int)),
{
    let ghost ws = widths@.map_values(|w: usize| w as int);
    let ghost parts = Seq::new(ws.len(), |i: int| repeat("─"@, ws[i] as nat));
    let mut out: Vec<char> = Vec::new();
    let mut i: usize = 0;
    while i < widths.len()
        invariant
            ws == widths@.map_values(|w: usize| w as int),
            parts == Seq::new(ws.len(), |i: int| repeat("─"@, ws[i] as nat)),
            0 <= i <= widths.len(),
            out@ == crate::text::join(parts.take(i as int), "─┼─"@),
        decreases widths.len() - i,
    {
        if i > 0 {
            push_str(&mut out, "─┼─");
        }
        let piece = repeat_str("─", widths[i]);
        push_str(&mut out, piece.as_str());
        proof {
            assert(parts.take(i + 1).drop_last() =~= parts.take(i as int));
            assert(parts.take(i + 1).last() == piece@);
            if i == 0 {
                assert(parts.take(1).len() == 1);
            }
        }
        i = i + 1;
    }
    assert(parts.take(widths.len() as int) =~= parts);
    string_of(&out)
}


/// Every chunk of the rows refers to one of the first `n` links, if any.
pub open spec fn chunk_links_ok(rows: Seq<Seq<Seq<ChunkV>>>, n: int) -> bool {
    forall|a: int, b: int, c: int|
        0 <= a < rows.len() && 0 <= b < rows[a].len() && 0 <= c < rows[a][b].len() ==> link_ok(
            (#[trigger] rows[a][b][c]).2,
            n,
        )
}

impl Renderer {
    fn cell_chunks(&mut self, cell: &Vec<Chunk>, header: bool)
        requires
            old(self).wf(),
            forall|c: int| 0 <= c < cell@.len() ==> link_ok((#[trigger] chunks_view(cell@)[c]).2, old(self)@.links.len() as int),
        ensures
            final(self).wf(),
            final(self)@ == cell_chunks_of(old(self)@, chunks_view(cell@), header, 0),
            final(self)@.links.len() == old(self)@.links.len(),
    {
        let ghost cv = chunks_view(cell@);
        let ghost target = cell_chunks_of(self@, cv, header, 0);
        let ghost n0 = self@.links.len();
        let mut j: usize = 0;
        while j < cell.len()
            invariant
                self.wf(),
                cv == chunks_view(cell@),
                0 <= j <= cell.len(),
                self@.links.len() == n0,
                forall|c: int| 0 <= c < cell@.len() ==> link_ok((#[trigger] cv[c]).2, n0 as int),
                cell_chunks_of(self@, cv, header, j as int) == target,
            decreases cell.len() - j,
        {
            let c = &cell[j];
            assert(cv[j as int] == chunk_view(*c));
            let style = if header {
                Style { bold: true, ..c.style }
            } else {
                c.style
            };
            self.emit(&c.text, style, c.link);
            j = j + 1;
        }
    }

    fn row_cells(&mut self, row: &Vec<Vec<Chunk>>, header: bool, widths: &Vec<usize>)
        requires
            old(self).wf(),
            forall|b: int, c: int|
                0 <= b < row@.len() && 0 <= c < row@[b]@.len() ==> link_ok(
                    (#[trigger] cells_view(row@)[b][c]).2,
                    old(self)@.links.len() as int,
                ),
        ensures
            final(self).wf(),
            final(self)@ == row_cells_of(old(self)@, cells_view(row@), header, widths@.map_values(|w: usize| w as int), 0),
            final(self)@.links.len() == old(self)@.links.len(),
    {
        let ghost rv = cells_view(row@);
        let ghost ws = widths@.map_values(|w: usize| w as int);
        let ghost target = row_cells_of(self@, rv, header, ws, 0);
        let ghost n0 = self@.links.len();
        let mut i: usize = 0;
        while i < widths.len()
            invariant
                self.wf(),
                rv == cells_view(row@),
                ws == widths@.map_values(|w: usize| w as int),
                0 <= i <= widths.len(),
                self@.links.len() == n0,
                forall|b: int, c: int|
                    0 <= b < row@.len() && 0 <= c < row@[b]@.len() ==> link_ok((#[trigger] rv[b][c]).2, n0 as int),
                row_cells_of(self@, rv, header, ws, i as int) == target,
            decreases widths.len() - i,
        {
            if i > 0 {
                let sep = string_of(&chars_of(" │ "));
                self.emit(&sep, dim(), None);
            }
            let mut used: usize = 0;
            if i < row.len() {
                assert(rv[i as int] == chunks_view(row@[i as int]@));
                used = chunks_cols(&row[i]);
                proof {
                    assert forall|c: int| 0 <= c < row@[i as int]@.len() implies link_ok(
                        (#[trigger] chunks_view(row@[i as int]@)[c]).2,
                        self@.links.len() as int,
                    ) by {
                        assert(rv[i as int][c] == chunks_view(row@[i as int]@)[c]);
                    }
                }
                self.cell_chunks(&row[i], header);
            }
            if used < widths[i] {
                let pad = repeat_str(" ", widths[i] - used);
                self.emit(&pad, Style::plain(), None);
            }
            i = i + 1;
        }
    }

    fn end_table(&mut self)
        requires
            old(self).wf(),
        ensures
            final(self).wf(),
            final(self)@ == end_table_of(old(self)@),
    {
        let ghost r0 = self@;
        let t = match self.table.take() {
            None => {
                return;
            },
            Some(t) => t,
        };
        let ghost rows = trows_view(t.rows@);
        let ghost n0 = self@.links.len();
        assert(chunk_links_ok(rows, n0 as int));
        let widths = table_widths(&t.rows);
        let ghost ws = widths@.map_values(|w: usize| w as int);
        assert(ws =~= Seq::new(col_count(rows, rows.len() as int) as nat, |i: int| col_width(rows, i, rows.len() as int)));
        let ghost target = end_table_of(r0);
        let mut k: usize = 0;
        while k < t.rows.len()
            invariant
                self.wf(),
                rows == trows_view(t.rows@),
                ws == widths@.map_values(|w: usize| w as int),
                self@.links.len() == n0,
                chunk_links_ok(rows, n0 as int),
                0 <= k <= t.rows.len(),
                table_rows_of(self@, rows, t.header_rows as int, ws, k as int) == target,
            decreases t.rows.len() - k,
        {
            proof {
                assert(rows[k as int] == cells_view(t.rows@[k as int]@));
                assert forall|b: int, c: int|
                    0 <= b < t.rows@[k as int]@.len() && 0 <= c < t.rows@[k as int]@[b]@.len() implies link_ok(
                    (#[trigger] cells_view(t.rows@[k as int]@)[b][c]).2,
                    self@.links.len() as int,
                ) by {
                    assert(rows[k as int][b][c] == cells_view(t.rows@[k as int]@)[b][c]);
                }
            }
            self.row_cells(&t.rows[k], k < t.header_rows, &widths);
            self.at_line_start = false;
            self.newline();
            if k + 1 == t.header_rows {
                let rule = rule_line(&widths);
                self.emit(&rule, dim(), None);
                self.newline();
            }
            k = k + 1;
        }
    }
}


// ----- events ------------------------------------------------------------------------------

/// What the context answered while an event was handled: a link's target and page title, an
/// image's file and size. Fields the event did not ask for hold nothing of interest.
pub struct Answers {
    pub target: LinkTarget,
    pub title: String,
    pub path: Option<String>,
    pub size: Option<(u16, u16)>,
}

pub struct AnswersV {
    pub target: Target,
    pub title: Seq<char>,
    pub path: Option<Seq<char>>,
    pub size: Option<(u16, u16)>,
}

pub open spec fn answers_view(a: Answers) -> AnswersV {
    AnswersV {
        target: a.target@,
        title: a.title@,
        path: match a.path {
            Some(p) => Some(p@),
            None => None,
        },
        size: a.size,
    }
}

/// `#`s and a space before a heading's text: none for level 1.
pub open spec fn heading_marker(level: u8) -> Seq<char> {
    if level <= 1 {
        seq![]
    } else {
        repeat("#"@, level as nat) + " "@
    }
}

/// Drops the last element, if any (`Vec::pop`).
pub open spec fn dropped<T>(s: Seq<T>) -> Seq<T> {
    if s.len() > 0 {
        s.drop_last()
    } else {
        s
    }
}

pub open spec fn green() -> Style {
    Style { fg: Some(Color::Green), ..plain_style() }
}

pub open spec fn yellow() -> Style {
    Style { fg: Some(Color::Yellow), ..plain_style() }
}

/// A list item starts: its bullet (the next number of an ordered list, which counts up) waits
/// to be written on the item's first line; its continuation lines indent by the bullet's width.
pub open spec fn item_of(r: RView) -> RView {
    let r1 = finish_line_of(r);
    let r2 = if r1.blank_after_nested {
        RView { blank_after_nested: false, ..blank_line_of(r1) }
    } else {
        r1
    };
    let r3 = RView { need_blank: false, ..r2 };
    let numbered = r3.lists.len() > 0 && r3.lists.last() is Some;
    let n = r3.lists.last()->Some_0;
    let bullet = if numbered {
        crate::text::decimal(n as nat) + ". "@
    } else {
        "• "@
    };
    let lists = if numbered {
        r3.lists.update(r3.lists.len() - 1, Some(sat_add_u64(n)))
    } else {
        r3.lists
    };
    let indent = repeat(" "@, width_of(bullet) as nat);
    start_line_of(RView {
        lists,
        prefixes: r3.prefixes.push((indent, plain_style())),
        first_prefix: Some((bullet, yellow())),
        ..r3
    })
}

/// `n + 1`, at most `u64::MAX`.
pub open spec fn sat_add_u64(n: u64) -> u64 {
    if n < u64::MAX {
        (n + 1) as u64
    } else {
        u64::MAX
    }
}

pub open spec fn heading_start_of(r: RView, level: u8) -> RView {
    if level == 1 && r.lines.len() == 0 {
        RView { hiding_title: true, heading: Some((1u8, 0usize, seq![])), ..r }
    } else {
        let r1 = push_style_of(start_block_of(r), heading_style(level));
        let marker = heading_marker(level);
        let r2 = if marker.len() > 0 {
            emit_of(r1, marker, patched(style_of(r1), dim_style()), None)
        } else {
            r1
        };
        RView { heading: Some((level, r2.lines.len() as usize, seq![])), ..r2 }
    }
}

pub open spec fn code_start_of(r: RView, lang: Seq<char>) -> RView {
    let r1 = start_block_of(r);
    let r2 = if lang.len() > 0 {
        newline_of(emit_of(r1, lang + " "@, dim_style(), None))
    } else {
        r1
    };
    RView { in_code_block: true, ..start_line_of(RView { prefixes: r2.prefixes.push(("  "@, plain_style())), ..r2 }) }
}

pub open spec fn quote_start_of(r: RView) -> RView {
    let r1 = start_block_of(r);
    start_line_of(RView { prefixes: r1.prefixes.push(("│ "@, green())), ..r1 })
}

pub open spec fn list_start_of(r: RView, start: Option<u64>) -> RView {
    let r1 = if r.lists.len() == 0 {
        start_block_of(r)
    } else {
        finish_line_of(r)
    };
    RView { lists: r1.lists.push(start), ..r1 }
}

pub open spec fn table_row_of(r: RView) -> RView {
    match r.table {
        Some((rows, hr)) => RView { table: Some((rows.push(seq![]), hr)), ..r },
        None => r,
    }
}

pub open spec fn table_cell_of(r: RView) -> RView {
    match r.table {
        Some((rows, hr)) => if rows.len() > 0 {
            RView { table: Some((rows.update(rows.len() - 1, rows.last().push(seq![])), hr)), ..r }
        } else {
            r
        },
        None => r,
    }
}

pub open spec fn footnote_start_of(r: RView, name: Seq<char>) -> RView {
    let r1 = start_block_of(r);
    emit_of(r1, "[^"@ + name + "]: "@, patched(style_of(r1), dim_style()), None)
}

pub open spec fn start_of(r: RView, tag: TagV, ans: AnswersV) -> RView {
    match tag {
        TagV::Paragraph => start_block_of(r),
        TagV::Heading(level) => heading_start_of(r, level),
        TagV::BlockQuote => quote_start_of(r),
        TagV::CodeBlock(lang) => code_start_of(r, lang),
        TagV::List(start) => list_start_of(r, start),
        TagV::Item => item_of(r),
        TagV::Emphasis => push_style_of(r, Style { italic: true, ..plain_style() }),
        TagV::Strong => push_style_of(r, Style { bold: true, ..plain_style() }),
        TagV::Strikethrough => push_style_of(r, Style { crossed_out: true, ..plain_style() }),
        TagV::Link { wiki, piped, dest } => start_link_of(r, wiki, piped, dest, ans.target, ans.title),
        TagV::Image(dest) => RView { image_alt: Some((dest, seq![])), ..r },
        TagV::Table => RView { table: Some((seq![], 0usize)), ..start_block_of(r) },
        TagV::TableHead | TagV::TableRow => table_row_of(r),
        TagV::TableCell => table_cell_of(r),
        TagV::FootnoteDefinition(name) => footnote_start_of(r, name),
        TagV::MetadataBlock => RView { skip_text: true, ..r },
        TagV::HtmlBlock => start_block_of(r),
        TagV::Other => r,
    }
}

/// A heading ends: it joins the outline, its words joined by single spaces.
pub open spec fn heading_end_of(r: RView) -> RView {
    let r1 = match r.heading {
        Some((l, n, t)) => RView {
            heading: None,
            headings: r.headings.push((l as int, crate::text::join(crate::text::words(t), " "@), n as int)),
            ..r
        },
        None => r,
    };
    if r1.hiding_title {
        RView { hiding_title: false, ..r1 }
    } else {
        end_block_of(pop_style_of(r1))
    }
}

pub open spec fn end_of(r: RView, tag: MdTagEnd, ans: AnswersV) -> RView {
    match tag {
        MdTagEnd::Paragraph | MdTagEnd::HtmlBlock | MdTagEnd::FootnoteDefinition => end_block_of(r),
        MdTagEnd::Heading => heading_end_of(r),
        MdTagEnd::BlockQuote => {
            let r1 = finish_line_of(r);
            start_line_of(RView { prefixes: dropped(r1.prefixes), need_blank: true, ..r1 })
        },
        MdTagEnd::CodeBlock => {
            let r1 = finish_line_of(r);
            start_line_of(RView { in_code_block: false, prefixes: dropped(r1.prefixes), need_blank: true, ..r1 })
        },
        MdTagEnd::List => {
            let r1 = finish_line_of(RView { lists: dropped(r.lists), ..r });
            RView { need_blank: r1.lists.len() == 0, blank_after_nested: r1.lists.len() > 0, ..r1 }
        },
        MdTagEnd::Item => {
            let r1 = finish_line_of(r);
            start_line_of(RView { prefixes: dropped(r1.prefixes), first_prefix: None, need_blank: false, ..r1 })
        },
        MdTagEnd::Emphasis | MdTagEnd::Strong | MdTagEnd::Strikethrough => pop_style_of(r),
        MdTagEnd::Link => end_link_of(r),
        MdTagEnd::Image => end_image_of(r, ans.path, ans.size),
        MdTagEnd::Table => end_block_of(end_table_of(r)),
        MdTagEnd::TableHead => match r.table {
            Some((rows, _)) => RView { table: Some((rows, rows.len() as usize)), ..r },
            None => r,
        },
        MdTagEnd::MetadataBlock => RView { skip_text: false, ..r },
        MdTagEnd::Other => r,
    }
}

/// A task checkbox: it takes the bullet's place, and the item's continuation lines indent to
/// its width.
pub open spec fn task_of(r: RView, done: bool, start: usize, end: usize) -> RView {
    let mark = if done {
        "✅ "@
    } else {
        "⬛ "@
    };
    let indent = repeat(" "@, width_of(mark) as nat);
    let r1 = RView {
        prefixes: if r.prefixes.len() > 0 {
            r.prefixes.update(r.prefixes.len() - 1, (indent, plain_style()))
        } else {
            r.prefixes
        },
        first_prefix: Some((mark, plain_style())),
        ..r
    };
    let r2 = if r1.at_line_start {
        start_line_of(r1)
    } else {
        r1
    };
    RView {
        tasks: r2.tasks.push((r2.lines.len() as usize, sat_sub(r2.prefixes.len() as int, 1) as usize, start, end)),
        items: r2.items.push(Item::Task(r2.tasks.len() as usize)),
        ..r2
    }
}

/// Text: for the hidden title, the image's alt text, a code block, or the page.
pub open spec fn text_of(r: RView, t: Seq<char>) -> RView {
    if r.hiding_title {
        match r.heading {
            Some((l, n, h)) => RView { heading: Some((l, n, h + t)), ..r },
            None => r,
        }
    } else if r.image_alt is Some {
        RView { image_alt: Some((r.image_alt->Some_0.0, r.image_alt->Some_0.1 + t)), ..r }
    } else if r.in_code_block {
        write_code_block_of(r, t)
    } else if !r.skip_text {
        write_of(r, t)
    } else {
        r
    }
}

/// A code span: on a new line if it does not fit on this one.
pub open spec fn code_of(r: RView, c: Seq<char>) -> RView {
    let style = patched(style_of(r), code_style());
    let link = r.cur_link;
    let r1 = if !r.at_line_start && r.cur_width + width_of(c) > r.width {
        newline_of(trim_trailing_of(r))
    } else {
        r
    };
    emit_of(r1, c, style, link)
}

/// A horizontal rule across the page, less the prefixes.
pub open spec fn rule_event_of(r: RView) -> RView {
    let r1 = start_block_of(r);
    end_block_of(emit_of(r1, repeat("─"@, sat_sub(r1.width, spans_width(r1.prefixes)) as nat), dim_style(), None))
}

/// The renderer after one event with its source range, given what the context answered.
pub open spec fn event_of(r: RView, ev: EventV, start: usize, end: usize, ans: AnswersV) -> RView {
    match ev {
        EventV::Start(tag) => start_of(r, tag, ans),
        EventV::End(tag) => end_of(r, tag, ans),
        EventV::Text(t) => text_of(r, t),
        EventV::Code(c) => code_of(r, c),
        EventV::SoftBreak => write_of(r, " "@),
        EventV::HardBreak => newline_of(RView { at_line_start: false, ..trim_trailing_of(r) }),
        EventV::Rule => rule_event_of(r),
        EventV::TaskListMarker(done) => task_of(r, done, start, end),
        EventV::Html(h) => emit_of(r, crate::text::trim_end(h), patched(style_of(r), dim_style()), r.cur_link),
        EventV::FootnoteReference(n) => emit_of(r, "[^"@ + n + "]"@, patched(style_of(r), dim_style()), None),
        EventV::Math(m) => write_of(r, m),
    }
}


fn default_answers() -> (r: Answers)
    ensures
        r.path is None,
        r.size is None,
        answers_view(r) == no_answers(),
{
    Answers { target: LinkTarget::Missing(String::new()), title: String::new(), path: None, size: None }
}

fn pop_span(v: &mut Vec<Span>)
    ensures
        spans_view(final(v)@) == dropped(spans_view(old(v)@)),
{
    if v.len() > 0 {
        let ghost before = spans_view(v@);
        v.pop();
        assert(spans_view(v@) =~= before.drop_last());
    }
}

impl Renderer {
    fn heading_start(&mut self, level: u8)
        requires
            old(self).wf(),
        ensures
            final(self).wf(),
            final(self)@ == heading_start_of(old(self)@, level),
    {
        if level == 1 && self.lines.len() == 0 {
            self.hiding_title = true;
            self.heading = Some((1, 0, String::new()));
            return;
        }
        self.start_block();
        let c = if level == 1 {
            Some(Color::Yellow)
        } else if level == 2 {
            Some(Color::Green)
        } else if level == 3 {
            Some(Color::Blue)
        } else {
            None
        };
        self.push_style(Style { fg: c, bold: true, ..Style::plain() });
        if level > 1 {
            let mut m = chars_of(repeat_str("#", level as usize).as_str());
            push_str(&mut m, " ");
            let marker = string_of(&m);
            let style = self.style().patch(dim());
            self.emit(&marker, style, None);
        }
        self.heading = Some((level, self.lines.len(), String::new()));
    }

    fn code_start(&mut self, lang: &String)
        requires
            old(self).wf(),
        ensures
            final(self).wf(),
            final(self)@ == code_start_of(old(self)@, lang@),
    {
        self.start_block();
        if chars_of(lang.as_str()).len() > 0 {
            let mut t = chars_of(lang.as_str());
            push_str(&mut t, " ");
            self.emit(&string_of(&t), dim(), None);
            self.newline();
        }
        let ghost before = spans_view(self.prefixes@);
        let sp = Span { text: string_of(&chars_of("  ")), style: Style::plain() };
        self.prefixes.push(sp);
        assert(spans_view(self.prefixes@) =~= before.push(("  "@, plain_style())));
        self.start_line();
        self.in_code_block = true;
    }

    fn item(&mut self)
        requires
            old(self).wf(),
        ensures
            final(self).wf(),
            final(self)@ == item_of(old(self)@),
    {
        self.finish_line();
        if self.blank_after_nested {
            self.blank_line();
            self.blank_after_nested = false;
        }
        self.need_blank = false;
        let numbered = self.lists.len() > 0 && self.lists[self.lists.len() - 1].is_some();
        let bullet = if numbered {
            let last = self.lists.len() - 1;
            let n = self.lists[last].unwrap();
            let mut b = crate::text::decimal_of(n);
            push_str(&mut b, ". ");
            let next = if n < u64::MAX {
                n + 1
            } else {
                u64::MAX
            };
            self.lists.set(last, Some(next));
            string_of(&b)
        } else {
            string_of(&chars_of("• "))
        };
        let indent = repeat_str(" ", text_cols(&bullet));
        let ghost before = spans_view(self.prefixes@);
        let sp = Span { text: indent, style: Style::plain() };
        self.prefixes.push(sp);
        assert(spans_view(self.prefixes@) =~= before.push((sp.text@, plain_style())));
        self.first_prefix = Some(Span { text: bullet, style: Style::colored(Color::Yellow) });
        self.start_line();
    }

    fn quote_start(&mut self)
        requires
            old(self).wf(),
        ensures
            final(self).wf(),
            final(self)@ == quote_start_of(old(self)@),
    {
        self.start_block();
        let ghost before = spans_view(self.prefixes@);
        let sp = Span { text: string_of(&chars_of("│ ")), style: Style::colored(Color::Green) };
        self.prefixes.push(sp);
        assert(spans_view(self.prefixes@) =~= before.push(("│ "@, green())));
        self.start_line();
    }

    fn list_start(&mut self, start: Option<u64>)
        requires
            old(self).wf(),
        ensures
            final(self).wf(),
            final(self)@ == list_start_of(old(self)@, start),
    {
        if self.lists.len() == 0 {
            self.start_block();
        } else {
            self.finish_line();
        }
        self.lists.push(start);
    }

    fn footnote_start(&mut self, name: &String)
        requires
            old(self).wf(),
        ensures
            final(self).wf(),
            final(self)@ == footnote_start_of(old(self)@, name@),
    {
        self.start_block();
        let mut t = chars_of("[^");
        push_str(&mut t, name.as_str());
        push_str(&mut t, "]: ");
        let style = self.style().patch(dim());
        self.emit(&string_of(&t), style, None);
    }

    fn table_row(&mut self)
        requires
            old(self).wf(),
        ensures
            final(self).wf(),
            final(self)@ == table_row_of(old(self)@),
    {
        match self.table.take() {
            Some(mut t) => {
                let ghost before = trows_view(t.rows@);
                let fresh: Vec<Vec<Chunk>> = Vec::new();
                assert(cells_view(fresh@) =~= Seq::<Seq<ChunkV>>::empty());
                t.rows.push(fresh);
                assert(trows_view(t.rows@) =~= before.push(seq![]));
                self.table = Some(t);
                proof {
                    let rows = self@.table->Some_0.0;
                    assert forall|a: int, b: int, c: int|
                        0 <= a < rows.len() && 0 <= b < rows[a].len() && 0 <= c < rows[a][b].len() implies link_ok(
                        (#[trigger] rows[a][b][c]).2,
                        self@.links.len() as int,
                    ) by {
                        assert(rows[a] == before[a]);
                    }
                }
            },
            None => {},
        }
    }

    fn table_cell(&mut self)
        requires
            old(self).wf(),
        ensures
            final(self).wf(),
            final(self)@ == table_cell_of(old(self)@),
    {
        match self.table.take() {
            Some(mut t) => {
                if t.rows.len() > 0 {
                    let ghost before = trows_view(t.rows@);
                    let mut row = t.rows.pop().unwrap();
                    let ghost cells0 = cells_view(row@);
                    let fresh: Vec<Chunk> = Vec::new();
                    assert(chunks_view(fresh@) =~= Seq::<ChunkV>::empty());
                    row.push(fresh);
                    assert(cells_view(row@) =~= cells0.push(seq![]));
                    t.rows.push(row);
                    assert(trows_view(t.rows@) =~= before.update(before.len() - 1, cells0.push(seq![])));
                    self.table = Some(t);
                    proof {
                        let rows = self@.table->Some_0.0;
                        assert forall|a: int, b: int, c: int|
                            0 <= a < rows.len() && 0 <= b < rows[a].len() && 0 <= c < rows[a][b].len() implies link_ok(
                            (#[trigger] rows[a][b][c]).2,
                            self@.links.len() as int,
                        ) by {
                            if a == before.len() - 1 {
                                assert(rows[a][b] == cells0.push(seq![])[b]);
                                if b < cells0.len() {
                                    assert(rows[a][b][c] == before[a][b][c]);
                                }
                            } else {
                                assert(rows[a] == before[a]);
                            }
                        }
                    }
                } else {
                    self.table = Some(t);
                }
            },
            None => {},
        }
    }


    fn start_tag(&mut self, tag: &MdTag, ans: &Answers)
        requires
            old(self).wf(),
        ensures
            final(self).wf(),
            final(self)@ == start_of(old(self)@, tag@, answers_view(*ans)),
    {
        match tag {
            MdTag::Paragraph => self.start_block(),
            MdTag::Heading(level) => self.heading_start(*level),
            MdTag::BlockQuote => self.quote_start(),
            MdTag::CodeBlock(lang) => self.code_start(lang),
            MdTag::List(start) => self.list_start(*start),
            MdTag::Item => self.item(),
            MdTag::Emphasis => self.push_style(Style { italic: true, ..Style::plain() }),
            MdTag::Strong => self.push_style(Style { bold: true, ..Style::plain() }),
            MdTag::Strikethrough => self.push_style(Style { crossed_out: true, ..Style::plain() }),
            MdTag::Link { wiki, piped, dest } => {
                self.start_link(*wiki, *piped, dest, copy_target(&ans.target), &ans.title);
            },
            MdTag::Image(dest) => {
                self.image_alt = Some((dest.clone(), String::new()));
            },
            MdTag::Table => {
                self.start_block();
                let rows: Vec<Vec<Vec<Chunk>>> = Vec::new();
                assert(trows_view(rows@) =~= Seq::<Seq<Seq<ChunkV>>>::empty());
                self.table = Some(Table { rows, header_rows: 0 });
            },
            MdTag::TableHead | MdTag::TableRow => self.table_row(),
            MdTag::TableCell => self.table_cell(),
            MdTag::FootnoteDefinition(name) => self.footnote_start(name),
            MdTag::MetadataBlock => {
                self.skip_text = true;
            },
            MdTag::HtmlBlock => self.start_block(),
            MdTag::Other => {},
        }
    }

    fn heading_end(&mut self)
        requires
            old(self).wf(),
        ensures
            final(self).wf(),
            final(self)@ == heading_end_of(old(self)@),
    {
        match self.heading.take() {
            Some((level, line, text)) => {
                let cs = chars_of(text.as_str());
                let ws = crate::text::split_words(&cs, 0, cs.len());
                assert(cs@.subrange(0, cs.len() as int) =~= cs@);
                let sep: Vec<char> = vec![' '];
                assert(sep@ =~= " "@) by {
                    reveal_strlit(" ");
                }
                let joined = crate::text::join_chars(&ws, &sep);
                let ghost before = headings_view(self.headings@);
                let h = Heading { level, text: string_of(&joined), line };
                self.headings.push(h);
                assert(headings_view(self.headings@) =~= before.push(heading_view(h)));
            },
            None => {},
        }
        if self.hiding_title {
            self.hiding_title = false;
        } else {
            self.pop_style();
            self.end_block();
        }
    }

    fn end_tag(&mut self, tag: MdTagEnd, ans: &Answers)
        requires
            old(self).wf(),
        ensures
            final(self).wf(),
            final(self)@ == end_of(old(self)@, tag, answers_view(*ans)),
    {
        match tag {
            MdTagEnd::Paragraph | MdTagEnd::HtmlBlock | MdTagEnd::FootnoteDefinition => self.end_block(),
            MdTagEnd::Heading => self.heading_end(),
            MdTagEnd::BlockQuote => {
                self.finish_line();
                pop_span(&mut self.prefixes);
                self.need_blank = true;
                self.start_line();
            },
            MdTagEnd::CodeBlock => {
                self.finish_line();
                self.in_code_block = false;
                pop_span(&mut self.prefixes);
                self.need_blank = true;
                self.start_line();
            },
            MdTagEnd::List => {
                if self.lists.len() > 0 {
                    self.lists.pop();
                }
                self.finish_line();
                self.need_blank = self.lists.len() == 0;
                self.blank_after_nested = self.lists.len() > 0;
            },
            MdTagEnd::Item => {
                self.finish_line();
                pop_span(&mut self.prefixes);
                self.first_prefix = None;
                self.need_blank = false;
                self.start_line();
            },
            MdTagEnd::Emphasis | MdTagEnd::Strong | MdTagEnd::Strikethrough => self.pop_style(),
            MdTagEnd::Link => self.end_link(),
            MdTagEnd::Image => {
                let path = match &ans.path {
                    Some(p) => Some(p.clone()),
                    None => None,
                };
                self.end_image(path, ans.size);
            },
            MdTagEnd::Table => {
                self.end_table();
                self.end_block();
            },
            MdTagEnd::TableHead => {
                match self.table.take() {
                    Some(mut t) => {
                        t.header_rows = t.rows.len();
                        self.table = Some(t);
                    },
                    None => {},
                }
            },
            MdTagEnd::MetadataBlock => {
                self.skip_text = false;
            },
            MdTagEnd::Other => {},
        }
    }
}


impl Renderer {
    fn task(&mut self, done: bool, start: usize, end: usize)
        requires
            old(self).wf(),
        ensures
            final(self).wf(),
            final(self)@ == task_of(old(self)@, done, start, end),
    {
        let mark = if done {
            string_of(&chars_of("✅ "))
        } else {
            string_of(&chars_of("⬛ "))
        };
        let indent = repeat_str(" ", text_cols(&mark));
        if self.prefixes.len() > 0 {
            let last = self.prefixes.len() - 1;
            let ghost before = spans_view(self.prefixes@);
            let sp = Span { text: indent, style: Style::plain() };
            self.prefixes.set(last, sp);
            assert(spans_view(self.prefixes@) =~= before.update(last as int, span_view(sp)));
        }
        self.first_prefix = Some(Span { text: mark, style: Style::plain() });
        if self.at_line_start {
            self.start_line();
        }
        let ghost tv = tasks_view(self.tasks@);
        let span = if self.prefixes.len() > 0 {
            self.prefixes.len() - 1
        } else {
            0
        };
        let slot = TaskSlot { line: self.lines.len(), span, source: start..end };
        self.tasks.push(slot);
        assert(tasks_view(self.tasks@) =~= tv.push(task_view(slot)));
        self.items.push(Item::Task(self.tasks.len() - 1));
    }

    fn text(&mut self, t: &String)
        requires
            old(self).wf(),
        ensures
            final(self).wf(),
            final(self)@ == text_of(old(self)@, t@),
    {
        if self.hiding_title {
            match self.heading.take() {
                Some((l, n, h)) => {
                    self.heading = Some((l, n, concat(&h, t)));
                },
                None => {},
            }
        } else if self.image_alt.is_some() {
            match self.image_alt.take() {
                Some((d, a)) => {
                    self.image_alt = Some((d, concat(&a, t)));
                },
                None => {},
            }
        } else if self.in_code_block {
            self.write_code_block(t);
        } else if !self.skip_text {
            self.write(t);
        }
    }

    fn code(&mut self, c: &String)
        requires
            old(self).wf(),
        ensures
            final(self).wf(),
            final(self)@ == code_of(old(self)@, c@),
    {
        let style = self.style().patch(Style::colored(Color::Magenta));
        let link = self.cur_link;
        let w = text_cols(c);
        if !self.at_line_start && (w > self.width || self.cur_width > self.width - w) {
            self.trim_trailing_space();
            self.newline();
        }
        self.emit(c, style, link);
    }

    fn rule(&mut self)
        requires
            old(self).wf(),
        ensures
            final(self).wf(),
            final(self)@ == rule_event_of(old(self)@),
    {
        self.start_block();
        let n = self.width.saturating_sub(self.prefix_width());
        let rule = repeat_str("─", n);
        self.emit(&rule, dim(), None);
        self.end_block();
    }

    /// Handles one event with its source range, asking the context where a link leads (and a
    /// page's title) or where an image is (and its size); returns what it answered.
    /// What handling `ev` asks of the context.
    pub fn question(&self, ev: &MdEvent) -> (q: Question)
        ensures
            q@ == question_of(self@, ev@),
    {
        match ev {
            MdEvent::Start(MdTag::Link { wiki, piped, dest }) => Question::Link {
                dest: dest.clone(),
                wants_title: *wiki && !*piped,
            },
            MdEvent::End(MdTagEnd::Image) => match self.image_dest() {
                Some(dest) => {
                    let (mw, mh) = self.image_bounds();
                    Question::Image { dest, max_width: mw, max_height: mh }
                },
                None => Question::Nothing,
            },
            _ => Question::Nothing,
        }
    }

    /// Handles event `ev` (found at `start..end` of the source), given what the context
    /// answered to `question`.
    pub fn event(&mut self, ev: &MdEvent, start: usize, end: usize, ans: &Answers)
        requires
            old(self).wf(),
        ensures
            final(self).wf(),
            final(self)@ == event_of(old(self)@, ev@, start, end, answers_view(*ans)),
    {
        match ev {
            MdEvent::Start(tag) => self.start_tag(tag, ans),
            MdEvent::End(tag) => self.end_tag(*tag, ans),
            MdEvent::Text(t) => self.text(t),
            MdEvent::Code(c) => self.code(c),
            MdEvent::SoftBreak => {
                let sp = string_of(&chars_of(" "));
                self.write(&sp);
            },
            MdEvent::HardBreak => {
                self.trim_trailing_space();
                self.at_line_start = false;
                self.newline();
            },
            MdEvent::Rule => self.rule(),
            MdEvent::TaskListMarker(done) => self.task(*done, start, end),
            MdEvent::Html(h) => {
                let style = self.style().patch(dim());
                let link = self.cur_link;
                self.emit(&trimmed_end(h), style, link);
            },
            MdEvent::FootnoteReference(name) => {
                let mut t = chars_of("[^");
                push_str(&mut t, name.as_str());
                push_str(&mut t, "]");
                let style = self.style().patch(dim());
                self.emit(&string_of(&t), style, None);
            },
            MdEvent::Math(m) => self.write(m),
        }
    }
}


// ----- a whole page ------------------------------------------------------------------------

/// A fresh renderer for a page `width` columns wide (at least ten) and `height` rows tall (at
/// least five; it only bounds images).
pub open spec fn initial_of(width: u16, height: u16) -> RView {
    start_line_of(
        RView {
            width: if width < 10 {
                10
            } else {
                width as int
            },
            height: if height < 5 {
                5
            } else {
                height
            },
            lines: seq![],
            cur: seq![],
            cur_width: 0,
            at_line_start: true,
            need_blank: false,
            prefixes: seq![],
            first_prefix: None,
            styles: seq![plain_style()],
            links: seq![],
            cur_link: None,
            images: seq![],
            items: seq![],
            headings: seq![],
            tasks: seq![],
            heading: None,
            lists: seq![],
            in_code_block: false,
            blank_after_nested: false,
            image_alt: None,
            skip_text: false,
            hiding_title: false,
            table: None,
        },
    )
}

/// The renderer after the first `k` events, the context having answered `ans`.
/// Nothing asked.
pub open spec fn no_answers() -> AnswersV {
    AnswersV { target: Target::Missing(seq![]), title: seq![], path: None, size: None }
}

/// What the renderer asks the context while handling an event.
pub enum Question {
    Nothing,
    /// Where link destination `dest` leads; with `wants_title`, also the title of the page it
    /// leads to, if it leads to one.
    Link { dest: String, wants_title: bool },
    /// The file image destination `dest` names and, if there is one, the image's size when
    /// prepared within `max_width` x `max_height` cells.
    Image { dest: String, max_width: u16, max_height: u16 },
}

pub enum QuestionV {
    Nothing,
    Link { dest: Seq<char>, wants_title: bool },
    Image { dest: Seq<char>, max_width: u16, max_height: u16 },
}

impl View for Question {
    type V = QuestionV;

    open spec fn view(&self) -> QuestionV {
        match self {
            Question::Nothing => QuestionV::Nothing,
            Question::Link { dest, wants_title } => QuestionV::Link { dest: dest@, wants_title: *wants_title },
            Question::Image { dest, max_width, max_height } => QuestionV::Image {
                dest: dest@,
                max_width: *max_width,
                max_height: *max_height,
            },
        }
    }
}

/// What handling event `ev` in state `r` asks: a link's destination, and for a wiki link
/// without its own text the title of the page it leads to; at the end of an image, its
/// destination and its size within the page area beside the prefixes, less the frame
/// (`image_bounds_of`).
pub open spec fn question_of(r: RView, ev: EventV) -> QuestionV {
    match ev {
        EventV::Start(TagV::Link { wiki, piped, dest }) => QuestionV::Link { dest, wants_title: wiki && !piped },
        EventV::End(MdTagEnd::Image) => match r.image_alt {
            Some((dest, _)) => QuestionV::Image {
                dest,
                max_width: image_bounds_of(r).0,
                max_height: image_bounds_of(r).1,
            },
            None => QuestionV::Nothing,
        },
        _ => QuestionV::Nothing,
    }
}

/// The answers context `c` gives to question `q`: for a link, where its destination leads and,
/// when a title is wanted and it leads to a page, that page's title; for an image, the file
/// its destination names and, for a file, its size within the question's bounds. Nothing
/// else is heard.
pub open spec fn answered<C: Context>(c: C, q: QuestionV, a: AnswersV) -> bool {
    match q {
        QuestionV::Nothing => a == no_answers(),
        QuestionV::Link { dest, wants_title } => a == AnswersV {
            target: c.resolves(dest),
            title: match c.resolves(dest) {
                Target::Page(id) => if wants_title {
                    c.titles(id)
                } else {
                    Seq::<char>::empty()
                },
                _ => Seq::<char>::empty(),
            },
            path: None,
            size: None,
        },
        QuestionV::Image { dest, max_width, max_height } => a == AnswersV {
            target: Target::Missing(Seq::<char>::empty()),
            title: Seq::<char>::empty(),
            path: c.paths(dest),
            size: match c.paths(dest) {
                Some(p) => c.sizes(p, max_width, max_height),
                None => None,
            },
        },
    }
}

/// Puts question `q` to the context: `resolve` with the link's destination, then `title` with
/// the page it leads to when a title is wanted; `image_path` with the image's destination,
/// then `image_size` with the file it names and the question's bounds.
pub fn ask<C: Context>(ctx: &mut C, q: &Question) -> (a: Answers)
    ensures
        answered(*old(ctx), q@, answers_view(a)),
        !(q@ is Image) ==> *final(ctx) == *old(ctx),
{
    match q {
        Question::Nothing => default_answers(),
        Question::Link { dest, wants_title } => {
            let target = ctx.resolve(dest.as_str());
            let title = match &target {
                LinkTarget::Page(id) => if *wants_title {
                    ctx.title(id.as_str())
                } else {
                    String::new()
                },
                _ => String::new(),
            };
            Answers { target, title, path: None, size: None }
        },
        Question::Image { dest, max_width, max_height } => {
            let path = ctx.image_path(dest.as_str());
            let size = match &path {
                Some(p) => ctx.image_size(p.as_str(), *max_width, *max_height),
                None => None,
            };
            Answers { target: LinkTarget::Missing(String::new()), title: String::new(), path, size }
        },
    }
}

pub open spec fn run_of(r: RView, evs: Seq<(EventV, usize, usize)>, ans: Seq<AnswersV>, k: int) -> RView
    decreases k,
{
    if k <= 0 || k > evs.len() {
        r
    } else {
        let e = evs[k - 1];
        event_of(run_of(r, evs, ans, k - 1), e.0, e.1, e.2, ans[k - 1])
    }
}

/// A line with nothing visible on it.
pub open spec fn is_blank(l: Seq<SpanV>) -> bool {
    forall|i: int| 0 <= i < l.len() ==> width_of(#[trigger] l[i].0) == 0
}

/// The lines without the blank ones at the end.
pub open spec fn trim_blank(ls: Seq<Seq<SpanV>>) -> Seq<Seq<SpanV>>
    decreases ls.len(),
{
    if ls.len() > 0 && is_blank(ls.last()) {
        trim_blank(ls.drop_last())
    } else {
        ls
    }
}

/// A rendered page as text.
pub struct PageV {
    pub lines: Seq<Seq<SpanV>>,
    pub links: Seq<(Target, Seq<(usize, usize)>)>,
    pub images: Seq<(Seq<char>, usize, u16, u16, u16, u16, u16)>,
    pub items: Seq<Item>,
    pub headings: Seq<(int, Seq<char>, int)>,
    pub tasks: Seq<(usize, usize, usize, usize)>,
}

/// The page once the last line is ended and trailing blank lines are gone.
pub open spec fn page_of(r: RView) -> PageV {
    let r1 = finish_line_of(r);
    PageV {
        lines: trim_blank(r1.lines),
        links: r1.links,
        images: r1.images,
        items: r1.items,
        headings: r1.headings,
        tasks: r1.tasks,
    }
}

pub open spec fn page_view(p: Rendered) -> PageV {
    PageV {
        lines: lines_view(p.lines@),
        links: links_view(p.links@),
        images: images_view(p.images@),
        items: p.items@,
        headings: headings_view(p.headings@),
        tasks: tasks_view(p.tasks@),
    }
}

fn line_is_blank(l: &Line) -> (r: bool)
    ensures
        r == is_blank(line_view(*l)),
{
    let mut i: usize = 0;
    while i < l.spans.len()
        invariant
            0 <= i <= l.spans.len(),
            forall|j: int| 0 <= j < i ==> width_of(#[trigger] line_view(*l)[j].0) == 0,
        decreases l.spans.len() - i,
    {
        if text_cols(&l.spans[i].text) != 0 {
            assert(line_view(*l)[i as int].0 == l.spans@[i as int].text@);
            return false;
        }
        i = i + 1;
    }
    true
}

impl Renderer {
    pub fn new(width: u16, height: u16) -> (r: Renderer)
        ensures
            r.wf(),
            r@ == initial_of(width, height),
    {
        let mut styles: Vec<Style> = Vec::new();
        styles.push(Style::plain());
        let mut r = Renderer {
            width: if width < 10 {
                10
            } else {
                width as usize
            },
            height: if height < 5 {
                5
            } else {
                height
            },
            lines: Vec::new(),
            cur: Vec::new(),
            cur_width: 0,
            at_line_start: true,
            need_blank: false,
            prefixes: Vec::new(),
            first_prefix: None,
            styles,
            links: Vec::new(),
            cur_link: None,
            images: Vec::new(),
            items: Vec::new(),
            headings: Vec::new(),
            tasks: Vec::new(),
            heading: None,
            lists: Vec::new(),
            in_code_block: false,
            blank_after_nested: false,
            image_alt: None,
            skip_text: false,
            hiding_title: false,
            table: None,
        };
        proof {
            assert(r@.lines =~= Seq::<Seq<SpanV>>::empty());
            assert(r@.cur =~= Seq::<SpanV>::empty());
            assert(r@.prefixes =~= Seq::<SpanV>::empty());
            assert(r@.styles =~= seq![plain_style()]);
            assert(r@.links =~= Seq::<(Target, Seq<(usize, usize)>)>::empty());
            assert(r@.images =~= Seq::<(Seq<char>, usize, u16, u16, u16, u16, u16)>::empty());
            assert(r@.items =~= Seq::<Item>::empty());
            assert(r@.headings =~= Seq::<(int, Seq<char>, int)>::empty());
            assert(r@.tasks =~= Seq::<(usize, usize, usize, usize)>::empty());
            assert(r@.lists =~= Seq::<Option<u64>>::empty());
        }
        r.start_line();
        r
    }

    /// Ends the last line, drops the blank lines at the end and hands the page over.
    pub fn finish(self) -> (p: Rendered)
        requires
            self.wf(),
        ensures
            page_view(p) == page_of(self@),
    {
        let mut r = self;
        r.finish_line();
        let ghost r1 = r@;
        let ghost target = trim_blank(r@.lines);
        while r.lines.len() > 0 && line_is_blank(&r.lines[r.lines.len() - 1])
            invariant
                trim_blank(lines_view(r.lines@)) == target,
                links_view(r.links@) == r1.links,
                images_view(r.images@) == r1.images,
                r.items@ == r1.items,
                headings_view(r.headings@) == r1.headings,
                tasks_view(r.tasks@) == r1.tasks,
            decreases r.lines.len(),
        {
            let ghost before = lines_view(r.lines@);
            r.lines.pop();
            assert(lines_view(r.lines@) =~= before.drop_last());
        }
        Rendered { lines: r.lines, links: r.links, images: r.images, items: r.items, headings: r.headings, tasks: r.tasks }
    }
}

/// Renders `markdown` for a page area `width` columns wide and `height` rows tall (the height
/// only bounds images; the page itself scrolls). The page is what the events of the parser make
/// of a fresh renderer, each event given the context's answers to its question.
#[verifier::rlimit(40)]
pub fn render<C: Context>(markdown: &str, width: u16, height: u16, ctx: &mut C) -> (p: Rendered)
    ensures
        exists|ans: Seq<AnswersV>, cs: Seq<C>|
            {
                &&& ans.len() == md_events(markdown@).len()
                &&& cs.len() == ans.len() + 1
                &&& cs[0] == *old(ctx)
                &&& cs.last() == *final(ctx)
                &&& answered_upto(initial_of(width, height), md_events(markdown@), ans, cs, ans.len() as int)
                &&& page_view(p) == page_of(
                    run_of(initial_of(width, height), md_events(markdown@), ans, md_events(markdown@).len() as int),
                )
            },
{
    let events = parse_markdown(markdown);
    let ghost evs = events_view(events@);
    let mut r = Renderer::new(width, height);
    let ghost mut ans: Seq<AnswersV> = seq![];
    let ghost mut cs: Seq<C> = seq![*ctx];
    let mut k: usize = 0;
    while k < events.len()
        invariant
            evs == events_view(events@),
            evs == md_events(markdown@),
            r.wf(),
            0 <= k <= events.len(),
            ans.len() == k,
            cs.len() == k + 1,
            cs[0] == *old(ctx),
            cs.last() == *ctx,
            r@ == run_of(initial_of(width, height), evs, ans, k as int),
            answered_upto(initial_of(width, height), evs, ans, cs, k as int),
        decreases events.len() - k,
    {
        let (ev, start, end) = (&events[k].0, events[k].1, events[k].2);
        let q = r.question(ev);
        let ghost before = *ctx;
        let a = ask(ctx, &q);
        r.event(ev, start, end, &a);
        proof {
            assert(evs[k as int] == located_view(events@[k as int]));
            lemma_answers_grow(initial_of(width, height), evs, ans, cs, answers_view(a), *ctx);
            ans = ans.push(answers_view(a));
            cs = cs.push(*ctx);
        }
        k = k + 1;
    }
    r.finish()
}

/// Each of the first `k` answers is what the context, in the state `cs` records before that
/// event, answers to the question of the event asked in the state the events before it left;
/// only an image question may change the context.
pub open spec fn answered_upto<C: Context>(
    r: RView,
    evs: Seq<(EventV, usize, usize)>,
    ans: Seq<AnswersV>,
    cs: Seq<C>,
    k: int,
) -> bool
    decreases k,
{
    if k <= 0 {
        true
    } else {
        let q = question_of(run_of(r, evs, ans, k - 1), evs[k - 1].0);
        &&& answered_upto(r, evs, ans, cs, k - 1)
        &&& answered(cs[k - 1], q, ans[k - 1])
        &&& !(q is Image) ==> cs[k] == cs[k - 1]
    }
}

proof fn lemma_answered_prefix<C: Context>(
    r: RView,
    evs: Seq<(EventV, usize, usize)>,
    a: Seq<AnswersV>,
    b: Seq<AnswersV>,
    ca: Seq<C>,
    cb: Seq<C>,
    k: int,
)
    requires
        0 <= k <= a.len(),
        k <= b.len(),
        k < ca.len(),
        k < cb.len(),
        forall|i: int| 0 <= i < k ==> a[i] == b[i],
        forall|i: int| 0 <= i <= k ==> ca[i] == cb[i],
    ensures
        answered_upto(r, evs, a, ca, k) == answered_upto(r, evs, b, cb, k),
    decreases k,
{
    if k > 0 {
        lemma_answered_prefix(r, evs, a, b, ca, cb, k - 1);
        lemma_run_prefix(r, evs, a, b, k - 1);
    }
}

/// Answering one more event keeps the runs before it, and the answers being the context's.
proof fn lemma_answers_grow<C: Context>(
    r: RView,
    evs: Seq<(EventV, usize, usize)>,
    ans: Seq<AnswersV>,
    cs: Seq<C>,
    a: AnswersV,
    c: C,
)
    requires
        ans.len() < evs.len(),
        cs.len() == ans.len() + 1,
        answered_upto(r, evs, ans, cs, ans.len() as int),
        answered(cs.last(), question_of(run_of(r, evs, ans, ans.len() as int), evs[ans.len() as int].0), a),
        !(question_of(run_of(r, evs, ans, ans.len() as int), evs[ans.len() as int].0) is Image) ==> c == cs.last(),
    ensures
        run_of(r, evs, ans.push(a), ans.len() as int) == run_of(r, evs, ans, ans.len() as int),
        run_of(r, evs, ans.push(a), ans.len() + 1int) == event_of(
            run_of(r, evs, ans, ans.len() as int),
            evs[ans.len() as int].0,
            evs[ans.len() as int].1,
            evs[ans.len() as int].2,
            a,
        ),
        answered_upto(r, evs, ans.push(a), cs.push(c), ans.len() + 1int),
{
    let b = ans.push(a);
    let cb = cs.push(c);
    lemma_run_prefix(r, evs, ans, b, ans.len() as int);
    lemma_answered_prefix(r, evs, ans, b, cs, cb, ans.len() as int);
    assert(b[ans.len() as int] == a);
    assert(cb[ans.len() as int] == cs.last());
    assert(cb[ans.len() + 1int] == c);
}

/// Runs only look at the answers for the events they handle.
proof fn lemma_run_prefix(r: RView, evs: Seq<(EventV, usize, usize)>, a: Seq<AnswersV>, b: Seq<AnswersV>, k: int)
    requires
        0 <= k <= a.len(),
        k <= b.len(),
        forall|i: int| 0 <= i < k ==> a[i] == b[i],
    ensures
        run_of(r, evs, a, k) == run_of(r, evs, b, k),
    decreases k,
{
    if k > 0 {
        lemma_run_prefix(r, evs, a, b, k - 1);
    }
}


pub open spec fn ends_view(open: Seq<TagV>) -> Seq<MdTagEnd> {
    open.map_values(|t: TagV| end_for(t))
}

fn tag_exec(b: BlockKind, i: InlineKind, t: &String, f: (Option<u64>, bool, bool)) -> (r: MdTag)
    ensures
        r@ == tag_of(b, i, t@, f),
{
    match b {
        BlockKind::Paragraph => MdTag::Paragraph,
        BlockKind::Heading => MdTag::Heading(
            match f.0 {
                Some(n) => n as u8,
                None => 0,
            },
        ),
        BlockKind::BlockQuote => MdTag::BlockQuote,
        BlockKind::CodeBlock => MdTag::CodeBlock(t.clone()),
        BlockKind::List => MdTag::List(f.0),
        BlockKind::Item => MdTag::Item,
        BlockKind::FootnoteDefinition => MdTag::FootnoteDefinition(t.clone()),
        BlockKind::MetadataBlock => MdTag::MetadataBlock,
        BlockKind::HtmlBlock => MdTag::HtmlBlock,
        BlockKind::Other => match i {
            InlineKind::Emphasis => MdTag::Emphasis,
            InlineKind::Strong => MdTag::Strong,
            InlineKind::Strikethrough => MdTag::Strikethrough,
            InlineKind::Link => MdTag::Link { wiki: f.1, piped: f.2, dest: t.clone() },
            InlineKind::Image => MdTag::Image(t.clone()),
            InlineKind::Table => MdTag::Table,
            InlineKind::TableHead => MdTag::TableHead,
            InlineKind::TableRow => MdTag::TableRow,
            InlineKind::TableCell => MdTag::TableCell,
            InlineKind::Other => MdTag::Other,
        },
    }
}

fn end_exec(t: &MdTag) -> (r: MdTagEnd)
    ensures
        r == end_for(t@),
{
    match t {
        MdTag::Paragraph => MdTagEnd::Paragraph,
        MdTag::Heading(_) => MdTagEnd::Heading,
        MdTag::BlockQuote => MdTagEnd::BlockQuote,
        MdTag::CodeBlock(_) => MdTagEnd::CodeBlock,
        MdTag::List(_) => MdTagEnd::List,
        MdTag::Item => MdTagEnd::Item,
        MdTag::Emphasis => MdTagEnd::Emphasis,
        MdTag::Strong => MdTagEnd::Strong,
        MdTag::Strikethrough => MdTagEnd::Strikethrough,
        MdTag::Link { .. } => MdTagEnd::Link,
        MdTag::Image(_) => MdTagEnd::Image,
        MdTag::Table => MdTagEnd::Table,
        MdTag::TableHead => MdTagEnd::TableHead,
        MdTag::FootnoteDefinition(_) => MdTagEnd::FootnoteDefinition,
        MdTag::MetadataBlock => MdTagEnd::MetadataBlock,
        MdTag::HtmlBlock => MdTagEnd::HtmlBlock,
        MdTag::TableRow | MdTag::TableCell | MdTag::Other => MdTagEnd::Other,
    }
}

/// The Markdown parser's events for a text, with their source byte ranges.
pub fn parse_markdown(text: &str) -> (r: Vec<(MdEvent, usize, usize)>)
    ensures
        events_view(r@) == md_events(text@),
{
    let kinds = parse_kinds(text);
    let blocks = parse_blocks(text);
    let inlines = parse_inlines(text);
    let texts = parse_texts(text);
    let flags = parse_flags(text);
    let ranges = parse_ranges(text);
    let mut out: Vec<(MdEvent, usize, usize)> = Vec::new();
    let mut open: Vec<MdTagEnd> = Vec::new();
    let mut k: usize = 0;
    while k < kinds.len()
        invariant
            kinds@ == md_kinds(text@),
            blocks@ == md_blocks(text@),
            inlines@ == md_inlines(text@),
            crate::wiki::strings(texts@) == md_texts(text@),
            flags@ == md_flags(text@),
            ranges@ == md_ranges(text@),
            blocks@.len() == kinds@.len(),
            inlines@.len() == kinds@.len(),
            texts@.len() == kinds@.len(),
            flags@.len() == kinds@.len(),
            ranges@.len() == kinds@.len(),
            0 <= k <= kinds.len(),
            events_view(out@) == events_upto(text@, k as int).0,
            open@ == ends_view(events_upto(text@, k as int).1),
        decreases kinds.len() - k,
    {
        let ghost prev = events_upto(text@, k as int);
        let t = &texts[k];
        assert(md_texts(text@)[k as int] == t@);
        let (start, end) = ranges[k];
        let ev = match kinds[k] {
            EvKind::Start => {
                let tag = tag_exec(blocks[k], inlines[k], t, flags[k]);
                let ghost before = open@;
                open.push(end_exec(&tag));
                assert(open@ =~= ends_view(prev.1.push(tag@)));
                MdEvent::Start(tag)
            },
            EvKind::End => {
                if open.len() > 0 {
                    let e = open.pop().unwrap();
                    assert(open@ =~= ends_view(prev.1.drop_last()));
                    MdEvent::End(e)
                } else {
                    MdEvent::End(MdTagEnd::Other)
                }
            },
            EvKind::Text => MdEvent::Text(t.clone()),
            EvKind::Code => MdEvent::Code(t.clone()),
            EvKind::Math => MdEvent::Math(t.clone()),
            EvKind::Html => MdEvent::Html(t.clone()),
            EvKind::FootnoteReference => MdEvent::FootnoteReference(t.clone()),
            EvKind::SoftBreak => MdEvent::SoftBreak,
            EvKind::HardBreak => MdEvent::HardBreak,
            EvKind::Rule => MdEvent::Rule,
            EvKind::TaskListMarker => MdEvent::TaskListMarker(flags[k].1),
        };
        let ghost before = events_view(out@);
        let item = (ev, start, end);
        out.push(item);
        assert(events_view(out@) =~= before.push(located_view(item)));
        k = k + 1;
    }
    out
}

/// An ordered list counts from its own first number: its first item's bullet is that number
/// and a dot, and the counter goes one up with each item; a bullet list's items get `• `.
pub proof fn an_ordered_list_counts_from_its_first_number(
    r: RView,
    n: u64,
    s: usize,
    e: usize,
    a: AnswersV,
    b: AnswersV,
)
    ensures
        ({
            let r1 = event_of(r, EventV::Start(TagV::List(Some(n))), s, e, a);
            let r2 = event_of(r1, EventV::Start(TagV::Item), s, e, b);
            &&& r1.lists.last() == Some(n)
            &&& r2.first_prefix == Some((crate::text::decimal(n as nat) + ". "@, yellow()))
            &&& r2.lists.len() == r1.lists.len()
            &&& r2.lists.last() == Some(if n < u64::MAX { (n + 1) as u64 } else { n })
        }),
        ({
            let r1 = event_of(r, EventV::Start(TagV::List(None)), s, e, a);
            let r2 = event_of(r1, EventV::Start(TagV::Item), s, e, b);
            &&& r1.lists.last() == None::<u64>
            &&& r2.first_prefix == Some(("• "@, yellow()))
        }),
{
}

/// Each item of an ordered list shows the list's counter and moves it one up.
pub proof fn list_items_count_up(r: RView, m: u64, s: usize, e: usize, a: AnswersV)
    requires
        r.lists.len() > 0,
        r.lists.last() == Some(m),
    ensures
        ({
            let r2 = event_of(r, EventV::Start(TagV::Item), s, e, a);
            &&& r2.first_prefix == Some((crate::text::decimal(m as nat) + ". "@, yellow()))
            &&& r2.lists.len() == r.lists.len()
            &&& r2.lists.last() == Some(if m < u64::MAX { (m + 1) as u64 } else { m })
        }),
{
}

} // verus!
