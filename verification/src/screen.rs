//! The screen as a whole.
use crate::app::{App, AppView, PickerView};
use crate::counts;
use crate::editor::EditorView;
use crate::input::MenuView;
use crate::session::{model_of, ModelView, SessionView, Usage};
use crate::text::{self, is_digit};
use crate::transcript::{self, all_rows, on_screen, scrolled, shown_blocks};
use crate::ui::{self, clipped, less_by, line_views, plain_line, text_width, wrapped, Color, Line, LineView};
use vstd::prelude::*;
use vstd::string::StringExecFns;

verus! {

/// Text in one color.
#[derive(Debug)]
pub struct Span {
    pub text: String,
    pub color: Color,
}

/// The model of [`Span`].
pub struct SpanView {
    pub text: Seq<char>,
    pub color: Color,
}

impl View for Span {
    type V = SpanView;

    open spec fn view(&self) -> SpanView {
        SpanView { text: self.text@, color: self.color }
    }
}

/// What each span says.
pub open spec fn span_views(spans: Seq<Span>) -> Seq<SpanView> {
    spans.map_values(|s: Span| s@)
}

/// A row of the screen, from its first column on.
#[derive(Debug)]
pub struct Row {
    pub spans: Vec<Span>,
    pub italic: bool,
}

/// The model of [`Row`].
pub struct RowView {
    pub spans: Seq<SpanView>,
    pub italic: bool,
}

impl View for Row {
    type V = RowView;

    open spec fn view(&self) -> RowView {
        RowView { spans: span_views(self.spans@), italic: self.italic }
    }
}

/// What each row says.
pub open spec fn row_views(rows: Seq<Row>) -> Seq<RowView> {
    rows.map_values(|r: Row| r@)
}

/// A row in one color.
pub open spec fn plain_row(s: Seq<char>, color: Color) -> RowView {
    RowView { spans: seq![SpanView { text: s, color }], italic: false }
}

fn span(text: String, color: Color) -> (r: Span)
    ensures
        r@ == (SpanView { text: text@, color }),
{
    Span { text, color }
}

fn row(text: String, color: Color) -> (r: Row)
    ensures
        r@ == plain_row(text@, color),
{
    let spans = vec![span(text, color)];
    assert(span_views(spans@) =~= plain_row(text@, color).spans);
    Row { spans, italic: false }
}

/// How the screen is divided: the rows of the input, those of them that are
/// shown and the first of these, the rows of the transcript, and the cursor in
/// the input.
pub struct LayoutView {
    pub input: Seq<Seq<char>>,
    pub input_height: int,
    pub input_top: int,
    pub transcript_height: int,
    pub cursor_row: int,
    pub cursor_col: int,
}

/// The lesser of two numbers.
pub open spec fn least(a: int, b: int) -> int {
    if a < b {
        a
    } else {
        b
    }
}

/// How a screen is divided for an input. The input has at most six rows, and
/// leaves one for the transcript.
pub open spec fn layout_of(editor: EditorView, width: usize, height: usize) -> LayoutView {
    let room = (width - 3) as usize;
    let before = wrapped(editor.chars.take(editor.cursor).push(' '), room);
    let input = wrapped(editor.chars.push(' '), room);
    let cursor_row = before.len() - 1;
    let input_height = least(least(input.len() as int, 6), height - 4);
    LayoutView {
        input,
        input_height,
        input_top: if cursor_row + 1 > input_height {
            cursor_row + 1 - input_height
        } else {
            0
        },
        transcript_height: height - input_height - 3,
        cursor_row,
        cursor_col: less_by(text_width(before.last()), 1) as int,
    }
}

/// How the screen is divided.
struct Layout {
    input: Vec<Vec<char>>,
    input_height: usize,
    input_top: usize,
    transcript_height: usize,
    cursor_row: usize,
    cursor_col: usize,
}

impl View for Layout {
    type V = LayoutView;

    closed spec fn view(&self) -> LayoutView {
        LayoutView {
            input: text::views(self.input@),
            input_height: self.input_height as int,
            input_top: self.input_top as int,
            transcript_height: self.transcript_height as int,
            cursor_row: self.cursor_row as int,
            cursor_col: self.cursor_col as int,
        }
    }
}

fn lay_out(app: &App, width: usize, height: usize) -> (r: Layout)
    requires
        app.wf(),
        width >= 4,
        height >= 5,
    ensures
        r@ == layout_of(app@.editor, width, height),
        1 <= r.input_height <= 6,
        r.transcript_height + r.input_height + 3 == height,
        r.input_top == 0 || r.input_top + r.input_height == r.cursor_row + 1,
{
    let room: usize = width - 3;
    let mut before = text::slice(&app.editor.chars, 0, app.editor.cursor);
    assert(before@ =~= app@.editor.chars.take(app@.editor.cursor));
    before.push(' ');
    let rows = ui::wrap_chars(&before, room);
    let cursor_row: usize = rows.len() - 1;
    let last = text::string(&rows[cursor_row]);
    assert(text::views(rows@).last() == last@);
    let cursor_col = ui::measure_text(&last).saturating_sub(1);
    let mut all = text::slice(&app.editor.chars, 0, app.editor.chars.len());
    assert(all@ =~= app@.editor.chars);
    all.push(' ');
    let input = ui::wrap_chars(&all, room);
    let mut input_height: usize = input.len();
    if input_height > 6 {
        input_height = 6;
    }
    if input_height > height - 4 {
        input_height = height - 4;
    }
    let input_top: usize = if cursor_row >= input_height {
        cursor_row - input_height + 1
    } else {
        0
    };
    Layout { input, input_height, input_top, transcript_height: height - input_height - 3, cursor_row, cursor_col }
}

/// The rows of what the user picks from.
pub open spec fn picker_lines(p: PickerView, height: int) -> Seq<LineView> {
    let room = if height > 0 {
        height - 1
    } else {
        0
    };
    let start = if p.selected + 1 > room {
        p.selected + 1 - room
    } else {
        0
    };
    let end = least(start + room, p.entries.len() as int);
    seq![plain_line(p.title, Color::Accent)] + Seq::new(
        if end > start {
            (end - start) as nat
        } else {
            0
        },
        |k: int| chosen_line(p.entries[start + k].1, start + k == p.selected),
    )
}

/// A row of which one is chosen.
pub open spec fn chosen_text(label: Seq<char>, chosen: bool) -> Seq<char> {
    (if chosen { "›"@ } else { " "@ }) + " "@ + label
}

/// The color of a row of which one is chosen.
pub open spec fn chosen_color(chosen: bool) -> Color {
    if chosen {
        Color::Accent
    } else {
        Color::Gray
    }
}

/// A row of which one is chosen.
pub open spec fn chosen_line(label: Seq<char>, chosen: bool) -> LineView {
    plain_line(chosen_text(label, chosen), chosen_color(chosen))
}

fn mark(label: &str, chosen: bool) -> (r: String)
    ensures
        r@ == chosen_text(label@, chosen),
{
    let mut out = text::cat(if chosen { "›" } else { " " }, " ");
    out.append(label);
    out
}

fn mark_color(chosen: bool) -> (r: Color)
    ensures
        r == chosen_color(chosen),
{
    if chosen {
        Color::Accent
    } else {
        Color::Gray
    }
}

fn picker_part(app: &App, height: usize) -> (r: Vec<Line>)
    requires
        app@.picker is Some,
    ensures
        line_views(r@) == picker_lines(app@.picker->0, height as int),
{
    let p = match &app.picker {
        Some(p) => p,
        None => vstd::pervasive::unreached(),
    };
    let ghost view = p@;
    let room = height.saturating_sub(1);
    let n: usize = p.entries.len();
    let first: u128 = (p.selected as u128 + 1).saturating_sub(room as u128);
    let ghost want = picker_lines(view, height as int);
    let mut out: Vec<Line> = Vec::new();
    out.push(Line::new(p.title.to_owned(), Color::Accent));
    if first < n as u128 {
        let start: usize = first as usize;
        let end: usize = if n - start > room {
            start + room
        } else {
            n
        };
        let mut i: usize = start;
        while i < end
            invariant
                start <= i <= end <= p.entries@.len(),
                view == p@,
                want == picker_lines(view, height as int),
                want.len() == 1 + (end - start),
                out@.len() == 1 + (i - start),
                out@[0]@ == want[0],
                forall|k: int|
                    0 <= k < end - start ==> #[trigger] want[1 + k] == chosen_line(
                        view.entries[start + k].1,
                        start + k == view.selected,
                    ),
                forall|k: int| 0 <= k < out@.len() ==> (#[trigger] out@[k])@ == want[k],
            decreases end - i,
        {
            let chosen = i == p.selected;
            assert(view.entries[i as int].1 == p.entries@[i as int].1@);
            assert(want[1 + (i - start)] == chosen_line(view.entries[i as int].1, chosen));
            out.push(Line::new(mark(&p.entries[i].1, chosen), mark_color(chosen)));
            i += 1;
        }
    }
    assert(line_views(out@) =~= want);
    out
}

/// A row of the transcript. The bullet of a call has a color of its own.
pub open spec fn line_row(line: LineView, width: usize) -> RowView {
    let shown = clipped(line.text, less_by(width, 1));
    RowView {
        spans: match line.bullet {
            Some(color) => seq![
                SpanView { text: "●"@, color },
                SpanView {
                    text: if shown.len() > 0 {
                        shown.skip(1)
                    } else {
                        shown
                    },
                    color: line.color,
                },
            ],
            None => seq![SpanView { text: shown, color: line.color }],
        },
        italic: line.italic,
    }
}

/// An empty row.
pub open spec fn empty_row() -> RowView {
    RowView { spans: seq![], italic: false }
}

/// How many rows a menu has.
pub open spec fn menu_height(menu: Option<MenuView>, height: int) -> int {
    match menu {
        Some(m) => least(least(m.entries.len() as int, 7), height),
        None => 0,
    }
}

/// A row of a menu of `rows` rows.
pub open spec fn menu_row(m: MenuView, rows: int, k: int, width: usize) -> RowView {
    let start = if m.selected + 1 > rows {
        m.selected + 1 - rows
    } else {
        0
    };
    let i = start + k;
    plain_row(
        clipped(chosen_text(m.entries[i].label, i == m.selected), less_by(width, 1)),
        chosen_color(i == m.selected),
    )
}

/// The menu that is shown: none while the user picks.
pub open spec fn shown_menu(app: AppView) -> Option<MenuView> {
    if app.picker is Some {
        None
    } else {
        app.completion
    }
}

/// The upper part of the screen: the rows of the transcript or of what the user
/// picks from, with the menu over the last of them.
pub open spec fn upper_rows(lines: Seq<LineView>, menu: Option<MenuView>, height: int, width: usize) -> Seq<RowView> {
    let over = menu_height(menu, height);
    Seq::new(
        height as nat,
        |k: int|
            if k >= height - over {
                menu_row(menu->0, over, k - (height - over), width)
            } else if k < lines.len() {
                line_row(lines[k], width)
            } else {
                empty_row()
            },
    )
}

fn show_line(line: &Line, width: usize) -> (r: Row)
    ensures
        r@ == line_row(line@, width),
{
    let shown = ui::clip(&line.text, width.saturating_sub(1));
    let ghost want = line_row(line@, width);
    let spans = match line.bullet {
        Some(color) => {
            let chars = text::chars(&shown);
            let rest = if chars.len() > 0 {
                text::slice(&chars, 1, chars.len())
            } else {
                chars
            };
            assert(rest@ =~= want.spans[1].text);
            vec![span("●".to_owned(), color), span(text::string(&rest), line.color)]
        },
        None => vec![span(shown, line.color)],
    };
    assert(span_views(spans@) =~= want.spans);
    Row { spans, italic: line.italic }
}

fn upper_part(app: &App, lines: &Vec<Line>, height: usize, width: usize) -> (r: Vec<Row>)
    requires
        app.fresh(),
    ensures
        row_views(r@) == upper_rows(line_views(lines@), shown_menu(app@), height as int, width),
{
    let ghost menu = shown_menu(app@);
    let ghost want = upper_rows(line_views(lines@), menu, height as int, width);
    let mut rows: Vec<Row> = Vec::new();
    let over: usize = match &app.completion {
        Some(m) => if app.picker.is_some() {
            0
        } else {
            let mut n: usize = m.entries.len();
            if n > 7 {
                n = 7;
            }
            if n > height {
                n = height;
            }
            n
        },
        None => 0,
    };
    assert(over == menu_height(menu, height as int));
    let mut k: usize = 0;
    while k < height
        invariant
            k <= height,
            app.fresh(),
            menu == shown_menu(app@),
            over == menu_height(menu, height as int),
            over <= height,
            want == upper_rows(line_views(lines@), menu, height as int, width),
            rows@.len() == k,
            forall|j: int| 0 <= j < k ==> (#[trigger] rows@[j])@ == want[j],
        decreases height - k,
    {
        if k >= height - over {
            match &app.completion {
                Some(m) => {
                    let start: usize = if m.selected >= over {
                        m.selected - over + 1
                    } else {
                        0
                    };
                    let i: usize = start + (k - (height - over));
                    let chosen = i == m.selected;
                    assert(menu == Some(m@));
                    assert(m@.entries[i as int].label == m.entries@[i as int].label@);
                    let label = mark(&m.entries[i].label, chosen);
                    rows.push(row(ui::clip(&label, width.saturating_sub(1)), mark_color(chosen)));
                },
                None => {
                    vstd::pervasive::unreached()
                },
            }
        } else if k < lines.len() {
            rows.push(show_line(&lines[k], width));
            assert(line_views(lines@)[k as int] == lines@[k as int]@);
        } else {
            let spans: Vec<Span> = Vec::new();
            assert(span_views(spans@) =~= seq![]);
            rows.push(Row { spans, italic: false });
        }
        k += 1;
    }
    assert(row_views(rows@) =~= want);
    rows
}

/// A line across the screen.
pub open spec fn rule(width: usize) -> RowView {
    plain_row(Seq::new(width as nat, |k: int| '─'), Color::Gray)
}

fn rule_row(width: usize) -> (r: Row)
    ensures
        r@ == rule(width),
{
    let mut chars: Vec<char> = Vec::new();
    while chars.len() < width
        invariant
            chars@.len() <= width,
            forall|k: int| 0 <= k < chars@.len() ==> #[trigger] chars@[k] == '─',
        decreases width - chars@.len(),
    {
        chars.push('─');
    }
    assert(chars@ =~= Seq::new(width as nat, |k: int| '─'));
    row(text::string(&chars), Color::Gray)
}

/// A row of the input: the first one has a mark.
pub open spec fn input_row(input: Seq<Seq<char>>, line: int, room: usize) -> RowView {
    let start = if line == 0 {
        SpanView { text: "› "@, color: Color::Accent }
    } else {
        SpanView { text: "  "@, color: Color::Plain }
    };
    RowView {
        spans: if 0 <= line < input.len() {
            seq![start, SpanView { text: clipped(input[line], room), color: Color::Plain }]
        } else {
            seq![start]
        },
        italic: false,
    }
}

/// The rows of the input that are shown.
pub open spec fn input_rows(layout: LayoutView, room: usize) -> Seq<RowView> {
    Seq::new(
        layout.input_height as nat,
        |k: int| input_row(layout.input, layout.input_top + k, room),
    )
}

fn input_part(layout: &Layout, room: usize) -> (r: Vec<Row>)
    requires
        layout.input_height <= 6,
        layout.input_top == 0 || layout.input_top + layout.input_height == layout.cursor_row + 1,
    ensures
        row_views(r@) == input_rows(layout@, room),
{
    let ghost want = input_rows(layout@, room);
    let mut rows: Vec<Row> = Vec::new();
    let mut k: usize = 0;
    while k < layout.input_height
        invariant
            k <= layout.input_height <= 6,
            layout.input_top == 0 || layout.input_top + layout.input_height == layout.cursor_row + 1,
            want == input_rows(layout@, room),
            rows@.len() == k,
            forall|j: int| 0 <= j < k ==> (#[trigger] rows@[j])@ == want[j],
        decreases layout.input_height - k,
    {
        let line: usize = layout.input_top + k;
        let ghost here = input_row(layout@.input, line as int, room);
        let start = if line == 0 {
            span("› ".to_owned(), Color::Accent)
        } else {
            span("  ".to_owned(), Color::Plain)
        };
        let mut spans = vec![start];
        if line < layout.input.len() {
            assert(layout@.input[line as int] == layout.input@[line as int]@);
            spans.push(span(ui::clip(&text::string(&layout.input[line]), room), Color::Plain));
        }
        assert(span_views(spans@) =~= here.spans);
        rows.push(Row { spans, italic: false });
        k += 1;
    }
    assert(row_views(rows@) =~= want);
    rows
}

/// What the session has taken so far: what was sent and received, what was read
/// from the cache, and how full the context is.
pub open spec fn usage_text(session: SessionView) -> Seq<char> {
    let us = crate::session::usages(session.records, session.cursor());
    let total = crate::session::total(us);
    let now = crate::app::latest_usage(session);
    let fresh = crate::session::capped(crate::session::sum(us, crate::session::uncached_count()));
    let (cache, read) = match total.cached {
        Some(n) => (
            counts::compact_text(n as nat),
            counts::percent_text(n as nat, total.input as nat),
        ),
        None => ("?"@, "?"@),
    };
    " ↑"@ + counts::compact_text(fresh as nat) + " ↓"@ + counts::compact_text(total.output as nat) + " | cache "@ + cache
        + " read "@ + read + " | ctx "@ + counts::compact_text(
        crate::session::capped((now.input + now.output) as nat) as nat,
    ) + "/"@ + counts::compact_text(model_of(session.records, session.header.model).context as nat) + " "@
}

/// The model in force, behind a mark while a turn is being taken.
pub open spec fn model_text(model: ModelView, working: bool) -> Seq<char> {
    (if working { "· "@ } else { ""@ }) + model.name + (match model.effort {
        Some(effort) => " "@ + effort,
        None => seq![],
    }) + " "@
}

fn usage_words(app: &App) -> (r: String)
    requires
        app.wf(),
    ensures
        r@ == usage_text(app@.session),
{
    let total = app.session.total_usage();
    let now = app.session.usage();
    let (cache, read) = match total.cached {
        Some(n) => (counts::compact(n), counts::percent(n, total.input)),
        None => ("?".to_owned(), "?".to_owned()),
    };
    let mut out = text::cat(" ↑", &counts::compact(app.session.uncached_input()));
    out.append(" ↓");
    out.append(&counts::compact(total.output));
    out.append(" | cache ");
    out.append(&cache);
    out.append(" read ");
    out.append(&read);
    out.append(" | ctx ");
    out.append(&counts::compact(now.input.saturating_add(now.output)));
    out.append("/");
    out.append(&counts::compact(app.session.model().context));
    out.append(" ");
    out
}

fn model_words(app: &App) -> (r: String)
    requires
        app.wf(),
    ensures
        r@ == model_text(model_of(app@.session.records, app@.session.header.model), app@.working),
{
    let model = app.session.model();
    let mut out = text::cat(if app.working { "· " } else { "" }, &model.name);
    match &model.effort {
        Some(effort) => {
            let shown = text::cat(" ", effort);
            out.append(&shown);
        },
        None => {
            assert(out@ + Seq::<char>::empty() =~= out@);
        },
    }
    out.append(" ");
    out
}

/// The columns left of the model.
pub open spec fn status_room(right: Seq<char>, width: usize) -> usize {
    less_by(width, text_width(right) + 1)
}

/// Each character of the usage in its color: numbers stand out.
pub open spec fn status_spans(left: Seq<char>) -> Seq<SpanView> {
    left.map_values(
        |c: char|
            SpanView {
                text: seq![c],
                color: if is_digit(c) || c == '.' {
                    Color::Accent
                } else {
                    Color::Gray
                },
            },
    )
}

fn status_part(left: &str) -> (r: Vec<Span>)
    ensures
        span_views(r@) == status_spans(left@),
{
    let chars = text::chars(left);
    let ghost want = status_spans(left@);
    let mut spans: Vec<Span> = Vec::new();
    let mut i: usize = 0;
    while i < chars.len()
        invariant
            i <= chars@.len(),
            chars@ == left@,
            want == status_spans(left@),
            spans@.len() == i,
            forall|k: int| 0 <= k < i ==> (#[trigger] spans@[k])@ == want[k],
        decreases chars@.len() - i,
    {
        let c = chars[i];
        let one = vec![c];
        assert(one@ =~= seq![c]);
        let color = if text::digit(c) || c == '.' {
            Color::Accent
        } else {
            Color::Gray
        };
        spans.push(span(text::string(&one), color));
        i += 1;
    }
    assert(span_views(spans@) =~= want);
    spans
}

/// The screen: its rows but the last, the usage and the model in the last one
/// with the column of the latter, and where the cursor is shown.
#[derive(Debug)]
pub struct Frame {
    pub rows: Vec<Row>,
    pub status: Vec<Span>,
    pub model: String,
    pub model_column: usize,
    pub cursor: Option<(usize, usize)>,
}

/// The model of [`Frame`].
pub struct FrameView {
    pub rows: Seq<RowView>,
    pub status: Seq<SpanView>,
    pub model: Seq<char>,
    pub model_column: usize,
    pub cursor: Option<(int, int)>,
}

impl View for Frame {
    type V = FrameView;

    open spec fn view(&self) -> FrameView {
        FrameView {
            rows: row_views(self.rows@),
            status: span_views(self.status@),
            model: self.model@,
            model_column: self.model_column,
            cursor: match self.cursor {
                Some((col, row)) => Some((col as int, row as int)),
                None => None,
            },
        }
    }
}

/// The rows of the upper part before they are cut to the screen.
pub open spec fn upper_lines(app: AppView, height: int, width: usize) -> Seq<LineView> {
    match app.picker {
        Some(p) => picker_lines(p, height),
        None => {
            let rows = all_rows(shown_blocks(app), (width - 1) as usize, app.expanded);
            on_screen(rows, height, scrolled(app.scroll, rows.len() as int, height))
        },
    }
}

/// How far up the transcript is scrolled on the screen.
pub open spec fn scroll_on(app: AppView, height: int, width: usize) -> int {
    match app.picker {
        Some(_) => app.scroll as int,
        None => scrolled(
            app.scroll,
            all_rows(shown_blocks(app), (width - 1) as usize, app.expanded).len() as int,
            height,
        ),
    }
}

/// The screen that shows the program.
pub open spec fn frame_of(app: AppView, width: usize, height: usize) -> FrameView {
    let layout = layout_of(app.editor, width, height);
    let upper = layout.transcript_height;
    let model = clipped(
        model_text(model_of(app.session.records, app.session.header.model), app.working),
        less_by(width, 1),
    );
    let room = status_room(model, width);
    FrameView {
        rows: upper_rows(upper_lines(app, upper, width), shown_menu(app), upper, width).push(rule(width)) + input_rows(
            layout,
            (width - 3) as usize,
        ).push(rule(width)),
        status: if room == 0 {
            seq![]
        } else {
            status_spans(clipped(usage_text(app.session), room))
        },
        model,
        model_column: less_by(width, text_width(model) as int),
        cursor: if app.picker is Some {
            None
        } else {
            Some(
                (
                    least(2 + layout.cursor_col, usize::MAX as int),
                    upper + 1 + layout.cursor_row - layout.input_top,
                ),
            )
        },
    }
}

/// Whether a screen is large enough to show anything.
pub open spec fn shows(width: usize, height: usize) -> bool {
    width >= 4 && height >= 5
}

/// The screen that shows the program, where it is large enough. Scrolling ends
/// where the transcript does.
pub fn draw(app: &mut App, width: usize, height: usize) -> (r: Option<Frame>)
    requires
        old(app).wf(),
        old(app).fresh(),
    ensures
        final(app).wf(),
        final(app).fresh(),
        r is Some <==> shows(width, height),
        r matches Some(frame) ==> frame@ == frame_of(old(app)@, width, height),
        r is None ==> final(app)@ == old(app)@,
        r is Some ==> final(app)@ == (AppView {
            scroll: scroll_on(
                old(app)@,
                layout_of(old(app)@.editor, width, height).transcript_height,
                width,
            ) as usize,
            ..old(app)@
        }),
{
    if width < 4 || height < 5 {
        return None;
    }
    let layout = lay_out(app, width, height);
    let upper = layout.transcript_height;
    let mut scroll: usize = app.scroll;
    let lines = if app.picker.is_some() {
        picker_part(app, upper)
    } else {
        let (lines, at) = transcript::visible(app, width - 1, upper);
        scroll = at;
        lines
    };
    let mut rows = upper_part(app, &lines, upper, width);
    let ghost part1 = row_views(rows@);
    rows.push(rule_row(width));
    assert(row_views(rows@) =~= part1.push(rule(width)));
    let mut below = input_part(&layout, width - 3);
    let ghost part2 = row_views(below@);
    rows.append(&mut below);
    assert(row_views(rows@) =~= part1.push(rule(width)) + part2);
    rows.push(rule_row(width));
    assert(row_views(rows@) =~= part1.push(rule(width)) + part2.push(rule(width)));
    let model = ui::clip(&model_words(app), width.saturating_sub(1));
    let columns = ui::measure_text(&model);
    let room = width.saturating_sub(columns).saturating_sub(1);
    let status = if room == 0 {
        let none: Vec<Span> = Vec::new();
        assert(span_views(none@) =~= seq![]);
        none
    } else {
        status_part(&ui::clip(&usage_words(app), room))
    };
    let cursor = if app.picker.is_some() {
        None
    } else {
        Some((layout.cursor_col.saturating_add(2), upper + 1 + (layout.cursor_row - layout.input_top)))
    };
    app.scroll = scroll;
    Some(Frame { rows, status, model, model_column: width.saturating_sub(columns), cursor })
}

/// The rows of a screen are as many as it has, with the last one for the usage,
/// and the cursor stands in a row of the input.
pub proof fn law_screen_is_filled(app: AppView, width: usize, height: usize)
    requires
        shows(width, height),
        app.editor.wf(),
    ensures
        frame_of(app, width, height).rows.len() == height - 1,
        frame_of(app, width, height).cursor matches Some((_, row)) ==> ({
            let layout = layout_of(app.editor, width, height);
            layout.transcript_height + 1 <= row <= layout.transcript_height + layout.input_height < height - 2
        }),
{
    let layout = layout_of(app.editor, width, height);
    assert(layout.input.len() >= 1);
}

/// The screen is divided into the transcript, a line, the input, a line and the
/// usage. The input takes as many rows as it needs, up to six, and leaves at
/// least one to the transcript; of a longer input the rows up to the cursor are
/// shown.
pub proof fn law_input_grows_up_to_six_rows(editor: EditorView, width: usize, height: usize)
    requires
        shows(width, height),
        editor.wf(),
    ensures
        ({
            let layout = layout_of(editor, width, height);
            let n = layout.input.len();
            let before = wrapped(editor.chars.take(editor.cursor).push(' '), (width - 3) as usize);
            &&& layout.input == wrapped(editor.chars.push(' '), (width - 3) as usize)
            &&& layout.input_height <= n && layout.input_height <= 6 && layout.input_height <= height - 4
            &&& layout.input_height == n || layout.input_height == 6 || layout.input_height == height - 4
            &&& layout.input_height >= 1
            &&& layout.transcript_height + 1 + layout.input_height + 1 + 1 == height
            &&& layout.cursor_row + 1 == before.len()
            &&& layout.cursor_col == text_width(before.last()) - 1 || (text_width(before.last()) == 0
                && layout.cursor_col == 0)
            &&& layout.input_top <= layout.cursor_row < layout.input_top + layout.input_height
            &&& layout.input_top > 0 ==> layout.input_top + layout.input_height == layout.cursor_row + 1
            &&& layout.input_top >= 0
        }),
{
    let room = (width - 3) as usize;
    assert(wrapped(editor.chars.push(' '), room).len() >= 1);
    assert(wrapped(editor.chars.take(editor.cursor).push(' '), room).len() >= 1);
}

/// What the user picks from stands below its title, one entry in each row, in
/// order and without gaps. The entry that is chosen is always in sight, behind a
/// mark and in a color of its own; no other has the mark.
pub proof fn law_chosen_entry_is_in_sight(p: PickerView, height: int, k: int)
    requires
        height >= 2,
        0 <= p.selected < p.entries.len(),
    ensures
        ({
            let lines = picker_lines(p, height);
            let n = p.entries.len() as int;
            let top = if p.selected < height - 1 {
                0
            } else {
                p.selected - height + 2
            };
            &&& lines[0] == (LineView { text: p.title, color: Color::Accent, bullet: None, italic: false })
            &&& lines.len() <= height
            &&& lines.len() == height || lines.len() == n - top + 1
            &&& 1 <= p.selected - top + 1 < lines.len()
            &&& 1 <= k < lines.len() ==> lines[k] == (LineView {
                text: (if top + k - 1 == p.selected { "›"@ } else { " "@ }) + " "@ + p.entries[top + k - 1].1,
                color: if top + k - 1 == p.selected {
                    Color::Accent
                } else {
                    Color::Gray
                },
                bullet: None,
                italic: false,
            })
        }),
{
}

/// A menu of up to seven rows covers the last rows above the input, one entry in
/// each; the entry that is chosen is always in sight, behind a mark and in a
/// color of its own. The rows above it stay as they are.
pub proof fn law_menu_covers_the_last_rows(lines: Seq<LineView>, m: MenuView, height: int, width: usize, k: int)
    requires
        width >= 1,
        height >= 1,
        0 <= m.selected < m.entries.len(),
        0 <= k < height,
    ensures
        ({
            let rows = upper_rows(lines, Some(m), height, width);
            let plain = upper_rows(lines, None, height, width);
            let n = m.entries.len() as int;
            let most = if height < 7 {
                height
            } else {
                7
            };
            let over = if n < most {
                n
            } else {
                most
            };
            let top = if m.selected < over {
                0
            } else {
                m.selected - over + 1
            };
            let i = top + k - (height - over);
            &&& rows.len() == height
            &&& k < height - over ==> rows[k] == plain[k]
            &&& 0 <= m.selected - top < over
            &&& k >= height - over ==> 0 <= i < n && rows[k] == (RowView {
                spans: seq![
                    SpanView {
                        text: clipped(
                            (if i == m.selected { "›"@ } else { " "@ }) + " "@ + m.entries[i].label,
                            (width - 1) as usize,
                        ),
                        color: if i == m.selected {
                            Color::Accent
                        } else {
                            Color::Gray
                        },
                    },
                ],
                italic: false,
            })
        }),
{
    let rows = upper_rows(lines, Some(m), height, width);
    let over = menu_height(Some(m), height);
    if k >= height - over {
        assert(rows[k] == menu_row(m, over, k - (height - over), width));
    }
}

/// Without a menu each line of the transcript stands in a row of its own, from
/// the top, clipped to the screen; the rest is empty. A bullet has its own
/// color, in place of the first character.
pub proof fn law_lines_stand_in_rows(lines: Seq<LineView>, height: int, width: usize, k: int)
    requires
        width >= 1,
        0 <= k < height,
    ensures
        ({
            let row = upper_rows(lines, None, height, width)[k];
            &&& upper_rows(lines, None, height, width).len() == height
            &&& k >= lines.len() ==> row.spans.len() == 0 && !row.italic
            &&& k < lines.len() ==> ({
                let line = lines[k];
                let shown = clipped(line.text, (width - 1) as usize);
                &&& row.italic == line.italic
                &&& line.bullet is None ==> row.spans == seq![SpanView { text: shown, color: line.color }]
                &&& line.bullet matches Some(color) ==> row.spans.len() == 2 && row.spans[0] == (SpanView {
                    text: "●"@,
                    color,
                }) && row.spans[1].color == line.color && (shown.len() > 0 ==> shown == seq![shown[0]]
                    + row.spans[1].text)
            })
        }),
{
    if k < lines.len() {
        let line = lines[k];
        let shown = clipped(line.text, less_by(width, 1));
        assert(upper_rows(lines, None, height, width)[k] == line_row(line, width));
        if shown.len() > 0 {
            assert(seq![shown[0]] + shown.skip(1) =~= shown);
        }
    }
}

/// The rows of the input that are shown: its first row stands behind a mark, and
/// the others as far in.
pub proof fn law_input_stands_behind_a_mark(editor: EditorView, width: usize, height: usize, k: int)
    requires
        shows(width, height),
        editor.wf(),
        0 <= k < layout_of(editor, width, height).input_height,
    ensures
        ({
            let layout = layout_of(editor, width, height);
            let row = input_rows(layout, (width - 3) as usize)[k];
            let i = layout.input_top + k;
            &&& !row.italic
            &&& row.spans[0] == (if i == 0 {
                SpanView { text: "› "@, color: Color::Accent }
            } else {
                SpanView { text: "  "@, color: Color::Plain }
            })
            &&& i < layout.input.len() ==> row.spans.len() == 2 && row.spans[1] == (SpanView {
                text: clipped(layout.input[i], (width - 3) as usize),
                color: Color::Plain,
            })
        }),
{
    let layout = layout_of(editor, width, height);
    assert(input_rows(layout, (width - 3) as usize)[k] == input_row(
        layout.input,
        layout.input_top + k,
        (width - 3) as usize,
    ));
}

/// The usage tells what was sent without what was read from the cache, what was
/// received, what was read from the cache and what part of the input that is,
/// and how full the context is.
pub proof fn law_usage_tells_every_count(session: SessionView, us: Seq<Usage>)
    requires
        us == crate::session::usages(session.records, session.cursor()),
    ensures
        ({
            let total = crate::session::total(us);
            let fresh = crate::session::capped(crate::session::sum(us, crate::session::uncached_count()));
            let held = if us.len() > 0 {
                us[0].input + us[0].output
            } else {
                0
            };
            let full = if held > u64::MAX {
                u64::MAX as nat
            } else {
                held as nat
            };
            let window = model_of(session.records, session.header.model).context as nat;
            usage_text(session) == " ↑"@ + counts::compact_text(fresh as nat) + " ↓"@ + counts::compact_text(
                total.output as nat,
            ) + " | cache "@ + (match total.cached {
                Some(n) => counts::compact_text(n as nat),
                None => "?"@,
            }) + " read "@ + (match total.cached {
                Some(n) => counts::percent_text(n as nat, total.input as nat),
                None => "?"@,
            }) + " | ctx "@ + counts::compact_text(full) + "/"@ + counts::compact_text(window) + " "@
        }),
{
}

/// The model in force is told by its name and its effort, behind a mark while a
/// turn is being taken.
pub proof fn law_model_is_told(model: ModelView)
    ensures
        model.effort is None ==> model_text(model, false) == model.name + " "@,
        model.effort matches Some(effort) ==> model_text(model, false) == model.name + " "@ + effort + " "@,
        model_text(model, true) == "· "@ + model_text(model, false),
{
    reveal_strlit("");
    assert(""@ =~= seq![]);
    let none = model_text(model, false);
    match model.effort {
        Some(effort) => {
            assert(none =~= model.name + " "@ + effort + " "@);
        },
        None => {
            assert(none =~= model.name + " "@);
        },
    }
    assert(model_text(model, true) =~= "· "@ + none);
}

/// The screen from top to bottom: what is above the input, a line across, the
/// input, and a line across. Below stand the usage, as far as there is room, and
/// the model at the right; numbers stand out. The cursor stands in the input,
/// behind the mark, and is not shown while the user picks.
pub proof fn law_screen_is_put_together(app: AppView, width: usize, height: usize, k: int)
    requires
        shows(width, height),
        app.editor.wf(),
    ensures
        ({
            let frame = frame_of(app, width, height);
            let layout = layout_of(app.editor, width, height);
            let t = layout.transcript_height;
            let i = layout.input_height;
            let across = RowView {
                spans: seq![SpanView { text: Seq::new(width as nat, |j: int| '─'), color: Color::Gray }],
                italic: false,
            };
            let menu = if app.picker is None {
                app.completion
            } else {
                None
            };
            let lines = match app.picker {
                Some(p) => picker_lines(p, t),
                None => {
                    let rows = all_rows(shown_blocks(app), (width - 1) as usize, app.expanded);
                    on_screen(rows, t, scrolled(app.scroll, rows.len() as int, t))
                },
            };
            let model = clipped(
                model_text(model_of(app.session.records, app.session.header.model), app.working),
                (width - 1) as usize,
            );
            let room = width - text_width(model) - 1;
            &&& 0 <= k < t ==> frame.rows[k] == upper_rows(lines, menu, t, width)[k]
            &&& frame.rows[t] == across
            &&& 0 <= k < i ==> frame.rows[t + 1 + k] == input_rows(layout, (width - 3) as usize)[k]
            &&& frame.rows[t + 1 + i] == across
            &&& frame.rows.len() == t + i + 2
            &&& frame.model == model
            &&& text_width(model) <= width ==> frame.model_column + text_width(model) == width
            &&& room <= 0 ==> frame.status.len() == 0
            &&& room > 0 ==> ({
                let left = clipped(usage_text(app.session), room as usize);
                &&& frame.status.len() == left.len()
                &&& 0 <= k < left.len() ==> frame.status[k] == (SpanView {
                    text: seq![left[k]],
                    color: if ('0' <= left[k] && left[k] <= '9') || left[k] == '.' {
                        Color::Accent
                    } else {
                        Color::Gray
                    },
                })
            })
            &&& app.picker is Some <==> frame.cursor is None
            &&& frame.cursor matches Some((col, row)) ==> row == t + 1 + layout.cursor_row - layout.input_top && (
            layout.cursor_col + 2 <= usize::MAX ==> col == layout.cursor_col + 2)
        }),
{
    let frame = frame_of(app, width, height);
    let layout = layout_of(app.editor, width, height);
    let t = layout.transcript_height;
    assert(layout.input.len() >= 1);
    let upper = upper_rows(upper_lines(app, t, width), shown_menu(app), t, width);
    let below = input_rows(layout, (width - 3) as usize);
    assert(upper.len() == t);
    assert(below.len() == layout.input_height);
    assert(frame.rows == upper.push(rule(width)) + below.push(rule(width)));
    let room = width - text_width(frame.model) - 1;
    if room > 0 {
        let left = clipped(usage_text(app.session), room as usize);
        assert(status_room(frame.model, width) == room);
        if 0 <= k < left.len() {
            lemma_digit(left[k]);
        }
    }
}

proof fn lemma_digit(c: char)
    ensures
        is_digit(c) <==> '0' <= c && c <= '9',
{
}

/// Drawing leaves the transcript scrolled as far as it can be, and does not
/// touch it while the user picks.
pub proof fn law_scrolling_ends_with_the_transcript(app: AppView, height: int, width: usize)
    requires
        height > 0,
        width > 0,
    ensures
        ({
            let n = all_rows(shown_blocks(app), (width - 1) as usize, app.expanded).len() as int;
            let by = scroll_on(app, height, width);
            &&& app.picker is Some ==> by == app.scroll
            &&& app.picker is None && app.scroll + height <= n ==> by == app.scroll
            &&& app.picker is None && n <= height ==> by == 0
            &&& app.picker is None && height < n < app.scroll + height ==> by == n - height
        }),
{
}

/// A screen shows something from four columns and five rows on.
pub proof fn law_small_screens_show_nothing(width: usize, height: usize)
    ensures
        shows(width, height) <==> width >= 4 && height >= 5,
{
}

} // verus!
