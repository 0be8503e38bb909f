//! Terminal rendering of markdown: styles for emphasis, boxes for code blocks
//! and tables, a bar before quoted lines, bullets and numbers before list items.
//!
//! Only one block renderer is active at a time: a block that opens inside
//! another replaces it rather than nesting in it.
use vstd::prelude::*;
use colored::Colorize;
use pulldown_cmark::{Event, Options, Parser, Tag};
use crate::layout::{code_box, code_box_text, grid, table_grid, table_text};
use crate::text::{
    chars_of,    decimal, decimal_string, join, join_seq, lines, lines_of, push_char, repeat_char, trim_end,
    trim_end_seq, views,
};

verus! {

// ---------------------------------------------------------------- events

/// An inline style that is open around the text being rendered.
#[derive(Clone, Copy, Debug, PartialEq, Eq, Structural)]
pub enum FormattingState {
    Bold,
    Italic,
    Link,
}

/// The kinds of markdown element that open and close around other events.
#[derive(Clone, Copy, Debug)]
pub enum MdTag {
    Paragraph,
    Heading,
    BlockQuote,
    CodeBlock,
    /// A list; ordered ones carry their first number.
    List(Option<u64>),
    Item,
    Table,
    TableHead,
    TableRow,
    TableCell,
    Emphasis,
    Strong,
    Link,
    /// Any element this renderer does not treat specially.
    Other,
}

/// One event of a parsed markdown text.
#[derive(Clone, Debug)]
pub enum MdEvent {
    Start(MdTag),
    End(MdTag),
    Text(String),
    /// An inline code span.
    Code(String),
    /// Raw HTML, which is dropped.
    Html,
    SoftBreak,
    HardBreak,
    TaskListMarker(bool),
    /// Any event this renderer does not treat specially.
    Other,
}

/// The mathematical value of an event.
pub ghost enum EventView {
    Start(MdTag),
    End(MdTag),
    Text(Seq<char>),
    Code(Seq<char>),
    Html,
    SoftBreak,
    HardBreak,
    TaskListMarker(bool),
    Other,
}

impl View for MdEvent {
    type V = EventView;

    open spec fn view(&self) -> EventView {
        match self {
            MdEvent::Start(t) => EventView::Start(*t),
            MdEvent::End(t) => EventView::End(*t),
            MdEvent::Text(s) => EventView::Text(s@),
            MdEvent::Code(s) => EventView::Code(s@),
            MdEvent::Html => EventView::Html,
            MdEvent::SoftBreak => EventView::SoftBreak,
            MdEvent::HardBreak => EventView::HardBreak,
            MdEvent::TaskListMarker(b) => EventView::TaskListMarker(*b),
            MdEvent::Other => EventView::Other,
        }
    }
}

/// The events of a sequence.
pub open spec fn event_views(v: Seq<MdEvent>) -> Seq<EventView> {
    v.map_values(|e: MdEvent| e@)
}

// ---------------------------------------------------------------- render context

/// The output so far, the open inline styles and the count of newlines that
/// end the output (kept at most 2).
pub struct RenderContext {
    pub output: String,
    pub formatting_stack: Vec<FormattingState>,
    pub pending_newlines: usize,
    pub use_colors: bool,
}

/// The output and its trailing-newline count after a newline.
pub open spec fn newline_step(out: Seq<char>, p: nat) -> (Seq<char>, nat) {
    (out.push('\n'), if p < 2 { p + 1 } else { 2 })
}

/// Ends the current line unless the output is empty or already ends one.
pub open spec fn ensure_newline_step(out: Seq<char>, p: nat) -> (Seq<char>, nat) {
    if out.len() > 0 && out.last() != '\n' {
        newline_step(out, p)
    } else {
        (out, p)
    }
}

/// The output ends with two newlines: a blank line is already there.
pub open spec fn ends_blank(out: Seq<char>) -> bool {
    out.len() >= 2 && out[out.len() - 1] == '\n' && out[out.len() - 2] == '\n'
}

/// Adds a newline towards a blank line, unless the output is empty or a blank
/// line is already there.
pub open spec fn blank_line_step(out: Seq<char>, p: nat) -> (Seq<char>, nat) {
    if out.len() > 0 && !ends_blank(out) && p < 2 {
        newline_step(out, p)
    } else {
        (out, p)
    }
}

/// The final text: trailing whitespace removed, one newline added.
pub open spec fn finished(out: Seq<char>) -> Seq<char> {
    trim_end_seq(out).push('\n')
}

impl RenderContext {
    pub fn new(use_colors: bool) -> (r: Self)
        ensures
            r.output@ == Seq::<char>::empty(),
            r.formatting_stack@ == Seq::<FormattingState>::empty(),
            r.pending_newlines == 0,
            r.use_colors == use_colors,
    {
        RenderContext {
            output: String::new(),
            formatting_stack: Vec::new(),
            pending_newlines: 0,
            use_colors,
        }
    }

    /// Appends text; the output then ends in no counted newline.
    pub fn push_str(&mut self, s: &str)
        ensures
            final(self).output@ == old(self).output@ + s@,
            final(self).pending_newlines == 0,
            final(self).formatting_stack@ == old(self).formatting_stack@,
            final(self).use_colors == old(self).use_colors,
    {
        self.output.append(s);
        self.pending_newlines = 0;
    }

    /// Appends a newline and counts it.
    pub fn push_newline(&mut self)
        ensures
            (final(self).output@, final(self).pending_newlines as nat) == newline_step(
                old(self).output@,
                old(self).pending_newlines as nat,
            ),
            final(self).formatting_stack@ == old(self).formatting_stack@,
            final(self).use_colors == old(self).use_colors,
    {
        push_char(&mut self.output, '\n');
        if self.pending_newlines < 2 {
            self.pending_newlines = self.pending_newlines + 1;
        } else {
            self.pending_newlines = 2;
        }
    }

    /// Ends the current line if there is one.
    pub fn ensure_newline(&mut self)
        ensures
            (final(self).output@, final(self).pending_newlines as nat) == ensure_newline_step(
                old(self).output@,
                old(self).pending_newlines as nat,
            ),
            final(self).formatting_stack@ == old(self).formatting_stack@,
            final(self).use_colors == old(self).use_colors,
    {
        if !self.output.as_str().is_empty() && !ends_with_char(self.output.as_str(), '\n') {
            self.push_newline();
        }
    }

    /// Moves towards a blank line after the output, never past one.
    pub fn ensure_blank_line(&mut self)
        ensures
            (final(self).output@, final(self).pending_newlines as nat) == blank_line_step(
                old(self).output@,
                old(self).pending_newlines as nat,
            ),
            final(self).formatting_stack@ == old(self).formatting_stack@,
            final(self).use_colors == old(self).use_colors,
    {
        if !self.output.as_str().is_empty() && !ends_with_blank(self.output.as_str())
            && self.pending_newlines < 2 {
            self.push_newline();
        }
    }

    /// The output with trailing whitespace removed and one newline added.
    pub fn into_output(self) -> (r: String)
        ensures
            r@ == finished(self.output@),
    {
        let mut r = trim_end(self.output.as_str());
        push_char(&mut r, '\n');
        r
    }
}

/// Whether `s` ends with `c`.
fn ends_with_char(s: &str, c: char) -> (r: bool)
    ensures
        r == (s@.len() > 0 && s@.last() == c),
{
    let n = s.unicode_len();
    n > 0 && s.get_char(n - 1) == c
}

/// Whether `s` ends with two newlines.
fn ends_with_blank(s: &str) -> (r: bool)
    ensures
        r == ends_blank(s@),
{
    let n = s.unicode_len();
    n >= 2 && s.get_char(n - 1) == '\n' && s.get_char(n - 2) == '\n'
}

/// Running the blank-line step twice reaches a state that a third run leaves
/// alone, and adds at most two newlines: never more than one blank line.
pub proof fn lemma_blank_line_settles(out: Seq<char>, p: nat)
    requires
        p <= 2,
    ensures
        ({
            let (o1, n1) = blank_line_step(out, p);
            let (o2, n2) = blank_line_step(o1, n1);
            &&& blank_line_step(o2, n2) == (o2, n2)
            &&& exists|k: nat| k <= 2 && o2 == out + repeat_char('\n', k)
        }),
{
    let (o1, n1) = blank_line_step(out, p);
    let (o2, n2) = blank_line_step(o1, n1);
    if o1 == out {
        assert(out + repeat_char('\n', 0) =~= out);
    } else if o2 == o1 {
        assert(out + repeat_char('\n', 1) =~= o1);
    } else {
        assert(out + repeat_char('\n', 2) =~= o2);
        assert(ends_blank(o2));
    }
}

// ---------------------------------------------------------------- block renderers

/// Collects the text of a code block.
pub struct CodeBlockRenderer {
    pub buffer: String,
}

impl CodeBlockRenderer {
    pub fn new() -> (r: Self)
        ensures
            r.buffer@ == Seq::<char>::empty(),
    {
        CodeBlockRenderer { buffer: String::new() }
    }

    /// The collected code drawn in a box.
    pub fn render_code_block(&self, code: &str) -> (r: String)
        ensures
            r@ == code_box_text(code@),
    {
        code_box(code)
    }

    pub fn append_text(&mut self, text: &str)
        ensures
            final(self).buffer@ == old(self).buffer@ + text@,
    {
        self.buffer.append(text);
    }

    /// Both kinds of break end a code line.
    pub fn append_break(&mut self)
        ensures
            final(self).buffer@ == old(self).buffer@.push('\n'),
    {
        push_char(&mut self.buffer, '\n');
    }

    pub fn finish(&self) -> (r: String)
        ensures
            r@ == code_box_text(self.buffer@),
    {
        self.render_code_block(self.buffer.as_str())
    }
}

/// Collects the rows and cells of a table.
pub struct TableRenderer {
    pub rows: Vec<Vec<String>>,
    pub current_row: Vec<String>,
    pub current_cell: String,
}

/// The mathematical value of a table being collected.
pub ghost struct TableView {
    pub rows: Seq<Seq<Seq<char>>>,
    pub row: Seq<Seq<char>>,
    pub cell: Seq<char>,
}

impl View for TableRenderer {
    type V = TableView;

    open spec fn view(&self) -> TableView {
        TableView { rows: grid(self.rows@), row: views(self.current_row@), cell: self.current_cell@ }
    }
}

/// The table after its current row ends: the row is kept only when it has cells.
pub open spec fn finish_row_step(t: TableView) -> TableView {
    if t.row.len() > 0 {
        TableView { rows: t.rows.push(t.row), row: Seq::empty(), ..t }
    } else {
        t
    }
}

impl TableRenderer {
    pub fn new() -> (r: Self)
        ensures
            r@ == (TableView { rows: Seq::empty(), row: Seq::empty(), cell: Seq::empty() }),
    {
        let r = TableRenderer { rows: Vec::new(), current_row: Vec::new(), current_cell: String::new() };
        assert(r@.rows =~= Seq::empty());
        assert(r@.row =~= Seq::empty());
        r
    }

    pub fn add_cell(&mut self, cell: String)
        ensures
            final(self)@ == (TableView { row: old(self)@.row.push(cell@), ..old(self)@ }),
    {
        self.current_row.push(cell);
        assert(self@.row =~= old(self)@.row.push(cell@));
    }

    pub fn finish_row(&mut self)
        ensures
            final(self)@ == finish_row_step(old(self)@),
    {
        if self.current_row.len() > 0 {
            let row = self.current_row.clone();
            self.rows.push(row);
            self.current_row = Vec::new();
            assert(self@.rows =~= old(self)@.rows.push(old(self)@.row));
            assert(self@.row =~= Seq::empty());
        }
    }

    /// Ends the current row: it joins the table when it has cells.
    pub fn end_row(&mut self)
        ensures
            final(self)@ == finish_row_step(old(self)@),
    {
        self.finish_row();
    }

    pub fn start_row(&mut self)
        ensures
            final(self)@ == (TableView { row: Seq::empty(), ..old(self)@ }),
    {
        self.current_row = Vec::new();
        assert(self@.row =~= Seq::empty());
    }

    pub fn start_cell(&mut self)
        ensures
            final(self)@ == (TableView { cell: Seq::empty(), ..old(self)@ }),
    {
        self.current_cell = String::new();
    }

    pub fn end_cell(&mut self)
        ensures
            final(self)@ == (TableView {
                row: old(self)@.row.push(old(self)@.cell),
                cell: Seq::empty(),
                ..old(self)@
            }),
    {
        let cell = self.current_cell.clone();
        self.add_cell(cell);
        self.current_cell = String::new();
    }

    pub fn append_text(&mut self, text: &str)
        ensures
            final(self)@ == (TableView { cell: old(self)@.cell + text@, ..old(self)@ }),
    {
        self.current_cell.append(text);
    }

    /// A soft break is a space in a cell, a hard break a newline.
    pub fn append_break(&mut self, hard: bool)
        ensures
            final(self)@ == (TableView {
                cell: old(self)@.cell.push(if hard { '\n' } else { ' ' }),
                ..old(self)@
            }),
    {
        push_char(&mut self.current_cell, if hard { '\n' } else { ' ' });
    }

    /// The collected rows drawn as a grid.
    pub fn render_table(&self) -> (r: String)
        ensures
            r@ == table_text(self@.rows),
    {
        table_grid(self.rows.as_slice())
    }
}

/// Collects the lines of a blockquote.
pub struct BlockquoteRenderer {
    pub lines: Vec<String>,
    pub current_line: String,
}

/// The mathematical value of a blockquote being collected.
pub ghost struct QuoteView {
    pub lines: Seq<Seq<char>>,
    pub current: Seq<char>,
}

impl View for BlockquoteRenderer {
    type V = QuoteView;

    open spec fn view(&self) -> QuoteView {
        QuoteView { lines: views(self.lines@), current: self.current_line@ }
    }
}

/// Every line of `s` after the quote bar, joined again by newlines.
pub open spec fn barred(s: Seq<char>) -> Seq<char> {
    join_seq(lines_of(s).map_values(|l: Seq<char>| seq!['▌', ' '] + l), seq!['\n'])
}

/// A finished blockquote: the lines, the last one if it is not empty, each behind the bar.
pub open spec fn quote_text(q: QuoteView) -> Seq<char> {
    let ls = if q.current.len() > 0 {
        q.lines.push(q.current)
    } else {
        q.lines
    };
    barred(join_seq(ls, seq!['\n']))
}

impl BlockquoteRenderer {
    pub fn new() -> (r: Self)
        ensures
            r@ == (QuoteView { lines: Seq::empty(), current: Seq::empty() }),
    {
        let r = BlockquoteRenderer { lines: Vec::new(), current_line: String::new() };
        assert(r@.lines =~= Seq::empty());
        r
    }

    /// Each line of `text` behind the quote bar.
    pub fn add_prefix_to_lines(text: &str) -> (r: String)
        ensures
            r@ == barred(text@),
    {
        proof {
            reveal_strlit("▌ ");
            reveal_strlit("\n");
            assert("\n"@ =~= seq!['\n']);
        }
        let ls = lines(text);
        let mut barred_lines: Vec<String> = Vec::new();
        let mut i: usize = 0;
        while i < ls.len()
            invariant
                "▌ "@ == seq!['▌', ' '],
                i <= ls@.len(),
                views(barred_lines@) == views(ls@).subrange(0, i as int).map_values(
                    |l: Seq<char>| seq!['▌', ' '] + l,
                ),
            decreases ls@.len() - i,
        {
            let mut b = String::from_str("▌ ");
            b.append(ls[i].as_str());
            let ghost before = views(barred_lines@);
            assert(b@ == seq!['▌', ' '] + views(ls@)[i as int]);
            barred_lines.push(b);
            assert(views(barred_lines@) =~= before.push(b@));
            assert(views(ls@).subrange(0, i + 1) =~= views(ls@).subrange(0, i as int).push(
                views(ls@)[i as int],
            ));
            assert(views(barred_lines@) =~= views(ls@).subrange(0, i + 1).map_values(
                |l: Seq<char>| seq!['▌', ' '] + l,
            ));
            i = i + 1;
        }
        assert(views(ls@).subrange(0, ls@.len() as int) =~= views(ls@));
        join(barred_lines.as_slice(), "\n")
    }

    pub fn append_text(&mut self, text: &str)
        ensures
            final(self)@ == (QuoteView { current: old(self)@.current + text@, ..old(self)@ }),
    {
        self.current_line.append(text);
    }

    /// Either kind of break ends the current line.
    pub fn append_break(&mut self)
        ensures
            final(self)@ == (QuoteView {
                lines: old(self)@.lines.push(old(self)@.current),
                current: Seq::empty(),
            }),
    {
        let line = self.current_line.clone();
        self.lines.push(line);
        self.current_line = String::new();
        assert(self@.lines =~= old(self)@.lines.push(old(self)@.current));
    }

    pub fn finish(&mut self) -> (r: String)
        ensures
            r@ == quote_text(old(self)@),
    {
        proof {
            reveal_strlit("\n");
            assert("\n"@ =~= seq!['\n']);
        }
        if !self.current_line.as_str().is_empty() {
            let line = self.current_line.clone();
            self.lines.push(line);
            assert(views(self.lines@) =~= old(self)@.lines.push(old(self)@.current));
        }
        let full = join(self.lines.as_slice(), "\n");
        Self::add_prefix_to_lines(full.as_str())
    }
}

/// Numbers or bullets the items of a list.
pub struct ListRenderer {
    pub depth: usize,
    pub is_ordered: bool,
    pub item_indices: Vec<usize>,
    pub in_item: bool,
    pub buffer: String,
}

/// The mathematical value of a list renderer.
pub ghost struct ListView {
    pub ordered: bool,
    pub indices: Seq<nat>,
}

impl View for ListRenderer {
    type V = ListView;

    open spec fn view(&self) -> ListView {
        ListView {
            ordered: self.is_ordered,
            indices: self.item_indices@.map_values(|n: usize| n as nat),
        }
    }
}

/// A fresh list: ordered ones count from zero.
pub open spec fn new_list(ordered: bool) -> ListView {
    ListView {
        ordered,
        indices: if ordered {
            seq![0nat]
        } else {
            Seq::empty()
        },
    }
}

/// The list after an item opens: an ordered list counts it.
pub open spec fn item_list_step(l: ListView) -> ListView {
    if l.ordered && l.indices.len() > 0 {
        ListView { indices: l.indices.update(l.indices.len() - 1, l.indices.last() + 1), ..l }
    } else {
        l
    }
}

/// What opens an item at nesting depth `depth`: two spaces per level below the
/// top, then the item's number and a dot, or a bullet.
pub open spec fn item_marker(l: ListView, depth: nat) -> Seq<char> {
    repeat_char(' ', 2 * (depth - 1) as nat) + if l.ordered {
        if l.indices.len() > 0 {
            decimal(l.indices.last() + 1) + seq!['.', ' ']
        } else {
            Seq::empty()
        }
    } else {
        seq!['•', ' ']
    }
}

impl ListRenderer {
    pub fn new(ordered: bool, depth: usize) -> (r: Self)
        ensures
            r@ == new_list(ordered),
            r.depth == depth,
    {
        let mut item_indices: Vec<usize> = Vec::new();
        if ordered {
            item_indices.push(0);
        }
        let r = ListRenderer {
            depth,
            is_ordered: ordered,
            item_indices,
            in_item: false,
            buffer: String::new(),
        };
        assert(r@.indices =~= new_list(ordered).indices);
        r
    }

    /// Writes the item's indentation and marker; an ordered list numbers its
    /// items 1, 2, 3, ... in the order they open.
    pub fn start_item(&mut self, output: &mut String, depth: usize)
        requires
            depth >= 1,
            old(self)@.indices.len() > 0 ==> old(self)@.indices.last() < usize::MAX,
        ensures
            final(output)@ == old(output)@ + item_marker(old(self)@, depth as nat),
            final(self)@ == item_list_step(old(self)@),
            final(self).depth == old(self).depth,
            final(self).in_item,
    {
        proof {
            reveal_strlit("  ");
            reveal_strlit(". ");
            reveal_strlit("• ");
            assert(". "@ =~= seq!['.', ' ']);
            assert("• "@ =~= seq!['•', ' ']);
        }
        self.in_item = true;
        let ghost start = output@;
        let mut i: usize = 0;
        while i < depth - 1
            invariant
                "  "@ == seq![' ', ' '],
                i <= depth - 1,
                output@ == start + repeat_char(' ', 2 * i as nat),
            decreases depth - 1 - i,
        {
            output.append("  ");
            i = i + 1;
            assert(output@ =~= start + repeat_char(' ', 2 * i as nat));
        }
        if self.is_ordered {
            let n = self.item_indices.len();
            if n > 0 {
                let idx = self.item_indices[n - 1] + 1;
                self.item_indices.set(n - 1, idx);
                let digits = decimal_string(idx);
                output.append(digits.as_str());
                output.append(". ");
                assert(self@.indices =~= item_list_step(old(self)@).indices);
            }
        } else {
            output.append("• ");
        }
        assert(output@ =~= start + item_marker(old(self)@, depth as nat));
    }

    pub fn end_item(&mut self)
        ensures
            final(self)@ == old(self)@,
            final(self).depth == old(self).depth,
    {
        self.in_item = false;
    }
}

/// What every block renderer offers the driver: it opens, takes text and
/// breaks, and closes with its rendering, if it has one of its own. None of
/// these touches the context.
pub trait ElementRenderer {
    /// What the renderer would hand back if it closed now.
    spec fn rendering(&self) -> Option<Seq<char>>;

    /// `post` is the renderer emptied for a new block.
    spec fn start_post(&self, post: &Self) -> bool;

    /// `post` is the renderer after it took the text `t`.
    spec fn text_post(&self, post: &Self, t: Seq<char>) -> bool;

    /// `post` is the renderer after a hard or a soft break.
    spec fn break_post(&self, post: &Self, hard: bool) -> bool;

    fn start(&mut self, context: &mut RenderContext)
        ensures
            *final(context) == *old(context),
            old(self).start_post(final(self)),
    ;

    fn handle_text(&mut self, text: &str, context: &mut RenderContext)
        ensures
            *final(context) == *old(context),
            old(self).text_post(final(self), text@),
    ;

    fn handle_soft_break(&mut self, context: &mut RenderContext)
        ensures
            *final(context) == *old(context),
            old(self).break_post(final(self), false),
    ;

    fn handle_hard_break(&mut self, context: &mut RenderContext)
        ensures
            *final(context) == *old(context),
            old(self).break_post(final(self), true),
    ;

    fn end(&mut self, context: &mut RenderContext) -> (r: Option<String>)
        ensures
            *final(context) == *old(context),
            match r {
                Some(s) => old(self).rendering() == Some(s@),
                None => old(self).rendering() is None,
            },
    ;
}

impl ElementRenderer for CodeBlockRenderer {
    open spec fn rendering(&self) -> Option<Seq<char>> {
        Some(code_box_text(self.buffer@))
    }

    /// The code emptied.
    open spec fn start_post(&self, post: &Self) -> bool {
        post.buffer@ == Seq::<char>::empty()
    }

    /// The text appended to the code.
    open spec fn text_post(&self, post: &Self, t: Seq<char>) -> bool {
        post.buffer@ == self.buffer@ + t
    }

    /// Either break ends a code line.
    open spec fn break_post(&self, post: &Self, hard: bool) -> bool {
        post.buffer@ == self.buffer@.push('\n')
    }

    fn start(&mut self, _context: &mut RenderContext) {
        self.buffer = String::new();
    }

    fn handle_text(&mut self, text: &str, _context: &mut RenderContext) {
        self.append_text(text);
    }

    fn handle_soft_break(&mut self, _context: &mut RenderContext) {
        self.append_break();
    }

    fn handle_hard_break(&mut self, _context: &mut RenderContext) {
        self.append_break();
    }

    fn end(&mut self, _context: &mut RenderContext) -> Option<String> {
        Some(self.finish())
    }
}

impl ElementRenderer for TableRenderer {
    open spec fn rendering(&self) -> Option<Seq<char>> {
        Some(table_text(self@.rows))
    }

    /// No rows, no row and no cell.
    open spec fn start_post(&self, post: &Self) -> bool {
        post@ == (TableView { rows: Seq::empty(), row: Seq::empty(), cell: Seq::empty() })
    }

    /// The text appended to the current cell.
    open spec fn text_post(&self, post: &Self, t: Seq<char>) -> bool {
        post@ == (TableView { cell: self@.cell + t, ..self@ })
    }

    /// A soft break is a space in the cell, a hard one a newline.
    open spec fn break_post(&self, post: &Self, hard: bool) -> bool {
        post@ == (TableView { cell: self@.cell.push(if hard { '\n' } else { ' ' }), ..self@ })
    }

    fn start(&mut self, _context: &mut RenderContext) {
        self.rows = Vec::new();
        self.current_row = Vec::new();
        self.current_cell = String::new();
        assert(self@.rows =~= Seq::empty());
        assert(self@.row =~= Seq::empty());
    }

    fn handle_text(&mut self, text: &str, _context: &mut RenderContext) {
        self.append_text(text);
    }

    fn handle_soft_break(&mut self, _context: &mut RenderContext) {
        self.append_break(false);
    }

    fn handle_hard_break(&mut self, _context: &mut RenderContext) {
        self.append_break(true);
    }

    fn end(&mut self, _context: &mut RenderContext) -> Option<String> {
        Some(self.render_table())
    }
}

impl ElementRenderer for BlockquoteRenderer {
    open spec fn rendering(&self) -> Option<Seq<char>> {
        Some(quote_text(self@))
    }

    /// No lines and an empty current line.
    open spec fn start_post(&self, post: &Self) -> bool {
        post@ == (QuoteView { lines: Seq::empty(), current: Seq::empty() })
    }

    /// The text appended to the current line.
    open spec fn text_post(&self, post: &Self, t: Seq<char>) -> bool {
        post@ == (QuoteView { current: self@.current + t, ..self@ })
    }

    /// Either break ends the current line.
    open spec fn break_post(&self, post: &Self, hard: bool) -> bool {
        post@ == (QuoteView { lines: self@.lines.push(self@.current), current: Seq::empty() })
    }

    fn start(&mut self, _context: &mut RenderContext) {
        self.lines = Vec::new();
        self.current_line = String::new();
        assert(self@.lines =~= Seq::empty());
    }

    fn handle_text(&mut self, text: &str, _context: &mut RenderContext) {
        self.append_text(text);
    }

    fn handle_soft_break(&mut self, _context: &mut RenderContext) {
        self.append_break();
    }

    fn handle_hard_break(&mut self, _context: &mut RenderContext) {
        self.append_break();
    }

    fn end(&mut self, _context: &mut RenderContext) -> Option<String> {
        Some(self.finish())
    }
}

/// Item markers go straight into the context's output (see
/// [`ListRenderer::start_item`]); the list's own buffer only normalises breaks.
impl ElementRenderer for ListRenderer {
    open spec fn rendering(&self) -> Option<Seq<char>> {
        None
    }

    /// The buffer emptied; the counters kept.
    open spec fn start_post(&self, post: &Self) -> bool {
        post.buffer@ == Seq::<char>::empty() && post@ == self@
    }

    /// The text appended to the buffer; the counters kept.
    open spec fn text_post(&self, post: &Self, t: Seq<char>) -> bool {
        post.buffer@ == self.buffer@ + t && post@ == self@
    }

    /// A soft break is a space in the buffer, a hard one a newline.
    open spec fn break_post(&self, post: &Self, hard: bool) -> bool {
        post.buffer@ == self.buffer@.push(if hard { '\n' } else { ' ' }) && post@ == self@
    }

    fn start(&mut self, _context: &mut RenderContext) {
        self.buffer = String::new();
    }

    fn handle_text(&mut self, text: &str, _context: &mut RenderContext) {
        self.buffer.append(text);
    }

    fn handle_soft_break(&mut self, _context: &mut RenderContext) {
        push_char(&mut self.buffer, ' ');
    }

    fn handle_hard_break(&mut self, _context: &mut RenderContext) {
        push_char(&mut self.buffer, '\n');
    }

    fn end(&mut self, _context: &mut RenderContext) -> Option<String> {
        None
    }
}

// ---------------------------------------------------------------- driver

/// The mathematical value of the driver's state.
pub ghost struct StateView {
    pub out: Seq<char>,
    pub pending: nat,
    pub stack: Seq<FormattingState>,
    pub code: Option<Seq<char>>,
    pub table: Option<TableView>,
    pub quote: Option<QuoteView>,
    pub list: Option<ListView>,
    /// The lists that enclose the open one, innermost last.
    pub outer: Seq<ListView>,
    pub depth: nat,
    pub in_item: bool,
}

/// The driver's state while it walks the events: the render context, the
/// block renderers that are open, and the list nesting.
pub struct RenderState {
    pub context: RenderContext,
    pub code: Option<CodeBlockRenderer>,
    pub table: Option<TableRenderer>,
    pub quote: Option<BlockquoteRenderer>,
    pub list: Option<ListRenderer>,
    pub outer_lists: Vec<ListRenderer>,
    pub list_depth: usize,
    pub in_list_item: bool,
}

impl View for RenderState {
    type V = StateView;

    open spec fn view(&self) -> StateView {
        StateView {
            out: self.context.output@,
            pending: self.context.pending_newlines as nat,
            stack: self.context.formatting_stack@,
            code: match self.code {
                Some(c) => Some(c.buffer@),
                None => None,
            },
            table: match self.table {
                Some(t) => Some(t@),
                None => None,
            },
            quote: match self.quote {
                Some(q) => Some(q@),
                None => None,
            },
            list: match self.list {
                Some(l) => Some(l@),
                None => None,
            },
            outer: self.outer_lists@.map_values(|l: ListRenderer| l@),
            depth: self.list_depth as nat,
            in_item: self.in_list_item,
        }
    }
}

/// The state before the first event.
pub open spec fn initial_state() -> StateView {
    StateView {
        out: Seq::empty(),
        pending: 0,
        stack: Seq::empty(),
        code: None,
        table: None,
        quote: None,
        list: None,
        outer: Seq::empty(),
        depth: 0,
        in_item: false,
    }
}

pub open spec fn with_output(st: StateView, op: (Seq<char>, nat)) -> StateView {
    StateView { out: op.0, pending: op.1, ..st }
}

/// Text appended to the output.
pub open spec fn emit(st: StateView, s: Seq<char>) -> StateView {
    StateView { out: st.out + s, pending: 0, ..st }
}

pub open spec fn emit_newline(st: StateView) -> StateView {
    with_output(st, newline_step(st.out, st.pending))
}

pub open spec fn with_pending(st: StateView, p: nat) -> StateView {
    StateView { pending: p, ..st }
}

/// A closing block: its rendering if any, then a newline counted as one.
pub open spec fn close_block(st: StateView, rendering: Option<Seq<char>>) -> StateView {
    let s1 = match rendering {
        Some(r) => emit(st, r),
        None => st,
    };
    with_pending(emit_newline(s1), 1)
}

/// The state after an element opens.
pub open spec fn start_step(st: StateView, tag: MdTag) -> StateView {
    match tag {
        MdTag::Paragraph => with_output(st, blank_line_step(st.out, st.pending)),
        MdTag::Heading => with_pending(with_output(st, ensure_newline_step(st.out, st.pending)), 0),
        MdTag::List(start) => StateView {
            depth: st.depth + 1,
            list: Some(new_list(start is Some)),
            outer: match st.list {
                Some(l) => st.outer.push(l),
                None => st.outer,
            },
            ..st
        },
        MdTag::Item => match st.list {
            Some(l) => StateView {
                out: st.out + item_marker(l, st.depth),
                list: Some(item_list_step(l)),
                in_item: true,
                ..st
            },
            None => StateView { in_item: true, ..st },
        },
        MdTag::CodeBlock => StateView { code: Some(Seq::empty()), ..st },
        MdTag::BlockQuote => with_output(
            StateView { quote: Some(QuoteView { lines: Seq::empty(), current: Seq::empty() }), ..st },
            ensure_newline_step(st.out, st.pending),
        ),
        MdTag::Table => with_output(
            StateView {
                table: Some(TableView { rows: Seq::empty(), row: Seq::empty(), cell: Seq::empty() }),
                ..st
            },
            ensure_newline_step(st.out, st.pending),
        ),
        MdTag::TableHead | MdTag::TableRow => match st.table {
            Some(t) => StateView { table: Some(TableView { row: Seq::empty(), ..t }), ..st },
            None => st,
        },
        MdTag::TableCell => match st.table {
            Some(t) => StateView { table: Some(TableView { cell: Seq::empty(), ..t }), ..st },
            None => st,
        },
        MdTag::Emphasis => StateView { stack: st.stack.push(FormattingState::Italic), ..st },
        MdTag::Strong => StateView { stack: st.stack.push(FormattingState::Bold), ..st },
        MdTag::Link => StateView { stack: st.stack.push(FormattingState::Link), ..st },
        MdTag::Other => st,
    }
}

/// The state after an element closes. A close with nothing open to match is ignored.
pub open spec fn end_step(st: StateView, tag: MdTag) -> StateView {
    match tag {
        MdTag::Paragraph => with_pending(emit_newline(st), 1),
        MdTag::Heading => with_pending(emit_newline(emit_newline(st)), 2),
        MdTag::List(_) => if st.depth == 1 {
            StateView {
                list: None,
                outer: Seq::empty(),
                ..with_pending(emit_newline(StateView { depth: 0, ..st }), 1)
            }
        } else if st.depth > 1 {
            StateView {
                depth: (st.depth - 1) as nat,
                list: if st.outer.len() > 0 {
                    Some(st.outer.last())
                } else {
                    None
                },
                outer: if st.outer.len() > 0 {
                    st.outer.drop_last()
                } else {
                    st.outer
                },
                ..st
            }
        } else {
            st
        },
        MdTag::Item => with_pending(emit_newline(StateView { in_item: false, ..st }), 1),
        MdTag::CodeBlock => close_block(
            StateView { code: None, ..st },
            match st.code {
                Some(b) => Some(code_box_text(b)),
                None => None,
            },
        ),
        MdTag::BlockQuote => close_block(
            StateView { quote: None, ..st },
            match st.quote {
                Some(q) => Some(quote_text(q)),
                None => None,
            },
        ),
        MdTag::Table => close_block(
            StateView { table: None, ..st },
            match st.table {
                Some(t) => Some(table_text(t.rows)),
                None => None,
            },
        ),
        MdTag::TableHead | MdTag::TableRow => match st.table {
            Some(t) => StateView { table: Some(finish_row_step(t)), ..st },
            None => st,
        },
        MdTag::TableCell => match st.table {
            Some(t) => StateView {
                table: Some(TableView { row: t.row.push(t.cell), cell: Seq::empty(), ..t }),
                ..st
            },
            None => st,
        },
        MdTag::Emphasis | MdTag::Strong | MdTag::Link => StateView {
            stack: if st.stack.len() > 0 {
                st.stack.drop_last()
            } else {
                st.stack
            },
            ..st
        },
        MdTag::Other => st,
    }
}

/// Where text goes: into the open code block, table cell or quote line, else
/// to the output.
pub open spec fn text_step(st: StateView, t: Seq<char>) -> StateView {
    if st.code is Some {
        StateView { code: Some(st.code->0 + t), ..st }
    } else if st.table is Some {
        StateView { table: Some(TableView { cell: st.table->0.cell + t, ..st.table->0 }), ..st }
    } else if st.quote is Some {
        StateView { quote: Some(QuoteView { current: st.quote->0.current + t, ..st.quote->0 }), ..st }
    } else {
        emit(st, t)
    }
}

/// A line break: a newline in code, a space (soft) or newline (hard) in a
/// cell, the end of a quote line; else a space (soft) or a newline indented
/// to the open list item (hard).
pub open spec fn break_step(st: StateView, hard: bool) -> StateView {
    if st.code is Some {
        StateView { code: Some(st.code->0.push('\n')), ..st }
    } else if st.table is Some {
        StateView {
            table: Some(
                TableView {
                    cell: st.table->0.cell.push(if hard { '\n' } else { ' ' }),
                    ..st.table->0
                },
            ),
            ..st
        }
    } else if st.quote is Some {
        StateView {
            quote: Some(
                QuoteView { lines: st.quote->0.lines.push(st.quote->0.current), current: Seq::empty() },
            ),
            ..st
        }
    } else if !hard {
        emit(st, seq![' '])
    } else if st.in_item && st.depth > 0 {
        emit(emit_newline(st), repeat_char(' ', 2 * st.depth))
    } else {
        emit_newline(st)
    }
}

/// The state after one event, with colours off.
pub open spec fn event_step(st: StateView, e: EventView) -> StateView {
    match e {
        EventView::Start(tag) => start_step(st, tag),
        EventView::End(tag) => end_step(st, tag),
        EventView::Text(t) => text_step(st, t),
        EventView::Code(c) => emit(st, c),
        EventView::SoftBreak => break_step(st, false),
        EventView::HardBreak => break_step(st, true),
        EventView::TaskListMarker(checked) => emit(
            st,
            if checked {
                seq!['☑', ' ']
            } else {
                seq!['☐', ' ']
            },
        ),
        EventView::Html | EventView::Other => st,
    }
}

/// The state after all of `es`.
pub open spec fn run(es: Seq<EventView>) -> StateView
    decreases es.len(),
{
    if es.len() == 0 {
        initial_state()
    } else {
        event_step(run(es.drop_last()), es.last())
    }
}

/// The text that events render to with colours off.
pub open spec fn rendered(es: Seq<EventView>) -> Seq<char> {
    finished(run(es).out)
}

/// A list's item counter stays within `n`.
pub open spec fn count_within(l: ListView, n: nat) -> bool {
    l.indices.len() > 0 ==> l.indices.last() <= n
}

/// The counters of a state stay within `n`, and a list is open only inside one.
pub open spec fn counters_within(st: StateView, n: nat) -> bool {
    &&& st.depth <= n
    &&& st.list is Some ==> st.depth >= 1
    &&& st.list is Some ==> count_within(st.list->0, n)
    &&& forall|k: int| 0 <= k < st.outer.len() ==> count_within(#[trigger] st.outer[k], n)
}

proof fn lemma_counters_step(st: StateView, e: EventView, n: nat)
    requires
        counters_within(st, n),
    ensures
        counters_within(event_step(st, e), n + 1),
{
}

// ---------------------------------------------------------------- outside calls

/// The events that pulldown-cmark makes of a text with every extension on.
pub uninterp spec fn markdown_events(s: Seq<char>) -> Seq<EventView>;

/// pulldown-cmark's element kinds, carried through opaquely.
#[verifier::external_type_specification]
#[verifier::external_body]
pub struct ExTag<'a>(Tag<'a>);

/// Converts one of pulldown-cmark's element kinds, variant for variant.
#[verifier::external_body]
fn tag_of(t: Tag<'_>) -> MdTag {
    match t {
        Tag::Paragraph => MdTag::Paragraph,
        Tag::Heading(..) => MdTag::Heading,
        Tag::BlockQuote => MdTag::BlockQuote,
        Tag::CodeBlock(_) => MdTag::CodeBlock,
        Tag::List(n) => MdTag::List(n),
        Tag::Item => MdTag::Item,
        Tag::Table(_) => MdTag::Table,
        Tag::TableHead => MdTag::TableHead, Tag::TableRow => MdTag::TableRow,
        Tag::TableCell => MdTag::TableCell,
        Tag::Emphasis => MdTag::Emphasis, Tag::Strong => MdTag::Strong,
        Tag::Link(..) => MdTag::Link,
        _ => MdTag::Other,
    }
}

/// Relies on `pulldown_cmark::Parser::new_ext` with `Options::all()`: the
/// events depend on the text alone. Each is converted one for one.
#[verifier::external_body]
fn parse_events(markdown: &str) -> (r: Vec<MdEvent>)
    ensures
        event_views(r@) == markdown_events(markdown@),
{
    Parser::new_ext(markdown, Options::all()).map(|e| match e {
        Event::Start(t) => MdEvent::Start(tag_of(t)),
        Event::End(t) => MdEvent::End(tag_of(t)),
        Event::Text(s) => MdEvent::Text(s.to_string()),
        Event::Code(s) => MdEvent::Code(s.to_string()),
        Event::Html(_) => MdEvent::Html,
        Event::SoftBreak => MdEvent::SoftBreak,
        Event::HardBreak => MdEvent::HardBreak,
        Event::TaskListMarker(c) => MdEvent::TaskListMarker(c),
        _ => MdEvent::Other,
    }).collect()
}

/// The sequence that resets all styles.
pub open spec fn reset_seq() -> Seq<char> {
    seq!['\x1b', '[', '0', 'm']
}

/// The sequence that selects the style with the given codes.
pub open spec fn style_open(codes: Seq<char>) -> Seq<char> {
    seq!['\x1b', '['] + codes + seq!['m']
}

/// `s` with `open` put back after every reset sequence in it, so that an inner
/// reset does not end the outer style.
pub open spec fn reopen(s: Seq<char>, open: Seq<char>) -> Seq<char>
    decreases s.len(),
{
    if s.len() == 0 {
        Seq::empty()
    } else if s.len() >= 4 && s.subrange(0, 4) == reset_seq() {
        reset_seq() + open + reopen(s.skip(4), open)
    } else {
        seq![s[0]] + reopen(s.skip(1), open)
    }
}

/// What a colored style with the given codes yields once displayed: the text
/// unchanged when the environment turns colouring off, else the style's
/// opening sequence, the text with the style reopened after each inner reset,
/// and the reset sequence.
pub open spec fn styled(r: Seq<char>, s: Seq<char>, codes: Seq<char>) -> bool {
    r == s || r == style_open(codes) + reopen(s, style_open(codes)) + reset_seq()
}

/// The codes of the style each inline state is drawn with: bold, italic, and
/// underlined blue for links.
pub open spec fn codes_of(f: FormattingState) -> Seq<char> {
    match f {
        FormattingState::Bold => seq!['1'],
        FormattingState::Italic => seq!['3'],
        FormattingState::Link => seq!['4', ';', '3', '4'],
    }
}

/// `ms` wraps `text` in the styles of `stack`, innermost (last) first: each
/// element is the next one under the style at its position, the last is the text.
pub open spec fn style_chain(ms: Seq<Seq<char>>, stack: Seq<FormattingState>, text: Seq<char>) -> bool {
    &&& ms.len() == stack.len() + 1
    &&& ms[stack.len() as int] == text
    &&& forall|i: int| 0 <= i < stack.len() ==> styled(#[trigger] ms[i], ms[i + 1], codes_of(stack[i]))
}

/// Relies on colored's `Colorize::bold`.
#[verifier::external_body]
fn bold(s: &str) -> (r: String)
    ensures
        styled(r@, s@, seq!['1']),
{
    s.bold().to_string()
}

/// Relies on colored's `Colorize::italic`.
#[verifier::external_body]
fn italic(s: &str) -> (r: String)
    ensures
        styled(r@, s@, seq!['3']),
{
    s.italic().to_string()
}

/// Relies on colored's `Colorize::blue` and `Colorize::underline`, which make one style.
#[verifier::external_body]
fn blue_underline(s: &str) -> (r: String)
    ensures
        styled(r@, s@, seq!['4', ';', '3', '4']),
{
    s.blue().underline().to_string()
}

/// Relies on colored's `Colorize::reversed`.
#[verifier::external_body]
fn reversed(s: &str) -> (r: String)
    ensures
        styled(r@, s@, seq!['7']),
{
    s.reversed().to_string()
}

/// `p` occurs in `s`.
pub open spec fn occurs(s: Seq<char>, p: Seq<char>) -> bool {
    exists|i: int| 0 <= i && i + p.len() <= s.len() && #[trigger] s.subrange(i, i + p.len()) == p
}

/// Whether `p` occurs in `cs` at position `i`.
fn occurs_at(cs: &Vec<char>, p: &Vec<char>, i: usize) -> (r: bool)
    requires
        i + p@.len() <= cs@.len(),
    ensures
        r == (cs@.subrange(i as int, i + p@.len()) == p@),
{
    let n = cs.len();
    let mut j: usize = 0;
    while j < p.len()
        invariant
            n == cs@.len(),
            i + p@.len() <= cs@.len(),
            j <= p@.len(),
            forall|k: int| 0 <= k < j ==> cs@[i + k] == p@[k],
        decreases p@.len() - j,
    {
        if cs[i + j] != p[j] {
            assert(cs@.subrange(i as int, i + p@.len())[j as int] != p@[j as int]);
            return false;
        }
        j = j + 1;
    }
    assert(cs@.subrange(i as int, i + p@.len()) =~= p@);
    true
}

/// Whether `p` occurs in `s`.
fn contains(s: &str, p: &str) -> (r: bool)
    ensures
        r == occurs(s@, p@),
{
    let cs = chars_of(s);
    let ps = chars_of(p);
    if ps.len() > cs.len() {
        return false;
    }
    let last = cs.len() - ps.len();
    let mut i: usize = 0;
    while i < last
        invariant
            cs@ == s@,
            ps@ == p@,
            last == cs@.len() - ps@.len(),
            i <= last,
            forall|j: int| 0 <= j < i ==> #[trigger] s@.subrange(j, j + p@.len()) != p@,
        decreases last - i,
    {
        if occurs_at(&cs, &ps, i) {
            return true;
        }
        i = i + 1;
    }
    occurs_at(&cs, &ps, last)
}

/// Whether a text holds anything that may be markdown: `**`, `*`, a backtick,
/// `#`, `[`, `- `, `1. ` or a newline.
pub open spec fn has_syntax(s: Seq<char>) -> bool {
    occurs(s, seq!['*', '*']) || occurs(s, seq!['*']) || occurs(s, seq!['`']) || occurs(s, seq!['#'])
        || occurs(s, seq!['[']) || occurs(s, seq!['-', ' ']) || occurs(s, seq!['1', '.', ' '])
        || occurs(s, seq!['\n'])
}

// ---------------------------------------------------------------- renderer

/// Renders markdown for a terminal, in colour or not.
pub struct MarkdownRenderer {
    pub use_colors: bool,
}

/// What state the driver needs to take one more event without overflow.
pub open spec fn ready(st: StateView) -> bool {
    &&& st.depth < usize::MAX
    &&& st.list is Some ==> st.depth >= 1
    &&& st.list is Some && st.list->0.indices.len() > 0 ==> st.list->0.indices.last() < usize::MAX
}

/// The state after one event: exactly `event_step` with colours off; with
/// colours on, only the output may differ.
pub open spec fn stepped(colors: bool, before: StateView, after: StateView, e: EventView) -> bool {
    &&& !colors ==> after == event_step(before, e)
    &&& after == StateView { out: after.out, ..event_step(before, e) }
}

impl MarkdownRenderer {
    /// A renderer that writes colours and styles when `use_colors` holds.
    pub fn new(use_colors: bool) -> (r: Self)
        ensures
            r.use_colors == use_colors,
    {
        MarkdownRenderer { use_colors }
    }

    /// Text under the open styles, innermost first; unchanged with colours off.
    fn render_text(&self, text: &str, stack: &Vec<FormattingState>) -> (r: String)
        ensures
            !self.use_colors ==> r@ == text@,
            self.use_colors ==> exists|ms: Seq<Seq<char>>|
                #[trigger] style_chain(ms, stack@, text@) && ms[0] == r@,
    {
        if !self.use_colors {
            return String::from_str(text);
        }
        let mut result = String::from_str(text);
        let mut i: usize = stack.len();
        let ghost mut chain: Seq<Seq<char>> = seq![text@];
        while i > 0
            invariant
                i <= stack@.len(),
                chain.len() == stack@.len() - i + 1,
                chain[0] == result@,
                chain[stack@.len() - i] == text@,
                forall|j: int|
                    0 <= j < stack@.len() - i ==> styled(
                        #[trigger] chain[j],
                        chain[j + 1],
                        codes_of(stack@[i + j]),
                    ),
            decreases i,
        {
            i = i - 1;
            result = match stack[i] {
                FormattingState::Bold => bold(result.as_str()),
                FormattingState::Italic => italic(result.as_str()),
                FormattingState::Link => blue_underline(result.as_str()),
            };
            proof {
                let prev = chain;
                chain = seq![result@] + prev;
                assert forall|j: int| 0 <= j < stack@.len() - i implies styled(
                    #[trigger] chain[j],
                    chain[j + 1],
                    codes_of(stack@[i + j]),
                ) by {
                    if j > 0 {
                        assert(chain[j] == prev[j - 1]);
                        assert(chain[j + 1] == prev[j]);
                        assert(styled(prev[j - 1], prev[j], codes_of(stack@[(i + 1) + (j - 1)])));
                    }
                }
            }
        }
        assert(style_chain(chain, stack@, text@));
        result
    }

    /// Inline code: reverse video with colours on, verbatim with colours off.
    fn render_inline_code(&self, code: &str) -> (r: String)
        ensures
            !self.use_colors ==> r@ == code@,
            self.use_colors ==> styled(r@, code@, seq!['7']),
    {
        if !self.use_colors {
            return String::from_str(code);
        }
        reversed(code)
    }

    /// Rows of cells drawn as a grid of boxes.
    pub fn render_table(&self, rows: &[Vec<String>]) -> (r: String)
        ensures
            r@ == table_text(grid(rows@)),
    {
        table_grid(rows)
    }

    /// Whether the text holds anything that may be markdown.
    pub fn has_markdown_syntax(&self, text: &str) -> (r: bool)
        ensures
            r == has_syntax(text@),
    {
        proof {
            reveal_strlit("**");
            reveal_strlit("*");
            reveal_strlit("`");
            reveal_strlit("#");
            reveal_strlit("[");
            reveal_strlit("- ");
            reveal_strlit("1. ");
            reveal_strlit("\n");
            assert("**"@ =~= seq!['*', '*']);
            assert("*"@ =~= seq!['*']);
            assert("`"@ =~= seq!['`']);
            assert("#"@ =~= seq!['#']);
            assert("["@ =~= seq!['[']);
            assert("- "@ =~= seq!['-', ' ']);
            assert("1. "@ =~= seq!['1', '.', ' ']);
            assert("\n"@ =~= seq!['\n']);
        }
        contains(text, "**") || contains(text, "*") || contains(text, "`") || contains(text, "#")
            || contains(text, "[") || contains(text, "- ") || contains(text, "1. ")
            || contains(text, "\n")
    }
}

impl MarkdownRenderer {
    /// An element opens.
    fn start_tag(&self, st: &mut RenderState, tag: MdTag)
        requires
            ready(old(st)@),
        ensures
            final(st)@ == start_step(old(st)@, tag),
    {
        match tag {
            MdTag::Paragraph => st.context.ensure_blank_line(),
            MdTag::Heading => {
                st.context.ensure_newline();
                st.context.pending_newlines = 0;
            },
            MdTag::List(start) => {
                st.list_depth = st.list_depth + 1;
                if let Some(l) = st.list.take() {
                    let ghost before = st.outer_lists@;
                    st.outer_lists.push(l);
                    assert(st.outer_lists@.map_values(|l: ListRenderer| l@) =~= before.map_values(
                        |l: ListRenderer| l@,
                    ).push(l@));
                }
                st.list = Some(ListRenderer::new(start.is_some(), st.list_depth));
            },
            MdTag::Item => {
                st.in_list_item = true;
                if let Some(mut l) = st.list.take() {
                    l.start_item(&mut st.context.output, st.list_depth);
                    st.list = Some(l);
                }
            },
            MdTag::CodeBlock => {
                st.code = Some(CodeBlockRenderer::new());
            },
            MdTag::BlockQuote => {
                st.quote = Some(BlockquoteRenderer::new());
                st.context.ensure_newline();
            },
            MdTag::Table => {
                st.table = Some(TableRenderer::new());
                st.context.ensure_newline();
            },
            MdTag::TableHead | MdTag::TableRow => {
                if let Some(mut t) = st.table.take() {
                    t.start_row();
                    st.table = Some(t);
                }
            },
            MdTag::TableCell => {
                if let Some(mut t) = st.table.take() {
                    t.start_cell();
                    st.table = Some(t);
                }
            },
            MdTag::Emphasis => st.context.formatting_stack.push(FormattingState::Italic),
            MdTag::Strong => st.context.formatting_stack.push(FormattingState::Bold),
            MdTag::Link => st.context.formatting_stack.push(FormattingState::Link),
            MdTag::Other => {},
        }
    }

    /// A newline that closes something, with the newline count set to `p`.
    fn close_line(st: &mut RenderState, p: usize)
        ensures
            final(st)@ == with_pending(emit_newline(old(st)@), p as nat),
    {
        st.context.push_newline();
        st.context.pending_newlines = p;
    }

    /// An element closes.
    fn end_tag(&self, st: &mut RenderState, tag: MdTag)
        ensures
            final(st)@ == end_step(old(st)@, tag),
    {
        match tag {
            MdTag::Paragraph => Self::close_line(st, 1),
            MdTag::Heading => {
                st.context.push_newline();
                Self::close_line(st, 2);
            },
            MdTag::List(_) => {
                if st.list_depth > 0 {
                    st.list_depth = st.list_depth - 1;
                    if st.list_depth == 0 {
                        Self::close_line(st, 1);
                        st.list = None;
                        st.outer_lists = Vec::new();
                        assert(st@.outer =~= Seq::empty());
                    } else {
                        let ghost before = st.outer_lists@;
                        st.list = st.outer_lists.pop();
                        proof {
                            if before.len() > 0 {
                                assert(st.outer_lists@.map_values(|l: ListRenderer| l@)
                                    =~= before.map_values(|l: ListRenderer| l@).drop_last());
                            }
                        }
                    }
                }
            },
            MdTag::Item => {
                st.in_list_item = false;
                Self::close_line(st, 1);
            },
            MdTag::CodeBlock => {
                if let Some(c) = st.code.take() {
                    let out = c.finish();
                    st.context.push_str(out.as_str());
                }
                Self::close_line(st, 1);
            },
            MdTag::BlockQuote => {
                if let Some(mut q) = st.quote.take() {
                    let out = q.finish();
                    st.context.push_str(out.as_str());
                }
                Self::close_line(st, 1);
            },
            MdTag::Table => {
                if let Some(t) = st.table.take() {
                    let out = t.render_table();
                    st.context.push_str(out.as_str());
                }
                Self::close_line(st, 1);
            },
            MdTag::TableHead | MdTag::TableRow => {
                if let Some(mut t) = st.table.take() {
                    t.end_row();
                    st.table = Some(t);
                }
            },
            MdTag::TableCell => {
                if let Some(mut t) = st.table.take() {
                    t.end_cell();
                    st.table = Some(t);
                }
            },
            MdTag::Emphasis | MdTag::Strong | MdTag::Link => {
                let _ = st.context.formatting_stack.pop();
            },
            MdTag::Other => {},
        }
    }

    /// Text: into the open block, else styled into the output.
    fn text(&self, st: &mut RenderState, text: &str)
        ensures
            stepped(self.use_colors, old(st)@, final(st)@, EventView::Text(text@)),
    {
        if let Some(mut c) = st.code.take() {
            c.append_text(text);
            st.code = Some(c);
        } else if let Some(mut t) = st.table.take() {
            t.append_text(text);
            st.table = Some(t);
        } else if let Some(mut q) = st.quote.take() {
            q.append_text(text);
            st.quote = Some(q);
        } else {
            let r = self.render_text(text, &st.context.formatting_stack);
            st.context.push_str(r.as_str());
        }
    }

    /// A soft or hard line break.
    fn line_break(&self, st: &mut RenderState, hard: bool)
        ensures
            final(st)@ == break_step(old(st)@, hard),
    {
        proof {
            reveal_strlit(" ");
            reveal_strlit("  ");
            assert(" "@ =~= seq![' ']);
            assert("  "@ =~= seq![' ', ' ']);
        }
        if let Some(mut c) = st.code.take() {
            c.append_break();
            st.code = Some(c);
        } else if let Some(mut t) = st.table.take() {
            t.append_break(hard);
            st.table = Some(t);
        } else if let Some(mut q) = st.quote.take() {
            q.append_break();
            st.quote = Some(q);
        } else if !hard {
            st.context.push_str(" ");
        } else {
            st.context.push_newline();
            if st.in_list_item && st.list_depth > 0 {
                let ghost nl = st@;
                let mut i: usize = 0;
                while i < st.list_depth - 1
                    invariant
                        "  "@ == seq![' ', ' '],
                        st.list_depth > 0,
                        i <= st.list_depth - 1,
                        i == 0 ==> st@ == nl,
                        i > 0 ==> st@ == emit(nl, repeat_char(' ', 2 * i as nat)),
                    decreases st.list_depth - 1 - i,
                {
                    st.context.push_str("  ");
                    i = i + 1;
                    assert(st.context.output@ =~= nl.out + repeat_char(' ', 2 * i as nat));
                }
                st.context.push_str("  ");
                assert(st.context.output@ =~= nl.out + repeat_char(' ', 2 * st.list_depth as nat));
            }
        }
    }

    /// One event.
    fn handle_event(&self, st: &mut RenderState, ev: &MdEvent)
        requires
            ready(old(st)@),
        ensures
            stepped(self.use_colors, old(st)@, final(st)@, ev@),
    {
        proof {
            reveal_strlit("☑ ");
            reveal_strlit("☐ ");
            assert("☑ "@ =~= seq!['☑', ' ']);
            assert("☐ "@ =~= seq!['☐', ' ']);
        }
        match ev {
            MdEvent::Start(tag) => self.start_tag(st, *tag),
            MdEvent::End(tag) => self.end_tag(st, *tag),
            MdEvent::Text(text) => self.text(st, text.as_str()),
            MdEvent::Code(code) => {
                let r = self.render_inline_code(code.as_str());
                st.context.push_str(r.as_str());
            },
            MdEvent::SoftBreak => self.line_break(st, false),
            MdEvent::HardBreak => self.line_break(st, true),
            MdEvent::TaskListMarker(checked) => {
                if *checked {
                    st.context.push_str("☑ ");
                } else {
                    st.context.push_str("☐ ");
                }
            },
            MdEvent::Html | MdEvent::Other => {},
        }
    }

    /// Renders a sequence of events: exactly [`rendered`] with colours off; the
    /// text always ends with a single newline after its last non-blank character.
    pub fn render_events(&self, events: &Vec<MdEvent>) -> (r: String)
        ensures
            !self.use_colors ==> r@ == rendered(event_views(events@)),
            r@.len() > 0 && r@.last() == '\n',
            trim_end_seq(r@.drop_last()) == r@.drop_last(),
    {
        let ghost es = event_views(events@);
        let mut st = RenderState {
            context: RenderContext::new(self.use_colors),
            code: None,
            table: None,
            quote: None,
            list: None,
            outer_lists: Vec::new(),
            list_depth: 0,
            in_list_item: false,
        };
        assert(st@.outer =~= Seq::empty());
        assert(st@ =~= initial_state());
        let mut i: usize = 0;
        while i < events.len()
            invariant
                es == event_views(events@),
                i <= events@.len(),
                counters_within(st@, i as nat),
                !self.use_colors ==> st@ == run(es.subrange(0, i as int)),
            decreases events@.len() - i,
        {
            let ghost before = st@;
            self.handle_event(&mut st, &events[i]);
            proof {
                lemma_counters_step(before, es[i as int], i as nat);
                let sub = es.subrange(0, i + 1);
                assert(sub.drop_last() =~= es.subrange(0, i as int));
                assert(sub.last() == events@[i as int]@);
            }
            i = i + 1;
        }
        assert(es.subrange(0, events@.len() as int) =~= es);
        let r = st.context.into_output();
        proof {
            crate::text::lemma_trim_end_idempotent(st.context.output@);
            assert(r@.drop_last() =~= trim_end_seq(st.context.output@));
        }
        r
    }

    /// Renders markdown. A text with nothing that may be markdown in it comes
    /// back unchanged; any other is parsed and rendered from its events.
    pub fn render(&self, markdown: &str) -> (r: String)
        ensures
            !has_syntax(markdown@) ==> r@ == markdown@,
            has_syntax(markdown@) && !self.use_colors ==> r@ == rendered(
                markdown_events(markdown@),
            ),
            has_syntax(markdown@) ==> r@.len() > 0 && r@.last() == '\n' && trim_end_seq(
                r@.drop_last(),
            ) == r@.drop_last(),
    {
        if !self.has_markdown_syntax(markdown) {
            return String::from_str(markdown);
        }
        let events = parse_events(markdown);
        self.render_events(&events)
    }
}

/// A list after `k` items have opened in it.
pub open spec fn after_items(l: ListView, k: nat) -> ListView
    decreases k,
{
    if k == 0 {
        l
    } else {
        item_list_step(after_items(l, (k - 1) as nat))
    }
}

/// In an ordered list the item that opens after `k` others is numbered `k + 1`:
/// numbers start at 1 and go up by one per item.
pub proof fn lemma_ordered_numbering(k: nat, depth: nat)
    requires
        depth >= 1,
    ensures
        after_items(new_list(true), k).ordered,
        after_items(new_list(true), k).indices == seq![k],
        item_marker(after_items(new_list(true), k), depth) == repeat_char(
            ' ',
            2 * (depth - 1) as nat,
        ) + decimal(k + 1) + seq!['.', ' '],
    decreases k,
{
    if k > 0 {
        lemma_ordered_numbering((k - 1) as nat, depth);
        let prev = after_items(new_list(true), (k - 1) as nat);
        assert(prev.indices.last() == k - 1);
        assert(after_items(new_list(true), k).indices =~= seq![k]);
    }
}

} // verus!
