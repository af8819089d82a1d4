//! A block tree to a flat display list.
//
// everything on a page stands on the terminal's grid: a row
// is a row of cells and a column of body text is a column of
// cells. positions across are in hundredths of a column,
// because a heading's columns are wider than the body's

use vstd::prelude::*;

use crate::columns;
use crate::columns::width;
use crate::source::index;
use crate::source::index::{Heading, HeadingModel, Line, LineModel};
use crate::source::markdown::event;
use crate::source::markdown::highlight;
use crate::source::markdown::highlight::{Highlighter, Span, SpanModel};
use crate::source::markdown::measure;
use crate::source::markdown::measure::{column_widths, expand_tabs, flatten, TABLE_GAP};
use crate::source::markdown::parse;
use crate::source::markdown::parse::{
    Align, Block, BlockModel, Callout, Doc, Footnote, Inline, InlineModel, ItemModel, ListItem,
    NoteModel, Style, Table, TableModel,
};
use crate::source::markdown::wrap;
use crate::source::markdown::wrap::{hard_split, Piece, PieceModel};
use crate::text;
use crate::text::push_dec;

verus! {

/// A colour, as red, green, blue.
#[derive(Clone, Copy, Debug, PartialEq, Eq, Structural)]
pub struct Rgb(pub u8, pub u8, pub u8);

/// One drawing instruction.
#[derive(Debug)]
pub enum Item {
    /// A filled block, from column `inset` of the content to its right edge.
    Fill { inset: usize, y: usize, h: usize, fill: Rgb },
    /// A hairline through the middle of a row, from column `inset` of the content: `span` columns
    /// of it, or to its right edge.
    Rule { inset: usize, y: usize, span: Option<usize>, fill: Rgb },
    /// A bar at column `inset` of the content.
    Bar { inset: usize, y: usize, h: usize, fill: Rgb },
    /// A run of text, from `x` hundredths of a column on, in the line box that begins in row
    /// `top`. Its type is `scale` hundredths of the body's.
    Run {
        x: usize,
        top: usize,
        scale: usize,
        text: String,
        bold: bool,
        italic: bool,
        strike: bool,
        fill: Rgb,
    },
}

/// An `Item`, with its text as characters.
#[verifier::ext_equal]
pub enum ItemDrawn {
    Fill { inset: usize, y: usize, h: usize, fill: Rgb },
    Rule { inset: usize, y: usize, span: Option<usize>, fill: Rgb },
    Bar { inset: usize, y: usize, h: usize, fill: Rgb },
    Run {
        x: usize,
        top: usize,
        scale: usize,
        text: Seq<char>,
        bold: bool,
        italic: bool,
        strike: bool,
        fill: Rgb,
    },
}

impl View for Item {
    type V = ItemDrawn;

    open spec fn view(&self) -> ItemDrawn {
        match *self {
            Item::Fill { inset, y, h, fill } => ItemDrawn::Fill { inset, y, h, fill },
            Item::Rule { inset, y, span, fill } => ItemDrawn::Rule { inset, y, span, fill },
            Item::Bar { inset, y, h, fill } => ItemDrawn::Bar { inset, y, h, fill },
            Item::Run { x, top, scale, text, bold, italic, strike, fill } => ItemDrawn::Run {
                x,
                top,
                scale,
                text: text@,
                bold,
                italic,
                strike,
                fill,
            },
        }
    }
}

/// The models of drawing instructions.
pub open spec fn items_drawn(s: Seq<Item>) -> Seq<ItemDrawn> {
    s.map_values(|i: Item| i@)
}

/// A page of drawing instructions, in painter's order.
#[derive(Debug)]
pub struct Page {
    /// How many rows it takes.
    pub rows: usize,
    pub items: Vec<Item>,
    /// The text of the page, one entry per drawn line.
    pub lines: Vec<Line>,
    pub outline: Vec<Heading>,
}

/// The bar and label colour of each kind of callout.
#[derive(Clone, Copy, Debug, PartialEq, Eq, Structural)]
pub struct Callouts {
    pub note: Rgb,
    pub tip: Rgb,
    pub important: Rgb,
    pub warning: Rgb,
    pub caution: Rgb,
}

impl Callouts {
    /// The colour of a callout, as a specification.
    pub open spec fn colour(self, c: Callout) -> Rgb {
        match c {
            Callout::Note => self.note,
            Callout::Tip => self.tip,
            Callout::Important => self.important,
            Callout::Warning => self.warning,
            Callout::Caution => self.caution,
        }
    }

    /// The colour of a callout.
    pub fn of(&self, c: Callout) -> (r: Rgb)
        ensures
            r == self.colour(c),
    {
        match c {
            Callout::Note => self.note,
            Callout::Tip => self.tip,
            Callout::Important => self.important,
            Callout::Warning => self.warning,
            Callout::Caution => self.caution,
        }
    }
}

/// The colours of a page.
#[derive(Clone, Copy, Debug, PartialEq, Eq, Structural)]
pub struct Theme {
    pub bg: Rgb,
    pub fg: Rgb,
    pub dim: Rgb,
    pub link: Rgb,
    pub code_fg: Rgb,
    pub code_bg: Rgb,
    pub rule: Rgb,
    pub quote_bar: Rgb,
    pub callout: Callouts,
}

impl Theme {
    /// Light text on a dark page.
    pub fn dark() -> (r: Theme)
        ensures
            r.bg == Rgb(0x1e, 0x1e, 0x1e),
            r.fg == Rgb(0xd4, 0xd4, 0xd4),
            r.dim == Rgb(0x85, 0x85, 0x85),
            r.link == Rgb(0x6c, 0xa9, 0xef),
            r.code_fg == Rgb(0xce, 0x91, 0x78),
            r.code_bg == Rgb(0x2a, 0x2a, 0x2a),
            r.rule == Rgb(0x3a, 0x3a, 0x3a),
            r.quote_bar == Rgb(0x4a, 0x4a, 0x4a),
            r.callout.note == Rgb(0x53, 0x9b, 0xf5),
            r.callout.tip == Rgb(0x57, 0xab, 0x5a),
            r.callout.important == Rgb(0x98, 0x6e, 0xe2),
            r.callout.warning == Rgb(0xc6, 0x90, 0x26),
            r.callout.caution == Rgb(0xe5, 0x53, 0x4b),
    {
        Theme {
            bg: Rgb(0x1e, 0x1e, 0x1e),
            fg: Rgb(0xd4, 0xd4, 0xd4),
            dim: Rgb(0x85, 0x85, 0x85),
            link: Rgb(0x6c, 0xa9, 0xef),
            code_fg: Rgb(0xce, 0x91, 0x78),
            code_bg: Rgb(0x2a, 0x2a, 0x2a),
            rule: Rgb(0x3a, 0x3a, 0x3a),
            quote_bar: Rgb(0x4a, 0x4a, 0x4a),
            callout: Callouts {
                note: Rgb(0x53, 0x9b, 0xf5),
                tip: Rgb(0x57, 0xab, 0x5a),
                important: Rgb(0x98, 0x6e, 0xe2),
                warning: Rgb(0xc6, 0x90, 0x26),
                caution: Rgb(0xe5, 0x53, 0x4b),
            },
        }
    }
}

/// The room a page is laid out in.
#[derive(Clone, Copy, Debug, PartialEq, Eq, Structural)]
pub struct Frame {
    /// How wide the content is, in hundredths of a column.
    pub width: usize,
    /// How many columns stand to its left.
    pub left: usize,
    /// How many rows stand above it, and below.
    pub margin: usize,
}

/// `n`, or the last position there is where it lies beyond.
pub open spec fn at_most(n: int) -> usize {
    if n > usize::MAX {
        usize::MAX
    } else {
        n as usize
    }
}

/// How large a heading's type is, in hundredths of the body's.
//
// these were eyeballed against a terminal, not derived from
// anything
pub open spec fn scale_of(level: u8) -> usize {
    if level <= 1 {
        200
    } else if level == 2 {
        160
    } else if level == 3 {
        130
    } else if level == 4 {
        115
    } else {
        100
    }
}

/// How many rows the line box of type takes: as many as it needs, and one at least.
pub open spec fn rows_for(scale: usize) -> usize {
    let rows = (10 * scale + 998) / 1000;
    if rows < 1 {
        1
    } else {
        rows as usize
    }
}

/// How many columns of type stand between column `inset` of the content and its right edge, and
/// one at least.
pub open spec fn cols_at(f: Frame, inset: usize, scale: usize) -> nat {
    let room = f.width - 100 * inset;
    let cols = room / scale as int;
    if room < 0 || cols < 1 {
        1
    } else {
        cols as nat
    }
}

/// Where column `col` of type that begins in column `inset` of the content stands on the page.
pub open spec fn x_of(f: Frame, inset: int, col: int, scale: usize) -> usize {
    at_most(100 * (f.left + inset) + col * scale)
}

/// A style with nothing but weight.
pub open spec fn bold_style() -> Style {
    Style { bold: true, ..measure::plain_style() }
}

/// What a page is drawn by: its room and its colours.
pub struct Setting {
    pub frame: Frame,
    pub theme: Theme,
}

impl Setting {
    /// The colour of text.
    pub open spec fn ink(self, style: Style) -> Rgb {
        if style.code {
            self.theme.code_fg
        } else if style.link {
            self.theme.link
        } else {
            self.theme.fg
        }
    }

    /// A piece of text on a line.
    pub open spec fn run(
        self,
        p: PieceModel,
        inset: int,
        top: usize,
        scale: usize,
    ) -> ItemDrawn {
        ItemDrawn::Run {
            x: x_of(self.frame, inset, p.col as int, scale),
            top,
            scale,
            text: p.text,
            bold: p.style.bold,
            italic: p.style.italic,
            strike: p.style.strike,
            fill: self.ink(p.style),
        }
    }

    /// The pieces of a line.
    pub open spec fn runs(
        self,
        line: Seq<PieceModel>,
        inset: int,
        top: usize,
        scale: usize,
    ) -> Seq<ItemDrawn> {
        line.map_values(|p: PieceModel| self.run(p, inset, top, scale))
    }
}

/// A page being drawn: the row that is next, what was drawn, the headings so far.
#[verifier::ext_equal]
pub struct Canvas {
    pub y: usize,
    pub items: Seq<ItemDrawn>,
    pub outline: Seq<HeadingModel>,
}

/// Spans of a line of code broken at columns.
#[verifier::ext_equal]
pub struct Folding {
    pub out: Seq<Seq<(usize, SpanModel)>>,
    pub line: Seq<(usize, SpanModel)>,
    pub col: usize,
}

impl Folding {
    /// A piece of a span goes onto the line, or onto the next where it would pass `cols`.
    pub open spec fn with_chunk(self, t: Seq<char>, fill: Rgb, cols: nat) -> Folding {
        let w = columns::columns(t);
        let span = SpanModel { text: t, fill };
        if self.col > 0 && self.col + w > cols {
            Folding { out: self.out.push(self.line), line: seq![(0usize, span)], col: w }
        } else {
            Folding { line: self.line.push((self.col, span)), col: (self.col + w) as usize, ..self }
        }
    }

    /// The first `n` pieces of a span go on.
    pub open spec fn with_chunks(self, chunks: Seq<Seq<char>>, fill: Rgb, cols: nat, n: nat) -> Folding
        decreases n,
    {
        if n == 0 || n > chunks.len() {
            self
        } else {
            self.with_chunks(chunks, fill, cols, (n - 1) as nat).with_chunk(
                chunks[n - 1],
                fill,
                cols,
            )
        }
    }

    /// Spans go on, first to last.
    pub open spec fn with_spans(self, spans: Seq<SpanModel>, cols: nat) -> Folding
        decreases spans.len(),
    {
        if spans.len() == 0 {
            self
        } else {
            let chunks = wrap::chunks_of(spans.last().text, cols);
            self.with_spans(spans.drop_last(), cols).with_chunks(
                chunks,
                spans.last().fill,
                cols,
                chunks.len(),
            )
        }
    }
}

/// One source line's spans on display lines of at most `cols` columns, each piece with the column
/// it starts at.
pub open spec fn folded(spans: Seq<SpanModel>, cols: nat) -> Seq<Seq<(usize, SpanModel)>> {
    let f = Folding { out: seq![], line: seq![], col: 0 }.with_spans(spans, cols);
    f.out.push(f.line)
}

/// Source lines on display lines.
pub open spec fn folded_lines(lines: Seq<Seq<SpanModel>>, cols: nat) -> Seq<Seq<(usize, SpanModel)>>
    decreases lines.len(),
{
    if lines.len() == 0 {
        seq![]
    } else {
        folded_lines(lines.drop_last(), cols) + folded(lines.last(), cols)
    }
}

/// A line's tabs expanded, for each line.
pub open spec fn untabbed(lines: Seq<Seq<char>>) -> Seq<Seq<char>> {
    lines.map_values(|l: Seq<char>| measure::expanded(l).out)
}

/// The mark in front of a list's item `i`.
pub open spec fn marker(task: Option<bool>, start: Option<u64>, i: int) -> Seq<char> {
    match task {
        Some(true) => "\u{25a0}"@,
        Some(false) => "\u{25a1}"@,
        None => match start {
            Some(n) => text::dec(
                (if n + i > u64::MAX {
                    u64::MAX as int
                } else {
                    n + i
                }) as nat,
            ) + "."@,
            None => "\u{2022}"@,
        },
    }
}

/// How many columns a table has: as many as its longest row.
pub open spec fn table_cols(rows: Seq<Seq<Seq<InlineModel>>>) -> nat
    decreases rows.len(),
{
    if rows.len() == 0 {
        0
    } else {
        measure::greater(table_cols(rows.drop_last()), rows.last().len())
    }
}

/// Where a table's column `k` begins, in columns from the table's left edge.
pub open spec fn start_of(widths: Seq<nat>, k: int) -> usize
    decreases k,
{
    if k <= 0 {
        0
    } else {
        at_most(start_of(widths, k - 1) + widths[k - 1] + TABLE_GAP)
    }
}

/// How far a line of `used` columns moves to the right in a column of `width`.
pub open spec fn padding(align: Align, width: nat, used: nat) -> nat {
    let spare: nat = if width > used {
        (width - used) as nat
    } else {
        0
    };
    match align {
        Align::Left => 0,
        Align::Center => spare / 2,
        Align::Right => spare,
    }
}

/// The alignment of column `i`.
pub open spec fn align_at(align: Seq<Align>, i: int) -> Align {
    if 0 <= i < align.len() {
        align[i]
    } else {
        Align::Left
    }
}

/// The columns a line reaches to.
pub open spec fn used_cols(line: Seq<PieceModel>) -> nat {
    if line.len() == 0 {
        0
    } else {
        line.last().col + columns::columns(line.last().text) as nat
    }
}

/// The lines of a row's cells, each wrapped to its own column.
pub open spec fn row_lines(cells: Seq<Seq<InlineModel>>, widths: Seq<nat>, base: Style) -> Seq<
    Seq<Seq<PieceModel>>,
> {
    Seq::new(cells.len(), |i: int| wrap::wrapped(cells[i], widths[i], base))
}

/// How many lines a row takes: as many as its deepest cell.
pub open spec fn row_height(cells: Seq<Seq<Seq<PieceModel>>>) -> nat
    decreases cells.len(),
{
    if cells.len() == 0 {
        0
    } else {
        measure::greater(row_height(cells.drop_last()), cells.last().len())
    }
}

impl Canvas {
    /// The next row moves down.
    pub open spec fn down(self, rows: int) -> Canvas {
        Canvas { y: at_most(self.y + rows), ..self }
    }

    /// Lines of text, one below the other.
    pub open spec fn lines(
        self,
        s: Setting,
        lines: Seq<Seq<PieceModel>>,
        inset: usize,
        scale: usize,
    ) -> Canvas
        decreases lines.len(),
    {
        if lines.len() == 0 {
            self
        } else {
            let c = self.lines(s, lines.drop_last(), inset, scale);
            Canvas {
                items: c.items + s.runs(lines.last(), inset as int, c.y, scale),
                ..c
            }.down(rows_for(scale) as int)
        }
    }

    /// Text wrapped to the room there is.
    pub open spec fn flow(
        self,
        s: Setting,
        inlines: Seq<InlineModel>,
        inset: usize,
        scale: usize,
        base: Style,
    ) -> Canvas {
        self.lines(
            s,
            wrap::wrapped(inlines, cols_at(s.frame, inset, scale), base),
            inset,
            scale,
        )
    }

    /// A heading: a row above it, unless it is the page's first line, an entry in the outline, and
    /// its text in its own size.
    pub open spec fn heading(
        self,
        s: Setting,
        level: u8,
        inlines: Seq<InlineModel>,
        inset: usize,
    ) -> Canvas {
        let c = if self.y > s.frame.margin {
            self.down(1)
        } else {
            self
        };
        Canvas {
            outline: c.outline.push(
                HeadingModel { level, text: measure::flattened(inlines), y: c.y },
            ),
            ..c
        }.flow(s, inlines, inset, scale_of(level), bold_style())
    }

    /// The pieces of a display line of code that hold anything.
    pub open spec fn code_runs(
        self,
        s: Setting,
        line: Seq<(usize, SpanModel)>,
        inset: usize,
        top: usize,
    ) -> Canvas
        decreases line.len(),
    {
        if line.len() == 0 {
            self
        } else {
            let c = self.code_runs(s, line.drop_last(), inset, top);
            let (col, span) = line.last();
            if span.text.len() == 0 {
                c
            } else {
                Canvas {
                    items: c.items.push(
                        ItemDrawn::Run {
                            x: x_of(s.frame, inset + 2, col as int, 100),
                            top,
                            scale: 100,
                            text: span.text,
                            bold: false,
                            italic: false,
                            strike: false,
                            fill: span.fill,
                        },
                    ),
                    ..c
                }
            }
        }
    }

    /// Display lines of code, one below the other from row `top` on.
    pub open spec fn code_lines(
        self,
        s: Setting,
        lines: Seq<Seq<(usize, SpanModel)>>,
        inset: usize,
        top: usize,
    ) -> Canvas
        decreases lines.len(),
    {
        if lines.len() == 0 {
            self
        } else {
            self.code_lines(s, lines.drop_last(), inset, top).code_runs(
                s,
                lines.last(),
                inset,
                at_most(top + lines.len() - 1),
            )
        }
    }

    /// A block of code: its background, then its lines, a row down and two columns in.
    pub open spec fn code(
        self,
        s: Setting,
        lang: Option<Seq<char>>,
        lines: Seq<Seq<char>>,
        inset: usize,
    ) -> Canvas {
        let cols = cols_at(s.frame, at_most(inset + 4), 100);
        let drawn = folded_lines(
            highlight::code_spans(lang, untabbed(lines), s.theme.code_fg),
            cols,
        );
        let h = at_most(drawn.len() as int + 2);
        Canvas {
            items: self.items.push(
                ItemDrawn::Fill { inset, y: self.y, h, fill: s.theme.code_bg },
            ),
            ..self
        }.code_lines(s, drawn, inset, at_most(self.y + 1)).down(h as int)
    }

    /// One line of each cell of a table's row, the first `n` cells.
    pub open spec fn row_line(
        self,
        s: Setting,
        cells: Seq<Seq<Seq<PieceModel>>>,
        widths: Seq<nat>,
        align: Seq<Align>,
        inset: usize,
        j: int,
        n: nat,
    ) -> Canvas
        decreases n,
    {
        if n == 0 || n > cells.len() {
            self
        } else {
            let c = self.row_line(s, cells, widths, align, inset, j, (n - 1) as nat);
            let i = n - 1;
            if j < cells[i].len() {
                let line = cells[i][j];
                let pad = padding(align_at(align, i), widths[i], used_cols(line));
                Canvas {
                    items: c.items + s.runs(line, inset + start_of(widths, i) + pad, c.y, 100),
                    ..c
                }
            } else {
                c
            }
        }
    }

    /// The first `n` lines of a table's row.
    pub open spec fn row_lines(
        self,
        s: Setting,
        cells: Seq<Seq<Seq<PieceModel>>>,
        widths: Seq<nat>,
        align: Seq<Align>,
        inset: usize,
        n: nat,
    ) -> Canvas
        decreases n,
    {
        if n == 0 {
            self
        } else {
            self.row_lines(s, cells, widths, align, inset, (n - 1) as nat).row_line(
                s,
                cells,
                widths,
                align,
                inset,
                n - 1,
                cells.len(),
            ).down(1)
        }
    }

    /// One row of a table, every cell wrapped to its own column.
    pub open spec fn row(
        self,
        s: Setting,
        cells: Seq<Seq<InlineModel>>,
        widths: Seq<nat>,
        align: Seq<Align>,
        inset: usize,
        base: Style,
    ) -> Canvas {
        let lines = row_lines(cells, widths, base);
        self.row_lines(s, lines, widths, align, inset, row_height(lines))
    }

    /// The rows of a table below its head, the first `n`.
    pub open spec fn rows(
        self,
        s: Setting,
        rows: Seq<Seq<Seq<InlineModel>>>,
        widths: Seq<nat>,
        align: Seq<Align>,
        inset: usize,
        n: nat,
    ) -> Canvas
        decreases n,
    {
        if n == 0 || n > rows.len() {
            self
        } else {
            self.rows(s, rows, widths, align, inset, (n - 1) as nat).row(
                s,
                rows[n - 1],
                widths,
                align,
                inset,
                measure::plain_style(),
            )
        }
    }

    /// A table: its head in bold and a rule below it, where it has one, then its rows.
    pub open spec fn table(self, s: Setting, t: TableModel, inset: usize) -> Canvas {
        let n = table_cols(measure::all_rows(t));
        if n == 0 {
            self
        } else {
            let widths = measure::table_widths(t, n, cols_at(s.frame, inset, 100));
            let span = at_most(start_of(widths, n as int) - TABLE_GAP);
            let c = if t.head.len() > 0 {
                let c = self.row(s, t.head, widths, t.align, inset, bold_style());
                Canvas {
                    items: c.items.push(
                        ItemDrawn::Rule { inset, y: c.y, span: Some(span), fill: s.theme.rule },
                    ),
                    ..c
                }.down(1)
            } else {
                self
            };
            c.rows(s, t.rows, widths, t.align, inset, t.rows.len())
        }
    }

    /// A bar beside what `inner` drew, in front of it in painter's order.
    pub open spec fn barred(self, inner: Canvas, inset: usize, fill: Rgb) -> Canvas {
        Canvas {
            items: inner.items.insert(
                self.items.len() as int,
                ItemDrawn::Bar { inset, y: self.y, h: (inner.y - self.y) as usize, fill },
            ),
            ..inner
        }
    }

    /// A mark on the first line of what `inner` drew, in front of it in painter's order.
    pub open spec fn marked(self, s: Setting, inner: Canvas, m: Seq<char>, inset: usize) -> Canvas {
        Canvas {
            items: inner.items.insert(
                self.items.len() as int,
                ItemDrawn::Run {
                    x: x_of(s.frame, inset as int, 0, 100),
                    top: self.y,
                    scale: 100,
                    text: m,
                    bold: false,
                    italic: false,
                    strike: false,
                    fill: s.theme.dim,
                },
            ),
            ..inner
        }
    }

    /// A callout's label, above what it holds.
    pub open spec fn label(self, s: Setting, callout: Option<Callout>, inset: usize) -> Canvas {
        match callout {
            Some(c) => Canvas {
                items: self.items.push(
                    ItemDrawn::Run {
                        x: x_of(s.frame, inset + 2, 0, 100),
                        top: self.y,
                        scale: 100,
                        text: c.word(),
                        bold: true,
                        italic: false,
                        strike: false,
                        fill: s.theme.callout.colour(c),
                    },
                ),
                ..self
            }.down(1),
            None => self,
        }
    }

    /// Blocks, a row between each two.
    pub open spec fn blocks(self, s: Setting, blocks: Seq<BlockModel>, inset: usize) -> Canvas
        decreases blocks, 0nat,
    {
        if blocks.len() == 0 {
            self
        } else {
            let c = self.blocks(s, blocks.drop_last(), inset);
            (if blocks.len() > 1 {
                c.down(1)
            } else {
                c
            }).block(s, blocks.last(), inset)
        }
    }

    /// One block.
    pub open spec fn block(self, s: Setting, b: BlockModel, inset: usize) -> Canvas
        decreases b, 0nat,
    {
        match b {
            BlockModel::Heading { level, inlines } => self.heading(s, level, inlines, inset),
            BlockModel::Paragraph(inlines) => self.flow(
                s,
                inlines,
                inset,
                100,
                measure::plain_style(),
            ),
            BlockModel::Code { lang, lines } => self.code(s, lang, lines, inset),
            BlockModel::Quote { callout, blocks } => self.barred(
                self.label(s, callout, inset).blocks(s, blocks, at_most(inset + 2)),
                inset,
                match callout {
                    Some(c) => s.theme.callout.colour(c),
                    None => s.theme.quote_bar,
                },
            ),
            BlockModel::List { start, items } => self.items_of(s, start, items, inset),
            BlockModel::Footnotes(notes) => self.notes(s, notes, inset),
            BlockModel::Table(t) => self.table(s, t, inset),
            BlockModel::Rule => Canvas {
                items: self.items.push(
                    ItemDrawn::Rule { inset, y: self.y, span: None, fill: s.theme.rule },
                ),
                ..self
            }.down(1),
        }
    }

    /// A list's items, each behind its mark.
    pub open spec fn items_of(
        self,
        s: Setting,
        start: Option<u64>,
        items: Seq<ItemModel>,
        inset: usize,
    ) -> Canvas
        decreases items, 0nat,
    {
        if items.len() == 0 {
            self
        } else {
            let c = self.items_of(s, start, items.drop_last(), inset);
            let m = marker(items.last().task, start, items.len() - 1);
            c.marked(
                s,
                c.blocks(s, items.last().blocks, at_most(inset + columns::columns(m) + 1)),
                m,
                inset,
            )
        }
    }

    /// Footnotes, each behind its number.
    pub open spec fn notes(self, s: Setting, notes: Seq<NoteModel>, inset: usize) -> Canvas
        decreases notes, 0nat,
    {
        if notes.len() == 0 {
            self
        } else {
            let c = self.notes(s, notes.drop_last(), inset);
            let m = text::dec(notes.last().number) + "."@;
            c.marked(
                s,
                c.blocks(s, notes.last().blocks, at_most(inset + columns::columns(m) + 1)),
                m,
                inset,
            )
        }
    }
}

/// Where column `col` of type that begins in column `inset` of the content stands on the page.
fn x_pos(f: &Frame, inset: u128, col: usize, scale: usize) -> (r: usize)
    requires
        inset <= 4 * 0xffff_ffff_ffff_ffff,
        scale <= 200,
    ensures
        r == x_of(*f, inset as int, col as int, scale),
{
    assert(0 <= col * scale <= 0xffff_ffff_ffff_ffff * 200) by (nonlinear_arith)
        requires
            0 <= col <= 0xffff_ffff_ffff_ffff,
            0 <= scale <= 200,
    ;
    let x: u128 = 100 * (f.left as u128 + inset) + col as u128 * scale as u128;
    if x > usize::MAX as u128 {
        usize::MAX
    } else {
        x as usize
    }
}

/// How many columns of type stand between column `inset` of the content and its right edge.
fn cols_from(f: &Frame, inset: usize, scale: usize) -> (r: usize)
    requires
        scale > 0,
    ensures
        r == cols_at(*f, inset, scale),
{
    let taken: u128 = 100 * inset as u128;
    if taken > f.width as u128 {
        return 1;
    }
    let room: usize = f.width - taken as usize;
    let cols: usize = room / scale;
    if cols < 1 {
        1
    } else {
        cols
    }
}

/// How large a heading's type is, in hundredths of the body's.
pub fn heading_scale(level: u8) -> (r: usize)
    ensures
        r == scale_of(level),
        100 <= r <= 200,
{
    if level <= 1 {
        200
    } else if level == 2 {
        160
    } else if level == 3 {
        130
    } else if level == 4 {
        115
    } else {
        100
    }
}

/// How many rows the line box of type takes.
pub fn rows_of(scale: usize) -> (r: usize)
    ensures
        r == rows_for(scale),
{
    let rows: u128 = (10 * scale as u128 + 998) / 1000;
    if rows < 1 {
        1
    } else {
        rows as usize
    }
}

/// The pieces of folded spans, with their text as characters.
pub open spec fn folded_line(s: Seq<(usize, Span)>) -> Seq<(usize, SpanModel)> {
    s.map_values(|p: (usize, Span)| (p.0, p.1@))
}

/// Folded lines, with their text as characters.
pub open spec fn folded_models(s: Seq<Vec<(usize, Span)>>) -> Seq<Seq<(usize, SpanModel)>> {
    s.map_values(|l: Vec<(usize, Span)>| folded_line(l@))
}

/// Where folding stands.
struct Fold {
    out: Vec<Vec<(usize, Span)>>,
    line: Vec<(usize, Span)>,
    col: usize,
}

impl View for Fold {
    type V = Folding;

    closed spec fn view(&self) -> Folding {
        Folding {
            out: folded_models(self.out@),
            line: folded_line(self.line@),
            col: self.col,
        }
    }
}

impl Fold {
    fn end_line(&mut self)
        ensures
            final(self)@ == (Folding {
                out: old(self)@.out.push(old(self)@.line),
                line: seq![],
                col: 0,
            }),
    {
        let mut line: Vec<(usize, Span)> = Vec::new();
        std::mem::swap(&mut line, &mut self.line);
        let ghost had = self.out@;
        self.out.push(line);
        assert(folded_models(self.out@) =~= folded_models(had).push(folded_line(line@)));
        self.col = 0;
    }

    fn chunk(&mut self, t: String, fill: Rgb, cols: usize)
        ensures
            final(self)@ == old(self)@.with_chunk(t@, fill, cols as nat),
    {
        let w: usize = width(t.as_str());
        if self.col > 0 && (self.col > cols || w > cols - self.col) {
            self.end_line();
        }
        let ghost had = self.line@;
        let part = (self.col, Span { text: t, fill });
        self.line.push(part);
        assert(folded_line(self.line@) =~= folded_line(had).push((part.0, part.1@)));
        self.col = self.col + w;
        assert(self@.line =~= old(self)@.with_chunk(t@, fill, cols as nat).line);
    }
}

/// Break one source line's spans onto display lines of at most `cols` characters, each piece
/// carrying the column it starts at.
pub fn fold(spans: &Vec<Span>, cols: usize) -> (r: Vec<Vec<(usize, Span)>>)
    ensures
        folded_models(r@) == folded(highlight::span_models(spans@), cols as nat),
{
    let ghost all = highlight::span_models(spans@);
    let ghost start = Folding { out: seq![], line: seq![], col: 0 };
    let mut f = Fold { out: Vec::new(), line: Vec::new(), col: 0 };
    assert(f@ =~= start);
    let mut i: usize = 0;
    while i < spans.len()
        invariant
            i <= spans@.len(),
            all == highlight::span_models(spans@),
            f@ == start.with_spans(all.take(i as int), cols as nat),
        decreases spans.len() - i,
    {
        assert(all.take(i + 1).drop_last() =~= all.take(i as int));
        assert(all[i as int] == spans@[i as int]@);
        let chunks = hard_split(spans[i].text.as_str(), cols);
        let ghost parts = text::strings(chunks@);
        let ghost before = f@;
        let mut k: usize = 0;
        while k < chunks.len()
            invariant
                i < spans@.len(),
                k <= chunks@.len(),
                parts == text::strings(chunks@),
                f@ == before.with_chunks(parts, spans@[i as int].fill, cols as nat, k as nat),
            decreases chunks.len() - k,
        {
            assert(parts[k as int] == chunks@[k as int]@);
            f.chunk(chunks[k].clone(), spans[i].fill, cols);
            k += 1;
        }
        i += 1;
    }
    assert(all.take(i as int) =~= all);
    f.end_line();
    f.out
}

/// Break source lines onto display lines.
fn fold_lines(lines: &Vec<Vec<Span>>, cols: usize) -> (r: Vec<Vec<(usize, Span)>>)
    ensures
        folded_models(r@) == folded_lines(highlight::line_span_models(lines@), cols as nat),
{
    let ghost all = highlight::line_span_models(lines@);
    let mut out: Vec<Vec<(usize, Span)>> = Vec::new();
    let mut i: usize = 0;
    while i < lines.len()
        invariant
            i <= lines@.len(),
            all == highlight::line_span_models(lines@),
            folded_models(out@) =~= folded_lines(all.take(i as int), cols as nat),
        decreases lines.len() - i,
    {
        assert(all.take(i + 1).drop_last() =~= all.take(i as int));
        assert(all[i as int] == highlight::span_models(lines@[i as int]@));
        let mut more = fold(&lines[i], cols);
        let ghost (a, b) = (out@, more@);
        out.append(&mut more);
        assert(folded_models(a + b) =~= folded_models(a) + folded_models(b));
        i += 1;
    }
    assert(all.take(i as int) =~= all);
    out
}

/// A page being drawn.
struct Cursor {
    y: usize,
    items: Vec<Item>,
    outline: Vec<Heading>,
}

impl View for Cursor {
    type V = Canvas;

    closed spec fn view(&self) -> Canvas {
        Canvas {
            y: self.y,
            items: items_drawn(self.items@),
            outline: index::heading_models(self.outline@),
        }
    }
}

impl Setting {
    fn colour(&self, style: &Style) -> (r: Rgb)
        ensures
            r == self.ink(*style),
    {
        if style.code {
            self.theme.code_fg
        } else if style.link {
            self.theme.link
        } else {
            self.theme.fg
        }
    }
}

impl Cursor {
    fn down(&mut self, rows: usize)
        ensures
            final(self)@ == old(self)@.down(rows as int),
    {
        self.y = self.y.saturating_add(rows);
    }

    fn push(&mut self, item: Item)
        ensures
            final(self)@ == (Canvas { items: old(self)@.items.push(item@), ..old(self)@ }),
    {
        let ghost had = self.items@;
        self.items.push(item);
        assert(items_drawn(self.items@) =~= items_drawn(had).push(item@));
    }

    /// The pieces of a line, from column `inset` of the content on.
    fn runs(&mut self, s: &Setting, line: &Vec<Piece>, inset: u128, scale: usize)
        requires
            inset <= 4 * 0xffff_ffff_ffff_ffff,
            scale <= 200,
        ensures
            final(self)@ == (Canvas {
                items: old(self)@.items + s.runs(
                    wrap::piece_models(line@),
                    inset as int,
                    old(self)@.y,
                    scale,
                ),
                ..old(self)@
            }),
    {
        let ghost all = s.runs(wrap::piece_models(line@), inset as int, self@.y, scale);
        assert(old(self)@.items + all.take(0) =~= old(self)@.items);
        let mut i: usize = 0;
        while i < line.len()
            invariant
                i <= line@.len(),
                inset <= 4 * 0xffff_ffff_ffff_ffff,
                scale <= 200,
                all == s.runs(wrap::piece_models(line@), inset as int, old(self)@.y, scale),
                self@ =~= (Canvas { items: old(self)@.items + all.take(i as int), ..old(self)@ }),
            decreases line.len() - i,
        {
            let p = &line[i];
            let item = Item::Run {
                x: x_pos(&s.frame, inset, p.col, scale),
                top: self.y,
                scale,
                text: p.text.clone(),
                bold: p.style.bold,
                italic: p.style.italic,
                strike: p.style.strike,
                fill: s.colour(&p.style),
            };
            assert(item@ == all[i as int]);
            self.push(item);
            assert(all.take(i + 1) =~= all.take(i as int).push(all[i as int]));
            i += 1;
        }
        assert(all.take(i as int) =~= all);
    }

    fn flow(&mut self, s: &Setting, inlines: &Vec<Inline>, inset: usize, scale: usize, base: Style)
        requires
            0 < scale <= 200,
        ensures
            final(self)@ == old(self)@.flow(
                *s,
                parse::inline_models(inlines@),
                inset,
                scale,
                base,
            ),
    {
        let cols: usize = cols_from(&s.frame, inset, scale);

        // a heading's glyphs may be any size; its line box
        // rounds up to whole rows so the text below it stays
        // on the grid
        let line_h: usize = rows_of(scale);
        let lines = wrap::wrap(inlines, cols, base);
        let ghost all = wrap::pieces_models(lines@);
        let mut i: usize = 0;
        while i < lines.len()
            invariant
                i <= lines@.len(),
                0 < scale <= 200,
                line_h == rows_for(scale),
                all == wrap::pieces_models(lines@),
                self@ == old(self)@.lines(*s, all.take(i as int), inset, scale),
            decreases lines.len() - i,
        {
            assert(all.take(i + 1).drop_last() =~= all.take(i as int));
            assert(all[i as int] == wrap::piece_models(lines@[i as int]@));
            self.runs(s, &lines[i], inset as u128, scale);
            self.down(line_h);
            i += 1;
        }
        assert(all.take(i as int) =~= all);
    }

    fn heading(&mut self, s: &Setting, level: u8, inlines: &Vec<Inline>, inset: usize)
        ensures
            final(self)@ == old(self)@.heading(
                *s,
                level,
                parse::inline_models(inlines@),
                inset,
            ),
    {
        // space above a heading, but not at the top of a page
        if self.y > s.frame.margin {
            self.down(1);
        }
        let entry = Heading { level, text: flatten(inlines), y: self.y };
        let ghost had = self.outline@;
        self.outline.push(entry);
        assert(index::heading_models(self.outline@) =~= index::heading_models(had).push(entry@));
        let style = Style { bold: true, italic: false, code: false, strike: false, link: false };
        self.flow(s, inlines, inset, heading_scale(level), style);
    }
}

impl Cursor {
    /// The pieces of a display line of code that hold anything.
    fn code_runs(&mut self, s: &Setting, line: &Vec<(usize, Span)>, inset: usize, top: usize)
        ensures
            final(self)@ == old(self)@.code_runs(*s, folded_line(line@), inset, top),
    {
        let ghost all = folded_line(line@);
        let mut i: usize = 0;
        while i < line.len()
            invariant
                i <= line@.len(),
                all == folded_line(line@),
                self@ == old(self)@.code_runs(*s, all.take(i as int), inset, top),
            decreases line.len() - i,
        {
            assert(all.take(i + 1).drop_last() =~= all.take(i as int));
            let part = &line[i];
            assert(all[i as int] == (part.0, part.1@));
            if !part.1.text.as_str().is_empty() {
                self.push(
                    Item::Run {
                        x: x_pos(&s.frame, inset as u128 + 2, part.0, 100),
                        top,
                        scale: 100,
                        text: part.1.text.clone(),
                        bold: false,
                        italic: false,
                        strike: false,
                        fill: part.1.fill,
                    },
                );
            }
            i += 1;
        }
        assert(all.take(i as int) =~= all);
    }

    fn code_lines(&mut self, s: &Setting, lines: &Vec<Vec<(usize, Span)>>, inset: usize, top: usize)
        ensures
            final(self)@ == old(self)@.code_lines(*s, folded_models(lines@), inset, top),
    {
        let ghost all = folded_models(lines@);
        let mut i: usize = 0;
        while i < lines.len()
            invariant
                i <= lines@.len(),
                all == folded_models(lines@),
                self@ == old(self)@.code_lines(*s, all.take(i as int), inset, top),
            decreases lines.len() - i,
        {
            assert(all.take(i + 1).drop_last() =~= all.take(i as int));
            assert(all[i as int] == folded_line(lines@[i as int]@));
            self.code_runs(s, &lines[i], inset, top.saturating_add(i));
            i += 1;
        }
        assert(all.take(i as int) =~= all);
    }

    fn code(
        &mut self,
        s: &Setting,
        h: &Highlighter,
        lang: &Option<String>,
        lines: &Vec<String>,
        inset: usize,
    )
        requires
            h.wf(),
        ensures
            final(self)@ == old(self)@.code(
                *s,
                event::opt_chars(*lang),
                text::strings(lines@),
                inset,
            ),
    {
        // a row down and two characters in, because the text
        // inside has to land on the grid in both directions
        let cols: usize = cols_from(&s.frame, inset.saturating_add(4), 100);

        // code never soft-wraps: tabs expand to columns, then an
        // over-long line is broken onto further lines
        //
        // tabs go first: the highlighter is handed the text
        // at the columns it will be drawn at, so a span's
        // width is the width on the page
        let ghost raw = text::strings(lines@);
        let mut flat: Vec<String> = Vec::new();
        let mut i: usize = 0;
        while i < lines.len()
            invariant
                i <= lines@.len(),
                raw == text::strings(lines@),
                text::strings(flat@) =~= untabbed(raw.take(i as int)),
            decreases lines.len() - i,
        {
            let ghost had = flat@;
            let line = expand_tabs(lines[i].as_str());
            assert(raw[i as int] == lines@[i as int]@);
            flat.push(line);
            assert(text::strings(flat@) =~= text::strings(had).push(line@));
            i += 1;
        }
        assert(raw.take(i as int) =~= raw);
        let spans = match lang {
            Some(l) => highlight::spans(h, Some(l.as_str()), &flat, s.theme.code_fg),
            None => highlight::spans(h, None, &flat, s.theme.code_fg),
        };
        let drawn = fold_lines(&spans, cols);
        let rows: usize = drawn.len().saturating_add(2);
        let top: usize = self.y.saturating_add(1);
        self.push(Item::Fill { inset, y: self.y, h: rows, fill: s.theme.code_bg });
        self.code_lines(s, &drawn, inset, top);
        self.down(rows);
    }

    /// Line `j` of each cell of a table's row.
    fn row_line(
        &mut self,
        s: &Setting,
        cells: &Vec<Vec<Vec<Piece>>>,
        widths: &Vec<usize>,
        starts: &Vec<usize>,
        align: &Vec<Align>,
        inset: usize,
        j: usize,
    )
        requires
            cells@.len() <= widths@.len() == starts@.len(),
            forall|i: int|
                0 <= i < starts@.len() ==> #[trigger] starts@[i] == start_of(
                    measure::nats(widths@),
                    i,
                ),
        ensures
            final(self)@ == old(self)@.row_line(
                *s,
                cells_models(cells@),
                measure::nats(widths@),
                align@,
                inset,
                j as int,
                cells@.len(),
            ),
    {
        let ghost all = cells_models(cells@);
        let ghost ws = measure::nats(widths@);
        let mut i: usize = 0;
        while i < cells.len()
            invariant
                i <= cells@.len() <= widths@.len() == starts@.len(),
                forall|k: int|
                    0 <= k < starts@.len() ==> #[trigger] starts@[k] == start_of(
                        measure::nats(widths@),
                        k,
                    ),
                all == cells_models(cells@),
                ws == measure::nats(widths@),
                self@ == old(self)@.row_line(*s, all, ws, align@, inset, j as int, i as nat),
            decreases cells.len() - i,
        {
            assert(all[i as int] == wrap::pieces_models(cells@[i as int]@));
            assert(ws[i as int] == widths@[i as int]);
            if j < cells[i].len() {
                let line = &cells[i][j];
                assert(all[i as int][j as int] == wrap::piece_models(line@));
                let used: u128 = if line.len() > 0 {
                    let p = &line[line.len() - 1];
                    p.col as u128 + width(p.text.as_str()) as u128
                } else {
                    0
                };
                assert(used == used_cols(wrap::piece_models(line@)));
                let spare: u128 = if widths[i] as u128 > used {
                    widths[i] as u128 - used
                } else {
                    0
                };
                let side = if i < align.len() {
                    align[i]
                } else {
                    Align::Left
                };
                let pad: u128 = match side {
                    Align::Left => 0,
                    Align::Center => spare / 2,
                    Align::Right => spare,
                };
                self.runs(s, line, inset as u128 + starts[i] as u128 + pad, 100);
            }
            i += 1;
        }
    }

    /// Draw one row, every cell wrapped to its own column width.
    fn table_row(
        &mut self,
        s: &Setting,
        cells: &Vec<Vec<Inline>>,
        widths: &Vec<usize>,
        starts: &Vec<usize>,
        align: &Vec<Align>,
        inset: usize,
        base: Style,
    )
        requires
            cells@.len() <= widths@.len() == starts@.len(),
            forall|i: int|
                0 <= i < starts@.len() ==> #[trigger] starts@[i] == start_of(
                    measure::nats(widths@),
                    i,
                ),
        ensures
            final(self)@ == old(self)@.row(
                *s,
                parse::cell_models(cells@),
                measure::nats(widths@),
                align@,
                inset,
                base,
            ),
    {
        let ghost models = parse::cell_models(cells@);
        let ghost ws = measure::nats(widths@);
        let ghost all = row_lines(models, ws, base);
        let mut wrapped: Vec<Vec<Vec<Piece>>> = Vec::new();

        // a row is as tall as its deepest cell
        let mut height: usize = 0;
        let mut i: usize = 0;
        while i < cells.len()
            invariant
                i <= cells@.len() <= widths@.len(),
                models == parse::cell_models(cells@),
                ws == measure::nats(widths@),
                all == row_lines(models, ws, base),
                cells_models(wrapped@) =~= all.take(i as int),
                height == row_height(all.take(i as int)),
            decreases cells.len() - i,
        {
            let ghost had = wrapped@;
            assert(models[i as int] == parse::inline_models(cells@[i as int]@));
            assert(ws[i as int] == widths@[i as int]);
            let lines = wrap::wrap(&cells[i], widths[i], base);
            assert(all.take(i + 1).drop_last() =~= all.take(i as int));
            assert(wrap::pieces_models(lines@) == all[i as int]);
            if lines.len() > height {
                height = lines.len();
            }
            wrapped.push(lines);
            assert(cells_models(wrapped@) =~= cells_models(had).push(
                wrap::pieces_models(lines@),
            ));
            i += 1;
        }
        assert(all.take(i as int) =~= all);
        let mut j: usize = 0;
        while j < height
            invariant
                j <= height,
                cells_models(wrapped@) == all,
                wrapped@.len() <= widths@.len() == starts@.len(),
                forall|i: int|
                    0 <= i < starts@.len() ==> #[trigger] starts@[i] == start_of(
                        measure::nats(widths@),
                        i,
                    ),
                ws == measure::nats(widths@),
                self@ == old(self)@.row_lines(*s, all, ws, align@, inset, j as nat),
            decreases height - j,
        {
            self.row_line(s, &wrapped, widths, starts, align, inset, j);
            self.down(1);
            j += 1;
        }
    }

    fn table(&mut self, s: &Setting, t: &Table, inset: usize)
        ensures
            final(self)@ == old(self)@.table(*s, t@, inset),
    {
        let ghost rows = measure::all_rows(t@);
        let mut n: usize = t.head.len();
        proof {
            assert(rows.take(1).drop_last() =~= seq![]);
            assert(table_cols(rows.take(1).drop_last()) == 0);
            assert(rows.take(1).last() == parse::cell_models(t.head@));
        }
        let mut k: usize = 0;
        while k < t.rows.len()
            invariant
                k <= t.rows@.len(),
                rows == measure::all_rows(t@),
                n == table_cols(rows.take(k + 1)),
            decreases t.rows.len() - k,
        {
            assert(rows.take(k + 2).drop_last() =~= rows.take(k + 1));
            assert(rows[k + 1] == parse::cell_models(t.rows@[k as int]@));
            if t.rows[k].len() > n {
                n = t.rows[k].len();
            }
            k += 1;
        }
        assert(rows.take(k + 1) =~= rows);
        if n == 0 {
            return;
        }
        proof {
            lemma_table_cols(rows);
        }
        let cols: usize = cols_from(&s.frame, inset, 100);
        let widths = column_widths(t, n, cols);
        let ghost ws = measure::nats(widths@);
        proof {
            measure::law_table_fits(t@, n as nat, cols as nat);
        }

        // where each column begins, in characters from the
        // table's left edge
        let mut starts: Vec<usize> = Vec::new();
        let mut at: usize = 0;
        let mut i: usize = 0;
        while i < n
            invariant
                i <= n == widths@.len(),
                ws == measure::nats(widths@),
                starts@.len() == i,
                at == start_of(ws, i as int),
                at >= TABLE_GAP || i == 0,
                forall|j: int| 0 <= j < i ==> #[trigger] starts@[j] == start_of(ws, j),
            decreases n - i,
        {
            assert(ws[i as int] == widths@[i as int]);
            starts.push(at);
            at = at.saturating_add(widths[i]).saturating_add(TABLE_GAP);
            i += 1;
        }
        let span: usize = at - TABLE_GAP;
        if t.head.len() > 0 {
            assert(rows[0] == parse::cell_models(t.head@));
            let bold = Style { bold: true, italic: false, code: false, strike: false, link: false };
            self.table_row(s, &t.head, &widths, &starts, &t.align, inset, bold);
            self.push(Item::Rule { inset, y: self.y, span: Some(span), fill: s.theme.rule });
            self.down(1);
        }
        let ghost before = self@;
        let plain = Style { bold: false, italic: false, code: false, strike: false, link: false };
        let mut k: usize = 0;
        while k < t.rows.len()
            invariant
                k <= t.rows@.len(),
                n == widths@.len() == starts@.len(),
                ws == measure::nats(widths@),
                plain == measure::plain_style(),
                rows == measure::all_rows(t@),
                forall|r: int| 0 <= r < rows.len() ==> #[trigger] rows[r].len() <= n,
                forall|j: int|
                    0 <= j < starts@.len() ==> #[trigger] starts@[j] == start_of(
                        measure::nats(widths@),
                        j,
                    ),
                self@ == before.rows(*s, t@.rows, ws, t.align@, inset, k as nat),
            decreases t.rows.len() - k,
        {
            assert(t@.rows[k as int] == parse::cell_models(t.rows@[k as int]@));
            assert(rows[k + 1] == parse::cell_models(t.rows@[k as int]@));
            self.table_row(s, &t.rows[k], &widths, &starts, &t.align, inset, plain);
            k += 1;
        }
    }
}

/// The models of a row's wrapped cells.
pub open spec fn cells_models(s: Seq<Vec<Vec<Piece>>>) -> Seq<Seq<Seq<PieceModel>>> {
    s.map_values(|c: Vec<Vec<Piece>>| wrap::pieces_models(c@))
}

/// No row of a table is longer than the table has columns.
proof fn lemma_table_cols(rows: Seq<Seq<Seq<InlineModel>>>)
    ensures
        forall|r: int| 0 <= r < rows.len() ==> #[trigger] rows[r].len() <= table_cols(rows),
    decreases rows.len(),
{
    if rows.len() > 0 {
        lemma_table_cols(rows.drop_last());
        assert forall|r: int| 0 <= r < rows.len() implies #[trigger] rows[r].len() <= table_cols(
            rows,
        ) by {
            if r < rows.len() - 1 {
                assert(rows.drop_last()[r] == rows[r]);
            }
        }
    }
}

/// A number and a full stop.
fn numbered(n: u64) -> (r: String)
    ensures
        r@ == text::dec(n as nat) + "."@,
{
    let mut out = String::new();
    push_dec(&mut out, n);
    out.push_str(".");
    assert(out@ =~= text::dec(n as nat) + "."@);
    out
}

/// The mark in front of a list's item `i`.
//
// squares, not U+2610 BALLOT BOX: Liberation
// Mono has no ballot box and no check mark, and
// a missing glyph draws as nothing at all
fn mark_of(task: Option<bool>, start: Option<u64>, i: usize) -> (r: String)
    ensures
        r@ == marker(task, start, i as int),
{
    match task {
        Some(true) => "\u{25a0}".to_owned(),
        Some(false) => "\u{25a1}".to_owned(),
        None => match start {
            Some(n) => numbered(n.saturating_add(i as u64)),
            None => "\u{2022}".to_owned(),
        },
    }
}

impl Cursor {
    /// A bar beside what was drawn since `at` items and row `y0`.
    fn bar(&mut self, at: usize, y0: usize, inset: usize, fill: Rgb, Ghost(before): Ghost<Canvas>)
        requires
            at == before.items.len(),
            at <= old(self)@.items.len(),
            y0 == before.y <= old(self)@.y,
        ensures
            final(self)@ == before.barred(old(self)@, inset, fill),
    {
        let ghost had = self.items@;
        let item = Item::Bar { inset, y: y0, h: self.y - y0, fill };
        self.items.insert(at, item);
        assert(items_drawn(self.items@) =~= items_drawn(had).insert(at as int, item@));
    }

    /// A mark on the first line of what was drawn since `at` items and row `y0`.
    fn mark(
        &mut self,
        s: &Setting,
        at: usize,
        y0: usize,
        m: String,
        inset: usize,
        Ghost(before): Ghost<Canvas>,
    )
        requires
            at == before.items.len(),
            at <= old(self)@.items.len(),
            y0 == before.y,
        ensures
            final(self)@ == before.marked(*s, old(self)@, m@, inset),
    {
        let ghost had = self.items@;
        let item = Item::Run {
            x: x_pos(&s.frame, inset as u128, 0, 100),
            top: y0,
            scale: 100,
            text: m,
            bold: false,
            italic: false,
            strike: false,
            fill: s.theme.dim,
        };
        self.items.insert(at, item);
        assert(items_drawn(self.items@) =~= items_drawn(had).insert(at as int, item@));
    }

    fn blocks(&mut self, s: &Setting, h: &Highlighter, blocks: &Vec<Block>, inset: usize)
        requires
            h.wf(),
        ensures
            final(self)@ == old(self)@.blocks(*s, parse::block_models(blocks@), inset),
        decreases blocks@,
    {
        let ghost all = parse::block_models(blocks@);
        proof {
            parse::lemma_block_models(blocks@);
        }
        let mut i: usize = 0;
        while i < blocks.len()
            invariant
                h.wf(),
                i <= blocks@.len() == all.len(),
                all == parse::block_models(blocks@),
                self@ == old(self)@.blocks(*s, all.take(i as int), inset),
            decreases blocks.len() - i,
        {
            proof {
                parse::lemma_block_models(blocks@);
                assert(all.take(i + 1).drop_last() =~= all.take(i as int));
                assert(all[i as int] == parse::block_model(blocks@[i as int]));
            }
            if i > 0 {
                self.down(1);
            }
            self.block(s, h, &blocks[i], inset);
            i += 1;
        }
        assert(all.take(i as int) =~= all);
    }

    fn block(&mut self, s: &Setting, h: &Highlighter, b: &Block, inset: usize)
        requires
            h.wf(),
        ensures
            final(self)@ == old(self)@.block(*s, parse::block_model(*b), inset),
        decreases *b,
    {
        match b {
            Block::Heading { level, inlines } => {
                self.heading(s, *level, inlines, inset);
            },
            Block::Paragraph(inlines) => {
                let plain = Style {
                    bold: false,
                    italic: false,
                    code: false,
                    strike: false,
                    link: false,
                };
                self.flow(s, inlines, inset, 100, plain);
            },
            Block::Code { lang, lines } => {
                self.code(s, h, lang, lines, inset);
            },
            Block::Quote { callout, blocks } => {
                self.quote(s, h, *callout, blocks, inset);
            },
            Block::List { start, items } => {
                self.list(s, h, *start, items, inset);
            },
            Block::Footnotes(notes) => {
                self.footnotes(s, h, notes, inset);
            },
            Block::Table(t) => {
                self.table(s, t, inset);
            },
            Block::Rule => {
                self.push(Item::Rule { inset, y: self.y, span: None, fill: s.theme.rule });
                self.down(1);
            },
        }
    }

    fn quote(
        &mut self,
        s: &Setting,
        h: &Highlighter,
        callout: Option<Callout>,
        inner: &Vec<Block>,
        inset: usize,
    )
        requires
            h.wf(),
        ensures
            final(self)@ == old(self)@.block(
                *s,
                (BlockModel::Quote { callout, blocks: parse::block_models(inner@) }),
                inset,
            ),
        decreases *inner,
    {
        let fill = match callout {
            Some(c) => s.theme.callout.of(c),
            None => s.theme.quote_bar,
        };

        // the bar's height is not known until the contents are
        // laid out, so its slot is remembered and filled after
        let at: usize = self.items.len();
        let y0: usize = self.y;
        let ghost before = self@;
        if let Some(c) = callout {
            self.push(
                Item::Run {
                    x: x_pos(&s.frame, inset as u128 + 2, 0, 100),
                    top: self.y,
                    scale: 100,
                    text: c.label().to_owned(),
                    bold: true,
                    italic: false,
                    strike: false,
                    fill,
                },
            );
            self.down(1);
        }
        assert(self@ == before.label(*s, callout, inset));
        let ghost labelled = self@;
        self.blocks(s, h, inner, inset.saturating_add(2));
        proof {
            lemma_blocks_grow(labelled, *s, parse::block_models(inner@), at_most(inset + 2));
        }
        self.bar(at, y0, inset, fill, Ghost(before));
    }

    fn list(
        &mut self,
        s: &Setting,
        h: &Highlighter,
        start: Option<u64>,
        items: &Vec<ListItem>,
        inset: usize,
    )
        requires
            h.wf(),
        ensures
            final(self)@ == old(self)@.items_of(*s, start, parse::item_models(items@), inset),
        decreases items@,
    {
        let ghost all = parse::item_models(items@);
        proof {
            parse::lemma_item_models(items@);
        }
        let mut i: usize = 0;
        while i < items.len()
            invariant
                h.wf(),
                i <= items@.len() == all.len(),
                all == parse::item_models(items@),
                self@ == old(self)@.items_of(*s, start, all.take(i as int), inset),
            decreases items.len() - i,
        {
            proof {
                parse::lemma_item_models(items@);
                assert(all.take(i + 1).drop_last() =~= all.take(i as int));
            }
            let ghost model = all[i as int];
            let m = mark_of(items[i].task, start, i);
            let ghost before = self@;
            let at: usize = self.items.len();
            let y0: usize = self.y;
            let indent: usize = inset.saturating_add(width(m.as_str())).saturating_add(1);
            self.blocks(s, h, &items[i].blocks, indent);
            proof {
                lemma_blocks_grow(before, *s, model.blocks, indent);
            }
            self.mark(s, at, y0, m, inset, Ghost(before));
            i += 1;
        }
        assert(all.take(i as int) =~= all);
    }

    fn footnotes(&mut self, s: &Setting, h: &Highlighter, notes: &Vec<Footnote>, inset: usize)
        requires
            h.wf(),
        ensures
            final(self)@ == old(self)@.notes(*s, parse::note_models(notes@), inset),
        decreases notes@,
    {
        let ghost all = parse::note_models(notes@);
        proof {
            parse::lemma_note_models(notes@);
        }
        let mut i: usize = 0;
        while i < notes.len()
            invariant
                h.wf(),
                i <= notes@.len() == all.len(),
                all == parse::note_models(notes@),
                self@ == old(self)@.notes(*s, all.take(i as int), inset),
            decreases notes.len() - i,
        {
            proof {
                parse::lemma_note_models(notes@);
                assert(all.take(i + 1).drop_last() =~= all.take(i as int));
            }
            let ghost model = all[i as int];
            let m = numbered(notes[i].number as u64);
            let ghost before = self@;
            let at: usize = self.items.len();
            let y0: usize = self.y;
            let indent: usize = inset.saturating_add(width(m.as_str())).saturating_add(1);
            self.blocks(s, h, &notes[i].blocks, indent);
            proof {
                lemma_blocks_grow(before, *s, model.blocks, indent);
            }
            self.mark(s, at, y0, m, inset, Ghost(before));
            i += 1;
        }
        assert(all.take(i as int) =~= all);
    }
}

/// The row an item begins in.
pub open spec fn top_of(i: ItemDrawn) -> usize {
    match i {
        ItemDrawn::Fill { inset, y, h, fill } => y,
        ItemDrawn::Rule { inset, y, span, fill } => y,
        ItemDrawn::Bar { inset, y, h, fill } => y,
        ItemDrawn::Run { x, top, scale, text, bold, italic, strike, fill } => top,
    }
}

/// Whether `b` is what `a` becomes by drawing on: nothing is taken back, and what was added stands
/// in the rows from `from` to `to`.
pub open spec fn extended(a: Canvas, b: Canvas, from: usize, to: usize) -> bool {
    &&& a.items.len() <= b.items.len()
    &&& a.items == b.items.take(a.items.len() as int)
    &&& a.outline.len() <= b.outline.len()
    &&& a.outline == b.outline.take(a.outline.len() as int)
    &&& forall|i: int|
        a.items.len() <= i < b.items.len() ==> from <= top_of(#[trigger] b.items[i]) <= to
}

/// Whether `b` is what `a` becomes by drawing on downward: nothing is taken back, nothing moves
/// up, and what was added stands between the row that was next and the one that is.
pub open spec fn grown(a: Canvas, b: Canvas) -> bool {
    a.y <= b.y && extended(a, b, a.y, b.y)
}

proof fn lemma_grown(a: Canvas, b: Canvas, c: Canvas)
    requires
        grown(a, b),
        grown(b, c),
    ensures
        grown(a, c),
{
    assert(a.items =~= c.items.take(a.items.len() as int)) by {
        assert forall|i: int| 0 <= i < a.items.len() implies a.items[i] == c.items[i] by {
            assert(a.items[i] == b.items.take(a.items.len() as int)[i]);
            assert(b.items[i] == c.items.take(b.items.len() as int)[i]);
        }
    }
    assert forall|i: int| a.items.len() <= i < c.items.len() implies a.y <= top_of(
        #[trigger] c.items[i],
    ) <= c.y by {
        if i < b.items.len() {
            assert(b.items[i] == c.items.take(b.items.len() as int)[i]);
        }
    }
    assert(a.outline =~= c.outline.take(a.outline.len() as int)) by {
        assert forall|i: int| 0 <= i < a.outline.len() implies a.outline[i] == c.outline[i] by {
            assert(a.outline[i] == b.outline.take(a.outline.len() as int)[i]);
            assert(b.outline[i] == c.outline.take(b.outline.len() as int)[i]);
        }
    }
}

proof fn lemma_extended(a: Canvas, b: Canvas, c: Canvas)
    requires
        a.items.len() <= b.items.len() <= c.items.len(),
        a.items == b.items.take(a.items.len() as int),
        b.items == c.items.take(b.items.len() as int),
        a.outline.len() <= b.outline.len() <= c.outline.len(),
        a.outline == b.outline.take(a.outline.len() as int),
        b.outline == c.outline.take(b.outline.len() as int),
    ensures
        a.items == c.items.take(a.items.len() as int),
        a.outline == c.outline.take(a.outline.len() as int),
{
    assert(b.items.take(a.items.len() as int) =~= c.items.take(a.items.len() as int)) by {
        assert forall|i: int| 0 <= i < a.items.len() implies b.items[i] == c.items[i] by {
            assert(b.items[i] == c.items.take(b.items.len() as int)[i]);
        }
    }
    assert(b.outline.take(a.outline.len() as int) =~= c.outline.take(a.outline.len() as int)) by {
        assert forall|i: int| 0 <= i < a.outline.len() implies b.outline[i] == c.outline[i] by {
            assert(b.outline[i] == c.outline.take(b.outline.len() as int)[i]);
        }
    }
}

proof fn lemma_lines_grow(
    c: Canvas,
    s: Setting,
    lines: Seq<Seq<PieceModel>>,
    inset: usize,
    scale: usize,
)
    ensures
        grown(c, c.lines(s, lines, inset, scale)),
    decreases lines.len(),
{
    if lines.len() == 0 {
        assert(c.items =~= c.items.take(c.items.len() as int));
        assert(c.outline =~= c.outline.take(c.outline.len() as int));
    } else {
        lemma_lines_grow(c, s, lines.drop_last(), inset, scale);
        let b = c.lines(s, lines.drop_last(), inset, scale);
        let a = c.lines(s, lines, inset, scale);
        assert(b.items =~= a.items.take(b.items.len() as int));
        assert(b.outline =~= a.outline.take(b.outline.len() as int));
        lemma_grown(c, b, a);
    }
}

proof fn lemma_heading_grow(
    c: Canvas,
    s: Setting,
    level: u8,
    inlines: Seq<InlineModel>,
    inset: usize,
)
    ensures
        grown(c, c.heading(s, level, inlines, inset)),
{
    let d = if c.y > s.frame.margin {
        c.down(1)
    } else {
        c
    };
    let e = Canvas {
        outline: d.outline.push(
            HeadingModel { level, text: measure::flattened(inlines), y: d.y },
        ),
        ..d
    };
    assert(c.items =~= e.items.take(c.items.len() as int));
    assert(c.outline =~= e.outline.take(c.outline.len() as int));
    lemma_lines_grow(
        e,
        s,
        wrap::wrapped(inlines, cols_at(s.frame, inset, scale_of(level)), bold_style()),
        inset,
        scale_of(level),
    );
    lemma_grown(c, e, c.heading(s, level, inlines, inset));
}

proof fn lemma_code_runs_grow(
    c: Canvas,
    s: Setting,
    line: Seq<(usize, SpanModel)>,
    inset: usize,
    top: usize,
)
    ensures
        extended(c, c.code_runs(s, line, inset, top), top, top),
        c.code_runs(s, line, inset, top).y == c.y,
    decreases line.len(),
{
    if line.len() == 0 {
        assert(c.items =~= c.items.take(c.items.len() as int));
        assert(c.outline =~= c.outline.take(c.outline.len() as int));
    } else {
        lemma_code_runs_grow(c, s, line.drop_last(), inset, top);
        let b = c.code_runs(s, line.drop_last(), inset, top);
        let a = c.code_runs(s, line, inset, top);
        assert(b.items =~= a.items.take(b.items.len() as int));
        assert(b.outline =~= a.outline.take(b.outline.len() as int));
        assert forall|i: int| c.items.len() <= i < a.items.len() implies top <= top_of(
            #[trigger] a.items[i],
        ) <= top by {
            if i < b.items.len() {
                assert(a.items[i] == b.items[i]);
            }
        }
        assert(c.items =~= a.items.take(c.items.len() as int)) by {
            assert forall|i: int| 0 <= i < c.items.len() implies c.items[i] == a.items[i] by {
                assert(c.items[i] == b.items.take(c.items.len() as int)[i]);
            }
        }
    }
}

proof fn lemma_code_lines_grow(
    c: Canvas,
    s: Setting,
    lines: Seq<Seq<(usize, SpanModel)>>,
    inset: usize,
    top: usize,
)
    ensures
        extended(c, c.code_lines(s, lines, inset, top), top, at_most(top + lines.len())),
        c.code_lines(s, lines, inset, top).y == c.y,
    decreases lines.len(),
{
    if lines.len() == 0 {
        assert(c.items =~= c.items.take(c.items.len() as int));
        assert(c.outline =~= c.outline.take(c.outline.len() as int));
    } else {
        lemma_code_lines_grow(c, s, lines.drop_last(), inset, top);
        let b = c.code_lines(s, lines.drop_last(), inset, top);
        lemma_code_runs_grow(b, s, lines.last(), inset, at_most(top + lines.len() - 1));
        let a = c.code_lines(s, lines, inset, top);
        lemma_extended(c, b, a);
        assert forall|i: int| c.items.len() <= i < a.items.len() implies top <= top_of(
            #[trigger] a.items[i],
        ) <= at_most(top + lines.len()) by {
            if i < b.items.len() {
                assert(b.items[i] == a.items.take(b.items.len() as int)[i]);
            }
        }
    }
}

proof fn lemma_code_grow(
    c: Canvas,
    s: Setting,
    lang: Option<Seq<char>>,
    lines: Seq<Seq<char>>,
    inset: usize,
)
    ensures
        grown(c, c.code(s, lang, lines, inset)),
        c.code(s, lang, lines, inset).items.len() > c.items.len(),
        c.code(s, lang, lines, inset).items[c.items.len() as int] is Fill,
{
    let cols = cols_at(s.frame, at_most(inset + 4), 100);
    let drawn = folded_lines(
        highlight::code_spans(lang, untabbed(lines), s.theme.code_fg),
        cols,
    );
    let h = at_most(drawn.len() as int + 2);
    let filled = Canvas {
        items: c.items.push(ItemDrawn::Fill { inset, y: c.y, h, fill: s.theme.code_bg }),
        ..c
    };
    assert(c.items =~= filled.items.take(c.items.len() as int));
    assert(c.outline =~= filled.outline.take(c.outline.len() as int));
    lemma_code_lines_grow(filled, s, drawn, inset, at_most(c.y + 1));
    let e = c.code(s, lang, lines, inset);
    lemma_extended(c, filled, e);
    assert(e.items[c.items.len() as int] == e.items.take(filled.items.len() as int)[c.items.len()
        as int]);
}

proof fn lemma_row_line_grow(
    c: Canvas,
    s: Setting,
    cells: Seq<Seq<Seq<PieceModel>>>,
    widths: Seq<nat>,
    align: Seq<Align>,
    inset: usize,
    j: int,
    n: nat,
)
    ensures
        grown(c, c.row_line(s, cells, widths, align, inset, j, n)),
    decreases n,
{
    if n == 0 || n > cells.len() {
        assert(c.items =~= c.items.take(c.items.len() as int));
        assert(c.outline =~= c.outline.take(c.outline.len() as int));
    } else {
        let m = (n - 1) as nat;
        lemma_row_line_grow(c, s, cells, widths, align, inset, j, m);
        let b = c.row_line(s, cells, widths, align, inset, j, m);
        let a = c.row_line(s, cells, widths, align, inset, j, n);
        assert(b.items =~= a.items.take(b.items.len() as int));
        assert(b.outline =~= a.outline.take(b.outline.len() as int));
        lemma_grown(c, b, a);
    }
}

proof fn lemma_row_lines_grow(
    c: Canvas,
    s: Setting,
    cells: Seq<Seq<Seq<PieceModel>>>,
    widths: Seq<nat>,
    align: Seq<Align>,
    inset: usize,
    n: nat,
)
    ensures
        grown(c, c.row_lines(s, cells, widths, align, inset, n)),
    decreases n,
{
    if n == 0 {
        assert(c.items =~= c.items.take(c.items.len() as int));
        assert(c.outline =~= c.outline.take(c.outline.len() as int));
    } else {
        let m = (n - 1) as nat;
        lemma_row_lines_grow(c, s, cells, widths, align, inset, m);
        let b = c.row_lines(s, cells, widths, align, inset, m);
        let d = b.row_line(s, cells, widths, align, inset, n - 1, cells.len());
        lemma_row_line_grow(b, s, cells, widths, align, inset, n - 1, cells.len());
        let a = d.down(1);
        assert(d.items =~= a.items.take(d.items.len() as int));
        assert(d.outline =~= a.outline.take(d.outline.len() as int));
        lemma_grown(b, d, a);
        lemma_grown(c, b, a);
    }
}

proof fn lemma_rows_grow(
    c: Canvas,
    s: Setting,
    rows: Seq<Seq<Seq<InlineModel>>>,
    widths: Seq<nat>,
    align: Seq<Align>,
    inset: usize,
    n: nat,
)
    ensures
        grown(c, c.rows(s, rows, widths, align, inset, n)),
    decreases n,
{
    if n == 0 || n > rows.len() {
        assert(c.items =~= c.items.take(c.items.len() as int));
        assert(c.outline =~= c.outline.take(c.outline.len() as int));
    } else {
        let m = (n - 1) as nat;
        lemma_rows_grow(c, s, rows, widths, align, inset, m);
        let b = c.rows(s, rows, widths, align, inset, m);
        let lines = row_lines(rows[n - 1], widths, measure::plain_style());
        lemma_row_lines_grow(b, s, lines, widths, align, inset, row_height(lines));
        lemma_grown(c, b, c.rows(s, rows, widths, align, inset, n));
    }
}

proof fn lemma_table_grow(c: Canvas, s: Setting, t: TableModel, inset: usize)
    ensures
        grown(c, c.table(s, t, inset)),
{
    let n = table_cols(measure::all_rows(t));
    assert(c.items =~= c.items.take(c.items.len() as int));
    assert(c.outline =~= c.outline.take(c.outline.len() as int));
    if n > 0 {
        let widths = measure::table_widths(t, n, cols_at(s.frame, inset, 100));
        let span = at_most(start_of(widths, n as int) - TABLE_GAP);
        let headed = if t.head.len() > 0 {
            let d = c.row(s, t.head, widths, t.align, inset, bold_style());
            Canvas {
                items: d.items.push(
                    ItemDrawn::Rule { inset, y: d.y, span: Some(span), fill: s.theme.rule },
                ),
                ..d
            }.down(1)
        } else {
            c
        };
        if t.head.len() > 0 {
            let lines = row_lines(t.head, widths, bold_style());
            lemma_row_lines_grow(c, s, lines, widths, t.align, inset, row_height(lines));
            let d = c.row(s, t.head, widths, t.align, inset, bold_style());
            assert(d.items =~= headed.items.take(d.items.len() as int));
            assert(d.outline =~= headed.outline.take(d.outline.len() as int));
            lemma_grown(c, d, headed);
        }
        lemma_rows_grow(headed, s, t.rows, widths, t.align, inset, t.rows.len());
        lemma_grown(c, headed, c.table(s, t, inset));
    }
}

/// Drawing blocks only ever adds to a page, and only ever below: the rows never go back up.
pub proof fn lemma_blocks_grow(c: Canvas, s: Setting, blocks: Seq<BlockModel>, inset: usize)
    ensures
        grown(c, c.blocks(s, blocks, inset)),
    decreases blocks, 0nat,
{
    if blocks.len() == 0 {
        assert(c.items =~= c.items.take(c.items.len() as int));
        assert(c.outline =~= c.outline.take(c.outline.len() as int));
    } else {
        lemma_blocks_grow(c, s, blocks.drop_last(), inset);
        let b = c.blocks(s, blocks.drop_last(), inset);
        let d = if blocks.len() > 1 {
            b.down(1)
        } else {
            b
        };
        assert(b.items =~= d.items.take(b.items.len() as int));
        assert(b.outline =~= d.outline.take(b.outline.len() as int));
        lemma_block_grow(d, s, blocks.last(), inset);
        lemma_grown(b, d, c.blocks(s, blocks, inset));
        lemma_grown(c, b, c.blocks(s, blocks, inset));
    }
}

proof fn lemma_insert_grown(a: Canvas, b: Canvas, item: ItemDrawn)
    requires
        grown(a, b),
        top_of(item) == a.y,
    ensures
        grown(a, Canvas { items: b.items.insert(a.items.len() as int, item), ..b }),
{
    let c = b.items.insert(a.items.len() as int, item);
    assert forall|i: int| 0 <= i < a.items.len() implies a.items[i] == c[i] by {
        assert(a.items[i] == b.items.take(a.items.len() as int)[i]);
    }
    assert(a.items =~= c.take(a.items.len() as int));
    assert forall|i: int| a.items.len() <= i < c.len() implies a.y <= top_of(#[trigger] c[i])
        <= b.y by {
        if i > a.items.len() {
            assert(c[i] == b.items[i - 1]);
        }
    }
}

proof fn lemma_block_grow(c: Canvas, s: Setting, b: BlockModel, inset: usize)
    ensures
        grown(c, c.block(s, b, inset)),
    decreases b, 0nat,
{
    match b {
        BlockModel::Heading { level, inlines } => {
            lemma_heading_grow(c, s, level, inlines, inset);
        },
        BlockModel::Paragraph(inlines) => {
            lemma_lines_grow(
                c,
                s,
                wrap::wrapped(inlines, cols_at(s.frame, inset, 100), measure::plain_style()),
                inset,
                100,
            );
        },
        BlockModel::Code { lang, lines } => {
            lemma_code_grow(c, s, lang, lines, inset);
        },
        BlockModel::Quote { callout, blocks } => {
            let d = c.label(s, callout, inset);
            assert(c.items =~= d.items.take(c.items.len() as int));
            assert(c.outline =~= d.outline.take(c.outline.len() as int));
            lemma_blocks_grow(d, s, blocks, at_most(inset + 2));
            let e = d.blocks(s, blocks, at_most(inset + 2));
            lemma_grown(c, d, e);
            let fill = match callout {
                Some(k) => s.theme.callout.colour(k),
                None => s.theme.quote_bar,
            };
            lemma_insert_grown(
                c,
                e,
                ItemDrawn::Bar { inset, y: c.y, h: (e.y - c.y) as usize, fill },
            );
        },
        BlockModel::List { start, items } => {
            lemma_items_grow(c, s, start, items, inset);
        },
        BlockModel::Footnotes(notes) => {
            lemma_notes_grow(c, s, notes, inset);
        },
        BlockModel::Table(t) => {
            lemma_table_grow(c, s, t, inset);
        },
        BlockModel::Rule => {
            let d = c.block(s, b, inset);
            assert(c.items =~= d.items.take(c.items.len() as int));
            assert(c.outline =~= d.outline.take(c.outline.len() as int));
        },
    }
}

proof fn lemma_marked_grow(
    c: Canvas,
    s: Setting,
    m: Seq<char>,
    blocks: Seq<BlockModel>,
    inset: usize,
)
    ensures
        ({
            let inner = c.blocks(s, blocks, at_most(inset + columns::columns(m) + 1));
            grown(c, c.marked(s, inner, m, inset))
        }),
    decreases blocks, 1nat,
{
    let indent = at_most(inset + columns::columns(m) + 1);
    lemma_blocks_grow(c, s, blocks, indent);
    let inner = c.blocks(s, blocks, indent);
    lemma_insert_grown(
        c,
        inner,
        ItemDrawn::Run {
            x: x_of(s.frame, inset as int, 0, 100),
            top: c.y,
            scale: 100,
            text: m,
            bold: false,
            italic: false,
            strike: false,
            fill: s.theme.dim,
        },
    );
}

proof fn lemma_items_grow(
    c: Canvas,
    s: Setting,
    start: Option<u64>,
    items: Seq<ItemModel>,
    inset: usize,
)
    ensures
        grown(c, c.items_of(s, start, items, inset)),
    decreases items, 0nat,
{
    if items.len() == 0 {
        assert(c.items =~= c.items.take(c.items.len() as int));
        assert(c.outline =~= c.outline.take(c.outline.len() as int));
    } else {
        lemma_items_grow(c, s, start, items.drop_last(), inset);
        let d = c.items_of(s, start, items.drop_last(), inset);
        let m = marker(items.last().task, start, items.len() - 1);
        lemma_marked_grow(d, s, m, items.last().blocks, inset);
        lemma_grown(c, d, c.items_of(s, start, items, inset));
    }
}

proof fn lemma_notes_grow(c: Canvas, s: Setting, notes: Seq<NoteModel>, inset: usize)
    ensures
        grown(c, c.notes(s, notes, inset)),
    decreases notes, 0nat,
{
    if notes.len() == 0 {
        assert(c.items =~= c.items.take(c.items.len() as int));
        assert(c.outline =~= c.outline.take(c.outline.len() as int));
    } else {
        lemma_notes_grow(c, s, notes.drop_last(), inset);
        let d = c.notes(s, notes.drop_last(), inset);
        let m = text::dec(notes.last().number) + "."@;
        lemma_marked_grow(d, s, m, notes.last().blocks, inset);
        lemma_grown(c, d, c.notes(s, notes, inset));
    }
}

/// A run of text on a page.
#[verifier::ext_equal]
pub struct RunDrawn {
    pub top: usize,
    pub x: usize,
    pub scale: usize,
    pub text: Seq<char>,
}

/// The runs among drawing instructions.
pub open spec fn runs_among(items: Seq<ItemDrawn>) -> Seq<RunDrawn>
    decreases items.len(),
{
    if items.len() == 0 {
        seq![]
    } else {
        let before = runs_among(items.drop_last());
        match items.last() {
            ItemDrawn::Run { x, top, scale, text, bold, italic, strike, fill } => before.push(
                RunDrawn { top, x, scale, text },
            ),
            _ => before,
        }
    }
}

/// Whether `a` reads before `b`: in a row above, or to the left in the same.
pub open spec fn reads_before(a: RunDrawn, b: RunDrawn) -> bool {
    a.top < b.top || (a.top == b.top && a.x < b.x)
}

/// Where `r` goes in a run sorted by place: behind every run that does not read after it.
pub open spec fn insert_run(sorted: Seq<RunDrawn>, r: RunDrawn) -> Seq<RunDrawn>
    decreases sorted.len(),
{
    if sorted.len() == 0 || !reads_before(r, sorted.last()) {
        sorted.push(r)
    } else {
        insert_run(sorted.drop_last(), r).push(sorted.last())
    }
}

/// Runs in reading order.
pub open spec fn sorted_runs(runs: Seq<RunDrawn>) -> Seq<RunDrawn>
    decreases runs.len(),
{
    if runs.len() == 0 {
        seq![]
    } else {
        insert_run(sorted_runs(runs.drop_last()), runs.last())
    }
}

/// How many columns of type the gap between `end` and `x` is, to the nearest.
pub open spec fn gap_cols(x: usize, end: usize, scale: usize) -> nat {
    if x <= end || scale == 0 {
        0
    } else {
        ((2 * (x - end) + scale) / (2 * scale)) as nat
    }
}

/// So many spaces.
pub open spec fn spaces(n: nat) -> Seq<char> {
    Seq::new(n, |i: int| ' ')
}

/// Lines read so far, and where the last of them ends.
#[verifier::ext_equal]
pub struct Reading {
    pub out: Seq<LineModel>,
    pub end: usize,
}

impl Reading {
    /// A run is read: on the line it shares a row with, behind as many spaces as the columns
    /// between them, or on a line of its own.
    pub open spec fn with_run(self, r: RunDrawn) -> Reading {
        let end = at_most(r.x + columns::columns(r.text) * r.scale);
        let last = self.out.last();
        if self.out.len() > 0 && last.y == r.top {
            let rows = rows_for(r.scale);
            Reading {
                out: self.out.drop_last().push(
                    LineModel {
                        h: if rows > last.h {
                            rows
                        } else {
                            last.h
                        },
                        text: last.text + spaces(gap_cols(r.x, self.end, r.scale)) + r.text,
                        ..last
                    },
                ),
                end,
            }
        } else {
            Reading {
                out: self.out.push(
                    LineModel {
                        y: r.top,
                        x: r.x,
                        h: rows_for(r.scale),
                        advance: r.scale,
                        text: r.text,
                    },
                ),
                end,
            }
        }
    }

    /// Runs are read, first to last.
    pub open spec fn with_runs(self, runs: Seq<RunDrawn>) -> Reading
        decreases runs.len(),
    {
        if runs.len() == 0 {
            self
        } else {
            self.with_runs(runs.drop_last()).with_run(runs.last())
        }
    }
}

/// The text of a page, one entry per drawn line.
pub open spec fn page_lines(items: Seq<ItemDrawn>) -> Seq<LineModel> {
    Reading { out: seq![], end: 0 }.with_runs(sorted_runs(runs_among(items))).out
}

/// A run of text on a page.
struct Run {
    top: usize,
    x: usize,
    scale: usize,
    text: String,
}

impl View for Run {
    type V = RunDrawn;

    closed spec fn view(&self) -> RunDrawn {
        RunDrawn { top: self.top, x: self.x, scale: self.scale, text: self.text@ }
    }
}

spec fn run_models(s: Seq<Run>) -> Seq<RunDrawn> {
    s.map_values(|r: Run| r@)
}

proof fn lemma_insert_run(sorted: Seq<RunDrawn>, r: RunDrawn, k: int)
    requires
        0 <= k <= sorted.len(),
        forall|j: int| k <= j < sorted.len() ==> reads_before(r, #[trigger] sorted[j]),
        k > 0 ==> !reads_before(r, sorted[k - 1]),
    ensures
        insert_run(sorted, r) == sorted.insert(k, r),
    decreases sorted.len(),
{
    if k == sorted.len() {
        assert(sorted.insert(k, r) =~= sorted.push(r));
    } else {
        let shorter = sorted.drop_last();
        assert forall|j: int| k <= j < shorter.len() implies reads_before(
            r,
            #[trigger] shorter[j],
        ) by {
            assert(shorter[j] == sorted[j]);
        }
        assert(reads_before(r, sorted[sorted.len() - 1]));
        lemma_insert_run(shorter, r, k);
        assert(sorted.insert(k, r) =~= shorter.insert(k, r).push(sorted.last()));
    }
}

/// Put `r` where it reads.
fn place_run(sorted: &mut Vec<Run>, r: Run)
    ensures
        run_models(final(sorted)@) == insert_run(run_models(old(sorted)@), r@),
{
    let ghost models = run_models(sorted@);
    let mut k: usize = sorted.len();
    while k > 0 && (r.top < sorted[k - 1].top || (r.top == sorted[k - 1].top && r.x < sorted[k
        - 1].x))
        invariant
            k <= sorted@.len(),
            *sorted == *old(sorted),
            models == run_models(sorted@),
            forall|j: int| k <= j < models.len() ==> reads_before(r@, #[trigger] models[j]),
        decreases k,
    {
        assert(models[k - 1] == sorted@[k - 1]@);
        k -= 1;
    }
    proof {
        assert(k > 0 ==> models[k - 1] == sorted@[k - 1]@);
        lemma_insert_run(models, r@, k as int);
    }
    sorted.insert(k, r);
    assert(run_models(sorted@) =~= models.insert(k as int, r@));
}

/// How many columns of type the gap between `end` and `x` is.
fn gap_of(x: usize, end: usize, scale: usize) -> (r: usize)
    ensures
        r == gap_cols(x, end, scale),
{
    if x <= end || scale == 0 {
        return 0;
    }
    let gap: u128 = (2 * (x as u128 - end as u128) + scale as u128) / (2 * scale as u128);
    proof {
        let num = 2 * (x - end) + scale;
        let den = 2 * scale;
        assert(num / den <= usize::MAX) by {
            assert(num / den <= num / 2) by (nonlinear_arith)
                requires
                    den >= 2,
                    num >= 0,
            ;
            if scale > x - end {
                assert(num / den <= 1) by (nonlinear_arith)
                    requires
                        0 <= num < 2 * den,
                        den > 0,
                ;
            } else {
                assert(num / 2 <= 2 * (x - end));
                assert(num / den <= x - end) by (nonlinear_arith)
                    requires
                        num == 2 * (x - end) + scale,
                        den == 2 * scale,
                        scale >= 1,
                        x - end >= scale,
                ;
            }
        }
    }
    gap as usize
}

/// Recover the page's text from what was drawn, one entry per line.
pub fn lines_of(items: &Vec<Item>) -> (r: Vec<Line>)
    ensures
        index::line_models(r@) == page_lines(items_drawn(items@)),
{
    let ghost all = items_drawn(items@);
    let mut runs: Vec<Run> = Vec::new();
    let mut i: usize = 0;
    while i < items.len()
        invariant
            i <= items@.len(),
            all == items_drawn(items@),
            run_models(runs@) =~= sorted_runs(runs_among(all.take(i as int))),
        decreases items.len() - i,
    {
        assert(all.take(i + 1).drop_last() =~= all.take(i as int));
        assert(all[i as int] == items@[i as int]@);
        let ghost found = runs_among(all.take(i as int));
        if let Item::Run { x, top, scale, text, .. } = &items[i] {
            let r = Run { top: *top, x: *x, scale: *scale, text: text.clone() };
            place_run(&mut runs, r);
            assert(found.push(r@).drop_last() =~= found);
        }
        i += 1;
    }
    assert(all.take(i as int) =~= all);
    let ghost order = run_models(runs@);
    let ghost start = Reading { out: seq![], end: 0 };
    let mut out: Vec<Line> = Vec::new();
    let mut end: usize = 0;
    let mut k: usize = 0;
    while k < runs.len()
        invariant
            k <= runs@.len(),
            order == run_models(runs@),
            (Reading { out: index::line_models(out@), end }) =~= start.with_runs(
                order.take(k as int),
            ),
        decreases runs.len() - k,
    {
        assert(order.take(k + 1).drop_last() =~= order.take(k as int));
        let r = &runs[k];
        assert(order[k as int] == r@);
        let ghost before = Reading { out: index::line_models(out@), end };
        let w: usize = width(r.text.as_str());
        match out.pop() {
            Some(mut l) => {
                let ghost kept = out@;
                assert(index::line_models(kept) =~= before.out.drop_last());
                if l.y == r.top {
                    let rows: usize = rows_of(r.scale);
                    if rows > l.h {
                        l.h = rows;
                    }

                    // padded to the columns the gap spans, not to
                    // one space: the nth character of the line has
                    // to sit where the nth column of the page does,
                    // or a match is highlighted in the wrong place
                    let gap: usize = gap_of(r.x, end, r.scale);
                    let ghost was = l.text@;
                    let mut g: usize = 0;
                    while g < gap
                        invariant
                            g <= gap,
                            l.text@ =~= was + spaces(g as nat),
                            l@ == (LineModel { text: l.text@, ..l@ }),
                            l.y == before.out.last().y,
                            l.x == before.out.last().x,
                            l.advance == before.out.last().advance,
                            l.h == if rows > before.out.last().h {
                                rows
                            } else {
                                before.out.last().h
                            },
                        decreases gap - g,
                    {
                        l.text.push(' ');
                        g += 1;
                    }
                    l.text.push_str(r.text.as_str());
                    out.push(l);
                    assert(index::line_models(out@) =~= index::line_models(kept).push(l@));
                } else {
                    out.push(l);
                    let ghost had = out@;
                    assert(index::line_models(had) =~= before.out);
                    let line = Line {
                        y: r.top,
                        x: r.x,
                        h: rows_of(r.scale),
                        advance: r.scale,
                        text: r.text.clone(),
                    };
                    out.push(line);
                    assert(index::line_models(out@) =~= index::line_models(had).push(line@));
                }
            },
            None => {
                let ghost had = out@;
                let line = Line {
                    y: r.top,
                    x: r.x,
                    h: rows_of(r.scale),
                    advance: r.scale,
                    text: r.text.clone(),
                };
                out.push(line);
                assert(index::line_models(out@) =~= index::line_models(had).push(line@));
            },
        }
        assert(0 <= w * r.scale <= 0xffff_ffff_ffff_ffff * 0xffff_ffff_ffff_ffff)
            by (nonlinear_arith)
            requires
                0 <= w <= 0xffff_ffff_ffff_ffff,
                0 <= r.scale <= 0xffff_ffff_ffff_ffff,
        ;
        let reach: u128 = r.x as u128 + w as u128 * r.scale as u128;
        end = if reach > usize::MAX as u128 {
            usize::MAX
        } else {
            reach as usize
        };
        k += 1;
    }
    assert(order.take(k as int) =~= order);
    out
}

/// What a document's blocks draw on an empty page.
pub open spec fn drawn(s: Setting, blocks: Seq<BlockModel>) -> Canvas {
    Canvas { y: s.frame.margin, items: seq![], outline: seq![] }.blocks(s, blocks, 0)
}

/// Lay `doc` out into a page.
pub fn layout(doc: &Doc, s: &Setting, h: &Highlighter) -> (r: Page)
    requires
        h.wf(),
    ensures
        ({
            let c = drawn(*s, doc@);
            &&& items_drawn(r.items@) == c.items
            &&& index::heading_models(r.outline@) == c.outline
            &&& index::line_models(r.lines@) == page_lines(c.items)
            &&& r.rows == at_most(c.y + s.frame.margin)
        }),
{
    let mut c = Cursor { y: s.frame.margin, items: Vec::new(), outline: Vec::new() };
    assert(c@ =~= (Canvas { y: s.frame.margin, items: seq![], outline: seq![] }));
    c.blocks(s, h, &doc.blocks, 0);
    let lines = lines_of(&c.items);
    Page {
        rows: c.y.saturating_add(s.frame.margin),
        items: c.items,
        lines,
        outline: c.outline,
    }
}

/// A quote's bar is drawn before what the quote holds and spans all of it: everything inside begins
/// no higher than the bar and no lower than its end.
pub proof fn law_quote_bar_spans_its_quote(
    c: Canvas,
    s: Setting,
    callout: Option<Callout>,
    blocks: Seq<BlockModel>,
    inset: usize,
)
    ensures
        ({
            let after = c.block(s, BlockModel::Quote { callout, blocks }, inset);
            let at = c.items.len() as int;
            &&& after.items.len() > at
            &&& after.items[at] matches ItemDrawn::Bar { inset: i, y, h, fill } && i == inset && y
                == c.y && y + h == after.y
            &&& forall|k: int|
                at < k < after.items.len() ==> c.y <= top_of(#[trigger] after.items[k]) <= after.y
        }),
{
    lemma_block_grow(c, s, BlockModel::Quote { callout, blocks }, inset);
    let d = c.label(s, callout, inset);
    lemma_blocks_grow(d, s, blocks, at_most(inset + 2));
}

/// A code block draws its background before its text.
pub proof fn law_code_background_comes_first(
    c: Canvas,
    s: Setting,
    lang: Option<Seq<char>>,
    lines: Seq<Seq<char>>,
    inset: usize,
)
    ensures
        ({
            let after = c.block(s, BlockModel::Code { lang, lines }, inset);
            &&& after.items.len() > c.items.len()
            &&& after.items[c.items.len() as int] is Fill
            &&& grown(c, after)
        }),
{
    lemma_code_grow(c, s, lang, lines, inset);
}

/// A longer document is no shorter a page, and the page keeps what the shorter one drew.
pub proof fn law_longer_document_is_no_shorter(s: Setting, blocks: Seq<BlockModel>, b: BlockModel)
    ensures
        grown(drawn(s, blocks), drawn(s, blocks.push(b))),
{
    let start = Canvas { y: s.frame.margin, items: seq![], outline: seq![] };
    assert(blocks.push(b).drop_last() =~= blocks);
    let c = drawn(s, blocks);
    let d = if blocks.len() > 0 {
        c.down(1)
    } else {
        c
    };
    assert(c.items =~= d.items.take(c.items.len() as int));
    assert(c.outline =~= d.outline.take(c.outline.len() as int));
    lemma_block_grow(d, s, b, 0);
    lemma_grown(c, d, drawn(s, blocks.push(b)));
}

/// The line box of a heading is whole rows however large its type, as many as the type needs and
/// no more.
pub proof fn law_heading_box_holds_its_type(scale: usize)
    requires
        scale > 0,
    ensures
        1000 * rows_for(scale) >= 10 * scale - 1,
        rows_for(scale) > 1 ==> 1000 * (rows_for(scale) - 1) < 10 * scale - 1,
        rows_for(scale) >= 1,
{
}

/// Whether runs stand in reading order.
pub open spec fn in_order(runs: Seq<RunDrawn>) -> bool {
    forall|i: int, j: int|
        0 <= i < j < runs.len() ==> !reads_before(#[trigger] runs[j], #[trigger] runs[i])
}

proof fn lemma_insert_run_keeps(sorted: Seq<RunDrawn>, r: RunDrawn)
    ensures
        insert_run(sorted, r).to_multiset() == sorted.to_multiset().insert(r),
        insert_run(sorted, r).len() == sorted.len() + 1,
        in_order(sorted) ==> in_order(insert_run(sorted, r)),
        forall|k: int|
            0 <= k < insert_run(sorted, r).len() ==> #[trigger] insert_run(sorted, r)[k] == r
                || sorted.contains(insert_run(sorted, r)[k]),
    decreases sorted.len(),
{
    broadcast use vstd::seq_lib::group_to_multiset_ensures;

    let after = insert_run(sorted, r);
    if sorted.len() == 0 || !reads_before(r, sorted.last()) {
        assert forall|k: int| 0 <= k < after.len() implies #[trigger] after[k] == r
            || sorted.contains(after[k]) by {
            if k < sorted.len() {
                assert(after[k] == sorted[k]);
            }
        }
        if in_order(sorted) {
            assert forall|i: int, j: int| 0 <= i < j < after.len() implies !reads_before(
                #[trigger] after[j],
                #[trigger] after[i],
            ) by {
                if j == sorted.len() && i < sorted.len() - 1 {
                    assert(!reads_before(sorted.last(), sorted[i]));
                }
                if j < sorted.len() {
                    assert(!reads_before(sorted[j], sorted[i]));
                }
            }
        }
    } else {
        let shorter = sorted.drop_last();
        lemma_insert_run_keeps(shorter, r);
        let inner = insert_run(shorter, r);
        assert(sorted =~= shorter.push(sorted.last()));
        assert(after.to_multiset() =~= sorted.to_multiset().insert(r));
        assert forall|k: int| 0 <= k < after.len() implies #[trigger] after[k] == r
            || sorted.contains(after[k]) by {
            if k < inner.len() {
                assert(after[k] == inner[k]);
                if inner[k] != r {
                    assert(shorter.contains(inner[k]));
                    let j = choose|j: int| 0 <= j < shorter.len() && shorter[j] == inner[k];
                    assert(sorted[j] == inner[k]);
                }
            } else {
                assert(sorted[sorted.len() - 1] == after[k]);
            }
        }
        if in_order(sorted) {
            assert forall|i: int, j: int| 0 <= i < j < shorter.len() implies !reads_before(
                #[trigger] shorter[j],
                #[trigger] shorter[i],
            ) by {
                assert(!reads_before(sorted[j], sorted[i]));
            }
            assert forall|i: int, j: int| 0 <= i < j < after.len() implies !reads_before(
                #[trigger] after[j],
                #[trigger] after[i],
            ) by {
                if j < inner.len() {
                    assert(!reads_before(inner[j], inner[i]));
                } else if inner[i] != r {
                    assert(shorter.contains(inner[i]));
                    let k = choose|k: int| 0 <= k < shorter.len() && shorter[k] == inner[i];
                    assert(!reads_before(sorted[sorted.len() - 1], sorted[k]));
                }
            }
        }
    }
}

proof fn lemma_sorted_runs(runs: Seq<RunDrawn>)
    ensures
        in_order(sorted_runs(runs)),
        sorted_runs(runs).to_multiset() == runs.to_multiset(),
        sorted_runs(runs).len() == runs.len(),
    decreases runs.len(),
{
    broadcast use vstd::seq_lib::group_to_multiset_ensures;

    if runs.len() > 0 {
        lemma_sorted_runs(runs.drop_last());
        lemma_insert_run_keeps(sorted_runs(runs.drop_last()), runs.last());
        assert(runs =~= runs.drop_last().push(runs.last()));
    }
}

/// Whether lines stand one below the other.
pub open spec fn descending(lines: Seq<LineModel>) -> bool {
    forall|i: int, j: int| 0 <= i < j < lines.len() ==> #[trigger] lines[i].y < #[trigger] lines[j].y
}

proof fn lemma_reading_descends(runs: Seq<RunDrawn>)
    requires
        in_order(runs),
    ensures
        ({
            let r = Reading { out: seq![], end: 0 }.with_runs(runs);
            &&& descending(r.out)
            &&& runs.len() > 0 ==> r.out.len() > 0 && r.out.last().y == runs.last().top
        }),
    decreases runs.len(),
{
    let start = Reading { out: seq![], end: 0 };
    if runs.len() > 0 {
        let shorter = runs.drop_last();
        assert forall|i: int, j: int| 0 <= i < j < shorter.len() implies !reads_before(
            #[trigger] shorter[j],
            #[trigger] shorter[i],
        ) by {
            assert(!reads_before(runs[j], runs[i]));
        }
        lemma_reading_descends(shorter);
        let b = start.with_runs(shorter);
        let a = start.with_runs(runs);
        if shorter.len() > 0 {
            assert(!reads_before(runs[runs.len() - 1], runs[runs.len() - 2]));
        }
        assert forall|i: int, j: int| 0 <= i < j < a.out.len() implies #[trigger] a.out[i].y
            < #[trigger] a.out[j].y by {
            if a.out.len() == b.out.len() {
                assert(a.out[i].y == b.out[i].y);
                assert(a.out[j].y == b.out[j].y);
                assert(b.out[i].y < b.out[j].y);
            } else if j < b.out.len() {
                assert(b.out[i].y < b.out[j].y);
            } else if i < b.out.len() - 1 {
                assert(b.out[i].y < b.out[b.out.len() - 1].y);
            }
        }
    }
}

/// The text of a page reads down the page: every drawn line is one entry, each in a row below the
/// one before, and the runs are all those that were drawn.
pub proof fn law_page_reads_downward(items: Seq<ItemDrawn>)
    ensures
        descending(page_lines(items)),
        in_order(sorted_runs(runs_among(items))),
        sorted_runs(runs_among(items)).to_multiset() == runs_among(items).to_multiset(),
{
    lemma_sorted_runs(runs_among(items));
    lemma_reading_descends(sorted_runs(runs_among(items)));
}

/// A gap between two runs is read as the columns it spans: where one ends whole columns before the
/// next begins, as many spaces stand between them.
pub proof fn law_gap_is_columns(end: usize, cols: nat, scale: usize)
    requires
        scale > 0,
        end + cols * scale <= usize::MAX,
    ensures
        gap_cols((end + cols * scale) as usize, end, scale) == cols,
{
    if cols == 0 {
        assert(cols * scale == 0) by (nonlinear_arith)
            requires
                cols == 0,
        ;
    } else {
        let d = cols * scale;
        assert(d > 0) by (nonlinear_arith)
            requires
                cols > 0,
                scale > 0,
                d == cols * scale,
        ;
        assert((2 * d + scale) / (2 * scale) == cols) by (nonlinear_arith)
            requires
                d == cols * scale,
                scale > 0,
        ;
    }
}

/// The mark that an item stands behind: a filled or an empty box for a task, the number for an item of
/// a list that is numbered, counted on from the first, and a bullet for any other.
pub open spec fn mark_for(task: Option<bool>, start: Option<u64>, i: int, m: Seq<char>) -> bool {
    match (task, start) {
        (Some(true), _) => m == seq!['\u{25a0}'],
        (Some(false), _) => m == seq!['\u{25a1}'],
        (None, None) => m == seq!['\u{2022}'],
        (None, Some(n)) => {
            let digits = m.drop_last();
            &&& m.len() > 1
            &&& m.last() == '.'
            &&& text::all_digits(digits)
            &&& n + i <= u64::MAX ==> text::digits_value(digits) == n + i
            &&& n + i > u64::MAX ==> text::digits_value(digits) == u64::MAX
        },
    }
}

proof fn lemma_marker(task: Option<bool>, start: Option<u64>, i: int)
    requires
        0 <= i,
    ensures
        mark_for(task, start, i, marker(task, start, i)),
{
    reveal_strlit("\u{25a0}");
    reveal_strlit("\u{25a1}");
    reveal_strlit("\u{2022}");
    reveal_strlit(".");
    assert("\u{25a0}"@ =~= seq!['\u{25a0}']);
    assert("\u{25a1}"@ =~= seq!['\u{25a1}']);
    assert("\u{2022}"@ =~= seq!['\u{2022}']);
    if let (None, Some(n)) = (task, start) {
        let v = (if n + i > u64::MAX {
            u64::MAX as int
        } else {
            n + i
        }) as nat;
        text::law_a_number_reads_back(v);
        assert(marker(task, start, i).drop_last() =~= text::dec(v));
    }
}

/// Each item of a list stands behind its own mark, in the first row that the item takes, where the
/// items before it end: the marks of a numbered list count up from its first number by one. What the
/// item holds is drawn behind it, as far in as the mark and a space take.
pub proof fn law_each_item_stands_behind_its_mark(
    c: Canvas,
    s: Setting,
    start: Option<u64>,
    items: Seq<ItemModel>,
    inset: usize,
    i: int,
)
    requires
        0 <= i < items.len(),
        100 * (s.frame.left + inset) <= usize::MAX,
    ensures
        ({
            let before = c.block(s, BlockModel::List { start, items: items.take(i) }, inset);
            let after = c.block(s, BlockModel::List { start, items }, inset);
            let at = before.items.len() as int;
            &&& at < after.items.len()
            &&& before.items == after.items.take(at)
            &&& after.items[at] matches ItemDrawn::Run { x, top, scale, text, bold, italic, strike, fill }
                && {
                &&& x == 100 * (s.frame.left + inset)
                &&& top == before.y
                &&& scale == 100
                &&& mark_for(items[i].task, start, i, text)
                &&& !bold && !italic && !strike
                &&& fill == s.theme.dim
                &&& ({
                    let inner = before.blocks(
                        s,
                        items[i].blocks,
                        at_most(inset + columns::columns(text) + 1),
                    );
                    let now = c.block(s, BlockModel::List { start, items: items.take(i + 1) }, inset);
                    &&& now.items.skip(at + 1) == inner.items.skip(at)
                    &&& now.y == inner.y
                })
            }
        }),
{
    let before = c.items_of(s, start, items.take(i), inset);
    let now = c.items_of(s, start, items.take(i + 1), inset);
    let at = before.items.len() as int;
    assert(items.take(i + 1).drop_last() =~= items.take(i));
    assert(items.take(i + 1).last() == items[i]);
    lemma_marker(items[i].task, start, i);
    let m = marker(items[i].task, start, i);
    let inner = before.blocks(s, items[i].blocks, at_most(inset + columns::columns(m) + 1));
    lemma_blocks_grow(before, s, items[i].blocks, at_most(inset + columns::columns(m) + 1));
    assert(now == before.marked(s, inner, m, inset));
    assert(now.items.skip(at + 1) =~= inner.items.skip(at));
    lemma_items_prefix(c, s, start, items, inset, i + 1);
    lemma_items_prefix(c, s, start, items, inset, i);
    let after = c.items_of(s, start, items, inset);
    assert(now.items[at] == after.items.take(now.items.len() as int)[at]);
}

proof fn lemma_items_prefix(
    c: Canvas,
    s: Setting,
    start: Option<u64>,
    items: Seq<ItemModel>,
    inset: usize,
    i: int,
)
    requires
        0 <= i <= items.len(),
    ensures
        grown(
            c.items_of(s, start, items.take(i), inset),
            c.items_of(s, start, items, inset),
        ),
    decreases items.len(),
{
    let before = c.items_of(s, start, items.take(i), inset);
    if i == items.len() {
        assert(items.take(i) =~= items);
        assert(before.items =~= before.items.take(before.items.len() as int));
        assert(before.outline =~= before.outline.take(before.outline.len() as int));
    } else {
        lemma_items_prefix(c, s, start, items.drop_last(), inset, i);
        assert(items.drop_last().take(i) =~= items.take(i));
        let d = c.items_of(s, start, items.drop_last(), inset);
        let m = marker(items.last().task, start, items.len() - 1);
        lemma_marked_grow(d, s, m, items.last().blocks, inset);
        lemma_grown(before, d, c.items_of(s, start, items, inset));
    }
}

/// Each footnote stands behind its own number and a full stop, below those before it.
pub proof fn law_each_footnote_stands_behind_its_number(
    c: Canvas,
    s: Setting,
    notes: Seq<NoteModel>,
    inset: usize,
    i: int,
)
    requires
        0 <= i < notes.len(),
        100 * (s.frame.left + inset) <= usize::MAX,
    ensures
        ({
            let before = c.block(s, BlockModel::Footnotes(notes.take(i)), inset);
            let after = c.block(s, BlockModel::Footnotes(notes), inset);
            let at = before.items.len() as int;
            &&& at < after.items.len()
            &&& before.items == after.items.take(at)
            &&& after.items[at] matches ItemDrawn::Run { x, top, scale, text, bold, italic, strike, fill }
                && {
                &&& x == 100 * (s.frame.left + inset)
                &&& top == before.y
                &&& scale == 100
                &&& text.len() > 1
                &&& text.last() == '.'
                &&& text::all_digits(text.drop_last())
                &&& text::digits_value(text.drop_last()) == notes[i].number
                &&& !bold && !italic && !strike
                &&& fill == s.theme.dim
                &&& ({
                    let inner = before.blocks(
                        s,
                        notes[i].blocks,
                        at_most(inset + columns::columns(text) + 1),
                    );
                    let now = c.block(s, BlockModel::Footnotes(notes.take(i + 1)), inset);
                    &&& now.items.skip(at + 1) == inner.items.skip(at)
                    &&& now.y == inner.y
                })
            }
        }),
{
    let before = c.notes(s, notes.take(i), inset);
    let now = c.notes(s, notes.take(i + 1), inset);
    let at = before.items.len() as int;
    assert(notes.take(i + 1).drop_last() =~= notes.take(i));
    assert(notes.take(i + 1).last() == notes[i]);
    text::law_a_number_reads_back(notes[i].number);
    reveal_strlit(".");
    let m = text::dec(notes[i].number) + "."@;
    assert(m.drop_last() =~= text::dec(notes[i].number));
    let inner = before.blocks(s, notes[i].blocks, at_most(inset + columns::columns(m) + 1));
    lemma_blocks_grow(before, s, notes[i].blocks, at_most(inset + columns::columns(m) + 1));
    assert(now == before.marked(s, inner, m, inset));
    assert(now.items.skip(at + 1) =~= inner.items.skip(at));
    lemma_notes_prefix(c, s, notes, inset, i + 1);
    lemma_notes_prefix(c, s, notes, inset, i);
    let after = c.notes(s, notes, inset);
    assert(now.items[at] == after.items.take(now.items.len() as int)[at]);
}

proof fn lemma_notes_prefix(c: Canvas, s: Setting, notes: Seq<NoteModel>, inset: usize, i: int)
    requires
        0 <= i <= notes.len(),
    ensures
        grown(c.notes(s, notes.take(i), inset), c.notes(s, notes, inset)),
    decreases notes.len(),
{
    let before = c.notes(s, notes.take(i), inset);
    if i == notes.len() {
        assert(notes.take(i) =~= notes);
        assert(before.items =~= before.items.take(before.items.len() as int));
        assert(before.outline =~= before.outline.take(before.outline.len() as int));
    } else {
        lemma_notes_prefix(c, s, notes.drop_last(), inset, i);
        assert(notes.drop_last().take(i) =~= notes.take(i));
        let d = c.notes(s, notes.drop_last(), inset);
        let m = text::dec(notes.last().number) + "."@;
        lemma_marked_grow(d, s, m, notes.last().blocks, inset);
        lemma_grown(before, d, c.notes(s, notes, inset));
    }
}

/// Whether `i` is a piece of text as it is to be drawn: so many columns of its type to the right of
/// column `inset` of the content, in the row `top`, bold, slanted and struck as it is, in the colour of
/// code, of a link or of other text.
pub open spec fn draws_piece(
    i: ItemDrawn,
    s: Setting,
    p: PieceModel,
    inset: int,
    top: usize,
    scale: usize,
) -> bool {
    i matches ItemDrawn::Run { x, top: at, scale: size, text, bold, italic, strike, fill } && {
        &&& 100 * (s.frame.left + inset) + p.col * scale <= usize::MAX ==> x == 100 * (s.frame.left
            + inset) + p.col * scale
        &&& at == top
        &&& size == scale
        &&& text == p.text
        &&& bold == p.style.bold
        &&& italic == p.style.italic
        &&& strike == p.style.strike
        &&& p.style.code ==> fill == s.theme.code_fg
        &&& !p.style.code && p.style.link ==> fill == s.theme.link
        &&& !p.style.code && !p.style.link ==> fill == s.theme.fg
    }
}

proof fn lemma_run_draws(s: Setting, p: PieceModel, inset: int, top: usize, scale: usize)
    requires
        0 <= inset,
    ensures
        draws_piece(s.run(p, inset, top, scale), s, p, inset, top, scale),
{
    assert(0 <= p.col * scale) by (nonlinear_arith)
        requires
            0 <= p.col,
            0 <= scale,
    ;
}

/// Lines of text are drawn one below the other, each as many rows tall as its type takes, and every
/// piece of them in the row of its line.
pub proof fn law_lines_stand_one_below_the_other(
    c: Canvas,
    s: Setting,
    lines: Seq<Seq<PieceModel>>,
    inset: usize,
    scale: usize,
    j: int,
    k: int,
)
    requires
        0 <= j < lines.len(),
        0 <= k < lines[j].len(),
        c.y + lines.len() * rows_for(scale) <= usize::MAX,
    ensures
        ({
            let before = c.lines(s, lines.take(j), inset, scale);
            let after = c.lines(s, lines, inset, scale);
            let at = before.items.len() + k;
            &&& before.y == c.y + j * rows_for(scale)
            &&& after.y == c.y + lines.len() * rows_for(scale)
            &&& at < after.items.len()
            &&& draws_piece(after.items[at], s, lines[j][k], inset as int, before.y, scale)
        }),
{
    let before = c.lines(s, lines.take(j), inset, scale);
    let now = c.lines(s, lines.take(j + 1), inset, scale);
    assert(lines.take(j + 1).drop_last() =~= lines.take(j));
    assert(lines.take(j + 1).last() == lines[j]);
    lemma_lines_rows(c, s, lines, inset, scale);
    assert(lines.take(j).len() == j);
    let r = rows_for(scale) as int;
    assert(j * r <= lines.len() * r) by (nonlinear_arith)
        requires
            j <= lines.len(),
            0 <= r,
    ;
    lemma_lines_rows(c, s, lines.take(j), inset, scale);
    lemma_lines_prefix(c, s, lines, inset, scale, j + 1);
    let after = c.lines(s, lines, inset, scale);
    let at = before.items.len() + k;
    assert(now.items[at] == s.run(lines[j][k], inset as int, before.y, scale));
    assert(now.items[at] == after.items.take(now.items.len() as int)[at]);
    lemma_run_draws(s, lines[j][k], inset as int, before.y, scale);
}

proof fn lemma_lines_rows(
    c: Canvas,
    s: Setting,
    lines: Seq<Seq<PieceModel>>,
    inset: usize,
    scale: usize,
)
    requires
        c.y + lines.len() * rows_for(scale) <= usize::MAX,
    ensures
        c.lines(s, lines, inset, scale).y == c.y + lines.len() * rows_for(scale),
        c.lines(s, lines, inset, scale).outline == c.outline,
    decreases lines.len(),
{
    let r = rows_for(scale) as int;
    if lines.len() > 0 {
        let m = lines.len() - 1;
        assert(lines.len() * r == m * r + r) by (nonlinear_arith)
            requires
                m == lines.len() - 1,
        ;
        assert(lines.drop_last().len() == m);
        lemma_lines_rows(c, s, lines.drop_last(), inset, scale);
    } else {
        assert(lines.len() * r == 0) by (nonlinear_arith)
            requires
                lines.len() == 0,
        ;
    }
}

proof fn lemma_lines_prefix(
    c: Canvas,
    s: Setting,
    lines: Seq<Seq<PieceModel>>,
    inset: usize,
    scale: usize,
    j: int,
)
    requires
        0 <= j <= lines.len(),
    ensures
        grown(c.lines(s, lines.take(j), inset, scale), c.lines(s, lines, inset, scale)),
    decreases lines.len(),
{
    let before = c.lines(s, lines.take(j), inset, scale);
    if j == lines.len() {
        assert(lines.take(j) =~= lines);
        assert(before.items =~= before.items.take(before.items.len() as int));
        assert(before.outline =~= before.outline.take(before.outline.len() as int));
    } else {
        lemma_lines_prefix(c, s, lines.drop_last(), inset, scale, j);
        assert(lines.drop_last().take(j) =~= lines.take(j));
        let d = c.lines(s, lines.drop_last(), inset, scale);
        let one = seq![lines.last()];
        lemma_lines_grow(d, s, one, inset, scale);
        assert(one.drop_last() =~= seq![]);
        assert(d.lines(s, one.drop_last(), inset, scale) == d);
        assert(d.lines(s, one, inset, scale) == c.lines(s, lines, inset, scale));
        lemma_grown(before, d, c.lines(s, lines, inset, scale));
    }
}

/// A paragraph is its text, wrapped to the room there is from where it stands, in type of the body's
/// size, line below line.
pub proof fn law_a_paragraph_is_its_text(
    c: Canvas,
    s: Setting,
    inlines: Seq<InlineModel>,
    inset: usize,
)
    requires
        c.y + wrap::wrapped(
            inlines,
            cols_at(s.frame, inset, 100),
            measure::plain_style(),
        ).len() <= usize::MAX,
    ensures
        ({
            let base = Style { bold: false, italic: false, code: false, strike: false, link: false };
            let lines = wrap::wrapped(inlines, cols_at(s.frame, inset, 100), base);
            let after = c.block(s, BlockModel::Paragraph(inlines), inset);
            &&& after == c.lines(s, lines, inset, 100)
            &&& after.y == c.y + lines.len()
            &&& after.outline == c.outline
            &&& wrap::lines_styled(lines) == wrap::inlines_styled(inlines, base)
        }),
{
    let base = Style { bold: false, italic: false, code: false, strike: false, link: false };
    let lines = wrap::wrapped(inlines, cols_at(s.frame, inset, 100), base);
    wrap::law_wrap_keeps_styles(inlines, cols_at(s.frame, inset, 100), base);
    assert(rows_for(100) == 1);
    assert(lines.len() * 1 == lines.len());
    lemma_lines_rows(c, s, lines, inset, 100);
}

/// A heading is its text in bold, twice the body's size for the first level and smaller from level to
/// level down to the body's, a row below what stands above it. It stands in the outline with its level,
/// its words and the row it begins in.
pub proof fn law_a_heading_is_large_and_listed(
    c: Canvas,
    s: Setting,
    level: u8,
    inlines: Seq<InlineModel>,
    inset: usize,
)
    requires
        c.y < usize::MAX,
        ({
            let scale = scale_of(level);
            let lines = wrap::wrapped(inlines, cols_at(s.frame, inset, scale), bold_style());
            c.y + 1 + lines.len() * rows_for(scale) <= usize::MAX
        }),
    ensures
        ({
            let base = Style { bold: true, italic: false, code: false, strike: false, link: false };
            let scale: usize = if level == 0 || level == 1 {
                200
            } else if level == 2 {
                160
            } else if level == 3 {
                130
            } else if level == 4 {
                115
            } else {
                100
            };
            let lines = wrap::wrapped(inlines, cols_at(s.frame, inset, scale), base);
            let row: usize = if c.y > s.frame.margin {
                (c.y + 1) as usize
            } else {
                c.y
            };
            let after = c.block(s, BlockModel::Heading { level, inlines }, inset);
            let n = c.outline.len() as int;
            &&& after.outline.len() == n + 1
            &&& after.outline.take(n) == c.outline
            &&& after.outline[n].level == level
            &&& after.outline[n].text == measure::flattened(inlines)
            &&& after.outline[n].y == row
            &&& after.items == Canvas { y: row, ..c }.lines(s, lines, inset, scale).items
            &&& after.y == row + lines.len() * rows_for(scale)
            &&& wrap::lines_styled(lines) == wrap::inlines_styled(inlines, base)
        }),
{
    let base = Style { bold: true, italic: false, code: false, strike: false, link: false };
    let scale = scale_of(level);
    let lines = wrap::wrapped(inlines, cols_at(s.frame, inset, scale), base);
    wrap::law_wrap_keeps_styles(inlines, cols_at(s.frame, inset, scale), base);
    let row: usize = if c.y > s.frame.margin {
        (c.y + 1) as usize
    } else {
        c.y
    };
    let d = Canvas { y: row, ..c };
    let listed = Canvas {
        outline: c.outline.push(HeadingModel { level, text: measure::flattened(inlines), y: row }),
        ..d
    };
    lemma_lines_rows(d, s, lines, inset, scale);
    lemma_lines_rows(listed, s, lines, inset, scale);
    lemma_lines_same_items(d, listed, s, lines, inset, scale);
    assert(listed.outline.take(c.outline.len() as int) =~= c.outline);
}

proof fn lemma_lines_same_items(
    a: Canvas,
    b: Canvas,
    s: Setting,
    lines: Seq<Seq<PieceModel>>,
    inset: usize,
    scale: usize,
)
    requires
        a.y == b.y,
        a.items == b.items,
    ensures
        a.lines(s, lines, inset, scale).items == b.lines(s, lines, inset, scale).items,
        a.lines(s, lines, inset, scale).y == b.lines(s, lines, inset, scale).y,
    decreases lines.len(),
{
    if lines.len() > 0 {
        lemma_lines_same_items(a, b, s, lines.drop_last(), inset, scale);
    }
}

/// A quote's bar has the colour of its kind, and a callout says which kind it is, in bold in the same
/// colour, two columns in, in a row of its own above what it holds. That begins two columns in.
pub proof fn law_a_callout_says_its_kind(
    c: Canvas,
    s: Setting,
    kind: Callout,
    blocks: Seq<BlockModel>,
    inset: usize,
)
    requires
        c.y < usize::MAX,
        100 * (s.frame.left + inset + 2) <= usize::MAX,
    ensures
        ({
            let of = s.theme.callout;
            let (word, colour) = match kind {
                Callout::Note => ("Note"@, of.note),
                Callout::Tip => ("Tip"@, of.tip),
                Callout::Important => ("Important"@, of.important),
                Callout::Warning => ("Warning"@, of.warning),
                Callout::Caution => ("Caution"@, of.caution),
            };
            let n = c.items.len() as int;
            let after = c.block(s, BlockModel::Quote { callout: Some(kind), blocks }, inset);
            let plain = c.block(s, BlockModel::Quote { callout: None, blocks }, inset);
            &&& after.items.len() >= n + 2
            &&& after.items[n] matches ItemDrawn::Bar { inset: at, y, h, fill } && at == inset && y == c.y
                && fill == colour
            &&& after.items[n + 1] == (ItemDrawn::Run {
                x: (100 * (s.frame.left + inset + 2)) as usize,
                top: c.y,
                scale: 100,
                text: word,
                bold: true,
                italic: false,
                strike: false,
                fill: colour,
            })
            &&& ({
                let labelled = Canvas { y: (c.y + 1) as usize, items: after.items.take(n + 2), ..c };
                let inner = Canvas { items: c.items.push(after.items[n + 1]), ..labelled }.blocks(
                    s,
                    blocks,
                    at_most(inset + 2),
                );
                &&& after.items.skip(n + 2) == inner.items.skip(n + 1)
                &&& after.y == inner.y
            })
            &&& plain.items.len() >= n + 1
            &&& plain.items[n] matches ItemDrawn::Bar { inset: at, y, h, fill } && at == inset && y == c.y
                && fill == s.theme.quote_bar
            &&& plain.items.skip(n + 1) == c.blocks(s, blocks, at_most(inset + 2)).items.skip(n)
            &&& plain.y == c.blocks(s, blocks, at_most(inset + 2)).y
        }),
{
    let n = c.items.len() as int;
    let d = c.label(s, Some(kind), inset);
    let inner = d.blocks(s, blocks, at_most(inset + 2));
    let bare = c.blocks(s, blocks, at_most(inset + 2));
    lemma_blocks_grow(d, s, blocks, at_most(inset + 2));
    lemma_blocks_grow(c, s, blocks, at_most(inset + 2));
    assert(inner.items[n] == d.items[n]) by {
        assert(d.items[n] == inner.items.take(n + 1)[n]);
    }
    let after = c.block(s, BlockModel::Quote { callout: Some(kind), blocks }, inset);
    let plain = c.block(s, BlockModel::Quote { callout: None, blocks }, inset);
    assert(after.items.skip(n + 2) =~= inner.items.skip(n + 1));
    assert(plain.items.skip(n + 1) =~= bare.items.skip(n));
    assert(after.items[n + 1] == d.items[n]);
    assert(c.items.push(after.items[n + 1]) =~= d.items);
}

/// A rule is a line across the content, in a row of its own; two blocks stand a row apart, and each
/// begins where the last one ended.
pub proof fn law_blocks_stand_a_row_apart(
    c: Canvas,
    s: Setting,
    blocks: Seq<BlockModel>,
    b: BlockModel,
    inset: usize,
)
    requires
        c.blocks(s, blocks, inset).y < usize::MAX,
        c.y < usize::MAX,
    ensures
        ({
            let before = c.blocks(s, blocks, inset);
            let after = c.blocks(s, blocks.push(b), inset);
            &&& blocks.len() == 0 ==> before == c && after == c.block(s, b, inset)
            &&& blocks.len() > 0 ==> after == Canvas { y: (before.y + 1) as usize, ..before }.block(
                s,
                b,
                inset,
            )
            &&& c.block(s, BlockModel::Rule, inset) == (Canvas {
                y: (c.y + 1) as usize,
                items: c.items.push(
                    ItemDrawn::Rule { inset, y: c.y, span: None, fill: s.theme.rule },
                ),
                outline: c.outline,
            })
        }),
{
    assert(blocks.push(b).drop_last() =~= blocks);
}

/// A page begins at its margin, at the left edge of its content, with nothing drawn.
pub proof fn law_a_page_begins_at_its_margin(s: Setting, blocks: Seq<BlockModel>)
    ensures
        drawn(s, blocks) == (Canvas { y: s.frame.margin, items: seq![], outline: seq![] }).blocks(
            s,
            blocks,
            0,
        ),
{
}

/// As many columns of type are written in as fit between where they begin and the right edge of the
/// content, and no fewer, but one at least.
pub proof fn law_columns_fill_the_room(f: Frame, inset: usize, scale: usize)
    requires
        scale > 0,
    ensures
        ({
            let n = cols_at(f, inset, scale);
            &&& n >= 1
            &&& n > 1 ==> 100 * inset + n * scale <= f.width
            &&& f.width < 100 * inset + (n + 1) * scale
        }),
{
    let room = f.width - 100 * inset;
    let n = cols_at(f, inset, scale);
    if room >= 0 {
        let q = room / scale as int;
        assert(q * scale <= room < (q + 1) * scale) by (nonlinear_arith)
            requires
                q == room / scale as int,
                0 < scale,
                0 <= room,
        ;
        if q < 1 {
            assert(q == 0) by (nonlinear_arith)
                requires
                    q < 1,
                    room >= 0,
                    room < (q + 1) * scale,
                    scale > 0,
            ;
            assert((q + 1) * scale <= (n + 1) * scale) by (nonlinear_arith)
                requires
                    q + 1 <= n + 1,
                    scale > 0,
            ;
        }
    } else {
        assert((n + 1) * scale > 0) by (nonlinear_arith)
            requires
                n >= 1,
                scale > 0,
        ;
    }
}

/// What spans say in which colour.
pub open spec fn spans_coloured(spans: Seq<SpanModel>) -> Seq<(char, Rgb)>
    decreases spans.len(),
{
    if spans.len() == 0 {
        seq![]
    } else {
        spans_coloured(spans.drop_last()) + coloured(spans.last().text, spans.last().fill)
    }
}

/// Characters in a colour.
pub open spec fn coloured(s: Seq<char>, fill: Rgb) -> Seq<(char, Rgb)> {
    s.map_values(|c: char| (c, fill))
}

/// What a display line of code says in which colour.
pub open spec fn display_coloured(line: Seq<(usize, SpanModel)>) -> Seq<(char, Rgb)>
    decreases line.len(),
{
    if line.len() == 0 {
        seq![]
    } else {
        display_coloured(line.drop_last()) + coloured(line.last().1.text, line.last().1.fill)
    }
}

/// What display lines of code say in which colour.
pub open spec fn displays_coloured(lines: Seq<Seq<(usize, SpanModel)>>) -> Seq<(char, Rgb)>
    decreases lines.len(),
{
    if lines.len() == 0 {
        seq![]
    } else {
        displays_coloured(lines.drop_last()) + display_coloured(lines.last())
    }
}

spec fn folding_coloured(f: Folding) -> Seq<(char, Rgb)> {
    displays_coloured(f.out) + display_coloured(f.line)
}

proof fn lemma_fold_chunk(f: Folding, t: Seq<char>, fill: Rgb, cols: nat)
    ensures
        folding_coloured(f.with_chunk(t, fill, cols)) == folding_coloured(f) + coloured(t, fill),
{
    let w = columns::columns(t);
    let span = SpanModel { text: t, fill };
    let g = f.with_chunk(t, fill, cols);
    if f.col > 0 && f.col + w > cols {
        assert(g.out.drop_last() =~= f.out);
        assert(g.line.drop_last() =~= seq![]);
        assert(display_coloured(g.line.drop_last()) =~= seq![]);
        assert(folding_coloured(g) =~= folding_coloured(f) + coloured(t, fill));
    } else {
        assert(g.line.drop_last() =~= f.line);
        assert(folding_coloured(g) =~= folding_coloured(f) + coloured(t, fill));
    }
}

proof fn lemma_fold_chunks(f: Folding, chunks: Seq<Seq<char>>, fill: Rgb, cols: nat, n: nat)
    requires
        n <= chunks.len(),
    ensures
        folding_coloured(f.with_chunks(chunks, fill, cols, n)) == folding_coloured(f) + coloured(
            wrap::joined(chunks.take(n as int)),
            fill,
        ),
    decreases n,
{
    if n == 0 {
        assert(chunks.take(0) =~= seq![]);
        assert(folding_coloured(f) + coloured(wrap::joined(chunks.take(0)), fill)
            =~= folding_coloured(f));
    } else {
        let m = (n - 1) as nat;
        lemma_fold_chunks(f, chunks, fill, cols, m);
        let b = f.with_chunks(chunks, fill, cols, m);
        lemma_fold_chunk(b, chunks[m as int], fill, cols);
        assert(chunks.take(n as int).drop_last() =~= chunks.take(m as int));
        assert(folding_coloured(f.with_chunks(chunks, fill, cols, n)) =~= folding_coloured(f)
            + coloured(wrap::joined(chunks.take(n as int)), fill));
    }
}

proof fn lemma_fold_spans(f: Folding, spans: Seq<SpanModel>, cols: nat)
    ensures
        folding_coloured(f.with_spans(spans, cols)) == folding_coloured(f) + spans_coloured(spans),
    decreases spans.len(),
{
    if spans.len() == 0 {
        assert(folding_coloured(f) + spans_coloured(spans) =~= folding_coloured(f));
    } else {
        lemma_fold_spans(f, spans.drop_last(), cols);
        let b = f.with_spans(spans.drop_last(), cols);
        let chunks = wrap::chunks_of(spans.last().text, cols);
        lemma_fold_chunks(b, chunks, spans.last().fill, cols, chunks.len());
        assert(chunks.take(chunks.len() as int) =~= chunks);
        wrap::law_split_keeps_text(spans.last().text, cols);
        assert(folding_coloured(f.with_spans(spans, cols)) =~= folding_coloured(f)
            + spans_coloured(spans));
    }
}

/// A line of code that is folded says what it said, character for character and in the same colours.
pub proof fn law_folded_code_says_what_it_said(spans: Seq<SpanModel>, cols: nat)
    ensures
        displays_coloured(folded(spans, cols)) == spans_coloured(spans),
        folded(spans, cols).len() >= 1,
{
    let start = Folding { out: seq![], line: seq![], col: 0 };
    lemma_fold_spans(start, spans, cols);
    let f = start.with_spans(spans, cols);
    assert(folded(spans, cols).drop_last() =~= f.out);
    assert(folding_coloured(start) + spans_coloured(spans) =~= spans_coloured(spans));
}

/// A piece of code stands behind the one before it, where there is room for it, and begins a line of
/// its own where there is not.
pub proof fn law_code_is_placed_end_to_end(f: Folding, t: Seq<char>, fill: Rgb, cols: nat)
    requires
        f.col + columns::columns(t) <= usize::MAX,
    ensures
        ({
            let g = f.with_chunk(t, fill, cols);
            let w = columns::columns(t);
            &&& g.line.len() > 0
            &&& g.line.last().1 == (SpanModel { text: t, fill })
            &&& g.col == g.line.last().0 + w
            &&& f.col == 0 || f.col + w <= cols ==> g.line.last().0 == f.col && g.out == f.out
                && g.line.drop_last() == f.line
            &&& f.col > 0 && f.col + w > cols ==> g.line.last().0 == 0 && g.line.len() == 1 && g.out
                == f.out.push(f.line)
        }),
{
    let g = f.with_chunk(t, fill, cols);
    if f.col == 0 || f.col + columns::columns(t) <= cols {
        assert(g.line.drop_last() =~= f.line);
    }
}

/// Whether `i` is a piece of code as it is to be drawn: so many columns right of the second column of
/// its block, in the body's size, upright and in its own colour.
pub open spec fn draws_code(
    i: ItemDrawn,
    s: Setting,
    col: usize,
    span: SpanModel,
    inset: usize,
    top: usize,
) -> bool {
    i matches ItemDrawn::Run { x, top: at, scale, text, bold, italic, strike, fill } && {
        &&& 100 * (s.frame.left + inset + 2 + col) <= usize::MAX ==> x == 100 * (s.frame.left + inset
            + 2 + col)
        &&& at == top
        &&& scale == 100
        &&& text == span.text
        &&& !bold && !italic && !strike
        &&& fill == span.fill
    }
}

/// How many pieces of a display line say anything.
pub open spec fn said_in(line: Seq<(usize, SpanModel)>) -> nat
    decreases line.len(),
{
    if line.len() == 0 {
        0
    } else {
        said_in(line.drop_last()) + if line.last().1.text.len() > 0 {
            1nat
        } else {
            0nat
        }
    }
}

proof fn lemma_code_runs(
    c: Canvas,
    s: Setting,
    line: Seq<(usize, SpanModel)>,
    inset: usize,
    top: usize,
    k: int,
)
    ensures
        ({
            let after = c.code_runs(s, line, inset, top);
            &&& after.items.len() == c.items.len() + said_in(line)
            &&& c.items == after.items.take(c.items.len() as int)
            &&& after.y == c.y
            &&& 0 <= k < line.len() && line[k].1.text.len() > 0 ==> {
                let at = c.items.len() + said_in(line.take(k));
                &&& at < after.items.len()
                &&& draws_code(after.items[at as int], s, line[k].0, line[k].1, inset, top)
            }
        }),
    decreases line.len(),
{
    if line.len() == 0 {
        assert(c.items =~= c.items.take(c.items.len() as int));
    } else {
        lemma_code_runs(c, s, line.drop_last(), inset, top, k);
        let b = c.code_runs(s, line.drop_last(), inset, top);
        let after = c.code_runs(s, line, inset, top);
        assert(c.items =~= after.items.take(c.items.len() as int)) by {
            assert forall|i: int| 0 <= i < c.items.len() implies c.items[i] == after.items[i] by {
                assert(c.items[i] == b.items.take(c.items.len() as int)[i]);
            }
        }
        if 0 <= k < line.len() - 1 {
            assert(line.drop_last()[k] == line[k]);
            assert(line.drop_last().take(k) =~= line.take(k));
        } else if k == line.len() - 1 {
            assert(line.take(k) =~= line.drop_last());
        }
    }
}

/// A block of code is drawn on a background of its own, a row taller above and below than its lines,
/// and every piece of it that says anything in the row of its line. Nothing else is drawn.
pub proof fn law_a_block_of_code_is_its_lines(
    c: Canvas,
    s: Setting,
    lang: Option<Seq<char>>,
    lines: Seq<Seq<char>>,
    inset: usize,
    j: int,
    k: int,
)
    requires
        ({
            let shown = folded_lines(
                highlight::code_spans(lang, untabbed(lines), s.theme.code_fg),
                cols_at(s.frame, at_most(inset + 4), 100),
            );
            &&& c.y + shown.len() + 2 <= usize::MAX
            &&& 0 <= j < shown.len()
            &&& 0 <= k < shown[j].len()
            &&& shown[j][k].1.text.len() > 0
        }),
    ensures
        ({
            let shown = folded_lines(
                highlight::code_spans(lang, untabbed(lines), s.theme.code_fg),
                cols_at(s.frame, at_most(inset + 4), 100),
            );
            let after = c.block(s, BlockModel::Code { lang, lines }, inset);
            let n = c.items.len() as int;
            &&& after.y == c.y + shown.len() + 2
            &&& after.items.len() > n
            &&& after.items[n] == (ItemDrawn::Fill {
                inset,
                y: c.y,
                h: (shown.len() + 2) as usize,
                fill: s.theme.code_bg,
            })
            &&& exists|at: int|
                n < at < after.items.len() && #[trigger] draws_code(
                    after.items[at],
                    s,
                    shown[j][k].0,
                    shown[j][k].1,
                    inset,
                    (c.y + 1 + j) as usize,
                )
        }),
{
    let shown = folded_lines(
        highlight::code_spans(lang, untabbed(lines), s.theme.code_fg),
        cols_at(s.frame, at_most(inset + 4), 100),
    );
    let n = c.items.len() as int;
    let filled = Canvas {
        items: c.items.push(
            ItemDrawn::Fill {
                inset,
                y: c.y,
                h: at_most(shown.len() as int + 2),
                fill: s.theme.code_bg,
            },
        ),
        ..c
    };
    let top = (c.y + 1) as usize;
    let all = filled.code_lines(s, shown, inset, top);
    lemma_code_lines_prefix(filled, s, shown, inset, top, j);
    lemma_code_lines_prefix(filled, s, shown, inset, top, j + 1);
    let before = filled.code_lines(s, shown.take(j), inset, top);
    let now = filled.code_lines(s, shown.take(j + 1), inset, top);
    assert(shown.take(j + 1).drop_last() =~= shown.take(j));
    assert(shown.take(j + 1).last() == shown[j]);
    lemma_code_runs(before, s, shown[j], inset, (top + j) as usize, k);
    let at = before.items.len() + said_in(shown[j].take(k));
    assert(now.items[at as int] == all.items.take(now.items.len() as int)[at as int]);
    lemma_code_lines_prefix(filled, s, shown, inset, top, 0);
    assert(shown.take(0) =~= seq![]);
    assert(filled.items[n] == all.items.take(n + 1)[n]);
    let after = c.block(s, BlockModel::Code { lang, lines }, inset);
    assert(after.items == all.items);
    assert(before.items.len() >= filled.items.len()) by {
        lemma_code_lines_prefix(filled, s, shown.take(j), inset, top, 0);
        assert(shown.take(j).take(0) =~= seq![]);
    }
    assert(draws_code(
        after.items[at as int],
        s,
        shown[j][k].0,
        shown[j][k].1,
        inset,
        (c.y + 1 + j) as usize,
    ));
}

proof fn lemma_code_lines_prefix(
    c: Canvas,
    s: Setting,
    lines: Seq<Seq<(usize, SpanModel)>>,
    inset: usize,
    top: usize,
    j: int,
)
    requires
        0 <= j <= lines.len(),
    ensures
        ({
            let before = c.code_lines(s, lines.take(j), inset, top);
            let after = c.code_lines(s, lines, inset, top);
            &&& before.items.len() <= after.items.len()
            &&& before.items == after.items.take(before.items.len() as int)
            &&& after.y == c.y
        }),
    decreases lines.len(),
{
    let before = c.code_lines(s, lines.take(j), inset, top);
    let after = c.code_lines(s, lines, inset, top);
    if j == lines.len() {
        assert(lines.take(j) =~= lines);
        assert(before.items =~= after.items.take(before.items.len() as int));
        if lines.len() > 0 {
            lemma_code_lines_prefix(c, s, lines.drop_last(), inset, top, 0);
            let d = c.code_lines(s, lines.drop_last(), inset, top);
            lemma_code_runs(d, s, lines.last(), inset, at_most(top + lines.len() - 1), 0);
        }
    } else {
        lemma_code_lines_prefix(c, s, lines.drop_last(), inset, top, j);
        assert(lines.drop_last().take(j) =~= lines.take(j));
        let d = c.code_lines(s, lines.drop_last(), inset, top);
        lemma_code_runs(d, s, lines.last(), inset, at_most(top + lines.len() - 1), 0);
        assert(before.items =~= after.items.take(before.items.len() as int)) by {
            assert forall|i: int| 0 <= i < before.items.len() implies before.items[i] == after.items[i] by {
                assert(before.items[i] == d.items.take(before.items.len() as int)[i]);
                assert(d.items[i] == after.items.take(d.items.len() as int)[i]);
            }
        }
    }
}

/// A column of a table begins two columns behind the end of the one before it, and the first at the
/// table's edge.
pub proof fn law_table_columns_stand_apart(widths: Seq<nat>, k: int)
    requires
        0 < k <= widths.len(),
        start_of(widths, k - 1) + widths[k - 1] + 2 <= usize::MAX,
    ensures
        start_of(widths, 0) == 0,
        start_of(widths, k) == start_of(widths, k - 1) + widths[k - 1] + 2,
{
}

/// A line stands where its column aligns it: at the left edge, at the right edge, or with as much room
/// on its left as on its right, but for one column on the right where it cannot be shared.
pub proof fn law_a_cell_stands_where_it_is_aligned(
    width: nat,
    used: nat,
    align: Seq<Align>,
    i: int,
)
    requires
        0 <= i,
    ensures
        i < align.len() ==> align_at(align, i) == align[i],
        i >= align.len() ==> align_at(align, i) == Align::Left,
        padding(Align::Left, width, used) == 0,
        used <= width ==> padding(Align::Right, width, used) + used == width,
        used <= width ==> ({
            let left = padding(Align::Center, width, used);
            let right = width - used - left;
            left == right || left + 1 == right
        }),
        used > width ==> padding(Align::Right, width, used) == 0 && padding(Align::Center, width, used)
            == 0,
{
}

/// Each cell of a row stands in its own column, aligned as the column is, and each line of it in its
/// own row of the page, the first where the row begins. A row takes as many rows as its deepest cell.
pub proof fn law_a_row_is_drawn_cell_by_cell(
    c: Canvas,
    s: Setting,
    cells: Seq<Seq<InlineModel>>,
    widths: Seq<nat>,
    align: Seq<Align>,
    inset: usize,
    base: Style,
    i: int,
    j: int,
    k: int,
)
    requires
        0 <= i < cells.len(),
        cells.len() <= widths.len(),
        ({
            let lines = wrap::wrapped(cells[i], widths[i], base);
            &&& 0 <= j < lines.len()
            &&& 0 <= k < lines[j].len()
        }),
        c.y + row_height(row_lines(cells, widths, base)) <= usize::MAX,
    ensures
        ({
            let lines = wrap::wrapped(cells[i], widths[i], base);
            let line = lines[j];
            let used = line.last().col + columns::columns(line.last().text) as nat;
            let after = c.row(s, cells, widths, align, inset, base);
            let left = inset + start_of(widths, i) + padding(align_at(align, i), widths[i], used);
            &&& after.y == c.y + row_height(row_lines(cells, widths, base))
            &&& lines.len() <= row_height(row_lines(cells, widths, base))
            &&& exists|at: int|
                c.items.len() <= at < after.items.len() && #[trigger] draws_piece(
                    after.items[at],
                    s,
                    line[k],
                    left,
                    (c.y + j) as usize,
                    100,
                )
        }),
{
    let all = row_lines(cells, widths, base);
    let n = row_height(all);
    let lines = all[i];
    lemma_row_deepest(all, i);
    lemma_row_rows(c, s, all, widths, align, inset, n);
    lemma_row_rows(c, s, all, widths, align, inset, j as nat);
    lemma_row_lines_prefix(c, s, all, widths, align, inset, n, (j + 1) as nat);
    lemma_row_lines_grow(c, s, all, widths, align, inset, j as nat);
    let before = c.row_lines(s, all, widths, align, inset, j as nat);
    let now = c.row_lines(s, all, widths, align, inset, (j + 1) as nat);
    let after = c.row_lines(s, all, widths, align, inset, n);
    lemma_row_line_cell(before, s, all, widths, align, inset, j, cells.len(), i, k);
    let line = lines[j];
    let pad = padding(align_at(align, i), widths[i], used_cols(line));
    let left = inset + start_of(widths, i) + pad;
    let at = choose|at: int|
        before.items.len() <= at < now.items.len() && #[trigger] draws_piece(
            now.items[at],
            s,
            line[k],
            left,
            before.y,
            100,
        );
    assert(now.items[at] == after.items.take(now.items.len() as int)[at]);
    let used = line.last().col + columns::columns(line.last().text) as nat;
    assert(used_cols(line) == used);
    assert(left == inset + start_of(widths, i) + padding(align_at(align, i), widths[i], used));
    assert(lines == wrap::wrapped(cells[i], widths[i], base));
    assert(after == c.row(s, cells, widths, align, inset, base));
    assert(draws_piece(after.items[at], s, line[k], left, (c.y + j) as usize, 100));
}

proof fn lemma_row_deepest(cells: Seq<Seq<Seq<PieceModel>>>, i: int)
    requires
        0 <= i < cells.len(),
    ensures
        cells[i].len() <= row_height(cells),
    decreases cells.len(),
{
    if i < cells.len() - 1 {
        lemma_row_deepest(cells.drop_last(), i);
        assert(cells.drop_last()[i] == cells[i]);
    }
}

proof fn lemma_row_rows(
    c: Canvas,
    s: Setting,
    cells: Seq<Seq<Seq<PieceModel>>>,
    widths: Seq<nat>,
    align: Seq<Align>,
    inset: usize,
    n: nat,
)
    requires
        c.y + n <= usize::MAX,
    ensures
        c.row_lines(s, cells, widths, align, inset, n).y == c.y + n,
        c.row_lines(s, cells, widths, align, inset, n).outline == c.outline,
    decreases n,
{
    if n > 0 {
        lemma_row_rows(c, s, cells, widths, align, inset, (n - 1) as nat);
        let b = c.row_lines(s, cells, widths, align, inset, (n - 1) as nat);
        lemma_row_line_stays(b, s, cells, widths, align, inset, n - 1, cells.len());
    }
}

proof fn lemma_row_line_stays(
    c: Canvas,
    s: Setting,
    cells: Seq<Seq<Seq<PieceModel>>>,
    widths: Seq<nat>,
    align: Seq<Align>,
    inset: usize,
    j: int,
    n: nat,
)
    ensures
        c.row_line(s, cells, widths, align, inset, j, n).y == c.y,
        c.row_line(s, cells, widths, align, inset, j, n).outline == c.outline,
    decreases n,
{
    if n > 0 && n <= cells.len() {
        lemma_row_line_stays(c, s, cells, widths, align, inset, j, (n - 1) as nat);
    }
}

proof fn lemma_row_lines_prefix(
    c: Canvas,
    s: Setting,
    cells: Seq<Seq<Seq<PieceModel>>>,
    widths: Seq<nat>,
    align: Seq<Align>,
    inset: usize,
    n: nat,
    m: nat,
)
    requires
        m <= n,
    ensures
        grown(
            c.row_lines(s, cells, widths, align, inset, m),
            c.row_lines(s, cells, widths, align, inset, n),
        ),
    decreases n,
{
    let before = c.row_lines(s, cells, widths, align, inset, m);
    if m == n {
        assert(before.items =~= before.items.take(before.items.len() as int));
        assert(before.outline =~= before.outline.take(before.outline.len() as int));
    } else {
        lemma_row_lines_prefix(c, s, cells, widths, align, inset, (n - 1) as nat, m);
        let d = c.row_lines(s, cells, widths, align, inset, (n - 1) as nat);
        let e = d.row_line(s, cells, widths, align, inset, n - 1, cells.len());
        lemma_row_line_grow(d, s, cells, widths, align, inset, n - 1, cells.len());
        let after = e.down(1);
        assert(e.items =~= after.items.take(e.items.len() as int));
        assert(e.outline =~= after.outline.take(e.outline.len() as int));
        lemma_grown(d, e, after);
        lemma_grown(before, d, after);
    }
}

proof fn lemma_row_line_cell(
    c: Canvas,
    s: Setting,
    cells: Seq<Seq<Seq<PieceModel>>>,
    widths: Seq<nat>,
    align: Seq<Align>,
    inset: usize,
    j: int,
    n: nat,
    i: int,
    k: int,
)
    requires
        n <= cells.len(),
        0 <= i < n,
        0 <= j < cells[i].len(),
        0 <= k < cells[i][j].len(),
    ensures
        ({
            let line = cells[i][j];
            let pad = padding(align_at(align, i), widths[i], used_cols(line));
            let after = c.row_line(s, cells, widths, align, inset, j, n);
            exists|at: int|
                c.items.len() <= at < after.items.len() && #[trigger] draws_piece(
                    after.items[at],
                    s,
                    line[k],
                    inset + start_of(widths, i) + pad,
                    c.y,
                    100,
                )
        }),
    decreases n,
{
    let line = cells[i][j];
    let pad = padding(align_at(align, i), widths[i], used_cols(line));
    let left = inset + start_of(widths, i) + pad;
    let b = c.row_line(s, cells, widths, align, inset, j, (n - 1) as nat);
    let after = c.row_line(s, cells, widths, align, inset, j, n);
    lemma_row_line_grow(c, s, cells, widths, align, inset, j, (n - 1) as nat);
    lemma_row_line_stays(c, s, cells, widths, align, inset, j, (n - 1) as nat);
    if i == n - 1 {
        let at = b.items.len() + k;
        assert(after.items[at] == s.run(line[k], left, c.y, 100));
        lemma_run_draws(s, line[k], left, c.y, 100);
        assert(draws_piece(after.items[at], s, line[k], left, c.y, 100));
    } else {
        lemma_row_line_cell(c, s, cells, widths, align, inset, j, (n - 1) as nat, i, k);
        let at = choose|at: int|
            c.items.len() <= at < b.items.len() && #[trigger] draws_piece(
                b.items[at],
                s,
                line[k],
                left,
                c.y,
                100,
            );
        assert(after.items[at] == b.items[at]);
        assert(draws_piece(after.items[at], s, line[k], left, c.y, 100));
    }
}

/// A table is its head in bold with a rule below it as wide as the table, and then its rows in the
/// order they were read, each below the one before and none in bold of its own accord.
pub proof fn law_a_table_is_drawn_row_by_row(c: Canvas, s: Setting, t: TableModel, inset: usize)
    requires
        t.head.len() > 0,
        ({
            let n = table_cols(measure::all_rows(t));
            let widths = measure::table_widths(t, n, cols_at(s.frame, inset, 100));
            let bold = Style { bold: true, italic: false, code: false, strike: false, link: false };
            &&& start_of(widths, n as int) >= 2
            &&& c.row(s, t.head, widths, t.align, inset, bold).y < usize::MAX
        }),
    ensures
        ({
            let bold = Style { bold: true, italic: false, code: false, strike: false, link: false };
            let plain = Style { bold: false, italic: false, code: false, strike: false, link: false };
            let n = table_cols(measure::all_rows(t));
            let widths = measure::table_widths(t, n, cols_at(s.frame, inset, 100));
            let head = c.row(s, t.head, widths, t.align, inset, bold);
            let ruled = Canvas {
                y: (head.y + 1) as usize,
                items: head.items.push(
                    ItemDrawn::Rule {
                        inset,
                        y: head.y,
                        span: Some((start_of(widths, n as int) - 2) as usize),
                        fill: s.theme.rule,
                    },
                ),
                outline: head.outline,
            };
            let after = c.block(s, BlockModel::Table(t), inset);
            &&& t.rows.len() == 0 ==> after == ruled
            &&& t.rows.len() > 0 ==> ({
                let fewer = TableModel { rows: t.rows.drop_last(), ..t };
                after == ruled.rows(
                    s,
                    t.rows.drop_last(),
                    widths,
                    t.align,
                    inset,
                    (t.rows.len() - 1) as nat,
                ).row(s, t.rows.last(), widths, t.align, inset, plain)
            })
        }),
{
    let n = table_cols(measure::all_rows(t));
    lemma_table_cols(measure::all_rows(t));
    assert(measure::all_rows(t)[0] == t.head || measure::all_rows(t).len() > 0);
    let widths = measure::table_widths(t, n, cols_at(s.frame, inset, 100));
    let bold = Style { bold: true, italic: false, code: false, strike: false, link: false };
    let head = c.row(s, t.head, widths, t.align, inset, bold);
    let ruled = Canvas {
        y: (head.y + 1) as usize,
        items: head.items.push(
            ItemDrawn::Rule {
                inset,
                y: head.y,
                span: Some((start_of(widths, n as int) - 2) as usize),
                fill: s.theme.rule,
            },
        ),
        outline: head.outline,
    };
    assert(n > 0) by {
        if n == 0 {
            assert(start_of(widths, 0) == 0);
        }
    }
    if t.rows.len() > 0 {
        lemma_rows_shorter(
            ruled,
            s,
            t.rows,
            widths,
            t.align,
            inset,
            (t.rows.len() - 1) as nat,
        );
    }
}

proof fn lemma_rows_shorter(
    c: Canvas,
    s: Setting,
    rows: Seq<Seq<Seq<InlineModel>>>,
    widths: Seq<nat>,
    align: Seq<Align>,
    inset: usize,
    n: nat,
)
    requires
        n < rows.len(),
    ensures
        c.rows(s, rows, widths, align, inset, n) == c.rows(
            s,
            rows.drop_last(),
            widths,
            align,
            inset,
            n,
        ),
    decreases n,
{
    if n > 0 {
        lemma_rows_shorter(c, s, rows, widths, align, inset, (n - 1) as nat);
        assert(rows.drop_last()[n - 1] == rows[n - 1]);
    }
}

/// Whether an item is drawn no further left than column `inset` of the content.
pub open spec fn right_of(i: ItemDrawn, s: Setting, inset: int) -> bool {
    match i {
        ItemDrawn::Fill { inset: at, .. } => at >= inset,
        ItemDrawn::Rule { inset: at, .. } => at >= inset,
        ItemDrawn::Bar { inset: at, .. } => at >= inset,
        ItemDrawn::Run { x, .. } => x >= at_most(100 * (s.frame.left + inset)),
    }
}

/// Whether everything drawn behind the first `n` items is.
pub open spec fn all_right_of(c: Canvas, s: Setting, n: int, inset: int) -> bool {
    forall|i: int| 0 <= i && n <= i < c.items.len() ==> right_of(#[trigger] c.items[i], s, inset)
}

proof fn lemma_run_right(s: Setting, p: PieceModel, inset: int, top: usize, scale: usize, least: int)
    requires
        0 <= least <= inset,
    ensures
        right_of(s.run(p, inset, top, scale), s, least),
{
    assert(0 <= p.col * scale) by (nonlinear_arith)
        requires
            0 <= p.col,
            0 <= scale,
    ;
}

proof fn lemma_lines_right(
    c: Canvas,
    s: Setting,
    lines: Seq<Seq<PieceModel>>,
    inset: usize,
    scale: usize,
    n: int,
)
    requires
        all_right_of(c, s, n, inset as int),
    ensures
        all_right_of(c.lines(s, lines, inset, scale), s, n, inset as int),
    decreases lines.len(),
{
    if lines.len() > 0 {
        lemma_lines_right(c, s, lines.drop_last(), inset, scale, n);
        let d = c.lines(s, lines.drop_last(), inset, scale);
        let after = c.lines(s, lines, inset, scale);
        assert forall|i: int| 0 <= i && n <= i < after.items.len() implies right_of(
            #[trigger] after.items[i],
            s,
            inset as int,
        ) by {
            if i < d.items.len() {
                assert(after.items[i] == d.items[i]);
            } else {
                let p = lines.last()[i - d.items.len()];
                assert(after.items[i] == s.run(p, inset as int, d.y, scale));
                lemma_run_right(s, p, inset as int, d.y, scale, inset as int);
            }
        }
    }
}

proof fn lemma_code_right(
    c: Canvas,
    s: Setting,
    lines: Seq<Seq<(usize, SpanModel)>>,
    inset: usize,
    top: usize,
    n: int,
)
    requires
        all_right_of(c, s, n, inset as int),
    ensures
        all_right_of(c.code_lines(s, lines, inset, top), s, n, inset as int),
    decreases lines.len(),
{
    if lines.len() > 0 {
        lemma_code_right(c, s, lines.drop_last(), inset, top, n);
        let d = c.code_lines(s, lines.drop_last(), inset, top);
        lemma_code_runs_right(d, s, lines.last(), inset, at_most(top + lines.len() - 1), n);
    }
}

proof fn lemma_code_runs_right(
    c: Canvas,
    s: Setting,
    line: Seq<(usize, SpanModel)>,
    inset: usize,
    top: usize,
    n: int,
)
    requires
        all_right_of(c, s, n, inset as int),
    ensures
        all_right_of(c.code_runs(s, line, inset, top), s, n, inset as int),
    decreases line.len(),
{
    if line.len() > 0 {
        lemma_code_runs_right(c, s, line.drop_last(), inset, top, n);
        let d = c.code_runs(s, line.drop_last(), inset, top);
        let after = c.code_runs(s, line, inset, top);
        assert forall|i: int| 0 <= i && n <= i < after.items.len() implies right_of(
            #[trigger] after.items[i],
            s,
            inset as int,
        ) by {
            if i < d.items.len() {
                assert(after.items[i] == d.items[i]);
            }
        }
    }
}

proof fn lemma_row_line_right(
    c: Canvas,
    s: Setting,
    cells: Seq<Seq<Seq<PieceModel>>>,
    widths: Seq<nat>,
    align: Seq<Align>,
    inset: usize,
    j: int,
    m: nat,
    n: int,
)
    requires
        all_right_of(c, s, n, inset as int),
    ensures
        all_right_of(c.row_line(s, cells, widths, align, inset, j, m), s, n, inset as int),
    decreases m,
{
    if m > 0 && m <= cells.len() {
        lemma_row_line_right(c, s, cells, widths, align, inset, j, (m - 1) as nat, n);
        let d = c.row_line(s, cells, widths, align, inset, j, (m - 1) as nat);
        let after = c.row_line(s, cells, widths, align, inset, j, m);
        let i0 = m - 1;
        if j < cells[i0].len() {
            let line = cells[i0][j];
            let pad = padding(align_at(align, i0), widths[i0], used_cols(line));
            assert forall|i: int| 0 <= i && n <= i < after.items.len() implies right_of(
                #[trigger] after.items[i],
                s,
                inset as int,
            ) by {
                if i < d.items.len() {
                    assert(after.items[i] == d.items[i]);
                } else {
                    let p = line[i - d.items.len()];
                    let left = inset + start_of(widths, i0) + pad;
                    assert(after.items[i] == s.run(p, left, d.y, 100));
                    lemma_run_right(s, p, left, d.y, 100, inset as int);
                }
            }
        }
    }
}

proof fn lemma_row_right(
    c: Canvas,
    s: Setting,
    cells: Seq<Seq<Seq<PieceModel>>>,
    widths: Seq<nat>,
    align: Seq<Align>,
    inset: usize,
    m: nat,
    n: int,
)
    requires
        all_right_of(c, s, n, inset as int),
    ensures
        all_right_of(c.row_lines(s, cells, widths, align, inset, m), s, n, inset as int),
    decreases m,
{
    if m > 0 {
        lemma_row_right(c, s, cells, widths, align, inset, (m - 1) as nat, n);
        let d = c.row_lines(s, cells, widths, align, inset, (m - 1) as nat);
        lemma_row_line_right(d, s, cells, widths, align, inset, m - 1, cells.len(), n);
    }
}

proof fn lemma_rows_right(
    c: Canvas,
    s: Setting,
    rows: Seq<Seq<Seq<InlineModel>>>,
    widths: Seq<nat>,
    align: Seq<Align>,
    inset: usize,
    m: nat,
    n: int,
)
    requires
        all_right_of(c, s, n, inset as int),
    ensures
        all_right_of(c.rows(s, rows, widths, align, inset, m), s, n, inset as int),
    decreases m,
{
    if m > 0 && m <= rows.len() {
        lemma_rows_right(c, s, rows, widths, align, inset, (m - 1) as nat, n);
        let d = c.rows(s, rows, widths, align, inset, (m - 1) as nat);
        let lines = row_lines(rows[m - 1], widths, measure::plain_style());
        lemma_row_right(d, s, lines, widths, align, inset, row_height(lines), n);
    }
}

proof fn lemma_pushed_right(c: Canvas, s: Setting, i: ItemDrawn, n: int, inset: int)
    requires
        all_right_of(c, s, n, inset),
        right_of(i, s, inset),
    ensures
        all_right_of(Canvas { items: c.items.push(i), ..c }, s, n, inset),
{
    let after = Canvas { items: c.items.push(i), ..c };
    assert forall|k: int| 0 <= k && n <= k < after.items.len() implies right_of(#[trigger] after.items[k], s, inset) by {
        if k < c.items.len() {
            assert(after.items[k] == c.items[k]);
        }
    }
}

proof fn lemma_table_right(c: Canvas, s: Setting, t: TableModel, inset: usize, n: int)
    requires
        all_right_of(c, s, n, inset as int),
    ensures
        all_right_of(c.table(s, t, inset), s, n, inset as int),
{
    let m = table_cols(measure::all_rows(t));
    if m > 0 {
        let widths = measure::table_widths(t, m, cols_at(s.frame, inset, 100));
        let span = at_most(start_of(widths, m as int) - TABLE_GAP);
        if t.head.len() > 0 {
            let lines = row_lines(t.head, widths, bold_style());
            lemma_row_right(c, s, lines, widths, t.align, inset, row_height(lines), n);
            let d = c.row(s, t.head, widths, t.align, inset, bold_style());
            let i = ItemDrawn::Rule { inset, y: d.y, span: Some(span), fill: s.theme.rule };
            lemma_pushed_right(d, s, i, n, inset as int);
            let e = Canvas { items: d.items.push(i), ..d }.down(1);
            lemma_rows_right(e, s, t.rows, widths, t.align, inset, t.rows.len(), n);
        } else {
            lemma_rows_right(c, s, t.rows, widths, t.align, inset, t.rows.len(), n);
        }
    }
}

proof fn lemma_further_right(c: Canvas, s: Setting, n: int, a: int, b: int)
    requires
        all_right_of(c, s, n, b),
        0 <= a <= b,
    ensures
        all_right_of(c, s, n, a),
{
    assert forall|i: int| 0 <= i && n <= i < c.items.len() implies right_of(#[trigger] c.items[i], s, a) by {
        assert(right_of(c.items[i], s, b));
    }
}

/// What was drawn before stays as it was, so what is said of the rest is said of all.
proof fn lemma_joined_right(c: Canvas, d: Canvas, s: Setting, n: int, inset: int)
    requires
        c.items.len() <= d.items.len(),
        c.items == d.items.take(c.items.len() as int),
        all_right_of(c, s, n, inset),
        all_right_of(d, s, c.items.len() as int, inset),
    ensures
        all_right_of(d, s, n, inset),
{
    assert forall|i: int| 0 <= i && n <= i < d.items.len() implies right_of(#[trigger] d.items[i], s, inset) by {
        if i < c.items.len() {
            assert(c.items[i] == d.items.take(c.items.len() as int)[i]);
            assert(right_of(c.items[i], s, inset));
        }
    }
}

proof fn lemma_inserted_right(a: Canvas, b: Canvas, s: Setting, item: ItemDrawn, n: int, inset: int)
    requires
        0 <= n <= a.items.len() <= b.items.len(),
        all_right_of(b, s, n, inset),
        right_of(item, s, inset),
    ensures
        all_right_of(
            Canvas { items: b.items.insert(a.items.len() as int, item), ..b },
            s,
            n,
            inset,
        ),
{
    let k = a.items.len() as int;
    let after = Canvas { items: b.items.insert(k, item), ..b };
    assert forall|i: int| 0 <= i && n <= i < after.items.len() implies right_of(#[trigger] after.items[i], s, inset) by {
        if i < k {
            assert(after.items[i] == b.items[i]);
        } else if i > k {
            assert(after.items[i] == b.items[i - 1]);
        }
    }
}

proof fn lemma_blocks_right(c: Canvas, s: Setting, blocks: Seq<BlockModel>, inset: usize, n: int)
    requires
        0 <= n <= c.items.len(),
        all_right_of(c, s, n, inset as int),
    ensures
        all_right_of(c.blocks(s, blocks, inset), s, n, inset as int),
    decreases blocks, 0nat,
{
    if blocks.len() > 0 {
        lemma_blocks_right(c, s, blocks.drop_last(), inset, n);
        lemma_blocks_grow(c, s, blocks.drop_last(), inset);
        let b = c.blocks(s, blocks.drop_last(), inset);
        let d = if blocks.len() > 1 {
            b.down(1)
        } else {
            b
        };
        lemma_block_right(d, s, blocks.last(), inset, n);
    }
}

proof fn lemma_block_right(c: Canvas, s: Setting, b: BlockModel, inset: usize, n: int)
    requires
        0 <= n <= c.items.len(),
        all_right_of(c, s, n, inset as int),
    ensures
        all_right_of(c.block(s, b, inset), s, n, inset as int),
    decreases b, 0nat,
{
    match b {
        BlockModel::Heading { level, inlines } => {
            let d = if c.y > s.frame.margin {
                c.down(1)
            } else {
                c
            };
            let e = Canvas {
                outline: d.outline.push(
                    HeadingModel { level, text: measure::flattened(inlines), y: d.y },
                ),
                ..d
            };
            lemma_lines_right(
                e,
                s,
                wrap::wrapped(inlines, cols_at(s.frame, inset, scale_of(level)), bold_style()),
                inset,
                scale_of(level),
                n,
            );
        },
        BlockModel::Paragraph(inlines) => {
            lemma_lines_right(
                c,
                s,
                wrap::wrapped(inlines, cols_at(s.frame, inset, 100), measure::plain_style()),
                inset,
                100,
                n,
            );
        },
        BlockModel::Code { lang, lines } => {
            let shown = folded_lines(
                highlight::code_spans(lang, untabbed(lines), s.theme.code_fg),
                cols_at(s.frame, at_most(inset + 4), 100),
            );
            let h = at_most(shown.len() as int + 2);
            let i = ItemDrawn::Fill { inset, y: c.y, h, fill: s.theme.code_bg };
            lemma_pushed_right(c, s, i, n, inset as int);
            let d = Canvas { items: c.items.push(i), ..c };
            lemma_code_right(d, s, shown, inset, at_most(c.y + 1), n);
        },
        BlockModel::Quote { callout, blocks } => {
            let further = at_most(inset + 2);
            let d = c.label(s, callout, inset);
            if let Some(k) = callout {
                let i = ItemDrawn::Run {
                    x: x_of(s.frame, inset + 2, 0, 100),
                    top: c.y,
                    scale: 100,
                    text: k.word(),
                    bold: true,
                    italic: false,
                    strike: false,
                    fill: s.theme.callout.colour(k),
                };
                lemma_pushed_right(c, s, i, n, inset as int);
            }
            lemma_blocks_grow(d, s, blocks, further);
            lemma_blocks_right(d, s, blocks, further, d.items.len() as int);
            let inner = d.blocks(s, blocks, further);
            lemma_further_right(inner, s, d.items.len() as int, inset as int, further as int);
            lemma_joined_right(d, inner, s, n, inset as int);
            let bar = ItemDrawn::Bar {
                inset,
                y: c.y,
                h: (inner.y - c.y) as usize,
                fill: match callout {
                    Some(k) => s.theme.callout.colour(k),
                    None => s.theme.quote_bar,
                },
            };
            lemma_inserted_right(c, inner, s, bar, n, inset as int);
        },
        BlockModel::List { start, items } => {
            lemma_items_right(c, s, start, items, inset, n);
        },
        BlockModel::Footnotes(notes) => {
            lemma_notes_right(c, s, notes, inset, n);
        },
        BlockModel::Table(t) => {
            lemma_table_right(c, s, t, inset, n);
        },
        BlockModel::Rule => {
            let i = ItemDrawn::Rule { inset, y: c.y, span: None, fill: s.theme.rule };
            lemma_pushed_right(c, s, i, n, inset as int);
        },
    }
}

proof fn lemma_marked_right(
    c: Canvas,
    s: Setting,
    m: Seq<char>,
    blocks: Seq<BlockModel>,
    inset: usize,
    n: int,
)
    requires
        0 <= n <= c.items.len(),
        all_right_of(c, s, n, inset as int),
    ensures
        ({
            let inner = c.blocks(s, blocks, at_most(inset + columns::columns(m) + 1));
            all_right_of(c.marked(s, inner, m, inset), s, n, inset as int)
        }),
    decreases blocks, 1nat,
{
    let indent = at_most(inset + columns::columns(m) + 1);
    lemma_blocks_grow(c, s, blocks, indent);
    lemma_blocks_right(c, s, blocks, indent, c.items.len() as int);
    let inner = c.blocks(s, blocks, indent);
    lemma_further_right(inner, s, c.items.len() as int, inset as int, indent as int);
    lemma_joined_right(c, inner, s, n, inset as int);
    let run = ItemDrawn::Run {
        x: x_of(s.frame, inset as int, 0, 100),
        top: c.y,
        scale: 100,
        text: m,
        bold: false,
        italic: false,
        strike: false,
        fill: s.theme.dim,
    };
    lemma_inserted_right(c, inner, s, run, n, inset as int);
}

proof fn lemma_items_right(
    c: Canvas,
    s: Setting,
    start: Option<u64>,
    items: Seq<ItemModel>,
    inset: usize,
    n: int,
)
    requires
        0 <= n <= c.items.len(),
        all_right_of(c, s, n, inset as int),
    ensures
        all_right_of(c.items_of(s, start, items, inset), s, n, inset as int),
    decreases items, 0nat,
{
    if items.len() > 0 {
        lemma_items_right(c, s, start, items.drop_last(), inset, n);
        lemma_items_grow(c, s, start, items.drop_last(), inset);
        let d = c.items_of(s, start, items.drop_last(), inset);
        let m = marker(items.last().task, start, items.len() - 1);
        lemma_marked_right(d, s, m, items.last().blocks, inset, n);
    }
}

proof fn lemma_notes_right(c: Canvas, s: Setting, notes: Seq<NoteModel>, inset: usize, n: int)
    requires
        0 <= n <= c.items.len(),
        all_right_of(c, s, n, inset as int),
    ensures
        all_right_of(c.notes(s, notes, inset), s, n, inset as int),
    decreases notes, 0nat,
{
    if notes.len() > 0 {
        lemma_notes_right(c, s, notes.drop_last(), inset, n);
        lemma_notes_grow(c, s, notes.drop_last(), inset);
        let d = c.notes(s, notes.drop_last(), inset);
        let m = text::dec(notes.last().number) + "."@;
        lemma_marked_right(d, s, m, notes.last().blocks, inset, n);
    }
}

/// What is nested stands further in: whatever a block draws, none of it is further left than the column
/// that the block stands in.
pub proof fn law_nothing_is_drawn_left_of_its_block(
    c: Canvas,
    s: Setting,
    blocks: Seq<BlockModel>,
    inset: usize,
)
    ensures
        all_right_of(
            c.blocks(s, blocks, inset),
            s,
            c.items.len() as int,
            inset as int,
        ),
{
    lemma_blocks_right(c, s, blocks, inset, c.items.len() as int);
}

/// A run that shares a row with what was read before it goes on the same line, behind a space for each
/// column between them; any other begins a line of its own, where it stands.
pub proof fn law_a_run_is_read_where_it_stands(r: Reading, run: RunDrawn)
    requires
        run.scale > 0,
    ensures
        ({
            let after = r.with_run(run);
            let n = r.out.len() as int;
            let same = n > 0 && r.out.last().y == run.top;
            &&& !same ==> after.out.len() == n + 1 && after.out.take(n) == r.out
                && after.out[n].y == run.top && after.out[n].x == run.x && after.out[n].advance
                == run.scale && after.out[n].text == run.text
            &&& same ==> ({
                let gap = after.out.last().text.len() - r.out.last().text.len() - run.text.len();
                &&& after.out.len() == n
                &&& after.out.drop_last() == r.out.drop_last()
                &&& after.out.last().y == r.out.last().y
                &&& after.out.last().x == r.out.last().x
                &&& after.out.last().advance == r.out.last().advance
                &&& gap >= 0
                &&& after.out.last().text.take(r.out.last().text.len() as int) == r.out.last().text
                &&& after.out.last().text.skip(r.out.last().text.len() + gap) == run.text
                &&& forall|i: int|
                    0 <= i < gap ==> #[trigger] after.out.last().text[r.out.last().text.len() + i] == ' '
                &&& run.x > r.end ==> 2 * (gap * run.scale - (run.x - r.end)) <= run.scale && 2 * ((run.x
                    - r.end) - gap * run.scale) <= run.scale
                &&& run.x <= r.end ==> gap == 0
            })
            &&& run.x + columns::columns(run.text) * run.scale <= usize::MAX ==> after.end == run.x
                + columns::columns(run.text) * run.scale
        }),
{
    let after = r.with_run(run);
    let n = r.out.len() as int;
    let same = n > 0 && r.out.last().y == run.top;
    assert(0 <= columns::columns(run.text) * run.scale) by (nonlinear_arith)
        requires
            0 <= columns::columns(run.text),
            0 <= run.scale,
    ;
    if same {
        let k = gap_cols(run.x, r.end, run.scale);
        let was = r.out.last().text;
        let now = after.out.last().text;
        assert(after.out.drop_last() =~= r.out.drop_last());
        assert(now.take(was.len() as int) =~= was);
        assert(now.skip((was.len() + k) as int) =~= run.text);
        if run.x > r.end {
            let (d, sc) = (run.x - r.end, run.scale as int);
            let q = (2 * d + sc) / (2 * sc);
            assert(2 * (q * sc - d) <= sc && 2 * (d - q * sc) <= sc && q >= 0) by (nonlinear_arith)
                requires
                    q == (2 * d + sc) / (2 * sc),
                    sc > 0,
                    d > 0,
            ;
        }
    } else {
        assert(after.out.take(n) =~= r.out);
    }
}

/// The text of a page is read from its runs in reading order, each of them once.
pub proof fn law_a_page_reads_as_its_runs(items: Seq<ItemDrawn>, runs: Seq<RunDrawn>, r: RunDrawn)
    ensures
        page_lines(items) == (Reading { out: seq![], end: 0 }).with_runs(
            sorted_runs(runs_among(items)),
        ).out,
        (Reading { out: seq![], end: 0 }).with_runs(runs.push(r)) == (Reading {
            out: seq![],
            end: 0,
        }).with_runs(runs).with_run(r),
        forall|i: int|
            0 <= i < items.len() && (#[trigger] items[i]) is Run ==> exists|k: int|
                0 <= k < runs_among(items).len() && (#[trigger] runs_among(items)[k]) == (RunDrawn {
                    top: items[i]->top,
                    x: items[i]->x,
                    scale: items[i]->scale,
                    text: items[i]->text,
                }),
    decreases items.len(),
{
    assert(runs.push(r).drop_last() =~= runs);
    lemma_runs_among(items);
}

proof fn lemma_runs_among(items: Seq<ItemDrawn>)
    ensures
        forall|i: int|
            0 <= i < items.len() && (#[trigger] items[i]) is Run ==> exists|k: int|
                0 <= k < runs_among(items).len() && (#[trigger] runs_among(items)[k]) == (RunDrawn {
                    top: items[i]->top,
                    x: items[i]->x,
                    scale: items[i]->scale,
                    text: items[i]->text,
                }),
    decreases items.len(),
{
    if items.len() > 0 {
        let front = items.drop_last();
        lemma_runs_among(front);
        let (before, after) = (runs_among(front), runs_among(items));
        assert forall|i: int| 0 <= i < items.len() && (#[trigger] items[i]) is Run implies exists|k: int|
            0 <= k < after.len() && (#[trigger] after[k]) == (RunDrawn {
                top: items[i]->top,
                x: items[i]->x,
                scale: items[i]->scale,
                text: items[i]->text,
            }) by {
            let want = RunDrawn {
                top: items[i]->top,
                x: items[i]->x,
                scale: items[i]->scale,
                text: items[i]->text,
            };
            if i < front.len() {
                assert(front[i] == items[i]);
                let k = choose|k: int| 0 <= k < before.len() && (#[trigger] before[k]) == want;
                assert(after[k] == want);
            } else {
                assert(after[after.len() - 1] == want);
            }
        }
    }
}

/// A page is read from the top down and each row from left to right.
pub proof fn law_a_page_is_read_in_order(items: Seq<ItemDrawn>, i: int, j: int)
    requires
        0 <= i < j < sorted_runs(runs_among(items)).len(),
    ensures
        ({
            let (a, b) = (sorted_runs(runs_among(items))[i], sorted_runs(runs_among(items))[j]);
            a.top < b.top || (a.top == b.top && a.x <= b.x)
        }),
        sorted_runs(runs_among(items)).len() == runs_among(items).len(),
{
    lemma_sorted_runs(runs_among(items));
    let s = sorted_runs(runs_among(items));
    assert(!reads_before(s[j], s[i]));
}

/// Code is drawn line below line in the order it was written, its tabs made spaces first.
pub proof fn law_code_is_drawn_in_order(
    lines: Seq<Seq<SpanModel>>,
    line: Seq<SpanModel>,
    texts: Seq<Seq<char>>,
    i: int,
    cols: nat,
)
    ensures
        folded_lines(seq![], cols).len() == 0,
        folded_lines(lines.push(line), cols) == folded_lines(lines, cols) + folded(line, cols),
        untabbed(texts).len() == texts.len(),
        0 <= i < texts.len() ==> untabbed(texts)[i] == measure::expanded(texts[i]).out,
{
    assert(lines.push(line).drop_last() =~= lines);
}

/// A table has as many columns as its longest row, and a row takes as many lines as its deepest cell: no
/// fewer, and no more.
pub proof fn law_a_table_is_no_larger_than_it_holds(
    rows: Seq<Seq<Seq<InlineModel>>>,
    cells: Seq<Seq<Seq<PieceModel>>>,
    r: int,
    i: int,
)
    ensures
        0 <= r < rows.len() ==> rows[r].len() <= table_cols(rows),
        table_cols(rows) == 0 || exists|k: int|
            0 <= k < rows.len() && (#[trigger] rows[k]).len() == table_cols(rows),
        0 <= i < cells.len() ==> cells[i].len() <= row_height(cells),
        row_height(cells) == 0 || exists|k: int|
            0 <= k < cells.len() && (#[trigger] cells[k]).len() == row_height(cells),
{
    lemma_table_cols(rows);
    if 0 <= i < cells.len() {
        lemma_row_deepest(cells, i);
    }
    let k = lemma_longest(rows);
    let l = lemma_deepest(cells);
}

proof fn lemma_longest(rows: Seq<Seq<Seq<InlineModel>>>) -> (k: int)
    ensures
        table_cols(rows) > 0 ==> 0 <= k < rows.len() && rows[k].len() == table_cols(rows),
    decreases rows.len(),
{
    if rows.len() == 0 {
        0
    } else {
        let k = lemma_longest(rows.drop_last());
        if rows.last().len() >= table_cols(rows.drop_last()) {
            rows.len() - 1
        } else {
            assert(rows.drop_last()[k] == rows[k]);
            k
        }
    }
}

proof fn lemma_deepest(cells: Seq<Seq<Seq<PieceModel>>>) -> (k: int)
    ensures
        row_height(cells) > 0 ==> 0 <= k < cells.len() && cells[k].len() == row_height(cells),
    decreases cells.len(),
{
    if cells.len() == 0 {
        0
    } else {
        let k = lemma_deepest(cells.drop_last());
        if cells.last().len() >= row_height(cells.drop_last()) {
            cells.len() - 1
        } else {
            assert(cells.drop_last()[k] == cells[k]);
            k
        }
    }
}

} // verus!
