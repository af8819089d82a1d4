//! How large a page of text is, and how it is cut.

use vstd::prelude::*;

use crate::framebuffer::Framebuffer;
use crate::geometry;
use crate::geometry::{cut, CellSize};
use crate::source::index;
use crate::source::markdown::builder;
use crate::source::markdown::event;
use crate::source::markdown::highlight::Highlighter;
use crate::source::markdown::layout;
use crate::source::markdown::layout::{Frame, Page, Rgb, Setting, Theme};
use crate::source::markdown::parse;
use crate::source::Hints;
use crate::text;

verus! {

/// The column count a page is laid out to, whatever pixel width the caller asks for.
//
// the page is no wider than this however wide the terminal is.
// a line of prose running the full width of a large window is
// hard to read, and the empty right-hand side costs nothing
// since the page is only as wide as the text it holds
pub const TARGET_COLS: u64 = 88;

/// Lower bound on the body's type size, in pixels.
pub const MIN_SIZE: u64 = 11;

/// Upper bound on the body's type size, in pixels.
pub const MAX_SIZE: u64 = 40;

/// A ceiling on the page, independent of what the caller asked for.
//
// 16 megapixels is 64MB of framebuffer
pub const MAX_PIXELS: u64 = 16_000_000;

/// The largest piece of a page to hand over at once, in pixels.
//
// the one-shot render stacks pieces down the scrollback, so a
// long document costs several images rather than one enormous
// one. Each is transmitted once and then sits in the scrollback,
// so splitting costs the terminal nothing it would not have paid
// for the whole page
pub const CHUNK_PIXELS: u64 = 4_000_000;

/// The font's em, in its own units.
pub const EM: u64 = 2048;

/// A glyph's advance, in the font's own units.
pub const ADVANCE: u64 = 1229;

/// The margin around a page, in pixels, unless its type is large.
pub const MARGIN: u64 = 16;

/// How many grains a pixel has.
//
// a type size counts 1229ths of a pixel and a glyph advances
// by so many 2048ths of one, so in grains both are whole
pub const GRAINS: u64 = 2_516_992;

/// The size of a page's type and of the page.
#[derive(Clone, Copy, Debug, PartialEq, Eq, Structural)]
pub struct Metrics {
    /// The body's type size, in 1229ths of a pixel. A glyph of it advances by as many 2048ths.
    pub size: u32,
    /// How tall a row is, in pixels.
    pub row: u32,
    /// How wide the margin is, in grains.
    pub margin: u64,
    /// How wide the page is, in grains.
    pub width: u64,
}

/// The body's type size, in 1229ths of a pixel: a glyph advances by one cell, so the type is as wide
/// as the terminal's own, unless that would be taller than a cell, or out of bounds.
//
// capped at the cell height as well as derived from its
// width: a line box is one row only while the type fits in
// one, and the viewer addresses lines by row
pub open spec fn type_size(cell: CellSize) -> int {
    let wide = EM * cell.w;
    let tall = ADVANCE * cell.h;
    let asked = if wide < tall {
        wide
    } else {
        tall
    };
    if asked < ADVANCE * MIN_SIZE {
        ADVANCE * MIN_SIZE
    } else if asked > ADVANCE * MAX_SIZE {
        ADVANCE * MAX_SIZE
    } else {
        asked
    }
}

/// How tall a row is: one row of the terminal, unless that is less than the smallest type.
pub open spec fn row_height(cell: CellSize) -> int {
    if cell.h < MIN_SIZE {
        MIN_SIZE as int
    } else {
        cell.h as int
    }
}

/// How wide the margin is, in grains: three quarters of the type size, or as wide as it is for
/// small type.
pub open spec fn margin_of(size: int) -> int {
    let scaled = 1536 * size;
    if scaled < MARGIN * GRAINS {
        MARGIN * GRAINS
    } else {
        scaled
    }
}

/// How wide a page is, in grains: the columns it is laid out to and the margins, or what there is.
pub open spec fn width_of(size: int, max_w: int) -> int {
    let measure = TARGET_COLS * (ADVANCE * size) + 2 * margin_of(size);
    geometry::capped(measure, geometry::some(max_w) * GRAINS)
}

/// The size of a page for a terminal of cells `cell`, at most `max_w` pixels wide.
pub open spec fn metrics_of(cell: CellSize, max_w: u32) -> Metrics {
    Metrics {
        size: type_size(cell) as u32,
        row: row_height(cell) as u32,
        margin: margin_of(type_size(cell)) as u64,
        width: width_of(type_size(cell), max_w as int) as u64,
    }
}

/// The size of a page for a terminal of cells `cell`, at most `max_w` pixels wide.
pub fn metrics(cell: CellSize, max_w: u32) -> (r: Metrics)
    ensures
        r == metrics_of(cell, max_w),
        r.wf(),
{
    let wide: u64 = EM * cell.w as u64;
    let tall: u64 = ADVANCE * cell.h as u64;
    let asked: u64 = if wide < tall {
        wide
    } else {
        tall
    };
    let size: u64 = if asked < ADVANCE * MIN_SIZE {
        ADVANCE * MIN_SIZE
    } else if asked > ADVANCE * MAX_SIZE {
        ADVANCE * MAX_SIZE
    } else {
        asked
    };
    let row: u32 = if (cell.h as u64) < MIN_SIZE {
        MIN_SIZE as u32
    } else {
        cell.h
    };
    let scaled: u64 = 1536 * size;
    let margin: u64 = if scaled < MARGIN * GRAINS {
        MARGIN * GRAINS
    } else {
        scaled
    };
    let measure: u64 = TARGET_COLS * (ADVANCE * size) + 2 * margin;
    let room: u64 = if max_w < 1 {
        GRAINS
    } else {
        max_w as u64 * GRAINS
    };
    let width: u64 = if measure > room {
        room
    } else {
        measure
    };
    Metrics { size: size as u32, row, margin, width }
}

impl Metrics {
    /// Whether the sizes are ones a page can have.
    pub open spec fn wf(self) -> bool {
        &&& ADVANCE * MIN_SIZE <= self.size <= ADVANCE * MAX_SIZE
        &&& MIN_SIZE <= self.row
        &&& self.margin <= 0x1_0000_0000
        &&& GRAINS <= self.width <= 0x5_0000_0000
    }

    /// How far a glyph of the body advances, in grains.
    pub open spec fn advance(self) -> int {
        ADVANCE * self.size
    }
}

/// The room a page of that size leaves for its content: the margins round up to whole columns and
/// whole rows, so that the page's columns and rows are the terminal's.
pub open spec fn frame_of(m: Metrics) -> Frame {
    let left = (m.margin + m.advance() - 1) / m.advance();
    let inside = m.width - 2 * (left * m.advance());
    let content = if inside < GRAINS {
        GRAINS as int
    } else {
        inside
    };
    let row = m.row * GRAINS;
    Frame {
        width: (100 * content / m.advance()) as usize,
        left: left as usize,
        margin: ((m.margin + row - 1) / row) as usize,
    }
}

/// The room a page of that size leaves for its content.
pub fn frame(m: &Metrics) -> (r: Frame)
    requires
        m.wf(),
    ensures
        r == frame_of(*m),
{
    let advance: u64 = ADVANCE * m.size as u64;
    let left: u64 = (m.margin + advance - 1) / advance;
    proof {
        geometry::lemma_quotient(m.margin + advance - 1, advance as int);
        assert(left <= 0x1_0000_0000) by (nonlinear_arith)
            requires
                left * advance <= 0x1_0000_0000 + advance - 1,
                advance >= 1,
                left >= 0,
        ;
    }
    let edge: u64 = left * advance;
    let inside: u64 = if m.width > 2 * edge {
        m.width - 2 * edge
    } else {
        0
    };
    let content: u64 = if inside < GRAINS {
        GRAINS
    } else {
        inside
    };
    let row: u64 = m.row as u64 * GRAINS;
    let width: u64 = 100 * content / advance;
    proof {
        geometry::lemma_quotient(100 * content, advance as int);
        assert(width <= 0xffff_ffff) by (nonlinear_arith)
            requires
                width * advance <= 100 * content,
                content <= 0x5_0000_0000,
                advance >= 1229 * 11 * 1229,
        ;
        geometry::lemma_quotient(m.margin + row - 1, row as int);
        assert((m.margin + row - 1) / row as int <= 0xffff_ffff) by (nonlinear_arith)
            requires
                ((m.margin + row - 1) / row as int) * row <= 0x1_0000_0000 + row - 1,
                row >= 1_000_000,
        ;
        assert(left <= 0xffff_ffff) by (nonlinear_arith)
            requires
                left * advance <= 0x1_0000_0000 + advance - 1,
                advance >= 1_000_000,
        ;
    }
    let margin: u64 = (m.margin + row - 1) / row;
    Frame { width: width as usize, left: left as usize, margin: margin as usize }
}

/// How tall a page is drawn, in pixels: its content, or what was asked for, or what memory allows,
/// whichever is least, and one at least.
//
// the one-shot render asks for a screenful and gets one,
// since fitting would otherwise shrink a long page until the
// text lost resolution. the viewer asks for the document and
// crops it as the reader scrolls
pub open spec fn height_of(content: int, width: int, max_h: int) -> int {
    geometry::some(
        geometry::capped(
            geometry::capped(content, geometry::some(max_h)),
            MAX_PIXELS * GRAINS / width,
        ),
    )
}

/// How tall a page of `rows` rows is drawn, in pixels, where at most `max_h` are asked for.
pub fn drawn_height(rows: usize, m: &Metrics, max_h: u32) -> (r: u32)
    requires
        m.wf(),
    ensures
        r == height_of(rows * m.row, m.width as int, max_h as int),
        1 <= r,
{
    assert(0 <= rows * m.row <= 0xffff_ffff_ffff_ffff * 0xffff_ffff) by (nonlinear_arith)
        requires
            0 <= rows <= 0xffff_ffff_ffff_ffff,
            0 <= m.row <= 0xffff_ffff,
    ;
    let content: u128 = rows as u128 * m.row as u128;
    let asked: u128 = if max_h < 1 {
        1
    } else {
        max_h as u128
    };
    let least: u128 = if content > asked {
        asked
    } else {
        content
    };
    let memory: u64 = MAX_PIXELS * GRAINS / m.width;
    let least: u128 = if least > memory as u128 {
        memory as u128
    } else {
        least
    };
    if least < 1 {
        1
    } else {
        least as u32
    }
}

/// How tall a piece of a page is, in pixels: whole rows, as many as a piece may have pixels for, and
/// one at least.
//
// whole lines only, or a seam slices the glyphs on it
pub open spec fn piece_height(m: Metrics) -> int {
    geometry::some(CHUNK_PIXELS * GRAINS / (m.width * m.row)) * m.row
}

/// The pieces of a page drawn `total` pixels tall, top to bottom: the top of each and its height.
pub open spec fn pieces_of(m: Metrics, total: int) -> Seq<(u32, u32)> {
    geometry::cuts(total, geometry::capped(piece_height(m), u32::MAX as int), 0)
}

/// Cut a page drawn `total` pixels tall into pieces, top to bottom.
pub fn pieces(m: &Metrics, total: u32) -> (r: Vec<(u32, u32)>)
    requires
        m.wf(),
    ensures
        r@ == pieces_of(*m, total as int),
{
    assert(0 < m.width * m.row <= 0x5_0000_0000 * 0xffff_ffff) by (nonlinear_arith)
        requires
            0 < m.width <= 0x5_0000_0000,
            0 < m.row <= 0xffff_ffff,
    ;
    let area: u128 = m.width as u128 * m.row as u128;
    let rows: u128 = (CHUNK_PIXELS * GRAINS) as u128 / area;
    proof {
        geometry::lemma_quotient((CHUNK_PIXELS * GRAINS) as int, area as int);
        assert(rows <= 0xffff_ffff_ffff) by (nonlinear_arith)
            requires
                rows * area <= 4_000_000 * 2_516_992,
                area >= 1,
                rows >= 0,
        ;
    }
    let rows: u128 = if rows < 1 {
        1
    } else {
        rows
    };
    assert(0 < rows * m.row <= 0xffff_ffff_ffff * 0xffff_ffff) by (nonlinear_arith)
        requires
            1 <= rows <= 0xffff_ffff_ffff,
            1 <= m.row <= 0xffff_ffff,
    ;
    let tall: u128 = rows * m.row as u128;
    let tall: u32 = if tall > 0xffff_ffff {
        0xffff_ffff
    } else {
        tall as u32
    };
    cut(total, tall)
}

/// A seam between two pieces lies between two rows.
pub proof fn law_seams_lie_between_rows(m: Metrics, total: int, k: int)
    requires
        m.wf(),
        0 <= total <= u32::MAX,
        piece_height(m) <= u32::MAX,
        0 < k < pieces_of(m, total).len(),
    ensures
        pieces_of(m, total)[k].0 as int % m.row as int == 0,
{
    let n = geometry::some(CHUNK_PIXELS * GRAINS / (m.width * m.row));
    let tall = piece_height(m);
    assert(tall > 0) by (nonlinear_arith)
        requires
            tall == n * m.row,
            n >= 1,
            m.row >= 1,
    ;
    geometry::law_cuts_cover(total, tall, 0);
    geometry::law_cuts_are_full(total, tall, 0, k - 1);
    let at = pieces_of(m, total)[k].0 as int;
    assert(pieces_of(m, total)[k - 1].0 + pieces_of(m, total)[k - 1].1 == at);
    assert(at == k * tall) by (nonlinear_arith)
        requires
            at == 0 + (k - 1) * tall + tall,
    ;
    assert(at == (k * n) * m.row) by (nonlinear_arith)
        requires
            at == k * tall,
            tall == n * m.row,
    ;
    vstd::arithmetic::div_mod::lemma_mod_multiples_basic(k * n, m.row as int);
}

/// One line of body text takes one row of the terminal, and one character of it one cell, wherever
/// the cell is of a size type can have.
pub proof fn law_text_stands_on_the_grid(cell: CellSize, max_w: u32)
    requires
        MIN_SIZE <= cell.h,
    ensures
        metrics_of(cell, max_w).row == cell.h,
        ADVANCE * MIN_SIZE <= EM * cell.w <= ADVANCE * MAX_SIZE && EM * cell.w <= ADVANCE * cell.h
            ==> metrics_of(cell, max_w).size == EM * cell.w && metrics_of(cell, max_w).advance()
            == cell.w * GRAINS,
{
}

/// A page is no wider than was asked for.
pub proof fn law_page_is_no_wider_than_asked(cell: CellSize, max_w: u32)
    requires
        max_w > 0,
    ensures
        metrics_of(cell, max_w).width <= max_w * GRAINS,
{
}

/// The block tree of a document.
pub open spec fn tree_of(bytes: Seq<u8>) -> Seq<parse::BlockModel> {
    builder::State::empty().steps(
        event::markdown_steps(text::lossy_text(bytes), parse::EXTENSIONS),
    ).finish()
}

/// What a document is drawn by, at that size.
pub open spec fn setting_of(m: Metrics, theme: Theme) -> Setting {
    Setting { frame: frame_of(m), theme }
}

/// Parse and lay out a document, stopping before anything is drawn.
pub fn lay_out(bytes: &[u8], hints: &Hints, theme: &Theme, h: &Highlighter) -> (r: (Page, Metrics))
    requires
        h.wf(),
    ensures
        r.1 == metrics_of(hints.cell, hints.max_w),
        r.1.wf(),
        ({
            let c = layout::drawn(setting_of(r.1, *theme), tree_of(bytes@));
            &&& layout::items_drawn(r.0.items@) == c.items
            &&& index::heading_models(r.0.outline@) == c.outline
            &&& index::line_models(r.0.lines@) == layout::page_lines(c.items)
            &&& r.0.rows == layout::at_most(c.y + frame_of(r.1).margin)
        }),
{
    let words = text::lossy(bytes);
    let m = metrics(hints.cell, hints.max_w);
    let setting = Setting { frame: frame(&m), theme: *theme };
    let page = layout::layout(&parse::parse(words.as_str()), &setting, h);
    (page, m)
}

/// The pixels of a page `w` across cut down to `h` rows, or padded out to them in colour `bg`.
pub open spec fn cropped(px: Seq<u8>, w: int, h: int, bg: Rgb) -> Seq<u8> {
    Seq::new(
        (4 * (w * h)) as nat,
        |i: int|
            if i < px.len() {
                px[i]
            } else if i % 4 == 0 {
                bg.0
            } else if i % 4 == 1 {
                bg.1
            } else if i % 4 == 2 {
                bg.2
            } else {
                255
            },
    )
}

/// Cut the page down to `h`, or pad it out if the content fell short.
//
// padded with the page's own background, so the caller does
// not composite a short document against --background
pub fn crop(fb: Framebuffer, h: u32, bg: Rgb) -> (r: Framebuffer)
    requires
        fb.wf(),
        4 * (fb.w * h) <= isize::MAX,
    ensures
        r.wf(),
        r.w == fb.w,
        r.h == h,
        r.px@ == cropped(fb.px@, fb.w as int, h as int, bg),
{
    let w: u32 = fb.w;
    let ghost before = fb.px@;
    let mut px = fb.px;
    let side: u64 = 4 * (w as u64 * h as u64);
    let size: usize = side as usize;
    assert(size == 4 * (w * h));
    if size < px.len() {
        px.truncate(size);
    }
    while px.len() < size
        invariant
            px@.len() <= size || px@.len() <= before.len(),
            forall|i: int| 0 <= i < before.len() && i < px@.len() ==> px@[i] == before[i],
            forall|i: int|
                before.len() <= i < px@.len() ==> #[trigger] px@[i] == (if i % 4 == 0 {
                    bg.0
                } else if i % 4 == 1 {
                    bg.1
                } else if i % 4 == 2 {
                    bg.2
                } else {
                    255
                }),
            before.len() <= size ==> px@.len() >= before.len(),
            before.len() > size ==> px@.len() == size,
        decreases size - px.len(),
    {
        let k: usize = px.len() % 4;
        px.push(
            if k == 0 {
                bg.0
            } else if k == 1 {
                bg.1
            } else if k == 2 {
                bg.2
            } else {
                255
            },
        );
    }
    assert(px@ =~= cropped(before, w as int, h as int, bg));
    Framebuffer { w, h, px }
}

/// Type is as wide as the terminal's own, no taller than a row of it, and of a size between eleven and
/// forty pixels; a row is one of the terminal's, or eleven pixels where that is more.
pub proof fn law_type_is_the_terminals(cell: CellSize, max_w: u32)
    ensures
        ({
            let m = metrics_of(cell, max_w);
            let (wide, tall) = (2048 * cell.w, 1229 * cell.h);
            &&& 1229 * 11 <= m.size <= 1229 * 40
            &&& 1229 * 11 <= wide <= 1229 * 40 && wide <= tall ==> m.size == wide
            &&& 1229 * 11 <= tall <= 1229 * 40 && tall <= wide ==> m.size == tall
            &&& wide < 1229 * 11 || tall < 1229 * 11 ==> m.size == 1229 * 11
            &&& wide > 1229 * 40 && tall > 1229 * 40 ==> m.size == 1229 * 40
            &&& cell.h >= 11 ==> m.row == cell.h
            &&& cell.h < 11 ==> m.row == 11
        }),
{
}

/// A page is 88 columns of its type and a margin on either side wide, unless there is less room, which
/// it then takes; a margin is three quarters of the type's size, and sixteen pixels at least.
pub proof fn law_a_page_is_as_wide_as_its_columns(cell: CellSize, max_w: u32)
    requires
        max_w > 0,
    ensures
        ({
            let m = metrics_of(cell, max_w);
            let asked = 88 * (1229 * m.size) + 2 * m.margin;
            &&& m.advance() == 1229 * m.size
            &&& asked <= max_w * 2_516_992 ==> m.width == asked
            &&& asked > max_w * 2_516_992 ==> m.width == max_w * 2_516_992
            &&& m.margin >= 40_271_872
            &&& m.margin == 40_271_872 || 4_916 * m.margin == 7_550_976 * m.size
        }),
{
}

/// The margins of a page are whole columns and whole rows, as few as take the margin it asks for.
pub proof fn law_margins_are_whole_cells(m: Metrics)
    requires
        m.wf(),
    ensures
        ({
            let f = frame_of(m);
            let (a, r) = (m.advance(), m.row * 2_516_992);
            &&& f.left * a >= m.margin
            &&& (f.left - 1) * a < m.margin
            &&& f.margin * r >= m.margin
            &&& (f.margin - 1) * r < m.margin
        }),
{
    let (a, r) = (m.advance(), m.row * GRAINS as int);
    let left = (m.margin + a - 1) / a;
    let top = (m.margin + r - 1) / r;
    geometry::lemma_quotient(m.margin + a - 1, a);
    geometry::lemma_quotient(m.margin + r - 1, r);
    assert(left * a >= m.margin && (left - 1) * a < m.margin) by (nonlinear_arith)
        requires
            left * a <= m.margin + a - 1 < (left + 1) * a,
    ;
    assert(top * r >= m.margin && (top - 1) * r < m.margin) by (nonlinear_arith)
        requires
            top * r <= m.margin + r - 1 < (top + 1) * r,
    ;
    assert(0 <= left <= 0xffff_ffff) by (nonlinear_arith)
        requires
            (left - 1) * a < m.margin,
            left * a >= m.margin,
            m.margin <= 0x1_0000_0000,
            a >= 1229 * 11 * 1229,
            0 <= m.margin,
    ;
    assert(0 <= top <= 0xffff_ffff) by (nonlinear_arith)
        requires
            (top - 1) * r < m.margin,
            top * r >= m.margin,
            m.margin <= 0x1_0000_0000,
            r >= 11 * 2_516_992,
            0 <= m.margin,
    ;
}

/// What is drawn of a page is all of it, or what was asked for, or what sixteen million pixels hold,
/// whichever is least, and a row of pixels at least.
pub proof fn law_a_page_is_drawn_as_far_as_asked(content: int, width: int, max_h: int)
    requires
        0 <= content,
        0 < width,
        1 <= max_h,
    ensures
        ({
            let h = height_of(content, width, max_h);
            let most = 40_271_872_000_000int / width;
            &&& h >= 1
            &&& h <= max_h
            &&& h > 1 ==> h <= content && h <= most
            &&& content >= 1 && most >= 1 ==> h == content || h == max_h || h == most
        }),
{
}

/// What a page falls short of is filled with its background, opaque, and what is over is cut off; the
/// rest is as it was.
pub proof fn law_a_page_is_padded_in_its_own_colour(px: Seq<u8>, w: int, h: int, bg: Rgb, i: int)
    requires
        0 <= i < 4 * (w * h),
    ensures
        ({
            let r = cropped(px, w, h, bg);
            &&& r.len() == 4 * (w * h)
            &&& i < px.len() ==> r[i] == px[i]
            &&& i >= px.len() && i % 4 == 0 ==> r[i] == bg.0
            &&& i >= px.len() && i % 4 == 1 ==> r[i] == bg.1
            &&& i >= px.len() && i % 4 == 2 ==> r[i] == bg.2
            &&& i >= px.len() && i % 4 == 3 ==> r[i] == 255
        }),
{
}

/// A document is the text of its bytes, read as markdown from its first step to its last, and laid out
/// in the room its page has.
pub proof fn law_a_document_is_read_as_markdown(bytes: Seq<u8>, m: Metrics, theme: Theme)
    ensures
        tree_of(bytes) == builder::State::empty().steps(
            event::markdown_steps(text::lossy_text(bytes), 2462),
        ).finish(),
        setting_of(m, theme).frame == frame_of(m),
        setting_of(m, theme).theme == theme,
{
    assert(parse::EXTENSIONS == 2462) by {
        assert(2u32 | 4 | 8 | 16 | 128 | 256 | 2048 == 2462) by (bit_vector);
    }
}

/// The pieces of a page cover it: the first begins at its top, each where the one before ends, and the
/// last ends with it. A piece holds as many whole rows as four million pixels do, and one at least.
pub proof fn law_pieces_cover_the_page(m: Metrics, total: int)
    requires
        m.wf(),
        0 < total <= u32::MAX,
    ensures
        ({
            let p = pieces_of(m, total);
            let tall = piece_height(m);
            &&& p.len() > 0
            &&& p[0].0 == 0
            &&& p.last().0 + p.last().1 == total
            &&& forall|k: int, l: int|
                0 <= k && l == k + 1 && l < p.len() ==> (#[trigger] p[k]).0 + p[k].1 == (
                #[trigger] p[l]).0
            &&& forall|k: int| 0 <= k < p.len() ==> 0 < (#[trigger] p[k]).1 <= tall
            &&& tall >= m.row
            &&& tall % m.row as int == 0
            &&& tall > m.row ==> tall * m.width <= 10_067_968_000_000
            &&& (tall + m.row) * m.width > 10_067_968_000_000
        }),
{
    let area = m.width * m.row;
    assert(area > 0) by (nonlinear_arith)
        requires
            area == m.width * m.row,
            m.width > 0,
            m.row > 0,
    ;
    let most = CHUNK_PIXELS * GRAINS;
    assert(most == 10_067_968_000_000int);
    let q = most / area;
    geometry::lemma_quotient(most as int, area);
    let n = geometry::some(q);
    let tall = piece_height(m);
    let row = m.row as int;
    assert(tall >= row) by (nonlinear_arith)
        requires
            tall == n * row,
            n >= 1,
            row > 0,
    ;
    vstd::arithmetic::div_mod::lemma_mod_multiples_basic(n, row);
    assert(tall * m.width == n * area && (tall + row) * m.width == (n + 1) * area) by (nonlinear_arith)
        requires
            tall == n * row,
            area == m.width * row,
    ;
    if tall > row {
        assert(n > 1) by (nonlinear_arith)
            requires
                tall == n * row,
                tall > row,
                row > 0,
        ;
    }
    assert((n + 1) * area >= (q + 1) * area) by (nonlinear_arith)
        requires
            n >= q,
            area > 0,
    ;
    geometry::law_cuts_cover(total, geometry::capped(tall, u32::MAX as int), 0);
}

} // verus!
