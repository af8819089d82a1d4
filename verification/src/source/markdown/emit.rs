//! A laid-out page as an SVG document.

use vstd::prelude::*;

use crate::geometry;
use crate::source::markdown::layout;
use crate::source::markdown::layout::{Item, ItemDrawn, Page, Rgb};
use crate::source::markdown::page;
use crate::source::markdown::page::{frame, Metrics, ADVANCE};
use crate::source::markdown::to_svg;
use crate::source::markdown::to_svg::{close, open, rect, run, Look};
use crate::text;
use crate::text::push_dec;

verus! {

/// How many ticks a pixel has.
//
// grains are not fine enough: type is measured in hundredths of
// the body's, and its ink in fifths of its size
pub const TICKS: u128 = 1_258_496_000;

/// A font's ascent, in the units its em is given in.
pub const ASCENT: u128 = 1705;

/// A font's descent, in the same units.
//
// ascent and descent together are 1.133 em, so the ink of a line
// is taller than its type size and a row has to be at least that
// much taller again before the text can be moved down inside it
pub const DESCENT: u128 = 615;

/// A count of rows, as far as a page can have them.
pub open spec fn row_count(n: usize) -> int {
    geometry::capped(n as int, u32::MAX as int)
}

/// How wide the content of a page is from column `inset` on, in ticks, and a pixel at least.
pub open spec fn room(m: Metrics, inset: usize) -> int {
    let left = page::frame_of(m).left;
    let inside = 500 * (m.width - 2 * (left * m.advance()));
    let content = if inside < TICKS {
        TICKS as int
    } else {
        inside
    };
    let from = content - inset * (500 * m.advance());
    if from < TICKS {
        TICKS as int
    } else {
        from
    }
}

/// Where column `inset` of the content begins, in ticks.
pub open spec fn edge(m: Metrics, inset: usize) -> int {
    (page::frame_of(m).left + inset) * (500 * m.advance())
}

/// Where a row begins, in ticks.
pub open spec fn row_ticks(m: Metrics, n: usize) -> int {
    row_count(n) * (m.row * TICKS)
}

/// What an item draws, in ticks.
#[verifier::ext_equal]
pub enum Shape {
    Rect { x: int, y: int, w: int, h: int, fill: Rgb },
    Run { x: int, baseline: int, size: int, look: Look, text: Seq<char> },
}

/// A run's type size, in ticks.
pub open spec fn size_ticks(m: Metrics, scale: usize) -> int {
    10240 * (m.size * row_count(scale))
}

/// Where the baseline goes for type in a line box that begins in row `top`: the ink box sits on the
/// bottom of the box.
//
// so the page shares the baseline the terminal draws its
// own text on. that is what puts an underline under the word
// rather than most of a row below it
pub open spec fn baseline(m: Metrics, top: usize, scale: usize) -> int {
    let type_size = m.size * row_count(scale);
    let tall = row_count(layout::rows_for(scale)) * (m.row * TICKS);
    let down = tall - 5 * (DESCENT * type_size);
    let least = 5 * (ASCENT * type_size);
    row_ticks(m, top) + if down > least {
        down
    } else {
        least
    }
}

/// What an item draws.
pub open spec fn shape_of(m: Metrics, i: ItemDrawn) -> Shape {
    match i {
        ItemDrawn::Fill { inset, y, h, fill } => Shape::Rect {
            x: edge(m, inset),
            y: row_ticks(m, y),
            w: room(m, inset),
            h: row_ticks(m, h),
            fill,
        },
        ItemDrawn::Rule { inset, y, span, fill } => Shape::Rect {
            x: edge(m, inset),
            y: row_ticks(m, y) + ((m.row + 1) / 2) * TICKS,
            w: match span {
                Some(n) => n * (500 * m.advance()),
                None => room(m, inset),
            },
            h: TICKS as int,
            fill,
        },
        ItemDrawn::Bar { inset, y, h, fill } => Shape::Rect {
            x: edge(m, inset),
            y: row_ticks(m, y),
            w: if 153_600 * m.size < 2 * TICKS {
                2 * TICKS
            } else {
                153_600 * m.size
            },
            h: if row_ticks(m, h) < TICKS {
                TICKS as int
            } else {
                row_ticks(m, h)
            },
            fill,
        },
        ItemDrawn::Run { x, top, scale, text, bold, italic, strike, fill } => Shape::Run {
            x: x * (5 * m.advance()),
            baseline: baseline(m, top, scale),
            size: size_ticks(m, scale),
            look: Look { bold, italic, strike, fill },
            text,
        },
    }
}

/// Whether a shape puts any ink inside the band of `h` pixels from `from` on. A run's ink reaches
/// 1.2 em above its baseline and 0.4 em below.
pub open spec fn inked(s: Shape, from: int, h: int) -> bool {
    let (top, bottom) = match s {
        Shape::Rect { x, y, w, h, fill } => (y, y + h),
        Shape::Run { x, baseline, size, look, text } => (
            baseline - (6 * size) / 5,
            baseline + (2 * size) / 5,
        ),
    };
    bottom >= from * TICKS && top <= (from + h) * TICKS
}

/// A number of thousandths, in decimal.
pub open spec fn decimal(n: int) -> Seq<char> {
    text::dec((n / 1000) as nat) + "."@ + seq![
        text::digit((n / 100 % 10) as nat),
        text::digit((n / 10 % 10) as nat),
        text::digit((n % 10) as nat),
    ]
}

/// A length in ticks as pixels, to the nearest thousandth.
pub open spec fn pixels(t: int) -> Seq<char> {
    decimal(geometry::nearest(1000 * t, TICKS as int))
}

/// A shape, as an element.
pub open spec fn element(s: Shape) -> Seq<char> {
    match s {
        Shape::Rect { x, y, w, h, fill } => to_svg::rectangle(
            pixels(x),
            pixels(y),
            pixels(w),
            pixels(h),
            fill,
        ),
        Shape::Run { x, baseline, size, look, text } => to_svg::run_of(
            pixels(x),
            pixels(baseline),
            pixels(size),
            look,
            text,
        ),
    }
}

/// The elements of the items that put ink inside a band. The parse and the rasterize then cost what is
/// on screen rather than the length of the document.
pub open spec fn elements(m: Metrics, items: Seq<ItemDrawn>, from: int, h: int) -> Seq<char>
    decreases items.len(),
{
    if items.len() == 0 {
        seq![]
    } else {
        let before = elements(m, items.drop_last(), from, h);
        let s = shape_of(m, items.last());
        if inked(s, from, h) {
            before + element(s)
        } else {
            before
        }
    }
}

/// A number of pixels moved up by, as a shift.
pub open spec fn shift(from: int) -> Seq<char> {
    "-"@ + text::dec(from as nat)
}

/// The width and height that a slice of a page is drawn at: so many pixels, or its own.
pub open spec fn extent(m: Metrics, h: int, size: Option<(u32, u32)>) -> (Seq<char>, Seq<char>) {
    match size {
        None => (pixels(500 * m.width), text::dec(h as nat)),
        Some((w, tall)) => (text::dec(w as nat), text::dec(tall as nat)),
    }
}

/// How a document of a slice of a page begins.
pub open spec fn beginning(m: Metrics, bg: Rgb, from: int, h: int, size: Option<(u32, u32)>) -> Seq<
    char,
> {
    to_svg::opening(
        extent(m, h, size).0,
        extent(m, h, size).1,
        pixels(500 * m.width),
        text::dec(h as nat),
        shift(from),
        bg,
    )
}

/// The slice of a page from pixel `from` on, `h` pixels tall, as a document that is drawn at a size.
pub open spec fn document(
    m: Metrics,
    items: Seq<ItemDrawn>,
    bg: Rgb,
    from: int,
    h: int,
    size: Option<(u32, u32)>,
) -> Seq<char> {
    beginning(m, bg, from, h, size) + elements(m, items, from, h) + "</g></svg>"@
}

proof fn lemma_bound(a: int, la: int, b: int, lb: int)
    requires
        0 <= a <= la,
        0 <= b <= lb,
    ensures
        0 <= a * b <= la * lb,
{
    assert(0 <= a * b <= la * lb) by (nonlinear_arith)
        requires
            0 <= a <= la,
            0 <= b <= lb,
    ;
}

fn push_decimal(out: &mut String, t: u128)
    requires
        t <= 0x1_0000_0000_0000_0000_0000_0000_0000,
    ensures
        final(out)@ == old(out)@ + pixels(t as int),
{
    let n: u128 = (2 * (1000 * t) + TICKS) / (2 * TICKS);
    let whole: u128 = n / 1000;
    proof {
        geometry::lemma_quotient(2 * (1000 * t) + TICKS, 2 * TICKS);
        assert(n <= 0xffff_ffff_ffff_ffff_ffff_ffff) by (nonlinear_arith)
            requires
                n * (2 * 1_258_496_000) <= 2000 * 0x1_0000_0000_0000_0000_0000_0000_0000
                    + 1_258_496_000,
        ;
    }
    push_wide(out, whole);
    out.push_str(".");
    let (a, b, c): (u8, u8, u8) = ((n / 100 % 10) as u8, (n / 10 % 10) as u8, (n % 10) as u8);
    out.push((48 + a) as char);
    out.push((48 + b) as char);
    out.push((48 + c) as char);
    assert(out@ =~= old(out)@ + pixels(t as int));
}

/// Append `n` in decimal.
fn push_wide(out: &mut String, n: u128)
    ensures
        final(out)@ == old(out)@ + text::dec(n as nat),
    decreases n,
{
    if n >= 10 {
        push_wide(out, n / 10);
    }
    let d: u8 = (n % 10) as u8;
    let c: char = (48 + d) as char;
    let ghost before = out@;
    out.push(c);
    assert(out@ =~= old(out)@ + text::dec(n as nat));
}

fn number(t: u128) -> (r: String)
    requires
        t <= 0x1_0000_0000_0000_0000_0000_0000_0000,
    ensures
        r@ == pixels(t as int),
{
    let mut out = String::new();
    push_decimal(&mut out, t);
    assert(out@ =~= pixels(t as int));
    out
}

fn count(n: usize) -> (r: u128)
    ensures
        r == row_count(n),
        r <= 0xffff_ffff,
{
    if n > 0xffff_ffff {
        0xffff_ffff
    } else {
        n as u128
    }
}

/// What a page's lengths are worked out from.
struct Measure {
    left: u128,
    row: u128,
    step: u128,
    content: u128,
    size: u128,
}

impl Measure {
    spec fn of(self, m: Metrics) -> bool {
        &&& self.left == page::frame_of(m).left
        &&& self.left <= 0xffff_ffff_ffff_ffff
        &&& self.row == m.row * TICKS
        &&& self.row <= 0xffff_ffff * 1_258_496_000
        &&& self.step == 500 * m.advance()
        &&& 0 < self.step <= 0xff_ffff_ffff
        &&& self.size == m.size
        &&& self.size <= 0xffff
        &&& ({
            let inside = 500 * (m.width - 2 * (page::frame_of(m).left * m.advance()));
            self.content == if inside < TICKS {
                TICKS as int
            } else {
                inside
            }
        })
        &&& self.content <= 0xffff_ffff_ffff_ffff
    }
}

fn measure(m: &Metrics) -> (r: Measure)
    requires
        m.wf(),
    ensures
        r.of(*m),
{
    let f = frame(m);
    let step: u128 = 500 * (ADVANCE as u128 * m.size as u128);
    let left: u128 = f.left as u128;
    proof {
        lemma_bound(left as int, 0xffff_ffff_ffff_ffff, 2 * step, 2 * 0xff_ffff_ffffint);
        assert(500 * (m.width - 2 * (left * m.advance())) == 500 * m.width - left * (2 * step))
            by (nonlinear_arith)
            requires
                step == 500 * m.advance(),
        ;
    }
    let edges: u128 = left * (2 * step);
    let width: u128 = 500 * m.width as u128;
    let content: u128 = if width < edges || width - edges < TICKS {
        TICKS
    } else {
        width - edges
    };
    Measure { left, row: m.row as u128 * TICKS, step, content, size: m.size as u128 }
}

fn row_at(d: &Measure, n: usize, Ghost(m): Ghost<Metrics>) -> (r: u128)
    requires
        d.of(m),
    ensures
        r == row_ticks(m, n),
        r <= 0xffff_ffff * (0xffff_ffff * 1_258_496_000),
{
    let c: u128 = count(n);
    proof {
        lemma_bound(c as int, 0xffff_ffff, d.row as int, 0xffff_ffffint * 1_258_496_000);
    }
    c * d.row
}

fn edge_at(d: &Measure, inset: usize, Ghost(m): Ghost<Metrics>) -> (r: u128)
    requires
        d.of(m),
    ensures
        r == edge(m, inset),
        r <= 0x1_ffff_ffff_ffff_fffe * 0xff_ffff_ffff,
{
    proof {
        lemma_bound(d.left + inset, 0x1_ffff_ffff_ffff_fffe, d.step as int, 0xff_ffff_ffff);
    }
    (d.left + inset as u128) * d.step
}

fn room_at(d: &Measure, inset: usize, Ghost(m): Ghost<Metrics>) -> (r: u128)
    requires
        d.of(m),
    ensures
        r == room(m, inset),
        r <= 0xffff_ffff_ffff_ffff,
{
    proof {
        lemma_bound(inset as int, 0xffff_ffff_ffff_ffff, d.step as int, 0xff_ffff_ffff);
    }
    let skipped: u128 = inset as u128 * d.step;
    if d.content < skipped || d.content - skipped < TICKS {
        TICKS
    } else {
        d.content - skipped
    }
}

fn in_band(top: i128, bottom: i128, from: u32, h: u32) -> (r: bool)
    ensures
        r == (bottom >= from * TICKS && top <= (from + h) * TICKS),
{
    bottom >= from as i128 * 1_258_496_000 && top <= (from as i128 + h as i128) * 1_258_496_000
}

fn push_rect(out: &mut String, x: u128, y: u128, w: u128, tall: u128, fill: Rgb, from: u32, h: u32)
    requires
        x <= 0x1_0000_0000_0000_0000_0000_0000_0000,
        y <= 0x1_0000_0000_0000_0000_0000_0000_0000,
        w <= 0x1_0000_0000_0000_0000_0000_0000_0000,
        tall <= 0x1_0000_0000_0000_0000_0000_0000_0000,
    ensures
        ({
            let s = Shape::Rect {
                x: x as int,
                y: y as int,
                w: w as int,
                h: tall as int,
                fill,
            };
            final(out)@ == old(out)@ + if inked(s, from as int, h as int) {
                element(s)
            } else {
                seq![]
            }
        }),
{
    if in_band(y as i128, y as i128 + tall as i128, from, h) {
        rect(
            out,
            number(x).as_str(),
            number(y).as_str(),
            number(w).as_str(),
            number(tall).as_str(),
            fill,
        );
    } else {
        assert(out@ + Seq::<char>::empty() =~= out@);
    }
}

fn push_run(
    out: &mut String,
    x: u128,
    base: u128,
    size: u128,
    look: Look,
    t: &str,
    from: u32,
    h: u32,
)
    requires
        x <= 0x1_0000_0000_0000_0000_0000_0000_0000,
        base <= 0x1_0000_0000_0000_0000_0000_0000_0000,
        size <= 0x1_0000_0000_0000_0000_0000_0000_0000,
    ensures
        ({
            let s = Shape::Run {
                x: x as int,
                baseline: base as int,
                size: size as int,
                look,
                text: t@,
            };
            final(out)@ == old(out)@ + if inked(s, from as int, h as int) {
                element(s)
            } else {
                seq![]
            }
        }),
{
    let above: i128 = base as i128 - ((6 * size) / 5) as i128;
    let below: i128 = base as i128 + ((2 * size) / 5) as i128;
    if in_band(above, below, from, h) {
        run(
            out,
            number(x).as_str(),
            number(base).as_str(),
            number(size).as_str(),
            look,
            t,
        );
    } else {
        assert(out@ + Seq::<char>::empty() =~= out@);
    }
}

/// A run's type size and baseline, in ticks.
fn set_type(d: &Measure, top: usize, scale: usize, Ghost(m): Ghost<Metrics>) -> (r: (u128, u128))
    requires
        d.of(m),
    ensures
        r.0 == size_ticks(m, scale),
        r.1 == baseline(m, top, scale),
        r.0 <= 10240 * (0xffff * 0xffff_ffff),
        r.1 <= 2 * (0xffff_ffff * (0xffff_ffff * 1_258_496_000)) + 10000 * (0xffff * 0xffff_ffff),
{
    let c: u128 = count(scale);
    proof {
        lemma_bound(d.size as int, 0xffff, c as int, 0xffff_ffff);
    }
    let type_size: u128 = d.size * c;
    let rows: usize = layout::rows_of(scale);
    let tall: u128 = row_at(d, rows, Ghost(m));
    let under: u128 = 5 * (DESCENT * type_size);
    let least: u128 = 5 * (ASCENT * type_size);
    let down: u128 = if tall > under && tall - under > least {
        tall - under
    } else {
        least
    };
    (10240 * type_size, row_at(d, top, Ghost(m)) + down)
}

/// How large a run's type is and where its baseline goes, in ticks.
pub fn type_at(m: &Metrics, top: usize, scale: usize) -> (r: (u128, u128))
    requires
        m.wf(),
    ensures
        r.0 == size_ticks(*m, scale),
        r.1 == baseline(*m, top, scale),
{
    let d = measure(m);
    set_type(&d, top, scale, Ghost(*m))
}

/// The ink of a line sits inside its box, from the ascent down to the descent, wherever the box is tall
/// enough for both; where it is not, the ascent is kept.
pub proof fn law_ink_sits_inside_its_box(m: Metrics, top: usize, scale: usize)
    requires
        m.wf(),
    ensures
        ({
            let ink = 5 * (m.size * row_count(scale));
            let tall = row_count(layout::rows_for(scale)) * (m.row * TICKS);
            let b = baseline(m, top, scale) - row_ticks(m, top);
            &&& b >= ASCENT * ink
            &&& tall >= (ASCENT + DESCENT) * ink ==> b + DESCENT * ink == tall
            &&& tall < (ASCENT + DESCENT) * ink ==> b == ASCENT * ink
        }),
{
    let type_size = m.size * row_count(scale);
    assert(5 * (DESCENT * type_size) == DESCENT * (5 * type_size));
    assert(5 * (ASCENT * type_size) == ASCENT * (5 * type_size));
}

/// Append what an item draws inside a band.
fn push_item(out: &mut String, d: &Measure, i: &Item, from: u32, h: u32, Ghost(m): Ghost<Metrics>)
    requires
        d.of(m),
    ensures
        ({
            let s = shape_of(m, i@);
            final(out)@ == old(out)@ + if inked(s, from as int, h as int) {
                element(s)
            } else {
                seq![]
            }
        }),
{
    match i {
        Item::Fill { inset, y, h: tall, fill } => {
            push_rect(
                out,
                edge_at(d, *inset, Ghost(m)),
                row_at(d, *y, Ghost(m)),
                room_at(d, *inset, Ghost(m)),
                row_at(d, *tall, Ghost(m)),
                *fill,
                from,
                h,
            );
        },
        Item::Rule { inset, y, span, fill } => {
            let w: u128 = match span {
                Some(n) => {
                    proof {
                        lemma_bound(
                            *n as int,
                            0xffff_ffff_ffff_ffff,
                            d.step as int,
                            0xff_ffff_ffff,
                        );
                    }
                    *n as u128 * d.step
                },
                None => room_at(d, *inset, Ghost(m)),
            };
            let px: u128 = d.row / TICKS;
            let middle: u128 = ((px + 1) / 2) * TICKS;
            push_rect(
                out,
                edge_at(d, *inset, Ghost(m)),
                row_at(d, *y, Ghost(m)) + middle,
                w,
                TICKS,
                *fill,
                from,
                h,
            );
        },
        Item::Bar { inset, y, h: tall, fill } => {
            let thick: u128 = 153_600 * d.size;
            let high: u128 = row_at(d, *tall, Ghost(m));
            push_rect(
                out,
                edge_at(d, *inset, Ghost(m)),
                row_at(d, *y, Ghost(m)),
                if thick < 2 * TICKS {
                    2 * TICKS
                } else {
                    thick
                },
                if high < TICKS {
                    TICKS
                } else {
                    high
                },
                *fill,
                from,
                h,
            );
        },
        Item::Run { x, top, scale, text, bold, italic, strike, fill } => {
            let (size, base) = set_type(d, *top, *scale, Ghost(m));
            let unit: u128 = d.step / 100;
            assert(unit == 5 * m.advance());
            proof {
                lemma_bound(*x as int, 0xffff_ffff_ffff_ffff, unit as int, 0xff_ffff_ffff);
            }
            push_run(
                out,
                *x as u128 * unit,
                base,
                size,
                Look { bold: *bold, italic: *italic, strike: *strike, fill: *fill },
                text.as_str(),
                from,
                h,
            );
        },
    }
}

/// Render the slice of a page from pixel `from` on, `h` pixels tall, to be drawn at a size of so many
/// pixels, or at its own.
pub fn emit(
    page: &Page,
    m: &Metrics,
    bg: Rgb,
    from: u32,
    h: u32,
    size: Option<(u32, u32)>,
) -> (r: String)
    requires
        m.wf(),
    ensures
        r@ == document(*m, layout::items_drawn(page.items@), bg, from as int, h as int, size),
{
    let d = measure(m);
    let mut out = String::new();
    let mut tall = String::new();
    push_dec(&mut tall, h as u64);
    assert(tall@ =~= text::dec(h as nat));
    let mut up = String::new();
    up.push_str("-");
    push_dec(&mut up, from as u64);
    assert(up@ =~= shift(from as int));
    let wide = number(500 * m.width as u128);
    let ghost head = beginning(*m, bg, from as int, h as int, size);
    match size {
        None => {
            open(
                &mut out,
                wide.as_str(),
                tall.as_str(),
                wide.as_str(),
                tall.as_str(),
                up.as_str(),
                bg,
            );
        },
        Some((dw, dh)) => {
            let mut width = String::new();
            push_dec(&mut width, dw as u64);
            assert(width@ =~= text::dec(dw as nat));
            let mut height = String::new();
            push_dec(&mut height, dh as u64);
            assert(height@ =~= text::dec(dh as nat));
            open(
                &mut out,
                width.as_str(),
                height.as_str(),
                wide.as_str(),
                tall.as_str(),
                up.as_str(),
                bg,
            );
        },
    }
    assert(out@ =~= head);
    let ghost all = layout::items_drawn(page.items@);
    let mut i: usize = 0;
    assert(head + elements(*m, all.take(0), from as int, h as int) =~= head);
    while i < page.items.len()
        invariant
            i <= page.items@.len(),
            all == layout::items_drawn(page.items@),
            d.of(*m),
            out@ == head + elements(*m, all.take(i as int), from as int, h as int),
        decreases page.items.len() - i,
    {
        assert(all.take(i + 1).drop_last() =~= all.take(i as int));
        assert(all.take(i + 1).last() == page.items@[i as int]@);
        push_item(&mut out, &d, &page.items[i], from, h, Ghost(*m));
        assert(out@ =~= head + elements(*m, all.take(i + 1), from as int, h as int));
        i += 1;
    }
    assert(all.take(i as int) =~= all);
    close(&mut out);
    assert(out@ =~= document(*m, all, bg, from as int, h as int, size));
    out
}

/// Drawing in bands loses nothing: what puts ink inside a page puts it inside one of any two bands
/// that meet.
pub proof fn law_bands_lose_no_ink(m: Metrics, i: ItemDrawn, from: int, a: int, b: int)
    requires
        a >= 0,
        b >= 0,
        inked(shape_of(m, i), from, a + b),
    ensures
        inked(shape_of(m, i), from, a) || inked(shape_of(m, i), from + a, b),
{
    match i {
        ItemDrawn::Fill { inset, y, h, fill } => {
            lemma_bound(row_count(h), 0xffff_ffff, m.row * TICKS, m.row * TICKS);
        },
        ItemDrawn::Rule { inset, y, span, fill } => {},
        ItemDrawn::Bar { inset, y, h, fill } => {},
        ItemDrawn::Run { x, top, scale, text, bold, italic, strike, fill } => {
            lemma_bound(m.size as int, 0xffff_ffff, row_count(scale), 0xffff_ffff);
        },
    }
}

/// A run of text is drawn where it stands and as it looks: so many hundredths of a column across, in
/// type so many hundredths of the body's, which is a pixel to so many 1229ths, with its own weight,
/// slant, stroke, colour and words.
pub proof fn law_a_run_is_drawn_where_it_stands(
    m: Metrics,
    x: usize,
    top: usize,
    scale: usize,
    text: Seq<char>,
    bold: bool,
    italic: bool,
    strike: bool,
    fill: Rgb,
)
    requires
        scale <= u32::MAX,
    ensures
        shape_of(m, ItemDrawn::Run { x, top, scale, text, bold, italic, strike, fill }) matches Shape::Run {
            x: at,
            baseline: on,
            size,
            look,
            text: said,
        } && {
            &&& 100 * at == x * (500 * m.advance())
            &&& (100 * 1229) * size == (scale * m.size) * 1_258_496_000
            &&& on == baseline(m, top, scale)
            &&& look.bold == bold
            &&& look.italic == italic
            &&& look.strike == strike
            &&& look.fill == fill
            &&& said == text
        },
{
    let a = m.advance();
    assert(100 * (x * (5 * a)) == x * (500 * a)) by (nonlinear_arith);
    let (s, k) = (m.size as int, scale as int);
    assert((100 * 1229) * (10240 * (s * k)) == (k * s) * 1_258_496_000) by (nonlinear_arith);
}

/// A page's blocks, rules and bars are drawn where they stand: on the columns and rows that they take,
/// a block and a rule without a span as far as the content goes, a rule a pixel tall half a row down,
/// a bar as tall as it is asked to be, and each in its own colour.
pub proof fn law_blocks_are_drawn_where_they_stand(
    m: Metrics,
    inset: usize,
    y: usize,
    h: usize,
    span: usize,
    fill: Rgb,
)
    requires
        m.wf(),
        y <= u32::MAX,
        1 <= h <= u32::MAX,
    ensures
        ({
            let left = (page::frame_of(m).left + inset) * (500 * m.advance());
            let down = y * (m.row * 1_258_496_000);
            let tall = h * (m.row * 1_258_496_000);
            let column = 500 * m.advance();
            &&& shape_of(m, ItemDrawn::Fill { inset, y, h, fill }) == (Shape::Rect {
                x: left,
                y: down,
                w: room(m, inset),
                h: tall,
                fill,
            })
            &&& shape_of(m, ItemDrawn::Rule { inset, y, span: Some(span), fill }) == (Shape::Rect {
                x: left,
                y: down + ((m.row + 1) / 2) * 1_258_496_000,
                w: span * column,
                h: 1_258_496_000,
                fill,
            })
            &&& shape_of(m, ItemDrawn::Rule { inset, y, span: None, fill }) == (Shape::Rect {
                x: left,
                y: down + ((m.row + 1) / 2) * 1_258_496_000,
                w: room(m, inset),
                h: 1_258_496_000,
                fill,
            })
            &&& shape_of(m, ItemDrawn::Bar { inset, y, h, fill }) matches Shape::Rect {
                x,
                y: from,
                w,
                h: bar,
                fill: colour,
            } && x == left && from == down && bar == tall && colour == fill
                && (3_775_488_000 * m.size >= 61_867_663_360_000 ==> 24_580 * w == 3_775_488_000 * m.size) && (
            3_775_488_000 * m.size < 61_867_663_360_000 ==> w == 2_516_992_000)
            &&& room(m, inset) >= 1_258_496_000
            &&& room(m, inset) == 1_258_496_000 || inset * column + room(m, inset) == room(m, 0)
        }),
{
    let r = m.row * TICKS;
    assert(h * r >= TICKS) by (nonlinear_arith)
        requires
            h >= 1,
            r >= 1_258_496_000,
            TICKS == 1_258_496_000,
    ;
    assert(0 * (500 * m.advance()) == 0) by (nonlinear_arith);
    let left = (page::frame_of(m).left + inset) * (500 * m.advance());
    let down = y * (m.row * 1_258_496_000);
    let tall = h * (m.row * 1_258_496_000);
    assert(edge(m, inset) == left);
    assert(row_ticks(m, y) == down);
    assert(row_ticks(m, h) == tall);
    assert(room(m, 0) >= TICKS);
}

/// The right edge of the content is the same from every column that lies left of it: as far from the
/// right edge of the page as the content's left edge is from the left.
pub proof fn law_content_lies_between_the_margins(m: Metrics)
    requires
        m.wf(),
    ensures
        room(m, 0) == 1_258_496_000 || edge(m, 0) + room(m, 0) + edge(m, 0) == 500 * m.width,
{
    let left = page::frame_of(m).left as int;
    let a = m.advance();
    assert((left + 0) * (500 * a) == 500 * (left * a)) by (nonlinear_arith);
    assert(0 * (500 * a) == 0) by (nonlinear_arith);
}

/// Whatever reaches into a band is drawn in it: a rectangle that has any of its rows in it, and a run
/// whose baseline is, or whose ascent above it or descent below it.
pub proof fn law_what_reaches_into_a_band_is_drawn(s: Shape, from: int, h: int)
    ensures
        s matches Shape::Rect { y, h: tall, .. } ==> (y <= (from + h) * 1_258_496_000 && y + tall >= from
            * 1_258_496_000 ==> inked(s, from, h)),
        s matches Shape::Run { baseline, size, .. } ==> (size >= 0 && baseline - size <= (from + h)
            * 1_258_496_000 && 3 * baseline + size >= 3 * (from * 1_258_496_000) ==> inked(s, from, h)),
{
}

/// A page is drawn in painter's order: what comes later is drawn over what came before, and each item
/// by itself is the element of its shape, or nothing where it puts no ink inside the band.
pub proof fn law_later_is_drawn_over_earlier(
    m: Metrics,
    a: Seq<ItemDrawn>,
    b: Seq<ItemDrawn>,
    i: ItemDrawn,
    from: int,
    h: int,
)
    ensures
        elements(m, a + b, from, h) == elements(m, a, from, h) + elements(m, b, from, h),
        inked(shape_of(m, i), from, h) ==> elements(m, seq![i], from, h) == element(shape_of(m, i)),
        !inked(shape_of(m, i), from, h) ==> elements(m, seq![i], from, h).len() == 0,
{
    lemma_elements_join(m, a, b, from, h);
    let one = seq![i];
    assert(one.drop_last() =~= seq![]);
    let none = elements(m, one.drop_last(), from, h);
    assert(none =~= seq![]);
    lemma_nothing_before(none, element(shape_of(m, i)));
}

proof fn lemma_nothing_before(none: Seq<char>, a: Seq<char>)
    requires
        none.len() == 0,
    ensures
        none + a == a,
        a + none == a,
{
    assert(none + a =~= a);
    assert(a + none =~= a);
}

proof fn lemma_joins(a: Seq<char>, b: Seq<char>, c: Seq<char>)
    ensures
        (a + b) + c == a + (b + c),
{
    assert((a + b) + c =~= a + (b + c));
}

proof fn lemma_elements_join(
    m: Metrics,
    a: Seq<ItemDrawn>,
    b: Seq<ItemDrawn>,
    from: int,
    h: int,
)
    ensures
        elements(m, a + b, from, h) == elements(m, a, from, h) + elements(m, b, from, h),
    decreases b.len(),
{
    if b.len() == 0 {
        assert(a + b =~= a);
        lemma_nothing_before(elements(m, b, from, h), elements(m, a, from, h));
    } else {
        assert((a + b).drop_last() =~= a + b.drop_last());
        assert((a + b).last() == b.last());
        lemma_elements_join(m, a, b.drop_last(), from, h);
        lemma_joins(
            elements(m, a, from, h),
            elements(m, b.drop_last(), from, h),
            element(shape_of(m, b.last())),
        );
    }
}

/// A shape's element writes its own lengths in pixels, its own look and its own words.
pub proof fn law_a_shape_is_written_as_it_is(
    x: int,
    y: int,
    w: int,
    h: int,
    fill: Rgb,
    look: Look,
    text: Seq<char>,
)
    ensures
        element(Shape::Rect { x, y, w, h, fill }) == "<rect x='"@ + pixels(x) + "' y='"@ + pixels(y)
            + "' width='"@ + pixels(w) + "' height='"@ + pixels(h) + "' fill='"@ + to_svg::hex_of(fill)
            + "'/>"@,
        element(Shape::Run { x, baseline: y, size: h, look, text }) == "<text x='"@ + pixels(x)
            + "' y='"@ + pixels(y) + "' font-size='"@ + pixels(h) + "'"@ + to_svg::look_of(look) + ">"@
            + to_svg::escaped(text) + "</text>"@,
{
}

/// A length is written in pixels to the nearest thousandth: whole pixels, a point, and three digits
/// that write the thousandths.
pub proof fn law_a_length_is_written_in_pixels(t: int)
    requires
        0 <= t,
    ensures
        ({
            let s = pixels(t);
            let n = s.len() - 4;
            let whole = text::digits_value(s.take(n));
            let part = text::digits_value(s.skip(n + 1));
            let thousandths = (1000 * whole + part) as int;
            &&& n >= 1
            &&& s[n] == '.'
            &&& text::all_digits(s.take(n))
            &&& text::all_digits(s.skip(n + 1))
            &&& 2 * (thousandths * 1_258_496_000 - 1000 * t) <= 1_258_496_000
            &&& 2 * (1000 * t - thousandths * 1_258_496_000) <= 1_258_496_000
        }),
{
    let k = geometry::nearest(1000 * t, TICKS as int);
    geometry::lemma_quotient(2 * (1000 * t) + TICKS, 2 * TICKS);
    lemma_decimal(k);
    assert(2 * (k * 1_258_496_000 - 1000 * t) <= 1_258_496_000 && 2 * (1000 * t - k * 1_258_496_000)
        <= 1_258_496_000) by (nonlinear_arith)
        requires
            k * (2 * 1_258_496_000) <= 2 * (1000 * t) + 1_258_496_000 < (k + 1) * (2 * 1_258_496_000),
    ;
}

proof fn lemma_decimal(k: int)
    requires
        0 <= k,
    ensures
        ({
            let s = decimal(k);
            let n = s.len() - 4;
            &&& n >= 1
            &&& s[n] == '.'
            &&& text::all_digits(s.take(n))
            &&& text::all_digits(s.skip(n + 1))
            &&& 1000 * text::digits_value(s.take(n)) + text::digits_value(s.skip(n + 1)) == k
        }),
{
    let s = decimal(k);
    let d = text::dec((k / 1000) as nat);
    text::law_a_number_reads_back((k / 1000) as nat);
    let (a, b, c) = ((k / 100 % 10) as nat, (k / 10 % 10) as nat, (k % 10) as nat);
    let tail = seq![text::digit(a), text::digit(b), text::digit(c)];
    reveal_strlit(".");
    let n = s.len() - 4;
    assert(s.take(n) =~= d);
    assert(s.skip(n + 1) =~= tail);
    lemma_three_digits(a, b, c);
    lemma_thousandths(k);
}

proof fn lemma_thousandths(k: int)
    requires
        0 <= k,
    ensures
        1000 * (k / 1000) + 100 * (k / 100 % 10) + 10 * (k / 10 % 10) + k % 10 == k,
{
    let (a, b, c) = (k / 10, k / 100, k / 1000);
    assert(b == a / 10 && c == b / 10);
    assert(k == 10 * a + k % 10);
    assert(a == 10 * b + a % 10);
    assert(b == 10 * c + b % 10);
}

proof fn lemma_three_digits(a: nat, b: nat, c: nat)
    requires
        a < 10,
        b < 10,
        c < 10,
    ensures
        text::digits_value(seq![text::digit(a), text::digit(b), text::digit(c)]) == 100 * a + 10 * b
            + c,
        text::all_digits(seq![text::digit(a), text::digit(b), text::digit(c)]),
{
    let t = seq![text::digit(a), text::digit(b), text::digit(c)];
    let two = seq![text::digit(a), text::digit(b)];
    let one = seq![text::digit(a)];
    assert(t.drop_last() =~= two);
    assert(two.drop_last() =~= one);
    assert(one.drop_last() =~= seq![]);
    assert(text::digits_value(one.drop_last()) == 0);
    assert(text::digits_value(one) == a);
    assert(text::digits_value(two) == 10 * a + b);
}

/// A slice of a page is a document that shows as many of its pixels, from where the slice begins: it is
/// drawn at its own size or the one it was asked for, moved up by what lies above it.
pub proof fn law_a_slice_shows_what_lies_in_it(
    m: Metrics,
    items: Seq<ItemDrawn>,
    bg: Rgb,
    from: u32,
    h: u32,
    w: u32,
    tall: u32,
)
    ensures
        ({
            let wide = pixels(500 * m.width);
            let high = text::dec(h as nat);
            let up = "-"@ + text::dec(from as nat);
            let drawn = elements(m, items, from as int, h as int) + "</g></svg>"@;
            &&& document(m, items, bg, from as int, h as int, None) == to_svg::opening(
                wide,
                high,
                wide,
                high,
                up,
                bg,
            ) + drawn
            &&& document(m, items, bg, from as int, h as int, Some((w, tall))) == to_svg::opening(
                text::dec(w as nat),
                text::dec(tall as nat),
                wide,
                high,
                up,
                bg,
            ) + drawn
        }),
{
    let drawn = elements(m, items, from as int, h as int) + "</g></svg>"@;
    assert(document(m, items, bg, from as int, h as int, None) =~= beginning(
        m,
        bg,
        from as int,
        h as int,
        None,
    ) + drawn);
    assert(document(m, items, bg, from as int, h as int, Some((w, tall))) =~= beginning(
        m,
        bg,
        from as int,
        h as int,
        Some((w, tall)),
    ) + drawn);
}

} // verus!
