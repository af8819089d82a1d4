//! Which part of a picture or a page is seen.
//
// positions are whole numbers of a unit that a half, a fifth and
// a sixth of a pixel and every row of a page are multiples of,
// so nothing here is rounded but where it says so

use vstd::prelude::*;

use crate::geometry;
use crate::geometry::CellSize;
use crate::render::kitty::Placement;
use crate::source::index::Index;
use crate::source::Kind;

verus! {

/// One piece of the page, transmitted under an id of its own.
#[derive(Clone, Copy, Debug, PartialEq, Eq, Structural)]
pub struct Band {
    /// The top of this band, in page pixels.
    pub y: u32,
    pub h: u32,
    /// The id the terminal holds it under.
    pub id: u32,
}

/// What is on screen.
#[derive(Debug)]
pub struct Shown {
    /// The size of the whole page, in pixels.
    pub w: u32,
    pub h: u32,
    /// The page in bands, top to bottom.
    //
    // the terminal holds all of them, so scrolling is a source
    // rectangle it already has the pixels for. Handing it a
    // screenful at a time instead made it load an image per
    // keypress, which is what made scrolling drag. the bands
    // exist because a terminal will refuse one image this
    // large, not so that they can be cut again
    pub bands: Vec<Band>,
    pub kind: Kind,
    /// The size of a terminal cell, in the terminal's pixels.
    pub cell: CellSize,
    /// How many of the terminal's pixels one pixel of the image stands for, as a fraction: one,
    /// unless the cap shrank the image.
    pub num: u32,
    pub den: u32,
    /// Where the words are, for a document; `None` for a picture.
    pub index: Option<Index>,
}

/// How many times closer than at rest a picture is seen, as a fraction.
#[derive(Clone, Copy, Debug, PartialEq, Eq, Structural)]
pub struct Zoom {
    pub num: u64,
    pub den: u64,
}

/// The most a zoom's numerator or denominator counts to.
pub const ZOOM_LIMIT: u64 = 0x10_0000_0000;

/// The closest a picture is seen.
pub const MAX_ZOOM: u64 = 32;

impl Zoom {
    /// Whether the zoom is at rest or closer, and no closer than there is.
    pub open spec fn wf(self) -> bool {
        &&& 0 < self.den <= self.num <= MAX_ZOOM * self.den
        &&& self.num <= ZOOM_LIMIT
    }
}

/// Which part of the image the viewer is looking at.
#[derive(Clone, Copy, Debug, PartialEq, Eq, Structural)]
pub struct Aim {
    pub zoom: Zoom,
    /// The source column held at the centre of the viewport, in units.
    pub cx: i128,
    /// The source row held at the centre of the viewport, in units.
    pub cy: i128,
    /// The page's row of the heading last moved to.
    pub heading: Option<usize>,
}

/// The furthest from the image a viewport is centred, in units.
pub const FAR: i128 = 0x0100_0000_0000_0000_0000_0000_0000_0000;

impl Aim {
    /// Whether the view is one there can be.
    pub open spec fn wf(self) -> bool {
        &&& self.zoom.wf()
        &&& -FAR <= self.cx <= FAR
        &&& -FAR <= self.cy <= FAR
    }
}

impl Shown {
    /// Whether a cell has a size and a pixel stands for something, and the page's type is of a size
    /// a page has.
    pub open spec fn wf(self) -> bool {
        &&& 0 < self.cell.w
        &&& 0 < self.cell.h
        &&& 0 < self.num
        &&& 0 < self.den
        &&& self.index matches Some(ix) ==> ix.column <= 0xffff
    }

    /// How wide the image is.
    pub open spec fn wide(self) -> int {
        geometry::some(self.w as int)
    }

    /// How tall the image is.
    pub open spec fn tall(self) -> int {
        geometry::some(self.h as int)
    }

    /// How many units a pixel of the image has.
    pub open spec fn unit(self) -> int {
        30 * self.num
    }
}

/// Whether a terminal has a size that fits what a kernel reports one in.
pub open spec fn reported(cells: (u32, u32)) -> bool {
    cells.0 <= 0xffff && cells.1 <= 0xffff
}

/// How many columns there are to draw in.
pub open spec fn cols_in(cells: (u32, u32)) -> int {
    geometry::some(cells.0 as int)
}

/// How many rows there are to draw in: one is held back for the status line.
pub open spec fn rows_in(cells: (u32, u32)) -> int {
    geometry::some(cells.1 - 1)
}

/// What keeps an image at rest from being larger.
#[derive(Clone, Copy, Debug, PartialEq, Eq, Structural)]
pub enum Limit {
    /// Its own pixels.
    Own,
    /// The width of the viewport.
    Width,
    /// The height of the viewport.
    Height,
}

/// What keeps an image at rest from being larger. A page is held to the width alone: fitting the
/// height too would shrink a long page until the text was unreadable. A picture is fitted whole, and
/// never enlarged past its own pixels.
pub open spec fn limit_of(s: Shown, cells: (u32, u32)) -> Limit {
    let across = cols_in(cells) * s.cell.w;
    let down = rows_in(cells) * s.cell.h;
    let wide_enough = across * s.den >= s.wide() * s.num;
    let tall_enough = down * s.den >= s.tall() * s.num;
    match s.kind {
        Kind::Document => if wide_enough {
            Limit::Own
        } else {
            Limit::Width
        },
        Kind::Image => if wide_enough && tall_enough {
            Limit::Own
        } else if across * s.tall() <= down * s.wide() {
            Limit::Width
        } else {
            Limit::Height
        },
    }
}

/// How many pixels of the image the viewport has room for across, as a fraction.
pub open spec fn room_across(s: Shown, z: Zoom, cells: (u32, u32)) -> (int, int) {
    let across = cols_in(cells) * s.cell.w;
    let down = rows_in(cells) * s.cell.h;
    match limit_of(s, cells) {
        Limit::Own => (across * s.den * z.den, s.num * z.num),
        Limit::Width => (s.wide() * z.den, z.num as int),
        Limit::Height => (across * s.tall() * z.den, down * z.num),
    }
}

/// How many pixels of the image the viewport has room for down, as a fraction.
pub open spec fn room_down(s: Shown, z: Zoom, cells: (u32, u32)) -> (int, int) {
    let across = cols_in(cells) * s.cell.w;
    let down = rows_in(cells) * s.cell.h;
    match limit_of(s, cells) {
        Limit::Own => (down * s.den * z.den, s.num * z.num),
        Limit::Width => (down * s.wide() * z.den, across * z.num),
        Limit::Height => (s.tall() * z.den, z.num as int),
    }
}

/// How many cells the image would cover across, as a fraction.
pub open spec fn cover_across(s: Shown, z: Zoom, cells: (u32, u32)) -> (int, int) {
    let down = rows_in(cells) * s.cell.h;
    match limit_of(s, cells) {
        Limit::Own => (s.wide() * s.num * z.num, s.cell.w * s.den * z.den),
        Limit::Width => (cols_in(cells) * z.num, z.den as int),
        Limit::Height => (down * s.wide() * z.num, s.tall() * s.cell.w * z.den),
    }
}

/// How many cells the image would cover down, as a fraction.
pub open spec fn cover_down(s: Shown, z: Zoom, cells: (u32, u32)) -> (int, int) {
    let across = cols_in(cells) * s.cell.w;
    match limit_of(s, cells) {
        Limit::Own => (s.tall() * s.num * z.num, s.cell.h * s.den * z.den),
        Limit::Width => (across * s.tall() * z.num, s.wide() * s.cell.h * z.den),
        Limit::Height => (rows_in(cells) * z.num, z.den as int),
    }
}

/// `n`, or the nearest there is to it from `lo` to `hi`.
pub open spec fn between(n: int, lo: int, hi: int) -> int {
    if n < lo {
        lo
    } else if n > hi {
        hi
    } else {
        n
    }
}

/// A fraction, rounded up.
pub open spec fn up(f: (int, int)) -> int {
    (f.0 + f.1 - 1) / f.1
}

/// How many pixels of the image are seen across.
pub open spec fn seen_across(s: Shown, z: Zoom, cells: (u32, u32)) -> int {
    let f = room_across(s, z, cells);
    between(geometry::nearest(f.0, f.1), 1, s.wide())
}

/// How many pixels of the image are seen down.
pub open spec fn seen_down(s: Shown, z: Zoom, cells: (u32, u32)) -> int {
    let f = room_down(s, z, cells);
    between(geometry::nearest(f.0, f.1), 1, s.tall())
}

/// How many cells the image is drawn in across.
pub open spec fn box_across(s: Shown, z: Zoom, cells: (u32, u32)) -> int {
    between(up(cover_across(s, z, cells)), 1, cols_in(cells))
}

/// How many cells the image is drawn in down.
pub open spec fn box_down(s: Shown, z: Zoom, cells: (u32, u32)) -> int {
    between(up(cover_down(s, z, cells)), 1, rows_in(cells))
}

/// Half of what is seen down, in units.
pub open spec fn half_down(s: Shown, z: Zoom, cells: (u32, u32)) -> int {
    seen_down(s, z, cells) * (15 * s.num)
}

/// Half of what is seen across, in units.
pub open spec fn half_across(s: Shown, z: Zoom, cells: (u32, u32)) -> int {
    seen_across(s, z, cells) * (15 * s.num)
}

/// Where the viewport may be centred down, so that it shows nothing but the image: at most here.
pub open spec fn lowest(s: Shown, z: Zoom, cells: (u32, u32)) -> int {
    s.tall() * s.unit() - half_down(s, z, cells)
}

/// The top of what is seen, in units.
pub open spec fn top_of(s: Shown, v: Aim, cells: (u32, u32)) -> int {
    between(
        v.cy - half_down(s, v.zoom, cells),
        0,
        (s.tall() - seen_down(s, v.zoom, cells)) * s.unit(),
    )
}

/// The left edge of what is seen, in units.
pub open spec fn left_of(s: Shown, v: Aim, cells: (u32, u32)) -> int {
    between(
        v.cx - half_across(s, v.zoom, cells),
        0,
        (s.wide() - seen_across(s, v.zoom, cells)) * s.unit(),
    )
}

/// Where an image sits relative to the text: a page is written over, a picture is not.
pub open spec fn layer(kind: Kind) -> i32 {
    match kind {
        Kind::Document => (-1) as i32,
        Kind::Image => 0,
    }
}

/// The source rectangle and the cells it is drawn in. The terminal does the scaling: the rectangle is
/// stretched to fill the cell box, so panning and zooming never re-encode a pixel.
pub open spec fn placement_of(s: Shown, v: Aim, cells: (u32, u32)) -> Placement {
    Placement {
        src_x: (left_of(s, v, cells) / s.unit()) as u32,
        src_y: (top_of(s, v, cells) / s.unit()) as u32,
        src_w: seen_across(s, v.zoom, cells) as u32,
        src_h: seen_down(s, v.zoom, cells) as u32,
        z: layer(s.kind),
        cols: box_across(s, v.zoom, cells) as u32,
        rows: box_down(s, v.zoom, cells) as u32,
    }
}

/// Factors within bounds multiply to within the bounds' product.
proof fn lemma_bound(a: int, la: int, b: int, lb: int)
    requires
        0 <= a <= la,
        0 <= b <= lb,
    ensures
        0 <= a * b <= la * lb,
{
    assert(0 <= a * b <= la * lb) by (nonlinear_arith)
        requires
            0 <= a <= la,
            0 <= b <= lb,
    ;
}

proof fn lemma_positive(a: int, b: int)
    requires
        0 < a,
        0 < b,
    ensures
        0 < a * b,
{
    assert(0 < a * b) by (nonlinear_arith)
        requires
            0 < a,
            0 < b,
    ;
}

/// The numbers a view is worked out from.
struct Sides {
    wide: u128,
    tall: u128,
    cols: u128,
    rows: u128,
    across: u128,
    down: u128,
    limit: Limit,
}

impl Sides {
    spec fn of(self, s: Shown, cells: (u32, u32)) -> bool {
        &&& self.wide == s.wide()
        &&& self.tall == s.tall()
        &&& self.cols == cols_in(cells)
        &&& self.rows == rows_in(cells)
        &&& self.across == cols_in(cells) * s.cell.w
        &&& self.down == rows_in(cells) * s.cell.h
        &&& self.limit == limit_of(s, cells)
        &&& 1 <= self.wide <= 0xffff_ffff
        &&& 1 <= self.tall <= 0xffff_ffff
        &&& 1 <= self.cols <= 0xffff
        &&& 1 <= self.rows <= 0xffff
        &&& 1 <= self.across <= 0xffff * 0xffff_ffff
        &&& 1 <= self.down <= 0xffff * 0xffff_ffff
    }
}

fn sides(s: &Shown, cells: (u32, u32)) -> (r: Sides)
    requires
        s.wf(),
        reported(cells),
    ensures
        r.of(*s, cells),
{
    let wide: u128 = if s.w < 1 {
        1
    } else {
        s.w as u128
    };
    let tall: u128 = if s.h < 1 {
        1
    } else {
        s.h as u128
    };
    let cols: u128 = if cells.0 < 1 {
        1
    } else {
        cells.0 as u128
    };
    let rows: u128 = if cells.1 < 2 {
        1
    } else {
        (cells.1 - 1) as u128
    };
    proof {
        lemma_bound(cols as int, 0xffff, s.cell.w as int, 0xffff_ffff);
        lemma_bound(rows as int, 0xffff, s.cell.h as int, 0xffff_ffff);
        lemma_positive(cols as int, s.cell.w as int);
        lemma_positive(rows as int, s.cell.h as int);
    }
    let across: u128 = cols * s.cell.w as u128;
    let down: u128 = rows * s.cell.h as u128;
    proof {
        let most = 0xffffint * 0xffff_ffff;
        lemma_bound(across as int, most, s.den as int, 0xffff_ffff);
        lemma_bound(down as int, most, s.den as int, 0xffff_ffff);
        lemma_bound(wide as int, 0xffff_ffff, s.num as int, 0xffff_ffff);
        lemma_bound(tall as int, 0xffff_ffff, s.num as int, 0xffff_ffff);
        lemma_bound(across as int, most, tall as int, 0xffff_ffff);
        lemma_bound(down as int, most, wide as int, 0xffff_ffff);
    }
    let wide_enough = across * s.den as u128 >= wide * s.num as u128;
    let tall_enough = down * s.den as u128 >= tall * s.num as u128;
    let limit = match s.kind {
        Kind::Document => if wide_enough {
            Limit::Own
        } else {
            Limit::Width
        },
        Kind::Image => if wide_enough && tall_enough {
            Limit::Own
        } else if across * tall <= down * wide {
            Limit::Width
        } else {
            Limit::Height
        },
    };
    Sides { wide, tall, cols, rows, across, down, limit }
}

/// A product of three within the bounds sides and zooms have.
fn product(a: u128, b: u128, c: u64) -> (r: u128)
    requires
        a <= 0xffff * 0xffff_ffff,
        b <= 0xffff_ffff,
        c <= ZOOM_LIMIT,
    ensures
        r == a * b * c,
        r <= 0xffff * 0xffff_ffff * 0xffff_ffff * 0x10_0000_0000,
        a > 0 && b > 0 && c > 0 ==> r > 0,
{
    proof {
        let most = 0xffffint * 0xffff_ffff;
        lemma_bound(a as int, most, b as int, 0xffff_ffff);
        lemma_bound(a * b, most * 0xffff_ffff, c as int, 0x10_0000_0000);
        if a > 0 && b > 0 && c > 0 {
            lemma_positive(a as int, b as int);
            lemma_positive(a * b, c as int);
        }
    }
    a * b * c as u128
}

/// A fraction to the nearest whole, from 1 to `hi`.
fn nearest_up_to(num: u128, den: u128, hi: u128) -> (r: u32)
    requires
        num <= 0xffff * 0xffff_ffff * 0xffff_ffff * 0x10_0000_0000,
        0 < den <= 0xffff * 0xffff_ffff * 0xffff_ffff * 0x10_0000_0000,
        1 <= hi <= 0xffff_ffff,
    ensures
        r == between(geometry::nearest(num as int, den as int), 1, hi as int),
{
    let n: u128 = (2 * num + den) / (2 * den);
    if n < 1 {
        1
    } else if n > hi {
        hi as u32
    } else {
        n as u32
    }
}

/// A fraction rounded up, from 1 to `hi`.
fn up_to(num: u128, den: u128, hi: u128) -> (r: u32)
    requires
        num <= 0xffff * 0xffff_ffff * 0xffff_ffff * 0x10_0000_0000,
        0 < den <= 0xffff * 0xffff_ffff * 0xffff_ffff * 0x10_0000_0000,
        1 <= hi <= 0xffff_ffff,
    ensures
        r == between(up((num as int, den as int)), 1, hi as int),
{
    let n: u128 = (num + den - 1) / den;
    if n < 1 {
        1
    } else if n > hi {
        hi as u32
    } else {
        n as u32
    }
}

/// How many pixels of the image are seen, across and down.
pub fn seen(s: &Shown, z: Zoom, cells: (u32, u32)) -> (r: (u32, u32))
    requires
        s.wf(),
        z.wf(),
        reported(cells),
    ensures
        r.0 == seen_across(*s, z, cells),
        r.1 == seen_down(*s, z, cells),
        1 <= r.0 <= s.wide(),
        1 <= r.1 <= s.tall(),
{
    let d = sides(s, cells);
    let one: u128 = 1;
    match d.limit {
        Limit::Own => {
            let den: u128 = product(s.num as u128, one, z.num);
            assert(s.num * 1 * z.num == s.num * z.num);
            (
                nearest_up_to(product(d.across, s.den as u128, z.den), den, d.wide),
                nearest_up_to(product(d.down, s.den as u128, z.den), den, d.tall),
            )
        },
        Limit::Width => {
            let num: u128 = product(d.wide, one, z.den);
            let den: u128 = product(d.across, one, z.num);
            assert(d.wide * 1 * z.den == d.wide * z.den);
            assert(d.across * 1 * z.num == d.across * z.num);
            (
                nearest_up_to(num, z.num as u128, d.wide),
                nearest_up_to(product(d.down, d.wide, z.den), den, d.tall),
            )
        },
        Limit::Height => {
            let num: u128 = product(d.tall, one, z.den);
            let den: u128 = product(d.down, one, z.num);
            assert(d.tall * 1 * z.den == d.tall * z.den);
            assert(d.down * 1 * z.num == d.down * z.num);
            (
                nearest_up_to(product(d.across, d.tall, z.den), den, d.wide),
                nearest_up_to(num, z.num as u128, d.tall),
            )
        },
    }
}

/// How many cells the image is drawn in, across and down.
pub fn boxed(s: &Shown, z: Zoom, cells: (u32, u32)) -> (r: (u32, u32))
    requires
        s.wf(),
        z.wf(),
        reported(cells),
    ensures
        r.0 == box_across(*s, z, cells),
        r.1 == box_down(*s, z, cells),
        1 <= r.0 <= cols_in(cells),
        1 <= r.1 <= rows_in(cells),
{
    let d = sides(s, cells);
    let one: u128 = 1;
    match d.limit {
        Limit::Own => (
            up_to(
                product(d.wide, s.num as u128, z.num),
                product(s.cell.w as u128, s.den as u128, z.den),
                d.cols,
            ),
            up_to(
                product(d.tall, s.num as u128, z.num),
                product(s.cell.h as u128, s.den as u128, z.den),
                d.rows,
            ),
        ),
        Limit::Width => {
            let num: u128 = product(d.cols, one, z.num);
            assert(d.cols * 1 * z.num == d.cols * z.num);
            (
                up_to(num, z.den as u128, d.cols),
                up_to(
                    product(d.across, d.tall, z.num),
                    product(d.wide, s.cell.h as u128, z.den),
                    d.rows,
                ),
            )
        },
        Limit::Height => {
            let num: u128 = product(d.rows, one, z.num);
            assert(d.rows * 1 * z.num == d.rows * z.num);
            (
                up_to(
                    product(d.down, d.wide, z.num),
                    product(d.tall, s.cell.w as u128, z.den),
                    d.cols,
                ),
                up_to(num, z.den as u128, d.rows),
            )
        },
    }
}

/// Where a viewport may stand along one side of the image, in units: half of it, and the furthest
/// it may begin.
struct Reach {
    half: i128,
    end: i128,
}

fn reach(side: u32, seen: u32, num: u32) -> (r: Reach)
    requires
        1 <= seen <= geometry::some(side as int),
        0 < num,
    ensures
        r.half == seen * (15 * num),
        r.end == (geometry::some(side as int) - seen) * (30 * num),
        0 < r.half <= 15 * 0xffff_ffff * 0xffff_ffff,
        0 <= r.end <= 30 * 0xffff_ffff * 0xffff_ffff,
        r.end + r.half == geometry::some(side as int) * (30 * num) - r.half,
        geometry::some(side as int) * (30 * num) <= 30 * 0xffff_ffff * 0xffff_ffff,
{
    let side: u32 = if side < 1 {
        1
    } else {
        side
    };
    proof {
        lemma_bound(seen as int, 0xffff_ffff, 15 * num, 15 * 0xffff_ffffint);
        lemma_bound(side - seen, 0xffff_ffff, 30 * num, 30 * 0xffff_ffffint);
        lemma_bound(side as int, 0xffff_ffff, 30 * num, 30 * 0xffff_ffffint);
        lemma_positive(seen as int, 15 * num);
        assert((side - seen) * (30 * num) + 2 * (seen * (15 * num)) == side * (30 * num))
            by (nonlinear_arith);
    }
    Reach {
        half: seen as i128 * (15 * num as i128),
        end: (side - seen) as i128 * (30 * num as i128),
    }
}

/// Where a viewport centred at `at` begins, in units.
fn begins(at: i128, r: &Reach) -> (b: i128)
    requires
        -FAR <= at <= FAR,
        0 <= r.half <= FAR,
        0 <= r.end,
    ensures
        b == between(at - r.half, 0, r.end as int),
{
    let b: i128 = at - r.half;
    if b < 0 {
        0
    } else if b > r.end {
        r.end
    } else {
        b
    }
}

/// The top of what is seen, in units, and how many pixels are.
pub fn window(s: &Shown, v: &Aim, cells: (u32, u32)) -> (r: (i128, u32))
    requires
        s.wf(),
        v.wf(),
        reported(cells),
    ensures
        r.0 == top_of(*s, *v, cells),
        r.1 == seen_down(*s, v.zoom, cells),
        0 <= r.0 <= 30 * 0xffff_ffff * 0xffff_ffff,
        1 <= r.1 <= s.tall(),
        r.0 + r.1 * s.unit() <= s.tall() * s.unit(),
{
    let (_, high) = seen(s, v.zoom, cells);
    let down = reach(s.h, high, s.num);
    proof {
        assert(down.end + high * (30 * s.num) == s.tall() * (30 * s.num)) by (nonlinear_arith)
            requires
                down.end == (s.tall() - high) * (30 * s.num),
        ;
    }
    (begins(v.cy, &down), high)
}

/// The source rectangle and destination cell box for the current view.
pub fn placement(s: &Shown, v: &Aim, cells: (u32, u32)) -> (r: Placement)
    requires
        s.wf(),
        v.wf(),
        reported(cells),
    ensures
        r == placement_of(*s, *v, cells),
{
    let (wide, high) = seen(s, v.zoom, cells);
    let (cols, rows) = boxed(s, v.zoom, cells);
    let across = reach(s.w, wide, s.num);
    let down = reach(s.h, high, s.num);
    let left: i128 = begins(v.cx, &across);
    let top: i128 = begins(v.cy, &down);
    let unit: i128 = 30 * s.num as i128;
    let x: i128 = left / unit;
    let y: i128 = top / unit;
    proof {
        lemma_floor(left as int, s.wide() - wide, unit as int);
        lemma_floor(top as int, s.tall() - high, unit as int);
    }
    Placement {
        src_x: x as u32,
        src_y: y as u32,
        src_w: wide,
        src_h: high,
        z: match s.kind {
            Kind::Document => -1,
            Kind::Image => 0,
        },
        cols,
        rows,
    }
}

proof fn lemma_floor(at: int, most: int, unit: int)
    requires
        0 <= at <= most * unit,
        0 < unit,
        0 <= most,
    ensures
        0 <= at / unit <= most,
{
    geometry::lemma_quotient(at, unit);
    assert(at / unit <= most) by (nonlinear_arith)
        requires
            (at / unit) * unit <= at,
            at <= most * unit,
            0 < unit,
    ;
}

/// A zoom times `up / down`, as a fraction, with what cancels cancelled.
pub open spec fn times(z: Zoom, up: int, down: int) -> (int, int) {
    let (n, d) = if z.num as int % down == 0 {
        (z.num as int / down, z.den as int)
    } else {
        (z.num as int, z.den * down)
    };
    if d % up == 0 {
        (n, d / up)
    } else {
        (n * up, d)
    }
}

/// A fraction as it is, or with both parts halved until it can be held.
pub open spec fn held(n: int, d: int) -> (int, int)
    decreases n,
{
    if n <= ZOOM_LIMIT {
        (n, d)
    } else {
        held(n / 2, d / 2)
    }
}

/// A fraction as a zoom: at rest at least, and no closer than there is.
pub open spec fn settled(f: (int, int)) -> Zoom {
    if f.0 <= f.1 {
        Zoom { num: 1, den: 1 }
    } else if f.0 >= MAX_ZOOM * f.1 {
        Zoom { num: MAX_ZOOM, den: 1 }
    } else {
        Zoom { num: f.0 as u64, den: f.1 as u64 }
    }
}

/// A zoom one step closer, for 1, or further off, for less: by a quarter, and back by a fifth.
pub open spec fn zoomed(z: Zoom, dir: int) -> Zoom {
    let f = if dir > 0 {
        times(z, 5, 4)
    } else {
        times(z, 4, 5)
    };
    settled(held(f.0, f.1))
}

/// A zoom one step closer, for 1, or further off, for less.
//
// the steps and the range are eyeballed; no measurement or
// reference is behind them
pub fn zoom_by(z: Zoom, dir: i32) -> (r: Zoom)
    requires
        z.wf(),
    ensures
        r == zoomed(z, dir as int),
        r.wf(),
{
    let (up, down): (u64, u64) = if dir > 0 {
        (5, 4)
    } else {
        (4, 5)
    };
    let (n, d): (u64, u64) = if z.num % down == 0 {
        (z.num / down, z.den)
    } else {
        (z.num, z.den * down)
    };
    let (n, d): (u64, u64) = if d % up == 0 {
        (n, d / up)
    } else {
        (n * up, d)
    };
    assert((n as int, d as int) == times(z, up as int, down as int));
    let mut n: u64 = n;
    let mut d: u64 = d;
    let ghost whole = (n as int, d as int);
    while n > ZOOM_LIMIT
        invariant
            held(n as int, d as int) == held(whole.0, whole.1),
            d <= 0x100_0000_0000,
        decreases n,
    {
        n = n / 2;
        d = d / 2;
    }
    if n <= d {
        Zoom { num: 1, den: 1 }
    } else if n >= MAX_ZOOM * d {
        Zoom { num: MAX_ZOOM, den: 1 }
    } else {
        Zoom { num: n, den: d }
    }
}

proof fn lemma_times(z: Zoom, up: int, down: int)
    requires
        up > 0,
        down > 0,
    ensures
        times(z, up, down).0 * (z.den * down) == (z.num * up) * times(z, up, down).1,
{
    let (zn, zd) = (z.num as int, z.den as int);
    let (n, d) = if zn % down == 0 {
        (zn / down, zd)
    } else {
        (zn, zd * down)
    };
    assert(n * (zd * down) == zn * d) by {
        if zn % down == 0 {
            vstd::arithmetic::div_mod::lemma_fundamental_div_mod(zn, down);
            assert(n * (zd * down) == zn * d) by (nonlinear_arith)
                requires
                    zn == down * n,
                    d == zd,
            ;
        }
    }
    let t = times(z, up, down);
    if d % up == 0 {
        vstd::arithmetic::div_mod::lemma_fundamental_div_mod(d, up);
        assert(t.0 * (zd * down) == (zn * up) * t.1) by (nonlinear_arith)
            requires
                t.0 == n,
                d == up * t.1,
                n * (zd * down) == zn * d,
        ;
    } else {
        assert(t.0 * (zd * down) == (zn * up) * t.1) by (nonlinear_arith)
            requires
                t.0 == n * up,
                t.1 == d,
                n * (zd * down) == zn * d,
        ;
    }
}

#[verifier::spinoff_prover]
#[verifier::rlimit(60)]
proof fn lemma_back_fits(z: Zoom, close: Zoom)
    requires
        z.wf(),
        times(z, 5, 4) == (close.num as int, close.den as int),
        close.num <= ZOOM_LIMIT,
    ensures
        0 <= times(close, 4, 5).0 <= ZOOM_LIMIT,
        0 <= times(close, 4, 5).1,
{
    let (n, d) = if z.num as int % 4 == 0 {
        (z.num as int / 4, z.den as int)
    } else {
        (z.num as int, z.den * 4)
    };
    assert((close.num as int, close.den as int) == if d % 5 == 0 {
        (n, d / 5)
    } else {
        (n * 5, d)
    });
}

proof fn lemma_same_value(gn: int, gd: int, zn: int, zd: int, b: Zoom)
    requires
        gn * zd == zn * gd,
        0 < zd <= zn <= 32 * zd,
        0 < gd,
        gn <= ZOOM_LIMIT,
        b == settled((gn, gd)),
    ensures
        b.num * zd == zn * b.den,
{
    if gn <= gd {
        assert(zn == zd) by (nonlinear_arith)
            requires
                gn * zd == zn * gd,
                gn <= gd,
                0 < zd <= zn,
                gd > 0,
        ;
        assert(b.num * zd == zn * b.den) by (nonlinear_arith)
            requires
                b.num == 1,
                b.den == 1,
                zn == zd,
        ;
    } else if gn >= MAX_ZOOM * gd {
        assert(zn == 32 * zd) by (nonlinear_arith)
            requires
                gn * zd == zn * gd,
                gn >= 32 * gd,
                0 < zd,
                zn <= 32 * zd,
                gd > 0,
        ;
        assert(b.num * zd == zn * b.den) by (nonlinear_arith)
            requires
                b.num == 32,
                b.den == 1,
                zn == 32 * zd,
        ;
    }
}

/// A step closer is a quarter more, and a step off undoes it, wherever neither end of the range and
/// no rounding comes in between.
pub proof fn law_zoom_steps_undo(z: Zoom)
    requires
        z.wf(),
        times(z, 5, 4).0 <= ZOOM_LIMIT,
        times(z, 5, 4).0 < MAX_ZOOM * times(z, 5, 4).1,
    ensures
        ({
            let close = zoomed(z, 1);
            let back = zoomed(close, -1);
            &&& close.num * (z.den * 4) == (z.num * 5) * close.den
            &&& back.num * z.den == z.num * back.den
        }),
{
    lemma_times(z, 5, 4);
    let f = times(z, 5, 4);
    let close = zoomed(z, 1);
    assert(f.0 > f.1 > 0) by (nonlinear_arith)
        requires
            f.0 * (z.den * 4) == (z.num * 5) * f.1,
            0 < z.den <= z.num,
            f.0 > 0 || f.1 > 0,
            f.0 >= 0,
            f.1 >= 0,
    ;
    assert(close.num == f.0 && close.den == f.1);
    lemma_times(close, 4, 5);
    lemma_back_fits(z, close);
    let g = times(close, 4, 5);
    let (n, d, cn, cd) = (g.0, g.1, close.num as int, close.den as int);
    assert(n * z.den == z.num * d) by (nonlinear_arith)
        requires
            n * (cd * 5) == (cn * 4) * d,
            cn * (z.den * 4) == (z.num * 5) * cd,
            cd > 0,
            cn > 0,
    ;
    assert(d > 0) by (nonlinear_arith)
        requires
            n * (cd * 5) == (cn * 4) * d,
            n > 0 || d > 0,
            n >= 0,
            d >= 0,
            cd > 0,
            cn > 0,
    ;
    lemma_same_value(n, d, z.num as int, z.den as int, zoomed(close, -1));
}

/// However often it is zoomed, a picture is never seen from further off than at rest, nor closer
/// than there is.
pub proof fn law_zoom_stays_in_range(z: Zoom, dir: int)
    requires
        z.wf(),
    ensures
        zoomed(z, dir).wf(),
{
    let f = if dir > 0 {
        times(z, 5, 4)
    } else {
        times(z, 4, 5)
    };
    lemma_held(f.0, f.1);
}

proof fn lemma_held(n: int, d: int)
    ensures
        held(n, d).0 <= ZOOM_LIMIT,
    decreases n,
{
    if n > ZOOM_LIMIT {
        lemma_held(n / 2, d / 2);
    }
}

/// A view at rest: the middle of a picture, and the top of a page. Centred, a long document would
/// open in its middle.
pub open spec fn at_rest(s: Shown, cells: (u32, u32)) -> Aim {
    let zoom = Zoom { num: 1, den: 1 };
    Aim {
        zoom,
        cx: (s.w * (15 * s.num)) as i128,
        cy: (match s.kind {
            Kind::Document => half_down(s, zoom, cells),
            Kind::Image => s.h * (15 * s.num),
        }) as i128,
        heading: None,
    }
}

impl Aim {
    /// A view at rest.
    pub fn reset(s: &Shown, cells: (u32, u32)) -> (r: Aim)
        requires
            s.wf(),
            reported(cells),
        ensures
            r == at_rest(*s, cells),
            r.wf(),
    {
        let zoom = Zoom { num: 1, den: 1 };
        proof {
            lemma_bound(s.w as int, 0xffff_ffff, 15 * s.num, 15 * 0xffff_ffffint);
            lemma_bound(s.h as int, 0xffff_ffff, 15 * s.num, 15 * 0xffff_ffffint);
        }
        let cy: i128 = match s.kind {
            Kind::Document => {
                let (_, high) = seen(s, zoom, cells);
                reach(s.h, high, s.num).half
            },
            Kind::Image => s.h as i128 * (15 * s.num as i128),
        };
        Aim { zoom, cx: s.w as i128 * (15 * s.num as i128), cy, heading: None }
    }
}

/// The page's row height in units, for a document laid out on the row grid.
pub open spec fn row_of(s: Shown) -> Option<int> {
    match s.index {
        Some(ix) => if ix.row * s.den >= s.num {
            Some(30 * (ix.row * s.den))
        } else {
            None
        },
        None => None,
    }
}

/// Where row `r` of a page begins, in units.
pub open spec fn row_at(s: Shown, ix: Index, r: int) -> int {
    geometry::capped(r, u32::MAX as int) * (30 * (ix.row * s.den))
}

fn row_height(s: &Shown) -> (r: Option<i128>)
    requires
        s.wf(),
    ensures
        match r {
            Some(row) => row_of(*s) == Some(row as int) && 0 < row <= 30 * 0xffff_ffff
                * 0xffff_ffff,
            None => row_of(*s) is None,
        },
{
    match &s.index {
        Some(ix) => {
            proof {
                lemma_bound(ix.row as int, 0xffff_ffff, s.den as int, 0xffff_ffff);
            }
            let tall: u64 = ix.row as u64 * s.den as u64;
            if tall >= s.num as u64 {
                Some(30 * tall as i128)
            } else {
                None
            }
        },
        None => None,
    }
}

pub fn row_top(s: &Shown, ix: &Index, r: usize) -> (at: i128)
    ensures
        at == row_at(*s, *ix, r as int),
        0 <= at <= 0xffff_ffff * (30 * 0xffff_ffff * 0xffff_ffff),
{
    let n: u32 = if r > 0xffff_ffff {
        0xffff_ffff
    } else {
        r as u32
    };
    proof {
        lemma_bound(ix.row as int, 0xffff_ffff, s.den as int, 0xffff_ffff);
        lemma_bound(
            n as int,
            0xffff_ffff,
            30 * (ix.row * s.den),
            30 * 0xffff_ffffint * 0xffff_ffffint,
        );
    }
    let tall: u64 = ix.row as u64 * s.den as u64;
    n as i128 * (30 * tall as i128)
}

/// `n` to the nearest multiple of `step`; a half goes up.
pub open spec fn nearest_multiple(n: int, step: int) -> int {
    geometry::nearest(n, step) * step
}

fn to_multiple(n: i128, step: i128) -> (r: i128)
    requires
        0 <= n <= 2 * FAR,
        0 < step <= FAR,
    ensures
        r == nearest_multiple(n as int, step as int),
        0 <= r <= n + step,
{
    let q: i128 = (2 * n + step) / (2 * step);
    proof {
        geometry::lemma_quotient(2 * n + step, 2 * step);
        assert(q * (2 * step) == 2 * (q * step)) by (nonlinear_arith);
        assert(0 <= q * step) by (nonlinear_arith)
            requires
                0 <= q,
                0 < step,
        ;
    }
    q * step
}

/// Where the view is centred down once the top of the window sits on a row boundary, as near to
/// where it was as there is one, and short of the page's end.
pub open spec fn snapped(s: Shown, v: Aim, cells: (u32, u32)) -> int {
    match row_of(s) {
        None => v.cy as int,
        Some(row) => {
            let half = half_down(s, v.zoom, cells);
            let top = if v.cy > half {
                v.cy - half
            } else {
                0
            };
            between(nearest_multiple(top, row) + half, half, lowest(s, v.zoom, cells))
        },
    }
}

/// A view, snapped.
pub open spec fn snap_of(s: Shown, v: Aim, cells: (u32, u32)) -> Aim {
    Aim { cy: snapped(s, v, cells) as i128, ..v }
}

/// `n`, or the nearest there is to it from `lo` to `hi`.
fn within(n: i128, lo: i128, hi: i128) -> (r: i128)
    requires
        lo <= hi,
    ensures
        r == between(n as int, lo as int, hi as int),
{
    if n < lo {
        lo
    } else if n > hi {
        hi
    } else {
        n
    }
}

/// Move the view so the top of the window sits on a row boundary.
pub fn snap(view: &mut Aim, s: &Shown, cells: (u32, u32))
    requires
        s.wf(),
        old(view).wf(),
        reported(cells),
    ensures
        *final(view) == snap_of(*s, *old(view), cells),
        final(view).wf(),
{
    let v = *view;
    if let Some(row) = row_height(s) {
        let (_, high) = seen(s, v.zoom, cells);
        let down = reach(s.h, high, s.num);
        let top: i128 = if v.cy > down.half {
            v.cy - down.half
        } else {
            0
        };
        let at: i128 = to_multiple(top, row) + down.half;
        view.cy = within(at, down.half, down.end + down.half);
    }
}

/// A view scrolled so that row `r` of the page sits near the top of the viewport: a third down rather
/// than centred, so what follows the line is what fills the screen, and by whole rows, or the jump
/// would take the page off the grid.
pub open spec fn scrolled(s: Shown, v: Aim, ix: Index, r: int, cells: (u32, u32)) -> Aim {
    let half = half_down(s, v.zoom, cells);
    let sixth = seen_down(s, v.zoom, cells) * (5 * s.num);
    let above = match row_of(s) {
        Some(row) => nearest_multiple(sixth, row),
        None => sixth,
    };
    let cy = between(row_at(s, ix, r) + above, half, lowest(s, v.zoom, cells));
    snap_of(s, Aim { cy: cy as i128, ..v }, cells)
}

/// Scroll so that row `r` of the page sits near the top of the viewport.
pub fn scroll_to(view: &mut Aim, s: &Shown, ix: &Index, r: usize, cells: (u32, u32))
    requires
        s.wf(),
        old(view).wf(),
        reported(cells),
    ensures
        *final(view) == scrolled(*s, *old(view), *ix, r as int, cells),
        final(view).wf(),
{
    let v = *view;
    let (_, high) = seen(s, v.zoom, cells);
    let down = reach(s.h, high, s.num);
    proof {
        lemma_bound(high as int, 0xffff_ffff, 5 * s.num, 5 * 0xffff_ffffint);
    }
    let sixth: i128 = high as i128 * (5 * s.num as i128);
    let above: i128 = match row_height(s) {
        Some(row) => to_multiple(sixth, row),
        None => sixth,
    };
    let at: i128 = row_top(s, ix, r) + above;
    view.cy = within(at, down.half, down.end + down.half);
    snap(view, s, cells);
}

/// How far down a pan of `dy` fifths of the window goes. A page scrolls by whole rows, and by one at
/// least, so its lines stay on the terminal's own grid and can be written over; a picture has no
/// rows. A pan that goes sideways alone goes no way down.
pub open spec fn stride(s: Shown, z: Zoom, dy: int, cells: (u32, u32)) -> int {
    let fifth = seen_down(s, z, cells) * (6 * s.num);
    match row_of(s) {
        Some(row) => {
            let n = geometry::some(
                geometry::nearest(
                    (if dy < 0 {
                        -dy
                    } else {
                        dy
                    }) * fifth,
                    row,
                ),
            );
            if dy < 0 {
                -(n * row)
            } else if dy == 0 {
                0
            } else {
                n * row
            }
        },
        None => dy * fifth,
    }
}

/// A view panned by so many fifths of the window, across and down. Down it stays within the
/// document.
pub open spec fn panned(s: Shown, v: Aim, dx: int, dy: int, cells: (u32, u32)) -> Aim {
    let across = dx * (seen_across(s, v.zoom, cells) * (6 * s.num));
    let cy = between(
        v.cy + stride(s, v.zoom, dy, cells),
        half_down(s, v.zoom, cells),
        lowest(s, v.zoom, cells),
    );
    snap_of(
        s,
        Aim { cx: between(v.cx + across, -FAR, FAR as int) as i128, cy: cy as i128, ..v },
        cells,
    )
}

fn stride_by(s: &Shown, high: u32, dy: i32, Ghost(z): Ghost<Zoom>, Ghost(cells): Ghost<(u32, u32)>) -> (r: i128)
    requires
        s.wf(),
        high == seen_down(*s, z, cells),
    ensures
        r == stride(*s, z, dy as int, cells),
        -(2 * FAR) <= r <= 2 * FAR,
{
    proof {
        lemma_bound(high as int, 0xffff_ffff, 6 * s.num, 6 * 0xffff_ffffint);
    }
    let fifth: i128 = high as i128 * (6 * s.num as i128);
    let steps: i128 = if dy < 0 {
        -(dy as i128)
    } else {
        dy as i128
    };
    proof {
        lemma_bound(steps as int, 0x8000_0000, fifth as int, 6 * 0xffff_ffffint * 0xffff_ffffint);
    }
    let far: i128 = steps * fifth;
    match row_height(s) {
        Some(row) => {
            let q: i128 = (2 * far + row) / (2 * row);
            proof {
                geometry::lemma_quotient(2 * far + row, 2 * row);
                assert(q * (2 * row) == 2 * (q * row)) by (nonlinear_arith);
            }
            let n: i128 = if q < 1 {
                1
            } else {
                q
            };
            assert(n * row <= far + 2 * row) by (nonlinear_arith)
                requires
                    n == 1 || n == q,
                    2 * (q * row) <= 2 * far + row,
                    row > 0,
                    far >= 0,
            ;
            assert(0 <= n * row) by (nonlinear_arith)
                requires
                    1 <= n,
                    row > 0,
            ;
            if dy < 0 {
                -(n * row)
            } else if dy == 0 {
                0
            } else {
                n * row
            }
        },
        None => {
            assert(dy < 0 ==> dy * fifth == -(steps * fifth)) by (nonlinear_arith)
                requires
                    dy < 0 ==> steps == -dy,
            ;
            if dy < 0 {
                -far
            } else {
                far
            }
        },
    }
}

/// Pan by so many fifths of the window, across and down.
pub fn pan(view: &mut Aim, s: &Shown, dx: i32, dy: i32, cells: (u32, u32))
    requires
        s.wf(),
        old(view).wf(),
        reported(cells),
    ensures
        *final(view) == panned(*s, *old(view), dx as int, dy as int, cells),
        final(view).wf(),
{
    let v = *view;
    let (wide, high) = seen(s, v.zoom, cells);
    let down = reach(s.h, high, s.num);
    proof {
        lemma_bound(wide as int, 0xffff_ffff, 6 * s.num, 6 * 0xffff_ffffint);
    }
    let fifth: i128 = wide as i128 * (6 * s.num as i128);
    proof {
        let steps = if dx < 0 {
            -dx
        } else {
            dx as int
        };
        lemma_bound(steps, 0x8000_0000, fifth as int, 6 * 0xffff_ffffint * 0xffff_ffffint);
        assert(dx * fifth == steps * fifth || dx * fifth == -(steps * fifth)) by (nonlinear_arith)
            requires
                steps == dx || steps == -dx,
        ;
    }
    let across: i128 = dx as i128 * fifth;
    let stride: i128 = stride_by(s, high, dy, Ghost(v.zoom), Ghost(cells));
    view.cx = within(v.cx + across, -FAR, FAR);
    view.cy = within(v.cy + stride, down.half, down.end + down.half);
    snap(view, s, cells);
}

/// A view at the top of the image, or at its bottom.
pub open spec fn at_end(s: Shown, v: Aim, top: bool, cells: (u32, u32)) -> Aim {
    let cy = if top {
        half_down(s, v.zoom, cells)
    } else {
        lowest(s, v.zoom, cells)
    };
    snap_of(s, Aim { cy: cy as i128, ..v }, cells)
}

/// Go to the top of the image, or to its bottom.
pub fn go_to_end(view: &mut Aim, s: &Shown, top: bool, cells: (u32, u32))
    requires
        s.wf(),
        old(view).wf(),
        reported(cells),
    ensures
        *final(view) == at_end(*s, *old(view), top, cells),
        final(view).wf(),
{
    let (_, high) = seen(s, view.zoom, cells);
    let down = reach(s.h, high, s.num);
    view.cy = if top {
        down.half
    } else {
        down.end + down.half
    };
    snap(view, s, cells);
}

/// What is seen lies in the image, and is drawn within the viewport, short of the status line.
pub proof fn law_what_is_seen_lies_in_the_image(s: Shown, v: Aim, cells: (u32, u32))
    requires
        s.wf(),
    ensures
        ({
            let p = placement_of(s, v, cells);
            &&& 1 <= p.src_w && p.src_x + p.src_w <= s.wide()
            &&& 1 <= p.src_h && p.src_y + p.src_h <= s.tall()
            &&& 1 <= p.cols <= cols_in(cells)
            &&& 1 <= p.rows <= rows_in(cells)
        }),
{
    let (w, h) = (seen_across(s, v.zoom, cells), seen_down(s, v.zoom, cells));
    assert(0 <= (s.wide() - w) * s.unit() && 0 <= (s.tall() - h) * s.unit()) by (nonlinear_arith)
        requires
            w <= s.wide(),
            h <= s.tall(),
            0 < s.unit(),
    ;
    lemma_floor(left_of(s, v, cells), s.wide() - w, s.unit());
    lemma_floor(top_of(s, v, cells), s.tall() - h, s.unit());
}

/// A document opens at its first line.
pub proof fn law_a_document_opens_at_its_top(s: Shown, cells: (u32, u32))
    requires
        s.wf(),
        s.kind == Kind::Document,
    ensures
        top_of(s, at_rest(s, cells), cells) == 0,
        placement_of(s, at_rest(s, cells), cells).src_y == 0,
{
    let z = Zoom { num: 1, den: 1 };
    let h = seen_down(s, z, cells);
    lemma_bound(h, 0xffff_ffff, 15 * s.num, 15 * 0xffff_ffffint);
    assert(0 <= (s.tall() - h) * s.unit()) by (nonlinear_arith)
        requires
            h <= s.tall(),
            0 < s.unit(),
    ;
    assert(0int / s.unit() == 0) by (nonlinear_arith)
        requires
            0 < s.unit(),
    ;
}

proof fn lemma_nearest_at_least(num: int, den: int, lo: int)
    requires
        0 < den,
        lo * den <= num,
    ensures
        lo <= geometry::nearest(num, den),
{
    assert(lo <= (2 * num + den) / (2 * den)) by (nonlinear_arith)
        requires
            0 < den,
            lo * den <= num,
    ;
}

proof fn lemma_times_one(n: int, one: int)
    requires
        one == 1,
    ensures
        n * one == n,
{
    assert(n * one == n) by (nonlinear_arith)
        requires
            one == 1,
    ;
}

/// A picture at rest is seen whole.
pub proof fn law_a_picture_at_rest_is_seen_whole(s: Shown, cells: (u32, u32))
    requires
        s.wf(),
        s.kind == Kind::Image,
    ensures
        seen_across(s, Zoom { num: 1, den: 1 }, cells) == s.wide(),
        seen_down(s, Zoom { num: 1, den: 1 }, cells) == s.tall(),
{
    let z = Zoom { num: 1, den: 1 };
    let across = cols_in(cells) * s.cell.w;
    let down = rows_in(cells) * s.cell.h;
    lemma_positive(cols_in(cells), s.cell.w as int);
    lemma_positive(rows_in(cells), s.cell.h as int);
    let (a, d) = (room_across(s, z, cells), room_down(s, z, cells));
    match limit_of(s, cells) {
        Limit::Own => {
            lemma_times_one(across * s.den, z.den as int);
            lemma_times_one(down * s.den, z.den as int);
            lemma_times_one(s.num as int, z.num as int);
            lemma_nearest_at_least(a.0, a.1, s.wide());
            lemma_nearest_at_least(d.0, d.1, s.tall());
        },
        Limit::Width => {
            lemma_times_one(s.wide(), z.den as int);
            lemma_times_one(down * s.wide(), z.den as int);
            lemma_times_one(across, z.num as int);
            assert(s.tall() * across == across * s.tall()) by (nonlinear_arith);
            lemma_nearest_at_least(a.0, a.1, s.wide());
            lemma_nearest_at_least(d.0, d.1, s.tall());
        },
        Limit::Height => {
            lemma_times_one(s.tall(), z.den as int);
            lemma_times_one(across * s.tall(), z.den as int);
            lemma_times_one(down, z.num as int);
            assert(s.wide() * down == down * s.wide()) by (nonlinear_arith);
            lemma_nearest_at_least(a.0, a.1, s.wide());
            lemma_nearest_at_least(d.0, d.1, s.tall());
        },
    }
}

proof fn lemma_snap(s: Shown, v: Aim, cells: (u32, u32), row: int)
    requires
        s.wf(),
        v.wf(),
        row_of(s) == Some(row),
    ensures
        row > 0,
        ({
            let half = half_down(s, v.zoom, cells);
            let top = if v.cy > half {
                v.cy - half
            } else {
                0
            };
            top_of(s, snap_of(s, v, cells), cells) == geometry::capped(
                nearest_multiple(top, row),
                (s.tall() - seen_down(s, v.zoom, cells)) * s.unit(),
            )
        }),
{
    let h = seen_down(s, v.zoom, cells);
    let half = half_down(s, v.zoom, cells);
    let end = (s.tall() - h) * s.unit();
    lemma_bound(h, 0xffff_ffff, 15 * s.num, 15 * 0xffff_ffffint);
    lemma_bound(s.tall() - h, 0xffff_ffff, 30 * s.num, 30 * 0xffff_ffffint);
    assert(end + 2 * half == s.tall() * s.unit()) by (nonlinear_arith)
        requires
            end == (s.tall() - h) * (30 * s.num),
            half == h * (15 * s.num),
            s.unit() == 30 * s.num,
    ;
    let top = if v.cy > half {
        v.cy - half
    } else {
        0
    };
    assert(0 <= nearest_multiple(top, row)) by {
        geometry::lemma_quotient(2 * top + row, 2 * row);
        assert(0 <= geometry::nearest(top, row) * row) by (nonlinear_arith)
            requires
                0 <= geometry::nearest(top, row),
                0 < row,
        ;
    }
}

/// A page that is snapped begins on a row, unless it stands at its very end.
pub proof fn law_a_snapped_page_begins_on_a_row(s: Shown, v: Aim, cells: (u32, u32), row: int)
    requires
        s.wf(),
        v.wf(),
        row_of(s) == Some(row),
    ensures
        ({
            let top = top_of(s, snap_of(s, v, cells), cells);
            let end = (s.tall() - seen_down(s, v.zoom, cells)) * s.unit();
            &&& top % row == 0 || top == end
            &&& end % row == 0 ==> top % row == 0
        }),
{
    lemma_snap(s, v, cells, row);
    let half = half_down(s, v.zoom, cells);
    let top = if v.cy > half {
        v.cy - half
    } else {
        0
    };
    vstd::arithmetic::div_mod::lemma_mod_multiples_basic(geometry::nearest(top, row), row);
}

/// A picture has no rows to snap to, and is left where it was.
pub proof fn law_a_picture_is_left_where_it_was(s: Shown, v: Aim, cells: (u32, u32))
    requires
        s.index is None,
    ensures
        snap_of(s, v, cells) == v,
{
}

proof fn lemma_up_scales(n: int, d: int, k: int)
    requires
        0 < d,
        0 < k,
        0 <= n,
    ensures
        up((n * k, d * k)) == up((n, d)),
{
    let q = up((n, d));
    geometry::lemma_quotient(n + d - 1, d);
    assert(0 < d * k) by (nonlinear_arith)
        requires
            0 < d,
            0 < k,
    ;
    geometry::lemma_quotient(n * k + d * k - 1, d * k);
    let p = up((n * k, d * k));
    assert(p == q) by (nonlinear_arith)
        requires
            p * (d * k) <= n * k + d * k - 1 < (p + 1) * (d * k),
            q * d <= n + d - 1 < (q + 1) * d,
            0 < k,
            0 < d,
    ;
}

/// A picture that the cap shrank `k` times covers the cells it would have covered uncapped.
pub proof fn law_a_capped_picture_covers_the_same_cells(
    full: Shown,
    capped: Shown,
    k: int,
    z: Zoom,
    cells: (u32, u32),
)
    requires
        full.wf(),
        z.wf(),
        full.kind == capped.kind,
        full.cell == capped.cell,
        0 < k,
        0 < capped.w,
        0 < capped.h,
        full.w == capped.w * k,
        full.h == capped.h * k,
        capped.num == full.num * k,
        capped.den == full.den,
    ensures
        box_across(capped, z, cells) == box_across(full, z, cells),
        box_down(capped, z, cells) == box_down(full, z, cells),
{
    let across = cols_in(cells) * full.cell.w;
    let down = rows_in(cells) * full.cell.h;
    let (w, h, n) = (capped.wide(), capped.tall(), full.num as int);
    assert(0 < w * k && 0 < h * k) by (nonlinear_arith)
        requires
            0 < w,
            0 < h,
            0 < k,
    ;
    assert((w * k) * n == w * (n * k) && (h * k) * n == h * (n * k)) by (nonlinear_arith);
    assert(across * (h * k) <= down * (w * k) <==> across * h <= down * w) by (nonlinear_arith)
        requires
            0 < k,
    ;
    assert(limit_of(capped, cells) == limit_of(full, cells));
    lemma_positive(rows_in(cells), full.cell.h as int);
    lemma_positive(cols_in(cells), full.cell.w as int);
    match limit_of(full, cells) {
        Limit::Own => {},
        Limit::Width => {
            let (a, b) = (across * h * z.num, w * full.cell.h * z.den);
            lemma_positive(w, full.cell.h as int);
            lemma_positive(w * full.cell.h, z.den as int);
            lemma_positive(across, h);
            lemma_positive(across * h, z.num as int);
            lemma_up_scales(a, b, k);
            assert(across * (h * k) * z.num == a * k) by (nonlinear_arith)
                requires
                    a == across * h * z.num,
            ;
            assert((w * k) * full.cell.h * z.den == b * k) by (nonlinear_arith)
                requires
                    b == w * full.cell.h * z.den,
            ;
        },
        Limit::Height => {
            let (a, b) = (down * w * z.num, h * full.cell.w * z.den);
            lemma_positive(h, full.cell.w as int);
            lemma_positive(h * full.cell.w, z.den as int);
            lemma_positive(down, w);
            lemma_positive(down * w, z.num as int);
            lemma_up_scales(a, b, k);
            assert(down * (w * k) * z.num == a * k) by (nonlinear_arith)
                requires
                    a == down * w * z.num,
            ;
            assert((h * k) * full.cell.w * z.den == b * k) by (nonlinear_arith)
                requires
                    b == h * full.cell.w * z.den,
            ;
        },
    }
}

/// Whether `a` and `b` are at most `n` apart.
pub open spec fn apart(a: int, b: int, n: int) -> bool {
    -n <= a - b <= n
}

/// Fractions that differ by no more than another round up to counts that differ by no more than that
/// and one.
proof fn lemma_up_apart(f: (int, int), g: (int, int), e: (int, int))
    requires
        0 < f.1,
        0 < g.1,
        0 < e.1,
        0 <= e.0,
        (f.0 * g.1 - g.0 * f.1) * e.1 <= e.0 * (f.1 * g.1),
    ensures
        up(f) <= up(g) + e.0 / e.1 + 1,
{
    let k = e.0 / e.1 + 1;
    geometry::lemma_quotient(e.0, e.1);
    let (x, y, n) = (f.0 * g.1, g.0 * f.1, f.1 * g.1);
    assert(0 < n) by (nonlinear_arith)
        requires
            n == f.1 * g.1,
            0 < f.1,
            0 < g.1,
    ;
    assert(x - y <= k * n) by (nonlinear_arith)
        requires
            (x - y) * e.1 <= e.0 * n,
            e.0 < k * e.1,
            0 < n,
            0 < e.1,
    ;
    let (a, b) = (up(f), up(g));
    geometry::lemma_quotient(f.0 + f.1 - 1, f.1);
    geometry::lemma_quotient(g.0 + g.1 - 1, g.1);
    assert(g.0 <= b * g.1) by (nonlinear_arith)
        requires
            g.0 + g.1 - 1 < (b + 1) * g.1,
    ;
    assert(y <= b * n) by (nonlinear_arith)
        requires
            y == g.0 * f.1,
            n == f.1 * g.1,
            g.0 <= b * g.1,
            0 < f.1,
    ;
    assert((b + k) * n == b * n + k * n) by (nonlinear_arith);
    assert(f.0 <= (b + k) * f.1) by (nonlinear_arith)
        requires
            f.0 * g.1 <= (b + k) * n,
            n == f.1 * g.1,
            0 < g.1,
    ;
    assert(a <= b + k) by (nonlinear_arith)
        requires
            a * f.1 <= f.0 + f.1 - 1,
            f.0 <= (b + k) * f.1,
            0 < f.1,
    ;
}

/// Sides that stand for `e` more or less cover cells that differ by no more than `e` does and one.
proof fn lemma_own_apart(n: int, num: int, den: int, m: int, z: Zoom, c: int, e: int)
    requires
        z.wf(),
        0 < c,
        0 < den,
        0 <= e,
        apart(n * num, m * den, e),
    ensures
        apart(
            up((n * num * z.num, c * den * z.den)),
            up((m * 1 * z.num, c * 1 * z.den)),
            e * z.num / (c * den * z.den) + 1,
        ),
{
    let (zn, zd) = (z.num as int, z.den as int);
    lemma_positive(c, den);
    lemma_positive(c * den, zd);
    lemma_positive(c, zd);
    let f = (n * num * zn, c * den * zd);
    let g = (m * 1 * zn, c * 1 * zd);
    let by = (e * zn, c * den * zd);
    assert(0 <= by.0) by (nonlinear_arith)
        requires
            by.0 == e * zn,
            0 <= e,
            0 < zn,
    ;
    let (x, y) = (n * num, m * den);
    let k = c * zd;
    assert(f.0 * g.1 == (x * zn) * k) by (nonlinear_arith)
        requires
            f.0 == n * num * zn,
            g.1 == c * 1 * zd,
            x == n * num,
            k == c * zd,
    ;
    assert(g.0 * f.1 == (y * zn) * k) by (nonlinear_arith)
        requires
            g.0 == m * 1 * zn,
            f.1 == c * den * zd,
            y == m * den,
            k == c * zd,
    ;
    assert(g.1 == k);
    let q = f.1;
    assert(((x * zn) * k - (y * zn) * k) * q <= (e * zn) * (q * k)) by (nonlinear_arith)
        requires
            x - y <= e,
            0 < zn,
            0 < k,
            0 < q,
    ;
    assert(((y * zn) * k - (x * zn) * k) * q <= (e * zn) * (q * k)) by (nonlinear_arith)
        requires
            y - x <= e,
            0 < zn,
            0 < k,
            0 < q,
    ;
    assert(k * q == q * k) by (nonlinear_arith);
    lemma_up_apart(f, g, by);
    lemma_up_apart(g, f, by);
}

proof fn lemma_regrouped(a: int, x: int, y: int, num: int, b: int)
    ensures
        (a * x - a * y) * (num * b) == (a * b) * (num * x - num * y),
{
    let d = x - y;
    assert(a * x - a * y == a * d) by (nonlinear_arith)
        requires
            d == x - y,
    ;
    assert(num * x - num * y == num * d) by (nonlinear_arith)
        requires
            d == x - y,
    ;
    assert((a * d) * (num * b) == (a * b) * (num * d)) by (nonlinear_arith);
}

/// Sides of one aspect, about, cover about the same where the other side fills the window.
proof fn lemma_fitted_apart(
    room: int,
    h: int,
    w: int,
    th: int,
    tw: int,
    z: Zoom,
    c: int,
    num: int,
    e: int,
)
    requires
        z.wf(),
        0 < c,
        0 < room,
        0 < w,
        0 < tw,
        0 < num,
        0 <= e,
        apart(num * (h * tw), num * (th * w), e),
    ensures
        apart(
            up((room * h * z.num, w * c * z.den)),
            up((room * th * z.num, tw * c * z.den)),
            room * z.num * e / (num * (w * tw) * (c * z.den)) + 1,
        ),
{
    let (zn, zd) = (z.num as int, z.den as int);
    lemma_positive(w, c);
    lemma_positive(w * c, zd);
    lemma_positive(tw, c);
    lemma_positive(tw * c, zd);
    lemma_positive(c, zd);
    lemma_positive(w, tw);
    lemma_positive(num, w * tw);
    lemma_positive(num * (w * tw), c * zd);
    lemma_positive(room, zn);
    let f = (room * h * zn, w * c * zd);
    let g = (room * th * zn, tw * c * zd);
    let by = (room * zn * e, num * (w * tw) * (c * zd));
    let (r, k, x, y) = (room * zn, c * zd, h * tw, th * w);
    assert(0 <= by.0) by (nonlinear_arith)
        requires
            by.0 == r * e,
            0 < r,
            0 <= e,
    ;
    assert(f.0 * g.1 == r * k * x) by (nonlinear_arith)
        requires
            f.0 == room * h * zn,
            g.1 == tw * c * zd,
            r == room * zn,
            k == c * zd,
            x == h * tw,
    ;
    assert(g.0 * f.1 == r * k * y) by (nonlinear_arith)
        requires
            g.0 == room * th * zn,
            f.1 == w * c * zd,
            r == room * zn,
            k == c * zd,
            y == th * w,
    ;
    let n = w * tw;
    assert(f.1 * g.1 == n * (k * k)) by (nonlinear_arith)
        requires
            f.1 == w * c * zd,
            g.1 == tw * c * zd,
            n == w * tw,
            k == c * zd,
    ;
    assert(g.1 * f.1 == f.1 * g.1) by (nonlinear_arith);
    let (rk, nk) = (r * k, n * k);
    let m = rk * nk;
    assert(m > 0) by {
        lemma_positive(r, k);
        lemma_positive(n, k);
        lemma_positive(rk, nk);
    }
    let (nx, ny) = (num * x, num * y);
    lemma_regrouped(rk, x, y, num, nk);
    lemma_regrouped(rk, y, x, num, nk);
    assert(num * n * k == num * nk) by (nonlinear_arith)
        requires
            nk == n * k,
    ;
    assert(n * (k * k) == nk * k) by (nonlinear_arith)
        requires
            nk == n * k,
    ;
    assert((r * e) * (nk * k) == m * e) by (nonlinear_arith)
        requires
            m == rk * nk,
            rk == r * k,
    ;
    assert(m * (nx - ny) <= m * e && m * (ny - nx) <= m * e) by (nonlinear_arith)
        requires
            nx - ny <= e,
            ny - nx <= e,
            m > 0,
    ;
    lemma_up_apart(f, g, by);
    lemma_up_apart(g, f, by);
}

/// How much of a pixel a side of a capped picture is off by at most, in parts of what the cap
/// divided by.
pub open spec fn off_by(side: u32, num: u32) -> int {
    num + side + 1
}

/// How much the aspect of a capped picture is off by at most.
pub open spec fn askew_by(full: Shown, capped: Shown) -> int {
    full.w * off_by(capped.h, capped.num) + full.h * off_by(capped.w, capped.num)
}

/// A picture that the cap shrank covers the cells it would have covered uncapped, but for what its
/// pixels are off by, and one: where both are as large as they are, or are held by the same side of
/// the window.
pub proof fn law_a_capped_picture_covers_about_its_cells(
    full: Shown,
    capped: Shown,
    max_px: int,
    z: Zoom,
    cells: (u32, u32),
)
    requires
        full.wf(),
        z.wf(),
        full.kind == Kind::Image,
        capped.kind == Kind::Image,
        full.cell == capped.cell,
        full.num == 1,
        full.den == 1,
        0 < full.w,
        0 < full.h,
        1 <= max_px,
        (geometry::Held { w: capped.w, h: capped.h, num: capped.num, den: capped.den })
            == geometry::held_of(full.w, full.h, max_px),
        limit_of(full, cells) == limit_of(capped, cells),
    ensures
        ({
            let across = cols_in(cells) * full.cell.w;
            let down = rows_in(cells) * full.cell.h;
            let (cw, ch) = (full.cell.w, full.cell.h);
            let area = capped.num * (capped.w * full.w);
            let tall_area = capped.num * (capped.h * full.h);
            match limit_of(full, cells) {
                Limit::Own => {
                    &&& apart(
                        box_across(capped, z, cells),
                        box_across(full, z, cells),
                        off_by(capped.w, capped.num) * z.num / (cw * capped.den * z.den) + 1,
                    )
                    &&& apart(
                        box_down(capped, z, cells),
                        box_down(full, z, cells),
                        off_by(capped.h, capped.num) * z.num / (ch * capped.den * z.den) + 1,
                    )
                },
                Limit::Width => {
                    &&& box_across(capped, z, cells) == box_across(full, z, cells)
                    &&& apart(
                        box_down(capped, z, cells),
                        box_down(full, z, cells),
                        across * z.num * askew_by(full, capped) / (area * (ch * z.den)) + 1,
                    )
                },
                Limit::Height => {
                    &&& box_down(capped, z, cells) == box_down(full, z, cells)
                    &&& apart(
                        box_across(capped, z, cells),
                        box_across(full, z, cells),
                        down * z.num * askew_by(full, capped) / (tall_area * (cw * z.den)) + 1,
                    )
                },
            }
        }),
{
    let across = cols_in(cells) * full.cell.w;
    let down = rows_in(cells) * full.cell.h;
    let (cw, ch) = (full.cell.w as int, full.cell.h as int);
    let (tw, th, w, h) = (full.w as int, full.h as int, capped.w as int, capped.h as int);
    let (num, den) = (capped.num as int, capped.den as int);
    geometry::law_pixels_within(full.w, full.h, max_px);
    geometry::law_held_stands_for_what_it_was(full.w, full.h, max_px);
    let (ew, eh) = (off_by(capped.w, capped.num), off_by(capped.h, capped.num));
    let e = askew_by(full, capped);
    lemma_askew(w, h, tw, th, num, den, ew, eh);
    lemma_positive(cols_in(cells), cw);
    lemma_positive(rows_in(cells), ch);
    match limit_of(full, cells) {
        Limit::Own => {
            lemma_own_apart(w, num, den, tw, z, cw, ew);
            lemma_own_apart(h, num, den, th, z, ch, eh);
        },
        Limit::Width => {
            lemma_fitted_apart(across, h, w, th, tw, z, ch, num, e);
        },
        Limit::Height => {
            assert(apart(num * (w * th), num * (tw * h), e)) by {
                assert(w * th == th * w && tw * h == h * tw) by (nonlinear_arith);
            }
            lemma_fitted_apart(down, w, h, tw, th, z, cw, num, e);
        },
    }
}

/// What sides are off by is what their aspect is off by.
proof fn lemma_askew(w: int, h: int, tw: int, th: int, num: int, den: int, ew: int, eh: int)
    requires
        0 < tw,
        0 < th,
        0 <= ew,
        0 <= eh,
        apart(w * num, tw * den, ew),
        apart(h * num, th * den, eh),
    ensures
        apart(num * (h * tw), num * (th * w), tw * eh + th * ew),
        0 <= tw * eh + th * ew,
{
    let (x, y) = (h * num - th * den, w * num - tw * den);
    assert(num * (h * tw) - num * (th * w) == tw * x - th * y) by (nonlinear_arith)
        requires
            x == h * num - th * den,
            y == w * num - tw * den,
    ;
    assert(-(tw * eh) <= tw * x <= tw * eh) by (nonlinear_arith)
        requires
            -eh <= x <= eh,
            0 < tw,
    ;
    assert(-(th * ew) <= th * y <= th * ew) by (nonlinear_arith)
        requires
            -ew <= y <= ew,
            0 < th,
    ;
}

/// A pan goes where it is told: to the right, to the left, down or up, never the other way, and not
/// at all along a side that it was not told to go along.
#[verifier::spinoff_prover]
#[verifier::rlimit(60)]
pub proof fn law_a_pan_goes_where_it_is_told(s: Shown, v: Aim, dx: int, dy: int, cells: (u32, u32))
    requires
        s.wf(),
        v.wf(),
        snap_of(s, v, cells) == v,
    ensures
        ({
            let after = panned(s, v, dx, dy, cells);
            let (x, y) = (left_of(s, v, cells), top_of(s, v, cells));
            &&& dx >= 0 ==> left_of(s, after, cells) >= x
            &&& dx <= 0 ==> left_of(s, after, cells) <= x
            &&& dy >= 0 ==> top_of(s, after, cells) >= y
            &&& dy <= 0 ==> top_of(s, after, cells) <= y
            &&& after.zoom == v.zoom
            &&& after.heading == v.heading
        }),
{
    let wide = seen_across(s, v.zoom, cells) * (6 * s.num);
    let high = seen_down(s, v.zoom, cells) * (6 * s.num);
    assert(0 <= wide && 0 <= high) by (nonlinear_arith)
        requires
            wide == seen_across(s, v.zoom, cells) * (6 * s.num),
            high == seen_down(s, v.zoom, cells) * (6 * s.num),
            0 < seen_across(s, v.zoom, cells),
            0 < seen_down(s, v.zoom, cells),
            0 < s.num,
    ;
    assert((dx >= 0 ==> dx * wide >= 0) && (dx <= 0 ==> dx * wide <= 0)) by (nonlinear_arith)
        requires
            0 <= wide,
    ;
    lemma_stride_sign(s, v.zoom, dy, cells);
    let half = half_down(s, v.zoom, cells);
    let end = (s.tall() - seen_down(s, v.zoom, cells)) * s.unit();
    lemma_reach(s, v.zoom, cells);
    match row_of(s) {
        None => {},
        Some(row) => {
            lemma_row_positive(s);
            let moved = Aim {
                cy: between(v.cy + stride(s, v.zoom, dy, cells), half, half + end) as i128,
                ..v
            };
            lemma_snap(s, v, cells, row);
            lemma_snap(s, moved, cells, row);
            let (a, b) = (
                if v.cy > half {
                    v.cy - half
                } else {
                    0
                },
                if moved.cy > half {
                    moved.cy - half
                } else {
                    0
                },
            );
            lemma_multiple_keeps_order(a, b, row);
            lemma_multiple_keeps_order(b, a, row);
            assert(panned(s, v, dx, dy, cells).cy == snapped(s, moved, cells));
            assert(half_down(s, moved.zoom, cells) == half);
        },
    }
}

/// A pan of a picture that stays inside of it moves it by as many fifths of what is seen as it was
/// told.
pub proof fn law_a_pan_moves_by_fifths(s: Shown, v: Aim, dx: int, dy: int, cells: (u32, u32))
    requires
        s.wf(),
        v.wf(),
        s.index is None,
        ({
            let z = v.zoom;
            let (w, h) = (seen_across(s, z, cells), seen_down(s, z, cells));
            &&& 0 <= 2 * v.cx - w * s.unit() <= 2 * ((s.wide() - w) * s.unit())
            &&& 0 <= 2 * v.cy - h * s.unit() <= 2 * ((s.tall() - h) * s.unit())
            &&& 0 <= 5 * left_of(s, v, cells) + dx * (w * s.unit()) <= 5 * ((s.wide() - w)
                * s.unit())
            &&& 0 <= 5 * top_of(s, v, cells) + dy * (h * s.unit()) <= 5 * ((s.tall() - h)
                * s.unit())
        }),
    ensures
        ({
            let after = panned(s, v, dx, dy, cells);
            let (w, h) = (seen_across(s, v.zoom, cells), seen_down(s, v.zoom, cells));
            &&& 5 * (left_of(s, after, cells) - left_of(s, v, cells)) == dx * (w * s.unit())
            &&& 5 * (top_of(s, after, cells) - top_of(s, v, cells)) == dy * (h * s.unit())
        }),
{
    let z = v.zoom;
    let (w, h) = (seen_across(s, z, cells), seen_down(s, z, cells));
    let n = s.num as int;
    lemma_reach(s, z, cells);
    assert(dx * (w * s.unit()) == 5 * (dx * (w * (6 * n)))) by (nonlinear_arith)
        requires
            s.unit() == 30 * n,
    ;
    assert(dy * (h * s.unit()) == 5 * (dy * (h * (6 * n)))) by (nonlinear_arith)
        requires
            s.unit() == 30 * n,
    ;
    assert(w * s.unit() == 2 * (w * (15 * n)) && h * s.unit() == 2 * (h * (15 * n)))
        by (nonlinear_arith)
        requires
            s.unit() == 30 * n,
    ;
    lemma_bound(s.wide() - w, 0xffff_ffff, s.unit(), 30 * 0xffff_ffffint);
    lemma_bound(w, 0xffff_ffff, 15 * n, 15 * 0xffff_ffffint);
}

/// A page scrolls by whole rows, one at least and as many as come nearest to the fifths of the window
/// that it was told, wherever it has as many rows to go.
#[verifier::spinoff_prover]
#[verifier::rlimit(60)]
pub proof fn law_a_page_scrolls_by_whole_rows(s: Shown, v: Aim, dy: int, cells: (u32, u32), row: int)
    requires
        s.wf(),
        v.wf(),
        row_of(s) == Some(row),
        snap_of(s, v, cells) == v,
        dy != 0,
        top_of(s, v, cells) % row == 0,
        ({
            let h = seen_down(s, v.zoom, cells);
            let far = (if dy < 0 {
                -dy
            } else {
                dy
            }) * (h * s.unit());
            let top = top_of(s, v, cells);
            &&& dy > 0 ==> 5 * top + far + 5 * row <= 5 * ((s.tall() - h) * s.unit())
            &&& dy < 0 ==> 5 * top >= far + 5 * row
        }),
    ensures
        ({
            let by = top_of(s, panned(s, v, 0, dy, cells), cells) - top_of(s, v, cells);
            let told = dy * (seen_down(s, v.zoom, cells) * s.unit());
            &&& by % row == 0
            &&& dy > 0 ==> by >= row
            &&& dy < 0 ==> by <= -row
            &&& (by == row || by == -row || (2 * (5 * by - told) <= 5 * row && 2 * (5 * by - told)
                >= -(5 * row)))
        }),
{
    let h = seen_down(s, v.zoom, cells);
    let half = half_down(s, v.zoom, cells);
    let n = s.num as int;
    let end = (s.tall() - h) * s.unit();
    lemma_reach(s, v.zoom, cells);
    lemma_row_positive(s);
    lemma_snap(s, v, cells, row);
    let steps = if dy < 0 {
        -dy
    } else {
        dy
    };
    let fifth = h * (6 * n);
    let far = steps * fifth;
    assert(steps * (h * s.unit()) == 5 * far) by (nonlinear_arith)
        requires
            s.unit() == 30 * n,
            far == steps * (h * (6 * n)),
    ;
    assert(dy * (h * s.unit()) == 5 * far || dy * (h * s.unit()) == -(5 * far)) by (nonlinear_arith)
        requires
            dy == steps || dy == -steps,
            steps * (h * s.unit()) == 5 * far,
    ;
    assert((dy > 0 ==> dy * (h * s.unit()) == 5 * far) && (dy < 0 ==> dy * (h * s.unit()) == -(5
        * far))) by (nonlinear_arith)
        requires
            dy > 0 ==> dy == steps,
            dy < 0 ==> dy == -steps,
            steps * (h * s.unit()) == 5 * far,
    ;
    assert(0 <= far) by (nonlinear_arith)
        requires
            far == steps * (h * (6 * n)),
            0 < steps,
            0 < h,
            0 < n,
    ;
    let q = geometry::nearest(far, row);
    geometry::lemma_quotient(2 * far + row, 2 * row);
    assert(q * (2 * row) == 2 * (q * row) && (q + 1) * (2 * row) == 2 * (q * row) + 2 * row)
        by (nonlinear_arith);
    let m = geometry::some(q);
    assert(m * row <= far + row) by (nonlinear_arith)
        requires
            m == q || m == 1,
            2 * (q * row) <= 2 * far + row,
            far >= 0,
            row > 0,
    ;
    assert(m * row >= row) by (nonlinear_arith)
        requires
            m >= 1,
            row > 0,
    ;
    let top = top_of(s, v, cells);
    lemma_bound(h, 0xffff_ffff, 15 * n, 15 * 0xffff_ffffint);
    // a view that rests on a row rests where its top says
    assert(v.cy == half + top) by {
        assert(snapped(s, v, cells) == v.cy);
    }
    let by = if dy > 0 {
        m * row
    } else {
        -(m * row)
    };
    assert(stride(s, v.zoom, dy, cells) == by);
    let moved = Aim { cy: (half + top + by) as i128, ..v };
    lemma_snap(s, moved, cells, row);
    assert(top == row * (top / row)) by {
        vstd::arithmetic::div_mod::lemma_fundamental_div_mod(top, row);
    }
    assert(top + by == (top / row + (if dy > 0 {
        m
    } else {
        -m
    })) * row) by (nonlinear_arith)
        requires
            top == row * (top / row),
            by == m * row || by == -(m * row),
            dy > 0 ==> by == m * row,
            dy <= 0 ==> by == -(m * row),
    ;
    lemma_multiple_of_multiple(top + by, top / row + (if dy > 0 {
        m
    } else {
        -m
    }), row);
    assert(by % row == 0) by {
        vstd::arithmetic::div_mod::lemma_mod_multiples_basic(
            if dy > 0 {
                m
            } else {
                -m
            },
            row,
        );
        assert(by == (if dy > 0 {
            m
        } else {
            -m
        }) * row) by (nonlinear_arith)
            requires
                dy > 0 ==> by == m * row,
                dy <= 0 ==> by == -(m * row),
        ;
    }
    assert(panned(s, v, 0, dy, cells).cy == snapped(s, moved, cells));
}

proof fn lemma_row_positive(s: Shown)
    requires
        s.wf(),
    ensures
        row_of(s) matches Some(row) ==> row > 0,
{
}

/// Half a window above the middle of the lowest and highest views is their top.
proof fn lemma_reach(s: Shown, z: Zoom, cells: (u32, u32))
    requires
        s.wf(),
    ensures
        0 < half_down(s, z, cells),
        0 < half_across(s, z, cells),
        0 <= (s.tall() - seen_down(s, z, cells)) * s.unit(),
        0 <= (s.wide() - seen_across(s, z, cells)) * s.unit(),
        lowest(s, z, cells) == half_down(s, z, cells) + (s.tall() - seen_down(s, z, cells))
            * s.unit(),
        lowest(s, z, cells) <= FAR,
        half_across(s, z, cells) + (s.wide() - seen_across(s, z, cells)) * s.unit() <= FAR,
{
    let (w, h, n) = (seen_across(s, z, cells), seen_down(s, z, cells), s.num as int);
    lemma_positive(h, 15 * n);
    lemma_positive(w, 15 * n);
    lemma_bound(s.tall() - h, 0xffff_ffff, s.unit(), 30 * 0xffff_ffffint);
    lemma_bound(s.wide() - w, 0xffff_ffff, s.unit(), 30 * 0xffff_ffffint);
    lemma_bound(h, 0xffff_ffff, 15 * n, 15 * 0xffff_ffffint);
    lemma_bound(w, 0xffff_ffff, 15 * n, 15 * 0xffff_ffffint);
    assert(s.tall() * s.unit() - h * (15 * n) == h * (15 * n) + (s.tall() - h) * s.unit())
        by (nonlinear_arith)
        requires
            s.unit() == 30 * n,
    ;
}

proof fn lemma_stride_sign(s: Shown, z: Zoom, dy: int, cells: (u32, u32))
    requires
        s.wf(),
    ensures
        dy >= 0 ==> stride(s, z, dy, cells) >= 0,
        dy <= 0 ==> stride(s, z, dy, cells) <= 0,
{
    let fifth = seen_down(s, z, cells) * (6 * s.num);
    lemma_positive(seen_down(s, z, cells), 6 * s.num);
    assert((dy >= 0 ==> dy * fifth >= 0) && (dy <= 0 ==> dy * fifth <= 0)) by (nonlinear_arith)
        requires
            0 < fifth,
    ;
    if let Some(row) = row_of(s) {
        let n = geometry::some(
            geometry::nearest(
                (if dy < 0 {
                    -dy
                } else {
                    dy
                }) * fifth,
                row,
            ),
        );
        lemma_positive(n, row);
    }
}

proof fn lemma_multiple_keeps_order(a: int, b: int, step: int)
    requires
        0 < step,
    ensures
        a <= b ==> nearest_multiple(a, step) <= nearest_multiple(b, step),
{
    let (x, y) = ((2 * a + step) / (2 * step), (2 * b + step) / (2 * step));
    if a <= b {
        assert(x <= y) by (nonlinear_arith)
            requires
                x == (2 * a + step) / (2 * step),
                y == (2 * b + step) / (2 * step),
                a <= b,
                0 < step,
        ;
        assert(x * step <= y * step) by (nonlinear_arith)
            requires
                x <= y,
                0 < step,
        ;
    }
}

proof fn lemma_multiple_of_multiple(n: int, k: int, step: int)
    requires
        0 < step,
        n == k * step,
    ensures
        nearest_multiple(n, step) == n,
{
    assert((2 * n + step) / (2 * step) == k) by (nonlinear_arith)
        requires
            n == k * step,
            0 < step,
    ;
}

/// The top of a picture or a page is where nothing lies above what is seen, and the bottom of a
/// picture where nothing lies below. The bottom of a page is the row nearest to that.
pub proof fn law_the_ends_are_the_ends(s: Shown, v: Aim, cells: (u32, u32))
    requires
        s.wf(),
        v.wf(),
    ensures
        ({
            let end = (s.tall() - seen_down(s, v.zoom, cells)) * s.unit();
            let bottom = top_of(s, at_end(s, v, false, cells), cells);
            &&& top_of(s, at_end(s, v, true, cells), cells) == 0
            &&& s.index is None ==> bottom == end
            &&& row_of(s) matches Some(row) ==> bottom <= end && 2 * (end - bottom) <= row && (
            bottom == end || bottom % row == 0)
            &&& at_end(s, v, true, cells).cx == v.cx
            &&& at_end(s, v, false, cells).cx == v.cx
            &&& at_end(s, v, true, cells).zoom == v.zoom
            &&& at_end(s, v, false, cells).zoom == v.zoom
        }),
{
    lemma_reach(s, v.zoom, cells);
    if let Some(row) = row_of(s) {
        let half = half_down(s, v.zoom, cells);
        let end = (s.tall() - seen_down(s, v.zoom, cells)) * s.unit();
        let top = Aim { cy: half as i128, ..v };
        let low = Aim { cy: (half + end) as i128, ..v };
        lemma_snap(s, top, cells, row);
        lemma_snap(s, low, cells, row);
        lemma_multiple_of_multiple(0, 0, row);
        let q = geometry::nearest(end, row);
        geometry::lemma_quotient(2 * end + row, 2 * row);
        assert(2 * (end - q * row) <= row) by (nonlinear_arith)
            requires
                2 * end + row < (q + 1) * (2 * row),
        ;
        vstd::arithmetic::div_mod::lemma_mod_multiples_basic(q, row);
    }
}

/// To go to a row of a page puts it a third of the way down the window, to the nearest row, wherever
/// the page has as much above it and below it; else it goes as far as the page does.
pub proof fn law_a_row_gone_to_stands_a_third_down(
    s: Shown,
    v: Aim,
    ix: Index,
    r: int,
    cells: (u32, u32),
    row: int,
)
    requires
        s.wf(),
        v.wf(),
        s.index == Some(ix),
        row_of(s) == Some(row),
        0 <= r <= u32::MAX,
    ensures
        ({
            let after = scrolled(s, v, ix, r, cells);
            let top = top_of(s, after, cells);
            let window = seen_down(s, v.zoom, cells) * s.unit();
            let end = (s.tall() - seen_down(s, v.zoom, cells)) * s.unit();
            let at = r * row;
            &&& window + 3 * row <= 3 * at && 3 * at <= 3 * end + window - 3 * row ==> -(3 * row) <= 3
                * (at - top) - window <= 3 * row
            &&& 3 * at <= window - 3 * row ==> top == 0
            &&& 3 * at >= 3 * end + window + 3 * row ==> top <= end && 2 * (end - top) <= row
            &&& after.cx == v.cx
            &&& after.zoom == v.zoom
        }),
{
    let h = seen_down(s, v.zoom, cells);
    let n = s.num as int;
    let half = half_down(s, v.zoom, cells);
    let end = (s.tall() - h) * s.unit();
    let window = h * s.unit();
    let sixth = h * (5 * n);
    lemma_reach(s, v.zoom, cells);
    lemma_row_positive(s);
    lemma_positive(h, 5 * n);
    assert(window == 6 * sixth && half == 3 * sixth) by (nonlinear_arith)
        requires
            window == h * (30 * n),
            half == h * (15 * n),
            sixth == h * (5 * n),
    ;
    let at = r * row;
    assert(row_at(s, ix, r) == at);
    assert(0 <= at) by (nonlinear_arith)
        requires
            at == r * row,
            0 <= r,
            0 < row,
    ;
    let above = nearest_multiple(sixth, row);
    lemma_near(sixth, row);
    let cy = between(at + above, half, half + end);
    let moved = Aim { cy: cy as i128, ..v };
    lemma_snap(s, moved, cells, row);
    lemma_near(cy - half, row);
    lemma_near(end, row);
    lemma_multiple_of_multiple(0, 0, row);
    assert(scrolled(s, v, ix, r, cells) == snap_of(s, moved, cells));
}

proof fn lemma_near(n: int, step: int)
    requires
        0 < step,
    ensures
        2 * (nearest_multiple(n, step) - n) <= step,
        2 * (n - nearest_multiple(n, step)) <= step,
{
    let q = geometry::nearest(n, step);
    geometry::lemma_quotient(2 * n + step, 2 * step);
    assert(2 * (q * step - n) <= step && 2 * (n - q * step) <= step) by (nonlinear_arith)
        requires
            q * (2 * step) <= 2 * n + step < (q + 1) * (2 * step),
    ;
}

/// A view at rest is not zoomed, and a picture's is centred on its middle.
pub proof fn law_at_rest_a_picture_is_centred(s: Shown, cells: (u32, u32))
    requires
        s.wf(),
    ensures
        at_rest(s, cells).zoom.num == at_rest(s, cells).zoom.den,
        at_rest(s, cells).heading is None,
        2 * at_rest(s, cells).cx == s.w * s.unit(),
        s.kind == Kind::Image ==> 2 * at_rest(s, cells).cy == s.h * s.unit(),
{
    let n = s.num as int;
    lemma_bound(s.w as int, 0xffff_ffff, 15 * n, 15 * 0xffff_ffffint);
    lemma_bound(s.h as int, 0xffff_ffff, 15 * n, 15 * 0xffff_ffffint);
    assert(2 * (s.w * (15 * n)) == s.w * s.unit() && 2 * (s.h * (15 * n)) == s.h * s.unit())
        by (nonlinear_arith)
        requires
            s.unit() == 30 * n,
    ;
}

/// A step closer is never further off and a step off never closer. Short of the ends of the range a
/// step closer is closer, but for the rounding of a fraction that has grown too long.
pub proof fn law_a_zoom_goes_where_it_is_told(z: Zoom, dir: int)
    requires
        z.wf(),
        times(z, 5, 4).0 <= ZOOM_LIMIT,
        times(z, 4, 5).0 <= ZOOM_LIMIT,
    ensures
        ({
            let after = zoomed(z, dir);
            &&& dir > 0 ==> after.num * z.den >= z.num * after.den
            &&& dir <= 0 ==> after.num * z.den <= z.num * after.den
            &&& dir > 0 && z.num * 5 < (32 * z.den) * 4 ==> after.num * (z.den * 4) == (z.num * 5)
                * after.den
            &&& dir <= 0 && z.num * 4 > z.den * 5 ==> after.num * (z.den * 5) == (z.num * 4)
                * after.den
        }),
{
    let (up, down): (int, int) = if dir > 0 {
        (5, 4)
    } else {
        (4, 5)
    };
    lemma_times(z, up, down);
    let f = times(z, up, down);
    let after = zoomed(z, dir);
    let (zn, zd) = (z.num as int, z.den as int);
    assert(f.1 > 0 && f.0 > 0) by (nonlinear_arith)
        requires
            f.0 * (zd * down) == (zn * up) * f.1,
            0 < zd <= zn,
            f.0 > 0 || f.1 > 0,
            f.0 >= 0,
            f.1 >= 0,
            up > 0,
            down > 0,
    ;
    let (an, ad) = (after.num as int, after.den as int);
    if dir > 0 {
        assert(f.0 > f.1) by (nonlinear_arith)
            requires
                f.0 * (zd * 4) == (zn * 5) * f.1,
                0 < zd <= zn,
                f.0 > 0,
                f.1 > 0,
        ;
        if f.0 >= 32 * f.1 {
            assert(zn * 5 >= (32 * zd) * 4) by (nonlinear_arith)
                requires
                    f.0 * (zd * 4) == (zn * 5) * f.1,
                    f.0 >= 32 * f.1,
                    f.1 > 0,
                    zd > 0,
            ;
            lemma_one_of(32, zd, zn);
        } else {
            assert(f.0 * zd >= zn * f.1) by (nonlinear_arith)
                requires
                    f.0 * (zd * 4) == (zn * 5) * f.1,
                    f.1 > 0,
                    zn > 0,
            ;
        }
    } else {
        if f.0 <= f.1 {
            assert(zn * 4 <= zd * 5) by (nonlinear_arith)
                requires
                    f.0 * (zd * 5) == (zn * 4) * f.1,
                    f.0 <= f.1,
                    f.1 > 0,
                    zd > 0,
            ;
            lemma_one_of(1, zd, zn);
        } else if f.0 >= 32 * f.1 {
            assert(false) by (nonlinear_arith)
                requires
                    f.0 * (zd * 5) == (zn * 4) * f.1,
                    f.0 >= 32 * f.1,
                    f.1 > 0,
                    0 < zd,
                    zn <= 32 * zd,
            ;
        } else {
            assert(f.0 * zd <= zn * f.1) by (nonlinear_arith)
                requires
                    f.0 * (zd * 5) == (zn * 4) * f.1,
                    f.1 > 0,
                    zn > 0,
                    f.0 > 0,
                    zd > 0,
            ;
        }
    }
}

proof fn lemma_one_of(k: int, zd: int, zn: int)
    ensures
        k * zd == zd * k,
        zn * 1 == zn,
{
    assert(k * zd == zd * k) by (nonlinear_arith);
}

/// The closer a picture is seen, the less of it is.
#[verifier::spinoff_prover]
#[verifier::rlimit(60)]
pub proof fn law_closer_sees_less(s: Shown, a: Zoom, b: Zoom, cells: (u32, u32))
    requires
        s.wf(),
        a.wf(),
        b.wf(),
        a.num * b.den >= b.num * a.den,
    ensures
        seen_across(s, a, cells) <= seen_across(s, b, cells),
        seen_down(s, a, cells) <= seen_down(s, b, cells),
        box_across(s, a, cells) >= box_across(s, b, cells),
        box_down(s, a, cells) >= box_down(s, b, cells),
{
    let across = cols_in(cells) * s.cell.w;
    let down = rows_in(cells) * s.cell.h;
    lemma_positive(cols_in(cells), s.cell.w as int);
    lemma_positive(rows_in(cells), s.cell.h as int);
    let (w, h) = (s.wide(), s.tall());
    lemma_positive(across, s.den as int);
    lemma_positive(down, s.den as int);
    lemma_positive(across, h);
    lemma_positive(down, w);
    lemma_positive(w, s.num as int);
    lemma_positive(h, s.num as int);
    lemma_positive(s.cell.w as int, s.den as int);
    lemma_positive(s.cell.h as int, s.den as int);
    lemma_positive(h, s.cell.w as int);
    lemma_positive(w, s.cell.h as int);
    match limit_of(s, cells) {
        Limit::Own => {
            lemma_nearest_falls(across * s.den, s.num as int, a, b);
            lemma_nearest_falls(down * s.den, s.num as int, a, b);
            lemma_up_rises(w * s.num, s.cell.w * s.den, a, b);
            lemma_up_rises(h * s.num, s.cell.h * s.den, a, b);
        },
        Limit::Width => {
            lemma_nearest_falls(w, 1, a, b);
            lemma_nearest_falls(down * w, across, a, b);
            lemma_up_rises(cols_in(cells), 1, a, b);
            lemma_up_rises(across * h, w * s.cell.h, a, b);
        },
        Limit::Height => {
            lemma_nearest_falls(across * h, down, a, b);
            lemma_nearest_falls(h, 1, a, b);
            lemma_up_rises(down * w, h * s.cell.w, a, b);
            lemma_up_rises(rows_in(cells), 1, a, b);
        },
    }
}

proof fn lemma_nearest_falls(x: int, y: int, a: Zoom, b: Zoom)
    requires
        0 < x,
        0 < y,
        a.wf(),
        b.wf(),
        a.num * b.den >= b.num * a.den,
    ensures
        geometry::nearest(x * a.den, y * a.num) <= geometry::nearest(x * b.den, y * b.num),
{
    let (p, q) = (x * a.den, y * a.num);
    let (r, t) = (x * b.den, y * b.num);
    lemma_positive(y, a.num as int);
    lemma_positive(y, b.num as int);
    lemma_positive(x, y);
    let (xy, u, w) = (x * y, a.den * b.num, b.den * a.num);
    assert(u == b.num * a.den && w == a.num * b.den) by (nonlinear_arith)
        requires
            u == a.den * b.num,
            w == b.den * a.num,
    ;
    assert(p * t == xy * u) by (nonlinear_arith)
        requires
            p == x * a.den,
            t == y * b.num,
            xy == x * y,
            u == a.den * b.num,
    ;
    assert(r * q == xy * w) by (nonlinear_arith)
        requires
            r == x * b.den,
            q == y * a.num,
            xy == x * y,
            w == b.den * a.num,
    ;
    assert(xy * u <= xy * w) by (nonlinear_arith)
        requires
            xy > 0,
            u <= w,
    ;
    let (m, n) = (geometry::nearest(p, q), geometry::nearest(r, t));
    geometry::lemma_quotient(2 * p + q, 2 * q);
    geometry::lemma_quotient(2 * r + t, 2 * t);
    if m > n {
        // m * 2q <= 2p + q and 2r + t < (n + 1) * 2t
        assert((2 * m - 1) * q <= 2 * p) by (nonlinear_arith)
            requires
                m * (2 * q) <= 2 * p + q,
        ;
        assert(2 * r < (2 * n + 1) * t) by (nonlinear_arith)
            requires
                2 * r + t < (n + 1) * (2 * t),
        ;
        assert((2 * m - 1) * q * t <= 2 * (p * t)) by (nonlinear_arith)
            requires
                (2 * m - 1) * q <= 2 * p,
                t > 0,
        ;
        assert(2 * (r * q) < (2 * n + 1) * t * q) by (nonlinear_arith)
            requires
                2 * r < (2 * n + 1) * t,
                q > 0,
        ;
        let qt = q * t;
        lemma_positive(q, t);
        assert((2 * m - 1) * q * t == (2 * m - 1) * qt) by (nonlinear_arith)
            requires
                qt == q * t,
        ;
        assert((2 * n + 1) * t * q == (2 * n + 1) * qt) by (nonlinear_arith)
            requires
                qt == q * t,
        ;
        assert((2 * m - 1) * qt >= (2 * n + 1) * qt) by (nonlinear_arith)
            requires
                m >= n + 1,
                qt > 0,
        ;
    }
}

proof fn lemma_up_rises(x: int, y: int, a: Zoom, b: Zoom)
    requires
        0 < x,
        0 < y,
        a.wf(),
        b.wf(),
        a.num * b.den >= b.num * a.den,
    ensures
        up((x * a.num, y * a.den)) >= up((x * b.num, y * b.den)),
{
    let (p, q) = (x * a.num, y * a.den);
    let (r, t) = (x * b.num, y * b.den);
    lemma_positive(y, a.den as int);
    lemma_positive(y, b.den as int);
    lemma_positive(x, y);
    let (xy, u, w) = (x * y, a.num * b.den, b.num * a.den);
    assert(p * t == xy * u) by (nonlinear_arith)
        requires
            p == x * a.num,
            t == y * b.den,
            xy == x * y,
            u == a.num * b.den,
    ;
    assert(r * q == xy * w) by (nonlinear_arith)
        requires
            r == x * b.num,
            q == y * a.den,
            xy == x * y,
            w == b.num * a.den,
    ;
    assert(xy * w <= xy * u) by (nonlinear_arith)
        requires
            xy > 0,
            w <= u,
    ;
    let (m, n) = (up((p, q)), up((r, t)));
    geometry::lemma_quotient(p + q - 1, q);
    geometry::lemma_quotient(r + t - 1, t);
    if m < n {
        assert(p <= m * q) by (nonlinear_arith)
            requires
                p + q - 1 < (m + 1) * q,
        ;
        assert((n - 1) * t < r) by (nonlinear_arith)
            requires
                n * t <= r + t - 1,
        ;
        assert(p * t <= m * q * t) by (nonlinear_arith)
            requires
                p <= m * q,
                t > 0,
        ;
        assert((n - 1) * t * q < r * q) by (nonlinear_arith)
            requires
                (n - 1) * t < r,
                q > 0,
        ;
        let qt = q * t;
        lemma_positive(q, t);
        assert(m * q * t == m * qt) by (nonlinear_arith)
            requires
                qt == q * t,
        ;
        assert((n - 1) * t * q == (n - 1) * qt) by (nonlinear_arith)
            requires
                qt == q * t,
        ;
        assert(m * qt <= (n - 1) * qt) by (nonlinear_arith)
            requires
                m <= n - 1,
                qt > 0,
        ;
    }
}

/// What is drawn is drawn to one scale: as many of the terminal's pixels to a pixel of the image
/// across as down. At rest that is never more than the pixel stands for.
#[verifier::spinoff_prover]
#[verifier::rlimit(60)]
pub proof fn law_one_scale_both_ways(s: Shown, z: Zoom, cells: (u32, u32))
    requires
        s.wf(),
        z.wf(),
    ensures
        ({
            let (a, d) = (cover_across(s, z, cells), cover_down(s, z, cells));
            &&& (a.0 * s.cell.w) * (s.tall() * d.1) == (d.0 * s.cell.h) * (s.wide() * a.1)
            &&& z.num == z.den ==> (a.0 * s.cell.w) * s.den <= (s.wide() * s.num) * a.1
            &&& z.num == z.den ==> (d.0 * s.cell.h) * s.den <= (s.tall() * s.num) * d.1
        }),
{
    let across = cols_in(cells) * s.cell.w;
    let down = rows_in(cells) * s.cell.h;
    let (w, h, cw, ch) = (s.wide(), s.tall(), s.cell.w as int, s.cell.h as int);
    let (n, m, zn, zd) = (s.num as int, s.den as int, z.num as int, z.den as int);
    lemma_positive(cols_in(cells), cw);
    lemma_positive(rows_in(cells), ch);
    let (a, d) = (cover_across(s, z, cells), cover_down(s, z, cells));
    match limit_of(s, cells) {
        Limit::Own => {
            let (p, q, r, t) = (w * cw, h * ch, n * zn, m * zd);
            assert(w * n * zn * cw == p * r && h * n * zn * ch == q * r) by (nonlinear_arith)
                requires
                    p == w * cw,
                    q == h * ch,
                    r == n * zn,
            ;
            assert(h * (ch * m * zd) == q * t && w * (cw * m * zd) == p * t) by (nonlinear_arith)
                requires
                    p == w * cw,
                    q == h * ch,
                    t == m * zd,
            ;
            assert((p * r) * (q * t) == (q * r) * (p * t)) by (nonlinear_arith);
            if zn == zd {
                assert((w * n * zn * cw) * m == (w * n) * (cw * m * zd)) by (nonlinear_arith)
                    requires
                        zn == zd,
                ;
                assert((h * n * zn * ch) * m == (h * n) * (ch * m * zd)) by (nonlinear_arith)
                    requires
                        zn == zd,
                ;
            }
        },
        Limit::Width => {
            let c = cols_in(cells);
            let (p, q, t) = (c * zn * cw, h * ch, w * zd);
            assert(h * (w * ch * zd) == q * t) by (nonlinear_arith)
                requires
                    q == h * ch,
                    t == w * zd,
            ;
            assert(across * h * zn * ch == p * q) by (nonlinear_arith)
                requires
                    across == c * cw,
                    p == c * zn * cw,
                    q == h * ch,
            ;
            assert(p * (q * t) == (p * q) * t) by (nonlinear_arith);
            if zn == zd {
                lemma_held_by_width(s, cells);
                let x = across * m;
                assert((c * zn * cw) * m == x * zd) by (nonlinear_arith)
                    requires
                        x == c * cw * m,
                        zn == zd,
                ;
                assert(x * zd <= (w * n) * zd) by (nonlinear_arith)
                    requires
                        x <= w * n,
                        zd > 0,
                ;
                let y = h * ch * zd;
                assert((across * h * zn * ch) * m == x * y) by (nonlinear_arith)
                    requires
                        x == across * m,
                        y == h * ch * zd,
                        zn == zd,
                ;
                assert((h * n) * (w * ch * zd) == (w * n) * y) by (nonlinear_arith)
                    requires
                        y == h * ch * zd,
                ;
                assert(x * y <= (w * n) * y) by (nonlinear_arith)
                    requires
                        x <= w * n,
                        y == h * ch * zd,
                        0 < h,
                        0 < ch,
                        0 < zd,
                ;
            }
        },
        Limit::Height => {
            let r = rows_in(cells);
            let (p, q, t) = (r * zn * ch, w * cw, h * zd);
            assert(w * (h * cw * zd) == q * t) by (nonlinear_arith)
                requires
                    q == w * cw,
                    t == h * zd,
            ;
            assert(down * w * zn * cw == p * q) by (nonlinear_arith)
                requires
                    down == r * ch,
                    p == r * zn * ch,
                    q == w * cw,
            ;
            assert(p * (q * t) == (p * q) * t) by (nonlinear_arith);
            if zn == zd {
                lemma_held_by_height(s, cells);
                let x = down * m;
                assert((r * zn * ch) * m == x * zd) by (nonlinear_arith)
                    requires
                        x == r * ch * m,
                        zn == zd,
                ;
                assert(x * zd <= (h * n) * zd) by (nonlinear_arith)
                    requires
                        x <= h * n,
                        zd > 0,
                ;
                let y = w * cw * zd;
                assert((down * w * zn * cw) * m == x * y) by (nonlinear_arith)
                    requires
                        x == down * m,
                        y == w * cw * zd,
                        zn == zd,
                ;
                assert((w * n) * (h * cw * zd) == (h * n) * y) by (nonlinear_arith)
                    requires
                        y == w * cw * zd,
                ;
                assert(x * y <= (h * n) * y) by (nonlinear_arith)
                    requires
                        x <= h * n,
                        y == w * cw * zd,
                        0 < w,
                        0 < cw,
                        0 < zd,
                ;
            }
        },
    }
}

proof fn lemma_held_by_width(s: Shown, cells: (u32, u32))
    requires
        s.wf(),
        limit_of(s, cells) == Limit::Width,
    ensures
        cols_in(cells) * s.cell.w * s.den <= s.wide() * s.num,
{
    let across = cols_in(cells) * s.cell.w;
    let down = rows_in(cells) * s.cell.h;
    let (w, h, n, m) = (s.wide(), s.tall(), s.num as int, s.den as int);
    lemma_positive(cols_in(cells), s.cell.w as int);
    if across * m > w * n {
        assert(down * m < h * n);
        assert(false) by (nonlinear_arith)
            requires
                across * m > w * n,
                down * m < h * n,
                across * h <= down * w,
                0 < w,
                0 < h,
                0 < n,
                0 < m,
        ;
    }
}

proof fn lemma_held_by_height(s: Shown, cells: (u32, u32))
    requires
        s.wf(),
        limit_of(s, cells) == Limit::Height,
    ensures
        rows_in(cells) * s.cell.h * s.den <= s.tall() * s.num,
{
    let across = cols_in(cells) * s.cell.w;
    let down = rows_in(cells) * s.cell.h;
    let (w, h, n, m) = (s.wide(), s.tall(), s.num as int, s.den as int);
    if down * m > h * n {
        assert(across * m < w * n);
        assert(false) by (nonlinear_arith)
            requires
                down * m > h * n,
                across * m < w * n,
                across * h > down * w,
                0 < w,
                0 < h,
                0 < n,
                0 < m,
        ;
    }
}

/// A page lies behind the text that is written over it, and a picture in front; a page is held to the
/// width of the window and not to its height.
pub proof fn law_a_page_lies_behind_its_marks(s: Shown, v: Aim, cells: (u32, u32))
    ensures
        s.kind == Kind::Document ==> placement_of(s, v, cells).z < 0,
        s.kind == Kind::Image ==> placement_of(s, v, cells).z == 0,
        s.kind == Kind::Document ==> !(limit_of(s, cells) is Height),
{
}

/// What is seen fills the window, to the scale it is drawn at: as much of the image is seen either way
/// as the window is of what the whole of it would cover, to the nearest pixel, and all of it where that
/// is more. It is drawn in as few whole cells as hold it, and no more than the window has.
#[verifier::spinoff_prover]
#[verifier::rlimit(60)]
pub proof fn law_what_is_seen_fills_the_window(s: Shown, z: Zoom, cells: (u32, u32))
    requires
        s.wf(),
        z.wf(),
    ensures
        ({
            let (a, d) = (room_across(s, z, cells), room_down(s, z, cells));
            let (ca, cd) = (cover_across(s, z, cells), cover_down(s, z, cells));
            let (w, h) = (seen_across(s, z, cells), seen_down(s, z, cells));
            let (bw, bh) = (box_across(s, z, cells), box_down(s, z, cells));
            &&& a.1 > 0 && d.1 > 0 && ca.1 > 0 && cd.1 > 0
            &&& a.0 * ca.0 == (s.wide() * cols_in(cells)) * (a.1 * ca.1)
            &&& d.0 * cd.0 == (s.tall() * rows_in(cells)) * (d.1 * cd.1)
            &&& 1 < w < s.wide() ==> 2 * (w * a.1 - a.0) <= a.1 && 2 * (a.0 - w * a.1) <= a.1
            &&& 1 < h < s.tall() ==> 2 * (h * d.1 - d.0) <= d.1 && 2 * (d.0 - h * d.1) <= d.1
            &&& a.0 >= s.wide() * a.1 ==> w == s.wide()
            &&& d.0 >= s.tall() * d.1 ==> h == s.tall()
            &&& 1 < bw < cols_in(cells) ==> (bw - 1) * ca.1 < ca.0 <= bw * ca.1
            &&& 1 < bh < rows_in(cells) ==> (bh - 1) * cd.1 < cd.0 <= bh * cd.1
            &&& ca.0 >= cols_in(cells) * ca.1 ==> bw == cols_in(cells)
            &&& cd.0 >= rows_in(cells) * cd.1 ==> bh == rows_in(cells)
        }),
{
    let (c, r) = (cols_in(cells), rows_in(cells));
    let (cw, ch) = (s.cell.w as int, s.cell.h as int);
    let (across, down) = (c * cw, r * ch);
    let (w, h, n, m, zn, zd) = (
        s.wide(),
        s.tall(),
        s.num as int,
        s.den as int,
        z.num as int,
        z.den as int,
    );
    lemma_positive(c, cw);
    lemma_positive(r, ch);
    lemma_positive(n, zn);
    lemma_positive(cw, m);
    lemma_positive(cw * m, zd);
    lemma_positive(ch, m);
    lemma_positive(ch * m, zd);
    lemma_positive(across, zn);
    lemma_positive(down, zn);
    lemma_positive(w, ch);
    lemma_positive(w * ch, zd);
    lemma_positive(h, cw);
    lemma_positive(h * cw, zd);
    let (a, d) = (room_across(s, z, cells), room_down(s, z, cells));
    let (ca, cd) = (cover_across(s, z, cells), cover_down(s, z, cells));
    match limit_of(s, cells) {
        Limit::Own => {
            lemma_six(w, c, cw, m, zd, n * zn);
            lemma_six(h, r, ch, m, zd, n * zn);
            assert(w * n * zn == w * (n * zn) && h * n * zn == h * (n * zn)) by (nonlinear_arith);
        },
        Limit::Width => {
            assert((w * zd) * (c * zn) == (w * c) * (zn * zd)) by (nonlinear_arith);
            lemma_cross_room(down, w, zd, across, h, zn, ch, r);
        },
        Limit::Height => {
            assert((h * zd) * (r * zn) == (h * r) * (zn * zd)) by (nonlinear_arith);
            lemma_cross_room(across, h, zd, down, w, zn, cw, c);
        },
    }
    lemma_between_near(a, w);
    lemma_between_near(d, h);
    lemma_between_up(ca, c);
    lemma_between_up(cd, r);
}

proof fn lemma_six(w: int, c: int, cw: int, m: int, zd: int, k: int)
    ensures
        (c * cw * m * zd) * (w * k) == (w * c) * (k * (cw * m * zd)),
{
    let t = cw * m * zd;
    assert(c * cw * m * zd == c * t) by (nonlinear_arith)
        requires
            t == cw * m * zd,
    ;
    assert((c * t) * (w * k) == (w * c) * (k * t)) by (nonlinear_arith);
}

/// The side that the other one limits.
proof fn lemma_cross_room(down: int, w: int, zd: int, across: int, h: int, zn: int, ch: int, r: int)
    requires
        down == r * ch,
    ensures
        (down * w * zd) * (across * h * zn) == (h * r) * ((across * zn) * (w * ch * zd)),
{
    let (p, q) = (across * zn, w * zd);
    assert(across * h * zn == h * p) by (nonlinear_arith)
        requires
            p == across * zn,
    ;
    assert(down * w * zd == down * q) by (nonlinear_arith)
        requires
            q == w * zd,
    ;
    assert(w * ch * zd == ch * q) by (nonlinear_arith)
        requires
            q == w * zd,
    ;
    assert((down * q) * (h * p) == (h * r) * (p * (ch * q))) by (nonlinear_arith)
        requires
            down == r * ch,
    ;
}

proof fn lemma_between_near(f: (int, int), most: int)
    requires
        0 < f.1,
        1 <= most,
    ensures
        ({
            let n = between(geometry::nearest(f.0, f.1), 1, most);
            &&& 1 < n < most ==> 2 * (n * f.1 - f.0) <= f.1 && 2 * (f.0 - n * f.1) <= f.1
            &&& f.0 >= most * f.1 ==> n == most
        }),
{
    let q = geometry::nearest(f.0, f.1);
    geometry::lemma_quotient(2 * f.0 + f.1, 2 * f.1);
    assert(2 * (q * f.1 - f.0) <= f.1 && 2 * (f.0 - q * f.1) <= f.1) by (nonlinear_arith)
        requires
            q * (2 * f.1) <= 2 * f.0 + f.1 < (q + 1) * (2 * f.1),
    ;
    if f.0 >= most * f.1 {
        lemma_nearest_at_least(f.0, f.1, most);
    }
}

proof fn lemma_between_up(f: (int, int), most: int)
    requires
        0 < f.1,
        1 <= most,
    ensures
        ({
            let n = between(up(f), 1, most);
            &&& 1 < n < most ==> (n - 1) * f.1 < f.0 <= n * f.1
            &&& f.0 >= most * f.1 ==> n == most
        }),
{
    let q = up(f);
    geometry::lemma_quotient(f.0 + f.1 - 1, f.1);
    assert((q - 1) * f.1 < f.0 <= q * f.1) by (nonlinear_arith)
        requires
            q * f.1 <= f.0 + f.1 - 1 < (q + 1) * f.1,
    ;
    if f.0 >= most * f.1 {
        assert(q >= most) by (nonlinear_arith)
            requires
                f.0 <= q * f.1,
                f.0 >= most * f.1,
                f.1 > 0,
        ;
    }
}

/// At rest a picture is as large as the window has room for: none of it lies outside, and it touches a
/// side of the window or is shown pixel for pixel. A page does the same across.
pub proof fn law_at_rest_the_window_is_filled(s: Shown, cells: (u32, u32))
    requires
        s.wf(),
    ensures
        ({
            let z = Zoom { num: 1, den: 1 };
            let (a, d) = (cover_across(s, z, cells), cover_down(s, z, cells));
            let own = a.0 * (s.cell.w * s.den) == (s.wide() * s.num) * a.1;
            &&& a.0 <= cols_in(cells) * a.1
            &&& s.kind == Kind::Image ==> d.0 <= rows_in(cells) * d.1
            &&& own || a.0 == cols_in(cells) * a.1 || (s.kind == Kind::Image && d.0 == rows_in(cells)
                * d.1)
        }),
{
    let (c, r) = (cols_in(cells), rows_in(cells));
    let (cw, ch) = (s.cell.w as int, s.cell.h as int);
    let (across, down) = (c * cw, r * ch);
    let (w, h, n, m) = (s.wide(), s.tall(), s.num as int, s.den as int);
    lemma_positive(c, cw);
    lemma_positive(r, ch);
    let z = Zoom { num: 1, den: 1 };
    let one = z.num as int;
    match limit_of(s, cells) {
        Limit::Own => {
            lemma_times_one(w * n, one);
            lemma_times_one(h * n, one);
            lemma_times_one(cw * m, one);
            lemma_times_one(ch * m, one);
            assert(c * (cw * m) == across * m && r * (ch * m) == down * m) by (nonlinear_arith)
                requires
                    across == c * cw,
                    down == r * ch,
            ;
        },
        Limit::Width => {
            lemma_times_one(c, one);
            lemma_times_one(across * h, one);
            lemma_times_one(w * ch, one);
            assert(across * h <= r * (w * ch) || s.kind == Kind::Document) by (nonlinear_arith)
                requires
                    s.kind == Kind::Image ==> across * h <= down * w,
                    down == r * ch,
            ;
        },
        Limit::Height => {
            lemma_times_one(r, one);
            lemma_times_one(down * w, one);
            lemma_times_one(h * cw, one);
            assert(down * w <= c * (h * cw)) by (nonlinear_arith)
                requires
                    across * h > down * w,
                    across == c * cw,
            ;
        },
    }
}

/// A view shows what it is centred on in the middle of the window, wherever the image reaches that far
/// either way, and its edge where it does not.
pub proof fn law_a_view_is_centred(s: Shown, v: Aim, cells: (u32, u32))
    requires
        s.wf(),
        v.wf(),
    ensures
        ({
            let (w, h) = (seen_across(s, v.zoom, cells), seen_down(s, v.zoom, cells));
            let (right, low) = ((s.wide() - w) * s.unit(), (s.tall() - h) * s.unit());
            let (x, y) = (left_of(s, v, cells), top_of(s, v, cells));
            let p = placement_of(s, v, cells);
            &&& 0 <= 2 * v.cx - w * s.unit() <= 2 * right ==> 2 * x + w * s.unit() == 2 * v.cx
            &&& 0 <= 2 * v.cy - h * s.unit() <= 2 * low ==> 2 * y + h * s.unit() == 2 * v.cy
            &&& 2 * v.cx <= w * s.unit() ==> x == 0
            &&& 2 * v.cy <= h * s.unit() ==> y == 0
            &&& 2 * v.cx - w * s.unit() >= 2 * right ==> x == right
            &&& 2 * v.cy - h * s.unit() >= 2 * low ==> y == low
            &&& p.src_x * s.unit() <= x < (p.src_x + 1) * s.unit()
            &&& p.src_y * s.unit() <= y < (p.src_y + 1) * s.unit()
            &&& p.src_w == w && p.src_h == h
            &&& p.cols == box_across(s, v.zoom, cells) && p.rows == box_down(s, v.zoom, cells)
        }),
{
    let (w, h, n) = (
        seen_across(s, v.zoom, cells),
        seen_down(s, v.zoom, cells),
        s.num as int,
    );
    lemma_reach(s, v.zoom, cells);
    assert(w * s.unit() == 2 * (w * (15 * n)) && h * s.unit() == 2 * (h * (15 * n)))
        by (nonlinear_arith)
        requires
            s.unit() == 30 * n,
    ;
    let (x, y) = (left_of(s, v, cells), top_of(s, v, cells));
    geometry::lemma_quotient(x, s.unit());
    geometry::lemma_quotient(y, s.unit());
    lemma_floor(x, s.wide() - w, s.unit());
    lemma_floor(y, s.tall() - h, s.unit());
}

} // verus!
