//! A page in bands, and where each is drawn.

use vstd::prelude::*;

use crate::framebuffer::Framebuffer;
use crate::geometry;
use crate::geometry::cut;
use crate::render::kitty;
use crate::render::kitty::{encode, next_id, Encoded, Placement};
use crate::tui::view;
use crate::tui::view::{placement, window, Band, Shown, Aim};

verus! {

/// How much of a page goes into one transmitted image.
//
// herdr drops an image whose base64-estimated size passes 30
// MiB, which is 23.5MB of pixels, with no error reply and
// nothing in its log. kitty, ghostty and herdr all refuse a
// side over 10000px as well. four megapixels is 16MB of RGBA
// and about 3000 rows, which clears both with room to spare
pub const BAND_PIXELS: u32 = 4_000_000;

/// The longest side a terminal will store.
//
// kitty's own limit, inherited by ghostty and by the ghostty
// core herdr is built on: `max_dimension = 10000`. a narrow
// page can sit under BAND_PIXELS and still pass it
pub const MAX_SIDE: u32 = 10_000;

/// Transmitted size as a multiple of the viewport, for zoom.
//
// zooming in past the viewport needs real pixels rather
// than an enlargement of the ones already on screen
pub const ZOOM_HEADROOM: u32 = 2;

/// How tall one band may be, for a page `w` pixels across: as many rows as fit what a terminal takes,
/// and one at least.
//
// whole rows, so a band begins where a terminal row does
// and the page stays on the grid across a seam
pub open spec fn band_tall(w: int, cell_h: int) -> int {
    let row = geometry::some(cell_h);
    let tall = view::between(BAND_PIXELS as int / geometry::some(w), 1, MAX_SIDE as int);
    geometry::some(tall / row) * row
}

/// How tall one band may be, for a page `w` pixels across.
pub fn band_height(w: u32, cell_h: u32) -> (r: u32)
    ensures
        r == band_tall(w as int, cell_h as int),
        r > 0,
{
    let row: u32 = if cell_h < 1 {
        1
    } else {
        cell_h
    };
    let most: u32 = BAND_PIXELS / if w < 1 {
        1
    } else {
        w
    };
    let tall: u32 = if most < 1 {
        1
    } else if most > MAX_SIDE {
        MAX_SIDE
    } else {
        most
    };
    let n: u32 = tall / row;
    proof {
        let m = geometry::some(n as int);
        geometry::lemma_quotient(tall as int, row as int);
        assert(m * row > 0 && (m == 1 ==> m * row == row)) by (nonlinear_arith)
            requires
                m >= 1,
                row > 0,
        ;
    }
    if n < 1 {
        row
    } else {
        n * row
    }
}

/// A band is whole rows. Where a row fits at all, a band is one a terminal takes: no taller than it
/// stores, and of no more pixels than go into one image.
pub proof fn law_a_band_fits(w: u32, cell_h: u32)
    requires
        w > 0,
        cell_h > 0,
    ensures
        band_tall(w as int, cell_h as int) % cell_h as int == 0,
        cell_h <= MAX_SIDE && w * cell_h <= BAND_PIXELS ==> band_tall(w as int, cell_h as int)
            <= MAX_SIDE && w * band_tall(w as int, cell_h as int) <= BAND_PIXELS,
{
    let (pw, row) = (w as int, cell_h as int);
    let most = BAND_PIXELS as int / pw;
    let tall = view::between(most, 1, MAX_SIDE as int);
    let n = geometry::some(tall / row);
    let band = band_tall(pw, row);
    vstd::arithmetic::div_mod::lemma_mod_multiples_basic(n, row);
    geometry::lemma_quotient(BAND_PIXELS as int, pw);
    geometry::lemma_quotient(tall, row);
    if row <= MAX_SIDE && pw * row <= BAND_PIXELS {
        assert(row <= most) by (nonlinear_arith)
            requires
                pw * row <= BAND_PIXELS,
                BAND_PIXELS < (most + 1) * pw,
                pw > 0,
        ;
        assert(tall / row >= 1) by (nonlinear_arith)
            requires
                row <= tall,
                row > 0,
        ;
        assert(pw * band <= BAND_PIXELS) by (nonlinear_arith)
            requires
                0 <= band <= most,
                most * pw <= BAND_PIXELS,
                pw > 0,
        ;
    }
}

/// The id a page's band `k` is transmitted under, where the page's first is the run's `n`th.
pub open spec fn band_id(base: u32, n: u32, k: int) -> u32 {
    kitty::nth_id(base, n + k)
}

/// Where a page's bands are: one, where it is no taller, and else as many as it takes.
pub open spec fn spans(h: int, tall: int) -> Seq<(u32, u32)> {
    geometry::cuts(geometry::some(h), geometry::some(tall), 0)
}

/// A page's bands.
pub open spec fn bands_of(h: int, tall: int, base: u32, n: u32) -> Seq<Band> {
    let c = spans(h, tall);
    Seq::new(c.len(), |k: int| Band { y: c[k].0, h: c[k].1, id: band_id(base, n, k) })
}

/// The pixels of one band of a picture.
pub open spec fn band_pixels(fb: Framebuffer, b: Band) -> Seq<u8> {
    if fb.h == 0 {
        fb.px@
    } else {
        fb.px@.subrange(4 * (fb.w * b.y), 4 * (fb.w * (b.y + b.h)))
    }
}

/// Whether `payloads` are the bands of a picture, compressed.
pub open spec fn carries(payloads: Seq<Encoded>, fb: Framebuffer, bands: Seq<Band>) -> bool {
    &&& payloads.len() == bands.len()
    &&& forall|k: int|
        0 <= k < bands.len() ==> {
            let e = #[trigger] payloads[k];
            &&& e.w == fb.w
            &&& e.h == (if fb.h == 0 {
                0
            } else {
                bands[k].h
            })
            &&& e.payload@ == kitty::zlib_fast(band_pixels(fb, bands[k]))
            &&& kitty::unzlib(e.payload@) == band_pixels(fb, bands[k])
        }
}

/// Cut `fb` into bands small enough for a terminal to accept, and compress each one.
pub fn split(fb: &Framebuffer, band_h: u32, base: u32, n: u32) -> (r: (Vec<Band>, Vec<Encoded>))
    requires
        fb.wf(),
    ensures
        r.0@ == bands_of(fb.h as int, band_h as int, base, n),
        carries(r.1@, *fb, r.0@),
{
    let h: u32 = if fb.h < 1 {
        1
    } else {
        fb.h
    };
    let tall: u32 = if band_h < 1 {
        1
    } else {
        band_h
    };
    let spans = cut(h, tall);
    let ghost all = bands_of(fb.h as int, band_h as int, base, n);
    proof {
        geometry::law_cuts_cover(h as int, tall as int, 0);
        geometry::lemma_few_cuts(h as int, tall as int, 0);
    }
    let mut bands: Vec<Band> = Vec::new();
    let mut payloads: Vec<Encoded> = Vec::new();
    let mut k: usize = 0;
    let mut count: u64 = n as u64;
    while k < spans.len()
        invariant
            k <= spans@.len(),
            fb.wf(),
            h == geometry::some(fb.h as int),
            spans@ == geometry::cuts(h as int, tall as int, 0),
            all == bands_of(fb.h as int, band_h as int, base, n),
            tall == geometry::some(band_h as int),
            forall|j: int|
                0 <= j < spans@.len() ==> (#[trigger] spans@[j]).0 + spans@[j].1 <= h && spans@[j].1
                    > 0,
            count == n + k,
            spans@.len() <= 0xffff_ffff,
            bands@ =~= all.take(k as int),
            carries(payloads@, *fb, bands@),
        decreases spans.len() - k,
    {
        let (y, piece) = spans[k];
        let band = Band { y, h: piece, id: next_id(base, count) };
        let e = if fb.h == 0 {
            encode(fb)
        } else {
            encode(&fb.rows(y, piece))
        };
        bands.push(band);
        payloads.push(e);
        assert(bands@.last() == all[k as int]);
        count += 1;
        k += 1;
    }
    assert(all.take(k as int) =~= all);
    (bands, payloads)
}

/// One band, and the row of the screen its top edge lands on.
#[derive(Clone, Copy, Debug, PartialEq, Eq, Structural)]
pub struct Placed {
    pub id: u32,
    pub row: u32,
    pub p: Placement,
}

/// The height of a cell, in units.
pub open spec fn cell_units(s: Shown) -> int {
    30 * (s.cell.h * s.den)
}

/// Where the part of a band begins that the window can see, in units.
pub open spec fn seen_from(s: Shown, top: int, b: Band) -> int {
    if b.y * s.unit() < top {
        top
    } else {
        b.y * s.unit()
    }
}

/// Where it ends, in units.
pub open spec fn seen_to(s: Shown, bottom: int, b: Band) -> int {
    if (b.y + b.h) * s.unit() > bottom {
        bottom
    } else {
        (b.y + b.h) * s.unit()
    }
}

/// Where a band is drawn that the window from `top` to `bottom` can see some of, at least a row.
pub open spec fn placed_band(s: Shown, whole: Placement, top: int, bottom: int, b: Band) -> Option<
    Placed,
> {
    let from = seen_from(s, top, b);
    let to = seen_to(s, bottom, b);
    let rows = geometry::capped(
        geometry::nearest(to - from, cell_units(s)),
        u32::MAX as int,
    );
    if to <= from || rows == 0 {
        None
    } else {
        Some(
            Placed {
                id: b.id,
                row: geometry::capped(
                    geometry::nearest(from - top, cell_units(s)),
                    u32::MAX as int,
                ) as u32,
                p: Placement {
                    src_y: ((from - b.y * s.unit()) / s.unit()) as u32,
                    src_h: ((to - from) / s.unit()) as u32,
                    rows: rows as u32,
                    ..whole
                },
            },
        )
    }
}

/// Where bands are drawn, top to bottom.
pub open spec fn placed_bands(
    s: Shown,
    whole: Placement,
    top: int,
    bottom: int,
    bands: Seq<Band>,
) -> Seq<Placed>
    decreases bands.len(),
{
    if bands.len() == 0 {
        seq![]
    } else {
        let before = placed_bands(s, whole, top, bottom, bands.drop_last());
        match placed_band(s, whole, top, bottom, bands.last()) {
            Some(p) => before.push(p),
            None => before,
        }
    }
}

/// The bands the window can see, top to bottom. One band is the whole picture, and a picture is fitted
/// rather than drawn 1:1; more than one means a document, which is drawn 1:1 and scrolled in whole
/// rows.
pub open spec fn placed_of(s: Shown, v: Aim, cells: (u32, u32)) -> Seq<Placed> {
    let whole = view::placement_of(s, v, cells);
    let top = view::top_of(s, v, cells);
    if s.bands@.len() == 1 {
        seq![Placed { id: s.bands@[0].id, row: 0, p: whole }]
    } else {
        placed_bands(
            s,
            whole,
            top,
            top + view::seen_down(s, v.zoom, cells) * s.unit(),
            s.bands@,
        )
    }
}

fn nearest_row(n: i128, cell: i128) -> (r: u32)
    requires
        0 <= n <= 0x1_0000_0000_0000_0000_0000_0000,
        0 < cell <= 0x1_0000_0000_0000_0000_0000_0000,
    ensures
        r == geometry::capped(geometry::nearest(n as int, cell as int), u32::MAX as int),
{
    let q: i128 = (2 * n + cell) / (2 * cell);
    proof {
        geometry::lemma_quotient(2 * n + cell, 2 * cell);
    }
    if q > 0xffff_ffff {
        0xffff_ffff
    } else {
        q as u32
    }
}

proof fn lemma_units(n: int, most: int, unit: int)
    requires
        0 <= n <= most,
        0 <= unit <= 30 * 0xffff_ffff,
    ensures
        0 <= n * unit <= most * (30 * 0xffff_ffff),
{
    assert(0 <= n * unit <= most * (30 * 0xffff_ffff)) by (nonlinear_arith)
        requires
            0 <= n <= most,
            0 <= unit <= 30 * 0xffff_ffff,
    ;
}

fn place_band(s: &Shown, whole: &Placement, top: i128, bottom: i128, b: &Band) -> (r: Option<Placed>)
    requires
        s.wf(),
        0 <= top <= bottom <= 30 * 0xffff_ffff * 0xffff_ffff,
    ensures
        r == placed_band(*s, *whole, top as int, bottom as int, *b),
{
    let unit: i128 = 30 * s.num as i128;
    proof {
        lemma_units(b.y as int, 0xffff_ffff, unit as int);
        lemma_units(b.y + b.h, 2 * 0xffff_ffffint, unit as int);
        lemma_units(b.h as int, 0xffff_ffff, unit as int);
        geometry::lemma_product(s.cell.h as int, s.den as int);
        assert(s.cell.h * s.den > 0) by (nonlinear_arith)
            requires
                s.cell.h > 0,
                s.den > 0,
        ;
        assert((b.y + b.h) * unit == b.y * unit + b.h * unit) by (nonlinear_arith);
    }
    let edge: i128 = b.y as i128 * unit;
    let end: i128 = (b.y as i128 + b.h as i128) * unit;
    let cell: i128 = 30 * (s.cell.h as i128 * s.den as i128);
    let from: i128 = if edge < top {
        top
    } else {
        edge
    };
    let to: i128 = if end > bottom {
        bottom
    } else {
        end
    };
    if to <= from {
        return None;
    }
    let rows: u32 = nearest_row(to - from, cell);
    if rows == 0 {
        return None;
    }
    let y: i128 = (from - edge) / unit;
    let h: i128 = (to - from) / unit;
    proof {
        geometry::lemma_quotient(from - edge, unit as int);
        geometry::lemma_quotient(to - from, unit as int);
        assert(y <= b.h) by (nonlinear_arith)
            requires
                y * unit <= b.h * unit,
                unit > 0,
        ;
        assert(h <= b.h) by (nonlinear_arith)
            requires
                h * unit <= b.h * unit,
                unit > 0,
        ;
    }
    Some(
        Placed {
            id: b.id,
            row: nearest_row(from - top, cell),
            p: Placement {
                src_x: whole.src_x,
                src_y: y as u32,
                src_w: whole.src_w,
                src_h: h as u32,
                z: whole.z,
                cols: whole.cols,
                rows,
            },
        },
    )
}

/// The bands the window can see, top to bottom.
pub fn placed(s: &Shown, v: &Aim, cells: (u32, u32)) -> (r: Vec<Placed>)
    requires
        s.wf(),
        v.wf(),
        view::reported(cells),
    ensures
        r@ == placed_of(*s, *v, cells),
{
    let whole = placement(s, v, cells);
    let mut out: Vec<Placed> = Vec::new();
    if s.bands.len() == 1 {
        out.push(Placed { id: s.bands[0].id, row: 0, p: whole });
        return out;
    }
    let (top, high) = window(s, v, cells);
    proof {
        lemma_units(high as int, 0xffff_ffff, s.unit());
        lemma_units(s.tall(), 0xffff_ffff, s.unit());
    }
    let bottom: i128 = top + high as i128 * (30 * s.num as i128);
    let mut i: usize = 0;
    while i < s.bands.len()
        invariant
            i <= s.bands@.len(),
            s.wf(),
            0 <= top <= bottom <= 30 * 0xffff_ffff * 0xffff_ffff,
            out@ == placed_bands(*s, whole, top as int, bottom as int, s.bands@.take(i as int)),
        decreases s.bands.len() - i,
    {
        assert(s.bands@.take(i + 1).drop_last() =~= s.bands@.take(i as int));
        if let Some(p) = place_band(s, &whole, top, bottom, &s.bands[i]) {
            out.push(p);
        }
        i += 1;
    }
    assert(s.bands@.take(i as int) =~= s.bands@);
    out
}

/// Where a band ends, in units.
pub open spec fn end_of(s: Shown, b: Band) -> int {
    (b.y + b.h) * s.unit()
}

/// Whether bands stand one below another from the top on, none of them empty, each beginning on a
/// row of the terminal.
pub open spec fn stacked(s: Shown, bands: Seq<Band>) -> bool {
    &&& bands.len() > 0
    &&& bands[0].y == 0
    &&& forall|k: int|
        0 <= k < bands.len() ==> (#[trigger] bands[k]).h > 0 && (bands[k].y * s.unit())
            % cell_units(s) == 0
    &&& forall|k: int, l: int|
        0 <= k && l == k + 1 && l < bands.len() ==> (#[trigger] bands[k]).y + bands[k].h == (
        #[trigger] bands[l]).y
}

/// Whether placed bands fill `rows` rows of the screen from its top on, each beginning where the one
/// before ends.
pub open spec fn fill(p: Seq<Placed>, rows: int) -> bool {
    &&& p.len() > 0
    &&& p[0].row == 0
    &&& p.last().row + p.last().p.rows == rows
    &&& forall|k: int, l: int|
        0 <= k && l == k + 1 && l < p.len() ==> (#[trigger] p[k]).row + p[k].p.rows == (
        #[trigger] p[l]).row
}

proof fn lemma_nearest_exact(n: int, cell: int)
    requires
        0 < cell,
        n % cell == 0,
    ensures
        geometry::nearest(n, cell) == n / cell,
        (n / cell) * cell == n,
{
    vstd::arithmetic::div_mod::lemma_fundamental_div_mod(n, cell);
    let q = n / cell;
    assert((2 * n + cell) / (2 * cell) == q) by (nonlinear_arith)
        requires
            n == cell * q,
            0 < cell,
    ;
    assert(q * cell == n) by (nonlinear_arith)
        requires
            n == cell * q,
    ;
}

proof fn lemma_difference_aligned(a: int, b: int, cell: int)
    requires
        0 < cell,
        a % cell == 0,
        b % cell == 0,
    ensures
        (a - b) % cell == 0,
        (a - b) / cell == a / cell - b / cell,
{
    vstd::arithmetic::div_mod::lemma_fundamental_div_mod(a, cell);
    vstd::arithmetic::div_mod::lemma_fundamental_div_mod(b, cell);
    let q = a / cell - b / cell;
    assert(a - b == q * cell) by (nonlinear_arith)
        requires
            a == cell * (a / cell),
            b == cell * (b / cell),
            q == a / cell - b / cell,
    ;
    vstd::arithmetic::div_mod::lemma_mod_multiples_basic(q, cell);
    let d = a - b;
    assert(d / cell == q) by (nonlinear_arith)
        requires
            d == q * cell,
            cell > 0,
    ;
}

/// What a band between two rows adds.
proof fn lemma_placed_band(s: Shown, whole: Placement, top: int, bottom: int, b: Band)
    requires
        s.wf(),
        0 <= top < bottom,
        top % cell_units(s) == 0,
        bottom % cell_units(s) == 0,
        (bottom - top) / cell_units(s) <= u32::MAX,
        (b.y * s.unit()) % cell_units(s) == 0,
        end_of(s, b) % cell_units(s) == 0 || end_of(s, b) >= bottom,
    ensures
        ({
            let from = seen_from(s, top, b);
            let to = seen_to(s, bottom, b);
            let cell = cell_units(s);
            match placed_band(s, whole, top, bottom, b) {
                Some(p) => {
                    &&& from < to
                    &&& p.row == from / cell - top / cell
                    &&& p.row + p.p.rows == to / cell - top / cell
                },
                None => to <= from,
            }
        }),
{
    let cell = cell_units(s);
    assert(cell > 0) by {
        assert(s.cell.h * s.den > 0) by (nonlinear_arith)
            requires
                s.cell.h > 0,
                s.den > 0,
        ;
    }
    let from = seen_from(s, top, b);
    let to = seen_to(s, bottom, b);
    if from < to {
        lemma_difference_aligned(to, from, cell);
        lemma_difference_aligned(from, top, cell);
        lemma_difference_aligned(bottom, top, cell);
        lemma_nearest_exact(to - from, cell);
        lemma_nearest_exact(from - top, cell);
        let rows = (to - from) / cell;
        assert(rows > 0) by (nonlinear_arith)
            requires
                rows * cell == to - from,
                to > from,
                cell > 0,
        ;
        assert(to / cell <= bottom / cell) by (nonlinear_arith)
            requires
                to <= bottom,
                cell > 0,
        ;
        assert(from / cell >= top / cell) by (nonlinear_arith)
            requires
                from >= top,
                cell > 0,
        ;
    }
}

proof fn lemma_stack(s: Shown, whole: Placement, top: int, bottom: int, bands: Seq<Band>, n: int)
    requires
        s.wf(),
        0 <= top < bottom,
        top % cell_units(s) == 0,
        bottom % cell_units(s) == 0,
        (bottom - top) / cell_units(s) <= u32::MAX,
        stacked(s, bands),
        end_of(s, bands.last()) >= bottom,
        0 < n <= bands.len(),
    ensures
        ({
            let p = placed_bands(s, whole, top, bottom, bands.take(n));
            let end = seen_to(s, bottom, bands[n - 1]);
            if end <= top {
                p.len() == 0
            } else {
                fill(p, end / cell_units(s) - top / cell_units(s))
            }
        }),
    decreases n,
{
    let b = bands[n - 1];
    assert(bands.take(n).drop_last() =~= bands.take(n - 1));
    assert(bands.take(n).last() == b);
    if n < bands.len() {
        assert(bands[n - 1].y + bands[n - 1].h == bands[n].y);
    } else {
        assert(b == bands.last());
    }
    lemma_placed_band(s, whole, top, bottom, b);
    let before = placed_bands(s, whole, top, bottom, bands.take(n - 1));
    let after = placed_bands(s, whole, top, bottom, bands.take(n));
    let edge = b.y * s.unit();
    assert(edge < end_of(s, b)) by (nonlinear_arith)
        requires
            edge == b.y * s.unit(),
            end_of(s, b) == (b.y + b.h) * s.unit(),
            b.h > 0,
            s.unit() > 0,
    ;
    if n > 1 {
        lemma_stack(s, whole, top, bottom, bands, n - 1);
        assert(bands[n - 2].y + bands[n - 2].h == bands[n - 1].y);
        assert(end_of(s, bands[n - 2]) == edge);
    } else {
        assert(bands.take(0) =~= Seq::<Band>::empty());
        assert(edge == 0) by (nonlinear_arith)
            requires
                edge == b.y * s.unit(),
                b.y == 0,
        ;
    }
}

/// The bands of a page that the window sees fill it exactly: the first begins at the top of the
/// screen, each begins in the row after the one before, and the last ends where the window does.
/// That is so wherever bands and window begin and end on rows of the terminal.
pub proof fn law_bands_fill_the_window(
    s: Shown,
    whole: Placement,
    top: int,
    bottom: int,
    bands: Seq<Band>,
)
    requires
        s.wf(),
        0 <= top < bottom,
        top % cell_units(s) == 0,
        bottom % cell_units(s) == 0,
        (bottom - top) / cell_units(s) <= u32::MAX,
        stacked(s, bands),
        end_of(s, bands.last()) >= bottom,
    ensures
        fill(
            placed_bands(s, whole, top, bottom, bands),
            bottom / cell_units(s) - top / cell_units(s),
        ),
{
    lemma_stack(s, whole, top, bottom, bands, bands.len() as int);
    assert(bands.take(bands.len() as int) =~= bands);
}

/// A page's bands cover it exactly: contiguous from its top to its end, none empty, and the last one
/// is the remainder.
pub proof fn law_bands_cover_the_page(h: u32, tall: u32, base: u32, n: u32)
    requires
        h > 0,
        tall > 0,
    ensures
        ({
            let b = bands_of(h as int, tall as int, base, n);
            &&& b.len() > 0
            &&& b[0].y == 0
            &&& b.last().y + b.last().h == h
            &&& forall|k: int| 0 <= k < b.len() ==> 0 < (#[trigger] b[k]).h <= tall
            &&& forall|k: int, l: int|
                0 <= k && l == k + 1 && l < b.len() ==> (#[trigger] b[k]).y + b[k].h == (
                #[trigger] b[l]).y
            &&& h <= tall ==> b.len() == 1
        }),
{
    geometry::law_cuts_cover(h as int, tall as int, 0);
    let c = geometry::cuts(h as int, tall as int, 0);
    let b = bands_of(h as int, tall as int, base, n);
    assert(b.last() == b[b.len() - 1]);
    if h <= tall {
        geometry::law_cuts_cover(h as int, tall as int, h as int);
        assert(c =~= seq![(0u32, h)] + geometry::cuts(h as int, tall as int, h as int));
    }
}

/// Two bands of a page have ids of their own.
pub proof fn law_bands_have_ids_of_their_own(h: u32, tall: u32, base: u32, n: u32, k: int, l: int)
    requires
        0 <= k < l < bands_of(h as int, tall as int, base, n).len(),
    ensures
        bands_of(h as int, tall as int, base, n)[k].id != bands_of(h as int, tall as int, base, n)[l].id,
        bands_of(h as int, tall as int, base, n)[k].id != 0,
{
    geometry::lemma_few_cuts(geometry::some(h as int), geometry::some(tall as int), 0);
    kitty::law_ids_are_distinct(base, n + k, n + l);
}

/// A band holds the rows of the picture that it stands for, pixel for pixel.
pub proof fn law_a_band_holds_its_rows(fb: Framebuffer, b: Band, i: int)
    requires
        fb.wf(),
        fb.h > 0,
        b.y + b.h <= fb.h,
        4 * (fb.w * b.y) <= i < 4 * (fb.w * (b.y + b.h)),
    ensures
        band_pixels(fb, b).len() == 4 * (fb.w * (b.y + b.h)) - 4 * (fb.w * b.y),
        band_pixels(fb, b)[i - 4 * (fb.w * b.y)] == fb.px@[i],
{
    let (w, y, h, t) = (fb.w as int, b.y as int, b.h as int, fb.h as int);
    assert(0 <= w * y <= w * (y + h) <= w * t) by (nonlinear_arith)
        requires
            0 <= w,
            0 <= y,
            0 <= h,
            y + h <= t,
    ;
}

/// A band is placed where it stands in the window: what is seen of it is what the window and it have in
/// common, in the row that this begins in, to the nearest, and as wide and as deep as the whole is.
pub proof fn law_a_band_is_placed_where_it_stands(
    s: Shown,
    whole: Placement,
    top: int,
    bottom: int,
    b: Band,
)
    requires
        s.wf(),
        0 <= top <= bottom <= u32::MAX * s.unit(),
        b.y + b.h <= u32::MAX,
    ensures
        ({
            let (from, to) = (b.y * (30 * s.num), (b.y + b.h) * (30 * s.num));
            let begin = if from < top {
                top
            } else {
                from
            };
            let end = if to > bottom {
                bottom
            } else {
                to
            };
            let cell = 30 * (s.cell.h * s.den);
            match placed_band(s, whole, top, bottom, b) {
                Some(p) => {
                    &&& begin < end
                    &&& p.id == b.id
                    &&& p.p.src_x == whole.src_x && p.p.src_w == whole.src_w && p.p.cols == whole.cols
                        && p.p.z == whole.z
                    &&& (b.y + p.p.src_y) * (30 * s.num) <= begin < (b.y + p.p.src_y + 1) * (30 * s.num)
                    &&& p.p.src_h * (30 * s.num) <= end - begin < (p.p.src_h + 1) * (30 * s.num)
                    &&& p.row < u32::MAX ==> 2 * (p.row * cell - (begin - top)) <= cell && 2 * ((begin
                        - top) - p.row * cell) <= cell
                    &&& p.p.rows < u32::MAX ==> 2 * (p.p.rows * cell - (end - begin)) <= cell && 2 * ((end
                        - begin) - p.p.rows * cell) <= cell
                    &&& p.p.rows >= 1
                },
                None => end <= begin || 2 * (end - begin) < cell,
            }
        }),
{
    let unit = s.unit();
    let (from, to) = (b.y * unit, (b.y + b.h) * unit);
    let begin = seen_from(s, top, b);
    let end = seen_to(s, bottom, b);
    let cell = cell_units(s);
    assert(cell > 0) by (nonlinear_arith)
        requires
            cell == 30 * (s.cell.h * s.den),
            0 < s.cell.h,
            0 < s.den,
    ;
    lemma_nearest_near(begin - top, cell);
    lemma_nearest_near(end - begin, cell);
    if begin < end {
        let y = begin - from;
        geometry::lemma_quotient(y, unit);
        geometry::lemma_quotient(end - begin, unit);
        assert(0 <= y);
        let q = y / unit;
        let h = (end - begin) / unit;
        assert(from + q * unit == (b.y + q) * unit && from + (q + 1) * unit == (b.y + q + 1) * unit)
            by (nonlinear_arith)
            requires
                from == b.y * unit,
        ;
        let most = u32::MAX * unit;
        assert(to <= most) by (nonlinear_arith)
            requires
                to == (b.y + b.h) * unit,
                most == u32::MAX * unit,
                b.y + b.h <= u32::MAX,
                unit > 0,
        ;
        assert(0 <= from) by (nonlinear_arith)
            requires
                from == b.y * unit,
                0 <= b.y,
                unit > 0,
        ;
        assert(q <= u32::MAX && h <= u32::MAX) by (nonlinear_arith)
            requires
                q * unit <= y,
                h * unit <= end - begin,
                y <= u32::MAX * unit,
                end - begin <= u32::MAX * unit,
                unit > 0,
        ;
    }
}

proof fn lemma_nearest_near(a: int, b: int)
    requires
        0 < b,
    ensures
        2 * (geometry::nearest(a, b) * b - a) <= b,
        2 * (a - geometry::nearest(a, b) * b) <= b,
        a >= 0 ==> geometry::nearest(a, b) >= 0,
        geometry::nearest(a, b) == 0 ==> 2 * a < b,
{
    let q = geometry::nearest(a, b);
    geometry::lemma_quotient(2 * a + b, 2 * b);
    assert(2 * (q * b - a) <= b && 2 * (a - q * b) <= b && (q == 0 ==> 2 * a < b)) by (nonlinear_arith)
        requires
            q * (2 * b) <= 2 * a + b < (q + 1) * (2 * b),
    ;
}

/// A page of one band is placed as a whole, at the top of the screen, under its id.
pub proof fn law_one_band_is_the_whole(s: Shown, v: Aim, cells: (u32, u32))
    requires
        s.bands@.len() == 1,
    ensures
        placed_of(s, v, cells) == seq![
            Placed { id: s.bands@[0].id, row: 0, p: view::placement_of(s, v, cells) },
        ],
{
}

/// A band is as tall as may be: a row more would be more than a terminal stores, or more pixels than go
/// into one image.
pub proof fn law_a_band_is_as_tall_as_may_be(w: u32, cell_h: u32)
    requires
        w > 0,
        cell_h > 0,
    ensures
        band_tall(w as int, cell_h as int) >= cell_h,
        ({
            let more = band_tall(w as int, cell_h as int) + cell_h;
            more > MAX_SIDE || w * more > BAND_PIXELS
        }),
{
    let (pw, row) = (w as int, cell_h as int);
    let most = BAND_PIXELS as int / pw;
    let tall = view::between(most, 1, MAX_SIDE as int);
    let n = geometry::some(tall / row);
    let band = band_tall(pw, row);
    geometry::lemma_quotient(BAND_PIXELS as int, pw);
    geometry::lemma_quotient(tall, row);
    assert(band >= row) by (nonlinear_arith)
        requires
            band == n * row,
            n >= 1,
            row > 0,
    ;
    assert(band + row > tall) by (nonlinear_arith)
        requires
            band == n * row,
            n >= tall / row,
            tall < (tall / row + 1) * row,
            row > 0,
    ;
    let more = band + row;
    if more <= MAX_SIDE {
        assert(more > most);
        assert(pw * more > BAND_PIXELS) by (nonlinear_arith)
            requires
                more >= most + 1,
                BAND_PIXELS < (most + 1) * pw,
                pw > 0,
        ;
    }
}

/// The bands of a page are named one after another, the first as the run has come to.
pub proof fn law_bands_are_named_in_order(h: u32, tall: u32, base: u32, n: u32, k: int)
    requires
        0 <= k < bands_of(h as int, tall as int, base, n).len(),
    ensures
        bands_of(h as int, tall as int, base, n)[k].id == kitty::nth_id(base, n + k),
{
}

} // verus!
