//! A decoded source brought to the size it is sent at.

use vstd::prelude::*;

use crate::framebuffer;
use crate::framebuffer::{flatten_onto, resize, Framebuffer};
use crate::geometry;
use crate::geometry::{hold, scale, CellSize, Held};
use crate::render::kitty::Encoded;
use crate::source::index::Index;
use crate::source::{Hints, Kind};
use crate::tui::bands;
use crate::tui::bands::{band_height, split, ZOOM_HEADROOM};
use crate::tui::view;
use crate::tui::view::Shown;

verus! {

/// How many times the viewport a source is decoded at. A document is drawn at the size asked for, so
/// headroom costs four times the pixels for the same page.
pub open spec fn headroom(kind: Kind) -> int {
    match kind {
        Kind::Document => 1,
        Kind::Image => ZOOM_HEADROOM as int,
    }
}

/// What a decoder is asked for. Of a document it is the whole: scrolling places out of its pixels
/// rather than drawing the page again.
pub open spec fn hints_of(kind: Kind, cells: (u32, u32), cell: CellSize, max_px: u64) -> Hints {
    Hints {
        max_w: geometry::capped(
            cells.0 * headroom(kind) * cell.w,
            u32::MAX as int,
        ) as u32,
        max_h: match kind {
            Kind::Document => u32::MAX,
            Kind::Image => geometry::capped(
                cells.1 * headroom(kind) * cell.h,
                u32::MAX as int,
            ) as u32,
        },
        cell,
        max_px,
    }
}

fn pixels(n: u32, by: u32, cell: u32) -> (r: u32)
    requires
        n <= 0xffff,
        by <= 2,
    ensures
        r == geometry::capped(n * by * cell, u32::MAX as int),
{
    assert(0 <= n * by <= 0x1_fffe) by (nonlinear_arith)
        requires
            0 <= n <= 0xffff,
            0 <= by <= 2,
    ;
    let many: u64 = n as u64 * by as u64;
    assert(0 <= many * cell <= 0x1_fffe * 0xffff_ffff) by (nonlinear_arith)
        requires
            0 <= many <= 0x1_fffe,
            0 <= cell <= 0xffff_ffff,
    ;
    let px: u64 = many * cell as u64;
    if px > 0xffff_ffff {
        0xffff_ffff
    } else {
        px as u32
    }
}

/// What a decoder is asked for.
pub fn hints(kind: Kind, cells: (u32, u32), cell: CellSize, max_px: u64) -> (r: Hints)
    requires
        view::reported(cells),
    ensures
        r == hints_of(kind, cells, cell, max_px),
{
    let by: u32 = match kind {
        Kind::Document => 1,
        Kind::Image => ZOOM_HEADROOM,
    };
    Hints {
        max_w: pixels(cells.0, by, cell.w),
        max_h: match kind {
            Kind::Document => 0xffff_ffff,
            Kind::Image => pixels(cells.1, by, cell.h),
        },
        cell,
        max_px,
    }
}

/// How a decoded source is sent: its size, and how many of the terminal's pixels one of its own
/// stands for, as a fraction.
#[derive(Clone, Copy, Debug, PartialEq, Eq, Structural)]
pub struct Reduced {
    pub w: u32,
    pub h: u32,
    pub num: u32,
    pub den: u32,
}

/// By how much a picture is shrunk to what was asked for, as a fraction, where each of its pixels
/// stands for `drawn` pixels.
pub open spec fn fitting(w: int, h: int, drawn: (u32, u32), hints: Hints) -> (int, int) {
    let narrow = hints.max_w * h <= hints.max_h * w;
    if narrow && hints.max_w * drawn.1 < w * drawn.0 {
        (hints.max_w * drawn.1, w * drawn.0)
    } else if !narrow && hints.max_h * drawn.1 < h * drawn.0 {
        (hints.max_h * drawn.1, h * drawn.0)
    } else {
        (1, 1)
    }
}

/// A fraction as it is, or with both parts halved until each fits a side's bits.
pub open spec fn squeezed(n: int, d: int) -> (int, int)
    decreases n + d,
{
    if n < 0 || d < 0 || (n <= u32::MAX && d <= u32::MAX) {
        (n, d)
    } else {
        squeezed(n / 2, d / 2)
    }
}

/// How a picture of `w` by `h` pixels, each standing for `drawn` pixels, is brought within the cap: as
/// it is, or shrunk, each pixel then standing for as many more.
pub open spec fn held(w: u32, h: u32, drawn: (u32, u32), max_px: u64) -> Reduced {
    let to = geometry::held_of(w, h, max_px as int);
    if w * h > max_px {
        let per = squeezed(drawn.0 * to.num, drawn.1 * to.den);
        Reduced {
            w: to.w,
            h: to.h,
            num: per.0 as u32,
            den: geometry::some(per.1) as u32,
        }
    } else {
        Reduced { w, h, num: drawn.0, den: drawn.1 }
    }
}

/// How a source decoded at `dw` by `dh` pixels, each standing for `drawn` pixels, is sent: a picture
/// shrunk to what was asked for, then brought within the cap, and never enlarged. A document is drawn
/// at the size it is sent at: its height is the document, and a screenful of it would drop the text
/// panning is for.
pub open spec fn reduced_of(kind: Kind, dw: u32, dh: u32, drawn: (u32, u32), hints: Hints) -> Reduced {
    if kind == Kind::Document || dw == 0 || dh == 0 {
        Reduced { w: dw, h: dh, num: drawn.0, den: drawn.1 }
    } else {
        let (n, d) = fitting(dw as int, dh as int, drawn, hints);
        if n < d {
            held(
                geometry::scaled(dw as int, n, d),
                geometry::scaled(dh as int, n, d),
                drawn,
                hints.max_px,
            )
        } else {
            held(dw, dh, drawn, hints.max_px)
        }
    }
}

fn squeeze(n: u64, d: u64) -> (r: (u32, u32))
    requires
        n >= d,
        n > 0,
    ensures
        (r.0 as int, r.1 as int) == squeezed(n as int, d as int),
        r.0 > 0,
{
    let mut a: u64 = n;
    let mut b: u64 = d;
    while a > 0xffff_ffff || b > 0xffff_ffff
        invariant
            squeezed(a as int, b as int) == squeezed(n as int, d as int),
            a > 0,
            a >= b,
        decreases a + b,
    {
        a = a / 2;
        b = b / 2;
    }
    (a as u32, b as u32)
}

fn bring_within(w: u32, h: u32, drawn: (u32, u32), max_px: u64) -> (r: Reduced)
    requires
        0 < drawn.1 <= drawn.0,
    ensures
        r == held(w, h, drawn, max_px),
        r.num > 0,
        r.den > 0,
{
    proof {
        geometry::lemma_product(w as int, h as int);
    }
    if w as u64 * h as u64 <= max_px {
        return Reduced { w, h, num: drawn.0, den: drawn.1 };
    }
    let Held { w, h, num, den } = hold(w, h, max_px);
    proof {
        geometry::lemma_product(drawn.0 as int, num as int);
        geometry::lemma_product(drawn.1 as int, den as int);
        assert(drawn.0 * num >= drawn.1 * den && drawn.0 * num > 0) by (nonlinear_arith)
            requires
                0 < drawn.1 <= drawn.0,
                0 < den <= num,
        ;
    }
    let (n, d) = squeeze(drawn.0 as u64 * num as u64, drawn.1 as u64 * den as u64);
    Reduced {
        w,
        h,
        num: n,
        den: if d < 1 {
            1
        } else {
            d
        },
    }
}

/// How a source decoded at `dw` by `dh` pixels, each standing for `drawn.0 / drawn.1` pixels, is sent.
pub fn reduced(kind: Kind, dw: u32, dh: u32, drawn: (u32, u32), hints: &Hints) -> (r: Reduced)
    requires
        0 < drawn.1 <= drawn.0,
    ensures
        r == reduced_of(kind, dw, dh, drawn, *hints),
        r.num > 0,
        r.den > 0,
{
    let document = match kind {
        Kind::Document => true,
        Kind::Image => false,
    };
    if document || dw == 0 || dh == 0 {
        return Reduced { w: dw, h: dh, num: drawn.0, den: drawn.1 };
    }
    proof {
        geometry::lemma_product(hints.max_w as int, dh as int);
        geometry::lemma_product(hints.max_h as int, dw as int);
        geometry::lemma_product(hints.max_w as int, drawn.1 as int);
        geometry::lemma_product(hints.max_h as int, drawn.1 as int);
        geometry::lemma_product(dw as int, drawn.0 as int);
        geometry::lemma_product(dh as int, drawn.0 as int);
    }
    let narrow = hints.max_w as u64 * dh as u64 <= hints.max_h as u64 * dw as u64;
    let (room, side): (u64, u64) = if narrow {
        (hints.max_w as u64 * drawn.1 as u64, dw as u64 * drawn.0 as u64)
    } else {
        (hints.max_h as u64 * drawn.1 as u64, dh as u64 * drawn.0 as u64)
    };
    if room < side {
        bring_within(scale(dw, room, side), scale(dh, room, side), drawn, hints.max_px)
    } else {
        bring_within(dw, dh, drawn, hints.max_px)
    }
}

/// How tall a cell is in pixels of the image, to the nearest.
pub open spec fn cell_tall(cell: CellSize, r: Reduced) -> int {
    geometry::capped(geometry::nearest(cell.h * r.den, r.num as int), u32::MAX as int)
}

/// Whether `s` is a page of pixels `fb`, cut into bands, with the run's ids from the `n`th on.
pub open spec fn shows(
    s: Shown,
    payloads: Seq<Encoded>,
    fb: Framebuffer,
    kind: Kind,
    cell: CellSize,
    r: Reduced,
    base: u32,
    n: u32,
) -> bool {
    &&& s.w == r.w == fb.w
    &&& s.h == r.h == fb.h
    &&& s.kind == kind
    &&& s.cell == cell
    &&& s.num == r.num
    &&& s.den == r.den
    &&& s.bands@ == bands::bands_of(
        r.h as int,
        bands::band_tall(r.w as int, cell_tall(cell, r)),
        base,
        n,
    )
    &&& bands::carries(payloads, fb, s.bands@)
}

/// Cut a picture that has its size into bands: composited over the background, and compressed.
pub fn banded(
    fb: Framebuffer,
    r: Reduced,
    index: Option<Index>,
    kind: Kind,
    cell: CellSize,
    background: [u8; 3],
    base: u32,
    n: u32,
) -> (out: (Shown, Vec<Encoded>))
    requires
        fb.wf(),
        fb.w == r.w,
        fb.h == r.h,
        r.num > 0,
        r.den > 0,
        cell.w > 0,
        cell.h > 0,
        index matches Some(ix) ==> ix.column <= 0xffff,
    ensures
        out.0.wf(),
        out.0.index == index,
        exists|flat: Framebuffer|
            {
                &&& #[trigger] shows(out.0, out.1@, flat, kind, cell, r, base, n)
                &&& flat.px@ == framebuffer::flat(fb.px@, background@)
            },
{
    let mut flat = fb;
    flatten_onto(&mut flat, background);
    assert(flat.px@ =~= framebuffer::flat(fb.px@, background@));
    proof {
        geometry::lemma_product(cell.h as int, r.den as int);
    }
    let tall: u64 = cell.h as u64 * r.den as u64;
    let q: u128 = (2 * tall as u128 + r.num as u128) / (2 * r.num as u128);
    let cell_h: u32 = if q > 0xffff_ffff {
        0xffff_ffff
    } else {
        q as u32
    };
    let (bands, payloads) = split(&flat, band_height(r.w, cell_h), base, n);
    let shown = Shown {
        w: r.w,
        h: r.h,
        bands,
        kind,
        cell,
        num: r.num,
        den: r.den,
        index,
    };
    let out = (shown, payloads);
    assert(shows(out.0, out.1@, flat, kind, cell, r, base, n));
    out
}

/// Bring a decoded source to the size it is sent at, composite it over the background and cut it into
/// bands. A pixel of it stands for `drawn.0 / drawn.1` pixels. Nothing comes of a source too large to
/// be scaled.
pub fn ready(
    fb: Framebuffer,
    index: Option<Index>,
    drawn: (u32, u32),
    kind: Kind,
    cells: (u32, u32),
    cell: CellSize,
    max_px: u64,
    background: [u8; 3],
    base: u32,
    n: u32,
) -> (out: Option<(Shown, Vec<Encoded>)>)
    requires
        fb.wf(),
        0 < drawn.1 <= drawn.0,
        view::reported(cells),
        cell.w > 0,
        cell.h > 0,
        index matches Some(ix) ==> ix.column <= 0xffff,
    ensures
        ({
            let r = reduced_of(kind, fb.w, fb.h, drawn, hints_of(kind, cells, cell, max_px));
            let same = r.w == fb.w && r.h == fb.h;
            &&& out is Some <==> framebuffer::scalable(fb, r.w, r.h)
            &&& out matches Some((s, payloads)) ==> {
                &&& s.wf()
                &&& s.index == index
                &&& exists|sized: Framebuffer, flat: Framebuffer|
                    {
                        &&& #[trigger] shows(s, payloads@, flat, kind, cell, r, base, n)
                        &&& flat.px@ == #[trigger] framebuffer::flat(sized.px@, background@)
                        &&& same ==> sized == fb
                        &&& !same ==> call_ensures(resize, (&fb, r.w, r.h), sized)
                    }
            }
        }),
{
    let h = hints(kind, cells, cell, max_px);
    let r = reduced(kind, fb.w, fb.h, drawn, &h);
    if !framebuffer::can_resize(&fb, r.w, r.h) {
        return None;
    }
    let sized = if r.w == fb.w && r.h == fb.h {
        fb
    } else {
        resize(&fb, r.w, r.h)
    };
    Some(banded(sized, r, index, kind, cell, background, base, n))
}

/// A source is never enlarged, and a picture that is sent holds no more pixels than the cap.
pub proof fn law_nothing_passes_the_cap(
    kind: Kind,
    dw: u32,
    dh: u32,
    drawn: (u32, u32),
    hints: Hints,
)
    requires
        dw > 0,
        dh > 0,
        0 < drawn.1 <= drawn.0,
        hints.max_px > 0,
    ensures
        ({
            let r = reduced_of(kind, dw, dh, drawn, hints);
            &&& r.w <= dw
            &&& r.h <= dh
            &&& kind == Kind::Image ==> r.w * r.h <= hints.max_px
        }),
{
    let (n, d) = fitting(dw as int, dh as int, drawn, hints);
    if kind == Kind::Image {
        if n < d {
            assert(0 <= n) by (nonlinear_arith)
                requires
                    n == 1 || n == hints.max_w * drawn.1 || n == hints.max_h * drawn.1,
            ;
            lemma_scaled_within(dw as int, n, d, dw as int);
            lemma_scaled_within(dh as int, n, d, dh as int);
            lemma_held(
                geometry::scaled(dw as int, n, d),
                geometry::scaled(dh as int, n, d),
                drawn,
                hints.max_px,
            );
        } else {
            lemma_held(dw, dh, drawn, hints.max_px);
        }
    }
}

/// What is brought within the cap is within it, and does not grow.
proof fn lemma_held(w: u32, h: u32, drawn: (u32, u32), max_px: u64)
    requires
        w > 0,
        h > 0,
        max_px > 0,
    ensures
        ({
            let r = held(w, h, drawn, max_px);
            &&& r.w <= w
            &&& r.h <= h
            &&& r.w * r.h <= max_px
        }),
{
    geometry::law_pixels_within(w, h, max_px as int);
}

/// What is scaled down does not grow.
proof fn lemma_scaled_within(x: int, num: int, den: int, hi: int)
    requires
        1 <= x <= hi <= u32::MAX,
        0 <= num <= den,
        0 < den,
    ensures
        geometry::scaled(x, num, den) <= hi,
{
    let a = 2 * (x * num) + den;
    assert(a / (2 * den) <= hi) by (nonlinear_arith)
        requires
            a == 2 * (x * num) + den,
            x <= hi,
            0 <= num <= den,
            0 < den,
            x >= 1,
    ;
}

/// A picture is decoded at twice the window, so that it can be looked at closely, and a document at the
/// window's width and as long as it is; no more than a side can have.
pub proof fn law_a_source_is_asked_for_at_its_size(cells: (u32, u32), cell: CellSize, max_px: u64)
    ensures
        ({
            let picture = hints_of(Kind::Image, cells, cell, max_px);
            let page = hints_of(Kind::Document, cells, cell, max_px);
            &&& cells.0 * 2 * cell.w <= u32::MAX ==> picture.max_w == cells.0 * 2 * cell.w
            &&& cells.1 * 2 * cell.h <= u32::MAX ==> picture.max_h == cells.1 * 2 * cell.h
            &&& cells.0 * 1 * cell.w <= u32::MAX ==> page.max_w == cells.0 * 1 * cell.w
            &&& page.max_h == u32::MAX
            &&& picture.cell == cell && page.cell == cell
            &&& picture.max_px == max_px && page.max_px == max_px
        }),
{
}

/// A picture is sent within what was asked for, and touches it one way or keeps its own size, with its
/// aspect kept to a pixel's rounding, where the cap allows as many pixels. A document is sent as it was
/// drawn.
pub proof fn law_a_picture_is_sent_within_what_was_asked(dw: u32, dh: u32, hints: Hints)
    requires
        dw > 0,
        dh > 0,
        hints.max_w > 0,
        hints.max_h > 0,
        dw * dh <= hints.max_px,
    ensures
        ({
            let r = reduced_of(Kind::Image, dw, dh, (1, 1), hints);
            let page = reduced_of(Kind::Document, dw, dh, (1, 1), hints);
            &&& r.w <= hints.max_w
            &&& r.h <= hints.max_h
            &&& (r.w, r.h) == (dw, dh) || r.w == hints.max_w || r.h == hints.max_h
            &&& dw <= hints.max_w && dh <= hints.max_h ==> (r.w, r.h) == (dw, dh)
            &&& r.w * dh - r.h * dw <= dw + dh
            &&& r.h * dw - r.w * dh <= dw + dh
            &&& r.num == 1 && r.den == 1
            &&& (page.w, page.h, page.num, page.den) == (dw, dh, 1u32, 1u32)
        }),
{
    let (w, h) = (dw as int, dh as int);
    let (mw, mh) = (hints.max_w as int, hints.max_h as int);
    assert(w * h == h * w) by (nonlinear_arith);
    assert(mw * 1 == mw && mh * 1 == mh && w * 1 == w && h * 1 == h);
    if mw * h <= mh * w && mw < w {
        let (a, b) = (geometry::scaled(w, mw, w), geometry::scaled(h, mw, w));
        geometry::lemma_nearest_same(w, mw);
        assert(h * mw <= mh * w) by (nonlinear_arith)
            requires
                mw * h <= mh * w,
        ;
        geometry::lemma_nearest_within(h, mw, w, mh);
        geometry::lemma_sides_keep_ratio(w, h, mw, w);
        assert(a * b <= dw * dh) by {
            lemma_scaled_within(h, mw, w, h);
            assert(a * b <= w * h) by (nonlinear_arith)
                requires
                    0 <= a <= w,
                    0 <= b <= h,
            ;
        }
    } else if !(mw * h <= mh * w) && mh < h {
        let (a, b) = (geometry::scaled(w, mh, h), geometry::scaled(h, mh, h));
        geometry::lemma_nearest_same(h, mh);
        assert(w * mh <= mw * h) by (nonlinear_arith)
            requires
                mw * h > mh * w,
        ;
        geometry::lemma_nearest_within(w, mh, h, mw);
        geometry::lemma_sides_keep_ratio(w, h, mh, h);
        assert(a * b <= dw * dh) by {
            lemma_scaled_within(w, mh, h, w);
            assert(a * b <= w * h) by (nonlinear_arith)
                requires
                    0 <= a <= w,
                    0 <= b <= h,
            ;
        }
    } else {
        assert(dw <= hints.max_w && dh <= hints.max_h) by (nonlinear_arith)
            requires
                mw == hints.max_w,
                mh == hints.max_h,
                w == dw,
                h == dh,
                mw * h <= mh * w ==> mw >= w,
                !(mw * h <= mh * w) ==> mh >= h,
                0 < w,
                0 < h,
        ;
    }
}

/// A cell is as many pixels of the image tall as it takes of the terminal's, to the nearest.
pub proof fn law_a_cell_is_as_tall_in_the_image(cell: CellSize, r: Reduced)
    requires
        r.num > 0,
    ensures
        ({
            let n = cell_tall(cell, r);
            n < u32::MAX ==> 2 * (n * r.num - cell.h * r.den) <= r.num && 2 * (cell.h * r.den - n
                * r.num) <= r.num
        }),
{
    let (a, b) = (cell.h * r.den, r.num as int);
    let q = geometry::nearest(a, b);
    geometry::lemma_quotient(2 * a + b, 2 * b);
    assert(2 * (q * b - a) <= b && 2 * (a - q * b) <= b) by (nonlinear_arith)
        requires
            q * (2 * b) <= 2 * a + b < (q + 1) * (2 * b),
    ;
}

/// A picture that the cap shrinks is shrunk to as many pixels as it allows, and each of them stands for
/// as many more as it took off.
pub proof fn law_the_cap_is_made_up_for(dw: u32, dh: u32, drawn: (u32, u32), hints: Hints)
    requires
        dw > 0,
        dh > 0,
        0 < drawn.1 <= drawn.0,
        dw * drawn.0 <= hints.max_w * drawn.1,
        dh * drawn.0 <= hints.max_h * drawn.1,
        dw * dh > hints.max_px,
    ensures
        ({
            let r = reduced_of(Kind::Image, dw, dh, drawn, hints);
            let to = geometry::held_of(dw, dh, hints.max_px as int);
            &&& r.w == to.w
            &&& r.h == to.h
            &&& drawn.0 * to.num <= u32::MAX && 0 < drawn.1 * to.den <= u32::MAX ==> r.num == drawn.0
                * to.num && r.den == drawn.1 * to.den
        }),
{
    let to = geometry::held_of(dw, dh, hints.max_px as int);
    assert(0 <= drawn.0 * to.num && 0 <= drawn.1 * to.den) by (nonlinear_arith)
        requires
            0 <= drawn.0,
            0 <= to.num,
            0 <= drawn.1,
            0 <= to.den,
    ;
}

} // verus!
